use file_processor::count::count_words;
use file_processor::document::Document;
use file_processor::lines::{join_lines, split_lines};
use file_processor::processor::FileProcessor;
use file_processor::table::WordTable;
use file_processor::transform::filter_and_uppercase;
use file_processor::words::{normalize_word, tokens_of};

fn doc(lines: &[&str]) -> Document {
    Document::from_lines(lines.iter().map(|l| l.to_string()).collect())
}

fn chars(s: &str) -> Vec<char> {
    s.chars().collect()
}

fn text(v: &[char]) -> String {
    v.iter().collect()
}

#[test]
fn count_words_folds_case_and_strips_punctuation() {
    let t = count_words(&doc(&["hello world", "", "Hello, HELLO!"]));
    assert_eq!(t.len(), 2);
    assert_eq!(t.count("hello"), 3);
    assert_eq!(t.count("world"), 1);
    assert_eq!(t.count("Hello"), 0);
    assert_eq!(t.render(), "hello: 3\nworld: 1\n");
}

#[test]
fn filter_and_uppercase_drops_blank_lines() {
    let r = filter_and_uppercase(&doc(&["  ", "keep me", ""]));
    assert_eq!(r, vec!["KEEP ME".to_string()]);
}

#[test]
fn filter_and_uppercase_keeps_surrounding_whitespace() {
    let r = filter_and_uppercase(&doc(&[" a-b c\t", "\t\r", "Ünïcode x"]));
    assert_eq!(r, vec![" A-B C\t".to_string(), "ÜNïCODE X".to_string()]);
}

#[test]
fn table_words_are_folded_letters() {
    let t = count_words(&doc(&["--Foo!! (bar) BAZ... 123 ?!", "foo\tqux"]));
    assert_eq!(t.len(), 4);
    for w in ["foo", "bar", "baz", "qux"] {
        assert!(t.count(w) > 0);
    }
    assert_eq!(t.count("foo"), 2);
}

#[test]
fn inner_punctuation_stays_in_word() {
    assert_eq!(text(&normalize_word(&chars("--Don't!"))), "don't");
    assert_eq!(text(&normalize_word(&chars("42!"))), "");
    assert_eq!(text(&normalize_word(&chars("A"))), "a");
}

#[test]
fn total_counts_equal_tokens_with_a_letter() {
    let t = count_words(&doc(&["-- 42 abc d3f x", "", "  ?? y!  "]));
    let sum: u32 = ["abc", "d3f", "x", "y"].iter().map(|w| t.count(w)).sum();
    assert_eq!(sum, 4);
    assert_eq!(t.len(), 4);
}

#[test]
fn tokens_split_on_whitespace_runs() {
    let ts = tokens_of(&chars("  a  bc\td\r\n"));
    let ts: Vec<String> = ts.iter().map(|t| text(t)).collect();
    assert_eq!(ts, vec!["a", "bc", "d"]);
    assert!(tokens_of(&chars(" \t ")).is_empty());
}

#[test]
fn filter_and_uppercase_twice_is_once() {
    let d = doc(&["abc", "", "  x y ", " ", "Q"]);
    let once = filter_and_uppercase(&d);
    let twice = filter_and_uppercase(&Document::from_lines(once.clone()));
    assert_eq!(once, twice);
    let fixed = doc(&["ABC", " X-1 "]);
    assert_eq!(filter_and_uppercase(&fixed), fixed.lines);
}

#[test]
fn filter_and_uppercase_keeps_order_and_never_adds() {
    let d = doc(&["c", " ", "a", "", "b"]);
    let r = filter_and_uppercase(&d);
    assert_eq!(r, vec!["C", "A", "B"]);
    assert!(r.len() <= d.len());
}

#[test]
fn most_frequent_on_empty_table_is_none() {
    let t = WordTable::new();
    assert!(t.most_frequent().is_none());
    let p = FileProcessor::new("in.txt", "out.txt");
    assert!(p.get_most_frequent().is_none());
}

#[test]
fn most_frequent_finds_unique_maximum() {
    let t = count_words(&doc(&["a b b c", "c b"]));
    let (w, c) = t.most_frequent().unwrap();
    assert_eq!(w, "b");
    assert_eq!(*c, 3);
}

#[test]
fn save_then_load_gives_transformed_lines() {
    let d = doc(&["first line", "", "  ", "second, Line!", "\tlast\t"]);
    let t = filter_and_uppercase(&d);
    let text = join_lines(&t);
    assert_eq!(text, "FIRST LINE\nSECOND, LINE!\n\tLAST\t");
    assert_eq!(split_lines(&text).lines, t);
}

#[test]
fn split_lines_normalizes_line_endings() {
    assert_eq!(split_lines("a\r\nb\nc").lines, vec!["a", "b", "c"]);
    assert_eq!(split_lines("a\n").lines, vec!["a"]);
    assert!(split_lines("").lines.is_empty());
    assert_eq!(split_lines("\n\nb").lines, vec!["", "", "b"]);
    assert_eq!(split_lines("x\r").lines, vec!["x\r"]);
    assert_eq!(split_lines("x\r\r\n").lines, vec!["x\r"]);
    assert_eq!(split_lines("\n").lines, vec![""]);
}

#[test]
fn join_lines_puts_newlines_between() {
    assert_eq!(join_lines(&vec![]), "");
    assert_eq!(join_lines(&vec!["a".to_string()]), "a");
    assert_eq!(join_lines(&vec!["a".to_string(), "b".to_string()]), "a\nb");
}

#[test]
fn render_writes_decimal_counts() {
    let words: Vec<String> = std::iter::repeat("x".to_string()).take(120).collect();
    let mut lines = words;
    lines.push("y y".to_string());
    let t = count_words(&Document::from_lines(lines));
    assert_eq!(t.render(), "x: 120\ny: 2\n");
}

#[test]
fn processor_counts_content_and_renders() {
    let mut p = FileProcessor::new("inputs/sample.txt", "outputs/word_counts.txt");
    assert_eq!(p.input_path, "inputs/sample.txt");
    assert_eq!(p.output_path, "outputs/word_counts.txt");
    let out = p.process("The cat.\r\nthe DOG, the end\n");
    assert_eq!(out, "the: 3\ncat: 1\ndog: 1\nend: 1\n");
    let (w, c) = p.get_most_frequent().unwrap();
    assert_eq!((w.as_str(), *c), ("the", 3));
    p.process_line("cat cat cat cat");
    assert_eq!(p.word_counts.count("cat"), 5);
    p.analyze_content("x\ny");
    assert_eq!(p.word_counts.len(), 6);
}

#[test]
fn word_table_add_and_count() {
    let mut t = WordTable::new();
    t.add(&chars("ab"));
    t.add(&chars("cd"));
    t.add(&chars("ab"));
    assert_eq!(t.count("ab"), 2);
    assert_eq!(t.count("cd"), 1);
    assert_eq!(t.count("zz"), 0);
    assert_eq!(t.len(), 2);
}

#[test]
fn unicode_whitespace_separates_tokens() {
    let t = count_words(&doc(&["a\u{0B}b\u{A0}c\u{3000}a"]));
    assert_eq!(t.count("a"), 2);
    assert_eq!(t.count("b"), 1);
    assert_eq!(t.count("c"), 1);
    assert_eq!(t.len(), 3);
    let ts = tokens_of(&chars("x\u{2003}y\u{85}"));
    assert_eq!(ts.len(), 2);
}

#[test]
fn unicode_blank_lines_are_dropped() {
    let r = filter_and_uppercase(&doc(&["\u{0B}", "\u{A0} \u{2028}", "ok\u{A0}"]));
    assert_eq!(r, vec!["OK\u{A0}".to_string()]);
}

#[test]
fn process_twice_gives_same_counts() {
    let mut p = FileProcessor::new("in.txt", "out.txt");
    let first = p.process("b a b");
    let second = p.process("b a b");
    assert_eq!(first, "b: 2\na: 1\n");
    assert_eq!(first, second);
    assert_eq!(p.word_counts.count("b"), 2);
    let third = p.process("z");
    assert_eq!(third, "z: 1\n");
    assert_eq!(p.word_counts.count("b"), 0);
}
