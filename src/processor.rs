//! A word counter bound to an input and an output path: it counts the
//! words of the text read from the input, and gives the text to write to
//! the output.
use vstd::prelude::*;
use crate::count::{count_document, count_line, count_words, doc_words, line_words, occ, tallies};
use crate::lines::{lines_of, split_lines};
use crate::table::{WordTable, count_in, render, total};

verus! {

pub struct FileProcessor {
    pub input_path: String,
    pub output_path: String,
    pub word_counts: WordTable,
}

impl FileProcessor {
    /// A processor for the two paths, with no word counted yet.
    pub fn new(input: &str, output: &str) -> (p: FileProcessor)
        ensures
            p.input_path@ == input@,
            p.output_path@ == output@,
            p.word_counts.wf(),
            p.word_counts@ == Seq::<(Seq<char>, u32)>::empty(),
    {
        let input_path = input.to_string();
        let output_path = output.to_string();
        proof {
            vstd::string::to_string_from_display_ensures_for_str(input, input_path);
            vstd::string::to_string_from_display_ensures_for_str(output, output_path);
        }
        FileProcessor { input_path, output_path, word_counts: WordTable::new() }
    }

    /// Counts the words of `content` in a fresh table, which replaces the
    /// one held, then gives the text of the table: one line `word: count`
    /// per word.
    pub fn process(&mut self, content: &str) -> (out: String)
        requires
            forall|k: Seq<char>| #[trigger] occ(doc_words(lines_of(content@)), k) <= u32::MAX,
        ensures
            final(self).word_counts.wf(),
            final(self).input_path == old(self).input_path,
            final(self).output_path == old(self).output_path,
            tallies(final(self).word_counts@, doc_words(lines_of(content@))),
            out@ == render(final(self).word_counts@),
    {
        self.word_counts = count_words(&split_lines(content));
        self.word_counts.render()
    }

    /// Counts the words of every line of `content`.
    pub fn analyze_content(&mut self, content: &str)
        requires
            old(self).word_counts.wf(),
            forall|k: Seq<char>|
                count_in(old(self).word_counts@, k) + #[trigger] occ(doc_words(lines_of(content@)), k)
                    <= u32::MAX,
        ensures
            final(self).word_counts.wf(),
            final(self).input_path == old(self).input_path,
            final(self).output_path == old(self).output_path,
            total(final(self).word_counts@) == total(old(self).word_counts@) + doc_words(
                lines_of(content@),
            ).len(),
            forall|k: Seq<char>|
                #[trigger] count_in(final(self).word_counts@, k) == count_in(
                    old(self).word_counts@,
                    k,
                ) + occ(doc_words(lines_of(content@)), k),
    {
        let doc = split_lines(content);
        count_document(&mut self.word_counts, &doc);
    }

    /// Counts the words of `line`.
    pub fn process_line(&mut self, line: &str)
        requires
            old(self).word_counts.wf(),
            forall|k: Seq<char>|
                count_in(old(self).word_counts@, k) + #[trigger] occ(line_words(line@), k)
                    <= u32::MAX,
        ensures
            final(self).word_counts.wf(),
            final(self).input_path == old(self).input_path,
            final(self).output_path == old(self).output_path,
            total(final(self).word_counts@) == total(old(self).word_counts@) + line_words(
                line@,
            ).len(),
            forall|k: Seq<char>|
                #[trigger] count_in(final(self).word_counts@, k) == count_in(
                    old(self).word_counts@,
                    k,
                ) + occ(line_words(line@), k),
    {
        count_line(&mut self.word_counts, line);
    }

    /// The most frequent word and its count; none when no word was counted.
    /// Among words that share the largest count, which one is returned is
    /// not promised.
    pub fn get_most_frequent(&self) -> (r: Option<(&String, &u32)>)
        requires
            self.word_counts.wf(),
        ensures
            r is None <==> self.word_counts@.len() == 0,
            r matches Some((k, c)) ==> exists|i: int| #[trigger]
                crate::table::is_max_at(self.word_counts@, i) && self.word_counts@[i] == (k@, *c),
            forall|i: int| #[trigger]
                crate::table::is_unique_max_at(self.word_counts@, i) ==> (r matches Some((k, c))
                    && k@ == self.word_counts@[i].0 && *c == self.word_counts@[i].1),
    {
        self.word_counts.most_frequent()
    }
}

} // verus!
