//! Counting the words of a document.
use vstd::prelude::*;
use crate::chars::chars_of;
use crate::document::Document;
use crate::chars::is_alpha;
use crate::table::{WordTable, count_in, lemma_count_of_entry, total};
use crate::words::{
    has_alpha, is_folded_word, lemma_normalize, letters_contiguous, normalize, normalize_word,
    tokens, tokens_of, views,
};

verus! {

/// The words that the tokens `ts` stand for, in order; tokens without a
/// letter give none.
pub open spec fn words_of(ts: Seq<Seq<char>>) -> Seq<Seq<char>>
    decreases ts.len(),
{
    if ts.len() == 0 {
        seq![]
    } else if normalize(ts.last()).len() > 0 {
        words_of(ts.drop_last()).push(normalize(ts.last()))
    } else {
        words_of(ts.drop_last())
    }
}

/// The words of a line, in order.
pub open spec fn line_words(l: Seq<char>) -> Seq<Seq<char>> {
    words_of(tokens(l))
}

/// The words of a document, line after line.
pub open spec fn doc_words(d: Seq<Seq<char>>) -> Seq<Seq<char>>
    decreases d.len(),
{
    if d.len() == 0 {
        seq![]
    } else {
        doc_words(d.drop_last()) + line_words(d.last())
    }
}

/// How often `k` occurs in `ws`.
pub open spec fn occ(ws: Seq<Seq<char>>, k: Seq<char>) -> nat
    decreases ws.len(),
{
    if ws.len() == 0 {
        0
    } else if ws.last() == k {
        occ(ws.drop_last(), k) + 1
    } else {
        occ(ws.drop_last(), k)
    }
}

/// `t` counts exactly the words `ws`.
pub open spec fn tallies(t: Seq<(Seq<char>, u32)>, ws: Seq<Seq<char>>) -> bool {
    &&& forall|k: Seq<char>| #[trigger] count_in(t, k) == occ(ws, k)
    &&& total(t) == ws.len()
}

/// Adds the words of `line` to `table`.
pub fn count_line(table: &mut WordTable, line: &str)
    requires
        old(table).wf(),
        forall|k: Seq<char>|
            count_in(old(table)@, k) + #[trigger] occ(line_words(line@), k) <= u32::MAX,
    ensures
        final(table).wf(),
        total(final(table)@) == total(old(table)@) + line_words(line@).len(),
        forall|k: Seq<char>|
            #[trigger] count_in(final(table)@, k) == count_in(old(table)@, k) + occ(
                line_words(line@),
                k,
            ),
{
    let cs = chars_of(line);
    let toks = tokens_of(&cs);
    let ghost ts = views(toks@);
    for j in 0..toks.len()
        invariant
            ts == views(toks@),
            ts == tokens(line@),
            table.wf(),
            total(table@) == total(old(table)@) + words_of(ts.take(j as int)).len(),
            forall|k: Seq<char>|
                #[trigger] count_in(table@, k) == count_in(old(table)@, k) + occ(
                    words_of(ts.take(j as int)),
                    k,
                ),
            forall|k: Seq<char>|
                count_in(old(table)@, k) + #[trigger] occ(line_words(line@), k) <= u32::MAX,
    {
        let ghost before = words_of(ts.take(j as int));
        assert(ts.take(j + 1).drop_last() == ts.take(j as int));
        assert(ts.take(j + 1).last() == toks@[j as int]@);
        let w = normalize_word(&toks[j]);
        if w.len() > 0 {
            proof {
                lemma_words_of_prefix_occ(ts, j + 1, w@);
                assert(words_of(ts.take(j + 1)) == before.push(w@));
                assert(before.push(w@).drop_last() == before);
                assert(occ(line_words(line@), w@) <= u32::MAX - count_in(old(table)@, w@));
            }
            table.add(&w);
            let ghost after = words_of(ts.take(j + 1));
            assert(after == before.push(w@));
            assert(after.drop_last() == before);
        }
    }
    assert(ts.take(toks.len() as int) == ts);
}

proof fn lemma_words_of_prefix_occ(ts: Seq<Seq<char>>, j: int, k: Seq<char>)
    requires
        0 <= j <= ts.len(),
    ensures
        occ(words_of(ts.take(j)), k) <= occ(words_of(ts), k),
    decreases ts.len() - j,
{
    if j < ts.len() {
        lemma_words_of_prefix_occ(ts, j + 1, k);
        let a = words_of(ts.take(j));
        assert(a.push(normalize(ts[j])).drop_last() == a);
        assert(ts.take(j + 1).drop_last() == ts.take(j));
    } else {
        assert(ts.take(j) == ts);
    }
}

pub proof fn lemma_occ_concat(a: Seq<Seq<char>>, b: Seq<Seq<char>>, k: Seq<char>)
    ensures
        occ(a + b, k) == occ(a, k) + occ(b, k),
    decreases b.len(),
{
    if b.len() > 0 {
        assert((a + b).drop_last() == a + b.drop_last());
        lemma_occ_concat(a, b.drop_last(), k);
    } else {
        assert(a + b == a);
    }
}

proof fn lemma_doc_words_prefix_occ(d: Seq<Seq<char>>, i: int, k: Seq<char>)
    requires
        0 <= i <= d.len(),
    ensures
        occ(doc_words(d.take(i)), k) <= occ(doc_words(d), k),
    decreases d.len() - i,
{
    if i < d.len() {
        lemma_doc_words_prefix_occ(d, i + 1, k);
        lemma_occ_concat(doc_words(d.take(i)), line_words(d[i]), k);
        assert(d.take(i + 1).drop_last() == d.take(i));
    } else {
        assert(d.take(i) == d);
    }
}

/// Adds the words of `doc` to `table`.
pub fn count_document(table: &mut WordTable, doc: &Document)
    requires
        old(table).wf(),
        forall|k: Seq<char>|
            count_in(old(table)@, k) + #[trigger] occ(doc_words(doc@), k) <= u32::MAX,
    ensures
        final(table).wf(),
        total(final(table)@) == total(old(table)@) + doc_words(doc@).len(),
        forall|k: Seq<char>|
            #[trigger] count_in(final(table)@, k) == count_in(old(table)@, k) + occ(
                doc_words(doc@),
                k,
            ),
{
    for i in 0..doc.lines.len()
        invariant
            table.wf(),
            total(table@) == total(old(table)@) + doc_words(doc@.take(i as int)).len(),
            forall|k: Seq<char>|
                #[trigger] count_in(table@, k) == count_in(old(table)@, k) + occ(
                    doc_words(doc@.take(i as int)),
                    k,
                ),
            forall|k: Seq<char>|
                count_in(old(table)@, k) + #[trigger] occ(doc_words(doc@), k) <= u32::MAX,
    {
        let ghost before = doc_words(doc@.take(i as int));
        let ghost mid = table@;
        let ghost line = doc.lines@[i as int]@;
        assert(doc@.take(i + 1).drop_last() == doc@.take(i as int));
        assert(doc@.take(i + 1).last() == line);
        assert forall|k: Seq<char>| count_in(mid, k) + #[trigger] occ(line_words(line), k) <= u32::MAX by {
            lemma_doc_words_prefix_occ(doc@, i + 1, k);
            lemma_occ_concat(before, line_words(line), k);
            assert(occ(doc_words(doc@), k) <= u32::MAX - count_in(old(table)@, k));
        }
        count_line(table, &doc.lines[i]);
        assert forall|k: Seq<char>| #[trigger] count_in(table@, k) == count_in(old(table)@, k) + occ(
            doc_words(doc@.take(i + 1)),
            k,
        ) by {
            assert(count_in(mid, k) == count_in(old(table)@, k) + occ(before, k));
            lemma_occ_concat(before, line_words(doc.lines@[i as int]@), k);
        }
    }
    assert(doc@.take(doc.lines.len() as int) == doc@);
}

/// The frequency table of the words of `doc`.
pub fn count_words(doc: &Document) -> (t: WordTable)
    requires
        forall|k: Seq<char>| #[trigger] occ(doc_words(doc@), k) <= u32::MAX,
    ensures
        t.wf(),
        tallies(t@, doc_words(doc@)),
{
    let mut t = WordTable::new();
    assert forall|k: Seq<char>| count_in(t@, k) + #[trigger] occ(doc_words(doc@), k) <= u32::MAX by {
        assert(count_in(Seq::<(Seq<char>, u32)>::empty(), k) == 0);
    }
    count_document(&mut t, doc);
    assert forall|k: Seq<char>| #[trigger] count_in(t@, k) == occ(doc_words(doc@), k) by {
        assert(count_in(Seq::<(Seq<char>, u32)>::empty(), k) == 0);
    }
    t
}

/// The tokens of a document, line after line.
pub open spec fn doc_tokens(d: Seq<Seq<char>>) -> Seq<Seq<char>>
    decreases d.len(),
{
    if d.len() == 0 {
        seq![]
    } else {
        doc_tokens(d.drop_last()) + tokens(d.last())
    }
}

/// How many of the tokens `ts` hold a letter.
pub open spec fn count_with_letter(ts: Seq<Seq<char>>) -> nat
    decreases ts.len(),
{
    if ts.len() == 0 {
        0
    } else if has_alpha(ts.last()) {
        count_with_letter(ts.drop_last()) + 1
    } else {
        count_with_letter(ts.drop_last())
    }
}

proof fn lemma_occ_pos(ws: Seq<Seq<char>>, k: Seq<char>) -> (m: int)
    requires
        occ(ws, k) > 0,
    ensures
        0 <= m < ws.len(),
        ws[m] == k,
    decreases ws.len(),
{
    if ws.last() == k {
        ws.len() - 1
    } else {
        let m = lemma_occ_pos(ws.drop_last(), k);
        assert(ws.drop_last()[m] == ws[m]);
        m
    }
}

proof fn lemma_word_source(ts: Seq<Seq<char>>, m: int) -> (p: int)
    requires
        0 <= m < words_of(ts).len(),
    ensures
        0 <= p < ts.len(),
        words_of(ts)[m] == normalize(ts[p]),
        normalize(ts[p]).len() > 0,
    decreases ts.len(),
{
    let l = ts.drop_last();
    if normalize(ts.last()).len() > 0 && m == words_of(l).len() {
        ts.len() - 1
    } else {
        let p = lemma_word_source(l, m);
        assert(l[p] == ts[p]);
        p
    }
}

proof fn lemma_doc_word_source(d: Seq<Seq<char>>, m: int) -> (p: int)
    requires
        0 <= m < doc_words(d).len(),
    ensures
        0 <= p < doc_tokens(d).len(),
        doc_words(d)[m] == normalize(doc_tokens(d)[p]),
        normalize(doc_tokens(d)[p]).len() > 0,
    decreases d.len(),
{
    let l = d.drop_last();
    if m < doc_words(l).len() {
        let p = lemma_doc_word_source(l, m);
        assert(doc_tokens(d)[p] == doc_tokens(l)[p]);
        p
    } else {
        let q = lemma_word_source(tokens(d.last()), m - doc_words(l).len());
        let p = doc_tokens(l).len() + q;
        assert(doc_tokens(d)[p] == tokens(d.last())[q]);
        p
    }
}

/// Every word of the table that counts a document is folded: non-empty,
/// with a letter at each end and no upper-case letter. Where no token of
/// the document has a non-letter between two letters, every word is made
/// of letters alone.
pub proof fn lemma_table_words(d: Seq<Seq<char>>, t: WordTable, i: int)
    requires
        t.wf(),
        tallies(t@, doc_words(d)),
        0 <= i < t@.len(),
    ensures
        is_folded_word(t@[i].0),
        (forall|p: int|
            0 <= p < doc_tokens(d).len() ==> letters_contiguous(#[trigger] doc_tokens(d)[p]))
            ==> forall|c: int| 0 <= c < t@[i].0.len() ==> is_alpha(#[trigger] t@[i].0[c]),
{
    let k = t@[i].0;
    lemma_count_of_entry(t@, i);
    assert(count_in(t@, k) == occ(doc_words(d), k));
    let m = lemma_occ_pos(doc_words(d), k);
    let p = lemma_doc_word_source(d, m);
    lemma_normalize(doc_tokens(d)[p]);
}

proof fn lemma_words_of_len(ts: Seq<Seq<char>>)
    ensures
        words_of(ts).len() == count_with_letter(ts),
    decreases ts.len(),
{
    if ts.len() > 0 {
        lemma_normalize(ts.last());
        lemma_words_of_len(ts.drop_last());
    }
}

proof fn lemma_count_with_letter_concat(a: Seq<Seq<char>>, b: Seq<Seq<char>>)
    ensures
        count_with_letter(a + b) == count_with_letter(a) + count_with_letter(b),
    decreases b.len(),
{
    if b.len() > 0 {
        assert((a + b).drop_last() == a + b.drop_last());
        lemma_count_with_letter_concat(a, b.drop_last());
    } else {
        assert(a + b == a);
    }
}

/// The number of words that a document holds is the number of its tokens
/// that hold a letter.
pub proof fn lemma_doc_words_len(d: Seq<Seq<char>>)
    ensures
        doc_words(d).len() == count_with_letter(doc_tokens(d)),
    decreases d.len(),
{
    if d.len() > 0 {
        lemma_doc_words_len(d.drop_last());
        lemma_words_of_len(tokens(d.last()));
        lemma_count_with_letter_concat(doc_tokens(d.drop_last()), tokens(d.last()));
    }
}

/// The counts of the table that counts a document add up to the number of
/// the document's tokens that hold a letter.
pub proof fn lemma_table_total(d: Seq<Seq<char>>, t: WordTable)
    requires
        tallies(t@, doc_words(d)),
    ensures
        total(t@) == count_with_letter(doc_tokens(d)),
{
    lemma_doc_words_len(d);
}

} // verus!
