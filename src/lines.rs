//! Text as lines: splitting at line endings, and joining with newlines.
use vstd::prelude::*;
use crate::chars::{chars_of, string_of};
use crate::document::{Document, string_views};
use crate::transform::{is_blank, lemma_transform_order, lemma_upper, transform, upper_line};

verus! {

/// The pieces of `s` between its newline characters, in order; there is
/// one more piece than there are newlines.
pub open spec fn pieces(s: Seq<char>) -> Seq<Seq<char>>
    decreases s.len(),
{
    if s.len() == 0 {
        seq![seq![]]
    } else {
        let p = pieces(s.drop_last());
        if s.last() == '\n' {
            p.push(seq![])
        } else {
            p.update(p.len() - 1, p.last().push(s.last()))
        }
    }
}

/// `l` without one trailing carriage return.
pub open spec fn strip_cr(l: Seq<char>) -> Seq<char> {
    if l.len() > 0 && l.last() == '\r' {
        l.drop_last()
    } else {
        l
    }
}

/// The lines of `s`. A line ends at a line feed or at a carriage return
/// followed by a line feed; the last line needs no ending, and an empty
/// piece after the final ending is no line.
pub open spec fn lines_of(s: Seq<char>) -> Seq<Seq<char>> {
    let p = pieces(s);
    let ended = p.drop_last().map_values(|l: Seq<char>| strip_cr(l));
    if p.last().len() == 0 {
        ended
    } else {
        ended.push(p.last())
    }
}

/// The lines `ls` joined with a newline between two neighbours.
pub open spec fn join(ls: Seq<Seq<char>>) -> Seq<char>
    decreases ls.len(),
{
    if ls.len() == 0 {
        seq![]
    } else if ls.len() == 1 {
        ls[0]
    } else {
        join(ls.drop_last()) + seq!['\n'] + ls.last()
    }
}

proof fn lemma_pieces_len(s: Seq<char>)
    ensures
        pieces(s).len() >= 1,
    decreases s.len(),
{
    if s.len() > 0 {
        lemma_pieces_len(s.drop_last());
    }
}

/// The document made of the lines of `text`.
pub fn split_lines(text: &str) -> (d: Document)
    ensures
        d@ == lines_of(text@),
{
    let cs = chars_of(text);
    let mut done: Vec<String> = Vec::new();
    let mut cur: Vec<char> = Vec::new();
    for i in 0..cs.len()
        invariant
            cs@ == text@,
            pieces(cs@.take(i as int)).len() >= 1,
            string_views(done@) == pieces(cs@.take(i as int)).drop_last().map_values(
                |l: Seq<char>| strip_cr(l),
            ),
            cur@ == pieces(cs@.take(i as int)).last(),
    {
        let ghost p = pieces(cs@.take(i as int));
        let c = cs[i];
        assert(cs@.take(i + 1).drop_last() == cs@.take(i as int));
        if c == '\n' {
            let len = cur.len();
            if len > 0 && cur[len - 1] == '\r' {
                cur.pop();
            }
            let line = string_of(&cur);
            let ghost before = done@;
            done.push(line);
            cur = Vec::new();
            assert(string_views(done@) == string_views(before).push(line@));
            assert(p.push(seq![]).drop_last() == p);
            assert(p.map_values(|l: Seq<char>| strip_cr(l)) == p.drop_last().map_values(
                |l: Seq<char>| strip_cr(l),
            ).push(strip_cr(p.last())));
            assert(cur@ == Seq::<char>::empty());
        } else {
            cur.push(c);
            assert(p.update(p.len() - 1, p.last().push(c)).drop_last() == p.drop_last());
        }
    }
    assert(cs@.take(cs.len() as int) == cs@);
    if cur.len() > 0 {
        let line = string_of(&cur);
        let ghost before = done@;
        done.push(line);
        assert(string_views(done@) == string_views(before).push(line@));
    }
    Document { lines: done }
}

/// The lines joined with a newline between two neighbours.
pub fn join_lines(lines: &Vec<String>) -> (s: String)
    ensures
        s@ == join(string_views(lines@)),
{
    let mut out: Vec<char> = Vec::new();
    for i in 0..lines.len()
        invariant
            out@ == join(string_views(lines@).take(i as int)),
    {
        let ghost ls = string_views(lines@).take(i + 1);
        assert(ls.drop_last() == string_views(lines@).take(i as int));
        if i > 0 {
            out.push('\n');
        }
        let cs = chars_of(lines[i].as_str());
        let ghost start = out@;
        for j in 0..cs.len()
            invariant
                out@ == start + cs@.take(j as int),
        {
            out.push(cs[j]);
            assert(cs@.take(j + 1) == cs@.take(j as int).push(cs@[j as int]));
        }
        assert(cs@.take(cs.len() as int) == cs@);
        assert(ls.last() == cs@);
        if i == 0 {
            assert(out@ == ls[0]);
        }
    }
    assert(string_views(lines@).take(lines.len() as int) == string_views(lines@));
    string_of(&out)
}

proof fn lemma_pieces_extend(a: Seq<char>, b: Seq<char>)
    requires
        !b.contains('\n'),
    ensures
        pieces(a + b) == pieces(a).update(pieces(a).len() - 1, pieces(a).last() + b),
    decreases b.len(),
{
    lemma_pieces_len(a);
    if b.len() == 0 {
        assert(a + b == a);
        assert(pieces(a).last() + b == pieces(a).last());
        assert(pieces(a).update(pieces(a).len() - 1, pieces(a).last()) == pieces(a));
    } else {
        let b1 = b.drop_last();
        assert(b.last() == b[b.len() - 1]);
        assert(!b1.contains('\n')) by {
            if b1.contains('\n') {
                let k = choose|k: int| 0 <= k < b1.len() && b1[k] == '\n';
                assert(b[k] == '\n');
            }
        }
        lemma_pieces_extend(a, b1);
        assert((a + b).drop_last() == a + b1);
        assert((a + b).last() == b.last());
        assert((pieces(a).last() + b1).push(b.last()) == pieces(a).last() + b);
    }
}

/// Lines without a newline, joined and split again, come back as they were,
/// provided that none is empty and none ends with a carriage return.
pub proof fn lemma_split_join(ls: Seq<Seq<char>>)
    requires
        forall|i: int| 0 <= i < ls.len() ==> (#[trigger] ls[i]).len() > 0,
        forall|i: int| 0 <= i < ls.len() ==> !(#[trigger] ls[i]).contains('\n'),
        forall|i: int| 0 <= i < ls.len() ==> (#[trigger] ls[i]).last() != '\r',
    ensures
        lines_of(join(ls)) == ls,
{
    if ls.len() > 0 {
        lemma_pieces_join(ls);
        let p = pieces(join(ls));
        assert(p.last() == ls[ls.len() - 1]);
        assert forall|i: int| 0 <= i < ls.len() - 1 implies strip_cr(#[trigger] ls[i]) == ls[i] by {}
        assert(p.drop_last().map_values(|l: Seq<char>| strip_cr(l)) == ls.drop_last());
        assert(ls.drop_last().push(ls.last()) == ls);
    } else {
        assert(lines_of(join(ls)) == Seq::<Seq<char>>::empty());
    }
}

proof fn lemma_pieces_join(ls: Seq<Seq<char>>)
    requires
        ls.len() > 0,
        forall|i: int| 0 <= i < ls.len() ==> !(#[trigger] ls[i]).contains('\n'),
    ensures
        pieces(join(ls)) == ls,
    decreases ls.len(),
{
    if ls.len() == 1 {
        let e = Seq::<char>::empty();
        lemma_pieces_extend(e, ls[0]);
        assert(e + ls[0] == ls[0]);
        assert(seq![e].update(0, e + ls[0]) == ls);
    } else {
        let l = ls.drop_last();
        assert forall|i: int| 0 <= i < l.len() implies !(#[trigger] l[i]).contains('\n') by {
            assert(l[i] == ls[i]);
        }
        lemma_pieces_join(l);
        let a = join(l) + seq!['\n'];
        assert(a.drop_last() == join(l));
        assert(pieces(a) == l.push(seq![]));
        assert(ls.last() == ls[ls.len() - 1]);
        lemma_pieces_extend(a, ls.last());
        assert(join(ls) == a + ls.last());
        assert(Seq::<char>::empty() + ls.last() == ls.last());
        assert(l.push(seq![]).update(l.len() as int, ls.last()) == ls);
    }
}

/// Saving the kept lines of a document (joined with newlines) and loading
/// the text again gives back exactly those lines, for a document whose lines
/// hold no newline and do not end with a carriage return.
pub proof fn lemma_save_load(d: Seq<Seq<char>>)
    requires
        forall|i: int| 0 <= i < d.len() ==> !(#[trigger] d[i]).contains('\n'),
        forall|i: int| 0 <= i < d.len() && d[i].len() > 0 ==> (#[trigger] d[i]).last() != '\r',
    ensures
        lines_of(join(transform(d))) == transform(d),
{
    let t = transform(d);
    let s = lemma_transform_order(d);
    assert forall|k: int| 0 <= k < t.len() implies (#[trigger] t[k]).len() > 0 && !t[k].contains(
        '\n',
    ) && t[k].last() != '\r' by {
        let l = d[s[k]];
        assert(t[k] == upper_line(l));
        assert(!is_blank(l));
        assert(l.len() > 0);
        if t[k].contains('\n') {
            let m = choose|m: int| 0 <= m < t[k].len() && t[k][m] == '\n';
            lemma_upper(l[m]);
            assert(l[m] == '\n');
        }
        lemma_upper(l[l.len() - 1]);
    }
    lemma_split_join(t);
}

} // verus!
