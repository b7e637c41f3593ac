//! Keeping the non-blank lines of a document, upper-cased.
use vstd::prelude::*;
use crate::chars::{chars_of, is_space, space, string_of, to_upper, upper};
use crate::document::{Document, string_views};

verus! {

/// `l` is empty or made of whitespace alone.
pub open spec fn is_blank(l: Seq<char>) -> bool {
    forall|i: int| 0 <= i < l.len() ==> is_space(#[trigger] l[i])
}

/// `l` with every ASCII letter in upper case.
pub open spec fn upper_line(l: Seq<char>) -> Seq<char> {
    l.map_values(|c: char| upper(c))
}

/// The non-blank lines of `d`, upper-cased, in their order in `d`.
pub open spec fn transform(d: Seq<Seq<char>>) -> Seq<Seq<char>>
    decreases d.len(),
{
    if d.len() == 0 {
        seq![]
    } else if !is_blank(d.last()) {
        transform(d.drop_last()).push(upper_line(d.last()))
    } else {
        transform(d.drop_last())
    }
}

/// Whether the line `l` is blank.
pub fn blank(l: &Vec<char>) -> (r: bool)
    ensures
        r == is_blank(l@),
{
    for i in 0..l.len()
        invariant
            forall|j: int| 0 <= j < i ==> is_space(#[trigger] l@[j]),
    {
        if !space(l[i]) {
            return false;
        }
    }
    true
}

/// The line `l` upper-cased.
pub fn uppercase_line(l: &Vec<char>) -> (r: Vec<char>)
    ensures
        r@ == upper_line(l@),
{
    let mut r: Vec<char> = Vec::new();
    for i in 0..l.len()
        invariant
            r@ == l@.take(i as int).map_values(|c: char| upper(c)),
    {
        r.push(to_upper(l[i]));
        assert(l@.take(i + 1).map_values(|c: char| upper(c)) == l@.take(i as int).map_values(
            |c: char| upper(c),
        ).push(upper(l@[i as int])));
    }
    assert(l@.take(l.len() as int) == l@);
    r
}

/// The non-blank lines of `doc`, upper-cased, in their order in `doc`.
pub fn filter_and_uppercase(doc: &Document) -> (r: Vec<String>)
    ensures
        string_views(r@) == transform(doc@),
{
    let mut r: Vec<String> = Vec::new();
    for i in 0..doc.lines.len()
        invariant
            string_views(r@) == transform(doc@.take(i as int)),
    {
        assert(doc@.take(i + 1).drop_last() == doc@.take(i as int));
        assert(doc@.take(i + 1).last() == doc.lines@[i as int]@);
        let cs = chars_of(doc.lines[i].as_str());
        if !blank(&cs) {
            let u = string_of(&uppercase_line(&cs));
            let ghost before = r@;
            r.push(u);
            assert(string_views(r@) == string_views(before).push(u@));
        }
    }
    assert(doc@.take(doc.lines.len() as int) == doc@);
    r
}

/// Upper-casing keeps whitespace and every character but a lower-case
/// letter, which becomes an upper-case one; a second time it changes nothing.
pub proof fn lemma_upper(c: char)
    ensures
        upper(upper(c)) == upper(c),
        is_space(upper(c)) == is_space(c),
        ('a' <= c && c <= 'z') ==> ('A' <= upper(c) && upper(c) <= 'Z'),
{
    if 'a' <= c && c <= 'z' {
        let u = (c as u32) - 32;
        assert('a' as u32 == 97);
        assert('z' as u32 == 122);
        assert(65 <= u <= 90);
        assert(('A' as u32) <= (upper(c) as u32) <= ('Z' as u32));
        assert(upper(c) != ' ' && upper(c) != '\t' && upper(c) != '\n' && upper(c) != '\x0C'
            && upper(c) != '\r');
    }
}

proof fn lemma_upper_line(l: Seq<char>)
    ensures
        upper_line(upper_line(l)) == upper_line(l),
        is_blank(upper_line(l)) == is_blank(l),
{
    assert forall|i: int| 0 <= i < l.len() implies #[trigger] upper_line(upper_line(l))[i]
        == upper_line(l)[i] && is_space(upper_line(l)[i]) == is_space(l[i]) by {
        lemma_upper(l[i]);
    }
    assert(upper_line(upper_line(l)) == upper_line(l));
    if is_blank(l) {
        assert forall|i: int| 0 <= i < l.len() implies is_space(#[trigger] upper_line(l)[i]) by {
            lemma_upper(l[i]);
        }
    }
    if is_blank(upper_line(l)) {
        assert forall|i: int| 0 <= i < l.len() implies is_space(#[trigger] l[i]) by {
            lemma_upper(l[i]);
            assert(is_space(upper_line(l)[i]));
        }
    }
}

/// Keeping the non-blank lines and upper-casing them a second time changes
/// nothing.
pub proof fn lemma_transform_idempotent(d: Seq<Seq<char>>)
    ensures
        transform(transform(d)) == transform(d),
    decreases d.len(),
{
    if d.len() > 0 {
        lemma_transform_idempotent(d.drop_last());
        if !is_blank(d.last()) {
            let t = transform(d.drop_last());
            let u = upper_line(d.last());
            lemma_upper_line(d.last());
            assert(t.push(u).drop_last() == t);
        }
    }
}

/// Lines that are all non-blank and hold no lower-case ASCII letter come
/// out unchanged.
pub proof fn lemma_transform_fixed(d: Seq<Seq<char>>)
    requires
        forall|i: int| 0 <= i < d.len() ==> !is_blank(#[trigger] d[i]),
        forall|i: int, j: int|
            0 <= i < d.len() && 0 <= j < d[i].len() ==> !('a' <= #[trigger] d[i][j] && d[i][j]
                <= 'z'),
    ensures
        transform(d) == d,
    decreases d.len(),
{
    if d.len() > 0 {
        let l = d.drop_last();
        assert forall|i: int, j: int| 0 <= i < l.len() && 0 <= j < l[i].len() implies !('a'
            <= #[trigger] l[i][j] && l[i][j] <= 'z') by {
            assert(l[i] == d[i]);
        }
        assert forall|i: int| 0 <= i < l.len() implies !is_blank(#[trigger] l[i]) by {
            assert(l[i] == d[i]);
        }
        lemma_transform_fixed(l);
        assert(d.last() == d[d.len() - 1]);
        assert(upper_line(d.last()) == d.last());
        assert(l.push(d.last()) == d);
    }
}

/// The lines kept are the upper-cased non-blank lines of `d`, in their
/// order in `d`: the result gives, for each kept line, the increasing
/// position of its source line. No line is added.
pub proof fn lemma_transform_order(d: Seq<Seq<char>>) -> (s: Seq<int>)
    ensures
        s.len() == transform(d).len(),
        transform(d).len() <= d.len(),
        forall|k: int| 0 <= k < s.len() ==> 0 <= #[trigger] s[k] < d.len(),
        forall|k: int, m: int| 0 <= k < m < s.len() ==> #[trigger] s[k] < #[trigger] s[m],
        forall|k: int|
            0 <= k < s.len() ==> !is_blank(d[#[trigger] s[k]]) && transform(d)[k] == upper_line(
                d[s[k]],
            ),
        forall|i: int|
            0 <= i < d.len() && !is_blank(#[trigger] d[i]) ==> exists|k: int|
                0 <= k < s.len() && #[trigger] s[k] == i,
    decreases d.len(),
{
    if d.len() == 0 {
        seq![]
    } else {
        let l = d.drop_last();
        let s0 = lemma_transform_order(l);
        assert forall|i: int| 0 <= i < l.len() implies #[trigger] l[i] == d[i] by {}
        let n = d.len() - 1;
        if !is_blank(d.last()) {
            let s = s0.push(n);
            assert forall|i: int| 0 <= i < d.len() && !is_blank(#[trigger] d[i]) implies exists|
                k: int,
            | 0 <= k < s.len() && #[trigger] s[k] == i by {
                if i == n {
                    assert(s[s0.len() as int] == i);
                } else {
                    assert(l[i] == d[i]);
                    let k = choose|k: int| 0 <= k < s0.len() && #[trigger] s0[k] == i;
                    assert(s[k] == i);
                }
            }
            s
        } else {
            assert forall|i: int| 0 <= i < d.len() && !is_blank(#[trigger] d[i]) implies exists|
                k: int,
            | 0 <= k < s0.len() && #[trigger] s0[k] == i by {
                assert(i != n);
                assert(l[i] == d[i]);
            }
            s0
        }
    }
}

} // verus!
