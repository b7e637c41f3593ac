//! Splitting a line into tokens and normalising a token into a word.
use vstd::prelude::*;
use crate::chars::{is_alpha, is_space, lower, space, alpha, to_lower};

verus! {

/// The views of a sequence of character vectors.
pub open spec fn views(v: Seq<Vec<char>>) -> Seq<Seq<char>> {
    v.map_values(|x: Vec<char>| x@)
}

/// Scanning `s` from the left: the tokens already closed, and the run of
/// non-whitespace characters still open at the end of `s`.
pub open spec fn scan(s: Seq<char>) -> (Seq<Seq<char>>, Seq<char>)
    decreases s.len(),
{
    if s.len() == 0 {
        (seq![], seq![])
    } else {
        let (done, cur) = scan(s.drop_last());
        let c = s.last();
        if !is_space(c) {
            (done, cur.push(c))
        } else if cur.len() > 0 {
            (done.push(cur), seq![])
        } else {
            (done, seq![])
        }
    }
}

/// The tokens of `s`: its maximal runs of non-whitespace characters, in order.
pub open spec fn tokens(s: Seq<char>) -> Seq<Seq<char>> {
    let (done, cur) = scan(s);
    if cur.len() > 0 {
        done.push(cur)
    } else {
        done
    }
}

/// `t` without its leading non-letters.
pub open spec fn trim_start(t: Seq<char>) -> Seq<char>
    decreases t.len(),
{
    if t.len() > 0 && !is_alpha(t[0]) {
        trim_start(t.drop_first())
    } else {
        t
    }
}

/// `t` without its trailing non-letters.
pub open spec fn trim_end(t: Seq<char>) -> Seq<char>
    decreases t.len(),
{
    if t.len() > 0 && !is_alpha(t.last()) {
        trim_end(t.drop_last())
    } else {
        t
    }
}

/// The word that a token stands for: the token stripped of leading and
/// trailing non-letters, in lower case. Empty when the token has no letter.
pub open spec fn normalize(t: Seq<char>) -> Seq<char> {
    trim_end(trim_start(t)).map_values(|c: char| lower(c))
}

/// The tokens of `l`, in order.
pub fn tokens_of(l: &Vec<char>) -> (r: Vec<Vec<char>>)
    ensures
        views(r@) == tokens(l@),
{
    let mut done: Vec<Vec<char>> = Vec::new();
    let mut cur: Vec<char> = Vec::new();
    for i in 0..l.len()
        invariant
            (views(done@), cur@) == scan(l@.take(i as int)),
    {
        let c = l[i];
        assert(l@.take(i + 1).drop_last() == l@.take(i as int));
        if !space(c) {
            cur.push(c);
        } else if cur.len() > 0 {
            let w = cur;
            cur = Vec::new();
            let ghost before = done@;
            done.push(w);
            assert(views(done@) == views(before).push(w@));
        } else {
            cur = Vec::new();
        }
    }
    assert(l@.take(l.len() as int) == l@);
    if cur.len() > 0 {
        let ghost before = done@;
        done.push(cur);
        assert(views(done@) == views(before).push(cur@));
    }
    done
}

/// The word that the token `t` stands for.
pub fn normalize_word(t: &Vec<char>) -> (r: Vec<char>)
    ensures
        r@ == normalize(t@),
{
    let n = t.len();
    let mut i: usize = 0;
    assert(t@.subrange(0, n as int) == t@);
    while i < n && !alpha(t[i])
        invariant
            i <= n,
            n == t@.len(),
            trim_start(t@) == trim_start(t@.subrange(i as int, n as int)),
        decreases n - i,
    {
        assert(t@.subrange(i as int, n as int).drop_first() == t@.subrange(i + 1, n as int));
        i = i + 1;
    }
    let mut j: usize = n;
    while j > i && !alpha(t[j - 1])
        invariant
            i <= j <= n,
            n == t@.len(),
            trim_start(t@) == t@.subrange(i as int, n as int),
            trim_end(trim_start(t@)) == trim_end(t@.subrange(i as int, j as int)),
        decreases j,
    {
        assert(t@.subrange(i as int, j as int).drop_last() == t@.subrange(i as int, j - 1));
        j = j - 1;
    }
    assert(trim_end(trim_start(t@)) == t@.subrange(i as int, j as int));
    let mut r: Vec<char> = Vec::new();
    for k in i..j
        invariant
            i <= j <= n,
            n == t@.len(),
            r@ == t@.subrange(i as int, k as int).map_values(|c: char| lower(c)),
    {
        r.push(to_lower(t[k]));
        assert(t@.subrange(i as int, k + 1).map_values(|c: char| lower(c))
            == t@.subrange(i as int, k as int).map_values(|c: char| lower(c)).push(lower(t@[k as int])));
    }
    r
}

/// `t` holds an ASCII letter.
pub open spec fn has_alpha(t: Seq<char>) -> bool {
    exists|i: int| 0 <= i < t.len() && is_alpha(#[trigger] t[i])
}

/// No non-letter of `t` stands between two of its letters.
pub open spec fn letters_contiguous(t: Seq<char>) -> bool {
    forall|a: int, b: int, c: int|
        0 <= a < b < c < t.len() && is_alpha(#[trigger] t[a]) && is_alpha(#[trigger] t[c])
            ==> is_alpha(#[trigger] t[b])
}

/// `w` starts and ends with a letter and holds no upper-case ASCII letter.
pub open spec fn is_folded_word(w: Seq<char>) -> bool {
    &&& w.len() > 0
    &&& is_alpha(w[0])
    &&& is_alpha(w.last())
    &&& forall|i: int| 0 <= i < w.len() ==> !('A' <= #[trigger] w[i] && w[i] <= 'Z')
}

proof fn lemma_trim_start(t: Seq<char>) -> (k: int)
    ensures
        0 <= k <= t.len(),
        trim_start(t) == t.subrange(k, t.len() as int),
        forall|j: int| 0 <= j < k ==> !is_alpha(#[trigger] t[j]),
        k < t.len() ==> is_alpha(t[k]),
    decreases t.len(),
{
    if t.len() > 0 && !is_alpha(t[0]) {
        let k1 = lemma_trim_start(t.drop_first());
        assert(t.drop_first().subrange(k1, t.len() - 1) == t.subrange(k1 + 1, t.len() as int));
        assert forall|j: int| 0 <= j < k1 + 1 implies !is_alpha(#[trigger] t[j]) by {
            if j > 0 {
                assert(t[j] == t.drop_first()[j - 1]);
            }
        }
        k1 + 1
    } else {
        assert(t.subrange(0, t.len() as int) == t);
        0
    }
}

proof fn lemma_trim_end(t: Seq<char>) -> (k: int)
    ensures
        0 <= k <= t.len(),
        trim_end(t) == t.subrange(0, k),
        forall|j: int| k <= j < t.len() ==> !is_alpha(#[trigger] t[j]),
        k > 0 ==> is_alpha(t[k - 1]),
    decreases t.len(),
{
    if t.len() > 0 && !is_alpha(t.last()) {
        let k1 = lemma_trim_end(t.drop_last());
        assert(t.drop_last().subrange(0, k1) == t.subrange(0, k1));
        assert forall|j: int| k1 <= j < t.len() implies !is_alpha(#[trigger] t[j]) by {
            if j < t.len() - 1 {
                assert(t[j] == t.drop_last()[j]);
            }
        }
        k1
    } else {
        assert(t.subrange(0, t.len() as int) == t);
        t.len() as int
    }
}

/// The lower-case form of an ASCII letter is a lower-case letter.
proof fn lemma_lower(c: char)
    ensures
        is_alpha(c) ==> is_alpha(lower(c)),
        !('A' <= lower(c) && lower(c) <= 'Z'),
{
    if 'A' <= c && c <= 'Z' {
        let u = (c as u32) + 32;
        assert('a' as u32 == 97);
        assert('z' as u32 == 122);
        assert(97 <= u <= 122);
        assert(('a' as u32) <= (lower(c) as u32));
    }
}

/// A token stands for a word exactly when it holds a letter; the word is
/// then folded, and made of letters alone when the token's letters are
/// contiguous.
pub proof fn lemma_normalize(t: Seq<char>)
    ensures
        normalize(t).len() > 0 <==> has_alpha(t),
        normalize(t).len() > 0 ==> is_folded_word(normalize(t)),
        normalize(t).len() > 0 && letters_contiguous(t) ==> forall|i: int|
            0 <= i < normalize(t).len() ==> is_alpha(#[trigger] normalize(t)[i]),
{
    let a = lemma_trim_start(t);
    let u = trim_start(t);
    let b = lemma_trim_end(u);
    let m = trim_end(u);
    assert(m == t.subrange(a, a + b));
    let n = normalize(t);
    assert forall|i: int| 0 <= i < n.len() implies n[i] == lower(t[a + i]) && !('A' <= #[trigger] n[i] && n[i] <= 'Z') by {
        lemma_lower(t[a + i]);
    }
    if has_alpha(t) {
        let i = choose|i: int| 0 <= i < t.len() && is_alpha(#[trigger] t[i]);
        assert(a < t.len());
        assert(u[0] == t[a]);
        assert(b > 0);
    }
    if n.len() > 0 {
        assert(u[b - 1] == t[a + b - 1]);
        assert(is_alpha(t[a]));
        lemma_lower(t[a]);
        lemma_lower(t[a + b - 1]);
        assert(n[0] == lower(t[a]));
        assert(n.last() == lower(t[a + b - 1]));
        if letters_contiguous(t) {
            assert forall|i: int| 0 <= i < n.len() implies is_alpha(#[trigger] n[i]) by {
                lemma_lower(t[a + i]);
                if 0 < i < n.len() - 1 {
                    assert(is_alpha(t[a]) && is_alpha(t[a + b - 1]));
                    assert(is_alpha(t[a + i]));
                }
            }
        }
    }
}

} // verus!
