//! The word-frequency table: distinct words, each with its count.
use vstd::prelude::*;

verus! {

/// No two entries of `e` share a word.
pub open spec fn distinct_keys(e: Seq<(Seq<char>, u32)>) -> bool {
    forall|i: int, j: int|
        0 <= i < j < e.len() ==> #[trigger] e[i].0 != #[trigger] e[j].0
}

/// The count that `e` gives to the word `k`; 0 when `k` has no entry.
pub open spec fn count_in(e: Seq<(Seq<char>, u32)>, k: Seq<char>) -> nat
    decreases e.len(),
{
    if e.len() == 0 {
        0
    } else if e.last().0 == k {
        e.last().1 as nat
    } else {
        count_in(e.drop_last(), k)
    }
}

/// The sum of the counts of `e`.
pub open spec fn total(e: Seq<(Seq<char>, u32)>) -> nat
    decreases e.len(),
{
    if e.len() == 0 {
        0
    } else {
        total(e.drop_last()) + e.last().1 as nat
    }
}

/// `k` has an entry in `e`.
pub open spec fn has_key(e: Seq<(Seq<char>, u32)>, k: Seq<char>) -> bool {
    exists|i: int| 0 <= i < e.len() && #[trigger] e[i].0 == k
}

pub proof fn lemma_count_of_entry(e: Seq<(Seq<char>, u32)>, i: int)
    requires
        distinct_keys(e),
        0 <= i < e.len(),
    ensures
        count_in(e, e[i].0) == e[i].1,
    decreases e.len(),
{
    if i < e.len() - 1 {
        assert(e[i].0 != e[e.len() - 1].0);
        assert(e.drop_last()[i] == e[i]);
        lemma_count_of_entry(e.drop_last(), i);
    }
}

pub proof fn lemma_count_of_absent(e: Seq<(Seq<char>, u32)>, k: Seq<char>)
    requires
        !has_key(e, k),
    ensures
        count_in(e, k) == 0,
    decreases e.len(),
{
    if e.len() > 0 {
        assert(e.last().0 == e[e.len() - 1].0);
        assert forall|i: int| 0 <= i < e.drop_last().len() implies e.drop_last()[i].0 != k by {
            assert(e.drop_last()[i] == e[i]);
        }
        lemma_count_of_absent(e.drop_last(), k);
    }
}

/// Raising the count of the entry at `i` by one.
pub proof fn lemma_bump(e: Seq<(Seq<char>, u32)>, i: int, c: u32)
    requires
        distinct_keys(e),
        0 <= i < e.len(),
        c == e[i].1 + 1,
    ensures
        distinct_keys(e.update(i, (e[i].0, c))),
        total(e.update(i, (e[i].0, c))) == total(e) + 1,
        forall|k: Seq<char>|
            #[trigger] count_in(e.update(i, (e[i].0, c)), k) == count_in(e, k) + (if k == e[i].0 {
                1int
            } else {
                0int
            }),
    decreases e.len(),
{
    let f = e.update(i, (e[i].0, c));
    assert(distinct_keys(f)) by {
        assert forall|a: int, b: int| 0 <= a < b < f.len() implies f[a].0 != f[b].0 by {
            assert(e[a].0 != e[b].0);
        }
    }
    if i == e.len() - 1 {
        assert(f.drop_last() == e.drop_last());
        assert forall|k: Seq<char>| #[trigger] count_in(f, k) == count_in(e, k) + (if k == e[i].0 {
            1int
        } else {
            0int
        }) by {
            if k != e[i].0 {
            }
        }
    } else {
        let d = e.drop_last();
        assert(d[i] == e[i]);
        assert(distinct_keys(d));
        lemma_bump(d, i, c);
        assert(f.drop_last() == d.update(i, (d[i].0, c)));
        assert(f.last() == e.last());
        assert(e.last().0 != e[i].0);
        assert forall|k: Seq<char>| #[trigger] count_in(f, k) == count_in(e, k) + (if k == e[i].0 {
            1int
        } else {
            0int
        }) by {
            assert(count_in(d.update(i, (d[i].0, c)), k) == count_in(d, k) + (if k == e[i].0 {
                1int
            } else {
                0int
            }));
        }
    }
}

/// Adding a new word with count one at the end.
pub proof fn lemma_append(e: Seq<(Seq<char>, u32)>, w: Seq<char>)
    requires
        distinct_keys(e),
        !has_key(e, w),
    ensures
        distinct_keys(e.push((w, 1u32))),
        total(e.push((w, 1u32))) == total(e) + 1,
        forall|k: Seq<char>|
            #[trigger] count_in(e.push((w, 1u32)), k) == count_in(e, k) + (if k == w {
                1int
            } else {
                0int
            }),
{
    let f = e.push((w, 1u32));
    assert(f.drop_last() == e);
    lemma_count_of_absent(e, w);
    assert(distinct_keys(f)) by {
        assert forall|a: int, b: int| 0 <= a < b < f.len() implies f[a].0 != f[b].0 by {
            if b == e.len() {
                assert(f[a] == e[a]);
            } else {
                assert(e[a].0 != e[b].0);
            }
        }
    }
}

/// The entry at `i` has the largest count of `e`.
pub open spec fn is_max_at(e: Seq<(Seq<char>, u32)>, i: int) -> bool {
    0 <= i < e.len() && forall|j: int| 0 <= j < e.len() ==> #[trigger] e[j].1 <= e[i].1
}

/// The entry at `i` has a count larger than that of any other entry.
pub open spec fn is_unique_max_at(e: Seq<(Seq<char>, u32)>, i: int) -> bool {
    0 <= i < e.len() && forall|j: int| 0 <= j < e.len() && j != i ==> #[trigger] e[j].1 < e[i].1
}

/// The decimal digit for `n < 10`.
pub open spec fn digit_char(n: nat) -> char {
    ((48 + n) as u32) as char
}

/// The decimal notation of `n`, without leading zeros.
pub open spec fn decimal(n: nat) -> Seq<char>
    decreases n,
{
    if n < 10 {
        seq![digit_char(n)]
    } else {
        decimal(n / 10).push(digit_char(n % 10))
    }
}

/// The text of a table: one line `word: count` per entry, in the order of
/// the entries, each ended by a newline.
pub open spec fn render(e: Seq<(Seq<char>, u32)>) -> Seq<char>
    decreases e.len(),
{
    if e.len() == 0 {
        seq![]
    } else {
        render(e.drop_last()) + e.last().0 + seq![':', ' '] + decimal(e.last().1 as nat) + seq![
            '\n',
        ]
    }
}

/// Appends the decimal notation of `n` to `out`.
pub fn push_decimal(n: u32, out: &mut Vec<char>)
    ensures
        final(out)@ == old(out)@ + decimal(n as nat),
    decreases n,
{
    if n >= 10 {
        push_decimal(n / 10, out);
    }
    let d = (n % 10) as u8;
    let c = (d + 48) as char;
    assert(c == digit_char((n % 10) as nat));
    out.push(c);
}

/// Appends the characters of `s` to `out`.
fn push_str(s: &String, out: &mut Vec<char>)
    ensures
        final(out)@ == old(out)@ + s@,
{
    let cs = crate::chars::chars_of(s.as_str());
    let ghost start = out@;
    for j in 0..cs.len()
        invariant
            out@ == start + cs@.take(j as int),
    {
        out.push(cs[j]);
        assert(cs@.take(j + 1) == cs@.take(j as int).push(cs@[j as int]));
    }
    assert(cs@.take(cs.len() as int) == cs@);
}

/// A table of word counts. Its view lists the entries as (word, count) pairs.
pub struct WordTable {
    entries: Vec<(String, u32)>,
}

impl View for WordTable {
    type V = Seq<(Seq<char>, u32)>;

    closed spec fn view(&self) -> Seq<(Seq<char>, u32)> {
        self.entries@.map_values(|e: (String, u32)| (e.0@, e.1))
    }
}

impl WordTable {
    /// Words are distinct and every count is positive.
    pub open spec fn wf(&self) -> bool {
        &&& distinct_keys(self@)
        &&& forall|i: int| 0 <= i < self@.len() ==> #[trigger] self@[i].1 > 0
    }

    pub fn new() -> (t: WordTable)
        ensures
            t@ == Seq::<(Seq<char>, u32)>::empty(),
            t.wf(),
    {
        let t = WordTable { entries: Vec::new() };
        assert(t@ =~= Seq::<(Seq<char>, u32)>::empty());
        t
    }

    /// The number of distinct words.
    pub fn len(&self) -> (n: usize)
        ensures
            n == self@.len(),
    {
        self.entries.len()
    }

    /// The count of the word `w`; 0 when it has no entry.
    pub fn count(&self, w: &str) -> (c: u32)
        requires
            self.wf(),
        ensures
            c == count_in(self@, w@),
    {
        let key = w.to_string();
        proof { vstd::string::to_string_from_display_ensures_for_str(w, key); }
        for i in 0..self.entries.len()
            invariant
                self.wf(),
                key@ == w@,
                forall|j: int| 0 <= j < i ==> #[trigger] self@[j].0 != w@,
        {
            if self.entries[i].0 == key {
                proof { lemma_count_of_entry(self@, i as int); }
                return self.entries[i].1;
            }
        }
        proof { lemma_count_of_absent(self@, w@); }
        0
    }

    /// Counts one more occurrence of the word `w`.
    pub fn add(&mut self, w: &Vec<char>)
        requires
            old(self).wf(),
            count_in(old(self)@, w@) < u32::MAX,
        ensures
            final(self).wf(),
            total(final(self)@) == total(old(self)@) + 1,
            forall|k: Seq<char>|
                #[trigger] count_in(final(self)@, k) == count_in(old(self)@, k) + (if k == w@ {
                    1int
                } else {
                    0int
                }),
    {
        let key = crate::chars::string_of(w);
        let n = self.entries.len();
        for i in 0..n
            invariant
                n == self.entries.len(),
                self.wf(),
                self == old(self),
                count_in(self@, w@) < u32::MAX,
                key@ == w@,
                forall|j: int| 0 <= j < i ==> #[trigger] self@[j].0 != w@,
        {
            if self.entries[i].0 == key {
                let ghost e = self@;
                proof {
                    lemma_count_of_entry(e, i as int);
                }
                let c = self.entries[i].1 + 1;
                self.entries.set(i, (key, c));
                proof { lemma_bump(e, i as int, c); }
                assert(self@ =~= e.update(i as int, (e[i as int].0, c)));
                return;
            }
        }
        let ghost e = self@;
        proof { lemma_append(e, w@); }
        self.entries.push((key, 1));
        assert(self@ =~= e.push((w@, 1u32)));
    }

    /// The text of the table: one line `word: count` per entry.
    pub fn render(&self) -> (s: String)
        ensures
            s@ == render(self@),
    {
        let mut out: Vec<char> = Vec::new();
        for i in 0..self.entries.len()
            invariant
                out@ == render(self@.take(i as int)),
        {
            assert(self@.take(i + 1).drop_last() == self@.take(i as int));
            assert(self@.take(i + 1).last() == self@[i as int]);
            push_str(&self.entries[i].0, &mut out);
            out.push(':');
            out.push(' ');
            push_decimal(self.entries[i].1, &mut out);
            out.push('\n');
            assert(out@ == render(self@.take(i as int)) + self@[i as int].0 + seq![':', ' ']
                + decimal(self@[i as int].1 as nat) + seq!['\n']);
        }
        assert(self@.take(self.entries.len() as int) == self@);
        crate::chars::string_of(&out)
    }

    /// The entry with the largest count; none for an empty table. Among
    /// entries that share the largest count, which one is returned is not
    /// promised.
    pub fn most_frequent(&self) -> (r: Option<(&String, &u32)>)
        requires
            self.wf(),
        ensures
            r is None <==> self@.len() == 0,
            r matches Some((k, c)) ==> exists|i: int| #[trigger] is_max_at(self@, i)
                && self@[i] == (k@, *c),
            forall|i: int| #[trigger] is_unique_max_at(self@, i) ==> (r matches Some((k, c))
                && k@ == self@[i].0 && *c == self@[i].1),
    {
        if self.entries.len() == 0 {
            return None;
        }
        let mut best: usize = 0;
        for i in 1..self.entries.len()
            invariant
                0 <= best < i <= self@.len(),
                forall|j: int| 0 <= j < i ==> #[trigger] self@[j].1 <= self@[best as int].1,
        {
            if self.entries[i].1 > self.entries[best].1 {
                best = i;
            }
        }
        assert(is_max_at(self@, best as int));
        let e = &self.entries[best];
        Some((&e.0, &e.1))
    }
}

} // verus!
