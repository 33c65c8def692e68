//! The word-count table: normalized words mapped to occurrence counts, with
//! the associative, commutative merge that the parallel reduction relies on.

use vstd::prelude::*;

verus! {

/// Saturating addition of counts: the sum, capped at `u64::MAX`.
pub open spec fn sat_add(a: u64, b: u64) -> u64 {
    if a + b > u64::MAX {
        u64::MAX
    } else {
        (a + b) as u64
    }
}

/// The count that `w` has among `s`: the value of its first entry, or zero.
pub open spec fn lookup(s: Seq<(String, u64)>, w: Seq<char>) -> u64
    decreases s.len(),
{
    if s.len() == 0 {
        0
    } else if s[0].0@ == w {
        s[0].1
    } else {
        lookup(s.drop_first(), w)
    }
}

pub proof fn lemma_lookup_absent(s: Seq<(String, u64)>, w: Seq<char>)
    requires
        forall|p: int| 0 <= p < s.len() ==> s[p].0@ != w,
    ensures
        lookup(s, w) == 0,
    decreases s.len(),
{
    if s.len() > 0 {
        assert(s.drop_first() =~= s.subrange(1, s.len() as int));
        lemma_lookup_absent(s.drop_first(), w);
    }
}

/// A table of word counts. Every stored count is at least one, and keys are
/// pairwise distinct.
pub struct WordCounts {
    pub entries: Vec<(String, u64)>,
}

impl WordCounts {
    pub open spec fn entries_view(self) -> Seq<(String, u64)> {
        self.entries@
    }

    pub open spec fn wf(self) -> bool {
        (forall|p: int, q: int|
            0 <= p < q < self.entries@.len() ==> self.entries@[p].0@ != self.entries@[q].0@)
            && (forall|p: int| 0 <= p < self.entries@.len() ==> self.entries@[p].1 >= 1)
    }

    /// The count recorded for a word; zero when the word is absent.
    pub open spec fn count_of(self, w: Seq<char>) -> u64 {
        lookup(self.entries@, w)
    }

    pub fn new() -> (r: WordCounts)
        ensures
            r.wf(),
            forall|w: Seq<char>| r.count_of(w) == 0,
            r.entries_view().len() == 0,
    {
        WordCounts { entries: Vec::new() }
    }

    pub fn len(&self) -> (n: usize)
        ensures
            n == self.entries_view().len(),
    {
        self.entries.len()
    }

    pub fn entry_at(&self, i: usize) -> (r: &(String, u64))
        requires
            i < self.entries_view().len(),
        ensures
            *r == self.entries_view()[i as int],
    {
        &self.entries[i]
    }

    /// Looks a word's count up; zero when the word is absent.
    pub fn get(&self, word: &String) -> (c: u64)
        ensures
            c == self.count_of(word@),
    {
        let ghost s0 = self.entries@;
        let mut i: usize = 0;
        proof {
            assert(s0.subrange(0, s0.len() as int) =~= s0);
        }
        while i < self.entries.len()
            invariant
                s0 == self.entries@,
                i <= s0.len(),
                lookup(s0, word@) == lookup(s0.subrange(i as int, s0.len() as int), word@),
            decreases s0.len() - i,
        {
            let hit: bool = self.entries[i].0.eq(word);
            proof {
                let suf = s0.subrange(i as int, s0.len() as int);
                assert(suf[0] == s0[i as int]);
                assert(suf.drop_first() =~= s0.subrange(i + 1, s0.len() as int));
            }
            if hit {
                return self.entries[i].1;
            }
            i = i + 1;
        }
        0
    }

    /// Records `n` further occurrences of `word`: its count grows by `n`,
    /// saturating; every other count is unchanged.
    #[verifier::rlimit(100)]
    pub fn add(&mut self, word: &String, n: u64)
        requires
            old(self).wf(),
            n >= 1,
        ensures
            final(self).wf(),
            final(self).count_of(word@) == sat_add(old(self).count_of(word@), n),
            forall|w: Seq<char>| w != word@ ==> final(self).count_of(w) == old(self).count_of(w),
    {
        let ghost s0 = self.entries@;
        let mut i: usize = 0;
        proof {
            assert(s0.subrange(0, s0.len() as int) =~= s0);
        }
        while i < self.entries.len()
            invariant
                old(self).wf(),
                s0 == old(self).entries@,
                n >= 1,
                self.entries@ == s0,
                i <= s0.len(),
                forall|p: int| 0 <= p < i ==> s0[p].0@ != word@,
                lookup(s0, word@) == lookup(s0.subrange(i as int, s0.len() as int), word@),
            decreases s0.len() - i,
        {
            let hit: bool = {
                let pair = &self.entries[i];
                pair.0.eq(word)
            };
            proof {
                let suf = s0.subrange(i as int, s0.len() as int);
                assert(suf[0] == s0[i as int]);
                assert(suf.drop_first() =~= s0.subrange(i + 1, s0.len() as int));
            }
            if hit {
                let c: u64 = self.entries[i].1;
                let newc: u64 = if u64::MAX - c >= n {
                    c + n
                } else {
                    u64::MAX
                };
                let key = self.entries[i].0.clone();
                let ghost ep: (String, u64) = (key, newc);
                self.entries.set(i, (key, newc));
                proof {
                    assert(self.entries@ == s0.update(i as int, ep));
                    assert(s0[i as int].0@ == word@);
                    assert(lookup(s0.subrange(i as int, s0.len() as int), word@) == c);
                    assert(newc == sat_add(c, n));
                    assert forall|w: Seq<char>| #[trigger] lookup(self.entries@, w) == (if w
                        == word@ {
                        newc
                    } else {
                        lookup(s0, w)
                    }) by {
                        lemma_lookup_update_key(s0, i as int, ep, w);
                    };
                    assert(ep.0@ == s0[i as int].0@);
                    assert(newc >= 1);
                    assert forall|p: int|
                        0 <= p < self.entries@.len() implies #[trigger] self.entries@[p].0@
                        == s0[p].0@ && self.entries@[p].1 >= 1 by {
                        assert(self.entries@[p] == s0.update(i as int, ep)[p]);
                        if p != i as int {
                            assert(s0.update(i as int, ep)[p] == s0[p]);
                            assert(s0[p].1 >= 1);
                        } else {
                            assert(self.entries@[p] == ep);
                            assert(ep.1 == newc);
                        }
                    };
                }
                return ;
            }
            i = i + 1;
        }
        let key = word.clone();
        self.entries.push((key, n));
        proof {
            lemma_lookup_absent(s0, word@);
            lemma_lookup_push(s0, (key, n), word@);
            assert(forall|w: Seq<char>|
                w != word@ ==> #[trigger] lookup(self.entries@, w) == lookup(s0, w)) by {
                assert forall|w: Seq<char>| w != word@ implies #[trigger] lookup(self.entries@, w)
                    == lookup(s0, w) by {
                    lemma_lookup_push(s0, (key, n), w);
                };
            };
        }
    }

    /// Folds `other` into this table: afterwards each word's count is the
    /// saturating sum of the two counts it had.
    pub fn merge_from(&mut self, other: &WordCounts)
        requires
            old(self).wf(),
            other.wf(),
        ensures
            final(self).wf(),
            forall|w: Seq<char>|
                #[trigger] final(self).count_of(w) == sat_add(
                    old(self).count_of(w),
                    other.count_of(w),
                ),
    {
        let ghost o = other.entries@;
        let mut i: usize = 0;
        proof {
            assert(o.subrange(0, o.len() as int) =~= o);
        }
        while i < other.entries.len()
            invariant
                self.wf(),
                other.wf(),
                o == other.entries@,
                old(self).wf(),
                i <= o.len(),
                forall|w: Seq<char>|
                    sat_add(
                        #[trigger] self.count_of(w),
                        lookup(o.subrange(i as int, o.len() as int), w),
                    ) == sat_add(old(self).count_of(w), other.count_of(w)),
            decreases o.len() - i,
        {
            let ghost pre = *self;
            let pair = &other.entries[i];
            let k = &pair.0;
            let c = pair.1;
            proof {
                let suf = o.subrange(i as int, o.len() as int);
                assert(suf[0] == o[i as int]);
                assert(suf.drop_first() =~= o.subrange(i + 1, o.len() as int));
                assert forall|p: int| i + 1 <= p < o.len() implies o[p].0@ != k@ by {
                    assert(o[i as int].0@ == k@);
                }
                lemma_lookup_absent(o.subrange(i + 1, o.len() as int), k@);
            }
            self.add(k, c);
            i = i + 1;
            proof {
                assert forall|w: Seq<char>|
                    sat_add(
                        #[trigger] self.count_of(w),
                        lookup(o.subrange(i as int, o.len() as int), w),
                    ) == sat_add(old(self).count_of(w), other.count_of(w)) by {
                    let sufp = o.subrange(i - 1, o.len() as int);
                    assert(sufp.drop_first() =~= o.subrange(i as int, o.len() as int));
                    if w == k@ {
                        assert(lookup(sufp, w) == c);
                        assert(lookup(o.subrange(i as int, o.len() as int), w) == 0);
                        assert(self.count_of(w) == sat_add(pre.count_of(w), c));
                    } else {
                        assert(lookup(sufp, w) == lookup(
                            o.subrange(i as int, o.len() as int),
                            w,
                        ));
                        assert(self.count_of(w) == pre.count_of(w));
                    }
                };
            }
        }
        proof {
            assert forall|w: Seq<char>|
                #[trigger] self.count_of(w) == sat_add(
                    old(self).count_of(w),
                    other.count_of(w),
                ) by {
                let suf = o.subrange(i as int, o.len() as int);
                assert(suf.len() == 0);
                assert(lookup(suf, w) == 0);
            };
        }
    }
}

proof fn lemma_lookup_update_key(s: Seq<(String, u64)>, i: int, e: (String, u64), w: Seq<char>)
    requires
        0 <= i < s.len(),
        e.0@ == s[i].0@,
        forall|p: int| 0 <= p < i ==> s[p].0@ != e.0@,
    ensures
        lookup(s.update(i, e), w) == if w == e.0@ {
            e.1
        } else {
            lookup(s, w)
        },
    decreases s.len(),
{
    let t = s.update(i, e);
    if i == 0 {
        assert(t[0] == e);
        assert(t.drop_first() =~= s.drop_first());
    } else {
        assert(t[0] == s[0]);
        assert(t.drop_first() =~= s.drop_first().update(i - 1, e));
        assert(s[0].0@ != e.0@);
        lemma_lookup_update_key(s.drop_first(), i - 1, e, w);
    }
}

proof fn lemma_lookup_push(s: Seq<(String, u64)>, e: (String, u64), w: Seq<char>)
    ensures
        w != e.0@ ==> lookup(s.push(e), w) == lookup(s, w),
        (forall|p: int| 0 <= p < s.len() ==> s[p].0@ != w) && w == e.0@ ==> lookup(s.push(e), w)
            == e.1,
    decreases s.len(),
{
    let t = s.push(e);
    if s.len() == 0 {
        assert(t[0] == e);
        assert(t.drop_first() =~= s);
    } else {
        assert(t[0] == s[0]);
        assert(t.drop_first() =~= s.drop_first().push(e));
        lemma_lookup_push(s.drop_first(), e, w);
    }
}

/// `m` holds, word for word, the saturating sum of the counts of `a` and `b`.
pub open spec fn is_merge_of(m: WordCounts, a: WordCounts, b: WordCounts) -> bool {
    forall|w: Seq<char>| #[trigger] m.count_of(w) == sat_add(a.count_of(w), b.count_of(w))
}

/// Merging is commutative: folding `a` into `b` and folding `b` into `a`
/// give the same count for every word.
pub proof fn lemma_merge_commutes(a: WordCounts, b: WordCounts, m1: WordCounts, m2: WordCounts)
    requires
        is_merge_of(m1, a, b),
        is_merge_of(m2, b, a),
    ensures
        forall|w: Seq<char>| #[trigger] m1.count_of(w) == m2.count_of(w),
{
}

/// Merging is associative: reducing three tables left to right or right to
/// left gives the same count for every word, so any reduction-tree shape
/// over any number of tables yields the same final counts.
pub proof fn lemma_merge_associates(
    a: WordCounts,
    b: WordCounts,
    c: WordCounts,
    ab: WordCounts,
    ab_c: WordCounts,
    bc: WordCounts,
    a_bc: WordCounts,
)
    requires
        is_merge_of(ab, a, b),
        is_merge_of(ab_c, ab, c),
        is_merge_of(bc, b, c),
        is_merge_of(a_bc, a, bc),
    ensures
        forall|w: Seq<char>| #[trigger] ab_c.count_of(w) == a_bc.count_of(w),
{
    assert forall|w: Seq<char>| #[trigger] ab_c.count_of(w) == a_bc.count_of(w) by {
        assert(ab.count_of(w) == sat_add(a.count_of(w), b.count_of(w)));
        assert(bc.count_of(w) == sat_add(b.count_of(w), c.count_of(w)));
    };
}

} // verus!
