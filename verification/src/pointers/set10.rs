//! A set of slot numbers `1..=10` kept as an ascending linked list in an array.
use vstd::prelude::*;

verus! {

/// The least `q` in `from..=10` whose flag is set, or 0 if there is none.
pub open spec fn first_from(f: Seq<bool>, from: int) -> int
    decreases 11 - from,
{
    if from > 10 || from < 1 {
        0
    } else if f[from] {
        from
    } else {
        first_from(f, from + 1)
    }
}

/// The flags of the numbers `1..=n`.
pub open spec fn flags_upto(n: int) -> Seq<bool> {
    Seq::new(11, |q: int| 1 <= q <= n)
}

/// How many of the numbers `1..=n` have their flag set.
pub open spec fn count_flags(f: Seq<bool>, n: int) -> nat
    decreases n,
{
    if n <= 0 {
        0
    } else {
        count_flags(f, n - 1) + if f[n] {
            1nat
        } else {
            0nat
        }
    }
}

/// Flags that stand for a subset of `1..=limit`.
pub open spec fn flags_ok(f: Seq<bool>, limit: int) -> bool {
    &&& f.len() == 11
    &&& 0 <= limit <= 10
    &&& !f[0]
    &&& forall|q: int| 1 <= q <= 10 && #[trigger] f[q] ==> q <= limit
}

/// With no flag set in `from..to`, the search from `from` goes on from `to`.
pub proof fn lemma_first_from_skip(f: Seq<bool>, from: int, to: int)
    requires
        1 <= from <= to <= 11,
        forall|t: int| from <= t < to ==> !#[trigger] f[t],
    ensures
        first_from(f, from) == first_from(f, to),
    decreases to - from,
{
    if from < to {
        lemma_first_from_skip(f, from + 1, to);
    }
}

/// The search finds the least set flag from `from` on.
pub proof fn lemma_first_from_props(f: Seq<bool>, from: int)
    requires
        1 <= from <= 11,
        f.len() == 11,
    ensures
        first_from(f, from) == 0 ==> forall|t: int| from <= t <= 10 ==> !#[trigger] f[t],
        first_from(f, from) != 0 ==> from <= first_from(f, from) <= 10 && f[first_from(f, from)]
            && forall|t: int| from <= t < first_from(f, from) ==> !#[trigger] f[t],
    decreases 11 - from,
{
    if from <= 10 {
        lemma_first_from_props(f, from + 1);
    }
}

/// Flags that agree from `from` on give the same search result.
pub proof fn lemma_first_from_agree(f: Seq<bool>, g: Seq<bool>, from: int)
    requires
        1 <= from <= 11,
        f.len() == 11,
        g.len() == 11,
        forall|t: int| from <= t <= 10 ==> f[t] == g[t],
    ensures
        first_from(f, from) == first_from(g, from),
    decreases 11 - from,
{
    if from <= 10 {
        lemma_first_from_agree(f, g, from + 1);
    }
}

/// Clearing one set flag lowers the count by one from there on.
pub proof fn lemma_count_clear(f: Seq<bool>, q: int, n: int)
    requires
        f.len() == 11,
        1 <= q <= 10,
        f[q],
        0 <= n <= 10,
    ensures
        count_flags(f.update(q, false), n) == if n >= q {
            count_flags(f, n) - 1
        } else {
            count_flags(f, n) as int
        },
    decreases n,
{
    if n > 0 {
        lemma_count_clear(f, q, n - 1);
    }
}

/// Counts agree where the flags agree.
pub proof fn lemma_count_agree(f: Seq<bool>, g: Seq<bool>, n: int)
    requires
        0 <= n <= 10,
        forall|t: int| 1 <= t <= n ==> f[t] == g[t],
    ensures
        count_flags(f, n) == count_flags(g, n),
    decreases n,
{
    if n > 0 {
        lemma_count_agree(f, g, n - 1);
    }
}

/// With no flag set in `from+1..=to`, the counts up to `from` and `to` agree.
pub proof fn lemma_count_skip(f: Seq<bool>, from: int, to: int)
    requires
        0 <= from <= to,
        forall|t: int| from < t <= to ==> !#[trigger] f[t],
    ensures
        count_flags(f, to) == count_flags(f, from),
    decreases to - from,
{
    if from < to {
        lemma_count_skip(f, from, to - 1);
    }
}

/// The count of the first `n` numbers' flags is at most `n`.
pub proof fn lemma_count_bound(f: Seq<bool>, n: int)
    requires
        0 <= n,
    ensures
        count_flags(f, n) <= n,
    decreases n,
{
    if n > 0 {
        lemma_count_bound(f, n - 1);
    }
}

/// Counting is monotone.
pub proof fn lemma_count_mono(f: Seq<bool>, m: int, n: int)
    requires
        0 <= m <= n,
    ensures
        count_flags(f, m) <= count_flags(f, n),
    decreases n - m,
{
    if m < n {
        lemma_count_mono(f, m, n - 1);
    }
}

/// The count of `1..=n` of `flags_upto(n)` is `n`.
pub proof fn lemma_count_upto(n: int, m: int)
    requires
        0 <= n <= 10,
        0 <= m <= 10,
    ensures
        count_flags(flags_upto(n), m) == if m <= n {
            m
        } else {
            n
        },
    decreases m,
{
    if m > 0 {
        lemma_count_upto(n, m - 1);
    }
}

pub(crate) struct Set10Iter {
    pub(crate) pending: [usize; 11],
    pub(crate) members: Ghost<Seq<bool>>,
    pub(crate) limit: Ghost<int>,
}

impl Set10Iter {
    /// The members, as flags over `0..=10`.
    pub(crate) open spec fn flags(&self) -> Seq<bool> {
        self.members@
    }

    pub(crate) open spec fn wf(&self) -> bool {
        let f = self.members@;
        let l = self.limit@;
        &&& flags_ok(f, l)
        &&& self.pending[0] == first_from(f, 1)
        &&& forall|q: int| 1 <= q <= 10 && #[trigger] f[q] ==> self.pending[q] == first_from(f, q + 1)
        &&& forall|q: int| 1 <= q <= l && !#[trigger] f[q] ==> self.pending[q] == 0
    }

    /// The set `1..=length`.
    pub(crate) fn new(length: usize) -> (r: Set10Iter)
        requires
            length <= 10,
        ensures
            r.wf(),
            r.flags() == flags_upto(length as int),
            r.limit@ == length,
    {
        let mut pending: [usize; 11] = [1, 2, 3, 4, 5, 6, 7, 8, 9, 10, 0];
        pending[length] = 0;
        let ghost f = flags_upto(length as int);
        proof {
            assert forall|q: int| 1 <= q <= 10 && #[trigger] f[q] implies pending[q] == first_from(
                f,
                q + 1,
            ) by {
                if q < length {
                    assert(f[q + 1]);
                } else {
                    lemma_first_from_props(f, q + 1);
                    if first_from(f, q + 1) != 0 {
                        assert(f[first_from(f, q + 1)]);
                    }
                }
            }
            lemma_first_from_props(f, 1);
            if length > 0 {
                assert(f[1]);
            } else {
                if first_from(f, 1) != 0 {
                    assert(f[first_from(f, 1)]);
                }
            }
        }
        Set10Iter { pending, members: Ghost(f), limit: Ghost(length as int) }
    }

    /// The least member after `pos` (0 for none); `pos` is 0 or a member.
    pub(crate) fn next(&self, pos: usize) -> (r: usize)
        requires
            self.wf(),
            pos == 0 || (1 <= pos <= 10 && self.flags()[pos as int]),
        ensures
            r == first_from(self.flags(), pos + 1),
    {
        self.pending[pos]
    }

    /// Takes the member `pos` out of the set.
    pub(crate) fn remove(&mut self, pos: usize)
        requires
            old(self).wf(),
            1 <= pos <= 10,
            old(self).flags()[pos as int],
        ensures
            final(self).wf(),
            final(self).flags() == old(self).flags().update(pos as int, false),
            final(self).limit@ == old(self).limit@,
    {
        let ghost f = self.members@;
        let ghost l = self.limit@;
        let ghost g = f.update(pos as int, false);
        let next = self.pending[pos];
        let cur = pos;
        self.pending[cur] = 0;
        let mut q: usize = pos;
        loop
            invariant_except_break
                1 <= q,
                forall|t: int| q <= t < pos ==> !#[trigger] f[t],
            invariant
                q <= pos <= 10,
                pos <= l,
                self.members@ == f,
                self.limit@ == l,
                flags_ok(f, l),
                f[pos as int],
                self.pending[pos as int] == 0,
                self.pending[0] == first_from(f, 1),
                forall|t: int| 1 <= t <= 10 && t != pos && #[trigger] f[t] ==> self.pending[t]
                    == first_from(f, t + 1),
                forall|t: int| 1 <= t <= l && !#[trigger] f[t] ==> self.pending[t] == 0,
            ensures
                q < pos,
                q == 0 || f[q as int],
                forall|t: int| q < t < pos ==> !#[trigger] f[t],
            decreases q,
        {
            q = q - 1;
            if q == 0 {
                break ;
            }
            if self.pending[q] != 0 {
                break ;
            }
            proof {
                if f[q as int] {
                    lemma_first_from_props(f, q + 1);
                }
            }
        }
        proof {
            lemma_first_from_skip(f, q + 1, pos as int);
        }
        assert(first_from(f, q + 1) == cur);
        self.pending[q] = next;
        self.members = Ghost(g);
        proof {
            assert forall|t: int| 1 <= t <= 10 && #[trigger] g[t] implies self.pending[t]
                == first_from(g, t + 1) by {
                lemma_first_from_props(f, t + 1);
                if t < q {
                    lemma_first_from_props(f, t + 1);
                    assert(first_from(f, t + 1) <= q) by {
                        if q > 0 {
                            assert(f[q as int]);
                        }
                    }
                    lemma_first_from_skip(f, t + 1, first_from(f, t + 1));
                    lemma_first_from_skip(g, t + 1, first_from(f, t + 1));
                    assert(g[first_from(f, t + 1)]);
                } else if t == q {
                    lemma_first_from_skip(g, q + 1, pos + 1);
                    lemma_first_from_agree(f, g, pos + 1);
                } else {
                    lemma_first_from_agree(f, g, t + 1);
                }
            }
            if q == 0 {
                lemma_first_from_skip(g, 1, pos + 1);
                lemma_first_from_agree(f, g, pos + 1);
            } else {
                lemma_first_from_props(f, 1);
                lemma_first_from_skip(f, 1, first_from(f, 1));
                lemma_first_from_skip(g, 1, first_from(f, 1));
            }
        }
    }
}

} // verus!
