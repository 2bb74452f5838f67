use vstd::prelude::*;

verus! {

/// Highest timestamp recorded for writer `n` among `s`'s entries (0 if none).
pub open spec fn clock_in(s: Seq<(u64, u64)>, n: u64) -> u64
    decreases s.len(),
{
    if s.len() == 0 {
        0
    } else {
        let r = clock_in(s.drop_last(), n);
        let e = s.last();
        if e.0 == n && e.1 > r {
            e.1
        } else {
            r
        }
    }
}

/// Writers strictly increase along `s` and every recorded timestamp is
/// positive: the one representation of each context.
pub open spec fn canonical(s: Seq<(u64, u64)>) -> bool {
    &&& forall|i: int, j: int| 0 <= i < j < s.len() ==> (#[trigger] s[i]).0 < (#[trigger] s[j]).0
    &&& forall|i: int| 0 <= i < s.len() ==> (#[trigger] s[i]).1 > 0
}

/// Context `a` has seen everything context `b` has seen.
pub open spec fn covers(a: CausalContext, b: CausalContext) -> bool {
    forall|n: u64| #[trigger] a.clock(n) >= b.clock(n)
}

/// Context `a` dominates `b`: it has seen everything `b` has, and more.
pub open spec fn dominates(a: CausalContext, b: CausalContext) -> bool {
    covers(a, b) && exists|n: u64| #[trigger] a.clock(n) > b.clock(n)
}

/// The per-item causal context: for each writer, the highest timestamp seen
/// from it. Writers absent from the list are at timestamp 0.
#[derive(Clone, Debug)]
pub struct CausalContext {
    pub entries: Vec<(u64, u64)>,
}

proof fn lemma_clock_ge_entry(s: Seq<(u64, u64)>, i: int)
    requires
        0 <= i < s.len(),
    ensures
        clock_in(s, s[i].0) >= s[i].1,
    decreases s.len(),
{
    if i < s.len() - 1 {
        lemma_clock_ge_entry(s.drop_last(), i);
    }
}

proof fn lemma_clock_witness(s: Seq<(u64, u64)>, n: u64)
    ensures
        clock_in(s, n) == 0 || exists|i: int|
            0 <= i < s.len() && #[trigger] s[i] == (n, clock_in(s, n)),
    decreases s.len(),
{
    if s.len() > 0 {
        lemma_clock_witness(s.drop_last(), n);
        if clock_in(s, n) != 0 && clock_in(s, n) == clock_in(s.drop_last(), n) {
            let i = choose|i: int|
                0 <= i < s.drop_last().len() && #[trigger] s.drop_last()[i] == (
                n,
                clock_in(s.drop_last(), n),
            );
            assert(s[i] == (n, clock_in(s, n)));
        }
    }
}

proof fn lemma_clock_at(s: Seq<(u64, u64)>, i: int)
    requires
        forall|a: int, b: int| 0 <= a < b < s.len() ==> (#[trigger] s[a]).0 < (#[trigger] s[b]).0,
        0 <= i < s.len(),
    ensures
        clock_in(s, s[i].0) == s[i].1,
    decreases s.len(),
{
    let d = s.drop_last();
    if i < s.len() - 1 {
        assert(s[i].0 < s[s.len() - 1].0);
        assert(d[i] == s[i]);
        assert forall|a: int, b: int| 0 <= a < b < d.len() implies (#[trigger] d[a]).0 < (#[trigger] d[b]).0 by {
            assert(d[a] == s[a] && d[b] == s[b]);
        }
        lemma_clock_at(d, i);
    } else {
        assert forall|j: int| 0 <= j < d.len() implies (#[trigger] d[j]).0 != s[i].0 by {
            assert(d[j] == s[j]);
        }
        lemma_clock_absent(d, s[i].0);
    }
}

proof fn lemma_clock_absent(s: Seq<(u64, u64)>, n: u64)
    requires
        forall|i: int| 0 <= i < s.len() ==> (#[trigger] s[i]).0 != n,
    ensures
        clock_in(s, n) == 0,
    decreases s.len(),
{
    if s.len() > 0 {
        let d = s.drop_last();
        assert(s.last() == s[s.len() - 1]);
        assert forall|i: int| 0 <= i < d.len() implies (#[trigger] d[i]).0 != n by {
            assert(d[i] == s[i]);
        }
        lemma_clock_absent(d, n);
    }
}

proof fn lemma_canonical_prefix(s: Seq<(u64, u64)>)
    requires
        canonical(s),
        s.len() > 0,
    ensures
        canonical(s.drop_last()),
        forall|n: u64| n != s.last().0 ==> #[trigger] clock_in(s.drop_last(), n) == clock_in(s, n),
        clock_in(s.drop_last(), s.last().0) == 0,
{
    let d = s.drop_last();
    assert forall|a: int, b: int| 0 <= a < b < d.len() implies (#[trigger] d[a]).0 < (#[trigger] d[b]).0 by {
        assert(d[a] == s[a] && d[b] == s[b]);
    }
    assert forall|a: int| 0 <= a < d.len() implies (#[trigger] d[a]).1 > 0 by {
        assert(d[a] == s[a]);
    }
    assert forall|j: int| 0 <= j < d.len() implies (#[trigger] d[j]).0 != s.last().0 by {
        assert(d[j] == s[j]);
        assert(s[j].0 < s[s.len() - 1].0);
    }
    lemma_clock_absent(d, s.last().0);
}

proof fn lemma_canonical_max(s: Seq<(u64, u64)>, n: u64)
    requires
        canonical(s),
        clock_in(s, n) > 0,
    ensures
        s.len() > 0,
        n <= s.last().0,
{
    lemma_clock_witness(s, n);
    let i = choose|i: int| 0 <= i < s.len() && #[trigger] s[i] == (n, clock_in(s, n));
    if i < s.len() - 1 {
        assert(s[i].0 < s[s.len() - 1].0);
    }
}

/// Two canonical contexts that record the same timestamp for every writer
/// have the same entries.
pub proof fn lemma_canonical_unique(a: Seq<(u64, u64)>, b: Seq<(u64, u64)>)
    requires
        canonical(a),
        canonical(b),
        forall|n: u64| #[trigger] clock_in(a, n) == clock_in(b, n),
    ensures
        a == b,
    decreases a.len() + b.len(),
{
    if a.len() == 0 && b.len() == 0 {
        assert(a =~= b);
    } else if a.len() == 0 {
        lemma_clock_at(b, b.len() - 1);
        lemma_canonical_max(a, b.last().0);
    } else {
        lemma_clock_at(a, a.len() - 1);
        let x = a.last();
        lemma_canonical_max(b, x.0);
        let y = b.last();
        lemma_clock_at(b, b.len() - 1);
        lemma_canonical_max(a, y.0);
        assert(x.0 == y.0);
        assert(x.1 == y.1);
        lemma_canonical_prefix(a);
        lemma_canonical_prefix(b);
        assert forall|n: u64| #[trigger] clock_in(a.drop_last(), n) == clock_in(b.drop_last(), n) by {
            if n != x.0 {
                assert(clock_in(a, n) == clock_in(b, n));
            }
        }
        lemma_canonical_unique(a.drop_last(), b.drop_last());
        assert(a =~= a.drop_last().push(x));
        assert(b =~= b.drop_last().push(y));
    }
}

impl View for CausalContext {
    type V = Map<u64, u64>;

    /// The context as a total map from writer to timestamp.
    open spec fn view(&self) -> Map<u64, u64> {
        Map::new(|n: u64| true, |n: u64| self.clock(n))
    }
}

impl CausalContext {
    /// The entries are in canonical form.
    pub open spec fn wf(self) -> bool {
        canonical(self.entries@)
    }

    /// Timestamp recorded for writer `n`.
    pub open spec fn clock(self, n: u64) -> u64 {
        clock_in(self.entries@, n)
    }

    /// The empty context, which has seen nothing.
    pub fn new() -> (r: CausalContext)
        ensures
            r.wf(),
            forall|n: u64| #[trigger] r.clock(n) == 0,
    {
        CausalContext { entries: Vec::new() }
    }

    /// A copy of this context.
    pub fn duplicate(&self) -> (r: CausalContext)
        ensures
            r.entries@ == self.entries@,
    {
        let mut entries: Vec<(u64, u64)> = Vec::new();
        let mut i: usize = 0;
        while i < self.entries.len()
            invariant
                i <= self.entries@.len(),
                entries@ == self.entries@.subrange(0, i as int),
            decreases self.entries@.len() - i,
        {
            entries.push(self.entries[i]);
            i = i + 1;
        }
        proof {
            assert(self.entries@.subrange(0, i as int) =~= self.entries@);
        }
        CausalContext { entries }
    }

    /// Timestamp recorded for writer `n`.
    pub fn get(&self, n: u64) -> (r: u64)
        ensures
            r == self.clock(n),
    {
        let mut r: u64 = 0;
        let mut i: usize = 0;
        while i < self.entries.len()
            invariant
                i <= self.entries@.len(),
                r == clock_in(self.entries@.subrange(0, i as int), n),
            decreases self.entries@.len() - i,
        {
            proof {
                let s = self.entries@.subrange(0, i as int + 1);
                assert(s.drop_last() =~= self.entries@.subrange(0, i as int));
            }
            let e = self.entries[i];
            if e.0 == n && e.1 > r {
                r = e.1;
            }
            i = i + 1;
        }
        proof {
            assert(self.entries@.subrange(0, i as int) =~= self.entries@);
        }
        r
    }

    /// Raises the timestamp recorded for writer `n` to at least `t`,
    /// keeping the entries canonical.
    pub fn advance(&mut self, n: u64, t: u64)
        requires
            old(self).wf(),
        ensures
            final(self).wf(),
            forall|m: u64|
                #[trigger] final(self).clock(m) == if m == n && t > old(self).clock(m) {
                    t
                } else {
                    old(self).clock(m)
                },
    {
        let cur = self.get(n);
        if t <= cur {
            return;
        }
        let ghost s = self.entries@;
        let mut p: usize = 0;
        while p < self.entries.len() && self.entries[p].0 < n
            invariant
                p <= self.entries@.len(),
                s == self.entries@,
                forall|j: int| 0 <= j < p ==> (#[trigger] s[j]).0 < n,
            decreases self.entries@.len() - p,
        {
            p = p + 1;
        }
        if p < self.entries.len() && self.entries[p].0 == n {
            self.entries.remove(p);
            self.entries.insert(p, (n, t));
            proof {
                let s2 = self.entries@;
                assert(s2 =~= s.update(p as int, (n, t)));
                assert forall|i: int, j: int| 0 <= i < j < s2.len() implies (#[trigger] s2[i]).0 < (#[trigger] s2[j]).0 by {
                    assert(s[i].0 < s[j].0);
                }
                lemma_clock_at(s2, p as int);
                assert forall|m: u64| #[trigger] clock_in(s2, m) == if m == n { t } else { clock_in(s, m) } by {
                    if m != n {
                        if exists|i: int| 0 <= i < s.len() && (#[trigger] s[i]).0 == m {
                            let i = choose|i: int| 0 <= i < s.len() && (#[trigger] s[i]).0 == m;
                            lemma_clock_at(s, i);
                            lemma_clock_at(s2, i);
                        } else {
                            lemma_clock_absent(s, m);
                            assert forall|i: int| 0 <= i < s2.len() implies (#[trigger] s2[i]).0 != m by {
                                if i != p {
                                    assert(s2[i] == s[i]);
                                }
                            }
                            lemma_clock_absent(s2, m);
                        }
                    }
                }
            }
        } else {
            self.entries.insert(p, (n, t));
            proof {
                let s2 = self.entries@;
                assert(s2 =~= s.insert(p as int, (n, t)));
                assert forall|i: int, j: int| 0 <= i < j < s2.len() implies (#[trigger] s2[i]).0 < (#[trigger] s2[j]).0 by {
                    if j == p {
                    } else if i == p {
                        assert(s2[j] == s[j - 1]);
                        assert(s[p as int].0 > n);
                        if j - 1 > p {
                            assert(s[p as int].0 < s[j - 1].0);
                        }
                    } else {
                        let ii = if i < p { i } else { i - 1 };
                        let jj = if j < p { j } else { j - 1 };
                        assert(s2[i] == s[ii] && s2[j] == s[jj]);
                    }
                }
                assert forall|i: int| 0 <= i < s.len() implies (#[trigger] s[i]).0 != n by {
                    if i > p {
                        assert(s[p as int].0 < s[i].0);
                    }
                }
                lemma_clock_absent(s, n);
                lemma_clock_at(s2, p as int);
                assert forall|m: u64| #[trigger] clock_in(s2, m) == if m == n { t } else { clock_in(s, m) } by {
                    if m != n {
                        if exists|i: int| 0 <= i < s.len() && (#[trigger] s[i]).0 == m {
                            let i = choose|i: int| 0 <= i < s.len() && (#[trigger] s[i]).0 == m;
                            lemma_clock_at(s, i);
                            let i2 = if i < p { i } else { i + 1 };
                            assert(s2[i2] == s[i]);
                            lemma_clock_at(s2, i2);
                        } else {
                            lemma_clock_absent(s, m);
                            assert forall|i: int| 0 <= i < s2.len() implies (#[trigger] s2[i]).0 != m by {
                                if i < p {
                                    assert(s2[i] == s[i]);
                                } else if i > p {
                                    assert(s2[i] == s[i - 1]);
                                }
                            }
                            lemma_clock_absent(s2, m);
                        }
                    }
                }
            }
        }
    }

    /// Merges `other` into `self`: each writer's timestamp becomes the larger
    /// of the two.
    pub fn join(&mut self, other: &CausalContext)
        requires
            old(self).wf(),
        ensures
            final(self).wf(),
            forall|m: u64|
                #[trigger] final(self).clock(m) == if old(self).clock(m) >= other.clock(m) {
                    old(self).clock(m)
                } else {
                    other.clock(m)
                },
    {
        let mut i: usize = 0;
        while i < other.entries.len()
            invariant
                i <= other.entries@.len(),
                self.wf(),
                forall|m: u64|
                    #[trigger] self.clock(m) == if old(self).clock(m) >= clock_in(
                        other.entries@.subrange(0, i as int),
                        m,
                    ) {
                        old(self).clock(m)
                    } else {
                        clock_in(other.entries@.subrange(0, i as int), m)
                    },
            decreases other.entries@.len() - i,
        {
            proof {
                let s = other.entries@.subrange(0, i as int + 1);
                assert(s.drop_last() =~= other.entries@.subrange(0, i as int));
            }
            let e = other.entries[i];
            self.advance(e.0, e.1);
            i = i + 1;
        }
        proof {
            assert(other.entries@.subrange(0, i as int) =~= other.entries@);
        }
    }

    /// Whether `self` has seen everything `other` has.
    pub fn covers(&self, other: &CausalContext) -> (r: bool)
        ensures
            r == covers(*self, *other),
    {
        let mut i: usize = 0;
        while i < other.entries.len()
            invariant
                i <= other.entries@.len(),
                forall|j: int| 0 <= j < i ==> self.clock(#[trigger] other.entries@[j].0) >= other.entries@[j].1,
            decreases other.entries@.len() - i,
        {
            let e = other.entries[i];
            if self.get(e.0) < e.1 {
                proof {
                    lemma_clock_ge_entry(other.entries@, i as int);
                    assert(self.clock(e.0) < other.clock(e.0));
                }
                return false;
            }
            i = i + 1;
        }
        proof {
            assert forall|n: u64| #[trigger] self.clock(n) >= other.clock(n) by {
                lemma_clock_witness(other.entries@, n);
                if other.clock(n) != 0 {
                    let j = choose|j: int|
                        0 <= j < other.entries@.len() && #[trigger] other.entries@[j] == (
                        n,
                        other.clock(n),
                    );
                    assert(self.clock(other.entries@[j].0) >= other.entries@[j].1);
                }
            }
        }
        true
    }

    /// Whether `self` dominates `other`.
    pub fn dominates(&self, other: &CausalContext) -> (r: bool)
        ensures
            r == dominates(*self, *other),
    {
        if !self.covers(other) {
            return false;
        }
        let mut i: usize = 0;
        while i < self.entries.len()
            invariant
                i <= self.entries@.len(),
                covers(*self, *other),
                forall|j: int| 0 <= j < i ==> other.clock(#[trigger] self.entries@[j].0) >= self.entries@[j].1,
            decreases self.entries@.len() - i,
        {
            let e = self.entries[i];
            if other.get(e.0) < e.1 {
                proof {
                    lemma_clock_ge_entry(self.entries@, i as int);
                    assert(self.clock(e.0) > other.clock(e.0));
                }
                return true;
            }
            i = i + 1;
        }
        proof {
            assert forall|n: u64| !(#[trigger] self.clock(n) > other.clock(n)) by {
                lemma_clock_witness(self.entries@, n);
                if self.clock(n) != 0 {
                    let j = choose|j: int|
                        0 <= j < self.entries@.len() && #[trigger] self.entries@[j] == (
                        n,
                        self.clock(n),
                    );
                    assert(other.clock(self.entries@[j].0) >= self.entries@[j].1);
                }
            }
        }
        false
    }
}

} // verus!
