use vstd::prelude::*;

use crate::bytes::{
    bytes_eq, bytes_lt, copy_bytes, has_prefix, is_prefix, lemma_lex_irreflexive,
    lemma_lex_total, lemma_lex_transitive, lex_lt,
};

verus! {

/// Index entries as (partition key, counter) pairs of plain values.
pub open spec fn entries_view(s: Seq<(Vec<u8>, u64)>) -> Seq<(Seq<u8>, u64)> {
    s.map_values(|e: (Vec<u8>, u64)| (e.0@, e.1))
}

/// Keys strictly increase along `s`.
pub open spec fn sorted_keys(s: Seq<(Seq<u8>, u64)>) -> bool {
    forall|i: int, j: int| 0 <= i < j < s.len() ==> lex_lt(#[trigger] s[i].0, #[trigger] s[j].0)
}

/// Counter of partition `k` in `s` (0 if it has no entry).
pub open spec fn count_of(s: Seq<(Seq<u8>, u64)>, k: Seq<u8>) -> u64
    decreases s.len(),
{
    if s.len() == 0 {
        0
    } else if s.last().0 == k {
        s.last().1
    } else {
        count_of(s.drop_last(), k)
    }
}

/// Mathematical model of an [`IndexQuery`].
pub ghost struct QueryView {
    pub prefix: Seq<u8>,
    pub start: Option<Seq<u8>>,
    pub end: Option<Seq<u8>>,
    pub reverse: bool,
}

/// A range enumeration over the index. `start` is exclusive, so the key
/// last returned by one page is the `start` of the next one; `end` is
/// exclusive too. With `reverse`, keys are enumerated in decreasing order:
/// `start` is then an upper bound and `end` a lower one.
#[derive(Debug)]
pub struct IndexQuery {
    pub prefix: Vec<u8>,
    pub start: Option<Vec<u8>>,
    pub end: Option<Vec<u8>>,
    pub reverse: bool,
}

pub open spec fn opt_view(o: Option<Vec<u8>>) -> Option<Seq<u8>> {
    match o {
        Some(v) => Some(v@),
        None => None,
    }
}

impl View for IndexQuery {
    type V = QueryView;

    open spec fn view(&self) -> QueryView {
        QueryView {
            prefix: self.prefix@,
            start: opt_view(self.start),
            end: opt_view(self.end),
            reverse: self.reverse,
        }
    }
}

/// `k` lies strictly after `a` in the direction of enumeration.
pub open spec fn after(k: Seq<u8>, a: Seq<u8>, reverse: bool) -> bool {
    if reverse {
        lex_lt(k, a)
    } else {
        lex_lt(a, k)
    }
}

/// Entry `e` is listed by query `q`.
pub open spec fn matches(e: (Seq<u8>, u64), q: QueryView) -> bool {
    &&& e.1 > 0
    &&& is_prefix(q.prefix, e.0)
    &&& (q.start matches Some(a) ==> after(e.0, a, q.reverse))
    &&& (q.end matches Some(b) ==> after(b, e.0, q.reverse))
}

/// The entries of `s` that `q` lists, in the order of `s`.
pub open spec fn select(s: Seq<(Seq<u8>, u64)>, q: QueryView) -> Seq<(Seq<u8>, u64)>
    decreases s.len(),
{
    if s.len() == 0 {
        s
    } else {
        let r = select(s.drop_last(), q);
        if matches(s.last(), q) {
            r.push(s.last())
        } else {
            r
        }
    }
}

pub open spec fn reversed<A>(s: Seq<A>) -> Seq<A> {
    Seq::new(s.len(), |i: int| s[s.len() - 1 - i])
}

/// The entries in the direction of enumeration.
pub open spec fn in_order(s: Seq<(Seq<u8>, u64)>, reverse: bool) -> Seq<(Seq<u8>, u64)> {
    if reverse {
        reversed(s)
    } else {
        s
    }
}

/// The first `limit` elements of `s`, or all of them.
pub open spec fn first_n<A>(s: Seq<A>, limit: nat) -> Seq<A> {
    if s.len() <= limit {
        s
    } else {
        s.take(limit as int)
    }
}

/// One page of an index enumeration.
#[derive(Debug)]
pub struct IndexPage {
    /// The listed partitions with their counters.
    pub entries: Vec<(Vec<u8>, u64)>,
    /// Whether entries beyond this page match the query.
    pub more: bool,
    /// Where the next page starts: the last key of this page, when there is more.
    pub next_start: Option<Vec<u8>>,
}

/// Per-partition counters of live items, sorted by partition key.
#[derive(Debug)]
pub struct PartitionIndex {
    pub entries: Vec<(Vec<u8>, u64)>,
}

proof fn lemma_count_at(s: Seq<(Seq<u8>, u64)>, i: int)
    requires
        sorted_keys(s),
        0 <= i < s.len(),
    ensures
        count_of(s, s[i].0) == s[i].1,
    decreases s.len(),
{
    if i < s.len() - 1 {
        assert(lex_lt(s[i].0, s[s.len() - 1].0));
        lemma_lex_irreflexive(s[i].0);
        let d = s.drop_last();
        assert(d[i] == s[i]);
        assert(sorted_keys(d)) by {
            assert forall|a: int, b: int| 0 <= a < b < d.len() implies lex_lt(#[trigger] d[a].0, #[trigger] d[b].0) by {
                assert(d[a] == s[a] && d[b] == s[b]);
            }
        }
        lemma_count_at(d, i);
    }
}

proof fn lemma_count_absent(s: Seq<(Seq<u8>, u64)>, k: Seq<u8>)
    requires
        forall|i: int| 0 <= i < s.len() ==> #[trigger] s[i].0 != k,
    ensures
        count_of(s, k) == 0,
    decreases s.len(),
{
    if s.len() > 0 {
        let d = s.drop_last();
        assert(s.last() == s[s.len() - 1]);
        assert forall|i: int| 0 <= i < d.len() implies #[trigger] d[i].0 != k by {
            assert(d[i] == s[i]);
        }
        lemma_count_absent(d, k);
    }
}

impl PartitionIndex {
    /// Well-formed: keys strictly increase.
    pub open spec fn wf(&self) -> bool {
        sorted_keys(entries_view(self.entries@))
    }

    /// Counter of partition `k`.
    pub open spec fn count(&self, k: Seq<u8>) -> u64 {
        count_of(entries_view(self.entries@), k)
    }

    /// An index with no partition.
    pub fn new() -> (r: PartitionIndex)
        ensures
            r.wf(),
            forall|k: Seq<u8>| #[trigger] r.count(k) == 0,
    {
        PartitionIndex { entries: Vec::new() }
    }

    /// Counter of partition `pk`.
    pub fn get(&self, pk: &Vec<u8>) -> (r: u64)
        requires
            self.wf(),
        ensures
            r == self.count(pk@),
    {
        let ghost s = entries_view(self.entries@);
        let mut i: usize = 0;
        while i < self.entries.len()
            invariant
                i <= self.entries@.len(),
                s == entries_view(self.entries@),
                sorted_keys(s),
                forall|j: int| 0 <= j < i ==> (#[trigger] s[j]).0 != pk@,
            decreases self.entries@.len() - i,
        {
            if bytes_eq(&self.entries[i].0, pk) {
                proof {
                    lemma_count_at(s, i as int);
                }
                return self.entries[i].1;
            }
            i = i + 1;
        }
        proof {
            lemma_count_absent(s, pk@);
        }
        0
    }

    /// Raises (`up`) or lowers the counter of partition `pk` by one,
    /// saturating at the bounds of `u64`.
    pub fn adjust(&mut self, pk: &Vec<u8>, up: bool)
        requires
            old(self).wf(),
        ensures
            final(self).wf(),
            forall|k: Seq<u8>|
                #[trigger] final(self).count(k) == if k != pk@ {
                    old(self).count(k)
                } else if up {
                    if old(self).count(k) == u64::MAX {
                        u64::MAX
                    } else {
                        (old(self).count(k) + 1) as u64
                    }
                } else {
                    if old(self).count(k) == 0 {
                        0
                    } else {
                        (old(self).count(k) - 1) as u64
                    }
                },
    {
        let ghost s = entries_view(self.entries@);
        let mut p: usize = 0;
        while p < self.entries.len() && bytes_lt(&self.entries[p].0, pk)
            invariant
                p <= self.entries@.len(),
                s == entries_view(self.entries@),
                forall|j: int| 0 <= j < p ==> lex_lt(#[trigger] s[j].0, pk@),
            decreases self.entries@.len() - p,
        {
            p = p + 1;
        }
        let found = p < self.entries.len() && bytes_eq(&self.entries[p].0, pk);
        if found {
            let (k, c) = self.entries.remove(p);
            let c2: u64 = if up {
                if c == u64::MAX { c } else { c + 1 }
            } else {
                if c == 0 { c } else { c - 1 }
            };
            self.entries.insert(p, (k, c2));
            proof {
                let s2 = entries_view(self.entries@);
                assert(s2 =~= s.update(p as int, (pk@, c2)));
                lemma_count_at(s, p as int);
                lemma_count_at(s2, p as int);
                assert forall|k: Seq<u8>| #[trigger] self.count(k) == if k != pk@ {
                    old(self).count(k)
                } else {
                    c2
                } by {
                    if k != pk@ {
                        if exists|i: int| 0 <= i < s.len() && #[trigger] s[i].0 == k {
                            let i = choose|i: int| 0 <= i < s.len() && #[trigger] s[i].0 == k;
                            lemma_count_at(s, i);
                            lemma_count_at(s2, i);
                        } else {
                            lemma_count_absent(s, k);
                            assert(!exists|i: int| 0 <= i < s2.len() && #[trigger] s2[i].0 == k) by {
                                if exists|i: int| 0 <= i < s2.len() && #[trigger] s2[i].0 == k {
                                    let i = choose|i: int| 0 <= i < s2.len() && #[trigger] s2[i].0 == k;
                                    assert(s[i].0 == k);
                                }
                            }
                            lemma_count_absent(s2, k);
                        }
                    }
                }
            }
        } else if up {
            let key = copy_bytes(pk);
            self.entries.insert(p, (key, 1));
            proof {
                let s2 = entries_view(self.entries@);
                assert(s2 =~= s.insert(p as int, (pk@, 1u64)));
                if p < s.len() {
                    lemma_lex_total(pk@, s[p as int].0);
                }
                assert forall|i: int, j: int| 0 <= i < j < s2.len() implies lex_lt(#[trigger] s2[i].0, #[trigger] s2[j].0) by {
                    if j == p {
                    } else if i == p {
                        if j > p + 1 {
                            lemma_lex_transitive(pk@, s[p as int].0, s[j - 1].0);
                        }
                    } else {
                        let ii = if i < p { i } else { i - 1 };
                        let jj = if j < p { j } else { j - 1 };
                        assert(s2[i] == s[ii] && s2[j] == s[jj]);
                    }
                }
                lemma_count_at(s2, p as int);
                assert(!exists|i: int| 0 <= i < s.len() && #[trigger] s[i].0 == pk@) by {
                    if exists|i: int| 0 <= i < s.len() && #[trigger] s[i].0 == pk@ {
                        let i = choose|i: int| 0 <= i < s.len() && #[trigger] s[i].0 == pk@;
                        if i < p {
                            lemma_lex_irreflexive(pk@);
                        } else if i > p {
                            lemma_lex_transitive(pk@, s[p as int].0, s[i].0);
                            lemma_lex_irreflexive(pk@);
                        }
                    }
                }
                lemma_count_absent(s, pk@);
                assert forall|k: Seq<u8>| #[trigger] self.count(k) == if k != pk@ {
                    old(self).count(k)
                } else {
                    1u64
                } by {
                    if k != pk@ {
                        if exists|i: int| 0 <= i < s.len() && #[trigger] s[i].0 == k {
                            let i = choose|i: int| 0 <= i < s.len() && #[trigger] s[i].0 == k;
                            lemma_count_at(s, i);
                            let i2 = if i < p { i } else { i + 1 };
                            assert(s2[i2] == s[i]);
                            lemma_count_at(s2, i2);
                        } else {
                            lemma_count_absent(s, k);
                            assert(!exists|i: int| 0 <= i < s2.len() && #[trigger] s2[i].0 == k) by {
                                if exists|i: int| 0 <= i < s2.len() && #[trigger] s2[i].0 == k {
                                    let i = choose|i: int| 0 <= i < s2.len() && #[trigger] s2[i].0 == k;
                                    let i1 = if i < p { i } else { i - 1 };
                                    assert(s[i1].0 == k);
                                }
                            }
                            lemma_count_absent(s2, k);
                        }
                    }
                }
            }
        } else {
            proof {
                assert(!exists|i: int| 0 <= i < s.len() && #[trigger] s[i].0 == pk@) by {
                    if exists|i: int| 0 <= i < s.len() && #[trigger] s[i].0 == pk@ {
                        let i = choose|i: int| 0 <= i < s.len() && #[trigger] s[i].0 == pk@;
                        if i < p {
                            lemma_lex_irreflexive(pk@);
                        } else {
                            lemma_lex_total(pk@, s[p as int].0);
                            if i > p {
                                lemma_lex_transitive(pk@, s[p as int].0, s[i].0);
                                lemma_lex_irreflexive(pk@);
                            }
                        }
                    }
                }
                lemma_count_absent(s, pk@);
            }
        }
    }

    /// Enumerates the partitions that `q` selects, in its direction, at
    /// most `limit` of them.
    pub fn read_index(&self, q: &IndexQuery, limit: usize) -> (r: IndexPage)
        ensures
            ({
                let sel = select(in_order(entries_view(self.entries@), q.reverse), q@);
                &&& entries_view(r.entries@) == first_n(sel, limit as nat)
                &&& r.more == (sel.len() > limit)
                &&& opt_view(r.next_start) == if sel.len() > limit && limit > 0 {
                    Some(sel[limit - 1].0)
                } else {
                    None
                }
            }),
    {
        let ghost s = entries_view(self.entries@);
        let ghost o = in_order(s, q.reverse);
        let n = self.entries.len();
        let mut out: Vec<(Vec<u8>, u64)> = Vec::new();
        let mut found: usize = 0;
        let mut j: usize = 0;
        while j < n
            invariant
                n == self.entries@.len(),
                s == entries_view(self.entries@),
                o == in_order(s, q.reverse),
                o.len() == n,
                j <= n,
                found == select(o.subrange(0, j as int), q@).len(),
                found <= j,
                entries_view(out@) == first_n(select(o.subrange(0, j as int), q@), limit as nat),
            decreases n - j,
        {
            let idx = if q.reverse { n - 1 - j } else { j };
            proof {
                assert(o[j as int] == s[idx as int]);
                assert(o.subrange(0, j + 1).drop_last() =~= o.subrange(0, j as int));
                assert(o.subrange(0, j + 1).last() == o[j as int]);
            }
            let m = self.matches_at(idx, q);
            if m {
                if out.len() < limit {
                    let key = copy_bytes(&self.entries[idx].0);
                    let ghost before = out@;
                    out.push((key, self.entries[idx].1));
                    proof {
                        assert(entries_view(out@) =~= entries_view(before).push(o[j as int]));
                    }
                }
                found = found + 1;
            }
            proof {
                let sel0 = select(o.subrange(0, j as int), q@);
                let sel1 = select(o.subrange(0, j + 1), q@);
                if m && sel0.len() >= limit {
                    assert(sel1.take(limit as int) =~= first_n(sel0, limit as nat));
                }
                if m && sel0.len() < limit {
                    assert(first_n(sel1, limit as nat) =~= sel1);
                }
            }
            j = j + 1;
        }
        proof {
            assert(o.subrange(0, n as int) =~= o);
        }
        let more = found > limit;
        let next_start = if more && limit > 0 {
            proof {
                let sel = select(o, q@);
                assert(entries_view(out@) == sel.take(limit as int));
                assert(entries_view(out@)[limit - 1] == sel[limit - 1]);
            }
            Some(copy_bytes(&out[limit - 1].0))
        } else {
            None
        };
        IndexPage { entries: out, more, next_start }
    }

    fn matches_at(&self, i: usize, q: &IndexQuery) -> (r: bool)
        requires
            i < self.entries@.len(),
        ensures
            r == matches(entries_view(self.entries@)[i as int], q@),
    {
        let e = &self.entries[i];
        if e.1 == 0 || !has_prefix(&e.0, &q.prefix) {
            return false;
        }
        let start_ok = match &q.start {
            Some(a) => if q.reverse { bytes_lt(&e.0, a) } else { bytes_lt(a, &e.0) },
            None => true,
        };
        let end_ok = match &q.end {
            Some(b) => if q.reverse { bytes_lt(b, &e.0) } else { bytes_lt(&e.0, b) },
            None => true,
        };
        start_ok && end_ok
    }
}

proof fn lemma_select_matches(s: Seq<(Seq<u8>, u64)>, q: QueryView)
    ensures
        forall|i: int| 0 <= i < select(s, q).len() ==> matches(#[trigger] select(s, q)[i], q),
    decreases s.len(),
{
    if s.len() > 0 {
        lemma_select_matches(s.drop_last(), q);
        let r = select(s.drop_last(), q);
        if matches(s.last(), q) {
            assert forall|i: int| 0 <= i < r.push(s.last()).len() implies matches(#[trigger] r.push(s.last())[i], q) by {
                if i < r.len() {
                    assert(r.push(s.last())[i] == r[i]);
                }
            }
        }
    }
}

proof fn lemma_select_below(s: Seq<(Seq<u8>, u64)>, q: QueryView, b: Seq<u8>)
    requires
        forall|i: int| 0 <= i < s.len() ==> lex_lt(#[trigger] s[i].0, b),
    ensures
        forall|i: int| 0 <= i < select(s, q).len() ==> lex_lt(#[trigger] select(s, q)[i].0, b),
    decreases s.len(),
{
    if s.len() > 0 {
        let d = s.drop_last();
        assert forall|i: int| 0 <= i < d.len() implies lex_lt(#[trigger] d[i].0, b) by {
            assert(d[i] == s[i]);
        }
        lemma_select_below(d, q, b);
        let r = select(d, q);
        assert(s.last() == s[s.len() - 1]);
        if matches(s.last(), q) {
            assert forall|i: int| 0 <= i < r.push(s.last()).len() implies lex_lt(#[trigger] r.push(s.last())[i].0, b) by {
                if i < r.len() {
                    assert(r.push(s.last())[i] == r[i]);
                }
            }
        }
    }
}

proof fn lemma_select_none(s: Seq<(Seq<u8>, u64)>, q: QueryView)
    requires
        forall|i: int| 0 <= i < s.len() ==> !matches(#[trigger] s[i], q),
    ensures
        select(s, q).len() == 0,
    decreases s.len(),
{
    if s.len() > 0 {
        let d = s.drop_last();
        assert forall|i: int| 0 <= i < d.len() implies !matches(#[trigger] d[i], q) by {
            assert(d[i] == s[i]);
        }
        assert(s.last() == s[s.len() - 1]);
        lemma_select_none(d, q);
    }
}

proof fn lemma_sorted_prefix(s: Seq<(Seq<u8>, u64)>)
    requires
        sorted_keys(s),
        s.len() > 0,
    ensures
        sorted_keys(s.drop_last()),
{
    let d = s.drop_last();
    assert forall|a: int, b: int| 0 <= a < b < d.len() implies lex_lt(#[trigger] d[a].0, #[trigger] d[b].0) by {
        assert(d[a] == s[a] && d[b] == s[b]);
    }
}

/// On a sorted index, the listed entries are sorted and all satisfy the
/// query, in particular its prefix.
pub proof fn lemma_select_sorted(s: Seq<(Seq<u8>, u64)>, q: QueryView)
    requires
        sorted_keys(s),
    ensures
        sorted_keys(select(s, q)),
        forall|i: int| 0 <= i < select(s, q).len() ==> matches(#[trigger] select(s, q)[i], q),
    decreases s.len(),
{
    lemma_select_matches(s, q);
    if s.len() > 0 {
        let d = s.drop_last();
        lemma_sorted_prefix(s);
        lemma_select_sorted(d, q);
        let r = select(d, q);
        let x = s.last();
        assert forall|i: int| 0 <= i < d.len() implies lex_lt(#[trigger] d[i].0, x.0) by {
            assert(d[i] == s[i]);
            assert(lex_lt(s[i].0, s[s.len() - 1].0));
        }
        lemma_select_below(d, q, x.0);
        if matches(x, q) {
            let t = r.push(x);
            assert forall|a: int, b: int| 0 <= a < b < t.len() implies lex_lt(#[trigger] t[a].0, #[trigger] t[b].0) by {
                assert(t[a] == r[a]);
                if b < r.len() {
                    assert(t[b] == r[b]);
                }
            }
        }
    }
}

proof fn lemma_paging_at(s: Seq<(Seq<u8>, u64)>, q: QueryView, m: int)
    requires
        sorted_keys(s),
        !q.reverse,
        0 <= m < select(s, q).len(),
    ensures
        select(s, QueryView { start: Some(select(s, q)[m].0), ..q }) == select(s, q).skip(m + 1),
    decreases s.len(),
{
    let sel = select(s, q);
    let k = sel[m].0;
    let q2 = QueryView { start: Some(k), ..q };
    let d = s.drop_last();
    let x = s.last();
    let r = select(d, q);
    lemma_sorted_prefix(s);
    assert forall|i: int| 0 <= i < d.len() implies lex_lt(#[trigger] d[i].0, x.0) by {
        assert(d[i] == s[i]);
        assert(lex_lt(s[i].0, s[s.len() - 1].0));
    }
    if m == r.len() {
        assert(matches(x, q));
        assert(k == x.0);
        assert forall|i: int| 0 <= i < s.len() implies !matches(#[trigger] s[i], q2) by {
            lemma_lex_irreflexive(k);
            if i < s.len() - 1 {
                assert(d[i] == s[i]);
                if lex_lt(k, s[i].0) {
                    lemma_lex_transitive(k, s[i].0, k);
                }
            }
        }
        lemma_select_none(s, q2);
        assert(sel.skip(m + 1) =~= Seq::<(Seq<u8>, u64)>::empty());
    } else {
        assert(sel[m] == r[m]);
        lemma_paging_at(d, q, m);
        lemma_select_below(d, q, x.0);
        lemma_select_matches(d, q);
        assert(matches(r[m], q));
        assert(lex_lt(k, x.0));
        if let Some(a) = q.start {
            if matches(x, q2) {
                lemma_lex_transitive(a, k, x.0);
            }
        }
        assert(matches(x, q) == matches(x, q2));
        if matches(x, q) {
            assert(sel.skip(m + 1) =~= r.skip(m + 1).push(x));
        } else {
            assert(sel.skip(m + 1) =~= r.skip(m + 1));
        }
    }
}

/// Paging over a sorted index: the next page, started at the last key of
/// a page, lists exactly the entries after that page, with no key repeated
/// and none skipped (none at all when the page was the last one).
pub proof fn lemma_paging(s: Seq<(Seq<u8>, u64)>, q: QueryView, limit: nat)
    requires
        sorted_keys(s),
        !q.reverse,
        0 < limit,
        0 < select(s, q).len(),
    ensures
        ({
            let sel = select(s, q);
            let page = first_n(sel, limit);
            let next = QueryView { start: Some(page[page.len() - 1].0), ..q };
            &&& page + select(s, next) == sel
            &&& select(s, next) == sel.skip(page.len() as int)
        }),
{
    let sel = select(s, q);
    let page = first_n(sel, limit);
    let m = page.len() as int;
    lemma_paging_at(s, q, m - 1);
    assert(page[m - 1] == sel[m - 1]);
    assert(sel.take(m) + sel.skip(m) =~= sel);
    assert(page =~= sel.take(m));
}

} // verus!
