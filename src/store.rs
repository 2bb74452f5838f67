use vstd::prelude::*;

use crate::bytes::{bytes_eq, copy_bytes};
use crate::causal::{dominates, CausalContext};
use crate::poll::{poll_decide, PollDecision};
use crate::index::{IndexPage, IndexQuery, PartitionIndex, entries_view, first_n, in_order, opt_view, select};
use crate::item::{lemma_dominating_put_single, VersionView, value_view, put_model, write_stamp, Item, ItemVersion, ItemView, StoreError, versions_view};

verus! {

/// An item together with the keys that identify it.
#[derive(Debug)]
pub struct StoredItem {
    pub partition_key: Vec<u8>,
    pub sort_key: Vec<u8>,
    pub item: Item,
}

/// The model of an item that was never written.
pub open spec fn empty_item() -> ItemView {
    ItemView { versions: Seq::empty(), context: Map::new(|n: u64| true, |n: u64| 0u64) }
}

/// An item has a live version: a value that is not a deletion.
pub open spec fn is_live(v: ItemView) -> bool {
    exists|i: int| 0 <= i < v.versions.len() && (#[trigger] v.versions[i]).value is Some
}

pub open spec fn keys_match(e: StoredItem, pk: Seq<u8>, sk: Seq<u8>) -> bool {
    e.partition_key@ == pk && e.sort_key@ == sk
}

/// The item stored under (`pk`, `sk`) in `s`, or the empty item.
pub open spec fn lookup(s: Seq<StoredItem>, pk: Seq<u8>, sk: Seq<u8>) -> ItemView
    decreases s.len(),
{
    if s.len() == 0 {
        empty_item()
    } else if keys_match(s.last(), pk, sk) {
        s.last().item@
    } else {
        lookup(s.drop_last(), pk, sk)
    }
}

/// No two stored items share their keys.
pub open spec fn keys_unique(s: Seq<StoredItem>) -> bool {
    forall|i: int, j: int|
        0 <= i < j < s.len() ==> !keys_match(#[trigger] s[i], (#[trigger] s[j]).partition_key@, s[j].sort_key@)
}

proof fn lemma_lookup_at(s: Seq<StoredItem>, i: int)
    requires
        keys_unique(s),
        0 <= i < s.len(),
    ensures
        lookup(s, s[i].partition_key@, s[i].sort_key@) == s[i].item@,
    decreases s.len(),
{
    if i < s.len() - 1 {
        let d = s.drop_last();
        assert(!keys_match(s[i], s[s.len() - 1].partition_key@, s[s.len() - 1].sort_key@));
        assert(d[i] == s[i]);
        assert forall|a: int, b: int| 0 <= a < b < d.len() implies !keys_match(#[trigger] d[a], (#[trigger] d[b]).partition_key@, d[b].sort_key@) by {
            assert(d[a] == s[a] && d[b] == s[b]);
        }
        lemma_lookup_at(d, i);
    }
}

proof fn lemma_lookup_absent(s: Seq<StoredItem>, pk: Seq<u8>, sk: Seq<u8>)
    requires
        forall|i: int| 0 <= i < s.len() ==> !keys_match(#[trigger] s[i], pk, sk),
    ensures
        lookup(s, pk, sk) == empty_item(),
    decreases s.len(),
{
    if s.len() > 0 {
        let d = s.drop_last();
        assert(s.last() == s[s.len() - 1]);
        assert forall|i: int| 0 <= i < d.len() implies !keys_match(#[trigger] d[i], pk, sk) by {
            assert(d[i] == s[i]);
        }
        lemma_lookup_absent(d, pk, sk);
    }
}

/// One write of a batch: the item's keys, the value (`None`: a deletion)
/// and the token the client observed.
#[derive(Debug)]
pub struct InsertOp {
    pub partition_key: Vec<u8>,
    pub sort_key: Vec<u8>,
    pub value: Option<Vec<u8>>,
    pub token: CausalContext,
}

/// `c` moved by one, up or down, saturating at the bounds of `u64`.
pub open spec fn step_counter(c: u64, up: bool) -> u64 {
    if up {
        if c == u64::MAX {
            c
        } else {
            (c + 1) as u64
        }
    } else {
        if c == 0 {
            c
        } else {
            (c - 1) as u64
        }
    }
}

/// `after` is `before` once `before.node` has written `value` (`None`:
/// deleted) to item (`pk`, `sk`) on behalf of a client that observed
/// `token`, with result `r`. Other items never change. On success the item
/// becomes `put_model` of what it was, the partition's live counter follows
/// the item's passage between live and not live, and the partition's change
/// counter goes up by one. On failure the store is unchanged.
pub open spec fn inserted(
    before: Store,
    after: Store,
    pk: Seq<u8>,
    sk: Seq<u8>,
    value: Option<Seq<u8>>,
    token: CausalContext,
    r: Result<CausalContext, StoreError>,
) -> bool {
    &&& after.node == before.node
    &&& (r is Err <==> write_stamp(before.item(pk, sk).context, token@, before.node) > u64::MAX)
    &&& forall|p: Seq<u8>, s: Seq<u8>|
        (p != pk || s != sk) ==> #[trigger] after.item(p, s) == before.item(p, s)
    &&& match r {
        Ok(t) => {
            &&& t.wf()
            &&& dominates(t, token)
            &&& after.item(pk, sk) == put_model(before.item(pk, sk), before.node, token@, value)
            &&& t@ == after.item(pk, sk).context
            &&& forall|k: Seq<u8>|
                #[trigger] after.index.count(k) == if k != pk {
                    before.index.count(k)
                } else if !is_live(before.item(pk, sk)) && is_live(after.item(pk, sk)) {
                    step_counter(before.index.count(k), true)
                } else if is_live(before.item(pk, sk)) && !is_live(after.item(pk, sk)) {
                    step_counter(before.index.count(k), false)
                } else {
                    before.index.count(k)
                }
            &&& forall|k: Seq<u8>|
                #[trigger] after.changes.count(k) == if k != pk {
                    before.changes.count(k)
                } else {
                    step_counter(before.changes.count(k), true)
                }
        },
        Err(e) => {
            &&& e == StoreError::Internal
            &&& after.index == before.index
            &&& after.changes == before.changes
            &&& after.item(pk, sk) == before.item(pk, sk)
        },
    }
}

/// `after` is `before` once write `op` was applied, with result `r`.
pub open spec fn step_applied(before: Store, after: Store, op: InsertOp, r: Result<CausalContext, StoreError>) -> bool {
    inserted(before, after, op.partition_key@, op.sort_key@, value_view(op.value), op.token, r)
}

/// `after` is `before` once the writes of `ops` were applied one after the
/// other, each to the store the previous ones left, with results `rs`.
pub open spec fn batch_applied(
    before: Store,
    after: Store,
    ops: Seq<InsertOp>,
    rs: Seq<Result<CausalContext, StoreError>>,
) -> bool {
    exists|st: Seq<Store>|
        {
            &&& st.len() == ops.len() + 1
            &&& st[0] == before
            &&& st[ops.len() as int] == after
            &&& forall|i: int| 0 <= i < ops.len() ==> step_applied(st[i], st[i + 1], #[trigger] ops[i], rs[i])
        }
}

/// A successful write whose token has seen every version of the item
/// leaves exactly one version: the value written.
pub proof fn lemma_dominating_insert_single(
    before: Store,
    after: Store,
    pk: Seq<u8>,
    sk: Seq<u8>,
    value: Seq<u8>,
    token: CausalContext,
    r: Result<CausalContext, StoreError>,
)
    requires
        inserted(before, after, pk, sk, Some(value), token, r),
        r is Ok,
        forall|i: int|
            0 <= i < before.item(pk, sk).versions.len() ==> #[trigger] before.item(pk, sk).versions[i].timestamp
                <= token@[before.item(pk, sk).versions[i].node],
    ensures
        after.item(pk, sk).versions == seq![
            VersionView {
                node: before.node,
                timestamp: write_stamp(before.item(pk, sk).context, token@, before.node) as u64,
                value: Some(value),
            },
        ],
{
    lemma_dominating_put_single(before.item(pk, sk), before.node, token@, value);
}

/// The key-value store of one node: items addressed by partition and sort
/// key, and the per-partition index of live items.
#[derive(Debug)]
pub struct Store {
    /// Writer identity of this node, stamped on the versions it writes.
    pub node: u64,
    pub items: Vec<StoredItem>,
    pub index: PartitionIndex,
    /// Per partition, the number of successful writes to its items; a
    /// range poll compares it with the count its caller last saw.
    pub changes: PartitionIndex,
}

impl Item {
    /// Whether some version holds a value.
    pub fn is_live(&self) -> (r: bool)
        ensures
            r == is_live(self@),
    {
        let mut i: usize = 0;
        while i < self.versions.len()
            invariant
                i <= self.versions@.len(),
                forall|j: int| 0 <= j < i ==> (#[trigger] self.versions@[j]).value is None,
            decreases self.versions@.len() - i,
        {
            if self.versions[i].value.is_some() {
                assert(self@.versions[i as int].value is Some);
                return true;
            }
            i = i + 1;
        }
        assert forall|j: int| 0 <= j < self@.versions.len() implies !((#[trigger] self@.versions[j]).value is Some) by {
            assert(self.versions@[j].value is None);
        }
        false
    }
}

impl Store {
    /// Well-formed: keys are unique and the index is sorted.
    pub open spec fn wf(&self) -> bool {
        &&& keys_unique(self.items@)
        &&& self.index.wf()
        &&& self.changes.wf()
        &&& forall|i: int| 0 <= i < self.items@.len() ==> (#[trigger] self.items@[i]).item.wf()
    }

    /// The item stored under (`pk`, `sk`).
    pub open spec fn item(&self, pk: Seq<u8>, sk: Seq<u8>) -> ItemView {
        lookup(self.items@, pk, sk)
    }

    /// An empty store for the node `node`.
    pub fn new(node: u64) -> (r: Store)
        ensures
            r.wf(),
            r.node == node,
            forall|pk: Seq<u8>, sk: Seq<u8>| #[trigger] r.item(pk, sk) == empty_item(),
            forall|k: Seq<u8>| #[trigger] r.index.count(k) == 0,
            forall|k: Seq<u8>| #[trigger] r.changes.count(k) == 0,
    {
        Store { node, items: Vec::new(), index: PartitionIndex::new(), changes: PartitionIndex::new() }
    }

    fn find(&self, pk: &Vec<u8>, sk: &Vec<u8>) -> (r: Option<usize>)
        ensures
            match r {
                Some(i) => i < self.items@.len() && keys_match(self.items@[i as int], pk@, sk@),
                None => forall|i: int| 0 <= i < self.items@.len() ==> !keys_match(#[trigger] self.items@[i], pk@, sk@),
            },
    {
        let mut i: usize = 0;
        while i < self.items.len()
            invariant
                i <= self.items@.len(),
                forall|j: int| 0 <= j < i ==> !keys_match(#[trigger] self.items@[j], pk@, sk@),
            decreases self.items@.len() - i,
        {
            if bytes_eq(&self.items[i].partition_key, pk) && bytes_eq(&self.items[i].sort_key, sk) {
                return Some(i);
            }
            i = i + 1;
        }
        None
    }

    /// The versions of the item (`pk`, `sk`) and a token of everything it
    /// has seen. An item never written reads as no version and an empty token.
    pub fn read_item(&self, pk: &Vec<u8>, sk: &Vec<u8>) -> (r: (Vec<ItemVersion>, CausalContext))
        requires
            self.wf(),
        ensures
            r.1.wf(),
            versions_view(r.0@) == self.item(pk@, sk@).versions,
            r.1@ == self.item(pk@, sk@).context,
    {
        match self.find(pk, sk) {
            Some(i) => {
                proof {
                    lemma_lookup_at(self.items@, i as int);
                }
                self.items[i].item.read()
            },
            None => {
                proof {
                    lemma_lookup_absent(self.items@, pk@, sk@);
                }
                let e = Item::new();
                let r = e.read();
                assert(e@.versions =~= empty_item().versions);
                assert(e@.context =~= empty_item().context);
                assert(e@ == empty_item());
                r
            },
        }
    }

    /// Writes `value` (`None`: deletes) to the item (`pk`, `sk`) on behalf of
    /// a client that observed `token`. Other items are untouched; the
    /// partition's counter goes up when the item becomes live and down when
    /// it stops being live.
    pub fn insert_item(
        &mut self,
        pk: &Vec<u8>,
        sk: &Vec<u8>,
        value: Option<Vec<u8>>,
        token: &CausalContext,
    ) -> (r: Result<CausalContext, StoreError>)
        requires
            old(self).wf(),
        ensures
            final(self).wf(),
            inserted(*old(self), *final(self), pk@, sk@, value_view(value), *token, r),
    {
        let ghost s = self.items@;
        match self.find(pk, sk) {
            Some(i) => {
                proof {
                    lemma_lookup_at(s, i as int);
                }
                let mut entry = self.items.remove(i);
                let was_live = entry.item.is_live();
                let res = entry.item.put(self.node, value, token);
                let now_live = entry.item.is_live();
                let ghost e = entry;
                self.items.insert(i, entry);
                proof {
                    let s2 = self.items@;
                    assert(s2 =~= s.update(i as int, e));
                    assert forall|a: int, b: int| 0 <= a < b < s2.len() implies !keys_match(#[trigger] s2[a], (#[trigger] s2[b]).partition_key@, s2[b].sort_key@) by {
                        if a != i as int {
                            assert(s2[a] == s[a]);
                        }
                        if b != i as int {
                            assert(s2[b] == s[b]);
                        }
                    }
                    assert forall|j: int| 0 <= j < s2.len() implies (#[trigger] s2[j]).item.wf() by {
                        if j != i as int {
                            assert(s2[j] == s[j]);
                        }
                    }
                    lemma_lookup_at(s2, i as int);
                    assert forall|p: Seq<u8>, q: Seq<u8>| (p != pk@ || q != sk@) implies #[trigger] lookup(s2, p, q) == lookup(s, p, q) by {
                        if exists|j: int| 0 <= j < s.len() && keys_match(#[trigger] s[j], p, q) {
                            let j = choose|j: int| 0 <= j < s.len() && keys_match(#[trigger] s[j], p, q);
                            assert(s2[j] == s[j]);
                            lemma_lookup_at(s, j);
                            lemma_lookup_at(s2, j);
                        } else {
                            assert forall|j: int| 0 <= j < s2.len() implies !keys_match(#[trigger] s2[j], p, q) by {
                                if j != i as int {
                                    assert(s2[j] == s[j]);
                                }
                            }
                            lemma_lookup_absent(s, p, q);
                            lemma_lookup_absent(s2, p, q);
                        }
                    }
                }
                if res.is_ok() {
                    if !was_live && now_live {
                        self.index.adjust(pk, true);
                    } else if was_live && !now_live {
                        self.index.adjust(pk, false);
                    }
                    self.changes.adjust(pk, true);
                }
                res
            },
            None => {
                proof {
                    lemma_lookup_absent(s, pk@, sk@);
                }
                let mut item = Item::new();
                assert(item@.versions =~= empty_item().versions);
                assert(item@.context =~= empty_item().context);
                assert(item@ == empty_item());
                let res = item.put(self.node, value, token);
                if res.is_ok() {
                    let now_live = item.is_live();
                    let entry = StoredItem { partition_key: copy_bytes(pk), sort_key: copy_bytes(sk), item };
                    self.items.push(entry);
                    proof {
                        let s2 = self.items@;
                        assert(s2.drop_last() =~= s);
                        assert forall|a: int, b: int| 0 <= a < b < s2.len() implies !keys_match(#[trigger] s2[a], (#[trigger] s2[b]).partition_key@, s2[b].sort_key@) by {
                            assert(s2[a] == s[a]);
                            if b < s.len() {
                                assert(s2[b] == s[b]);
                            }
                        }
                        assert forall|j: int| 0 <= j < s2.len() implies (#[trigger] s2[j]).item.wf() by {
                            if j < s.len() {
                                assert(s2[j] == s[j]);
                            }
                        }
                    }
                    if now_live {
                        self.index.adjust(pk, true);
                    }
                    self.changes.adjust(pk, true);
                }
                res
            },
        }
    }

    /// Lists the partitions with live items that `q` selects, at most
    /// `limit` of them.
    pub fn read_index(&self, q: &IndexQuery, limit: usize) -> (r: IndexPage)
        ensures
            ({
                let sel = select(in_order(entries_view(self.index.entries@), q.reverse), q@);
                &&& entries_view(r.entries@) == first_n(sel, limit as nat)
                &&& r.more == (sel.len() > limit)
                &&& opt_view(r.next_start) == if sel.len() > limit && limit > 0 {
                    Some(sel[limit - 1].0)
                } else {
                    None
                }
            }),
    {
        self.index.read_index(q, limit)
    }

    /// One step of a poll on the item (`pk`, `sk`) by a client that observed
    /// `since`: the decision, and the item's current versions and token.
    pub fn poll_item(
        &self,
        pk: &Vec<u8>,
        sk: &Vec<u8>,
        since: &CausalContext,
        now: u64,
        deadline: u64,
    ) -> (r: (PollDecision, Vec<ItemVersion>, CausalContext))
        requires
            self.wf(),
        ensures
            versions_view(r.1@) == self.item(pk@, sk@).versions,
            r.2@ == self.item(pk@, sk@).context,
            r.0 == PollDecision::Changed <==> dominates(r.2, *since),
            r.0 == PollDecision::Unchanged <==> !dominates(r.2, *since) && now >= deadline,
            r.0 == PollDecision::Wait <==> !dominates(r.2, *since) && now < deadline,
    {
        let (versions, token) = self.read_item(pk, sk);
        let d = poll_decide(&token, since, now, deadline);
        (d, versions, token)
    }

    /// One step of a poll on partition `pk` by a client that last saw its
    /// change count at `since`: the decision, and the current count, which
    /// is the token for the next poll.
    pub fn poll_range(&self, pk: &Vec<u8>, since: u64, now: u64, deadline: u64) -> (r: (
        PollDecision,
        u64,
    ))
        requires
            self.wf(),
        ensures
            r.1 == self.changes.count(pk@),
            r.0 == PollDecision::Changed <==> r.1 > since,
            r.0 == PollDecision::Unchanged <==> r.1 <= since && now >= deadline,
            r.0 == PollDecision::Wait <==> r.1 <= since && now < deadline,
    {
        let current = self.changes.get(pk);
        let d = if current > since {
            PollDecision::Changed
        } else if now >= deadline {
            PollDecision::Unchanged
        } else {
            PollDecision::Wait
        };
        (d, current)
    }

    /// Reads each of `keys` (partition key, sort key), in order.
    pub fn batch_read(&self, keys: &Vec<(Vec<u8>, Vec<u8>)>) -> (r: Vec<(Vec<ItemVersion>, CausalContext)>)
        requires
            self.wf(),
        ensures
            r@.len() == keys@.len(),
            forall|i: int|
                0 <= i < keys@.len() ==> versions_view((#[trigger] r@[i]).0@) == self.item(
                    keys@[i].0@,
                    keys@[i].1@,
                ).versions && r@[i].1@ == self.item(keys@[i].0@, keys@[i].1@).context,
    {
        let mut out: Vec<(Vec<ItemVersion>, CausalContext)> = Vec::new();
        let mut i: usize = 0;
        while i < keys.len()
            invariant
                self.wf(),
                i <= keys@.len(),
                out@.len() == i,
                forall|j: int|
                    0 <= j < i ==> versions_view((#[trigger] out@[j]).0@) == self.item(
                        keys@[j].0@,
                        keys@[j].1@,
                    ).versions && out@[j].1@ == self.item(keys@[j].0@, keys@[j].1@).context,
            decreases keys@.len() - i,
        {
            let res = self.read_item(&keys[i].0, &keys[i].1);
            out.push(res);
            i = i + 1;
        }
        out
    }

    /// Applies each write of `ops` in order, each as [`Store::insert_item`]
    /// would; one failing write does not stop the others. Returns one result
    /// per write. Items that no write names are untouched.
    pub fn batch_insert(&mut self, ops: Vec<InsertOp>) -> (r: Vec<Result<CausalContext, StoreError>>)
        requires
            old(self).wf(),
        ensures
            final(self).wf(),
            r@.len() == ops@.len(),
            batch_applied(*old(self), *final(self), ops@, r@),
            forall|p: Seq<u8>, s: Seq<u8>|
                (forall|i: int| 0 <= i < ops@.len() ==> ((#[trigger] ops@[i]).partition_key@ != p || ops@[i].sort_key@ != s))
                    ==> #[trigger] final(self).item(p, s) == old(self).item(p, s),
    {
        let ghost ops0 = ops@;
        let mut ops = ops;
        let mut applied: Vec<Result<CausalContext, StoreError>> = Vec::new();
        let mut remaining: Vec<InsertOp> = Vec::new();
        // Reverse first so that popping yields the writes in order.
        while ops.len() > 0
            invariant
                remaining@.len() + ops@.len() == ops0.len(),
                forall|j: int| 0 <= j < ops@.len() ==> #[trigger] ops@[j] == ops0[j],
                forall|j: int| 0 <= j < remaining@.len() ==> #[trigger] remaining@[j] == ops0[ops0.len() - 1 - j],
            decreases ops@.len(),
        {
            let op = ops.pop().unwrap();
            remaining.push(op);
        }
        let ghost n = ops0.len();
        let ghost mut st: Seq<Store> = seq![*self];
        while remaining.len() > 0
            invariant
                self.wf(),
                n == ops0.len(),
                remaining@.len() + applied@.len() == n,
                forall|j: int| 0 <= j < remaining@.len() ==> #[trigger] remaining@[j] == ops0[n - 1 - j],
                st.len() == applied@.len() + 1,
                st[0] == *old(self),
                st[applied@.len() as int] == *self,
                forall|i: int|
                    0 <= i < applied@.len() ==> step_applied(st[i], st[i + 1], #[trigger] ops0[i], applied@[i]),
                forall|p: Seq<u8>, s: Seq<u8>|
                    (forall|i: int| 0 <= i < ops0.len() ==> ((#[trigger] ops0[i]).partition_key@ != p || ops0[i].sort_key@ != s))
                        ==> #[trigger] self.item(p, s) == old(self).item(p, s),
            decreases remaining@.len(),
        {
            let op = remaining.pop().unwrap();
            let ghost k = applied@.len() as int;
            proof {
                assert(op == ops0[k]);
            }
            let ghost opg = op;
            let ghost st0 = st;
            let ghost applied0 = applied@;
            let res = self.insert_item(&op.partition_key, &op.sort_key, op.value, &op.token);
            applied.push(res);
            proof {
                st = st.push(*self);
                assert(step_applied(st[k], st[k + 1], opg, res));
                assert forall|i: int|
                    0 <= i < applied@.len() implies step_applied(st[i], st[i + 1], #[trigger] ops0[i], applied@[i]) by {
                    if i < k {
                        assert(st[i] == st0[i] && st[i + 1] == st0[i + 1] && applied@[i] == applied0[i]);
                    }
                }
            }
        }
        proof {
            assert(st.len() == n + 1 && st[0] == *old(self) && st[n as int] == *self);
        }
        applied
    }
}

} // verus!
