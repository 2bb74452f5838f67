use vstd::prelude::*;

use crate::bytes::copy_bytes;
use crate::causal::{dominates, CausalContext};

verus! {

/// Errors of the version store.
#[derive(PartialEq, Eq, Structural, Clone, Copy, Debug)]
pub enum StoreError {
    /// A writer's timestamp space is exhausted; the write cannot be stamped.
    Internal,
}

/// One version of an item: the value written (`None` for a deletion) and
/// the writer and timestamp that produced it.
#[derive(Debug)]
pub struct ItemVersion {
    pub node: u64,
    pub timestamp: u64,
    pub value: Option<Vec<u8>>,
}

/// Mathematical model of an [`ItemVersion`].
pub ghost struct VersionView {
    pub node: u64,
    pub timestamp: u64,
    pub value: Option<Seq<u8>>,
}

/// Mathematical model of an [`Item`]: its live versions in order of writing,
/// and its causal context as a total map from writer to timestamp.
pub ghost struct ItemView {
    pub versions: Seq<VersionView>,
    pub context: Map<u64, u64>,
}

pub open spec fn value_view(v: Option<Vec<u8>>) -> Option<Seq<u8>> {
    match v {
        Some(b) => Some(b@),
        None => None,
    }
}

impl View for ItemVersion {
    type V = VersionView;

    open spec fn view(&self) -> VersionView {
        VersionView { node: self.node, timestamp: self.timestamp, value: value_view(self.value) }
    }
}

pub open spec fn versions_view(s: Seq<ItemVersion>) -> Seq<VersionView> {
    s.map_values(|v: ItemVersion| v@)
}

/// The versions of `vs` that a writer who has seen `seen` has not yet seen.
pub open spec fn unseen(vs: Seq<VersionView>, seen: Map<u64, u64>) -> Seq<VersionView>
    decreases vs.len(),
{
    if vs.len() == 0 {
        vs
    } else {
        let r = unseen(vs.drop_last(), seen);
        if vs.last().timestamp > seen[vs.last().node] {
            r.push(vs.last())
        } else {
            r
        }
    }
}

/// The timestamp that a write by `node` carrying `token` gets on an item
/// whose context is `ctx`.
pub open spec fn write_stamp(ctx: Map<u64, u64>, token: Map<u64, u64>, node: u64) -> int {
    if ctx[node] >= token[node] {
        ctx[node] + 1
    } else {
        token[node] + 1
    }
}

/// The item after `node` writes `value` (`None`: a deletion), having observed
/// `token`. Versions that `token` has seen are dropped; the new one is added,
/// unless it is a deletion that leaves nothing else alive.
pub open spec fn put_model(
    item: ItemView,
    node: u64,
    token: Map<u64, u64>,
    value: Option<Seq<u8>>,
) -> ItemView {
    let ts = write_stamp(item.context, token, node) as u64;
    let kept = unseen(item.versions, token);
    ItemView {
        versions: if value is None && kept.len() == 0 {
            kept
        } else {
            kept.push(VersionView { node, timestamp: ts, value })
        },
        context: Map::new(
            |m: u64| true,
            |m: u64|
                if m == node {
                    ts
                } else if item.context[m] >= token[m] {
                    item.context[m]
                } else {
                    token[m]
                },
        ),
    }
}

impl ItemVersion {
    /// A copy of this version.
    pub fn duplicate(&self) -> (r: ItemVersion)
        ensures
            r@ == self@,
    {
        let value = match &self.value {
            Some(b) => Some(copy_bytes(b)),
            None => None,
        };
        ItemVersion { node: self.node, timestamp: self.timestamp, value }
    }
}

/// A logical item: its live versions (more than one when writes were
/// concurrent) and its causal context.
#[derive(Debug)]
pub struct Item {
    pub versions: Vec<ItemVersion>,
    pub context: CausalContext,
}

impl View for Item {
    type V = ItemView;

    open spec fn view(&self) -> ItemView {
        ItemView { versions: versions_view(self.versions@), context: self.context@ }
    }
}

impl Item {
    /// Well-formed: the context is in canonical form.
    pub open spec fn wf(&self) -> bool {
        self.context.wf()
    }

    /// An item that was never written.
    pub fn new() -> (r: Item)
        ensures
            r.wf(),
            r@.versions.len() == 0,
            forall|n: u64| #[trigger] r@.context[n] == 0,
    {
        Item { versions: Vec::new(), context: CausalContext::new() }
    }

    /// The item's versions and a token of everything the item has seen.
    pub fn read(&self) -> (r: (Vec<ItemVersion>, CausalContext))
        requires
            self.wf(),
        ensures
            r.1.wf(),
            versions_view(r.0@) == self@.versions,
            r.1@ == self@.context,
    {
        let mut out: Vec<ItemVersion> = Vec::new();
        let mut i: usize = 0;
        while i < self.versions.len()
            invariant
                i <= self.versions@.len(),
                versions_view(out@) =~= versions_view(self.versions@).subrange(0, i as int),
            decreases self.versions@.len() - i,
        {
            let v = self.versions[i].duplicate();
            let ghost before = out@;
            out.push(v);
            proof {
                assert(versions_view(out@) =~= versions_view(before).push(self.versions@[i as int]@));
                assert(versions_view(self.versions@).subrange(0, i + 1) =~= versions_view(
                    self.versions@,
                ).subrange(0, i as int).push(self.versions@[i as int]@));
            }
            i = i + 1;
        }
        let ctx = self.context.duplicate();
        proof {
            assert(ctx@ =~= self.context@);
        }
        (out, ctx)
    }

    /// Writes `value` (`None`: deletes) on behalf of writer `node`, which has
    /// observed `token`. Returns the token of the item's new context.
    pub fn put(&mut self, node: u64, value: Option<Vec<u8>>, token: &CausalContext) -> (r: Result<
        CausalContext,
        StoreError,
    >)
        requires
            old(self).wf(),
        ensures
            final(self).wf(),
            r is Err <==> write_stamp(old(self)@.context, token@, node) > u64::MAX,
            match r {
                Ok(t) => {
                    &&& t.wf()
                    &&& final(self)@ == put_model(old(self)@, node, token@, value_view(value))
                    &&& t@ == final(self)@.context
                    &&& dominates(t, *token)
                },
                Err(e) => e == StoreError::Internal && final(self)@ == old(self)@,
            },
    {
        let a = self.context.get(node);
        let b = token.get(node);
        let t = if a >= b { a } else { b };
        if t == u64::MAX {
            return Err(StoreError::Internal);
        }
        let ts = t + 1;
        let ghost orig = versions_view(self.versions@);
        let ghost n: int = orig.len() as int;
        let ghost mut k: int = 0;
        let mut i: usize = 0;
        proof {
            assert(orig.subrange(0, 0) =~= Seq::<VersionView>::empty());
            assert(orig.subrange(0, n) =~= orig);
        }
        while i < self.versions.len()
            invariant
                0 <= k <= n,
                n == orig.len(),
                self.context == old(self).context,
                self.context.wf(),
                i <= self.versions@.len(),
                self.versions@.len() == i + (n - k),
                versions_view(self.versions@) =~= unseen(orig.subrange(0, k), token@) + orig.subrange(k, n),
                unseen(orig.subrange(0, k), token@).len() == i,
            decreases self.versions@.len() - i,
        {
            proof {
                assert(orig.subrange(0, k + 1).drop_last() =~= orig.subrange(0, k));
                assert(versions_view(self.versions@)[i as int] == orig[k]);
            }
            let v_node = self.versions[i].node;
            let v_ts = self.versions[i].timestamp;
            if v_ts <= token.get(v_node) {
                let ghost before = self.versions@;
                self.versions.remove(i);
                proof {
                    assert(versions_view(self.versions@) =~= versions_view(before).remove(i as int));
                }
            } else {
                i = i + 1;
            }
            proof {
                k = k + 1;
            }
        }
        proof {
            assert(orig.subrange(0, k) =~= orig);
        }
        proof {
            assert(orig.subrange(n, n) =~= Seq::<VersionView>::empty());
            assert(versions_view(self.versions@) =~= unseen(orig, token@));
        }
        let ghost model = put_model(old(self)@, node, token@, value_view(value));
        let no_value = value.is_none();
        if !(no_value && i == 0) {
            let ghost before = self.versions@;
            let nv = ItemVersion { node, timestamp: ts, value };
            assert(nv@ == VersionView { node, timestamp: ts, value: value_view(value) });
            self.versions.push(nv);
            proof {
                assert(versions_view(self.versions@) =~= versions_view(before).push(nv@));
            }
        }
        assert(versions_view(self.versions@) =~= model.versions);
        let ghost c0 = self.context;
        self.context.join(token);
        let ghost c1 = self.context;
        self.context.advance(node, ts);
        let out = self.context.duplicate();
        proof {
            assert forall|m: u64| #[trigger] self.context@[m] == put_model(old(self)@, node, token@, value_view(value)).context[m] by {
                assert(self.context.clock(m) == if m == node && ts > c1.clock(m) { ts } else { c1.clock(m) });
                assert(c1.clock(m) == if c0.clock(m) >= token.clock(m) { c0.clock(m) } else { token.clock(m) });
            }
            assert(out@ =~= self.context@);
            assert(self.context@ =~= put_model(old(self)@, node, token@, value_view(value)).context);
            assert(self.context.clock(node) == ts);
            assert(out.clock(node) == self.context.clock(node));
            assert(out.clock(node) > token.clock(node));
            assert(self@ == model);
            assert forall|m: u64| #[trigger] out.clock(m) >= token.clock(m) by {
                assert(out.clock(m) == self.context@[m]);
                assert(self.context@[m] == model.context[m]);
            }
            assert(dominates(out, *token));
        }
        Ok(out)
    }
}

proof fn lemma_unseen_all_seen(vs: Seq<VersionView>, seen: Map<u64, u64>)
    requires
        forall|i: int| 0 <= i < vs.len() ==> #[trigger] vs[i].timestamp <= seen[vs[i].node],
    ensures
        unseen(vs, seen).len() == 0,
    decreases vs.len(),
{
    if vs.len() > 0 {
        let d = vs.drop_last();
        assert forall|i: int| 0 <= i < d.len() implies #[trigger] d[i].timestamp <= seen[d[i].node] by {
            assert(d[i] == vs[i]);
        }
        lemma_unseen_all_seen(d, seen);
        assert(vs.last() == vs[vs.len() - 1]);
    }
}

/// A write whose token has seen every live version of the item leaves the
/// new value as the item's only version.
pub proof fn lemma_dominating_put_single(
    item: ItemView,
    node: u64,
    token: Map<u64, u64>,
    value: Seq<u8>,
)
    requires
        forall|i: int|
            0 <= i < item.versions.len() ==> #[trigger] item.versions[i].timestamp
                <= token[item.versions[i].node],
    ensures
        put_model(item, node, token, Some(value)).versions == seq![
            VersionView {
                node,
                timestamp: write_stamp(item.context, token, node) as u64,
                value: Some(value),
            },
        ],
{
    lemma_unseen_all_seen(item.versions, token);
    let kept = unseen(item.versions, token);
    let v = VersionView {
        node,
        timestamp: write_stamp(item.context, token, node) as u64,
        value: Some(value),
    };
    assert(kept.push(v) =~= seq![v]);
}

/// Two writes that carry the same token, neither having seen the other,
/// leave both values alive as concurrent versions.
pub proof fn lemma_concurrent_puts_conflict(
    item: ItemView,
    n1: u64,
    n2: u64,
    token: Map<u64, u64>,
    v1: Seq<u8>,
    v2: Seq<u8>,
)
    requires
        write_stamp(item.context, token, n1) <= u64::MAX,
    ensures
        ({
            let first = put_model(item, n1, token, Some(v1));
            let second = put_model(first, n2, token, Some(v2));
            let len = second.versions.len();
            &&& len >= 2
            &&& second.versions[len - 2] == first.versions.last()
            &&& second.versions[len - 2].value == Some(v1)
            &&& second.versions[len - 1].value == Some(v2)
        }),
{
    let first = put_model(item, n1, token, Some(v1));
    let kept = unseen(item.versions, token);
    let nv = first.versions.last();
    assert(first.versions == kept.push(nv));
    assert(first.versions.drop_last() =~= kept);
    assert(nv.timestamp > token[n1]);
    assert(unseen(first.versions, token) == unseen(kept, token).push(nv));
}

/// After a write that carried `token`, every token whose context is the
/// item's new context, as a read returns it, dominates `token`.
pub proof fn lemma_read_after_put_dominates(
    item: ItemView,
    node: u64,
    token: CausalContext,
    value: Option<Seq<u8>>,
    read_token: CausalContext,
)
    requires
        write_stamp(item.context, token@, node) <= u64::MAX,
        read_token@ == put_model(item, node, token@, value).context,
    ensures
        dominates(read_token, token),
{
    let after = put_model(item, node, token@, value).context;
    assert forall|m: u64| #[trigger] read_token.clock(m) >= token.clock(m) by {
        assert(read_token@[m] == after[m]);
        assert(token@[m] == token.clock(m));
    }
    assert(read_token@[node] == after[node]);
    assert(read_token.clock(node) > token.clock(node));
}

} // verus!
