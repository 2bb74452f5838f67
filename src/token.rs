use vstd::prelude::*;

use crate::causal::{canonical, clock_in, lemma_canonical_unique, CausalContext};

verus! {

/// A causality token that does not decode to a context.
#[derive(PartialEq, Eq, Structural, Clone, Copy, Debug)]
pub enum TokenError {
    InvalidToken,
}

/// Byte `j` (0 = most significant) of `v` in big-endian order.
pub open spec fn be_byte(v: u64, j: int) -> u8 {
    ((v >> (8 * (7 - j)) as u64) & 0xff) as u8
}

/// `v` as eight big-endian bytes.
pub open spec fn be64(v: u64) -> Seq<u8> {
    seq![
        be_byte(v, 0),
        be_byte(v, 1),
        be_byte(v, 2),
        be_byte(v, 3),
        be_byte(v, 4),
        be_byte(v, 5),
        be_byte(v, 6),
        be_byte(v, 7),
    ]
}

/// The integer whose big-endian bytes are `s[0..8]`.
pub open spec fn from_be(s: Seq<u8>) -> u64
    recommends
        s.len() >= 8,
{
    (s[0] as u64) << 56u64 | (s[1] as u64) << 48u64 | (s[2] as u64) << 40u64 | (s[3] as u64)
        << 32u64 | (s[4] as u64) << 24u64 | (s[5] as u64) << 16u64 | (s[6] as u64) << 8u64
        | (s[7] as u64)
}

/// Token encoding of a context's entries: for each entry, the writer then
/// the timestamp, each as eight big-endian bytes.
pub open spec fn token_bytes(s: Seq<(u64, u64)>) -> Seq<u8>
    decreases s.len(),
{
    if s.len() == 0 {
        Seq::empty()
    } else {
        token_bytes(s.drop_last()) + be64(s.last().0) + be64(s.last().1)
    }
}

proof fn lemma_from_be64(v: u64)
    ensures
        from_be(be64(v)) == v,
{
    assert(v == (((v >> 56u64) & 0xff) as u8 as u64) << 56u64 | (((v >> 48u64) & 0xff) as u8 as u64)
        << 48u64 | (((v >> 40u64) & 0xff) as u8 as u64) << 40u64 | (((v >> 32u64) & 0xff) as u8 as u64)
        << 32u64 | (((v >> 24u64) & 0xff) as u8 as u64) << 24u64 | (((v >> 16u64) & 0xff) as u8 as u64)
        << 16u64 | (((v >> 8u64) & 0xff) as u8 as u64) << 8u64 | (((v >> 0u64) & 0xff) as u8 as u64))
        by (bit_vector);
}

proof fn lemma_be64_from(b0: u8, b1: u8, b2: u8, b3: u8, b4: u8, b5: u8, b6: u8, b7: u8)
    ensures
        ({
            let v = (b0 as u64) << 56u64 | (b1 as u64) << 48u64 | (b2 as u64) << 40u64 | (b3 as u64)
                << 32u64 | (b4 as u64) << 24u64 | (b5 as u64) << 16u64 | (b6 as u64) << 8u64
                | (b7 as u64);
            &&& ((v >> 56u64) & 0xff) as u8 == b0
            &&& ((v >> 48u64) & 0xff) as u8 == b1
            &&& ((v >> 40u64) & 0xff) as u8 == b2
            &&& ((v >> 32u64) & 0xff) as u8 == b3
            &&& ((v >> 24u64) & 0xff) as u8 == b4
            &&& ((v >> 16u64) & 0xff) as u8 == b5
            &&& ((v >> 8u64) & 0xff) as u8 == b6
            &&& ((v >> 0u64) & 0xff) as u8 == b7
        }),
{
    assert(({
        let v = (b0 as u64) << 56u64 | (b1 as u64) << 48u64 | (b2 as u64) << 40u64 | (b3 as u64)
            << 32u64 | (b4 as u64) << 24u64 | (b5 as u64) << 16u64 | (b6 as u64) << 8u64
            | (b7 as u64);
        &&& ((v >> 56u64) & 0xff) as u8 == b0
        &&& ((v >> 48u64) & 0xff) as u8 == b1
        &&& ((v >> 40u64) & 0xff) as u8 == b2
        &&& ((v >> 32u64) & 0xff) as u8 == b3
        &&& ((v >> 24u64) & 0xff) as u8 == b4
        &&& ((v >> 16u64) & 0xff) as u8 == b5
        &&& ((v >> 8u64) & 0xff) as u8 == b6
        &&& ((v >> 0u64) & 0xff) as u8 == b7
    })) by (bit_vector);
}

proof fn lemma_be64_of_from_be(s: Seq<u8>)
    requires
        s.len() == 8,
    ensures
        be64(from_be(s)) == s,
{
    lemma_be64_from(s[0], s[1], s[2], s[3], s[4], s[5], s[6], s[7]);
    assert(be64(from_be(s)) =~= s);
}

proof fn lemma_token_bytes_len(s: Seq<(u64, u64)>)
    ensures
        token_bytes(s).len() == 16 * s.len(),
    decreases s.len(),
{
    if s.len() > 0 {
        lemma_token_bytes_len(s.drop_last());
    }
}

proof fn lemma_token_bytes_injective(a: Seq<(u64, u64)>, b: Seq<(u64, u64)>)
    requires
        token_bytes(a) == token_bytes(b),
    ensures
        a == b,
    decreases a.len(),
{
    lemma_token_bytes_len(a);
    lemma_token_bytes_len(b);
    if a.len() > 0 {
        let ta = token_bytes(a);
        let n = ta.len() as int;
        let pa = token_bytes(a.drop_last());
        let pb = token_bytes(b.drop_last());
        lemma_token_bytes_len(a.drop_last());
        lemma_token_bytes_len(b.drop_last());
        assert(ta.subrange(0, n - 16) =~= pa);
        assert(token_bytes(b).subrange(0, n - 16) =~= pb);
        assert(ta.subrange(n - 16, n - 8) =~= be64(a.last().0));
        assert(token_bytes(b).subrange(n - 16, n - 8) =~= be64(b.last().0));
        assert(ta.subrange(n - 8, n) =~= be64(a.last().1));
        assert(token_bytes(b).subrange(n - 8, n) =~= be64(b.last().1));
        lemma_from_be64(a.last().0);
        lemma_from_be64(b.last().0);
        lemma_from_be64(a.last().1);
        lemma_from_be64(b.last().1);
        lemma_token_bytes_injective(a.drop_last(), b.drop_last());
        assert(a =~= a.drop_last().push(a.last()));
        assert(b =~= b.drop_last().push(b.last()));
    } else {
        assert(a =~= b);
    }
}

fn push_be64(out: &mut Vec<u8>, v: u64)
    ensures
        final(out)@ == old(out)@ + be64(v),
{
    let mut i: u64 = 0;
    while i < 8
        invariant
            i <= 8,
            out@ == old(out)@ + be64(v).take(i as int),
        decreases 8 - i,
    {
        let byte = ((v >> (8 * (7 - i))) & 0xff) as u8;
        proof {
            assert(byte == be_byte(v, i as int));
            assert(be64(v).take(i + 1) =~= be64(v).take(i as int).push(byte));
        }
        out.push(byte);
        i = i + 1;
    }
    assert(be64(v).take(8) =~= be64(v));
}

fn read_be64(b: &Vec<u8>, off: usize) -> (r: u64)
    requires
        off + 8 <= b@.len(),
    ensures
        r == from_be(b@.subrange(off as int, off + 8)),
{
    let len = b.len();
    proof {
        assert(off + 8 <= len);
    }
    let b0 = b[off] as u64;
    let b1 = b[off + 1] as u64;
    let b2 = b[off + 2] as u64;
    let b3 = b[off + 3] as u64;
    let b4 = b[off + 4] as u64;
    let b5 = b[off + 5] as u64;
    let b6 = b[off + 6] as u64;
    let b7 = b[off + 7] as u64;
    b0 << 56u64 | b1 << 48u64 | b2 << 40u64 | b3 << 32u64 | b4 << 24u64 | b5 << 16u64 | b6 << 8u64 | b7
}

impl CausalContext {
    /// The token of this context: an opaque byte string that decodes back
    /// to the same entries.
    pub fn to_token(&self) -> (r: Vec<u8>)
        ensures
            r@ == token_bytes(self.entries@),
    {
        let mut out: Vec<u8> = Vec::new();
        let mut i: usize = 0;
        while i < self.entries.len()
            invariant
                i <= self.entries@.len(),
                out@ == token_bytes(self.entries@.subrange(0, i as int)),
            decreases self.entries@.len() - i,
        {
            proof {
                assert(self.entries@.subrange(0, i + 1).drop_last() =~= self.entries@.subrange(0, i as int));
            }
            let e = self.entries[i];
            push_be64(&mut out, e.0);
            push_be64(&mut out, e.1);
            i = i + 1;
        }
        proof {
            assert(self.entries@.subrange(0, i as int) =~= self.entries@);
        }
        out
    }

    /// Decodes a token. It is invalid when its length is not a whole
    /// number of entries or the entries it holds are not canonical.
    pub fn from_token(b: &Vec<u8>) -> (r: Result<CausalContext, TokenError>)
        ensures
            r is Err <==> (b@.len() % 16 != 0 || forall|s: Seq<(u64, u64)>|
                #[trigger] token_bytes(s) == b@ ==> !canonical(s)),
            match r {
                Ok(c) => c.wf() && token_bytes(c.entries@) == b@,
                Err(e) => e == TokenError::InvalidToken,
            },
    {
        if b.len() % 16 != 0 {
            return Err(TokenError::InvalidToken);
        }
        let mut entries: Vec<(u64, u64)> = Vec::new();
        let mut off: usize = 0;
        while off < b.len()
            invariant
                off <= b@.len(),
                b@.len() % 16 == 0,
                off % 16 == 0,
                token_bytes(entries@) == b@.subrange(0, off as int),
            decreases b@.len() - off,
        {
            let n = read_be64(b, off);
            let t = read_be64(b, off + 8);
            let ghost before = entries@;
            entries.push((n, t));
            proof {
                assert(entries@.drop_last() =~= before);
                lemma_be64_of_from_be(b@.subrange(off as int, off + 8));
                lemma_be64_of_from_be(b@.subrange(off + 8, off + 16));
                assert(b@.subrange(0, off + 16) =~= b@.subrange(0, off as int) + b@.subrange(
                    off as int,
                    off + 8,
                ) + b@.subrange(off + 8, off + 16));
            }
            off = off + 16;
        }
        proof {
            assert(b@.subrange(0, off as int) =~= b@);
        }
        let c = CausalContext { entries };
        if !c.is_canonical() {
            proof {
                assert forall|s: Seq<(u64, u64)>| #[trigger] token_bytes(s) == b@ implies !canonical(s) by {
                    lemma_token_bytes_injective(s, c.entries@);
                }
            }
            return Err(TokenError::InvalidToken);
        }
        Ok(c)
    }

    /// Whether the entries are in canonical form.
    pub fn is_canonical(&self) -> (r: bool)
        ensures
            r == self.wf(),
    {
        let mut i: usize = 0;
        while i < self.entries.len()
            invariant
                i <= self.entries@.len(),
                canonical(self.entries@.subrange(0, i as int)),
            decreases self.entries@.len() - i,
        {
            let e = self.entries[i];
            if e.1 == 0 || (i > 0 && self.entries[i - 1].0 >= e.0) {
                proof {
                    if e.1 != 0 {
                        assert(self.entries@[i - 1].0 >= self.entries@[i as int].0);
                    }
                }
                return false;
            }
            proof {
                let p = self.entries@.subrange(0, i as int);
                let q = self.entries@.subrange(0, i + 1);
                assert forall|a: int, b: int| 0 <= a < b < q.len() implies (#[trigger] q[a]).0 < (#[trigger] q[b]).0 by {
                    if b < i {
                        assert(q[a] == p[a] && q[b] == p[b]);
                    } else if a < i - 1 {
                        assert(p[a].0 < p[i - 1].0);
                    }
                }
                assert forall|a: int| 0 <= a < q.len() implies (#[trigger] q[a]).1 > 0 by {
                    if a < i {
                        assert(q[a] == p[a]);
                    }
                }
            }
            i = i + 1;
        }
        proof {
            assert(self.entries@.subrange(0, i as int) =~= self.entries@);
        }
        true
    }
}

/// Two tokens are equal exactly when the contexts' entries are; so decoding
/// the token of a context gives back its entries.
pub proof fn lemma_token_injective(c: CausalContext, d: CausalContext)
    ensures
        token_bytes(c.entries@) == token_bytes(d.entries@) <==> c.entries@ == d.entries@,
{
    if token_bytes(c.entries@) == token_bytes(d.entries@) {
        lemma_token_bytes_injective(c.entries@, d.entries@);
    }
}

/// The tokens of two well-formed contexts are equal exactly when the
/// contexts record the same timestamp for every writer.
pub proof fn lemma_token_equal_iff_same_context(c: CausalContext, d: CausalContext)
    requires
        c.wf(),
        d.wf(),
    ensures
        token_bytes(c.entries@) == token_bytes(d.entries@) <==> c@ == d@,
{
    if token_bytes(c.entries@) == token_bytes(d.entries@) {
        lemma_token_bytes_injective(c.entries@, d.entries@);
        assert(c@ =~= d@);
    }
    if c@ == d@ {
        assert forall|n: u64| #[trigger] clock_in(c.entries@, n) == clock_in(d.entries@, n) by {
            assert(c@[n] == d@[n]);
        }
        lemma_canonical_unique(c.entries@, d.entries@);
    }
}

} // verus!
