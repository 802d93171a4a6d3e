//! Big-endian byte encodings for the on-disk key layout.
//!
//! Span records are keyed by the 4-byte big-endian span end with the
//! 4-byte big-endian span start as value.  Record entries are keyed by
//! 4-byte big-endian block number, 2-byte big-endian in-block index and
//! a 32-byte account identifier.  Big-endian keys make the store's
//! lexicographic key order coincide with numeric block order, which is
//! what lets a plain sorted scan reconstruct the persisted intervals.

use vstd::prelude::*;

verus! {

/// Big-endian bytes of a `u32`.
pub open spec fn be32(x: u32) -> Seq<u8> {
    seq![(x >> 24) as u8, (x >> 16) as u8, (x >> 8) as u8, x as u8]
}

/// Value of a 4-byte big-endian sequence.
pub open spec fn be32_val(s: Seq<u8>) -> u32 {
    ((s[0] as u32) << 24 | (s[1] as u32) << 16 | (s[2] as u32) << 8 | (s[3] as u32)) as u32
}

/// Big-endian bytes of a `u16`.
pub open spec fn be16(x: u16) -> Seq<u8> {
    seq![(x >> 8) as u8, x as u8]
}

/// Value of a 2-byte big-endian sequence.
pub open spec fn be16_val(s: Seq<u8>) -> u16 {
    ((s[0] as u16) << 8 | (s[1] as u16)) as u16
}

/// Strict lexicographic order on byte sequences.
pub open spec fn lex_lt(a: Seq<u8>, b: Seq<u8>) -> bool
    decreases a.len(),
{
    if b.len() == 0 {
        false
    } else if a.len() == 0 {
        true
    } else if a[0] < b[0] {
        true
    } else if a[0] > b[0] {
        false
    } else {
        lex_lt(a.drop_first(), b.drop_first())
    }
}

/// Encode a `u32` as its 4 big-endian bytes.
pub fn u32_to_be(x: u32) -> (r: Vec<u8>)
    ensures
        r@ == be32(x),
{
    let mut r: Vec<u8> = Vec::new();
    r.push((x >> 24) as u8);
    r.push((x >> 16) as u8);
    r.push((x >> 8) as u8);
    r.push(x as u8);
    proof {
        assert(r@ =~= be32(x));
    }
    r
}

/// Decode 4 big-endian bytes into a `u32`.
pub fn u32_from_be(b: &Vec<u8>) -> (r: u32)
    requires
        b@.len() == 4,
    ensures
        r == be32_val(b@),
{
    let r: u32 = (b[0] as u32) << 24 | (b[1] as u32) << 16 | (b[2] as u32) << 8 | (b[3] as u32);
    r
}

/// Encoding a `u32` and reading the bytes back gives the same number.
pub proof fn lemma_be32_roundtrip(x: u32)
    ensures
        be32_val(be32(x)) == x,
{
    let s = be32(x);
    let b0 = s[0];
    let b1 = s[1];
    let b2 = s[2];
    let b3 = s[3];
    assert(((b0 as u32) << 24 | (b1 as u32) << 16 | (b2 as u32) << 8 | (b3 as u32)) as u32 == x)
        by (bit_vector)
        requires
            b0 == (x >> 24) as u8,
            b1 == (x >> 16) as u8,
            b2 == (x >> 8) as u8,
            b3 == x as u8,
    ;
}

/// Reading 4 bytes as a big-endian number and encoding it again gives
/// the same bytes.
pub proof fn lemma_be32_val_roundtrip(s: Seq<u8>)
    requires
        s.len() == 4,
    ensures
        be32(be32_val(s)) == s,
{
    let b0 = s[0];
    let b1 = s[1];
    let b2 = s[2];
    let b3 = s[3];
    let x = be32_val(s);
    assert((x >> 24) as u8 == b0 && (x >> 16) as u8 == b1 && (x >> 8) as u8 == b2 && x as u8 == b3)
        by (bit_vector)
        requires
            x == ((b0 as u32) << 24 | (b1 as u32) << 16 | (b2 as u32) << 8 | (b3 as u32)) as u32,
    ;
    assert(be32(x) =~= s);
}

/// Big-endian encodings of distinct numbers are distinct.
pub proof fn lemma_be32_injective(x: u32, y: u32)
    requires
        be32(x) == be32(y),
    ensures
        x == y,
{
    lemma_be32_roundtrip(x);
    lemma_be32_roundtrip(y);
}

/// On 4-byte big-endian encodings, lexicographic order is numeric order.
pub proof fn lemma_be32_order(x: u32, y: u32)
    ensures
        lex_lt(be32(x), be32(y)) <==> x < y,
{
    let a = be32(x);
    let b = be32(y);
    assert((x < y) <==> (((x >> 24) as u8) < ((y >> 24) as u8) || ((x >> 24) as u8
        == (y >> 24) as u8 && (((x >> 16) as u8) < ((y >> 16) as u8) || ((x >> 16) as u8
        == (y >> 16) as u8 && (((x >> 8) as u8) < ((y >> 8) as u8) || ((x >> 8) as u8
        == (y >> 8) as u8 && (x as u8) < (y as u8)))))))) by (bit_vector);
    let a1 = a.drop_first();
    let b1 = b.drop_first();
    let a2 = a1.drop_first();
    let b2 = b1.drop_first();
    let a3 = a2.drop_first();
    let b3 = b2.drop_first();
    assert(a1 =~= seq![(x >> 16) as u8, (x >> 8) as u8, x as u8]);
    assert(b1 =~= seq![(y >> 16) as u8, (y >> 8) as u8, y as u8]);
    assert(a2 =~= seq![(x >> 8) as u8, x as u8]);
    assert(b2 =~= seq![(y >> 8) as u8, y as u8]);
    assert(a3 =~= seq![x as u8]);
    assert(b3 =~= seq![y as u8]);
    assert(lex_lt(a3, b3) <==> ((x as u8) < (y as u8) || ((x as u8) == (y as u8) && lex_lt(
        a3.drop_first(),
        b3.drop_first(),
    ))));
    assert(!lex_lt(a3.drop_first(), b3.drop_first()));
    assert(lex_lt(a2, b2) <==> (a2[0] < b2[0] || (a2[0] == b2[0] && lex_lt(a3, b3))));
    assert(lex_lt(a1, b1) <==> (a1[0] < b1[0] || (a1[0] == b1[0] && lex_lt(a2, b2))));
    assert(lex_lt(a, b) <==> (a[0] < b[0] || (a[0] == b[0] && lex_lt(a1, b1))));
}

/// When two sequences differ within a common-length prefix, that prefix
/// decides their lexicographic order.
pub proof fn lemma_lex_prefix(p: Seq<u8>, q: Seq<u8>, s: Seq<u8>, t: Seq<u8>)
    requires
        p.len() == q.len(),
        p != q,
    ensures
        lex_lt(p + s, q + t) <==> lex_lt(p, q),
    decreases p.len(),
{
    if p.len() == 0 {
        assert(p =~= q);
    } else {
        assert((p + s)[0] == p[0]);
        assert((q + t)[0] == q[0]);
        if p[0] == q[0] {
            assert(p.drop_first() + s =~= (p + s).drop_first());
            assert(q.drop_first() + t =~= (q + t).drop_first());
            if p.drop_first() == q.drop_first() {
                assert forall|i: int| 0 <= i < p.len() implies p[i] == q[i] by {
                    if i > 0 {
                        assert(p.drop_first()[i - 1] == q.drop_first()[i - 1]);
                    }
                }
                assert(p =~= q);
            }
            lemma_lex_prefix(p.drop_first(), q.drop_first(), s, t);
        }
    }
}

/// Decode 4 big-endian bytes at an offset into a `u32`.
pub fn u32_from_be_at(b: &Vec<u8>, off: usize) -> (r: u32)
    requires
        off + 4 <= b@.len(),
    ensures
        r == be32_val(b@.subrange(off as int, off + 4)),
{
    let n = b.len();
    assert(off + 4 <= n);
    let r: u32 = (b[off] as u32) << 24 | (b[off + 1] as u32) << 16 | (b[off + 2] as u32) << 8 | (
    b[off + 3] as u32);
    proof {
        let s = b@.subrange(off as int, off + 4);
        assert(s[0] == b@[off as int] && s[1] == b@[off + 1] && s[2] == b@[off + 2]);
        assert(s[3] == b@[off + 3]);
    }
    r
}

/// Decode 2 big-endian bytes at an offset into a `u16`.
pub fn u16_from_be_at(b: &Vec<u8>, off: usize) -> (r: u16)
    requires
        off + 2 <= b@.len(),
    ensures
        r == be16_val(b@.subrange(off as int, off + 2)),
{
    let n = b.len();
    assert(off + 2 <= n);
    let r: u16 = (b[off] as u16) << 8 | (b[off + 1] as u16);
    proof {
        let s = b@.subrange(off as int, off + 2);
        assert(s[0] == b@[off as int] && s[1] == b@[off + 1]);
    }
    r
}

/// Encode a `u16` as its 2 big-endian bytes.
pub fn u16_to_be(x: u16) -> (r: Vec<u8>)
    ensures
        r@ == be16(x),
{
    let mut r: Vec<u8> = Vec::new();
    r.push((x >> 8) as u8);
    r.push(x as u8);
    proof {
        assert(r@ =~= be16(x));
    }
    r
}

/// Reading 2 bytes as a big-endian number and encoding it again gives
/// the same bytes.
pub proof fn lemma_be16_val_roundtrip(s: Seq<u8>)
    requires
        s.len() == 2,
    ensures
        be16(be16_val(s)) == s,
{
    let b0 = s[0];
    let b1 = s[1];
    let x = be16_val(s);
    assert((x >> 8) as u8 == b0 && x as u8 == b1) by (bit_vector)
        requires
            x == ((b0 as u16) << 8 | (b1 as u16)) as u16,
    ;
    assert(be16(x) =~= s);
}

/// The 38-byte key of a record: big-endian block number, big-endian
/// in-block index, 32-byte account identifier.  Big-endian prefixes
/// make the store sort records by block number first.
pub open spec fn feather_key(b: u32, i: u16, a: Seq<u8>) -> Seq<u8> {
    be32(b) + be16(i) + a
}

/// On-disk key of a record.
pub struct FeatherDbKey {
    pub block_number: u32,
    pub index: u16,
    pub account_id: Vec<u8>,
}

impl FeatherDbKey {
    /// The account identifier is 32 bytes.
    pub open spec fn wf(self) -> bool {
        self.account_id@.len() == 32
    }

    /// Serialize as the 38-byte record key.
    pub fn as_bytes(&self) -> (r: Vec<u8>)
        requires
            self.wf(),
        ensures
            r@ == feather_key(self.block_number, self.index, self.account_id@),
            r@.len() == 38,
    {
        let mut r = u32_to_be(self.block_number);
        let mut ib = u16_to_be(self.index);
        r.append(&mut ib);
        let mut i: usize = 0;
        while i < self.account_id.len()
            invariant
                i <= self.account_id@.len(),
                r@ == be32(self.block_number) + be16(self.index) + self.account_id@.take(i as int),
            decreases self.account_id@.len() - i,
        {
            r.push(self.account_id[i]);
            proof {
                assert(r@ =~= be32(self.block_number) + be16(self.index)
                    + self.account_id@.take(i + 1));
            }
            i = i + 1;
        }
        proof {
            assert(self.account_id@.take(i as int) =~= self.account_id@);
        }
        r
    }

    /// Parse a 38-byte record key; any other length is malformed.
    pub fn read_from_bytes(b: &Vec<u8>) -> (r: Option<FeatherDbKey>)
        ensures
            b@.len() == 38 ==> (r matches Some(k) && k.wf() && b@ == feather_key(
                k.block_number,
                k.index,
                k.account_id@,
            )),
            b@.len() != 38 ==> r is None,
    {
        if b.len() != 38 {
            return None;
        }
        let block_number = u32_from_be_at(b, 0);
        let index = u16_from_be_at(b, 4);
        let mut account_id: Vec<u8> = Vec::new();
        let mut i: usize = 6;
        while i < 38
            invariant
                6 <= i <= 38,
                b@.len() == 38,
                account_id@ == b@.subrange(6, i as int),
            decreases 38 - i,
        {
            account_id.push(b[i]);
            proof {
                assert(account_id@ =~= b@.subrange(6, i + 1));
            }
            i = i + 1;
        }
        proof {
            lemma_be32_val_roundtrip(b@.subrange(0, 4));
            lemma_be16_val_roundtrip(b@.subrange(4, 6));
            assert(b@ =~= b@.subrange(0, 4) + b@.subrange(4, 6) + b@.subrange(6, 38));
        }
        Some(FeatherDbKey { block_number, index, account_id })
    }
}

/// No byte string is lexicographically below itself.
pub proof fn lemma_lex_irrefl(a: Seq<u8>)
    ensures
        !lex_lt(a, a),
    decreases a.len(),
{
    if a.len() > 0 {
        lemma_lex_irrefl(a.drop_first());
    }
}

/// Lexicographic order is transitive.
pub proof fn lemma_lex_trans(a: Seq<u8>, b: Seq<u8>, c: Seq<u8>)
    requires
        lex_lt(a, b),
        lex_lt(b, c),
    ensures
        lex_lt(a, c),
    decreases a.len() + b.len() + c.len(),
{
    if a.len() > 0 && b.len() > 0 && c.len() > 0 {
        if a[0] == b[0] && b[0] == c[0] {
            lemma_lex_trans(a.drop_first(), b.drop_first(), c.drop_first());
        }
    }
}

/// Appending to a common prefix compares like the appended parts.
pub proof fn lemma_lex_same_prefix(p: Seq<u8>, s: Seq<u8>, t: Seq<u8>)
    ensures
        lex_lt(p + s, p + t) <==> lex_lt(s, t),
    decreases p.len(),
{
    if p.len() == 0 {
        assert(p + s =~= s);
        assert(p + t =~= t);
    } else {
        assert((p + s)[0] == p[0] && (p + t)[0] == p[0]);
        assert((p + s).drop_first() =~= p.drop_first() + s);
        assert((p + t).drop_first() =~= p.drop_first() + t);
        lemma_lex_same_prefix(p.drop_first(), s, t);
    }
}

/// No byte string of the given length is lexicographically above the
/// string of that many maximal bytes.
pub proof fn lemma_lex_max(n: nat, s: Seq<u8>)
    requires
        s.len() == n,
    ensures
        !lex_lt(Seq::new(n, |i: int| 0xFFu8), s),
    decreases n,
{
    let ff = Seq::new(n, |i: int| 0xFFu8);
    if n > 0 {
        if ff[0] == s[0] {
            assert(ff.drop_first() =~= Seq::new((n - 1) as nat, |i: int| 0xFFu8));
            lemma_lex_max((n - 1) as nat, s.drop_first());
        }
    }
}

/// On-disk value of a span record: the big-endian span start.
pub struct SpanDbValue {
    pub start: u32,
}

impl SpanDbValue {
    /// Serialize as 4 big-endian bytes.
    pub fn as_bytes(&self) -> (r: Vec<u8>)
        ensures
            r@ == be32(self.start),
    {
        u32_to_be(self.start)
    }

    /// Parse a 4-byte value; any other length is malformed.
    pub fn read_from_bytes(b: &Vec<u8>) -> (r: Option<SpanDbValue>)
        ensures
            b@.len() == 4 ==> r == Some(SpanDbValue { start: be32_val(b@) }),
            b@.len() != 4 ==> r is None,
    {
        if b.len() == 4 {
            Some(SpanDbValue { start: u32_from_be(b) })
        } else {
            None
        }
    }
}

} // verus!
