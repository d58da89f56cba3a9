//! Big-endian integer encoding and byte-lexicographic ordering.
//!
//! Table keys are raw byte strings: an object identifier is stored as 8
//! big-endian bytes so that numeric order and byte order agree, and all
//! direct children of a folder form one contiguous key range.

use vstd::prelude::*;

verus! {

/// The 8 big-endian bytes of a 64-bit value.
pub open spec fn be8_of(x: u64) -> Seq<u8> {
    seq![
        ((x >> 56) & 0xff) as u8,
        ((x >> 48) & 0xff) as u8,
        ((x >> 40) & 0xff) as u8,
        ((x >> 32) & 0xff) as u8,
        ((x >> 24) & 0xff) as u8,
        ((x >> 16) & 0xff) as u8,
        ((x >> 8) & 0xff) as u8,
        (x & 0xff) as u8,
    ]
}

/// The 64-bit value read back from 8 big-endian bytes.
pub open spec fn num64_of(s: Seq<u8>) -> u64
    recommends
        s.len() == 8,
{
    ((s[0] as u64) << 56)
        | ((s[1] as u64) << 48)
        | ((s[2] as u64) << 40)
        | ((s[3] as u64) << 32)
        | ((s[4] as u64) << 24)
        | ((s[5] as u64) << 16)
        | ((s[6] as u64) << 8)
        | (s[7] as u64)
}

/// The 4 big-endian bytes of a 32-bit value.
pub open spec fn be4_of(x: u32) -> Seq<u8> {
    seq![
        ((x >> 24) & 0xff) as u8,
        ((x >> 16) & 0xff) as u8,
        ((x >> 8) & 0xff) as u8,
        (x & 0xff) as u8,
    ]
}

/// The 2 big-endian bytes of a 16-bit value.
pub open spec fn be2_of(x: u16) -> Seq<u8> {
    seq![((x >> 8) & 0xff) as u8, (x & 0xff) as u8]
}

/// The 32-bit value read back from 4 big-endian bytes.
pub open spec fn num32_of(s: Seq<u8>) -> u32
    recommends
        s.len() == 4,
{
    ((s[0] as u32) << 24) | ((s[1] as u32) << 16) | ((s[2] as u32) << 8) | (s[3] as u32)
}

/// The 16-bit value read back from 2 big-endian bytes.
pub open spec fn num16_of(s: Seq<u8>) -> u16
    recommends
        s.len() == 2,
{
    ((s[0] as u16) << 8) | (s[1] as u16)
}

pub fn u32_to_be(x: u32) -> (r: Vec<u8>)
    ensures
        r@ == be4_of(x),
{
    let mut r: Vec<u8> = Vec::new();
    r.push(((x >> 24) & 0xff) as u8);
    r.push(((x >> 16) & 0xff) as u8);
    r.push(((x >> 8) & 0xff) as u8);
    r.push((x & 0xff) as u8);
    proof {
        assert(r@ =~= be4_of(x));
    }
    r
}

pub fn u16_to_be(x: u16) -> (r: Vec<u8>)
    ensures
        r@ == be2_of(x),
{
    let mut r: Vec<u8> = Vec::new();
    r.push(((x >> 8) & 0xff) as u8);
    r.push((x & 0xff) as u8);
    proof {
        assert(r@ =~= be2_of(x));
    }
    r
}

/// Reads the 4 big-endian bytes starting at `off`.
pub fn u32_from_be(v: &Vec<u8>, off: usize) -> (r: u32)
    requires
        off + 4 <= v.len(),
    ensures
        r == num32_of(v@.subrange(off as int, off as int + 4)),
{
    let r = ((v[off] as u32) << 24) | ((v[off + 1] as u32) << 16) | ((v[off + 2] as u32) << 8)
        | (v[off + 3] as u32);
    proof {
        let s = v@.subrange(off as int, off as int + 4);
        assert(s[0] == v@[off as int]);
        assert(s[1] == v@[off as int + 1]);
        assert(s[2] == v@[off as int + 2]);
        assert(s[3] == v@[off as int + 3]);
    }
    r
}

/// Reads the 2 big-endian bytes starting at `off`.
pub fn u16_from_be(v: &Vec<u8>, off: usize) -> (r: u16)
    requires
        off + 2 <= v.len(),
    ensures
        r == num16_of(v@.subrange(off as int, off as int + 2)),
{
    let r = ((v[off] as u16) << 8) | (v[off + 1] as u16);
    proof {
        let s = v@.subrange(off as int, off as int + 2);
        assert(s[0] == v@[off as int]);
        assert(s[1] == v@[off as int + 1]);
    }
    r
}

/// Encoding then decoding gives the value back, 32-bit form.
pub proof fn lemma_be4_roundtrip(x: u32)
    ensures
        num32_of(be4_of(x)) == x,
{
    assert((((((x >> 24) & 0xff) as u8) as u32) << 24)
        | (((((x >> 16) & 0xff) as u8) as u32) << 16)
        | (((((x >> 8) & 0xff) as u8) as u32) << 8)
        | (((x & 0xff) as u8) as u32) == x) by (bit_vector);
}

/// Encoding then decoding gives the value back, 16-bit form.
pub proof fn lemma_be2_roundtrip(x: u16)
    ensures
        num16_of(be2_of(x)) == x,
{
    assert((((((x >> 8) & 0xff) as u8) as u16) << 8) | (((x & 0xff) as u8) as u16) == x)
        by (bit_vector);
}

/// Strict byte-lexicographic order: the order in which the store's range
/// scans yield keys.
pub open spec fn lex_lt(a: Seq<u8>, b: Seq<u8>) -> bool
    decreases a.len(),
{
    if b.len() == 0 {
        false
    } else if a.len() == 0 {
        true
    } else {
        a[0] < b[0] || (a[0] == b[0] && lex_lt(a.skip(1), b.skip(1)))
    }
}

pub open spec fn lex_le(a: Seq<u8>, b: Seq<u8>) -> bool {
    lex_lt(a, b) || a == b
}

pub fn u64_to_be(x: u64) -> (r: Vec<u8>)
    ensures
        r@ == be8_of(x),
{
    let mut r: Vec<u8> = Vec::new();
    r.push(((x >> 56) & 0xff) as u8);
    r.push(((x >> 48) & 0xff) as u8);
    r.push(((x >> 40) & 0xff) as u8);
    r.push(((x >> 32) & 0xff) as u8);
    r.push(((x >> 24) & 0xff) as u8);
    r.push(((x >> 16) & 0xff) as u8);
    r.push(((x >> 8) & 0xff) as u8);
    r.push((x & 0xff) as u8);
    proof {
        assert(r@ =~= be8_of(x));
    }
    r
}

/// Reads the 8 big-endian bytes starting at `off`.
pub fn u64_from_be(v: &Vec<u8>, off: usize) -> (r: u64)
    requires
        off + 8 <= v.len(),
    ensures
        r == num64_of(v@.subrange(off as int, off as int + 8)),
{
    let r = ((v[off] as u64) << 56)
        | ((v[off + 1] as u64) << 48)
        | ((v[off + 2] as u64) << 40)
        | ((v[off + 3] as u64) << 32)
        | ((v[off + 4] as u64) << 24)
        | ((v[off + 5] as u64) << 16)
        | ((v[off + 6] as u64) << 8)
        | (v[off + 7] as u64);
    proof {
        let s = v@.subrange(off as int, off as int + 8);
        assert(s[0] == v@[off as int]);
        assert(s[1] == v@[off as int + 1]);
        assert(s[2] == v@[off as int + 2]);
        assert(s[3] == v@[off as int + 3]);
        assert(s[4] == v@[off as int + 4]);
        assert(s[5] == v@[off as int + 5]);
        assert(s[6] == v@[off as int + 6]);
        assert(s[7] == v@[off as int + 7]);
    }
    r
}

/// Copies the bytes in `from .. to`.
pub fn sub_bytes(a: &Vec<u8>, from: usize, to: usize) -> (r: Vec<u8>)
    requires
        from <= to <= a.len(),
    ensures
        r@ == a@.subrange(from as int, to as int),
{
    let mut r: Vec<u8> = Vec::new();
    let mut i: usize = from;
    while i < to
        invariant
            from <= i <= to <= a.len(),
            r@ == a@.subrange(from as int, i as int),
        decreases to - i,
    {
        r.push(a[i]);
        proof {
            assert(a@.subrange(from as int, i as int) + seq![a@[i as int]] =~= a@.subrange(
                from as int,
                i as int + 1,
            ));
        }
        i = i + 1;
    }
    r
}

/// Encoding then decoding gives the value back.
pub proof fn lemma_be8_roundtrip(x: u64)
    ensures
        num64_of(be8_of(x)) == x,
{
    assert((((((x >> 56) & 0xff) as u8) as u64) << 56)
        | (((((x >> 48) & 0xff) as u8) as u64) << 48)
        | (((((x >> 40) & 0xff) as u8) as u64) << 40)
        | (((((x >> 32) & 0xff) as u8) as u64) << 32)
        | (((((x >> 24) & 0xff) as u8) as u64) << 24)
        | (((((x >> 16) & 0xff) as u8) as u64) << 16)
        | (((((x >> 8) & 0xff) as u8) as u64) << 8)
        | (((x & 0xff) as u8) as u64) == x) by (bit_vector);
}

/// Decoding then encoding gives the bytes back.
pub proof fn lemma_be8_inverse(s: Seq<u8>)
    requires
        s.len() == 8,
    ensures
        be8_of(num64_of(s)) == s,
{
    let b0 = s[0];
    let b1 = s[1];
    let b2 = s[2];
    let b3 = s[3];
    let b4 = s[4];
    let b5 = s[5];
    let b6 = s[6];
    let b7 = s[7];
    let x = num64_of(s);
    assert(x == ((b0 as u64) << 56) | ((b1 as u64) << 48) | ((b2 as u64) << 40)
        | ((b3 as u64) << 32) | ((b4 as u64) << 24) | ((b5 as u64) << 16)
        | ((b6 as u64) << 8) | (b7 as u64));
    assert({
        let y = ((b0 as u64) << 56) | ((b1 as u64) << 48) | ((b2 as u64) << 40)
            | ((b3 as u64) << 32) | ((b4 as u64) << 24) | ((b5 as u64) << 16)
            | ((b6 as u64) << 8) | (b7 as u64);
        &&& ((y >> 56) & 0xff) as u8 == b0
        &&& ((y >> 48) & 0xff) as u8 == b1
        &&& ((y >> 40) & 0xff) as u8 == b2
        &&& ((y >> 32) & 0xff) as u8 == b3
        &&& ((y >> 24) & 0xff) as u8 == b4
        &&& ((y >> 16) & 0xff) as u8 == b5
        &&& ((y >> 8) & 0xff) as u8 == b6
        &&& (y & 0xff) as u8 == b7
    }) by (bit_vector);
    assert(be8_of(x) =~= s);
}

/// A shared prefix does not affect the order of what follows it.
pub proof fn lemma_lex_common_prefix(p: Seq<u8>, a: Seq<u8>, b: Seq<u8>)
    ensures
        lex_lt(p + a, p + b) <==> lex_lt(a, b),
    decreases p.len(),
{
    if p.len() == 0 {
        assert(p + a =~= a);
        assert(p + b =~= b);
    } else {
        assert((p + a)[0] == p[0]);
        assert((p + b)[0] == p[0]);
        assert((p + a).skip(1) =~= p.skip(1) + a);
        assert((p + b).skip(1) =~= p.skip(1) + b);
        lemma_lex_common_prefix(p.skip(1), a, b);
    }
}

/// Lexicographic comparison splits at any cut point `n`.
pub proof fn lemma_lex_decompose(a: Seq<u8>, b: Seq<u8>, n: int)
    requires
        0 <= n <= a.len(),
        n <= b.len(),
    ensures
        lex_lt(a, b) <==> (lex_lt(a.take(n), b.take(n)) || (a.take(n) == b.take(n)
            && lex_lt(a.skip(n), b.skip(n)))),
    decreases n,
{
    if n == 0 {
        assert(a.take(0) =~= b.take(0));
        assert(a.skip(0) =~= a);
        assert(b.skip(0) =~= b);
        assert(!lex_lt(a.take(0), b.take(0)));
    } else {
        lemma_lex_decompose(a.skip(1), b.skip(1), n - 1);
        assert(a.take(n)[0] == a[0]);
        assert(b.take(n)[0] == b[0]);
        assert(a.take(n).skip(1) =~= a.skip(1).take(n - 1));
        assert(b.take(n).skip(1) =~= b.skip(1).take(n - 1));
        assert(a.skip(n) =~= a.skip(1).skip(n - 1));
        assert(b.skip(n) =~= b.skip(1).skip(n - 1));
        if a.take(n) == b.take(n) {
            assert(a[0] == b[0]);
            assert(a.skip(1).take(n - 1) =~= b.skip(1).take(n - 1));
        } else {
            if a[0] == b[0] && a.skip(1).take(n - 1) == b.skip(1).take(n - 1) {
                assert forall|i: int| 0 <= i < n implies a.take(n)[i] == b.take(n)[i] by {
                    if i > 0 {
                        assert(a.skip(1).take(n - 1)[i - 1] == b.skip(1).take(n - 1)[i - 1]);
                    }
                }
                assert(a.take(n) =~= b.take(n));
            }
        }
    }
}

/// On 8-byte big-endian encodings, byte order is numeric order.
pub proof fn lemma_lex8_num(a: u64, b: u64)
    ensures
        lex_lt(be8_of(a), be8_of(b)) <==> a < b,
{
    let a0 = ((a >> 56) & 0xff) as u8;
    let a1 = ((a >> 48) & 0xff) as u8;
    let a2 = ((a >> 40) & 0xff) as u8;
    let a3 = ((a >> 32) & 0xff) as u8;
    let a4 = ((a >> 24) & 0xff) as u8;
    let a5 = ((a >> 16) & 0xff) as u8;
    let a6 = ((a >> 8) & 0xff) as u8;
    let a7 = (a & 0xff) as u8;
    let b0 = ((b >> 56) & 0xff) as u8;
    let b1 = ((b >> 48) & 0xff) as u8;
    let b2 = ((b >> 40) & 0xff) as u8;
    let b3 = ((b >> 32) & 0xff) as u8;
    let b4 = ((b >> 24) & 0xff) as u8;
    let b5 = ((b >> 16) & 0xff) as u8;
    let b6 = ((b >> 8) & 0xff) as u8;
    let b7 = (b & 0xff) as u8;
    assert(seq![a7].skip(1) =~= Seq::<u8>::empty());
    assert(seq![b7].skip(1) =~= Seq::<u8>::empty());
    assert(!lex_lt(Seq::<u8>::empty(), Seq::<u8>::empty()));
    assert(lex_lt(seq![a7], seq![b7]) == (a7 < b7));
    assert(seq![a6, a7].skip(1) =~= seq![a7]);
    assert(seq![b6, b7].skip(1) =~= seq![b7]);
    assert(lex_lt(seq![a6, a7], seq![b6, b7]) == (a6 < b6 || (a6 == b6 && a7 < b7)));
    assert(seq![a5, a6, a7].skip(1) =~= seq![a6, a7]);
    assert(seq![b5, b6, b7].skip(1) =~= seq![b6, b7]);
    assert(lex_lt(seq![a5, a6, a7], seq![b5, b6, b7]) == (a5 < b5 || (a5 == b5 && (a6 < b6 || (
    a6 == b6 && a7 < b7)))));
    assert(seq![a4, a5, a6, a7].skip(1) =~= seq![a5, a6, a7]);
    assert(seq![b4, b5, b6, b7].skip(1) =~= seq![b5, b6, b7]);
    assert(lex_lt(seq![a4, a5, a6, a7], seq![b4, b5, b6, b7]) == (a4 < b4 || (a4 == b4 && (a5
        < b5 || (a5 == b5 && (a6 < b6 || (a6 == b6 && a7 < b7)))))));
    assert(seq![a3, a4, a5, a6, a7].skip(1) =~= seq![a4, a5, a6, a7]);
    assert(seq![b3, b4, b5, b6, b7].skip(1) =~= seq![b4, b5, b6, b7]);
    assert(lex_lt(seq![a3, a4, a5, a6, a7], seq![b3, b4, b5, b6, b7]) == (a3 < b3 || (a3 == b3
        && (a4 < b4 || (a4 == b4 && (a5 < b5 || (a5 == b5 && (a6 < b6 || (a6 == b6 && a7
        < b7)))))))));
    assert(seq![a2, a3, a4, a5, a6, a7].skip(1) =~= seq![a3, a4, a5, a6, a7]);
    assert(seq![b2, b3, b4, b5, b6, b7].skip(1) =~= seq![b3, b4, b5, b6, b7]);
    assert(lex_lt(seq![a2, a3, a4, a5, a6, a7], seq![b2, b3, b4, b5, b6, b7]) == (a2 < b2 || (
    a2 == b2 && (a3 < b3 || (a3 == b3 && (a4 < b4 || (a4 == b4 && (a5 < b5 || (a5 == b5 && (a6
        < b6 || (a6 == b6 && a7 < b7)))))))))));
    assert(seq![a1, a2, a3, a4, a5, a6, a7].skip(1) =~= seq![a2, a3, a4, a5, a6, a7]);
    assert(seq![b1, b2, b3, b4, b5, b6, b7].skip(1) =~= seq![b2, b3, b4, b5, b6, b7]);
    assert(lex_lt(seq![a1, a2, a3, a4, a5, a6, a7], seq![b1, b2, b3, b4, b5, b6, b7]) == (a1
        < b1 || (a1 == b1 && (a2 < b2 || (a2 == b2 && (a3 < b3 || (a3 == b3 && (a4 < b4 || (a4
        == b4 && (a5 < b5 || (a5 == b5 && (a6 < b6 || (a6 == b6 && a7 < b7)))))))))))));
    assert(be8_of(a).skip(1) =~= seq![a1, a2, a3, a4, a5, a6, a7]);
    assert(be8_of(b).skip(1) =~= seq![b1, b2, b3, b4, b5, b6, b7]);
    assert(lex_lt(be8_of(a), be8_of(b)) == (a0 < b0 || (a0 == b0 && (a1 < b1 || (a1 == b1 && (
    a2 < b2 || (a2 == b2 && (a3 < b3 || (a3 == b3 && (a4 < b4 || (a4 == b4 && (a5 < b5 || (a5
        == b5 && (a6 < b6 || (a6 == b6 && a7 < b7)))))))))))))));
    assert({
        let xa0 = ((a >> 56) & 0xff) as u8;
        let xa1 = ((a >> 48) & 0xff) as u8;
        let xa2 = ((a >> 40) & 0xff) as u8;
        let xa3 = ((a >> 32) & 0xff) as u8;
        let xa4 = ((a >> 24) & 0xff) as u8;
        let xa5 = ((a >> 16) & 0xff) as u8;
        let xa6 = ((a >> 8) & 0xff) as u8;
        let xa7 = (a & 0xff) as u8;
        let xb0 = ((b >> 56) & 0xff) as u8;
        let xb1 = ((b >> 48) & 0xff) as u8;
        let xb2 = ((b >> 40) & 0xff) as u8;
        let xb3 = ((b >> 32) & 0xff) as u8;
        let xb4 = ((b >> 24) & 0xff) as u8;
        let xb5 = ((b >> 16) & 0xff) as u8;
        let xb6 = ((b >> 8) & 0xff) as u8;
        let xb7 = (b & 0xff) as u8;
        (xa0 < xb0 || (xa0 == xb0 && (xa1 < xb1 || (xa1 == xb1 && (xa2 < xb2 || (xa2 == xb2 && (
        xa3 < xb3 || (xa3 == xb3 && (xa4 < xb4 || (xa4 == xb4 && (xa5 < xb5 || (xa5 == xb5 && (
        xa6 < xb6 || (xa6 == xb6 && xa7 < xb7)))))))))))))) <==> a < b
    }) by (bit_vector);
}

/// Keys that begin with the 8 bytes of `p` are exactly those in the
/// half-open window from `be8_of(p)` up to `be8_of(p + 1)`.
pub proof fn lemma_child_window(p: u64, k: Seq<u8>)
    requires
        k.len() >= 8,
        p < u64::MAX,
    ensures
        (lex_le(be8_of(p), k) && lex_lt(k, be8_of((p + 1) as u64))) <==> k.take(8) == be8_of(p),
{
    let bp = be8_of(p);
    let bq = be8_of((p + 1) as u64);
    let k8 = k.take(8);
    let rest = k.skip(8);
    lemma_lex_decompose(bp, k, 8);
    lemma_lex_decompose(k, bq, 8);
    assert(bp.take(8) =~= bp);
    assert(bq.take(8) =~= bq);
    assert(bp.skip(8) =~= Seq::<u8>::empty());
    assert(bq.skip(8) =~= Seq::<u8>::empty());
    assert(!lex_lt(rest, Seq::<u8>::empty()));
    let m = num64_of(k8);
    lemma_be8_inverse(k8);
    lemma_lex8_num(m, (p + 1) as u64);
    lemma_lex8_num(p, m);
    lemma_lex8_num(p, (p + 1) as u64);
    lemma_be8_roundtrip(p);
    lemma_be8_roundtrip((p + 1) as u64);
    if k8 == bp {
        assert(lex_lt(k, bq));
        if k.len() == 8 {
            assert(k =~= k8);
            assert(lex_le(bp, k));
        } else {
            assert(lex_lt(rest, Seq::<u8>::empty()) == false);
            assert(lex_lt(Seq::<u8>::empty(), rest));
            assert(lex_lt(bp, k));
        }
    } else {
        assert(m != p);
        if lex_le(bp, k) && lex_lt(k, bq) {
            assert(lex_lt(k8, bq));
            assert(m < p + 1);
            if bp == k {
                assert(k8 =~= bp);
            } else {
                assert(lex_lt(bp, k));
                assert(lex_lt(bp, k8));
                assert(p < m);
            }
        }
    }
}

} // verus!
