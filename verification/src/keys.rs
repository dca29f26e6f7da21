//! Order-preserving key encodings.
//!
//! The substrate orders entries by lexicographic byte order, so every
//! key encoding must map the semantic order of a value kind onto byte
//! order. Object ids and integer index components are encoded as
//! sign-flipped big-endian 64-bit words; a leading flag byte makes null
//! sort before every non-null value of the same kind.

use vstd::prelude::*;

verus! {

/// Strict lexicographic order on byte sequences: a proper prefix sorts
/// before every extension of it.
pub open spec fn lex_lt(a: Seq<u8>, b: Seq<u8>) -> bool
    decreases a.len(),
{
    if b.len() == 0 {
        false
    } else if a.len() == 0 {
        true
    } else if a[0] < b[0] {
        true
    } else if a[0] > b[0] {
        false
    } else {
        lex_lt(a.skip(1), b.skip(1))
    }
}

/// Non-strict lexicographic order.
pub open spec fn lex_le(a: Seq<u8>, b: Seq<u8>) -> bool {
    lex_lt(a, b) || a == b
}

pub proof fn lemma_lex_lt_irrefl(a: Seq<u8>)
    ensures
        !lex_lt(a, a),
    decreases a.len(),
{
    if a.len() > 0 {
        lemma_lex_lt_irrefl(a.skip(1));
    }
}

pub proof fn lemma_lex_lt_trans(a: Seq<u8>, b: Seq<u8>, c: Seq<u8>)
    requires
        lex_lt(a, b),
        lex_lt(b, c),
    ensures
        lex_lt(a, c),
    decreases a.len(),
{
    if a.len() > 0 && b.len() > 0 && c.len() > 0 {
        if a[0] == b[0] && b[0] == c[0] {
            lemma_lex_lt_trans(a.skip(1), b.skip(1), c.skip(1));
        }
    }
}

pub proof fn lemma_lex_lt_total(a: Seq<u8>, b: Seq<u8>)
    ensures
        lex_lt(a, b) || lex_lt(b, a) || a == b,
    decreases a.len(),
{
    if a.len() == 0 && b.len() == 0 {
        assert(a =~= b);
    } else if a.len() > 0 && b.len() > 0 && a[0] == b[0] {
        lemma_lex_lt_total(a.skip(1), b.skip(1));
        if a.skip(1) == b.skip(1) {
            assert forall|i: int| 0 <= i < a.len() implies a[i] == b[i] by {
                if i > 0 {
                    assert(a[i] == a.skip(1)[i - 1]);
                    assert(b[i] == b.skip(1)[i - 1]);
                }
            }
            assert(a.skip(1).len() == b.skip(1).len());
            assert(a.len() == b.len());
            assert(a =~= b);
        }
    }
}

pub proof fn lemma_lex_lt_asym(a: Seq<u8>, b: Seq<u8>)
    requires
        lex_lt(a, b),
    ensures
        !lex_lt(b, a),
{
    if lex_lt(b, a) {
        lemma_lex_lt_trans(a, b, a);
        lemma_lex_lt_irrefl(a);
    }
}

/// Prepending one equal byte to both sides keeps their order.
pub proof fn lemma_lex_lt_prepend(h: u8, a: Seq<u8>, b: Seq<u8>)
    ensures
        lex_lt(seq![h] + a, seq![h] + b) == lex_lt(a, b),
{
    let x = seq![h] + a;
    let y = seq![h] + b;
    assert(x.skip(1) =~= a);
    assert(y.skip(1) =~= b);
}

/// Compares two byte strings; true iff `a` sorts strictly before `b`.
pub fn bytes_lt(a: &[u8], b: &[u8]) -> (r: bool)
    ensures
        r == lex_lt(a@, b@),
{
    let la: usize = a.len();
    let lb: usize = b.len();
    let mut i: usize = 0;
    proof {
        assert(a@.skip(0) =~= a@);
        assert(b@.skip(0) =~= b@);
    }
    while i < la && i < lb
        invariant
            i <= la,
            i <= lb,
            la == a@.len(),
            lb == b@.len(),
            lex_lt(a@, b@) == lex_lt(a@.skip(i as int), b@.skip(i as int)),
        decreases la - i,
    {
        let x = a[i];
        let y = b[i];
        proof {
            assert(a@.skip(i as int)[0] == a@[i as int]);
            assert(b@.skip(i as int)[0] == b@[i as int]);
        }
        if x < y {
            return true;
        }
        if x > y {
            return false;
        }
        proof {
            assert(a@.skip(i as int).skip(1) =~= a@.skip(i as int + 1));
            assert(b@.skip(i as int).skip(1) =~= b@.skip(i as int + 1));
        }
        i = i + 1;
    }
    proof {
        assert(a@.skip(i as int).len() == la - i);
        assert(b@.skip(i as int).len() == lb - i);
    }
    la < lb
}

/// True iff `a` sorts no later than `b`.
pub fn bytes_le(a: &[u8], b: &[u8]) -> (r: bool)
    ensures
        r == lex_le(a@, b@),
{
    let r = !bytes_lt(b, a);
    proof {
        lemma_lex_lt_total(a@, b@);
        if lex_lt(a@, b@) {
            lemma_lex_lt_asym(a@, b@);
        }
        if a@ == b@ {
            lemma_lex_lt_irrefl(a@);
        }
    }
    r
}

/// Byte-string equality.
pub fn bytes_eq(a: &[u8], b: &[u8]) -> (r: bool)
    ensures
        r == (a@ == b@),
{
    let la: usize = a.len();
    let lb: usize = b.len();
    if la != lb {
        return false;
    }
    let mut i: usize = 0;
    while i < la
        invariant
            i <= la,
            la == a@.len(),
            la == b@.len(),
            forall|j: int| 0 <= j < i ==> a@[j] == b@[j],
        decreases la - i,
    {
        if a[i] != b[i] {
            return false;
        }
        i = i + 1;
    }
    proof {
        assert(a@ =~= b@);
    }
    true
}

/// The eight big-endian bytes of a 64-bit word.
pub open spec fn be64(x: u64) -> Seq<u8> {
    seq![
        (x >> 56) as u8,
        (x >> 48) as u8,
        (x >> 40) as u8,
        (x >> 32) as u8,
        (x >> 24) as u8,
        (x >> 16) as u8,
        (x >> 8) as u8,
        x as u8,
    ]
}

/// Maps a signed 64-bit value onto an unsigned one so that unsigned
/// order equals signed order (the sign bit is flipped).
pub open spec fn flip64(x: i64) -> u64 {
    (x as u64) ^ 0x8000_0000_0000_0000
}

/// The key bytes of an object id.
pub open spec fn id_key(id: i64) -> Seq<u8> {
    be64(flip64(id))
}

proof fn lemma_flip64_order(x: i64, y: i64)
    ensures
        (flip64(x) < flip64(y)) <==> x < y,
{
    assert((((x as u64) ^ 0x8000_0000_0000_0000) < ((y as u64) ^ 0x8000_0000_0000_0000)) <==> x
        < y) by (bit_vector);
}

/// Lexicographic order over eight big-endian bytes is numeric order.
pub proof fn lemma_be64_order(x: u64, y: u64)
    ensures
        lex_lt(be64(x), be64(y)) <==> x < y,
{
    let a = be64(x);
    let b = be64(y);
    let a1 = a.skip(1);
    let b1 = b.skip(1);
    let a2 = a1.skip(1);
    let b2 = b1.skip(1);
    let a3 = a2.skip(1);
    let b3 = b2.skip(1);
    let a4 = a3.skip(1);
    let b4 = b3.skip(1);
    let a5 = a4.skip(1);
    let b5 = b4.skip(1);
    let a6 = a5.skip(1);
    let b6 = b5.skip(1);
    let a7 = a6.skip(1);
    let b7 = b6.skip(1);
    assert(a7.len() == 1 && b7.len() == 1);
    assert(a7[0] == a[7] && b7[0] == b[7]);
    assert(a6[0] == a[6] && b6[0] == b[6]);
    assert(a5[0] == a[5] && b5[0] == b[5]);
    assert(a4[0] == a[4] && b4[0] == b[4]);
    assert(a3[0] == a[3] && b3[0] == b[3]);
    assert(a2[0] == a[2] && b2[0] == b[2]);
    assert(a1[0] == a[1] && b1[0] == b[1]);
    assert(a7.skip(1).len() == 0 && b7.skip(1).len() == 0);
    assert(!lex_lt(a7.skip(1), b7.skip(1)));
    assert(lex_lt(a7, b7) <==> a[7] < b[7]);
    assert(lex_lt(a6, b6) <==> a[6] < b[6] || (a[6] == b[6] && a[7] < b[7]));
    assert(lex_lt(a5, b5) <==> a[5] < b[5] || (a[5] == b[5] && lex_lt(a6, b6)));
    assert(lex_lt(a4, b4) <==> a[4] < b[4] || (a[4] == b[4] && lex_lt(a5, b5)));
    assert(lex_lt(a3, b3) <==> a[3] < b[3] || (a[3] == b[3] && lex_lt(a4, b4)));
    assert(lex_lt(a2, b2) <==> a[2] < b[2] || (a[2] == b[2] && lex_lt(a3, b3)));
    assert(lex_lt(a1, b1) <==> a[1] < b[1] || (a[1] == b[1] && lex_lt(a2, b2)));
    assert(lex_lt(a, b) <==> a[0] < b[0] || (a[0] == b[0] && lex_lt(a1, b1)));
    assert(lex_lt(a, b) <==> (a[0] < b[0]) || (a[0] == b[0] && a[1] < b[1]) || (a[0] == b[0] && a[1]
        == b[1] && a[2] < b[2]) || (a[0] == b[0] && a[1] == b[1] && a[2] == b[2] && a[3] < b[3]) || (
    a[0] == b[0] && a[1] == b[1] && a[2] == b[2] && a[3] == b[3] && a[4] < b[4]) || (a[0] == b[0]
        && a[1] == b[1] && a[2] == b[2] && a[3] == b[3] && a[4] == b[4] && a[5] < b[5]) || (a[0]
        == b[0] && a[1] == b[1] && a[2] == b[2] && a[3] == b[3] && a[4] == b[4] && a[5] == b[5]
        && a[6] < b[6]) || (a[0] == b[0] && a[1] == b[1] && a[2] == b[2] && a[3] == b[3] && a[4]
        == b[4] && a[5] == b[5] && a[6] == b[6] && a[7] < b[7]));
    let x0 = a[0];
    let x1 = a[1];
    let x2 = a[2];
    let x3 = a[3];
    let x4 = a[4];
    let x5 = a[5];
    let x6 = a[6];
    let x7 = a[7];
    let y0 = b[0];
    let y1 = b[1];
    let y2 = b[2];
    let y3 = b[3];
    let y4 = b[4];
    let y5 = b[5];
    let y6 = b[6];
    let y7 = b[7];
    assert((x0 < y0) || (x0 == y0 && x1 < y1) || (x0 == y0 && x1 == y1 && x2 < y2) || (x0 == y0
        && x1 == y1 && x2 == y2 && x3 < y3) || (x0 == y0 && x1 == y1 && x2 == y2 && x3 == y3 && x4
        < y4) || (x0 == y0 && x1 == y1 && x2 == y2 && x3 == y3 && x4 == y4 && x5 < y5) || (x0 == y0
        && x1 == y1 && x2 == y2 && x3 == y3 && x4 == y4 && x5 == y5 && x6 < y6) || (x0 == y0 && x1
        == y1 && x2 == y2 && x3 == y3 && x4 == y4 && x5 == y5 && x6 == y6 && x7 < y7) <==> x
        < y) by {
        assert((((x >> 56) as u8) < ((y >> 56) as u8)) || (((x >> 56) as u8) == ((y >> 56) as u8)
            && ((x >> 48) as u8) < ((y >> 48) as u8)) || (((x >> 56) as u8) == ((y >> 56) as u8)
            && ((x >> 48) as u8) == ((y >> 48) as u8) && ((x >> 40) as u8) < ((y >> 40) as u8)) || (
        ((x >> 56) as u8) == ((y >> 56) as u8) && ((x >> 48) as u8) == ((y >> 48) as u8) && ((x
            >> 40) as u8) == ((y >> 40) as u8) && ((x >> 32) as u8) < ((y >> 32) as u8)) || (((x
            >> 56) as u8) == ((y >> 56) as u8) && ((x >> 48) as u8) == ((y >> 48) as u8) && ((x
            >> 40) as u8) == ((y >> 40) as u8) && ((x >> 32) as u8) == ((y >> 32) as u8) && ((x
            >> 24) as u8) < ((y >> 24) as u8)) || (((x >> 56) as u8) == ((y >> 56) as u8) && ((x
            >> 48) as u8) == ((y >> 48) as u8) && ((x >> 40) as u8) == ((y >> 40) as u8) && ((x
            >> 32) as u8) == ((y >> 32) as u8) && ((x >> 24) as u8) == ((y >> 24) as u8) && ((x
            >> 16) as u8) < ((y >> 16) as u8)) || (((x >> 56) as u8) == ((y >> 56) as u8) && ((x
            >> 48) as u8) == ((y >> 48) as u8) && ((x >> 40) as u8) == ((y >> 40) as u8) && ((x
            >> 32) as u8) == ((y >> 32) as u8) && ((x >> 24) as u8) == ((y >> 24) as u8) && ((x
            >> 16) as u8) == ((y >> 16) as u8) && ((x >> 8) as u8) < ((y >> 8) as u8)) || (((x
            >> 56) as u8) == ((y >> 56) as u8) && ((x >> 48) as u8) == ((y >> 48) as u8) && ((x
            >> 40) as u8) == ((y >> 40) as u8) && ((x >> 32) as u8) == ((y >> 32) as u8) && ((x
            >> 24) as u8) == ((y >> 24) as u8) && ((x >> 16) as u8) == ((y >> 16) as u8) && ((x
            >> 8) as u8) == ((y >> 8) as u8) && (x as u8) < (y as u8)) <==> x < y) by (bit_vector);
    }
}

/// Index-order law for object ids: id keys sort exactly as the ids do.
pub proof fn lemma_id_key_order(x: i64, y: i64)
    ensures
        lex_lt(id_key(x), id_key(y)) <==> x < y,
{
    lemma_flip64_order(x, y);
    lemma_be64_order(flip64(x), flip64(y));
}

/// Equal keys decode to equal ids.
pub proof fn lemma_id_key_injective(x: i64, y: i64)
    requires
        id_key(x) == id_key(y),
    ensures
        x == y,
{
    if x < y {
        lemma_id_key_order(x, y);
        lemma_lex_lt_irrefl(id_key(x));
    }
    if y < x {
        lemma_id_key_order(y, x);
        lemma_lex_lt_irrefl(id_key(x));
    }
}

/// Writes the big-endian bytes of `x` onto the end of `out`.
pub fn push_be64(out: &mut Vec<u8>, x: u64)
    ensures
        final(out)@ == old(out)@ + be64(x),
{
    out.push((x >> 56) as u8);
    out.push((x >> 48) as u8);
    out.push((x >> 40) as u8);
    out.push((x >> 32) as u8);
    out.push((x >> 24) as u8);
    out.push((x >> 16) as u8);
    out.push((x >> 8) as u8);
    out.push(x as u8);
    proof {
        assert(out@ =~= old(out)@ + be64(x));
    }
}

/// The 64-bit word whose big-endian bytes are the first eight of `s`.
pub open spec fn u64_from(s: Seq<u8>) -> u64 {
    (s[0] as u64) << 56 | (s[1] as u64) << 48 | (s[2] as u64) << 40 | (s[3] as u64) << 32 | (
    s[4] as u64) << 24 | (s[5] as u64) << 16 | (s[6] as u64) << 8 | (s[7] as u64)
}

/// Reading back the big-endian bytes of a word yields the word.
pub proof fn lemma_u64_from_be64(x: u64)
    ensures
        u64_from(be64(x)) == x,
{
    assert((((x >> 56) as u8) as u64) << 56 | (((x >> 48) as u8) as u64) << 48 | (((x
        >> 40) as u8) as u64) << 40 | (((x >> 32) as u8) as u64) << 32 | (((x >> 24) as u8) as u64)
        << 24 | (((x >> 16) as u8) as u64) << 16 | (((x >> 8) as u8) as u64) << 8 | ((
    x as u8) as u64) == x) by (bit_vector);
}

/// Reassembles the 64-bit word whose big-endian bytes are
/// `b[at .. at + 8]`.
pub fn read_be64(b: &[u8], at: usize) -> (r: u64)
    requires
        at + 8 <= b@.len(),
    ensures
        be64(r) == b@.subrange(at as int, at as int + 8),
        r == u64_from(b@.subrange(at as int, at as int + 8)),
{
    let r: u64 = (b[at] as u64) << 56 | (b[at + 1] as u64) << 48 | (b[at + 2] as u64) << 40 | (b[at
        + 3] as u64) << 32 | (b[at + 4] as u64) << 24 | (b[at + 5] as u64) << 16 | (b[at
        + 6] as u64) << 8 | (b[at + 7] as u64);
    proof {
        let b0 = b@[at as int];
        let b1 = b@[at as int + 1];
        let b2 = b@[at as int + 2];
        let b3 = b@[at as int + 3];
        let b4 = b@[at as int + 4];
        let b5 = b@[at as int + 5];
        let b6 = b@[at as int + 6];
        let b7 = b@[at as int + 7];
        assert((((b0 as u64) << 56 | (b1 as u64) << 48 | (b2 as u64) << 40 | (b3 as u64) << 32 | (
        b4 as u64) << 24 | (b5 as u64) << 16 | (b6 as u64) << 8 | (b7 as u64)) >> 56) as u8 == b0)
            by (bit_vector);
        assert((((b0 as u64) << 56 | (b1 as u64) << 48 | (b2 as u64) << 40 | (b3 as u64) << 32 | (
        b4 as u64) << 24 | (b5 as u64) << 16 | (b6 as u64) << 8 | (b7 as u64)) >> 48) as u8 == b1)
            by (bit_vector);
        assert((((b0 as u64) << 56 | (b1 as u64) << 48 | (b2 as u64) << 40 | (b3 as u64) << 32 | (
        b4 as u64) << 24 | (b5 as u64) << 16 | (b6 as u64) << 8 | (b7 as u64)) >> 40) as u8 == b2)
            by (bit_vector);
        assert((((b0 as u64) << 56 | (b1 as u64) << 48 | (b2 as u64) << 40 | (b3 as u64) << 32 | (
        b4 as u64) << 24 | (b5 as u64) << 16 | (b6 as u64) << 8 | (b7 as u64)) >> 32) as u8 == b3)
            by (bit_vector);
        assert((((b0 as u64) << 56 | (b1 as u64) << 48 | (b2 as u64) << 40 | (b3 as u64) << 32 | (
        b4 as u64) << 24 | (b5 as u64) << 16 | (b6 as u64) << 8 | (b7 as u64)) >> 24) as u8 == b4)
            by (bit_vector);
        assert((((b0 as u64) << 56 | (b1 as u64) << 48 | (b2 as u64) << 40 | (b3 as u64) << 32 | (
        b4 as u64) << 24 | (b5 as u64) << 16 | (b6 as u64) << 8 | (b7 as u64)) >> 16) as u8 == b5)
            by (bit_vector);
        assert((((b0 as u64) << 56 | (b1 as u64) << 48 | (b2 as u64) << 40 | (b3 as u64) << 32 | (
        b4 as u64) << 24 | (b5 as u64) << 16 | (b6 as u64) << 8 | (b7 as u64)) >> 8) as u8 == b6)
            by (bit_vector);
        assert(((b0 as u64) << 56 | (b1 as u64) << 48 | (b2 as u64) << 40 | (b3 as u64) << 32 | (
        b4 as u64) << 24 | (b5 as u64) << 16 | (b6 as u64) << 8 | (b7 as u64)) as u8 == b7)
            by (bit_vector);
        assert(be64(r) =~= b@.subrange(at as int, at as int + 8));
        lemma_u64_from_be64(r);
    }
    r
}

/// The sign flip, executed.
pub fn flip_i64(x: i64) -> (r: u64)
    ensures
        r == flip64(x),
{
    (x as u64) ^ 0x8000_0000_0000_0000
}

/// The inverse of the sign flip.
pub fn unflip_u64(x: u64) -> (r: i64)
    ensures
        flip64(r) == x,
{
    let r = (x ^ 0x8000_0000_0000_0000) as i64;
    proof {
        assert((((x ^ 0x8000_0000_0000_0000) as i64) as u64) ^ 0x8000_0000_0000_0000 == x)
            by (bit_vector);
    }
    r
}

/// Encodes an object id as its primary-store key.
pub fn encode_id(id: i64) -> (r: Vec<u8>)
    ensures
        r@ == id_key(id),
{
    let mut out: Vec<u8> = Vec::new();
    push_be64(&mut out, flip_i64(id));
    proof {
        assert(out@ =~= id_key(id));
    }
    out
}

/// Decodes a primary-store key back into an object id.
pub fn decode_id(b: &[u8]) -> (r: Result<i64, crate::error::IsarError>)
    ensures
        b@.len() == 8 ==> (r is Ok && id_key(r->Ok_0) == b@),
        b@.len() != 8 ==> r == Result::<i64, crate::error::IsarError>::Err(
            crate::error::IsarError::EncodingError,
        ),
{
    if b.len() != 8 {
        return Err(crate::error::IsarError::EncodingError);
    }
    let w = read_be64(b, 0);
    let id = unflip_u64(w);
    proof {
        assert(b@.subrange(0, 8) =~= b@);
    }
    Ok(id)
}

} // verus!
