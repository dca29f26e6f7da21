//! The object codec.
//!
//! An encoded object is self-describing: an eight-byte big-endian
//! property count, then one eight-byte big-endian offset per property
//! pointing at that property's payload, then the payloads. A payload is
//! a tag byte followed by the value's fixed- or length-prefixed data;
//! null is a tag of its own. The offset table lets a reader locate any
//! property without decoding the rest.

use crate::error::IsarError;
use crate::keys::{be64, lemma_u64_from_be64, push_be64, read_be64, u64_from};
use crate::value::{obj_view, opt_view, IsarValue, ValView};
use vstd::prelude::*;

verus! {

/// Payload tags.
pub open spec fn tag_of(v: Option<ValView>) -> u8 {
    match v {
        Option::None => 0,
        Option::Some(ValView::Bool(_)) => 1,
        Option::Some(ValView::Byte(_)) => 2,
        Option::Some(ValView::Int(_)) => 3,
        Option::Some(ValView::Long(_)) => 4,
        Option::Some(ValView::Text(_)) => 5,
    }
}

/// The payload bytes of one nullable value.
pub open spec fn enc_payload(v: Option<ValView>) -> Seq<u8> {
    match v {
        Option::None => seq![0u8],
        Option::Some(ValView::Bool(x)) => seq![
            1u8,
            if x {
                1u8
            } else {
                0u8
            },
        ],
        Option::Some(ValView::Byte(x)) => seq![2u8, x],
        Option::Some(ValView::Int(x)) => seq![3u8] + be64((x as i64) as u64),
        Option::Some(ValView::Long(x)) => seq![4u8] + be64(x as u64),
        Option::Some(ValView::Text(t)) => seq![5u8] + be64(t.len() as u64) + t,
    }
}

/// A value the codec can store: text must be short enough for its
/// length prefix and the offset arithmetic.
pub open spec fn val_wf(v: Option<ValView>) -> bool {
    match v {
        Option::Some(ValView::Text(t)) => t.len() < 0x0800_0000,
        _ => true,
    }
}

/// The concatenated payloads of the first `i` properties.
pub open spec fn catp(o: Seq<Option<ValView>>, i: int) -> Seq<u8>
    decreases i,
{
    if i <= 0 {
        Seq::empty()
    } else {
        catp(o, i - 1) + enc_payload(o[i - 1])
    }
}

/// The offset of property `i`'s payload within the encoded object.
pub open spec fn off_of(o: Seq<Option<ValView>>, i: int) -> int {
    8 + 8 * (o.len() as int) + (catp(o, i).len() as int)
}

/// The offset table over the first `i` properties.
pub open spec fn tbl(o: Seq<Option<ValView>>, i: int) -> Seq<u8>
    decreases i,
{
    if i <= 0 {
        Seq::empty()
    } else {
        tbl(o, i - 1) + be64(off_of(o, i - 1) as u64)
    }
}

/// The full encoding of an object.
pub open spec fn enc_obj(o: Seq<Option<ValView>>) -> Seq<u8> {
    be64(o.len() as u64) + tbl(o, o.len() as int) + catp(o, o.len() as int)
}

/// An object the codec can store.
pub open spec fn obj_wf(o: Seq<Option<ValView>>) -> bool {
    &&& o.len() <= 0xFFFF
    &&& (forall|i: int| 0 <= i < o.len() ==> val_wf(o[i]))
    &&& catp(o, o.len() as int).len() < 0x1000_0000
}

/// Decodes the payload at `at`, yielding the value and the position
/// just past it; `None` when the bytes are not a well-formed payload.
pub open spec fn spec_dec_payload(b: Seq<u8>, at: int) -> Option<(Option<ValView>, int)> {
    if !(0 <= at && at < b.len()) {
        Option::None
    } else {
        let tag = b[at];
        if tag == 0 {
            Option::Some((Option::None, at + 1))
        } else if tag == 1 {
            if at + 2 <= b.len() && (b[at + 1] == 0 || b[at + 1] == 1) {
                Option::Some((Option::Some(ValView::Bool(b[at + 1] == 1)), at + 2))
            } else {
                Option::None
            }
        } else if tag == 2 {
            if at + 2 <= b.len() {
                Option::Some((Option::Some(ValView::Byte(b[at + 1])), at + 2))
            } else {
                Option::None
            }
        } else if tag == 3 {
            if at + 9 <= b.len() {
                let w = u64_from(b.subrange(at + 1, at + 9));
                if -0x8000_0000 <= (w as i64) && (w as i64) <= 0x7FFF_FFFF {
                    Option::Some((Option::Some(ValView::Int((w as i64) as i32)), at + 9))
                } else {
                    Option::None
                }
            } else {
                Option::None
            }
        } else if tag == 4 {
            if at + 9 <= b.len() {
                let w = u64_from(b.subrange(at + 1, at + 9));
                Option::Some((Option::Some(ValView::Long(w as i64)), at + 9))
            } else {
                Option::None
            }
        } else if tag == 5 {
            if at + 9 <= b.len() {
                let n = u64_from(b.subrange(at + 1, at + 9)) as int;
                if at + 9 + n <= b.len() {
                    Option::Some(
                        (Option::Some(ValView::Text(b.subrange(at + 9, at + 9 + n))), at + 9 + n),
                    )
                } else {
                    Option::None
                }
            } else {
                Option::None
            }
        } else {
            Option::None
        }
    }
}

/// Reads property `i` of an encoded object: count, table entry, then
/// the payload the entry points at.
pub open spec fn spec_read_prop(b: Seq<u8>, i: int) -> Option<Option<ValView>> {
    if b.len() < 8 {
        Option::None
    } else {
        let n = u64_from(b.subrange(0, 8)) as int;
        if !(0 <= i && i < n) || b.len() < 8 + 8 * n {
            Option::None
        } else {
            let off = u64_from(b.subrange(8 + 8 * i, 16 + 8 * i)) as int;
            match spec_dec_payload(b, off) {
                Option::Some((v, _)) => Option::Some(v),
                Option::None => Option::None,
            }
        }
    }
}

/// The stored property count of an encoded object.
pub open spec fn spec_prop_count(b: Seq<u8>) -> Option<int> {
    if b.len() < 8 {
        Option::None
    } else {
        Option::Some(u64_from(b.subrange(0, 8)) as int)
    }
}

/// Round-trip law at the payload level: decoding an encoded value at
/// its position yields the value and consumes exactly its bytes.
pub proof fn lemma_value_round_trip(b: Seq<u8>, at: int, v: Option<ValView>)
    requires
        val_wf(v),
        0 <= at,
        at + enc_payload(v).len() <= b.len(),
        b.subrange(at, at + enc_payload(v).len()) == enc_payload(v),
    ensures
        spec_dec_payload(b, at) == Option::Some((v, at + enc_payload(v).len())),
{
    let e = enc_payload(v);
    let l = e.len() as int;
    assert(b.subrange(at, at + l)[0] == b[at]);
    match v {
        Option::None => {}
        Option::Some(ValView::Bool(x)) => {
            assert(b.subrange(at, at + l)[1] == b[at + 1]);
        }
        Option::Some(ValView::Byte(x)) => {
            assert(b.subrange(at, at + l)[1] == b[at + 1]);
        }
        Option::Some(ValView::Int(x)) => {
            assert(b.subrange(at + 1, at + 9) =~= b.subrange(at, at + l).subrange(1, 9));
            assert(b.subrange(at + 1, at + 9) =~= be64((x as i64) as u64));
            lemma_u64_from_be64((x as i64) as u64);
            assert((((x as i64) as u64) as i64) == (x as i64) && -0x8000_0000 <= (x as i64) && (
            x as i64) <= 0x7FFF_FFFF && ((x as i64) as i32) == x) by (bit_vector);
        }
        Option::Some(ValView::Long(x)) => {
            assert(b.subrange(at + 1, at + 9) =~= b.subrange(at, at + l).subrange(1, 9));
            assert(b.subrange(at + 1, at + 9) =~= be64(x as u64));
            lemma_u64_from_be64(x as u64);
            assert(((x as u64) as i64) == x) by (bit_vector);
        }
        Option::Some(ValView::Text(t)) => {
            let n = t.len() as u64;
            assert(b.subrange(at + 1, at + 9) =~= b.subrange(at, at + l).subrange(1, 9));
            assert(b.subrange(at + 1, at + 9) =~= be64(n));
            lemma_u64_from_be64(n);
            assert(b.subrange(at + 9, at + 9 + t.len()) =~= b.subrange(at, at + l).subrange(
                9,
                9 + t.len() as int,
            ));
            assert(b.subrange(at + 9, at + 9 + t.len()) =~= t);
        }
    }
}

proof fn lemma_tbl_len(o: Seq<Option<ValView>>, i: int)
    requires
        0 <= i,
    ensures
        tbl(o, i).len() == 8 * i,
    decreases i,
{
    if i > 0 {
        lemma_tbl_len(o, i - 1);
    }
}

proof fn lemma_catp_len_mono(o: Seq<Option<ValView>>, j: int, k: int)
    requires
        0 <= j <= k,
    ensures
        catp(o, j).len() <= catp(o, k).len(),
    decreases k,
{
    if j < k {
        lemma_catp_len_mono(o, j, k - 1);
    }
}

proof fn lemma_tbl_index(o: Seq<Option<ValView>>, k: int, i: int)
    requires
        0 <= i < k,
    ensures
        tbl(o, k).len() == 8 * k,
        tbl(o, k).subrange(8 * i, 8 * i + 8) == be64(off_of(o, i) as u64),
    decreases k,
{
    lemma_tbl_len(o, k);
    lemma_tbl_len(o, k - 1);
    if i == k - 1 {
        assert(tbl(o, k).subrange(8 * i, 8 * i + 8) =~= be64(off_of(o, i) as u64));
    } else {
        lemma_tbl_index(o, k - 1, i);
        assert(tbl(o, k).subrange(8 * i, 8 * i + 8) =~= tbl(o, k - 1).subrange(8 * i, 8 * i + 8));
    }
}

proof fn lemma_catp_index(o: Seq<Option<ValView>>, k: int, i: int)
    requires
        0 <= i < k,
    ensures
        catp(o, k).subrange(catp(o, i).len() as int, catp(o, i + 1).len() as int) == enc_payload(
            o[i],
        ),
        catp(o, i + 1).len() == catp(o, i).len() + enc_payload(o[i]).len(),
    decreases k,
{
    if i == k - 1 {
        assert(catp(o, k).subrange(catp(o, i).len() as int, catp(o, i + 1).len() as int)
            =~= enc_payload(o[i]));
    } else {
        lemma_catp_index(o, k - 1, i);
        lemma_catp_len_mono(o, i + 1, k - 1);
        assert(catp(o, k).subrange(catp(o, i).len() as int, catp(o, i + 1).len() as int) =~= catp(
            o,
            k - 1,
        ).subrange(catp(o, i).len() as int, catp(o, i + 1).len() as int));
    }
}

/// Round-trip law at the object level: every property read from an
/// encoded object yields the value that was encoded, and the stored
/// count is the property count.
pub proof fn lemma_obj_round_trip(o: Seq<Option<ValView>>)
    requires
        obj_wf(o),
    ensures
        spec_prop_count(enc_obj(o)) == Option::Some(o.len() as int),
        forall|i: int|
            0 <= i < o.len() ==> spec_read_prop(enc_obj(o), i) == Option::Some(o[i]),
{
    let b = enc_obj(o);
    let n = o.len() as int;
    lemma_tbl_len(o, n);
    assert(b.len() == 8 + 8 * n + catp(o, n).len());
    assert(b.subrange(0, 8) =~= be64(o.len() as u64));
    lemma_u64_from_be64(o.len() as u64);
    assert(spec_prop_count(b) == Option::Some(n));
    assert forall|i: int| 0 <= i < o.len() implies spec_read_prop(b, i) == Option::Some(o[i]) by {
        lemma_tbl_index(o, n, i);
        assert(b.subrange(8 + 8 * i, 16 + 8 * i) =~= tbl(o, n).subrange(8 * i, 8 * i + 8));
        lemma_u64_from_be64(off_of(o, i) as u64);
        let off = off_of(o, i);
        lemma_catp_len_mono(o, i, n);
        lemma_catp_len_mono(o, i + 1, n);
        lemma_catp_index(o, n, i);
        let pl = enc_payload(o[i]).len() as int;
        assert(b.subrange(off, off + pl) =~= catp(o, n).subrange(
            catp(o, i).len() as int,
            catp(o, i + 1).len() as int,
        ));
        lemma_value_round_trip(b, off, o[i]);
    }
}

/// The byte size of one encoded payload.
fn payload_size(v: &Option<IsarValue>) -> (r: Option<u64>)
    ensures
        match r {
            Option::Some(s) => val_wf(opt_view(*v)) && s == enc_payload(opt_view(*v)).len(),
            Option::None => !val_wf(opt_view(*v)),
        },
{
    match v {
        Option::None => Some(1),
        Option::Some(IsarValue::Bool(_)) => Some(2),
        Option::Some(IsarValue::Byte(_)) => Some(2),
        Option::Some(IsarValue::Int(_)) => Some(9),
        Option::Some(IsarValue::Long(_)) => Some(9),
        Option::Some(IsarValue::Text(t)) => {
            if t.len() < 0x0800_0000 {
                Some(9 + t.len() as u64)
            } else {
                None
            }
        }
    }
}

/// Decides whether an object is storable.
pub fn check_obj(o: &Vec<Option<IsarValue>>) -> (r: bool)
    ensures
        r == obj_wf(obj_view(o@)),
{
    let ghost v = obj_view(o@);
    if o.len() > 0xFFFF {
        return false;
    }
    let mut size: u64 = 0;
    let mut i: usize = 0;
    while i < o.len()
        invariant
            i <= o@.len(),
            o@.len() <= 0xFFFF,
            v == obj_view(o@),
            v.len() == o@.len(),
            size == catp(v, i as int).len(),
            size <= i * 0x0800_0009,
            forall|j: int| 0 <= j < i ==> val_wf(v[j]),
        decreases o@.len() - i,
    {
        match payload_size(&o[i]) {
            Some(s) => {
                proof {
                    assert(v[i as int] == opt_view(o@[i as int]));
                }
                size = size + s;
            }
            None => {
                proof {
                    assert(v[i as int] == opt_view(o@[i as int]));
                }
                return false;
            }
        }
        i = i + 1;
    }
    size < 0x1000_0000
}

/// Encodes a whole object; fails only when the object is not storable.
pub fn encode_obj(o: &Vec<Option<IsarValue>>) -> (r: Result<Vec<u8>, IsarError>)
    ensures
        match r {
            Result::Ok(b) => obj_wf(obj_view(o@)) && b@ == enc_obj(obj_view(o@)),
            Result::Err(e) => !obj_wf(obj_view(o@)) && e == IsarError::EncodingError,
        },
{
    let ghost v = obj_view(o@);
    if !check_obj(o) {
        return Err(IsarError::EncodingError);
    }
    let n = o.len();
    let mut payloads: Vec<u8> = Vec::new();
    let mut offsets: Vec<u64> = Vec::new();
    let mut i: usize = 0;
    while i < n
        invariant
            i <= n,
            n == o@.len(),
            v == obj_view(o@),
            v.len() == o@.len(),
            obj_wf(v),
            payloads@ == catp(v, i as int),
            offsets@.len() == i,
            forall|j: int| 0 <= j < i ==> offsets@[j] == off_of(v, j) as u64,
        decreases n - i,
    {
        proof {
            lemma_catp_len_mono(v, i as int, v.len() as int);
            assert(v[i as int] == opt_view(o@[i as int]));
        }
        offsets.push(8 + 8 * (n as u64) + payloads.len() as u64);
        encode_value(&mut payloads, &o[i]);
        i = i + 1;
    }
    let mut out: Vec<u8> = Vec::new();
    push_be64(&mut out, n as u64);
    let mut j: usize = 0;
    while j < n
        invariant
            j <= n,
            n == o@.len(),
            v.len() == o@.len(),
            offsets@.len() == n,
            forall|k: int| 0 <= k < n ==> offsets@[k] == off_of(v, k) as u64,
            out@ == be64(n as u64) + tbl(v, j as int),
        decreases n - j,
    {
        push_be64(&mut out, offsets[j]);
        proof {
            assert(out@ =~= be64(n as u64) + tbl(v, j as int + 1));
        }
        j = j + 1;
    }
    push_bytes(&mut out, payloads.as_slice());
    proof {
        assert(out@ =~= enc_obj(v));
    }
    Ok(out)
}

/// Reads one property of an encoded object without decoding the rest.
pub fn read_prop(b: &[u8], i: usize) -> (r: Result<Option<IsarValue>, IsarError>)
    ensures
        match r {
            Result::Ok(v) => spec_read_prop(b@, i as int) == Option::Some(opt_view(v)),
            Result::Err(e) => spec_read_prop(b@, i as int) is None && e == IsarError::EncodingError,
        },
{
    let len = b.len();
    if len < 8 {
        return Err(IsarError::EncodingError);
    }
    let n64 = read_be64(b, 0);
    proof {
        assert(b@.subrange(0, 8) == b@.subrange(0, 8));
    }
    if (i as u64) >= n64 {
        return Err(IsarError::EncodingError);
    }
    if n64 >= 0x2000_0000_0000_0000 {
        proof {
            assert(b@.len() <= usize::MAX < 8 + 8 * (n64 as int));
        }
        return Err(IsarError::EncodingError);
    }
    if ((len - 8) as u64) < 8 * n64 {
        return Err(IsarError::EncodingError);
    }
    let off64 = read_be64(b, 8 + 8 * i);
    if off64 >= len as u64 {
        proof {
            assert(spec_dec_payload(b@, off64 as int) is None);
        }
        return Err(IsarError::EncodingError);
    }
    match decode_value(b, off64 as usize) {
        Ok(p) => Ok(p.0),
        Err(e) => Err(e),
    }
}

/// The property count stored in an encoded object.
pub fn prop_count(b: &[u8]) -> (r: Result<u64, IsarError>)
    ensures
        match r {
            Result::Ok(n) => spec_prop_count(b@) == Option::Some(n as int),
            Result::Err(e) => spec_prop_count(b@) is None && e == IsarError::EncodingError,
        },
{
    if b.len() < 8 {
        return Err(IsarError::EncodingError);
    }
    Ok(read_be64(b, 0))
}

/// Appends a byte string.
pub fn push_bytes(out: &mut Vec<u8>, s: &[u8])
    ensures
        final(out)@ == old(out)@ + s@,
{
    let mut i: usize = 0;
    while i < s.len()
        invariant
            i <= s@.len(),
            out@ == old(out)@ + s@.take(i as int),
        decreases s@.len() - i,
    {
        out.push(s[i]);
        proof {
            assert(out@ =~= old(out)@ + s@.take(i as int + 1));
        }
        i = i + 1;
    }
    proof {
        assert(out@ =~= old(out)@ + s@);
    }
}

/// Copies `b[from .. to]` out into an owned buffer.
pub fn copy_range(b: &[u8], from: usize, to: usize) -> (r: Vec<u8>)
    requires
        from <= to,
        to <= b@.len(),
    ensures
        r@ == b@.subrange(from as int, to as int),
{
    let mut out: Vec<u8> = Vec::new();
    let mut i: usize = from;
    while i < to
        invariant
            from <= i <= to,
            to <= b@.len(),
            out@ == b@.subrange(from as int, i as int),
        decreases to - i,
    {
        out.push(b[i]);
        proof {
            assert(out@ =~= b@.subrange(from as int, i as int + 1));
        }
        i = i + 1;
    }
    out
}

/// Appends the payload of one nullable value.
pub fn encode_value(out: &mut Vec<u8>, v: &Option<IsarValue>)
    ensures
        final(out)@ == old(out)@ + enc_payload(opt_view(*v)),
{
    match v {
        Option::None => {
            out.push(0);
            proof {
                assert(out@ =~= old(out)@ + enc_payload(opt_view(*v)));
            }
        }
        Option::Some(IsarValue::Bool(x)) => {
            out.push(1);
            out.push(
                if *x {
                    1
                } else {
                    0
                },
            );
            proof {
                assert(out@ =~= old(out)@ + enc_payload(opt_view(*v)));
            }
        }
        Option::Some(IsarValue::Byte(x)) => {
            out.push(2);
            out.push(*x);
            proof {
                assert(out@ =~= old(out)@ + enc_payload(opt_view(*v)));
            }
        }
        Option::Some(IsarValue::Int(x)) => {
            out.push(3);
            push_be64(out, (*x as i64) as u64);
            proof {
                assert(out@ =~= old(out)@ + enc_payload(opt_view(*v)));
            }
        }
        Option::Some(IsarValue::Long(x)) => {
            out.push(4);
            push_be64(out, *x as u64);
            proof {
                assert(out@ =~= old(out)@ + enc_payload(opt_view(*v)));
            }
        }
        Option::Some(IsarValue::Text(t)) => {
            out.push(5);
            push_be64(out, t.len() as u64);
            push_bytes(out, t.as_slice());
            proof {
                assert(out@ =~= old(out)@ + enc_payload(opt_view(*v)));
            }
        }
    }
}

/// Decodes the payload at `at`, returning the value and the position
/// just past it.
pub fn decode_value(b: &[u8], at: usize) -> (r: Result<(Option<IsarValue>, usize), IsarError>)
    ensures
        match r {
            Result::Ok(p) => spec_dec_payload(b@, at as int) == Option::Some(
                (opt_view(p.0), p.1 as int),
            ) && at < p.1 <= b@.len(),
            Result::Err(e) => spec_dec_payload(b@, at as int) is None && e
                == IsarError::EncodingError,
        },
{
    let len = b.len();
    if at >= len {
        return Err(IsarError::EncodingError);
    }
    let tag = b[at];
    if tag == 0 {
        Ok((None, at + 1))
    } else if tag == 1 {
        if len - at >= 2 && (b[at + 1] == 0 || b[at + 1] == 1) {
            Ok((Some(IsarValue::Bool(b[at + 1] == 1)), at + 2))
        } else {
            Err(IsarError::EncodingError)
        }
    } else if tag == 2 {
        if len - at >= 2 {
            Ok((Some(IsarValue::Byte(b[at + 1])), at + 2))
        } else {
            Err(IsarError::EncodingError)
        }
    } else if tag == 3 {
        if len - at >= 9 {
            let w = read_be64(b, at + 1);
            let s = w as i64;
            if -0x8000_0000i64 <= s && s <= 0x7FFF_FFFFi64 {
                Ok((Some(IsarValue::Int(s as i32)), at + 9))
            } else {
                Err(IsarError::EncodingError)
            }
        } else {
            Err(IsarError::EncodingError)
        }
    } else if tag == 4 {
        if len - at >= 9 {
            let w = read_be64(b, at + 1);
            Ok((Some(IsarValue::Long(w as i64)), at + 9))
        } else {
            Err(IsarError::EncodingError)
        }
    } else if tag == 5 {
        if len - at >= 9 {
            let w = read_be64(b, at + 1);
            if w <= (len - at - 9) as u64 {
                let n = w as usize;
                let t = copy_range(b, at + 9, at + 9 + n);
                Ok((Some(IsarValue::Text(t)), at + 9 + n))
            } else {
                Err(IsarError::EncodingError)
            }
        } else {
            Err(IsarError::EncodingError)
        }
    } else {
        Err(IsarError::EncodingError)
    }
}

} // verus!
