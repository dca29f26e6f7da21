//! Index key encoding.
//!
//! An index key is the concatenation of per-component encodings of
//! property values. Each component starts with a flag byte — null is
//! the flag alone and sorts before every value — followed by an
//! order-preserving payload: integers as sign-flipped big-endian
//! words, booleans as one byte, text as its UTF-8 bytes (so a text
//! component must be the last of a composite key). Lexicographic byte
//! order over a component equals the semantic order of the values.

use crate::keys::{
    be64, bytes_lt, flip64, flip_i64, lemma_be64_order, lemma_lex_lt_irrefl, lemma_lex_lt_prepend,
    lex_lt, push_be64,
};
use crate::value::{kind_of, opt_lt, opt_view, IsarValue, ValView};
use vstd::prelude::*;

verus! {

/// The key bytes of one nullable value.
pub open spec fn component(v: Option<ValView>) -> Seq<u8> {
    match v {
        Option::None => seq![0u8],
        Option::Some(ValView::Bool(b)) => seq![
            1u8,
            if b {
                1u8
            } else {
                0u8
            },
        ],
        Option::Some(ValView::Byte(x)) => seq![1u8] + be64(flip64(x as i64)),
        Option::Some(ValView::Int(x)) => seq![1u8] + be64(flip64(x as i64)),
        Option::Some(ValView::Long(x)) => seq![1u8] + be64(flip64(x)),
        Option::Some(ValView::Text(t)) => seq![1u8] + t,
    }
}

/// Whether two nullable values can share an index component: same
/// kind, unless one is null.
pub open spec fn comparable(a: Option<ValView>, b: Option<ValView>) -> bool {
    match (a, b) {
        (Option::Some(x), Option::Some(y)) => kind_of(x) == kind_of(y),
        _ => true,
    }
}

proof fn lemma_lex_lt_single(p: u8, q: u8)
    ensures
        lex_lt(seq![p], seq![q]) <==> p < q,
{
    let a = seq![p];
    let b = seq![q];
    assert(a.skip(1).len() == 0 && b.skip(1).len() == 0);
    assert(!lex_lt(a.skip(1), b.skip(1)));
}

/// Index-order law: for two values of one kind, lexicographic byte
/// order over their component encodings is exactly the semantic
/// order, with null before every non-null value.
pub proof fn lemma_component_order(a: Option<ValView>, b: Option<ValView>)
    requires
        comparable(a, b),
    ensures
        lex_lt(component(a), component(b)) <==> opt_lt(a, b),
{
    let ca = component(a);
    let cb = component(b);
    match (a, b) {
        (Option::None, Option::None) => {
            lemma_lex_lt_irrefl(ca);
        }
        (Option::None, Option::Some(_)) => {
            assert(ca[0] == 0 && cb[0] == 1);
            assert(cb.len() >= 1);
            assert(lex_lt(ca, cb));
        }
        (Option::Some(_), Option::None) => {
            assert(ca[0] == 1 && cb[0] == 0);
            assert(!lex_lt(ca, cb));
        }
        (Option::Some(ValView::Bool(x)), Option::Some(ValView::Bool(y))) => {
            let px = if x {
                1u8
            } else {
                0u8
            };
            let py = if y {
                1u8
            } else {
                0u8
            };
            lemma_lex_lt_prepend(1u8, seq![px], seq![py]);
            lemma_lex_lt_single(px, py);
            assert(ca =~= seq![1u8] + seq![px]);
            assert(cb =~= seq![1u8] + seq![py]);
        }
        (Option::Some(ValView::Byte(x)), Option::Some(ValView::Byte(y))) => {
            lemma_lex_lt_prepend(1u8, be64(flip64(x as i64)), be64(flip64(y as i64)));
            lemma_be64_order(flip64(x as i64), flip64(y as i64));
            crate::keys::lemma_id_key_order(x as i64, y as i64);
        }
        (Option::Some(ValView::Int(x)), Option::Some(ValView::Int(y))) => {
            lemma_lex_lt_prepend(1u8, be64(flip64(x as i64)), be64(flip64(y as i64)));
            crate::keys::lemma_id_key_order(x as i64, y as i64);
        }
        (Option::Some(ValView::Long(x)), Option::Some(ValView::Long(y))) => {
            lemma_lex_lt_prepend(1u8, be64(flip64(x)), be64(flip64(y)));
            crate::keys::lemma_id_key_order(x, y);
        }
        (Option::Some(ValView::Text(x)), Option::Some(ValView::Text(y))) => {
            lemma_lex_lt_prepend(1u8, x, y);
        }
        _ => {}
    }
}

/// A composite index key under construction.
pub struct IndexKey {
    pub bytes: Vec<u8>,
}

impl IndexKey {
    /// An empty key.
    pub fn new() -> (r: IndexKey)
        ensures
            r.bytes@ == Seq::<u8>::empty(),
    {
        let r = IndexKey { bytes: Vec::new() };
        proof {
            assert(r.bytes@ =~= Seq::<u8>::empty());
        }
        r
    }

    /// Appends the component encoding of one nullable value.
    pub fn add_value(&mut self, v: &Option<IsarValue>)
        ensures
            final(self).bytes@ == old(self).bytes@ + component(opt_view(*v)),
    {
        match v {
            Option::None => {
                self.bytes.push(0);
                proof {
                    assert(self.bytes@ =~= old(self).bytes@ + component(opt_view(*v)));
                }
            }
            Option::Some(IsarValue::Bool(x)) => {
                self.bytes.push(1);
                self.bytes.push(
                    if *x {
                        1
                    } else {
                        0
                    },
                );
                proof {
                    assert(self.bytes@ =~= old(self).bytes@ + component(opt_view(*v)));
                }
            }
            Option::Some(IsarValue::Byte(x)) => {
                self.bytes.push(1);
                push_be64(&mut self.bytes, flip_i64(*x as i64));
                proof {
                    assert(self.bytes@ =~= old(self).bytes@ + component(opt_view(*v)));
                }
            }
            Option::Some(IsarValue::Int(x)) => {
                self.bytes.push(1);
                push_be64(&mut self.bytes, flip_i64(*x as i64));
                proof {
                    assert(self.bytes@ =~= old(self).bytes@ + component(opt_view(*v)));
                }
            }
            Option::Some(IsarValue::Long(x)) => {
                self.bytes.push(1);
                push_be64(&mut self.bytes, flip_i64(*x));
                proof {
                    assert(self.bytes@ =~= old(self).bytes@ + component(opt_view(*v)));
                }
            }
            Option::Some(IsarValue::Text(t)) => {
                self.bytes.push(1);
                crate::codec::push_bytes(&mut self.bytes, t.as_slice());
                proof {
                    assert(self.bytes@ =~= old(self).bytes@ + component(opt_view(*v)));
                }
            }
        }
    }

    /// The finished key bytes.
    pub fn to_bytes(&self) -> (r: &Vec<u8>)
        ensures
            r@ == self.bytes@,
    {
        &self.bytes
    }
}

/// Decides the semantic order two comparable nullable values take in
/// an index, executably: the byte order of their components.
pub fn component_lt(a: &Option<IsarValue>, b: &Option<IsarValue>) -> (r: bool)
    requires
        comparable(opt_view(*a), opt_view(*b)),
    ensures
        r == opt_lt(opt_view(*a), opt_view(*b)),
{
    let mut ka = IndexKey::new();
    ka.add_value(a);
    let mut kb = IndexKey::new();
    kb.add_value(b);
    proof {
        assert(ka.bytes@ =~= component(opt_view(*a)));
        assert(kb.bytes@ =~= component(opt_view(*b)));
        lemma_component_order(opt_view(*a), opt_view(*b));
    }
    bytes_lt(ka.bytes.as_slice(), kb.bytes.as_slice())
}

} // verus!
