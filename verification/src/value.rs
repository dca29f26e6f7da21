//! Property values and their mathematical view.
//!
//! A property holds a tagged scalar: bool, byte, 32- or 64-bit integer,
//! or text. Text is carried as UTF-8 bytes; the UTF-8 contract is
//! established by the writer. A missing value stands for null.

use vstd::prelude::*;

verus! {

/// The value kinds a property can be declared with.
#[derive(Copy, Clone, Eq, PartialEq, Debug, Structural)]
pub enum ValueKind {
    Bool,
    Byte,
    Int,
    Long,
    Text,
}

/// One property value.
#[derive(Clone, Debug)]
pub enum IsarValue {
    Bool(bool),
    Byte(u8),
    Int(i32),
    Long(i64),
    /// UTF-8 bytes of a string.
    Text(Vec<u8>),
}

/// The mathematical view of a property value.
pub enum ValView {
    Bool(bool),
    Byte(u8),
    Int(i32),
    Long(i64),
    Text(Seq<u8>),
}

impl View for IsarValue {
    type V = ValView;

    open spec fn view(&self) -> ValView {
        match self {
            IsarValue::Bool(b) => ValView::Bool(*b),
            IsarValue::Byte(b) => ValView::Byte(*b),
            IsarValue::Int(i) => ValView::Int(*i),
            IsarValue::Long(i) => ValView::Long(*i),
            IsarValue::Text(t) => ValView::Text(t@),
        }
    }
}

/// The view of an optional (nullable) value.
pub open spec fn opt_view(v: Option<IsarValue>) -> Option<ValView> {
    match v {
        Option::None => Option::None,
        Option::Some(x) => Option::Some(x@),
    }
}

/// The view of a whole object: one optional value per property slot.
pub open spec fn obj_view(o: Seq<Option<IsarValue>>) -> Seq<Option<ValView>> {
    o.map(|i: int, v: Option<IsarValue>| opt_view(v))
}

/// The kind a value belongs to.
pub open spec fn kind_of(v: ValView) -> ValueKind {
    match v {
        ValView::Bool(_) => ValueKind::Bool,
        ValView::Byte(_) => ValueKind::Byte,
        ValView::Int(_) => ValueKind::Int,
        ValView::Long(_) => ValueKind::Long,
        ValView::Text(_) => ValueKind::Text,
    }
}

impl IsarValue {
    /// A copy with the same view.
    pub fn clone_value(&self) -> (r: IsarValue)
        ensures
            r@ == self@,
    {
        match self {
            IsarValue::Bool(b) => IsarValue::Bool(*b),
            IsarValue::Byte(b) => IsarValue::Byte(*b),
            IsarValue::Int(i) => IsarValue::Int(*i),
            IsarValue::Long(i) => IsarValue::Long(*i),
            IsarValue::Text(t) => {
                let c = crate::codec::copy_range(t.as_slice(), 0, t.len());
                proof {
                    assert(t@.subrange(0, t@.len() as int) =~= t@);
                }
                IsarValue::Text(c)
            }
        }
    }

    /// The kind of this value.
    pub fn kind(&self) -> (r: ValueKind)
        ensures
            r == kind_of(self@),
    {
        match self {
            IsarValue::Bool(_) => ValueKind::Bool,
            IsarValue::Byte(_) => ValueKind::Byte,
            IsarValue::Int(_) => ValueKind::Int,
            IsarValue::Long(_) => ValueKind::Long,
            IsarValue::Text(_) => ValueKind::Text,
        }
    }
}

/// The semantic strict order of two values of the same kind. Integers
/// and bytes order numerically, booleans false before true, text by
/// byte order of its UTF-8 encoding. Values of different kinds are
/// unordered.
pub open spec fn val_lt(a: ValView, b: ValView) -> bool {
    match (a, b) {
        (ValView::Bool(x), ValView::Bool(y)) => !x && y,
        (ValView::Byte(x), ValView::Byte(y)) => x < y,
        (ValView::Int(x), ValView::Int(y)) => x < y,
        (ValView::Long(x), ValView::Long(y)) => x < y,
        (ValView::Text(x), ValView::Text(y)) => crate::keys::lex_lt(x, y),
        _ => false,
    }
}

/// The semantic order extended to nullable values: null sorts before
/// every non-null value.
pub open spec fn opt_lt(a: Option<ValView>, b: Option<ValView>) -> bool {
    match (a, b) {
        (Option::None, Option::Some(_)) => true,
        (Option::Some(x), Option::Some(y)) => val_lt(x, y),
        _ => false,
    }
}

/// Decides the semantic strict order, executably.
pub fn value_lt(a: &IsarValue, b: &IsarValue) -> (r: bool)
    ensures
        r == val_lt(a@, b@),
{
    match (a, b) {
        (IsarValue::Bool(x), IsarValue::Bool(y)) => !*x && *y,
        (IsarValue::Byte(x), IsarValue::Byte(y)) => *x < *y,
        (IsarValue::Int(x), IsarValue::Int(y)) => *x < *y,
        (IsarValue::Long(x), IsarValue::Long(y)) => *x < *y,
        (IsarValue::Text(x), IsarValue::Text(y)) => crate::keys::bytes_lt(x.as_slice(), y.as_slice()),
        _ => false,
    }
}

/// Decides spec-level equality, executably.
pub fn value_eq(a: &IsarValue, b: &IsarValue) -> (r: bool)
    ensures
        r == (a@ == b@),
{
    match (a, b) {
        (IsarValue::Bool(x), IsarValue::Bool(y)) => *x == *y,
        (IsarValue::Byte(x), IsarValue::Byte(y)) => *x == *y,
        (IsarValue::Int(x), IsarValue::Int(y)) => *x == *y,
        (IsarValue::Long(x), IsarValue::Long(y)) => *x == *y,
        (IsarValue::Text(x), IsarValue::Text(y)) => crate::keys::bytes_eq(
            x.as_slice(),
            y.as_slice(),
        ),
        _ => false,
    }
}

} // verus!
