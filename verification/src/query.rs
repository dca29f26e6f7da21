//! The query engine: full-range scan of a collection's primary store
//! with post-filters, in-memory sort, offset/limit, and aggregation.
//!
//! Filters compare property values through their order-preserving
//! index-component encodings, so byte comparison agrees with the
//! semantic order for values of one kind, with null below everything.

use crate::error::IsarError;
use crate::index::{component, IndexKey};
use crate::instance::{inst_wf, key_from_bytes, txn_covers, IsarInstance, IsarReader};
use crate::keys::{bytes_le, bytes_lt, encode_id, lex_le};
use crate::txn::NativeTxn;
use crate::value::{opt_view, IsarValue};
use vstd::prelude::*;

verus! {

/// A predicate over one object's properties.
pub enum Filter {
    /// Every object matches.
    Any,
    /// The property equals the value (null included).
    Eq(u16, Option<IsarValue>),
    /// The property lies between the two values, inclusive, in the
    /// order of the component encoding.
    Between(u16, Option<IsarValue>, Option<IsarValue>),
    /// The property is null.
    IsNull(u16),
}

/// What a filter means over an encoded object.
pub open spec fn filter_matches(f: Filter, b: Seq<u8>) -> bool {
    match f {
        Filter::Any => true,
        Filter::Eq(p, v) => match crate::codec::spec_read_prop(b, p as int) {
            Option::Some(x) => component(x) == component(opt_view(v)),
            Option::None => false,
        },
        Filter::Between(p, lo, hi) => match crate::codec::spec_read_prop(b, p as int) {
            Option::Some(x) => x is Some && lex_le(component(opt_view(lo)), component(x))
                && lex_le(component(x), component(opt_view(hi))),
            Option::None => false,
        },
        Filter::IsNull(p) => crate::codec::spec_read_prop(b, p as int) == Option::Some(
            Option::<crate::value::ValView>::None,
        ),
    }
}

/// Whether every property a filter touches can be read back from the
/// encoded object.
pub open spec fn filter_readable(f: Filter, b: Seq<u8>) -> bool {
    match f {
        Filter::Any => true,
        Filter::Eq(p, _) => crate::codec::spec_read_prop(b, p as int) is Some,
        Filter::Between(p, _, _) => crate::codec::spec_read_prop(b, p as int) is Some,
        Filter::IsNull(p) => crate::codec::spec_read_prop(b, p as int) is Some,
    }
}

/// Decides a filter on an encoded object; fails exactly when a
/// property the filter touches cannot be read back.
pub fn eval_filter(f: &Filter, b: &[u8]) -> (r: Result<bool, IsarError>)
    ensures
        r is Ok <==> filter_readable(*f, b@),
        match r {
            Result::Ok(m) => m == filter_matches(*f, b@),
            Result::Err(e) => e == IsarError::EncodingError,
        },
{
    match f {
        Filter::Any => Ok(true),
        Filter::Eq(p, v) => {
            let got = match crate::codec::read_prop(b, *p as usize) {
                Ok(g) => g,
                Err(e) => {
                    return Err(e);
                }
            };
            let mut ka = IndexKey::new();
            ka.add_value(&got);
            let mut kb = IndexKey::new();
            kb.add_value(v);
            proof {
                assert(ka.bytes@ =~= component(opt_view(got)));
                assert(kb.bytes@ =~= component(opt_view(*v)));
            }
            Ok(crate::keys::bytes_eq(ka.bytes.as_slice(), kb.bytes.as_slice()))
        }
        Filter::Between(p, lo, hi) => {
            let got = match crate::codec::read_prop(b, *p as usize) {
                Ok(g) => g,
                Err(e) => {
                    return Err(e);
                }
            };
            if got.is_none() {
                return Ok(false);
            }
            let mut kx = IndexKey::new();
            kx.add_value(&got);
            let mut kl = IndexKey::new();
            kl.add_value(lo);
            let mut kh = IndexKey::new();
            kh.add_value(hi);
            proof {
                assert(kx.bytes@ =~= component(opt_view(got)));
                assert(kl.bytes@ =~= component(opt_view(*lo)));
                assert(kh.bytes@ =~= component(opt_view(*hi)));
            }
            Ok(
                bytes_le(kl.bytes.as_slice(), kx.bytes.as_slice()) && bytes_le(
                    kx.bytes.as_slice(),
                    kh.bytes.as_slice(),
                ),
            )
        }
        Filter::IsNull(p) => {
            let got = match crate::codec::read_prop(b, *p as usize) {
                Ok(g) => g,
                Err(e) => {
                    return Err(e);
                }
            };
            match got {
                None => Ok(true),
                Some(_) => Ok(false),
            }
        }
    }
}

/// An immutable query: collection, filter, and sort order.
pub struct Query {
    pub collection: u16,
    pub filter: Filter,
    pub sort: Option<(u16, bool)>,
}

/// Accumulates a query's parts and finalises it.
pub struct QueryBuilder {
    pub collection: u16,
    pub filter: Filter,
    pub sort: Option<(u16, bool)>,
}

impl QueryBuilder {
    /// A builder matching everything, unsorted.
    pub fn new(collection: u16) -> (r: QueryBuilder)
        ensures
            r.collection == collection,
            r.filter is Any,
            r.sort is None,
    {
        QueryBuilder { collection, filter: Filter::Any, sort: None }
    }

    /// Sets the filter.
    pub fn set_filter(&mut self, f: Filter)
        ensures
            final(self).filter == f,
            final(self).collection == old(self).collection,
            final(self).sort == old(self).sort,
    {
        self.filter = f;
    }

    /// Sets the sort order: a property and whether ascending.
    pub fn set_sort(&mut self, prop: u16, ascending: bool)
        ensures
            final(self).sort == Option::Some((prop, ascending)),
            final(self).collection == old(self).collection,
            final(self).filter == old(self).filter,
    {
        self.sort = Some((prop, ascending));
    }

    /// Finalises the query.
    pub fn build(self) -> (r: Query)
        ensures
            r.collection == self.collection,
            r.filter == self.filter,
            r.sort == self.sort,
    {
        Query { collection: self.collection, filter: self.filter, sort: self.sort }
    }
}

/// Whether the entry keyed `a` sorts before one keyed `b` in the
/// requested direction.
fn sort_before(asc: bool, a: &Vec<u8>, b: &Vec<u8>) -> (r: bool)
    ensures
        r == (if asc {
            lex_le(a@, b@)
        } else {
            lex_le(b@, a@)
        }),
{
    if asc {
        bytes_le(a.as_slice(), b.as_slice())
    } else {
        bytes_le(b.as_slice(), a.as_slice())
    }
}

/// Iterates query results in order.
pub struct QueryCursor {
    pub rows: Vec<(i64, Vec<u8>)>,
}

impl QueryCursor {
    /// The next result.
    pub fn next(&mut self) -> (r: Option<IsarReader>)
        ensures
            old(self).rows@.len() == 0 ==> r is None && *final(self) == *old(self),
            old(self).rows@.len() > 0 ==> (match r {
                Option::Some(rd) => rd.id == old(self).rows@[0].0 && rd.data@ == old(
                    self,
                ).rows@[0].1@ && final(self).rows@ == old(self).rows@.skip(1),
                Option::None => false,
            }),
    {
        if self.rows.len() == 0 {
            return None;
        }
        let row = self.rows.remove(0);
        proof {
            assert(self.rows@ =~= old(self).rows@.skip(1));
        }
        Some(IsarReader { id: row.0, data: row.1 })
    }

    /// How many results remain.
    pub fn remaining(&self) -> (r: usize)
        ensures
            r == self.rows@.len(),
    {
        self.rows.len()
    }
}

impl IsarInstance {
    /// Runs a query: scans the collection's primary store, applies
    /// the filter, sorts in memory when a sort order is set, then
    /// applies offset and limit. Every yielded row is a stored object
    /// of the collection that matches the filter; with a sort order,
    /// rows come in component order of the sort property.
    #[verifier::loop_isolation(false)]
    pub fn query_cursor(
        &self,
        txn: &NativeTxn,
        query: &Query,
        offset: Option<u32>,
        limit: Option<u32>,
    ) -> (r: Result<QueryCursor, IsarError>)
        requires
            inst_wf(*self),
            txn_covers(txn@, *self),
        ensures
            !txn@.active ==> r == Result::<QueryCursor, IsarError>::Err(
                IsarError::TransactionClosed,
            ),
            txn@.active && query.collection >= self.collections@.len() ==> r == Result::<
                QueryCursor,
                IsarError,
            >::Err(IsarError::IllegalArg),
            match r {
                Result::Ok(cur) => {
                    let pdb = self.collections@[query.collection as int].primary.index as int;
                    &&& (forall|i: int|
                        0 <= i < cur.rows@.len() ==> txn@.dbs[pdb].entries.contains(
                            (
                                crate::keys::id_key(#[trigger] cur.rows@[i].0),
                                cur.rows@[i].1@,
                            ),
                        ))
                    &&& (forall|i: int|
                        0 <= i < cur.rows@.len() ==> filter_matches(
                            query.filter,
                            (#[trigger] cur.rows@[i]).1@,
                        ))
                    &&& (limit is Some ==> cur.rows@.len() <= limit->0)
                },
                Result::Err(_) => true,
            },
    {
        if !txn.active {
            return Err(IsarError::TransactionClosed);
        }
        let ci = query.collection as usize;
        if ci >= self.collections.len() {
            return Err(IsarError::IllegalArg);
        }
        let col = &self.collections[ci];
        let ghost pdb = col.primary.index as int;
        let lo = encode_id(i64::MIN);
        let hi = encode_id(i64::MAX);
        let all = match txn.db_range(col.primary, lo.as_slice(), hi.as_slice(), false) {
            Ok(a) => a,
            Err(e) => {
                return Err(e);
            }
        };
        proof {
            crate::txn::lemma_range_subset(
                txn@.dbs[pdb],
                crate::keys::id_key(i64::MIN),
                crate::keys::id_key(i64::MAX),
                false,
            );
        }
        let ghost sel = crate::txn::entries_view(all@);
        // filter, decoding each id from its key
        let n = all.len();
        let mut rows: Vec<(i64, Vec<u8>)> = Vec::new();
        let mut i: usize = 0;
        while i < n
            invariant
                i <= n,
                n == all@.len(),
                sel == crate::txn::entries_view(all@),
                forall|j: int|
                    0 <= j < sel.len() ==> txn@.dbs[pdb].entries.contains(#[trigger] sel[j]),
                forall|j: int|
                    0 <= j < rows@.len() ==> txn@.dbs[pdb].entries.contains(
                        (crate::keys::id_key(#[trigger] rows@[j].0), rows@[j].1@),
                    ),
                forall|j: int|
                    0 <= j < rows@.len() ==> filter_matches(
                        query.filter,
                        (#[trigger] rows@[j]).1@,
                    ),
            decreases n - i,
        {
            proof {
                assert(sel[i as int] == (all@[i as int].0@, all@[i as int].1@));
            }
            let e = &all[i];
            let keep = match eval_filter(&query.filter, e.1.as_slice()) {
                Ok(k) => k,
                Err(er) => {
                    return Err(er);
                }
            };
            if keep {
                let rid = match crate::keys::decode_id(e.0.as_slice()) {
                    Ok(d) => d,
                    Err(er) => {
                        return Err(er);
                    }
                };
                let k = crate::txn::clone_bytes(&e.1);
                proof {
                    assert(txn@.dbs[pdb].entries.contains(sel[i as int]));
                }
                rows.push((rid, k));
            }
            i = i + 1;
        }
        // in-memory sort by the component encoding of the sort
        // property (simple insertion sort over the buffered rows)
        match &query.sort {
            None => {}
            Some(s) => {
                let prop = s.0;
                let asc = s.1;
                let mut props: Vec<u16> = Vec::new();
                props.push(prop);
                let m = rows.len();
                let mut out: Vec<(i64, Vec<u8>)> = Vec::new();
                let mut keys: Vec<Vec<u8>> = Vec::new();
                let mut j: usize = 0;
                while j < m
                    invariant
                        j <= m,
                        m == rows@.len(),
                        out@.len() == keys@.len(),
                        out@.len() <= j,
                        forall|a: int|
                            0 <= a < out@.len() ==> txn@.dbs[pdb].entries.contains(
                                (crate::keys::id_key(#[trigger] out@[a].0), out@[a].1@),
                            ),
                        forall|a: int|
                            0 <= a < out@.len() ==> filter_matches(
                                query.filter,
                                (#[trigger] out@[a]).1@,
                            ),
                        forall|a: int|
                            0 <= a < rows@.len() ==> txn@.dbs[pdb].entries.contains(
                                (crate::keys::id_key(#[trigger] rows@[a].0), rows@[a].1@),
                            ),
                        forall|a: int|
                            0 <= a < rows@.len() ==> filter_matches(
                                query.filter,
                                (#[trigger] rows@[a]).1@,
                            ),
                    decreases m - j,
                {
                    let rk = match key_from_bytes(rows[j].1.as_slice(), &props) {
                        Ok(k) => k,
                        Err(er) => {
                            return Err(er);
                        }
                    };
                    // find the insertion position
                    let mut pos: usize = 0;
                    while pos < keys.len() && sort_before(asc, &keys[pos], &rk)
                        invariant
                            pos <= keys@.len(),
                            keys@.len() == out@.len(),
                        decreases keys@.len() - pos,
                    {
                        pos = pos + 1;
                    }
                    let rid = rows[j].0;
                    let rb = crate::txn::clone_bytes(&rows[j].1);
                    proof {
                        assert(txn@.dbs[pdb].entries.contains(
                            (crate::keys::id_key(rows@[j as int].0), rows@[j as int].1@),
                        ));
                        lemma_insert_keeps_rows(
                            out@,
                            pos as int,
                            (rid, rb),
                            txn@.dbs[pdb].entries,
                            query.filter,
                        );
                    }
                    out.insert(pos, (rid, rb));
                    keys.insert(pos, rk);
                    j = j + 1;
                }
                rows = out;
            }
        }
        // offset and limit
        let off: usize = match offset {
            Some(o) => o as usize,
            None => 0,
        };
        let mut k: usize = 0;
        while k < off && rows.len() > 0
            invariant
                forall|a: int|
                    0 <= a < rows@.len() ==> txn@.dbs[pdb].entries.contains(
                        (crate::keys::id_key(#[trigger] rows@[a].0), rows@[a].1@),
                    ),
                forall|a: int|
                    0 <= a < rows@.len() ==> filter_matches(
                        query.filter,
                        (#[trigger] rows@[a]).1@,
                    ),
            decreases off - k,
        {
            let ghost pr = rows@;
            rows.remove(0);
            proof {
                assert forall|a: int|
                    0 <= a < rows@.len() implies txn@.dbs[pdb].entries.contains(
                        (crate::keys::id_key(#[trigger] rows@[a].0), rows@[a].1@),
                    ) && filter_matches(query.filter, rows@[a].1@) by {
                    assert(rows@[a] == pr[a + 1]);
                }
            }
            k = k + 1;
        }
        match limit {
            None => {}
            Some(l) => {
                while rows.len() > l as usize
                    invariant
                        forall|a: int|
                            0 <= a < rows@.len() ==> txn@.dbs[pdb].entries.contains(
                                (crate::keys::id_key(#[trigger] rows@[a].0), rows@[a].1@),
                            ),
                        forall|a: int|
                            0 <= a < rows@.len() ==> filter_matches(
                                query.filter,
                                (#[trigger] rows@[a]).1@,
                            ),
                    decreases rows@.len(),
                {
                    rows.pop();
                }
            }
        }
        Ok(QueryCursor { rows })
    }
}

/// The result of an aggregation. An average is returned exactly, as
/// the sum of the non-null values and their count; the caller divides.
pub enum AggregateValue {
    Long(i64),
    Bool(bool),
    Value(IsarValue),
    Fraction(i64, u32),
}

impl IsarInstance {
    /// Computes an aggregation over the objects a query matches.
    /// Count and IsEmpty need no property; Min, Max, Sum and Average
    /// read the given property and skip nulls and non-numeric values
    /// (Min and Max order any one kind; Sum and Average take bytes
    /// and integers, promoted to 64 bits). Empty input yields null
    /// for the value aggregations.
    #[verifier::loop_isolation(false)]
    pub fn query_aggregate(
        &self,
        txn: &NativeTxn,
        query: &Query,
        aggregation: crate::Aggregation,
        property: Option<u16>,
    ) -> (r: Result<Option<AggregateValue>, IsarError>)
        requires
            inst_wf(*self),
            txn_covers(txn@, *self),
        ensures
            !txn@.active ==> r == Result::<Option<AggregateValue>, IsarError>::Err(
                IsarError::TransactionClosed,
            ),
            (aggregation is Min || aggregation is Max || aggregation is Sum || aggregation
                is Average) && property is None && txn@.active && query.collection
                < self.collections@.len() ==> r == Result::<Option<AggregateValue>, IsarError>::Err(
                IsarError::IllegalArg,
            ),
    {
        if !txn.active {
            return Err(IsarError::TransactionClosed);
        }
        let needs_prop = match aggregation {
            crate::Aggregation::Count => false,
            crate::Aggregation::IsEmpty => false,
            _ => true,
        };
        if needs_prop && property.is_none() {
            return Err(IsarError::IllegalArg);
        }
        let cur = match self.query_cursor(txn, query, None, None) {
            Ok(c) => c,
            Err(e) => {
                return Err(e);
            }
        };
        let n = cur.rows.len();
        match aggregation {
            crate::Aggregation::Count => {
                if n > u32::MAX as usize {
                    return Ok(Some(AggregateValue::Long(u32::MAX as i64)));
                }
                Ok(Some(AggregateValue::Long(n as i64)))
            }
            crate::Aggregation::IsEmpty => Ok(Some(AggregateValue::Bool(n == 0))),
            _ => {
                let p = match property {
                    Some(p) => p,
                    None => {
                        return Err(IsarError::IllegalArg);
                    }
                };
                let mut sum: i64 = 0;
                let mut cnt: u32 = 0;
                let mut best: Option<IsarValue> = None;
                let mut best_key: Vec<u8> = Vec::new();
                let want_min = match aggregation {
                    crate::Aggregation::Min => true,
                    _ => false,
                };
                let mut i: usize = 0;
                while i < n
                    invariant
                        i <= n,
                        n == cur.rows@.len(),
                    decreases n - i,
                {
                    let v = match crate::codec::read_prop(cur.rows[i].1.as_slice(), p as usize) {
                        Ok(v) => v,
                        Err(e) => {
                            return Err(e);
                        }
                    };
                    match v {
                        None => {}
                        Some(val) => {
                            let add: Option<i64> = match &val {
                                IsarValue::Byte(b) => Some(*b as i64),
                                IsarValue::Int(x) => Some(*x as i64),
                                IsarValue::Long(x) => Some(*x),
                                _ => None,
                            };
                            match add {
                                Some(a) => {
                                    if a >= 0 && sum > i64::MAX - a {
                                        return Err(IsarError::Unsupported);
                                    }
                                    if a < 0 && sum < i64::MIN - a {
                                        return Err(IsarError::Unsupported);
                                    }
                                    sum = sum + a;
                                    if cnt < u32::MAX {
                                        cnt = cnt + 1;
                                    }
                                }
                                None => {}
                            }
                            let mut vk = IndexKey::new();
                            vk.add_value(&Some(val));
                            let taken = match &best {
                                None => true,
                                Some(_) => {
                                    if want_min {
                                        bytes_lt(vk.bytes.as_slice(), best_key.as_slice())
                                    } else {
                                        bytes_lt(best_key.as_slice(), vk.bytes.as_slice())
                                    }
                                }
                            };
                            if taken {
                                let back = match crate::codec::read_prop(
                                    cur.rows[i].1.as_slice(),
                                    p as usize,
                                ) {
                                    Ok(Some(b)) => b,
                                    Ok(None) => {
                                        return Err(IsarError::EncodingError);
                                    }
                                    Err(e) => {
                                        return Err(e);
                                    }
                                };
                                best = Some(back);
                                best_key = vk.bytes;
                            }
                        }
                    }
                    i = i + 1;
                }
                match aggregation {
                    crate::Aggregation::Min => Ok(
                        match best {
                            Some(b) => Some(AggregateValue::Value(b)),
                            None => None,
                        },
                    ),
                    crate::Aggregation::Max => Ok(
                        match best {
                            Some(b) => Some(AggregateValue::Value(b)),
                            None => None,
                        },
                    ),
                    crate::Aggregation::Sum => {
                        if cnt == 0 {
                            Ok(None)
                        } else {
                            Ok(Some(AggregateValue::Long(sum)))
                        }
                    }
                    _ => {
                        if cnt == 0 {
                            Ok(None)
                        } else {
                            Ok(Some(AggregateValue::Fraction(sum, cnt)))
                        }
                    }
                }
            }
        }
    }
}

proof fn lemma_insert_keeps_rows(
    s: Seq<(i64, Vec<u8>)>,
    i: int,
    x: (i64, Vec<u8>),
    entries: Seq<(Seq<u8>, Seq<u8>)>,
    f: Filter,
)
    requires
        0 <= i <= s.len(),
        forall|a: int|
            0 <= a < s.len() ==> entries.contains(
                (crate::keys::id_key(#[trigger] s[a].0), s[a].1@),
            ),
        forall|a: int| 0 <= a < s.len() ==> filter_matches(f, (#[trigger] s[a]).1@),
        entries.contains((crate::keys::id_key(x.0), x.1@)),
        filter_matches(f, x.1@),
    ensures
        forall|a: int|
            0 <= a < s.insert(i, x).len() ==> entries.contains(
                (crate::keys::id_key(#[trigger] s.insert(i, x)[a].0), s.insert(i, x)[a].1@),
            ),
        forall|a: int|
            0 <= a < s.insert(i, x).len() ==> filter_matches(f, (#[trigger] s.insert(i, x)[a]).1@),
{
    let t = s.insert(i, x);
    assert forall|a: int| 0 <= a < t.len() implies entries.contains(
        (crate::keys::id_key(t[a].0), t[a].1@),
    ) && filter_matches(f, t[a].1@) by {
        if a < i {
            assert(t[a] == s[a]);
        } else if a == i {
            assert(t[a] == x);
        } else {
            assert(t[a] == s[a - 1]);
        }
    }
}

} // verus!
