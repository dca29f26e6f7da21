//! The instance façade and the insert/update/delete pipeline.
//!
//! An instance owns the committed environment, the schema-derived
//! collection descriptors, and the watcher registry. Every collection
//! has one primary sub-database (id key to encoded object) and one
//! sub-database per secondary index (index key to id key; duplicate
//! keys when the index is not unique). Mutations keep the indexes
//! consistent with the primary store and record change events that
//! watchers receive only after a successful commit.

use crate::codec::{encode_obj, enc_obj, read_prop, spec_read_prop};
use crate::error::IsarError;
use crate::index::{component, IndexKey};
use crate::keys::{encode_id, id_key};
use crate::txn::{Db, Env, NativeTxn, TxnView};
use crate::value::{obj_view, opt_view, IsarValue, ValView, ValueKind};
use crate::watcher::{Notification, WatcherRegistry};
use vstd::prelude::*;

verus! {

/// One secondary index of a collection.
pub struct IndexInfo {
    pub db: Db,
    pub props: Vec<u16>,
    pub unique: bool,
}

/// One collection: its name, the declared kind of each property
/// slot, its primary sub-database and its indexes.
pub struct CollectionInfo {
    pub name: Vec<u8>,
    pub kinds: Vec<ValueKind>,
    pub primary: Db,
    pub indexes: Vec<IndexInfo>,
}

/// The declaration of one index in a schema.
pub struct IndexSchema {
    pub name: Vec<u8>,
    pub props: Vec<u16>,
    pub unique: bool,
}

/// The declaration of one collection in a schema.
pub struct CollectionSchema {
    pub name: Vec<u8>,
    pub kinds: Vec<ValueKind>,
    pub indexes: Vec<IndexSchema>,
}

/// A whole schema.
pub struct IsarSchema {
    pub collections: Vec<CollectionSchema>,
}

/// A live handle to one database directory.
pub struct IsarInstance {
    pub instance_id: u32,
    pub name: Vec<u8>,
    pub dir: Vec<u8>,
    pub env: Env,
    pub collections: Vec<CollectionInfo>,
    pub watchers: WatcherRegistry,
}

/// The index key derived from the property values of one object.
pub open spec fn key_upto(o: Seq<Option<ValView>>, props: Seq<u16>, i: int) -> Seq<u8>
    decreases i,
{
    if i <= 0 {
        Seq::empty()
    } else {
        key_upto(o, props, i - 1) + component(o[props[i - 1] as int])
    }
}

/// The full index key of an object under an index's property list.
pub open spec fn obj_key(o: Seq<Option<ValView>>, props: Seq<u16>) -> Seq<u8> {
    key_upto(o, props, props.len() as int)
}

/// The index key derived from an encoded object, reading each indexed
/// property; nothing when a property cannot be read back.
pub open spec fn produced_key(v: Seq<u8>, props: Seq<u16>, i: int) -> Option<Seq<u8>>
    decreases i,
{
    if i <= 0 {
        Option::Some(Seq::empty())
    } else {
        match (produced_key(v, props, i - 1), spec_read_prop(v, props[i - 1] as int)) {
            (Option::Some(k), Option::Some(val)) => Option::Some(k + component(val)),
            _ => Option::None,
        }
    }
}

/// Index consistency with the primary store: every index entry is
/// derived from the object its id names, and every stored object has
/// its key in the index.
pub open spec fn index_consistent(
    ps: Seq<(Seq<u8>, Seq<u8>)>,
    xs: Seq<(Seq<u8>, Seq<u8>)>,
    props: Seq<u16>,
) -> bool {
    &&& (forall|e: (Seq<u8>, Seq<u8>)|
        #[trigger] xs.contains(e) ==> exists|v: Seq<u8>|
            ps.contains((e.1, v)) && produced_key(v, props, props.len() as int) == Option::Some(
                e.0,
            ))
    &&& (forall|p: (Seq<u8>, Seq<u8>)|
        #[trigger] ps.contains(p) ==> match produced_key(p.1, props, props.len() as int) {
            Option::Some(k) => xs.contains((k, p.0)),
            Option::None => false,
        })
}

/// Index-with-primary consistency survives saving a fresh object:
/// adding the object to the primary store and exactly its derived key
/// to the index keeps both directions of the correspondence.
pub proof fn lemma_save_preserves_index_consistency(
    ps: Seq<(Seq<u8>, Seq<u8>)>,
    xs: Seq<(Seq<u8>, Seq<u8>)>,
    ps2: Seq<(Seq<u8>, Seq<u8>)>,
    xs2: Seq<(Seq<u8>, Seq<u8>)>,
    props: Seq<u16>,
    idk: Seq<u8>,
    v: Seq<u8>,
    k: Seq<u8>,
)
    requires
        index_consistent(ps, xs, props),
        produced_key(v, props, props.len() as int) == Option::Some(k),
        forall|p: (Seq<u8>, Seq<u8>)| #[trigger] ps.contains(p) ==> p.0 != idk,
        forall|e: (Seq<u8>, Seq<u8>)| #[trigger] xs.contains(e) ==> e.1 != idk,
        forall|p: (Seq<u8>, Seq<u8>)|
            #[trigger] ps2.contains(p) <==> ((ps.contains(p) && p.0 != idk) || p == (idk, v)),
        forall|e: (Seq<u8>, Seq<u8>)|
            #[trigger] xs2.contains(e) <==> (xs.contains(e) || e == (k, idk)),
    ensures
        index_consistent(ps2, xs2, props),
{
    assert forall|e: (Seq<u8>, Seq<u8>)| #[trigger] xs2.contains(e) implies exists|v2: Seq<u8>|
        ps2.contains((e.1, v2)) && produced_key(v2, props, props.len() as int) == Option::Some(
            e.0,
        ) by {
        if e == (k, idk) {
            assert(ps2.contains((idk, v)));
        } else {
            assert(xs.contains(e));
            let v2 = choose|v2: Seq<u8>|
                ps.contains((e.1, v2)) && produced_key(v2, props, props.len() as int)
                    == Option::Some(e.0);
            assert(ps.contains((e.1, v2)));
            assert(e.1 != idk);
            assert(ps2.contains((e.1, v2)));
        }
    }
    assert forall|p: (Seq<u8>, Seq<u8>)| #[trigger] ps2.contains(p) implies match produced_key(
        p.1,
        props,
        props.len() as int,
    ) {
        Option::Some(kk) => xs2.contains((kk, p.0)),
        Option::None => false,
    } by {
        if p == (idk, v) {
            assert(xs2.contains((k, idk)));
        } else {
            assert(ps.contains(p));
        }
    }
}

/// The object that results from merging a patch list into `o`: each
/// patch overwrites the value at its property slot, later patches
/// winning.
pub open spec fn merged(
    o: Seq<Option<ValView>>,
    ups: Seq<(u16, Option<IsarValue>)>,
    i: int,
) -> Seq<Option<ValView>>
    decreases i,
{
    if i <= 0 {
        o
    } else {
        merged(o, ups, i - 1).update(ups[i - 1].0 as int, opt_view(ups[i - 1].1))
    }
}

/// Whether the primary store of a collection holds an entry for `id`.
pub open spec fn primary_has(t: TxnView, ci: CollectionInfo, id: i64) -> bool {
    exists|j: int|
        0 <= j < t.dbs[ci.primary.index as int].entries.len() && t.dbs[ci.primary.index as int].entries[j].0
            == id_key(id)
}

/// Whether every index key of the object stored at `id` can be derived
/// back from its stored bytes; holds vacuously when the id is absent.
pub open spec fn stored_keys_readable(t: TxnView, ci: CollectionInfo, id: i64) -> bool {
    forall|j: int|
        0 <= j < t.dbs[ci.primary.index as int].entries.len() && (#[trigger] t.dbs[ci.primary.index as int].entries[j]).0
            == id_key(id) ==> (forall|x: int|
            0 <= x < ci.indexes@.len() ==> produced_key(
                t.dbs[ci.primary.index as int].entries[j].1,
                (#[trigger] ci.indexes@[x]).props@,
                ci.indexes@[x].props@.len() as int,
            ) is Some)
}

/// The exact effect of removing, from every index of a collection, the
/// entries derived from the object bytes `oldv` stored at `id`.
pub open spec fn index_entries_removed(
    t0: TxnView,
    t1: TxnView,
    ci: CollectionInfo,
    oldv: Seq<u8>,
    id: i64,
) -> bool {
    forall|x: int|
        0 <= x < ci.indexes@.len() ==> {
            let xi = #[trigger] ci.indexes@[x];
            let xdb = xi.db.index as int;
            let kx = produced_key(oldv, xi.props@, xi.props@.len() as int)->Some_0;
            &&& (xi.unique ==> (forall|e: (Seq<u8>, Seq<u8>)|
                #[trigger] t1.dbs[xdb].entries.contains(e) <==> (t0.dbs[xdb].entries.contains(e)
                    && e.0 != kx)))
            &&& (!xi.unique ==> (forall|e: (Seq<u8>, Seq<u8>)|
                #[trigger] t1.dbs[xdb].entries.contains(e) <==> (t0.dbs[xdb].entries.contains(e)
                    && e != (kx, id_key(id)))))
        }
}

/// Whether some unique index of the collection already holds the key
/// derived from object `o` under an id other than `id`.
pub open spec fn unique_conflict(
    t: TxnView,
    ci: CollectionInfo,
    o: Seq<Option<ValView>>,
    id: i64,
) -> bool {
    exists|x: int|
        0 <= x < ci.indexes@.len() && (#[trigger] ci.indexes@[x]).unique && (exists|
            e: (Seq<u8>, Seq<u8>),
        |
            t.dbs[ci.indexes@[x].db.index as int].entries.contains(e) && e.0 == obj_key(
                o,
                ci.indexes@[x].props@,
            ) && e.1 != id_key(id))
}

/// The exact effect of writing the index entries of object `o` at
/// `id`: each index gains the entry under the derived key, a unique
/// index replacing any entry of the same key.
pub open spec fn index_entries_written(
    t0: TxnView,
    t1: TxnView,
    ci: CollectionInfo,
    o: Seq<Option<ValView>>,
    id: i64,
) -> bool {
    forall|x: int|
        0 <= x < ci.indexes@.len() ==> {
            let xi = #[trigger] ci.indexes@[x];
            let xdb = xi.db.index as int;
            let kx = obj_key(o, xi.props@);
            &&& (xi.unique ==> (forall|e: (Seq<u8>, Seq<u8>)|
                #[trigger] t1.dbs[xdb].entries.contains(e) <==> ((t0.dbs[xdb].entries.contains(e)
                    && e.0 != kx) || e == (kx, id_key(id)))))
            &&& (!xi.unique ==> (forall|e: (Seq<u8>, Seq<u8>)|
                #[trigger] t1.dbs[xdb].entries.contains(e) <==> (t0.dbs[xdb].entries.contains(e)
                    || e == (kx, id_key(id)))))
        }
}

/// The databases that do not belong to the collection are identical in
/// the two transaction states.
pub open spec fn others_unchanged(t0: TxnView, t1: TxnView, ci: CollectionInfo) -> bool {
    &&& t1.dbs.len() == t0.dbs.len()
    &&& (forall|j: int|
        0 <= j < t0.dbs.len() && j != ci.primary.index as int && (forall|x: int|
            0 <= x < ci.indexes@.len() ==> (#[trigger] ci.indexes@[x]).db.index != j)
            ==> #[trigger] t1.dbs[j] == t0.dbs[j])
}

/// Builds the index key of an object under an index's property list.
pub fn build_key(values: &Vec<Option<IsarValue>>, props: &Vec<u16>) -> (r: IndexKey)
    requires
        forall|i: int| 0 <= i < props@.len() ==> (#[trigger] props@[i]) < values@.len(),
    ensures
        r.bytes@ == obj_key(obj_view(values@), props@),
{
    let ghost o = obj_view(values@);
    let mut key = IndexKey::new();
    let n = props.len();
    let mut i: usize = 0;
    while i < n
        invariant
            i <= n,
            n == props@.len(),
            o == obj_view(values@),
            o.len() == values@.len(),
            forall|j: int| 0 <= j < props@.len() ==> (#[trigger] props@[j]) < values@.len(),
            key.bytes@ == key_upto(o, props@, i as int),
        decreases n - i,
    {
        let p = props[i];
        key.add_value(&values[p as usize]);
        proof {
            assert(o[props@[i as int] as int] == opt_view(values@[props@[i as int] as int]));
        }
        i = i + 1;
    }
    key
}

/// Whether a value fits a declared kind; null fits every kind.
pub open spec fn fits_kind(v: Option<ValView>, k: ValueKind) -> bool {
    match v {
        Option::None => true,
        Option::Some(x) => crate::value::kind_of(x) == k,
    }
}

/// Whether an object matches a collection's declared shape.
pub open spec fn valid_object(o: Seq<Option<ValView>>, kinds: Seq<ValueKind>) -> bool {
    o.len() == kinds.len() && (forall|i: int| 0 <= i < o.len() ==> fits_kind(o[i], kinds[i]))
}

/// Checks an object against the declared kinds.
pub fn check_object(values: &Vec<Option<IsarValue>>, kinds: &Vec<ValueKind>) -> (r: bool)
    ensures
        r == valid_object(obj_view(values@), kinds@),
{
    let ghost o = obj_view(values@);
    if values.len() != kinds.len() {
        return false;
    }
    let n = values.len();
    let mut i: usize = 0;
    while i < n
        invariant
            i <= n,
            n == values@.len(),
            n == kinds@.len(),
            o == obj_view(values@),
            o.len() == n,
            forall|j: int| 0 <= j < i ==> fits_kind(o[j], kinds@[j]),
        decreases n - i,
    {
        proof {
            assert(o[i as int] == opt_view(values@[i as int]));
        }
        let ok = match &values[i] {
            Option::None => true,
            Option::Some(v) => v.kind() == kinds[i],
        };
        if !ok {
            return false;
        }
        i = i + 1;
    }
    true
}

/// A reserved id: zero and the extreme values are sentinels.
pub open spec fn reserved_id(id: i64) -> bool {
    id == 0 || id == i64::MIN || id == i64::MAX
}

/// Well-formedness of an instance: every collection's sub-database
/// handles point into the environment, primaries hold unique keys,
/// index databases allow duplicates exactly when the index is not
/// unique, and every index property is a valid slot.
pub open spec fn layout_ok(env_v: Seq<crate::txn::DbView>, cols: Seq<CollectionInfo>) -> bool {
    forall|c: int|
        0 <= c < cols.len() ==> {
            let ci = #[trigger] cols[c];
            &&& ci.primary.index < env_v.len()
            &&& !env_v[ci.primary.index as int].dup
            &&& (forall|x: int|
                0 <= x < ci.indexes@.len() ==> {
                    let xi = #[trigger] ci.indexes@[x];
                    &&& xi.db.index < env_v.len()
                    &&& env_v[xi.db.index as int].dup == !xi.unique
                    &&& xi.db.index != ci.primary.index
                    &&& (forall|x2: int|
                        0 <= x2 < x ==> (#[trigger] ci.indexes@[x2]).db.index != xi.db.index)
                    &&& (forall|p: int|
                        0 <= p < xi.props@.len() ==> (#[trigger] xi.props@[p])
                            < ci.kinds@.len())
                })
        }
}

/// Well-formedness of an instance.
pub open spec fn inst_wf(inst: IsarInstance) -> bool {
    &&& crate::txn::env_wf(inst.env@)
    &&& layout_ok(inst.env@, inst.collections@)
}

/// Whether a transaction's snapshot still covers an instance's
/// handles: it was begun on this instance's environment.
pub open spec fn txn_covers(t: TxnView, inst: IsarInstance) -> bool {
    &&& t.dbs.len() >= inst.env@.len()
    &&& forall|c: int|
        0 <= c < inst.collections@.len() ==> {
            let ci = #[trigger] inst.collections@[c];
            &&& ci.primary.index < t.dbs.len()
            &&& !t.dbs[ci.primary.index as int].dup
            &&& (forall|x: int|
                0 <= x < ci.indexes@.len() ==> {
                    let xi = #[trigger] ci.indexes@[x];
                    &&& xi.db.index < t.dbs.len()
                    &&& t.dbs[xi.db.index as int].dup == !xi.unique
                    &&& xi.db.index != ci.primary.index
                    &&& (forall|x2: int|
                        0 <= x2 < x ==> (#[trigger] ci.indexes@[x2]).db.index != xi.db.index)
                    &&& (forall|p: int|
                        0 <= p < xi.props@.len() ==> (#[trigger] xi.props@[p])
                            < ci.kinds@.len())
                })
        }
}

proof fn lemma_produced_key_none(v: Seq<u8>, props: Seq<u16>, j: int, k: int)
    requires
        0 <= j <= k,
        produced_key(v, props, j) is None,
    ensures
        produced_key(v, props, k) is None,
    decreases k - j,
{
    if j < k {
        lemma_produced_key_none(v, props, j, k - 1);
    }
}

/// Derives the index key stored for an encoded object, reading each
/// indexed property back.
pub fn key_from_bytes(b: &[u8], props: &Vec<u16>) -> (r: Result<Vec<u8>, IsarError>)
    ensures
        match r {
            Result::Ok(k) => produced_key(b@, props@, props@.len() as int) == Option::Some(k@),
            Result::Err(e) => produced_key(b@, props@, props@.len() as int) is None && e
                == IsarError::EncodingError,
        },
{
    let mut key = IndexKey::new();
    let n = props.len();
    let mut i: usize = 0;
    while i < n
        invariant
            i <= n,
            n == props@.len(),
            produced_key(b@, props@, i as int) == Option::Some(key.bytes@),
        decreases n - i,
    {
        let p = props[i];
        match read_prop(b, p as usize) {
            Ok(v) => {
                key.add_value(&v);
            }
            Err(e) => {
                proof {
                    lemma_produced_key_none(b@, props@, i as int + 1, props@.len() as int);
                }
                return Err(e);
            }
        }
        i = i + 1;
    }
    Ok(key.bytes)
}

impl IsarInstance {
    /// The instance's logical name.
    pub fn get_name(&self) -> (r: &Vec<u8>)
        ensures
            r@ == self.name@,
    {
        &self.name
    }

    /// The instance's directory.
    pub fn get_dir(&self) -> (r: &Vec<u8>)
        ensures
            r@ == self.dir@,
    {
        &self.dir
    }

    /// How many collections the schema declares.
    pub fn collection_count(&self) -> (r: usize)
        ensures
            r == self.collections@.len(),
    {
        self.collections.len()
    }

    /// Begins a transaction on this instance's committed state.
    pub fn begin_txn(&self, write: bool) -> (r: NativeTxn)
        requires
            inst_wf(*self),
        ensures
            r@.active,
            r@.write == write,
            r@.instance_id == self.instance_id,
            r@.dbs == self.env@,
            r@.change_set == Seq::<(u16, Option<i64>)>::empty(),
            crate::txn::txn_wf(r@),
            txn_covers(r@, *self),
    {
        let t = NativeTxn::new(self.instance_id, &self.env, write);
        t
    }

    /// Commits a transaction: on success the write snapshot becomes
    /// the committed state and the notifications owed to the watchers
    /// are computed from the committed change set — watchers learn of
    /// a change only after the commit has succeeded. A latched
    /// transaction cannot commit, and its changes are discarded.
    pub fn commit_txn(&mut self, txn: NativeTxn) -> (r: Result<Vec<Notification>, IsarError>)
        requires
            inst_wf(*old(self)),
            crate::txn::txn_wf(txn@),
            txn_covers(txn@, *old(self)),
        ensures
            final(self).collections@ == old(self).collections@,
            final(self).watchers.watchers@ == old(self).watchers.watchers@,
            inst_wf(*final(self)),
            !txn@.active ==> r == Result::<Vec<Notification>, IsarError>::Err(
                IsarError::TransactionClosed,
            ) && final(self).env@ == old(self).env@,
            txn@.active ==> (match r {
                Result::Ok(notifs) => notifs@ == crate::watcher::notifs_of(
                    old(self).watchers.watchers@,
                    txn@.change_set,
                    txn@.change_set.len() as int,
                ) && final(self).env@ == (if txn@.write {
                    txn@.dbs
                } else {
                    old(self).env@
                }),
                Result::Err(_) => false,
            }),
    {
        let ghost tv = txn@;
        let cs = match txn.commit(&mut self.env) {
            Ok(cs) => cs,
            Err(e) => {
                return Err(e);
            }
        };
        proof {
            assert forall|c: int| 0 <= c < self.collections@.len() implies {
                let ci = #[trigger] self.collections@[c];
                &&& ci.primary.index < self.env@.len()
                &&& !self.env@[ci.primary.index as int].dup
                &&& (forall|x: int|
                    0 <= x < ci.indexes@.len() ==> {
                        let xi = #[trigger] ci.indexes@[x];
                        &&& xi.db.index < self.env@.len()
                        &&& self.env@[xi.db.index as int].dup == !xi.unique
                        &&& xi.db.index != ci.primary.index
                        &&& (forall|p: int|
                            0 <= p < xi.props@.len() ==> (#[trigger] xi.props@[p])
                                < ci.kinds@.len())
                    })
            } by {
                assert(old(self).collections@[c] == self.collections@[c]);
            }
        }
        Ok(self.watchers.notify_watchers(&cs))
    }

    /// Aborts a transaction: the committed state is untouched and no
    /// watcher is ever notified of its changes.
    pub fn abort_txn(&self, txn: NativeTxn) {
        txn.abort();
    }

    /// Subscribes a watcher at instance, collection, or object
    /// granularity; returns the cancellation handle. Fails only when
    /// the handle space is exhausted.
    pub fn watch(&mut self, collection: Option<u16>, obj_id: Option<i64>) -> (r: Option<u64>)
        ensures
            final(self).env@ == old(self).env@,
            final(self).collections@ == old(self).collections@,
            match r {
                Option::Some(h) => {
                    &&& h == old(self).watchers.next_handle
                    &&& final(self).watchers.watchers@ == old(self).watchers.watchers@.push(
                        (crate::watcher::Watcher { handle: h, collection, obj_id }),
                    )
                    &&& final(self).watchers.next_handle == old(self).watchers.next_handle + 1
                },
                Option::None => old(self).watchers.next_handle == u64::MAX && final(self).watchers
                    == old(self).watchers,
            },
    {
        self.watchers.watch(collection, obj_id)
    }

    /// Cancels the subscription with the given handle; returns whether
    /// one existed.
    pub fn unwatch(&mut self, handle: u64) -> (r: bool)
        ensures
            final(self).env@ == old(self).env@,
            final(self).collections@ == old(self).collections@,
            final(self).watchers.next_handle == old(self).watchers.next_handle,
            r ==> exists|i: int|
                0 <= i < old(self).watchers.watchers@.len() && old(
                    self,
                ).watchers.watchers@[i].handle == handle && final(self).watchers.watchers@ == old(
                    self,
                ).watchers.watchers@.remove(i),
            !r ==> (forall|i: int|
                0 <= i < old(self).watchers.watchers@.len() ==> old(
                    self,
                ).watchers.watchers@[i].handle != handle) && final(self).watchers.watchers@ == old(
                self,
            ).watchers.watchers@,
    {
        self.watchers.unwatch(handle)
    }
}

/// Decides the structural part of instance well-formedness: every
/// handle in range, primaries unique-keyed, index databases duplicate
/// exactly when not unique, index properties within the declared
/// slots.
#[verifier::loop_isolation(false)]
fn check_inst(
    env: &Env,
    collections: &Vec<CollectionInfo>,
) -> (r: bool)
    ensures
        r == layout_ok(env@, collections@),
{
    let nc = collections.len();
    let ne = env.dbs.len();
    let mut c: usize = 0;
    while c < nc
        invariant
            c <= nc,
            nc == collections@.len(),
            ne == env@.len(),
            ne == env.dbs@.len(),
            forall|k: int|
                0 <= k < c ==> {
                    let ci = #[trigger] collections@[k];
                    &&& ci.primary.index < env@.len()
                    &&& !env@[ci.primary.index as int].dup
                    &&& (forall|x: int|
                        0 <= x < ci.indexes@.len() ==> {
                            let xi = #[trigger] ci.indexes@[x];
                            &&& xi.db.index < env@.len()
                            &&& env@[xi.db.index as int].dup == !xi.unique
                            &&& xi.db.index != ci.primary.index
                            &&& (forall|x2: int|
                                0 <= x2 < x ==> (#[trigger] ci.indexes@[x2]).db.index
                                    != xi.db.index)
                            &&& (forall|p: int|
                                0 <= p < xi.props@.len() ==> (#[trigger] xi.props@[p])
                                    < ci.kinds@.len())
                        })
                },
        decreases nc - c,
    {
        let col = &collections[c];
        if col.primary.index >= ne {
            return false;
        }
        proof {
            assert(env@[col.primary.index as int] == env.dbs@[col.primary.index as int]@);
        }
        if env.dbs[col.primary.index].dup {
            return false;
        }
        let nx = col.indexes.len();
        let mut x: usize = 0;
        while x < nx
            invariant
                x <= nx,
                nx == col.indexes@.len(),
                ne == env@.len(),
                ne == env.dbs@.len(),
                c < collections@.len(),
                col == &collections@[c as int],
                forall|y: int|
                    0 <= y < x ==> {
                        let xi = #[trigger] col.indexes@[y];
                        &&& xi.db.index < env@.len()
                        &&& env@[xi.db.index as int].dup == !xi.unique
                        &&& xi.db.index != col.primary.index
                        &&& (forall|x2: int|
                            0 <= x2 < y ==> (#[trigger] col.indexes@[x2]).db.index != xi.db.index)
                        &&& (forall|p: int|
                            0 <= p < xi.props@.len() ==> (#[trigger] xi.props@[p])
                                < col.kinds@.len())
                    },
            decreases nx - x,
        {
            let xi = &col.indexes[x];
            if xi.db.index >= ne {
                return false;
            }
            proof {
                assert(env@[xi.db.index as int] == env.dbs@[xi.db.index as int]@);
            }
            if env.dbs[xi.db.index].dup != !xi.unique {
                return false;
            }
            if xi.db.index == col.primary.index {
                return false;
            }
            let mut z: usize = 0;
            while z < x
                invariant
                    z <= x,
                    x < col.indexes@.len(),
                    xi == &col.indexes@[x as int],
                    forall|x2: int|
                        0 <= x2 < z ==> (#[trigger] col.indexes@[x2]).db.index != xi.db.index,
                decreases x - z,
            {
                if col.indexes[z].db.index == xi.db.index {
                    return false;
                }
                z = z + 1;
            }
            let np = xi.props.len();
            let mut p: usize = 0;
            while p < np
                invariant
                    p <= np,
                    np == xi.props@.len(),
                    x < col.indexes@.len(),
                    xi == &col.indexes@[x as int],
                    forall|q: int|
                        0 <= q < p ==> (#[trigger] xi.props@[q]) < col.kinds@.len(),
                decreases np - p,
            {
                if xi.props[p] as usize >= col.kinds.len() {
                    return false;
                }
                p = p + 1;
            }
            x = x + 1;
        }
        c = c + 1;
    }
    true
}

/// Opens an instance: creates the schema's sub-databases in a fresh
/// environment inside one write transaction, commits it, and checks
/// that the resulting layout is well formed.
#[verifier::loop_isolation(false)]
pub fn open_instance(
    instance_id: u32,
    name: Vec<u8>,
    dir: Vec<u8>,
    schema: &IsarSchema,
    max_size_mib: u32,
) -> (r: Result<IsarInstance, IsarError>)
    ensures
        match r {
            Result::Ok(inst) => {
                &&& inst_wf(inst)
                &&& inst.instance_id == instance_id
                &&& inst.collections@.len() == schema.collections@.len()
                &&& inst.watchers.watchers@ == Seq::<crate::watcher::Watcher>::empty()
                &&& (forall|d: int|
                    0 <= d < inst.env@.len() ==> (#[trigger] inst.env@[d]).entries.len() == 0)
                &&& (forall|c: int|
                    0 <= c < inst.collections@.len() ==> {
                        let ci = #[trigger] inst.collections@[c];
                        let cs = schema.collections@[c];
                        &&& ci.name@ == cs.name@
                        &&& ci.kinds@ == cs.kinds@
                        &&& ci.indexes@.len() == cs.indexes@.len()
                        &&& (forall|x: int|
                            0 <= x < ci.indexes@.len() ==> (#[trigger] ci.indexes@[x]).props@
                                == cs.indexes@[x].props@ && ci.indexes@[x].unique == cs.indexes@[
                                x].unique)
                    })
            },
            Result::Err(_) => true,
        },
{
    let _ = max_size_mib;
    let mut env = Env::new();
    let mut txn = NativeTxn::new(instance_id, &env, true);
    let mut collections: Vec<CollectionInfo> = Vec::new();
    let nc = schema.collections.len();
    let mut c: usize = 0;
    while c < nc
        invariant
            c <= nc,
            nc == schema.collections@.len(),
            collections@.len() == c,
            txn@.active,
            txn@.write,
            crate::txn::txn_wf(txn@),
            forall|d: int|
                0 <= d < txn@.dbs.len() ==> (#[trigger] txn@.dbs[d]).entries.len() == 0,
            forall|k: int|
                0 <= k < c ==> {
                    let ci = #[trigger] collections@[k];
                    let cs = schema.collections@[k];
                    &&& ci.name@ == cs.name@
                    &&& ci.kinds@ == cs.kinds@
                    &&& ci.indexes@.len() == cs.indexes@.len()
                    &&& (forall|x: int|
                        0 <= x < ci.indexes@.len() ==> (#[trigger] ci.indexes@[x]).props@
                            == cs.indexes@[x].props@ && ci.indexes@[x].unique == cs.indexes@[
                            x].unique)
                },
        decreases nc - c,
    {
        let cs = &schema.collections[c];
        let primary = match txn.open_db(cs.name.as_slice(), true, false) {
            Ok(db) => db,
            Err(e) => {
                txn.abort();
                return Err(e);
            }
        };
        let mut indexes: Vec<IndexInfo> = Vec::new();
        let nx = cs.indexes.len();
        let mut x: usize = 0;
        while x < nx
            invariant
                x <= nx,
                nx == cs.indexes@.len(),
                indexes@.len() == x,
                c < schema.collections@.len(),
                cs == &schema.collections@[c as int],
                txn@.active,
                txn@.write,
                crate::txn::txn_wf(txn@),
                forall|d: int|
                    0 <= d < txn@.dbs.len() ==> (#[trigger] txn@.dbs[d]).entries.len() == 0,
                forall|x2: int|
                    0 <= x2 < x ==> (#[trigger] indexes@[x2]).props@ == cs.indexes@[x2].props@
                        && indexes@[x2].unique == cs.indexes@[x2].unique,
            decreases nx - x,
        {
            let ix = &cs.indexes[x];
            let mut dbname = crate::txn::clone_bytes(&cs.name);
            dbname.push(95u8);
            crate::codec::push_bytes(&mut dbname, ix.name.as_slice());
            let db = match txn.open_db(dbname.as_slice(), false, !ix.unique) {
                Ok(db) => db,
                Err(e) => {
                    txn.abort();
                    return Err(e);
                }
            };
            let mut ps: Vec<u16> = Vec::new();
            let np = ix.props.len();
            let mut p: usize = 0;
            while p < np
                invariant
                    p <= np,
                    np == ix.props@.len(),
                    ps@ == ix.props@.take(p as int),
                decreases np - p,
            {
                ps.push(ix.props[p]);
                proof {
                    assert(ps@ =~= ix.props@.take(p as int + 1));
                }
                p = p + 1;
            }
            proof {
                assert(ps@ =~= ix.props@);
            }
            indexes.push(IndexInfo { db, props: ps, unique: ix.unique });
            x = x + 1;
        }
        let mut kinds: Vec<ValueKind> = Vec::new();
        let nk = cs.kinds.len();
        let mut k: usize = 0;
        while k < nk
            invariant
                k <= nk,
                nk == cs.kinds@.len(),
                c < schema.collections@.len(),
                cs == &schema.collections@[c as int],
                kinds@ == cs.kinds@.take(k as int),
            decreases nk - k,
        {
            kinds.push(cs.kinds[k]);
            proof {
                assert(kinds@ =~= cs.kinds@.take(k as int + 1));
            }
            k = k + 1;
        }
        proof {
            assert(kinds@ =~= cs.kinds@);
        }
        collections.push(
            CollectionInfo {
                name: crate::txn::clone_bytes(&cs.name),
                kinds,
                primary,
                indexes,
            },
        );
        c = c + 1;
    }
    let ghost tv = txn@;
    match txn.commit(&mut env) {
        Ok(_) => {}
        Err(e) => {
            return Err(e);
        }
    }
    proof {
        assert(env@ == tv.dbs);
        assert(crate::txn::env_wf(env@));
    }
    if !check_inst(&env, &collections) {
        return Err(IsarError::SchemaMismatch);
    }
    let inst = IsarInstance {
        instance_id,
        name,
        dir,
        env,
        collections,
        watchers: WatcherRegistry::new(),
    };
    Ok(inst)
}

/// A borrowed-out view of one stored object: its id and its encoded
/// bytes, copied out of the snapshot under the transaction.
pub struct IsarReader {
    pub id: i64,
    pub data: Vec<u8>,
}

impl IsarReader {
    /// The object's id.
    pub fn read_id(&self) -> (r: i64)
        ensures
            r == self.id,
    {
        self.id
    }

    /// Reads one property without decoding the rest.
    pub fn read(&self, prop: u16) -> (r: Result<Option<IsarValue>, IsarError>)
        ensures
            match r {
                Result::Ok(v) => spec_read_prop(self.data@, prop as int) == Option::Some(
                    opt_view(v),
                ),
                Result::Err(e) => spec_read_prop(self.data@, prop as int) is None && e
                    == IsarError::EncodingError,
            },
    {
        read_prop(self.data.as_slice(), prop as usize)
    }
}

impl IsarInstance {
    /// Looks one object up by id.
    pub fn get(&self, txn: &NativeTxn, collection_index: u16, id: i64) -> (r: Result<
        Option<IsarReader>,
        IsarError,
    >)
        requires
            inst_wf(*self),
            txn_covers(txn@, *self),
        ensures
            !txn@.active ==> r == Result::<Option<IsarReader>, IsarError>::Err(
                IsarError::TransactionClosed,
            ),
            txn@.active && collection_index >= self.collections@.len() ==> r == Result::<
                Option<IsarReader>,
                IsarError,
            >::Err(IsarError::IllegalArg),
            txn@.active && collection_index < self.collections@.len() ==> (match r {
                Result::Ok(o) => {
                    let pdb = self.collections@[collection_index as int].primary.index as int;
                    match o {
                        Option::Some(rd) => rd.id == id && txn@.dbs[pdb].entries.contains(
                            (id_key(id), rd.data@),
                        ),
                        Option::None => forall|j: int|
                            0 <= j < txn@.dbs[pdb].entries.len() ==> txn@.dbs[pdb].entries[j].0
                                != id_key(id),
                    }
                },
                Result::Err(_) => false,
            }),
    {
        if !txn.active {
            return Err(IsarError::TransactionClosed);
        }
        let ghost t0 = txn@;
        proof {
            assert(t0.active);
        }
        let ci = collection_index as usize;
        if ci >= self.collections.len() {
            return Err(IsarError::IllegalArg);
        }
        let col = &self.collections[ci];
        let idk = encode_id(id);
        match txn.db_get(col.primary, idk.as_slice()) {
            Ok(Some(v)) => Ok(Some(IsarReader { id, data: v })),
            Ok(None) => Ok(None),
            Err(e) => Err(e),
        }
    }

    /// The number of objects in a collection.
    pub fn count(&self, txn: &NativeTxn, collection_index: u16) -> (r: Result<u32, IsarError>)
        requires
            inst_wf(*self),
            txn_covers(txn@, *self),
        ensures
            !txn@.active ==> r == Result::<u32, IsarError>::Err(IsarError::TransactionClosed),
            txn@.active && collection_index >= self.collections@.len() ==> r == Result::<
                u32,
                IsarError,
            >::Err(IsarError::IllegalArg),
            txn@.active && collection_index < self.collections@.len() ==> (match r {
                Result::Ok(n) => {
                    let pdb = self.collections@[collection_index as int].primary.index as int;
                    txn@.dbs[pdb].entries.len() <= u32::MAX ==> n == txn@.dbs[pdb].entries.len()
                },
                Result::Err(_) => false,
            }),
    {
        if !txn.active {
            return Err(IsarError::TransactionClosed);
        }
        let ghost t0 = txn@;
        proof {
            assert(t0.active);
        }
        let ci = collection_index as usize;
        if ci >= self.collections.len() {
            return Err(IsarError::IllegalArg);
        }
        let col = &self.collections[ci];
        let n = match txn.db_count(col.primary) {
            Ok(n) => n,
            Err(e) => {
                return Err(e);
            }
        };
        if n > u32::MAX as usize {
            Ok(u32::MAX)
        } else {
            Ok(n as u32)
        }
    }

    /// Inserts or replaces one object. A caller-supplied id must not
    /// be a reserved sentinel; without one the next id above the
    /// largest stored id is allocated. Updates every index of the
    /// collection and records the change event. A unique-index
    /// collision fails with a violation and latches the transaction.
    #[verifier::loop_isolation(false)]
    #[verifier::rlimit(100)]
    pub fn insert(
        &self,
        txn: &mut NativeTxn,
        collection_index: u16,
        id: Option<i64>,
        values: &Vec<Option<IsarValue>>,
    ) -> (r: Result<i64, IsarError>)
        requires
            inst_wf(*self),
            txn_covers(old(txn)@, *self),
            crate::txn::txn_wf(old(txn)@),
        ensures
            crate::txn::txn_wf(final(txn)@),
            txn_covers(final(txn)@, *self),
            !old(txn)@.active ==> r == Result::<i64, IsarError>::Err(IsarError::TransactionClosed)
                && final(txn)@ == old(txn)@,
            old(txn)@.active && collection_index >= self.collections@.len() ==> r == Result::<
                i64,
                IsarError,
            >::Err(IsarError::IllegalArg) && final(txn)@ == old(txn)@,
            r == Result::<i64, IsarError>::Err(IsarError::IllegalArg) ==> final(txn)@ == old(
                txn,
            )@,
            old(txn)@.active && r is Err && r != Result::<i64, IsarError>::Err(
                IsarError::IllegalArg,
            ) ==> !final(txn)@.active,
            old(txn)@.active && old(txn)@.write && collection_index < self.collections@.len()
                && id is Some && !reserved_id(id->0) && valid_object(
                obj_view(values@),
                self.collections@[collection_index as int].kinds@,
            ) && crate::codec::obj_wf(obj_view(values@)) && !unique_conflict(
                old(txn)@,
                self.collections@[collection_index as int],
                obj_view(values@),
                id->0,
            ) && stored_keys_readable(
                old(txn)@,
                self.collections@[collection_index as int],
                id->0,
            ) ==> r is Ok,
            old(txn)@.active && collection_index < self.collections@.len() && id is Some
                && !reserved_id(id->0) && valid_object(
                obj_view(values@),
                self.collections@[collection_index as int].kinds@,
            ) && crate::codec::obj_wf(obj_view(values@)) ==> (r == Result::<i64, IsarError>::Err(
                IsarError::UniqueViolation,
            ) <==> unique_conflict(
                old(txn)@,
                self.collections@[collection_index as int],
                obj_view(values@),
                id->0,
            )),
            r is Ok ==> {
                let rid = r->Ok_0;
                let cinfo = self.collections@[collection_index as int];
                let pdb = cinfo.primary.index as int;
                &&& collection_index < self.collections@.len()
                &&& final(txn)@.active
                &&& !reserved_id(rid)
                &&& (id is Some ==> rid == id->0)
                &&& (forall|e: (Seq<u8>, Seq<u8>)|
                    #[trigger] final(txn)@.dbs[pdb].entries.contains(e) <==> ((old(
                        txn,
                    )@.dbs[pdb].entries.contains(e) && e.0 != id_key(rid)) || e == (
                    id_key(rid),
                    enc_obj(obj_view(values@)),
                    )))
                &&& final(txn)@.dbs[pdb].entries.contains(
                    (id_key(rid), enc_obj(obj_view(values@))),
                )
                &&& (primary_has(old(txn)@, cinfo, rid) ==> (exists|oldv: Seq<u8>, mid: TxnView|
                    old(txn)@.dbs[pdb].entries.contains((id_key(rid), oldv))
                        && #[trigger] index_entries_removed(old(txn)@, mid, cinfo, oldv, rid)
                        && index_entries_written(mid, final(txn)@, cinfo, obj_view(values@), rid)))
                &&& (!primary_has(old(txn)@, cinfo, rid) ==> index_entries_written(
                    old(txn)@,
                    final(txn)@,
                    cinfo,
                    obj_view(values@),
                    rid,
                ))
                &&& others_unchanged(old(txn)@, final(txn)@, cinfo)
                &&& final(txn)@ == (TxnView {
                    dbs: final(txn)@.dbs,
                    change_set: final(txn)@.change_set,
                    ..old(txn)@
                })
                &&& final(txn)@.change_set.contains((collection_index, Option::Some(rid)))
            },
    {
        if !txn.active {
            return Err(IsarError::TransactionClosed);
        }
        let ghost t0 = old(txn)@;
        proof {
            assert(t0.active);
            assert(crate::txn::txn_wf(t0));
            assert(txn_covers(t0, *self));
        }
        let ci = collection_index as usize;
        if ci >= self.collections.len() {
            return Err(IsarError::IllegalArg);
        }
        let col = &self.collections[ci];
        let ghost cinfo = self.collections@[ci as int];
        let rid: i64 = match id {
            Some(v) => {
                if v == 0 || v == i64::MIN || v == i64::MAX {
                    return Err(IsarError::IllegalArg);
                }
                v
            }
            None => {
                let last = match txn.db_last(col.primary) {
                    Ok(l) => l,
                    Err(e) => {
                        return Err(e);
                    }
                };
                match last {
                    None => 1,
                    Some(kv) => {
                        let prev = match crate::keys::decode_id(kv.0.as_slice()) {
                            Ok(p) => p,
                            Err(e) => {
                                txn.latch();
                                return Err(e);
                            }
                        };
                        if prev >= i64::MAX - 1 {
                            txn.latch();
                            return Err(IsarError::DbFull);
                        }
                        if prev < 1 {
                            1
                        } else {
                            prev + 1
                        }
                    }
                }
            }
        };
        if !check_object(values, &col.kinds) {
            return Err(IsarError::IllegalArg);
        }
        let bytes = match encode_obj(values) {
            Ok(b) => b,
            Err(e) => {
                txn.latch();
                return Err(e);
            }
        };
        let ghost o = obj_view(values@);
        let ghost enc = enc_obj(o);
        let idk = encode_id(rid);
        // compute the new index keys, and reject unique collisions
        // before any mutation
        let nidx = col.indexes.len();
        let mut keys: Vec<Vec<u8>> = Vec::new();
        let mut x: usize = 0;
        while x < nidx
            invariant
                x <= nidx,
                nidx == col.indexes@.len(),
                keys@.len() == x,
                txn@ == t0,
                txn@.active,
                inst_wf(*self),
                txn_covers(t0, *self),
                ci < self.collections@.len(),
                col == &self.collections[ci as int],
                cinfo == self.collections@[ci as int],
                values@.len() == col.kinds@.len(),
                o == obj_view(values@),
                idk@ == id_key(rid),
                forall|j: int|
                    0 <= j < x ==> keys@[j]@ == obj_key(o, (#[trigger] cinfo.indexes@[j]).props@),
                forall|j: int|
                    0 <= j < x && (#[trigger] cinfo.indexes@[j]).unique ==> (forall|
                        e: (Seq<u8>, Seq<u8>),
                    |
                        t0.dbs[cinfo.indexes@[j].db.index as int].entries.contains(e) && e.0
                            == obj_key(o, cinfo.indexes@[j].props@) ==> e.1 == id_key(rid)),
            decreases nidx - x,
        {
            let xi = &col.indexes[x];
            proof {
                assert(self.collections@[ci as int].indexes@[x as int] == col.indexes@[x as int]);
            }
            let k = build_key(values, &xi.props);
            if xi.unique {
                let hit = match txn.db_get(xi.db, k.bytes.as_slice()) {
                    Ok(h) => h,
                    Err(e) => {
                        return Err(e);
                    }
                };
                let ghost xdb = cinfo.indexes@[x as int].db.index as int;
                match hit {
                    Some(other) => {
                        if !crate::keys::bytes_eq(other.as_slice(), idk.as_slice()) {
                            txn.latch();
                            proof {
                                assert(t0.dbs[xdb].entries.contains((k.bytes@, other@)));
                                assert(unique_conflict(t0, cinfo, o, rid));
                            }
                            return Err(IsarError::UniqueViolation);
                        }
                        proof {
                            assert(t0.dbs[xdb].entries.contains((k.bytes@, other@)));
                            assert forall|e: (Seq<u8>, Seq<u8>)|
                                t0.dbs[xdb].entries.contains(e) && e.0 == obj_key(
                                    o,
                                    cinfo.indexes@[x as int].props@,
                                ) implies e.1 == id_key(rid) by {
                                let j1 = choose|j1: int|
                                    0 <= j1 < t0.dbs[xdb].entries.len() && t0.dbs[xdb].entries[j1]
                                        == e;
                                let j2 = choose|j2: int|
                                    0 <= j2 < t0.dbs[xdb].entries.len() && t0.dbs[xdb].entries[j2]
                                        == (k.bytes@, other@);
                                assert(crate::txn::db_wf(t0.dbs[xdb]));
                                assert(!t0.dbs[xdb].dup);
                                if j1 < j2 {
                                    assert(crate::keys::lex_lt(
                                        t0.dbs[xdb].entries[j1].0,
                                        t0.dbs[xdb].entries[j2].0,
                                    ));
                                    crate::keys::lemma_lex_lt_irrefl(e.0);
                                } else if j2 < j1 {
                                    assert(crate::keys::lex_lt(
                                        t0.dbs[xdb].entries[j2].0,
                                        t0.dbs[xdb].entries[j1].0,
                                    ));
                                    crate::keys::lemma_lex_lt_irrefl(e.0);
                                }
                            }
                        }
                    }
                    None => {
                        proof {
                            assert forall|e: (Seq<u8>, Seq<u8>)|
                                t0.dbs[xdb].entries.contains(e) && e.0 == obj_key(
                                    o,
                                    cinfo.indexes@[x as int].props@,
                                ) implies e.1 == id_key(rid) by {
                                let j1 = choose|j1: int|
                                    0 <= j1 < t0.dbs[xdb].entries.len() && t0.dbs[xdb].entries[j1]
                                        == e;
                            }
                        }
                    }
                }
            }
            keys.push(k.bytes);
            x = x + 1;
        }
        proof {
            if unique_conflict(t0, cinfo, o, rid) {
                let cx = choose|cx: int|
                    0 <= cx < cinfo.indexes@.len() && (#[trigger] cinfo.indexes@[cx]).unique && (
                    exists|e: (Seq<u8>, Seq<u8>)|
                        t0.dbs[cinfo.indexes@[cx].db.index as int].entries.contains(e) && e.0
                            == obj_key(o, cinfo.indexes@[cx].props@) && e.1 != id_key(rid));
                assert(false);
            }
        }
        // when replacing, remove the index entries of the prior value
        let old_val = match txn.db_get(col.primary, idk.as_slice()) {
            Ok(o2) => o2,
            Err(e) => {
                return Err(e);
            }
        };
        let ghost had_old = old_val is Some;
        let ghost gob: Seq<u8> = match old_val {
            Some(ref ob) => ob@,
            None => Seq::empty(),
        };
        proof {
            if had_old {
                assert(t0.dbs[cinfo.primary.index as int].entries.contains((id_key(rid), gob)));
            } else {
                assert(!primary_has(t0, cinfo, rid));
            }
            if had_old && stored_keys_readable(t0, cinfo, rid) {
                let j = choose|j: int|
                    0 <= j < t0.dbs[cinfo.primary.index as int].entries.len()
                        && t0.dbs[cinfo.primary.index as int].entries[j] == (id_key(rid), gob);
                assert(t0.dbs[cinfo.primary.index as int].entries[j].0 == id_key(rid));
            }
        }
        match old_val {
            Some(ob) => {
                let mut y: usize = 0;
                while y < nidx
                    invariant
                        y <= nidx,
                        nidx == col.indexes@.len(),
                        txn@.active,
                        old(txn)@ == t0,
                        txn@.write == t0.write,
                        txn@.dbs.len() == t0.dbs.len(),
                        crate::txn::txn_wf(txn@),
                        txn_covers(txn@, *self),
                        txn_covers(t0, *self),
                        txn@.change_set == t0.change_set,
                        txn@ == (TxnView { dbs: txn@.dbs, ..t0 }),
                        inst_wf(*self),
                        ci < self.collections@.len(),
                        col == &self.collections[ci as int],
                        cinfo == self.collections@[ci as int],
                        idk@ == id_key(rid),
                        gob == ob@,
                        forall|v: int|
                            0 <= v < y ==> produced_key(
                                gob,
                                (#[trigger] cinfo.indexes@[v]).props@,
                                cinfo.indexes@[v].props@.len() as int,
                            ) is Some,
                        forall|v: int|
                            0 <= v < y && (#[trigger] cinfo.indexes@[v]).unique ==> (forall|
                                e: (Seq<u8>, Seq<u8>),
                            |
                                #[trigger] txn@.dbs[cinfo.indexes@[
                                v].db.index as int].entries.contains(e) <==> (t0.dbs[cinfo.indexes@[
                                v].db.index as int].entries.contains(e) && e.0 != produced_key(
                                    gob,
                                    cinfo.indexes@[v].props@,
                                    cinfo.indexes@[v].props@.len() as int,
                                )->Some_0)),
                        forall|v: int|
                            0 <= v < y && !(#[trigger] cinfo.indexes@[v]).unique ==> (forall|
                                e: (Seq<u8>, Seq<u8>),
                            |
                                #[trigger] txn@.dbs[cinfo.indexes@[
                                v].db.index as int].entries.contains(e) <==> (t0.dbs[cinfo.indexes@[
                                v].db.index as int].entries.contains(e) && e != (
                                produced_key(
                                    gob,
                                    cinfo.indexes@[v].props@,
                                    cinfo.indexes@[v].props@.len() as int,
                                )->Some_0,
                                id_key(rid),
                                ))),
                        forall|j: int|
                            0 <= j < t0.dbs.len() && (forall|v: int|
                                0 <= v < y ==> (#[trigger] cinfo.indexes@[v]).db.index != j)
                                ==> txn@.dbs[j] == t0.dbs[j],
                    decreases nidx - y,
                {
                    let xi = &col.indexes[y];
                    proof {
                        assert(self.collections@[ci as int].indexes@[y as int] == col.indexes@[
                            y as int]);
                    }
                    let ok = match key_from_bytes(ob.as_slice(), &xi.props) {
                        Ok(k) => k,
                        Err(e) => {
                            txn.latch();
                            return Err(e);
                        }
                    };
                    if xi.unique {
                        match txn.db_del_key(xi.db, ok.as_slice()) {
                            Ok(_) => {}
                            Err(e) => {
                                return Err(e);
                            }
                        }
                    } else {
                        match txn.db_del_pair(xi.db, ok.as_slice(), idk.as_slice()) {
                            Ok(_) => {}
                            Err(e) => {
                                return Err(e);
                            }
                        }
                    }
                    y = y + 1;
                }
            }
            None => {}
        }
        let ghost gmid = txn@;
        proof {
            if had_old {
                assert(index_entries_removed(t0, gmid, cinfo, gob, rid));
            }
        }
        // write the object and its index entries
        let pk = crate::txn::clone_bytes(&idk);
        match txn.db_put(col.primary, pk, bytes) {
            Ok(_) => {}
            Err(e) => {
                return Err(e);
            }
        }
        let mut z: usize = 0;
        while z < nidx
            invariant
                z <= nidx,
                nidx == col.indexes@.len(),
                keys@.len() == nidx,
                txn@.active,
                old(txn)@ == t0,
                txn@.write == t0.write,
                txn@.dbs.len() == t0.dbs.len(),
                crate::txn::txn_wf(txn@),
                txn_covers(txn@, *self),
                txn_covers(t0, *self),
                txn@.change_set == t0.change_set,
                txn@ == (TxnView { dbs: txn@.dbs, ..t0 }),
                inst_wf(*self),
                ci < self.collections@.len(),
                col == &self.collections[ci as int],
                cinfo == self.collections@[ci as int],
                idk@ == id_key(rid),
                o == obj_view(values@),
                gmid.dbs.len() == t0.dbs.len(),
                forall|j: int|
                    0 <= j < nidx ==> keys@[j]@ == obj_key(o, (#[trigger] cinfo.indexes@[j]).props@),
                forall|e: (Seq<u8>, Seq<u8>)|
                    #[trigger] txn@.dbs[cinfo.primary.index as int].entries.contains(e) <==> ((
                    t0.dbs[cinfo.primary.index as int].entries.contains(e) && e.0 != id_key(rid))
                    || e == (id_key(rid), enc)),
                forall|v: int|
                    0 <= v < z && (#[trigger] cinfo.indexes@[v]).unique ==> (forall|
                        e: (Seq<u8>, Seq<u8>),
                    |
                        #[trigger] txn@.dbs[cinfo.indexes@[v].db.index as int].entries.contains(e)
                            <==> ((gmid.dbs[cinfo.indexes@[v].db.index as int].entries.contains(e)
                            && e.0 != obj_key(o, cinfo.indexes@[v].props@)) || e == (
                        obj_key(o, cinfo.indexes@[v].props@),
                        id_key(rid),
                        ))),
                forall|v: int|
                    0 <= v < z && !(#[trigger] cinfo.indexes@[v]).unique ==> (forall|
                        e: (Seq<u8>, Seq<u8>),
                    |
                        #[trigger] txn@.dbs[cinfo.indexes@[v].db.index as int].entries.contains(e)
                            <==> (gmid.dbs[cinfo.indexes@[v].db.index as int].entries.contains(e)
                            || e == (obj_key(o, cinfo.indexes@[v].props@), id_key(rid)))),
                forall|j: int|
                    0 <= j < t0.dbs.len() && j != cinfo.primary.index as int && (forall|v: int|
                        0 <= v < z ==> (#[trigger] cinfo.indexes@[v]).db.index != j) ==> txn@.dbs[j]
                        == gmid.dbs[j],
            decreases nidx - z,
        {
            let xi = &col.indexes[z];
            proof {
                assert(self.collections@[ci as int].indexes@[z as int] == col.indexes@[z as int]);
                assert(keys@[z as int]@ == obj_key(o, cinfo.indexes@[z as int].props@));
            }
            let kb = crate::txn::clone_bytes(&keys[z]);
            let vb = crate::txn::clone_bytes(&idk);
            match txn.db_put(xi.db, kb, vb) {
                Ok(_) => {}
                Err(e) => {
                    return Err(e);
                }
            }
            z = z + 1;
        }
        txn.record_change(collection_index, Some(rid));
        proof {
            assert(index_entries_written(gmid, txn@, cinfo, o, rid));
            if had_old {
                assert(t0.dbs[cinfo.primary.index as int].entries.contains((id_key(rid), gob)));
            }
            assert(txn@.dbs[cinfo.primary.index as int].entries.contains((id_key(rid), enc)));
        }
        Ok(rid)
    }

    /// Deletes one object and every index entry derived from it;
    /// false when the id is not stored.
    #[verifier::loop_isolation(false)]
    pub fn delete(&self, txn: &mut NativeTxn, collection_index: u16, id: i64) -> (r: Result<
        bool,
        IsarError,
    >)
        requires
            inst_wf(*self),
            txn_covers(old(txn)@, *self),
            crate::txn::txn_wf(old(txn)@),
        ensures
            crate::txn::txn_wf(final(txn)@),
            txn_covers(final(txn)@, *self),
            !old(txn)@.active ==> r == Result::<bool, IsarError>::Err(IsarError::TransactionClosed)
                && final(txn)@ == old(txn)@,
            old(txn)@.active && collection_index >= self.collections@.len() ==> r == Result::<
                bool,
                IsarError,
            >::Err(IsarError::IllegalArg) && final(txn)@ == old(txn)@,
            old(txn)@.active && r is Err && r != Result::<bool, IsarError>::Err(
                IsarError::IllegalArg,
            ) ==> !final(txn)@.active,
            old(txn)@.active && old(txn)@.write && collection_index < self.collections@.len()
                && stored_keys_readable(
                old(txn)@,
                self.collections@[collection_index as int],
                id,
            ) ==> r is Ok,
            r is Ok ==> collection_index < self.collections@.len() && r->Ok_0 == primary_has(
                old(txn)@,
                self.collections@[collection_index as int],
                id,
            ),
            r == Result::<bool, IsarError>::Ok(true) ==> {
                let cinfo = self.collections@[collection_index as int];
                let pdb = cinfo.primary.index as int;
                &&& collection_index < self.collections@.len()
                &&& final(txn)@.active
                &&& (forall|j: int|
                    0 <= j < final(txn)@.dbs[pdb].entries.len()
                        ==> final(txn)@.dbs[pdb].entries[j].0 != id_key(id))
                &&& (forall|e: (Seq<u8>, Seq<u8>)|
                    #[trigger] final(txn)@.dbs[pdb].entries.contains(e) <==> (old(
                        txn,
                    )@.dbs[pdb].entries.contains(e) && e.0 != id_key(id)))
                &&& (exists|oldv: Seq<u8>|
                    old(txn)@.dbs[pdb].entries.contains((id_key(id), oldv))
                        && #[trigger] index_entries_removed(old(txn)@, final(txn)@, cinfo, oldv, id))
                &&& others_unchanged(old(txn)@, final(txn)@, cinfo)
                &&& final(txn)@ == (TxnView {
                    dbs: final(txn)@.dbs,
                    change_set: final(txn)@.change_set,
                    ..old(txn)@
                })
                &&& final(txn)@.change_set.contains((collection_index, Option::Some(id)))
            },
            r == Result::<bool, IsarError>::Ok(false) ==> final(txn)@ == old(txn)@,
    {
        if !txn.active {
            return Err(IsarError::TransactionClosed);
        }
        let ghost t0 = old(txn)@;
        proof {
            assert(t0.active);
            assert(crate::txn::txn_wf(t0));
            assert(txn_covers(t0, *self));
        }
        let ci = collection_index as usize;
        if ci >= self.collections.len() {
            return Err(IsarError::IllegalArg);
        }
        let col = &self.collections[ci];
        let idk = encode_id(id);
        let old_val = match txn.db_get(col.primary, idk.as_slice()) {
            Ok(o) => o,
            Err(e) => {
                return Err(e);
            }
        };
        let ob = match old_val {
            Some(ob) => ob,
            None => {
                return Ok(false);
            }
        };
        let ghost cinfo = self.collections@[ci as int];
        let ghost gob = ob@;
        proof {
            assert(t0.dbs[cinfo.primary.index as int].entries.contains((id_key(id), gob)));
            if stored_keys_readable(t0, cinfo, id) {
                let j = choose|j: int|
                    0 <= j < t0.dbs[cinfo.primary.index as int].entries.len()
                        && t0.dbs[cinfo.primary.index as int].entries[j] == (id_key(id), gob);
                assert(t0.dbs[cinfo.primary.index as int].entries[j].0 == id_key(id));
            }
        }
        let nidx = col.indexes.len();
        let mut y: usize = 0;
        while y < nidx
            invariant
                y <= nidx,
                nidx == col.indexes@.len(),
                txn@.active,
                old(txn)@ == t0,
                txn@.write == t0.write,
                txn@.dbs.len() == t0.dbs.len(),
                crate::txn::txn_wf(txn@),
                txn_covers(txn@, *self),
                txn@.change_set == t0.change_set,
                txn@ == (TxnView { dbs: txn@.dbs, ..t0 }),
                inst_wf(*self),
                ci < self.collections@.len(),
                col == &self.collections[ci as int],
                cinfo == self.collections@[ci as int],
                idk@ == id_key(id),
                forall|x: int|
                    0 <= x < y ==> produced_key(
                        gob,
                        (#[trigger] cinfo.indexes@[x]).props@,
                        cinfo.indexes@[x].props@.len() as int,
                    ) is Some,
                forall|x: int|
                    0 <= x < y && (#[trigger] cinfo.indexes@[x]).unique ==> (forall|
                        e: (Seq<u8>, Seq<u8>),
                    |
                        #[trigger] txn@.dbs[cinfo.indexes@[x].db.index as int].entries.contains(e)
                            <==> (t0.dbs[cinfo.indexes@[x].db.index as int].entries.contains(e)
                            && e.0 != produced_key(
                            gob,
                            cinfo.indexes@[x].props@,
                            cinfo.indexes@[x].props@.len() as int,
                        )->Some_0)),
                forall|x: int|
                    0 <= x < y && !(#[trigger] cinfo.indexes@[x]).unique ==> (forall|
                        e: (Seq<u8>, Seq<u8>),
                    |
                        #[trigger] txn@.dbs[cinfo.indexes@[x].db.index as int].entries.contains(e)
                            <==> (t0.dbs[cinfo.indexes@[x].db.index as int].entries.contains(e)
                            && e != (
                        produced_key(
                            gob,
                            cinfo.indexes@[x].props@,
                            cinfo.indexes@[x].props@.len() as int,
                        )->Some_0,
                        id_key(id),
                        ))),
                forall|j: int|
                    0 <= j < t0.dbs.len() && (forall|x: int|
                        0 <= x < y ==> (#[trigger] cinfo.indexes@[x]).db.index != j)
                        ==> txn@.dbs[j] == t0.dbs[j],
            decreases nidx - y,
        {
            let xi = &col.indexes[y];
            proof {
                assert(self.collections@[ci as int].indexes@[y as int] == col.indexes@[y as int]);
            }
            let ok = match key_from_bytes(ob.as_slice(), &xi.props) {
                Ok(k) => k,
                Err(e) => {
                    txn.latch();
                    return Err(e);
                }
            };
            if xi.unique {
                match txn.db_del_key(xi.db, ok.as_slice()) {
                    Ok(_) => {}
                    Err(e) => {
                        return Err(e);
                    }
                }
            } else {
                match txn.db_del_pair(xi.db, ok.as_slice(), idk.as_slice()) {
                    Ok(_) => {}
                    Err(e) => {
                        return Err(e);
                    }
                }
            }
            y = y + 1;
        }
        match txn.db_del_key(col.primary, idk.as_slice()) {
            Ok(_) => {}
            Err(e) => {
                return Err(e);
            }
        }
        proof {
            let pdb = col.primary.index as int;
            assert forall|j: int| 0 <= j < txn@.dbs[pdb].entries.len() implies txn@.dbs[
                pdb].entries[j].0 != id_key(id) by {
                assert(txn@.dbs[pdb].entries.contains(txn@.dbs[pdb].entries[j]));
            }
        }
        txn.record_change(collection_index, Some(id));
        proof {
            assert(index_entries_removed(t0, txn@, cinfo, gob, id));
        }
        Ok(true)
    }

    /// Merges property patches into a stored object, rewriting it and
    /// its index entries; false when the id is not stored.
    #[verifier::loop_isolation(false)]
    pub fn update(
        &self,
        txn: &mut NativeTxn,
        collection_index: u16,
        id: i64,
        updates: &Vec<(u16, Option<IsarValue>)>,
    ) -> (r: Result<bool, IsarError>)
        requires
            inst_wf(*self),
            txn_covers(old(txn)@, *self),
            crate::txn::txn_wf(old(txn)@),
        ensures
            crate::txn::txn_wf(final(txn)@),
            txn_covers(final(txn)@, *self),
            !old(txn)@.active ==> r == Result::<bool, IsarError>::Err(IsarError::TransactionClosed)
                && final(txn)@ == old(txn)@,
            old(txn)@.active && collection_index >= self.collections@.len() ==> r == Result::<
                bool,
                IsarError,
            >::Err(IsarError::IllegalArg) && final(txn)@ == old(txn)@,
            r == Result::<bool, IsarError>::Err(IsarError::IllegalArg) ==> final(txn)@ == old(
                txn,
            )@,
            old(txn)@.active && r is Err && r != Result::<bool, IsarError>::Err(
                IsarError::IllegalArg,
            ) ==> !final(txn)@.active,
            r is Ok ==> collection_index < self.collections@.len() && r->Ok_0 == primary_has(
                old(txn)@,
                self.collections@[collection_index as int],
                id,
            ),
            r == Result::<bool, IsarError>::Ok(true) ==> {
                let cinfo = self.collections@[collection_index as int];
                let pdb = cinfo.primary.index as int;
                &&& final(txn)@.active
                &&& (exists|oldv: Seq<u8>, oldvals: Seq<Option<ValView>>|
                    #![trigger old(txn)@.dbs[pdb].entries.contains((id_key(id), oldv)), merged(
                        oldvals,
                        updates@,
                        updates@.len() as int,
                    )]
                    {
                        let nv = merged(oldvals, updates@, updates@.len() as int);
                        &&& old(txn)@.dbs[pdb].entries.contains((id_key(id), oldv))
                        &&& oldvals.len() == cinfo.kinds@.len()
                        &&& (forall|q: int|
                            0 <= q < oldvals.len() ==> spec_read_prop(oldv, q) == Option::Some(
                                #[trigger] oldvals[q],
                            ))
                        &&& (forall|e: (Seq<u8>, Seq<u8>)|
                            #[trigger] final(txn)@.dbs[pdb].entries.contains(e) <==> ((old(
                                txn,
                            )@.dbs[pdb].entries.contains(e) && e.0 != id_key(id)) || e == (
                            id_key(id),
                            enc_obj(nv),
                            )))
                        &&& (exists|mid: TxnView|
                            #[trigger] index_entries_removed(old(txn)@, mid, cinfo, oldv, id)
                                && index_entries_written(mid, final(txn)@, cinfo, nv, id))
                    })
                &&& others_unchanged(old(txn)@, final(txn)@, cinfo)
                &&& final(txn)@ == (TxnView {
                    dbs: final(txn)@.dbs,
                    change_set: final(txn)@.change_set,
                    ..old(txn)@
                })
                &&& final(txn)@.change_set.contains((collection_index, Option::Some(id)))
            },
    {
        if !txn.active {
            return Err(IsarError::TransactionClosed);
        }
        let ghost t0 = old(txn)@;
        proof {
            assert(t0.active);
            assert(crate::txn::txn_wf(t0));
            assert(txn_covers(t0, *self));
        }
        let ci = collection_index as usize;
        if ci >= self.collections.len() {
            return Err(IsarError::IllegalArg);
        }
        let col = &self.collections[ci];
        if id == 0 || id == i64::MIN || id == i64::MAX {
            return Err(IsarError::IllegalArg);
        }
        let idk = encode_id(id);
        let old_val = match txn.db_get(col.primary, idk.as_slice()) {
            Ok(o) => o,
            Err(e) => {
                return Err(e);
            }
        };
        let ob = match old_val {
            Some(ob) => ob,
            None => {
                return Ok(false);
            }
        };
        let ghost cinfo = self.collections@[ci as int];
        let ghost gob = ob@;
        proof {
            assert(t0.dbs[cinfo.primary.index as int].entries.contains((id_key(id), gob)));
        }
        // decode the current values
        let nprops = col.kinds.len();
        let mut values: Vec<Option<IsarValue>> = Vec::new();
        let mut p: usize = 0;
        while p < nprops
            invariant
                p <= nprops,
                nprops == cinfo.kinds@.len(),
                values@.len() == p,
                txn@ == t0,
                txn@.active,
                gob == ob@,
                forall|q: int|
                    0 <= q < p ==> spec_read_prop(gob, q) == Option::Some(
                        #[trigger] obj_view(values@)[q],
                    ),
            decreases nprops - p,
        {
            match read_prop(ob.as_slice(), p) {
                Ok(v) => {
                    let ghost pv = obj_view(values@);
                    values.push(v);
                    proof {
                        assert forall|q: int|
                            0 <= q < p + 1 implies spec_read_prop(gob, q) == Option::Some(
                            #[trigger] obj_view(values@)[q],
                        ) by {
                            assert(obj_view(values@)[q] == opt_view(values@[q]));
                            if q < p {
                                assert(pv[q] == opt_view(values@[q]));
                            }
                        }
                    }
                }
                Err(e) => {
                    txn.latch();
                    return Err(e);
                }
            }
            p = p + 1;
        }
        let ghost goldvals = obj_view(values@);
        // merge the patches
        let nups = updates.len();
        let mut u: usize = 0;
        while u < nups
            invariant
                u <= nups,
                nups == updates@.len(),
                values@.len() == nprops,
                txn@ == t0,
                txn@.active,
                goldvals.len() == nprops,
                obj_view(values@) == merged(goldvals, updates@, u as int),
            decreases nups - u,
        {
            let prop = updates[u].0 as usize;
            if prop >= values.len() {
                return Err(IsarError::IllegalArg);
            }
            let nv = match &updates[u].1 {
                Option::None => None,
                Option::Some(v) => Some(v.clone_value()),
            };
            proof {
                assert(opt_view(nv) == opt_view(updates@[u as int].1));
            }
            values.set(prop, nv);
            proof {
                assert(obj_view(values@) =~= merged(goldvals, updates@, u as int + 1));
            }
            u = u + 1;
        }
        let ghost nvals = merged(goldvals, updates@, updates@.len() as int);
        match self.insert(txn, collection_index, Some(id), &values) {
            Ok(_) => {
                proof {
                    assert(obj_view(values@) == nvals);
                    assert(primary_has(t0, cinfo, id));
                    let pdb = cinfo.primary.index as int;
                    let (oldv2, mid) = choose|oldv2: Seq<u8>, mid: TxnView|
                        t0.dbs[pdb].entries.contains((id_key(id), oldv2))
                            && #[trigger] index_entries_removed(t0, mid, cinfo, oldv2, id)
                            && index_entries_written(mid, txn@, cinfo, obj_view(values@), id);
                    let j1 = choose|j1: int|
                        0 <= j1 < t0.dbs[pdb].entries.len() && t0.dbs[pdb].entries[j1] == (
                        id_key(id),
                        oldv2,
                        );
                    let j2 = choose|j2: int|
                        0 <= j2 < t0.dbs[pdb].entries.len() && t0.dbs[pdb].entries[j2] == (
                        id_key(id),
                        gob,
                        );
                    assert(crate::txn::db_wf(t0.dbs[pdb]));
                    assert(!t0.dbs[pdb].dup);
                    if j1 < j2 {
                        assert(crate::keys::lex_lt(
                            t0.dbs[pdb].entries[j1].0,
                            t0.dbs[pdb].entries[j2].0,
                        ));
                        crate::keys::lemma_lex_lt_irrefl(id_key(id));
                    } else if j2 < j1 {
                        assert(crate::keys::lex_lt(
                            t0.dbs[pdb].entries[j2].0,
                            t0.dbs[pdb].entries[j1].0,
                        ));
                        crate::keys::lemma_lex_lt_irrefl(id_key(id));
                    }
                    assert(oldv2 == gob);
                    assert(index_entries_removed(t0, mid, cinfo, gob, id));
                    assert(index_entries_written(mid, txn@, cinfo, nvals, id));
                }
                Ok(true)
            }
            Err(e) => Err(e),
        }
    }

    /// Truncates a collection: the primary store and every index
    /// become empty, and a whole-collection change event is recorded.
    #[verifier::loop_isolation(false)]
    pub fn clear(&self, txn: &mut NativeTxn, collection_index: u16) -> (r: Result<(), IsarError>)
        requires
            inst_wf(*self),
            txn_covers(old(txn)@, *self),
            crate::txn::txn_wf(old(txn)@),
        ensures
            crate::txn::txn_wf(final(txn)@),
            txn_covers(final(txn)@, *self),
            !old(txn)@.active ==> r == Result::<(), IsarError>::Err(IsarError::TransactionClosed)
                && final(txn)@ == old(txn)@,
            old(txn)@.active && collection_index >= self.collections@.len() ==> r == Result::<
                (),
                IsarError,
            >::Err(IsarError::IllegalArg) && final(txn)@ == old(txn)@,
            old(txn)@.active && old(txn)@.write && collection_index < self.collections@.len()
                ==> r is Ok,
            r is Ok ==> {
                let cinfo = self.collections@[collection_index as int];
                let pdb = cinfo.primary.index as int;
                &&& collection_index < self.collections@.len()
                &&& final(txn)@.active
                &&& final(txn)@.dbs[pdb].entries.len() == 0
                &&& (forall|x: int|
                    0 <= x < cinfo.indexes@.len() ==> final(txn)@.dbs[(#[trigger] cinfo.indexes@[
                    x]).db.index as int].entries.len() == 0)
                &&& (forall|j: int|
                    0 <= j < old(txn)@.dbs.len() && j != pdb && (forall|x: int|
                        0 <= x < cinfo.indexes@.len() ==> (#[trigger] cinfo.indexes@[
                        x]).db.index != j) ==> final(txn)@.dbs[j] == old(txn)@.dbs[j])
                &&& final(txn)@.dbs.len() == old(txn)@.dbs.len()
                &&& final(txn)@ == (TxnView {
                    dbs: final(txn)@.dbs,
                    change_set: final(txn)@.change_set,
                    ..old(txn)@
                })
                &&& final(txn)@.change_set.contains((collection_index, Option::None))
            },
    {
        if !txn.active {
            return Err(IsarError::TransactionClosed);
        }
        let ghost t0 = old(txn)@;
        proof {
            assert(t0.active);
            assert(crate::txn::txn_wf(t0));
            assert(txn_covers(t0, *self));
        }
        let ci = collection_index as usize;
        if ci >= self.collections.len() {
            return Err(IsarError::IllegalArg);
        }
        let col = &self.collections[ci];
        let ghost cinfo = self.collections@[ci as int];
        let nidx = col.indexes.len();
        let mut y: usize = 0;
        while y < nidx
            invariant
                y <= nidx,
                nidx == col.indexes@.len(),
                txn@.active,
                old(txn)@ == t0,
                txn@.write == t0.write,
                txn@.dbs.len() == t0.dbs.len(),
                crate::txn::txn_wf(txn@),
                txn_covers(txn@, *self),
                txn@.change_set == t0.change_set,
                txn@ == (TxnView { dbs: txn@.dbs, ..t0 }),
                inst_wf(*self),
                ci < self.collections@.len(),
                col == &self.collections[ci as int],
                cinfo == self.collections@[ci as int],
                forall|x: int|
                    0 <= x < y ==> txn@.dbs[(#[trigger] cinfo.indexes@[
                    x]).db.index as int].entries.len() == 0,
                forall|j: int|
                    0 <= j < t0.dbs.len() && (forall|x: int|
                        0 <= x < y ==> (#[trigger] cinfo.indexes@[x]).db.index != j)
                        ==> txn@.dbs[j] == t0.dbs[j],
            decreases nidx - y,
        {
            let xi = &col.indexes[y];
            proof {
                assert(self.collections@[ci as int].indexes@[y as int] == col.indexes@[y as int]);
            }
            match txn.clear_db(xi.db) {
                Ok(_) => {}
                Err(e) => {
                    return Err(e);
                }
            }
            y = y + 1;
        }
        match txn.clear_db(col.primary) {
            Ok(_) => {}
            Err(e) => {
                return Err(e);
            }
        }
        txn.record_change(collection_index, None);
        Ok(())
    }

    /// The stored byte size of a collection, optionally including its
    /// indexes.
    #[verifier::loop_isolation(false)]
    pub fn get_size(&self, txn: &NativeTxn, collection_index: u16, include_indexes: bool) -> (r:
        Result<u64, IsarError>)
        requires
            inst_wf(*self),
            txn_covers(txn@, *self),
        ensures
            !txn@.active ==> r == Result::<u64, IsarError>::Err(IsarError::TransactionClosed),
            txn@.active && collection_index >= self.collections@.len() ==> r == Result::<
                u64,
                IsarError,
            >::Err(IsarError::IllegalArg),
            txn@.active && collection_index < self.collections@.len() ==> (match r {
                Result::Ok(n) => col_size(
                    txn@,
                    self.collections@[collection_index as int],
                    include_indexes,
                ) <= u64::MAX ==> n == col_size(
                    txn@,
                    self.collections@[collection_index as int],
                    include_indexes,
                ),
                Result::Err(_) => false,
            }),
    {
        if !txn.active {
            return Err(IsarError::TransactionClosed);
        }
        let ghost t0 = txn@;
        proof {
            assert(t0.active);
        }
        let ci = collection_index as usize;
        if ci >= self.collections.len() {
            return Err(IsarError::IllegalArg);
        }
        let col = &self.collections[ci];
        let st = match txn.stat(col.primary) {
            Ok(s) => s,
            Err(e) => {
                return Err(e);
            }
        };
        let mut total = st.1;
        let ghost cinfo = self.collections@[ci as int];
        proof {
            lemma_bytes_total_nonneg(
                t0.dbs[cinfo.primary.index as int].entries,
                t0.dbs[cinfo.primary.index as int].entries.len() as int,
            );
        }
        if include_indexes {
            let nidx = col.indexes.len();
            let mut y: usize = 0;
            while y < nidx
                invariant
                    y <= nidx,
                    nidx == col.indexes@.len(),
                    txn@.active,
                    txn@ == t0,
                    inst_wf(*self),
                    txn_covers(txn@, *self),
                    ci < self.collections@.len(),
                    col == &self.collections[ci as int],
                    cinfo == self.collections@[ci as int],
                    col_size_upto(t0, cinfo, y as int) <= u64::MAX ==> total == col_size_upto(
                        t0,
                        cinfo,
                        y as int,
                    ),
                decreases nidx - y,
            {
                let xi = &col.indexes[y];
                proof {
                    assert(self.collections@[ci as int].indexes@[y as int] == col.indexes@[
                        y as int]);
                    lemma_bytes_total_nonneg(
                        t0.dbs[xi.db.index as int].entries,
                        t0.dbs[xi.db.index as int].entries.len() as int,
                    );
                    lemma_col_size_upto_nonneg(t0, cinfo, y as int);
                }
                let s = match txn.stat(xi.db) {
                    Ok(s) => s,
                    Err(e) => {
                        return Err(e);
                    }
                };
                if total <= u64::MAX - s.1 {
                    total = total + s.1;
                } else {
                    total = u64::MAX;
                }
                y = y + 1;
            }
            proof {
                if col_size(t0, cinfo, true) <= u64::MAX {
                    assert(total == col_size(t0, cinfo, true));
                }
            }
        }
        Ok(total)
    }
}

/// The byte size of one sub-database.
pub open spec fn db_bytes(d: crate::txn::DbView) -> int {
    crate::txn::bytes_total(d.entries, d.entries.len() as int)
}

/// The byte size of a collection's primary store plus its first `i`
/// index stores, in a transaction's snapshot.
pub open spec fn col_size_upto(t: TxnView, ci: CollectionInfo, i: int) -> int
    decreases i,
{
    if i <= 0 {
        db_bytes(t.dbs[ci.primary.index as int])
    } else {
        col_size_upto(t, ci, i - 1) + db_bytes(t.dbs[ci.indexes@[i - 1].db.index as int])
    }
}

/// The stored byte size of a collection, with or without its indexes.
pub open spec fn col_size(t: TxnView, ci: CollectionInfo, include_indexes: bool) -> int {
    if include_indexes {
        col_size_upto(t, ci, ci.indexes@.len() as int)
    } else {
        db_bytes(t.dbs[ci.primary.index as int])
    }
}

proof fn lemma_bytes_total_nonneg(s: Seq<(Seq<u8>, Seq<u8>)>, i: int)
    ensures
        crate::txn::bytes_total(s, i) >= 0,
    decreases i,
{
    if i > 0 {
        lemma_bytes_total_nonneg(s, i - 1);
    }
}

proof fn lemma_col_size_upto_nonneg(t: TxnView, ci: CollectionInfo, i: int)
    ensures
        col_size_upto(t, ci, i) >= db_bytes(t.dbs[ci.primary.index as int]),
        forall|k: int| i <= k ==> col_size_upto(t, ci, i) <= #[trigger] col_size_upto(t, ci, k),
    decreases i,
{
    if i > 0 {
        lemma_col_size_upto_nonneg(t, ci, i - 1);
        lemma_bytes_total_nonneg(
            t.dbs[ci.indexes@[i - 1].db.index as int].entries,
            t.dbs[ci.indexes@[i - 1].db.index as int].entries.len() as int,
        );
    }
    assert forall|k: int| i <= k implies col_size_upto(t, ci, i) <= #[trigger] col_size_upto(
        t,
        ci,
        k,
    ) by {
        lemma_col_size_upto_mono(t, ci, i, k);
    }
}

proof fn lemma_col_size_upto_mono(t: TxnView, ci: CollectionInfo, i: int, k: int)
    requires
        i <= k,
    ensures
        col_size_upto(t, ci, i) <= col_size_upto(t, ci, k),
    decreases k - i,
{
    if i < k {
        lemma_col_size_upto_mono(t, ci, i, k - 1);
        lemma_bytes_total_nonneg(
            t.dbs[ci.indexes@[k - 1].db.index as int].entries,
            t.dbs[ci.indexes@[k - 1].db.index as int].entries.len() as int,
        );
    }
}

} // verus!
