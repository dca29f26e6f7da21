//! Change tracking and watcher registry.
//!
//! A transaction accumulates a set of `(collection, optional id)`
//! change events. Watchers subscribe at instance, collection, or
//! object granularity; the notifications a commit owes are computed
//! from the committed change set and never exist for an aborted or
//! failed transaction.

use vstd::prelude::*;

verus! {

/// A transaction-local accumulator of change events. An event with no
/// id stands for a whole-collection change.
pub struct ChangeSet {
    pub changes: Vec<(u16, Option<i64>)>,
}

impl View for ChangeSet {
    type V = Seq<(u16, Option<i64>)>;

    open spec fn view(&self) -> Seq<(u16, Option<i64>)> {
        self.changes@
    }
}

impl ChangeSet {
    /// An empty change set.
    pub fn new() -> (r: ChangeSet)
        ensures
            r@ == Seq::<(u16, Option<i64>)>::empty(),
    {
        ChangeSet { changes: Vec::new() }
    }

    /// Records one change event; recording the same event twice keeps
    /// one copy.
    pub fn register_change(&mut self, collection: u16, id: Option<i64>)
        ensures
            old(self)@.contains((collection, id)) ==> final(self)@ == old(self)@,
            !old(self)@.contains((collection, id)) ==> final(self)@ == old(self)@.push(
                (collection, id),
            ),
            final(self)@.contains((collection, id)),
    {
        let n = self.changes.len();
        let mut i: usize = 0;
        while i < n
            invariant
                i <= n,
                n == self.changes@.len(),
                forall|j: int| 0 <= j < i ==> self.changes@[j] != (collection, id),
            decreases n - i,
        {
            let e = self.changes[i];
            if e.0 == collection && crate::watcher::opt_id_eq(e.1, id) {
                proof {
                    assert(self.changes@[i as int] == (collection, id));
                }
                return ;
            }
            i = i + 1;
        }
        self.changes.push((collection, id));
        proof {
            assert(self.changes@[self.changes@.len() - 1] == (collection, id));
        }
    }

    /// The number of recorded events.
    pub fn len(&self) -> (r: usize)
        ensures
            r == self@.len(),
    {
        self.changes.len()
    }
}

/// Equality of optional ids.
pub fn opt_id_eq(a: Option<i64>, b: Option<i64>) -> (r: bool)
    ensures
        r == (a == b),
{
    match (a, b) {
        (Option::None, Option::None) => true,
        (Option::Some(x), Option::Some(y)) => x == y,
        _ => false,
    }
}

/// One subscription. A watcher with no collection observes the whole
/// instance; one with a collection and no object id observes that
/// collection; one with both observes a single object.
pub struct Watcher {
    pub handle: u64,
    pub collection: Option<u16>,
    pub obj_id: Option<i64>,
}

/// Whether a watcher observes a change event. A whole-collection
/// event (no id) reaches every watcher of that collection, including
/// object-level ones.
pub open spec fn watcher_matches(w: Watcher, collection: u16, id: Option<i64>) -> bool {
    match w.collection {
        Option::None => true,
        Option::Some(c) => c == collection && (match w.obj_id {
            Option::None => true,
            Option::Some(oid) => id is None || id == Option::Some(oid),
        }),
    }
}

/// One notification owed to one watcher for one change event.
#[derive(Copy, Clone, PartialEq, Eq, Structural, Debug)]
pub struct Notification {
    pub handle: u64,
    pub collection: u16,
    pub obj_id: Option<i64>,
}

/// The registry of live subscriptions.
pub struct WatcherRegistry {
    pub watchers: Vec<Watcher>,
    pub next_handle: u64,
}

/// The notifications owed to the first `k` watchers for one event.
pub open spec fn notifs_for_event(
    ws: Seq<Watcher>,
    collection: u16,
    id: Option<i64>,
    k: int,
) -> Seq<Notification>
    decreases k,
{
    if k <= 0 {
        Seq::empty()
    } else {
        notifs_for_event(ws, collection, id, k - 1) + if watcher_matches(
            ws[k - 1],
            collection,
            id,
        ) {
            seq![
                Notification {
                    handle: ws[k - 1].handle,
                    collection: collection,
                    obj_id: id,
                },
            ]
        } else {
            Seq::empty()
        }
    }
}

/// The notifications owed to a registry for the first `k` events of a
/// change set.
pub open spec fn notifs_of(ws: Seq<Watcher>, cs: Seq<(u16, Option<i64>)>, k: int) -> Seq<
    Notification,
>
    decreases k,
{
    if k <= 0 {
        Seq::empty()
    } else {
        notifs_of(ws, cs, k - 1) + notifs_for_event(ws, cs[k - 1].0, cs[k - 1].1, ws.len() as int)
    }
}

impl WatcherRegistry {
    /// An empty registry.
    pub fn new() -> (r: WatcherRegistry)
        ensures
            r.watchers@ == Seq::<Watcher>::empty(),
            r.next_handle == 1,
    {
        WatcherRegistry { watchers: Vec::new(), next_handle: 1 }
    }

    /// Subscribes at the given granularity; returns the cancellation
    /// handle, or nothing when the handle space is exhausted.
    pub fn watch(&mut self, collection: Option<u16>, obj_id: Option<i64>) -> (r: Option<u64>)
        ensures
            match r {
                Option::Some(h) => {
                    &&& h == old(self).next_handle
                    &&& final(self).watchers@ == old(self).watchers@.push(
                        (Watcher { handle: h, collection, obj_id }),
                    )
                    &&& final(self).next_handle == old(self).next_handle + 1
                },
                Option::None => {
                    &&& old(self).next_handle == u64::MAX
                    &&& *final(self) == *old(self)
                },
            },
    {
        if self.next_handle == u64::MAX {
            return None;
        }
        let h = self.next_handle;
        self.next_handle = self.next_handle + 1;
        self.watchers.push(Watcher { handle: h, collection, obj_id });
        Some(h)
    }

    /// Cancels the subscription with the given handle; returns whether
    /// one existed.
    pub fn unwatch(&mut self, handle: u64) -> (r: bool)
        ensures
            r ==> exists|i: int|
                0 <= i < old(self).watchers@.len() && old(self).watchers@[i].handle == handle
                    && final(self).watchers@ == old(self).watchers@.remove(i),
            !r ==> (forall|i: int|
                0 <= i < old(self).watchers@.len() ==> old(self).watchers@[i].handle != handle)
                && *final(self) == *old(self),
            final(self).next_handle == old(self).next_handle,
    {
        let n = self.watchers.len();
        let mut i: usize = 0;
        while i < n
            invariant
                i <= n,
                n == self.watchers@.len(),
                *self == *old(self),
                forall|j: int| 0 <= j < i ==> self.watchers@[j].handle != handle,
            decreases n - i,
        {
            if self.watchers[i].handle == handle {
                self.watchers.remove(i);
                proof {
                    assert(old(self).watchers@[i as int].handle == handle);
                }
                return true;
            }
            i = i + 1;
        }
        false
    }

    /// Computes the notifications owed for a committed change set, in
    /// event order then registration order. The caller dispatches them
    /// only after the commit that produced the change set has
    /// succeeded.
    pub fn notify_watchers(&self, cs: &ChangeSet) -> (r: Vec<Notification>)
        ensures
            r@ == notifs_of(self.watchers@, cs@, cs@.len() as int),
    {
        let ws = &self.watchers;
        let nw = ws.len();
        let ne = cs.changes.len();
        let mut out: Vec<Notification> = Vec::new();
        let mut e: usize = 0;
        while e < ne
            invariant
                e <= ne,
                ne == cs@.len(),
                nw == ws@.len(),
                ws == &self.watchers,
                out@ == notifs_of(ws@, cs@, e as int),
            decreases ne - e,
        {
            let ev = cs.changes[e];
            let mut w: usize = 0;
            while w < nw
                invariant
                    w <= nw,
                    e < ne,
                    ne == cs@.len(),
                    nw == ws@.len(),
                    ws == &self.watchers,
                    ev == cs@[e as int],
                    out@ == notifs_of(ws@, cs@, e as int) + notifs_for_event(
                        ws@,
                        ev.0,
                        ev.1,
                        w as int,
                    ),
                decreases nw - w,
            {
                let wa = &ws[w];
                let m = match wa.collection {
                    Option::None => true,
                    Option::Some(c) => c == ev.0 && (match wa.obj_id {
                        Option::None => true,
                        Option::Some(oid) => match ev.1 {
                            Option::None => true,
                            Option::Some(eid) => eid == oid,
                        },
                    }),
                };
                proof {
                    assert(m == watcher_matches(ws@[w as int], ev.0, ev.1));
                }
                if m {
                    out.push(Notification { handle: wa.handle, collection: ev.0, obj_id: ev.1 });
                }
                proof {
                    assert(out@ =~= notifs_of(ws@, cs@, e as int) + notifs_for_event(
                        ws@,
                        ev.0,
                        ev.1,
                        w as int + 1,
                    ));
                }
                w = w + 1;
            }
            proof {
                assert(out@ =~= notifs_of(ws@, cs@, e as int + 1));
            }
            e = e + 1;
        }
        out
    }
}

} // verus!
