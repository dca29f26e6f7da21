//! The transaction layer over an ordered key-value substrate.
//!
//! An [`Env`] holds the committed state: a list of named sub-databases
//! of byte-key/byte-value entries kept in lexicographic order. A
//! [`NativeTxn`] snapshots that state when it begins, mutates its own
//! copy, and publishes the copy on commit; readers therefore observe
//! the snapshot taken at `begin`, and a writer's changes become
//! visible only after its commit returns. Any failed mutation latches
//! the transaction inactive; every later operation fails with
//! `TransactionClosed`. The transaction also owns a reusable scratch
//! buffer, a change-set accumulator, and a pool of at most three
//! unbound cursors.

use crate::error::IsarError;
use crate::index::IndexKey;
use crate::keys::{
    bytes_eq, bytes_le, bytes_lt, id_key, lemma_lex_lt_irrefl, lemma_lex_lt_total,
    lemma_lex_lt_trans, lex_le, lex_lt,
};
use crate::watcher::ChangeSet;
use vstd::prelude::*;

verus! {

/// A handle to one sub-database within a transaction's snapshot.
#[derive(Copy, Clone, PartialEq, Eq, Structural, Debug)]
pub struct Db {
    pub index: usize,
}

/// The mathematical view of one sub-database.
pub struct DbView {
    pub name: Seq<u8>,
    pub int_key: bool,
    pub dup: bool,
    pub entries: Seq<(Seq<u8>, Seq<u8>)>,
}

/// One sub-database: flags and its entries, kept sorted.
pub struct DbData {
    pub name: Vec<u8>,
    pub int_key: bool,
    pub dup: bool,
    pub entries: Vec<(Vec<u8>, Vec<u8>)>,
}

/// The view of a sequence of owned entries.
pub open spec fn entries_view(s: Seq<(Vec<u8>, Vec<u8>)>) -> Seq<(Seq<u8>, Seq<u8>)> {
    s.map(|i: int, e: (Vec<u8>, Vec<u8>)| (e.0@, e.1@))
}

impl View for DbData {
    type V = DbView;

    open spec fn view(&self) -> DbView {
        DbView {
            name: self.name@,
            int_key: self.int_key,
            dup: self.dup,
            entries: entries_view(self.entries@),
        }
    }
}

/// Strict order on full entries: by key, then by value.
pub open spec fn pair_lt(a: (Seq<u8>, Seq<u8>), b: (Seq<u8>, Seq<u8>)) -> bool {
    lex_lt(a.0, b.0) || (a.0 == b.0 && lex_lt(a.1, b.1))
}

/// Well-formedness of a sub-database: entries are strictly sorted —
/// by key alone when keys are unique, by full entry when duplicate
/// keys are allowed (so no exact pair occurs twice).
pub open spec fn db_wf(d: DbView) -> bool {
    if d.dup {
        forall|i: int, j: int|
            0 <= i < j < d.entries.len() ==> pair_lt(d.entries[i], d.entries[j])
    } else {
        forall|i: int, j: int|
            0 <= i < j < d.entries.len() ==> lex_lt(d.entries[i].0, d.entries[j].0)
    }
}

pub proof fn lemma_pair_lt_trans(a: (Seq<u8>, Seq<u8>), b: (Seq<u8>, Seq<u8>), c: (Seq<u8>, Seq<u8>))
    requires
        pair_lt(a, b),
        pair_lt(b, c),
    ensures
        pair_lt(a, c),
{
    if lex_lt(a.0, b.0) && lex_lt(b.0, c.0) {
        lemma_lex_lt_trans(a.0, b.0, c.0);
    } else if a.0 == b.0 && b.0 == c.0 {
        lemma_lex_lt_trans(a.1, b.1, c.1);
    }
}

proof fn lemma_contains_insert<T>(s: Seq<T>, i: int, x: T)
    requires
        0 <= i <= s.len(),
    ensures
        forall|y: T| #[trigger] s.insert(i, x).contains(y) <==> (s.contains(y) || y == x),
{
    let t = s.insert(i, x);
    assert forall|y: T| #[trigger] t.contains(y) implies (s.contains(y) || y == x) by {
        let k = choose|k: int| 0 <= k < t.len() && t[k] == y;
        if k < i {
            assert(s[k] == y);
        } else if k > i {
            assert(s[k - 1] == y);
        }
    }
    assert forall|y: T| s.contains(y) || y == x implies #[trigger] t.contains(y) by {
        if y == x {
            assert(t[i] == y);
        } else {
            let k = choose|k: int| 0 <= k < s.len() && s[k] == y;
            if k < i {
                assert(t[k] == y);
            } else {
                assert(t[k + 1] == y);
            }
        }
    }
}

proof fn lemma_contains_remove<T>(s: Seq<T>, i: int)
    requires
        0 <= i < s.len(),
    ensures
        forall|y: T| #[trigger] s.remove(i).contains(y) ==> s.contains(y),
        forall|y: T| s.contains(y) && y != s[i] ==> #[trigger] s.remove(i).contains(y),
{
    let t = s.remove(i);
    assert forall|y: T| #[trigger] t.contains(y) implies s.contains(y) by {
        let k = choose|k: int| 0 <= k < t.len() && t[k] == y;
        if k < i {
            assert(s[k] == y);
        } else {
            assert(s[k + 1] == y);
        }
    }
    assert forall|y: T| s.contains(y) && y != s[i] implies #[trigger] t.contains(y) by {
        let k = choose|k: int| 0 <= k < s.len() && s[k] == y;
        if k < i {
            assert(t[k] == y);
        } else if k > i {
            assert(t[k - 1] == y);
        }
    }
}

/// Clones a byte string.
pub fn clone_bytes(v: &Vec<u8>) -> (r: Vec<u8>)
    ensures
        r@ == v@,
{
    let r = crate::codec::copy_range(v.as_slice(), 0, v.len());
    proof {
        assert(v@.subrange(0, v@.len() as int) =~= v@);
    }
    r
}

/// Whether `e` sorts strictly before the entry `(key, value)` in the
/// order of a database with the given duplicate flag.
pub open spec fn entry_before(
    e: (Seq<u8>, Seq<u8>),
    key: Seq<u8>,
    value: Seq<u8>,
    dup: bool,
) -> bool {
    lex_lt(e.0, key) || (dup && e.0 == key && lex_lt(e.1, value))
}

/// The entries of `s[0..i]` whose key lies in `[lo, hi]`, in order.
pub open spec fn sel(s: Seq<(Seq<u8>, Seq<u8>)>, lo: Seq<u8>, hi: Seq<u8>, i: int) -> Seq<
    (Seq<u8>, Seq<u8>),
>
    decreases i,
{
    if i <= 0 {
        Seq::empty()
    } else {
        sel(s, lo, hi, i - 1) + if lex_le(lo, s[i - 1].0) && lex_le(s[i - 1].0, hi) {
            seq![s[i - 1]]
        } else {
            Seq::empty()
        }
    }
}

/// `s[0..i]` with every run of equal keys reduced to its first entry.
pub open spec fn dedup_keys(s: Seq<(Seq<u8>, Seq<u8>)>, i: int) -> Seq<(Seq<u8>, Seq<u8>)>
    decreases i,
{
    if i <= 0 {
        Seq::empty()
    } else {
        dedup_keys(s, i - 1) + if i >= 2 && s[i - 1].0 == s[i - 2].0 {
            Seq::empty()
        } else {
            seq![s[i - 1]]
        }
    }
}

/// What a bounded iteration over a database yields: the in-range
/// entries, reduced to one per key unless duplicates are requested.
pub open spec fn range_spec(d: DbView, lo: Seq<u8>, hi: Seq<u8>, one_per_key: bool) -> Seq<
    (Seq<u8>, Seq<u8>),
> {
    let base = sel(d.entries, lo, hi, d.entries.len() as int);
    if one_per_key {
        dedup_keys(base, base.len() as int)
    } else {
        base
    }
}

proof fn lemma_sel_subset(s: Seq<(Seq<u8>, Seq<u8>)>, lo: Seq<u8>, hi: Seq<u8>, i: int)
    requires
        0 <= i <= s.len(),
    ensures
        forall|j: int|
            0 <= j < sel(s, lo, hi, i).len() ==> s.contains(#[trigger] sel(s, lo, hi, i)[j]),
    decreases i,
{
    if i > 0 {
        lemma_sel_subset(s, lo, hi, i - 1);
        let prev = sel(s, lo, hi, i - 1);
        let cur = sel(s, lo, hi, i);
        assert forall|j: int| 0 <= j < cur.len() implies s.contains(cur[j]) by {
            if j < prev.len() {
                assert(cur[j] == prev[j]);
            } else {
                assert(cur[j] == s[i - 1]);
            }
        }
    }
}

/// Every entry a bounded iteration yields without deduplication is an
/// entry of the database.
pub proof fn lemma_range_subset(d: DbView, lo: Seq<u8>, hi: Seq<u8>, one_per_key: bool)
    requires
        !one_per_key,
    ensures
        forall|j: int|
            0 <= j < range_spec(d, lo, hi, one_per_key).len() ==> d.entries.contains(
                #[trigger] range_spec(d, lo, hi, one_per_key)[j],
            ),
{
    lemma_sel_subset(d.entries, lo, hi, d.entries.len() as int);
}

impl DbData {
    /// Finds the position of the first entry that does not sort
    /// strictly before `(key, value)`.
    fn find_pos(&self, key: &Vec<u8>, value: &Vec<u8>) -> (i: usize)
        ensures
            i <= self@.entries.len(),
            forall|j: int| 0 <= j < i ==> entry_before(self@.entries[j], key@, value@, self.dup),
            i < self@.entries.len() ==> !entry_before(
                self@.entries[i as int],
                key@,
                value@,
                self.dup,
            ),
    {
        let n = self.entries.len();
        let mut i: usize = 0;
        while i < n
            invariant
                i <= n,
                n == self@.entries.len(),
                forall|j: int|
                    0 <= j < i ==> entry_before(self@.entries[j], key@, value@, self.dup),
            decreases n - i,
        {
            let e = &self.entries[i];
            let before = if bytes_lt(e.0.as_slice(), key.as_slice()) {
                true
            } else if self.dup && bytes_eq(e.0.as_slice(), key.as_slice()) {
                bytes_lt(e.1.as_slice(), value.as_slice())
            } else {
                false
            };
            proof {
                assert(self@.entries[i as int] == (self.entries@[i as int].0@,
                self.entries@[i as int].1@));
            }
            if !before {
                return i;
            }
            i = i + 1;
        }
        i
    }

    /// Upserts an entry. With unique keys the value of an existing key
    /// is replaced; with duplicate keys the exact pair is inserted
    /// once.
    pub fn put(&mut self, key: Vec<u8>, value: Vec<u8>)
        requires
            db_wf(old(self)@),
        ensures
            db_wf(final(self)@),
            final(self)@.name == old(self)@.name,
            final(self)@.int_key == old(self)@.int_key,
            final(self)@.dup == old(self)@.dup,
            !old(self).dup ==> forall|e: (Seq<u8>, Seq<u8>)|
                #[trigger] final(self)@.entries.contains(e) <==> ((old(self)@.entries.contains(e)
                    && e.0 != key@) || e == (key@, value@)),
            old(self).dup ==> forall|e: (Seq<u8>, Seq<u8>)|
                #[trigger] final(self)@.entries.contains(e) <==> (old(self)@.entries.contains(e)
                    || e == (key@, value@)),
    {
        let ghost kv = (key@, value@);
        let ghost olde = old(self)@.entries;
        let ghost dup = self.dup;
        let n = self.entries.len();
        let i = self.find_pos(&key, &value);
        proof {
            if i < n {
                assert(olde[i as int] == (self.entries@[i as int].0@, self.entries@[i as int].1@));
            }
        }
        let same_key = if i < n {
            bytes_eq(self.entries[i].0.as_slice(), key.as_slice())
        } else {
            false
        };
        let same_val = if same_key {
            bytes_eq(self.entries[i].1.as_slice(), value.as_slice())
        } else {
            false
        };
        proof {
            // no entry at or past i sorts before (key, value); entries
            // past i are larger still, by transitivity
            if i < n {
                assert(!entry_before(olde[i as int], key@, value@, dup));
            }
        }
        if same_key && !self.dup {
            // replace the value of the existing key
            self.entries.set(i, (key, value));
            proof {
                let nv = self@.entries;
                assert(nv =~= olde.update(i as int, kv));
                assert forall|j: int| 0 <= j < olde.len() && j != i implies olde[j].0
                    != olde[i as int].0 by {
                    if j < i {
                        if olde[j].0 == olde[i as int].0 {
                            lemma_lex_lt_irrefl(olde[j].0);
                        }
                    } else {
                        if olde[j].0 == olde[i as int].0 {
                            lemma_lex_lt_irrefl(olde[j].0);
                        }
                    }
                }
                assert forall|e: (Seq<u8>, Seq<u8>)| #[trigger] nv.contains(e) implies ((
                olde.contains(e) && e.0 != key@) || e == kv) by {
                    let k = choose|k: int| 0 <= k < nv.len() && nv[k] == e;
                    if k != i {
                        assert(olde[k] == e);
                        assert(olde.contains(e));
                    }
                }
                assert forall|e: (Seq<u8>, Seq<u8>)|
                    ((olde.contains(e) && e.0 != key@) || e == kv) implies #[trigger] nv.contains(
                    e,
                ) by {
                    if e == kv {
                        assert(nv[i as int] == e);
                    } else {
                        let k = choose|k: int| 0 <= k < olde.len() && olde[k] == e;
                        assert(k != i);
                        assert(nv[k] == e);
                    }
                }
                assert forall|a: int, b: int| 0 <= a < b < nv.len() implies lex_lt(
                    nv[a].0,
                    nv[b].0,
                ) by {
                    assert(nv[a].0 == olde[a].0 && nv[b].0 == olde[b].0);
                }
            }
        } else if same_key && same_val {
            // duplicate store already holds this exact pair
            proof {
                assert(olde[i as int] == kv);
                assert(olde.contains(kv));
            }
        } else {
            // insert the new entry at its position
            proof {
                assert forall|j: int| i <= j < olde.len() implies (if dup {
                    pair_lt(kv, olde[j])
                } else {
                    lex_lt(key@, olde[j].0)
                }) by {
                    let ei = olde[i as int];
                    if dup {
                        if same_key {
                            assert(ei.0 == key@ && ei.1 != value@ && !lex_lt(ei.1, value@));
                            lemma_lex_lt_total(value@, ei.1);
                            assert(pair_lt(kv, ei));
                        } else {
                            assert(!lex_lt(ei.0, key@));
                            lemma_lex_lt_total(key@, ei.0);
                            if ei.0 == key@ {
                                assert(false);
                            }
                            assert(pair_lt(kv, ei));
                        }
                        if j > i {
                            lemma_pair_lt_trans(kv, ei, olde[j]);
                        }
                    } else {
                        assert(!lex_lt(ei.0, key@));
                        lemma_lex_lt_total(key@, ei.0);
                        assert(lex_lt(key@, ei.0));
                        if j > i {
                            lemma_lex_lt_trans(key@, ei.0, olde[j].0);
                        }
                    }
                }
            }
            self.entries.insert(i, (key, value));
            proof {
                let nv = self@.entries;
                assert(nv =~= olde.insert(i as int, kv));
                lemma_contains_insert(olde, i as int, kv);
                if !dup {
                    assert forall|e: (Seq<u8>, Seq<u8>)| #[trigger] olde.contains(e) implies e.0
                        != key@ by {
                        let k = choose|k: int| 0 <= k < olde.len() && olde[k] == e;
                        if k < i {
                            assert(entry_before(olde[k], key@, value@, dup));
                            if e.0 == key@ {
                                lemma_lex_lt_irrefl(key@);
                            }
                        } else {
                            if e.0 == key@ {
                                lemma_lex_lt_irrefl(key@);
                            }
                        }
                    }
                    assert forall|a: int, b: int| 0 <= a < b < nv.len() implies lex_lt(
                        nv[a].0,
                        nv[b].0,
                    ) by {
                        if a < i && b == i {
                            assert(entry_before(olde[a], key@, value@, dup));
                        } else if a == i {
                            assert(nv[b] == olde[b - 1]);
                        } else if a < i && b > i {
                            assert(nv[a] == olde[a] && nv[b] == olde[b - 1]);
                        }
                    }
                } else {
                    assert forall|a: int, b: int| 0 <= a < b < nv.len() implies pair_lt(
                        nv[a],
                        nv[b],
                    ) by {
                        if a < i && b == i {
                            assert(entry_before(olde[a], key@, value@, dup));
                        } else if a == i {
                            assert(nv[b] == olde[b - 1]);
                        } else if a < i && b > i {
                            assert(nv[a] == olde[a] && nv[b] == olde[b - 1]);
                        }
                    }
                }
            }
        }
    }

    /// Looks a key up; meaningful for unique-key databases, where the
    /// result is determined.
    pub fn get(&self, key: &[u8]) -> (r: Option<Vec<u8>>)
        ensures
            match r {
                Option::Some(v) => self@.entries.contains((key@, v@)),
                Option::None => forall|j: int|
                    0 <= j < self@.entries.len() ==> self@.entries[j].0 != key@,
            },
    {
        let n = self.entries.len();
        let mut i: usize = 0;
        while i < n
            invariant
                i <= n,
                n == self@.entries.len(),
                n == self.entries@.len(),
                forall|j: int| 0 <= j < i ==> self@.entries[j].0 != key@,
            decreases n - i,
        {
            proof {
                assert(self@.entries[i as int] == (self.entries@[i as int].0@,
                self.entries@[i as int].1@));
            }
            if bytes_eq(self.entries[i].0.as_slice(), key) {
                let v = clone_bytes(&self.entries[i].1);
                proof {
                    assert(self@.entries[i as int] == (key@, v@));
                }
                return Some(v);
            }
            i = i + 1;
        }
        None
    }

    /// The position of the first entry with the given key, if any.
    fn find_key(&self, key: &[u8]) -> (r: Option<usize>)
        ensures
            match r {
                Option::Some(i) => i < self@.entries.len() && self@.entries[i as int].0 == key@
                    && (forall|j: int| 0 <= j < i ==> self@.entries[j].0 != key@),
                Option::None => forall|j: int|
                    0 <= j < self@.entries.len() ==> self@.entries[j].0 != key@,
            },
    {
        let n = self.entries.len();
        let mut i: usize = 0;
        while i < n
            invariant
                i <= n,
                n == self@.entries.len(),
                n == self.entries@.len(),
                forall|j: int| 0 <= j < i ==> self@.entries[j].0 != key@,
            decreases n - i,
        {
            proof {
                assert(self@.entries[i as int] == (self.entries@[i as int].0@,
                self.entries@[i as int].1@));
            }
            if bytes_eq(self.entries[i].0.as_slice(), key) {
                return Some(i);
            }
            i = i + 1;
        }
        None
    }

    /// The position of an exact entry, if present.
    fn find_pair(&self, key: &[u8], value: &[u8]) -> (r: Option<usize>)
        ensures
            match r {
                Option::Some(i) => i < self@.entries.len() && self@.entries[i as int] == (key@,
                value@),
                Option::None => forall|j: int|
                    0 <= j < self@.entries.len() ==> self@.entries[j] != (key@, value@),
            },
    {
        let n = self.entries.len();
        let mut i: usize = 0;
        while i < n
            invariant
                i <= n,
                n == self@.entries.len(),
                n == self.entries@.len(),
                forall|j: int| 0 <= j < i ==> self@.entries[j] != (key@, value@),
            decreases n - i,
        {
            proof {
                assert(self@.entries[i as int] == (self.entries@[i as int].0@,
                self.entries@[i as int].1@));
            }
            if bytes_eq(self.entries[i].0.as_slice(), key) && bytes_eq(
                self.entries[i].1.as_slice(),
                value,
            ) {
                return Some(i);
            }
            i = i + 1;
        }
        None
    }

    /// Removes every entry with the given key; returns whether one
    /// existed. On a unique-key database at most one entry holds it.
    pub fn del_key(&mut self, key: &[u8]) -> (r: bool)
        requires
            db_wf(old(self)@),
            !old(self).dup,
        ensures
            db_wf(final(self)@),
            final(self)@.name == old(self)@.name,
            final(self)@.int_key == old(self)@.int_key,
            final(self)@.dup == old(self)@.dup,
            forall|e: (Seq<u8>, Seq<u8>)|
                #[trigger] final(self)@.entries.contains(e) <==> (old(self)@.entries.contains(e)
                    && e.0 != key@),
            r == (exists|j: int|
                0 <= j < old(self)@.entries.len() && old(self)@.entries[j].0 == key@),
    {
        let ghost ov = old(self)@;
        let ghost olde = old(self)@.entries;
        let found = self.find_key(key);
        match found {
            Option::None => false,
            Option::Some(i) => {
                self.entries.remove(i);
                proof {
                    let nv = self@.entries;
                    assert(nv =~= olde.remove(i as int));
                    lemma_contains_remove(olde, i as int);
                    assert forall|j: int| 0 <= j < olde.len() && j != i implies olde[j].0
                        != key@ by {
                        if j < i {
                            assert(lex_lt(ov.entries[j].0, ov.entries[i as int].0));
                        } else {
                            assert(lex_lt(ov.entries[i as int].0, ov.entries[j].0));
                        }
                        if olde[j].0 == key@ {
                            lemma_lex_lt_irrefl(key@);
                        }
                    }
                    assert forall|e: (Seq<u8>, Seq<u8>)| #[trigger] nv.contains(e) implies (
                    olde.contains(e) && e.0 != key@) by {
                        let k = choose|k: int| 0 <= k < nv.len() && nv[k] == e;
                        if k < i {
                            assert(olde[k] == e);
                        } else {
                            assert(olde[k + 1] == e);
                        }
                    }
                    assert forall|e: (Seq<u8>, Seq<u8>)| olde.contains(e) && e.0 != key@ implies #[trigger] nv.contains(
                        e,
                    ) by {
                        assert(e != olde[i as int]);
                    }
                    assert forall|a: int, b: int| 0 <= a < b < nv.len() implies lex_lt(
                        nv[a].0,
                        nv[b].0,
                    ) by {
                        if a < i && b >= i {
                            assert(nv[a] == olde[a] && nv[b] == olde[b + 1]);
                            assert(lex_lt(ov.entries[a].0, ov.entries[b + 1].0));
                        } else if a >= i {
                            assert(nv[a] == olde[a + 1] && nv[b] == olde[b + 1]);
                            assert(lex_lt(ov.entries[a + 1].0, ov.entries[b + 1].0));
                        } else {
                            assert(lex_lt(ov.entries[a].0, ov.entries[b].0));
                        }
                    }
                }
                true
            }
        }
    }

    /// Removes one exact entry from a duplicate-key database; returns
    /// whether it existed.
    pub fn del_pair(&mut self, key: &[u8], value: &[u8]) -> (r: bool)
        requires
            db_wf(old(self)@),
            old(self).dup,
        ensures
            db_wf(final(self)@),
            final(self)@.name == old(self)@.name,
            final(self)@.int_key == old(self)@.int_key,
            final(self)@.dup == old(self)@.dup,
            forall|e: (Seq<u8>, Seq<u8>)|
                #[trigger] final(self)@.entries.contains(e) <==> (old(self)@.entries.contains(e)
                    && e != (key@, value@)),
            r == old(self)@.entries.contains((key@, value@)),
    {
        let ghost ov = old(self)@;
        let ghost olde = old(self)@.entries;
        let ghost kv = (key@, value@);
        let found = self.find_pair(key, value);
        match found {
            Option::None => {
                proof {
                    if olde.contains(kv) {
                        let k = choose|k: int| 0 <= k < olde.len() && olde[k] == kv;
                    }
                }
                false
            }
            Option::Some(i) => {
                self.entries.remove(i);
                proof {
                    let nv = self@.entries;
                    assert(nv =~= olde.remove(i as int));
                    lemma_contains_remove(olde, i as int);
                    assert forall|j: int| 0 <= j < olde.len() && j != i implies olde[j] != kv by {
                        if j < i {
                            assert(pair_lt(ov.entries[j], ov.entries[i as int]));
                        } else {
                            assert(pair_lt(ov.entries[i as int], ov.entries[j]));
                        }
                        if olde[j] == kv {
                            lemma_lex_lt_irrefl(key@);
                            lemma_lex_lt_irrefl(value@);
                        }
                    }
                    assert forall|e: (Seq<u8>, Seq<u8>)| #[trigger] nv.contains(e) implies (
                    olde.contains(e) && e != kv) by {
                        let k = choose|k: int| 0 <= k < nv.len() && nv[k] == e;
                        if k < i {
                            assert(olde[k] == e);
                        } else {
                            assert(olde[k + 1] == e);
                        }
                    }
                    assert forall|e: (Seq<u8>, Seq<u8>)| olde.contains(e) && e != kv implies #[trigger] nv.contains(
                        e,
                    ) by {
                        assert(e != olde[i as int]);
                    }
                    assert forall|a: int, b: int| 0 <= a < b < nv.len() implies pair_lt(
                        nv[a],
                        nv[b],
                    ) by {
                        if a < i && b >= i {
                            assert(nv[a] == olde[a] && nv[b] == olde[b + 1]);
                            assert(pair_lt(ov.entries[a], ov.entries[b + 1]));
                        } else if a >= i {
                            assert(nv[a] == olde[a + 1] && nv[b] == olde[b + 1]);
                            assert(pair_lt(ov.entries[a + 1], ov.entries[b + 1]));
                        } else {
                            assert(pair_lt(ov.entries[a], ov.entries[b]));
                        }
                    }
                }
                true
            }
        }
    }


    /// Removes every entry.
    pub fn clear(&mut self)
        ensures
            db_wf(final(self)@),
            final(self)@.name == old(self)@.name,
            final(self)@.int_key == old(self)@.int_key,
            final(self)@.dup == old(self)@.dup,
            final(self)@.entries == Seq::<(Seq<u8>, Seq<u8>)>::empty(),
    {
        self.entries = Vec::new();
        proof {
            assert(self@.entries =~= Seq::<(Seq<u8>, Seq<u8>)>::empty());
        }
    }

    /// Collects the entries whose key lies in `[lo, hi]`, in order;
    /// with `one_per_key` only the first entry of each key.
    pub fn range(&self, lo: &[u8], hi: &[u8], one_per_key: bool) -> (r: Vec<(Vec<u8>, Vec<u8>)>)
        ensures
            entries_view(r@) == range_spec(self@, lo@, hi@, one_per_key),
    {
        let n = self.entries.len();
        let mut base: Vec<(Vec<u8>, Vec<u8>)> = Vec::new();
        let mut i: usize = 0;
        while i < n
            invariant
                i <= n,
                n == self@.entries.len(),
                n == self.entries@.len(),
                entries_view(base@) == sel(self@.entries, lo@, hi@, i as int),
            decreases n - i,
        {
            proof {
                assert(self@.entries[i as int] == (self.entries@[i as int].0@,
                self.entries@[i as int].1@));
            }
            let in_range = bytes_le(lo, self.entries[i].0.as_slice()) && bytes_le(
                self.entries[i].0.as_slice(),
                hi,
            );
            if in_range {
                let k = clone_bytes(&self.entries[i].0);
                let v = clone_bytes(&self.entries[i].1);
                base.push((k, v));
            }
            proof {
                assert(entries_view(base@) =~= sel(self@.entries, lo@, hi@, i as int + 1));
            }
            i = i + 1;
        }
        if !one_per_key {
            return base;
        }
        let ghost bs = entries_view(base@);
        let m = base.len();
        let mut out: Vec<(Vec<u8>, Vec<u8>)> = Vec::new();
        let mut j: usize = 0;
        while j < m
            invariant
                j <= m,
                m == base@.len(),
                bs == entries_view(base@),
                bs.len() == m,
                entries_view(out@) == dedup_keys(bs, j as int),
            decreases m - j,
        {
            proof {
                assert(bs[j as int] == (base@[j as int].0@, base@[j as int].1@));
                if j >= 1 {
                    assert(bs[j as int - 1] == (base@[j as int - 1].0@, base@[j as int - 1].1@));
                }
            }
            let keep = if j == 0 {
                true
            } else {
                !bytes_eq(base[j].0.as_slice(), base[j - 1].0.as_slice())
            };
            if keep {
                let k = clone_bytes(&base[j].0);
                let v = clone_bytes(&base[j].1);
                out.push((k, v));
            }
            proof {
                assert(entries_view(out@) =~= dedup_keys(bs, j as int + 1));
            }
            j = j + 1;
        }
        out
    }

    /// The number of entries.
    pub fn len(&self) -> (r: usize)
        ensures
            r == self@.entries.len(),
    {
        self.entries.len()
    }
}

/// The total byte size of the first `i` entries.
pub open spec fn bytes_total(s: Seq<(Seq<u8>, Seq<u8>)>, i: int) -> int
    decreases i,
{
    if i <= 0 {
        0
    } else {
        bytes_total(s, i - 1) + s[i - 1].0.len() + s[i - 1].1.len()
    }
}

/// The committed state: the ordered sub-databases of one instance
/// directory.
pub struct Env {
    pub dbs: Vec<DbData>,
}

impl View for Env {
    type V = Seq<DbView>;

    open spec fn view(&self) -> Seq<DbView> {
        self.dbs@.map(|i: int, d: DbData| d@)
    }
}

/// Well-formedness of the committed state.
pub open spec fn env_wf(e: Seq<DbView>) -> bool {
    forall|i: int| 0 <= i < e.len() ==> db_wf(#[trigger] e[i])
}

impl Env {
    /// An empty environment.
    pub fn new() -> (r: Env)
        ensures
            r@ == Seq::<DbView>::empty(),
            env_wf(r@),
    {
        let r = Env { dbs: Vec::new() };
        proof {
            assert(r@ =~= Seq::<DbView>::empty());
        }
        r
    }
}

/// A pooled cursor not currently bound to a database.
pub struct UnboundCursor {}

impl UnboundCursor {
    /// A fresh unbound cursor.
    pub fn new() -> UnboundCursor {
        UnboundCursor {  }
    }
}

/// The mathematical view of a transaction.
pub struct TxnView {
    pub instance_id: u32,
    pub write: bool,
    pub active: bool,
    pub dbs: Seq<DbView>,
    pub buffer: Option<Seq<u8>>,
    pub change_set: Seq<(u16, Option<i64>)>,
    pub pool: nat,
}

/// One transaction: a snapshot of the committed state, an active flag
/// that latches on failure, a scratch buffer, a change-set
/// accumulator, and a bounded pool of unbound cursors.
pub struct NativeTxn {
    pub instance_id: u32,
    pub write: bool,
    pub active: bool,
    pub dbs: Vec<DbData>,
    pub buffer: Option<Vec<u8>>,
    pub change_set: ChangeSet,
    pub unbound_cursors: Vec<UnboundCursor>,
}

impl View for NativeTxn {
    type V = TxnView;

    open spec fn view(&self) -> TxnView {
        TxnView {
            instance_id: self.instance_id,
            write: self.write,
            active: self.active,
            dbs: self.dbs@.map(|i: int, d: DbData| d@),
            buffer: match self.buffer {
                Option::Some(b) => Option::Some(b@),
                Option::None => Option::None,
            },
            change_set: self.change_set@,
            pool: self.unbound_cursors@.len(),
        }
    }
}

/// The invariant every live transaction keeps: at most three pooled
/// cursors, every snapshot database well formed, and a pooled scratch
/// buffer always handed back cleared, so that taking it yields an
/// empty buffer.
pub open spec fn txn_wf(t: TxnView) -> bool {
    &&& t.pool <= 3
    &&& env_wf(t.dbs)
    &&& (match t.buffer {
        Option::Some(b) => b.len() == 0,
        Option::None => true,
    })
}

fn clone_entries(src: &Vec<(Vec<u8>, Vec<u8>)>) -> (r: Vec<(Vec<u8>, Vec<u8>)>)
    ensures
        entries_view(r@) == entries_view(src@),
{
    let n = src.len();
    let mut out: Vec<(Vec<u8>, Vec<u8>)> = Vec::new();
    let mut i: usize = 0;
    proof {
        assert(entries_view(out@) =~= entries_view(src@).take(0));
    }
    while i < n
        invariant
            i <= n,
            n == src@.len(),
            out@.len() == i,
            entries_view(out@) == entries_view(src@).take(i as int),
        decreases n - i,
    {
        let e = &src[i];
        let k = clone_bytes(&e.0);
        let v = clone_bytes(&e.1);
        let ghost gk = k@;
        let ghost gv = v@;
        proof {
            assert(gk == src@[i as int].0@);
            assert(gv == src@[i as int].1@);
        }
        out.push((k, v));
        proof {
            assert(out@[i as int].0@ == gk && out@[i as int].1@ == gv);
            assert(entries_view(src@)[i as int] == (src@[i as int].0@, src@[i as int].1@));
            assert(entries_view(out@) =~= entries_view(src@).take(i as int + 1));
        }
        i = i + 1;
    }
    proof {
        assert(entries_view(src@).take(n as int) =~= entries_view(src@));
    }
    out
}

fn clone_dbs(src: &Vec<DbData>) -> (r: Vec<DbData>)
    ensures
        r@.map(|i: int, d: DbData| d@) == src@.map(|i: int, d: DbData| d@),
{
    let n = src.len();
    let mut out: Vec<DbData> = Vec::new();
    let mut i: usize = 0;
    proof {
        assert(out@.map(|k: int, d: DbData| d@) =~= src@.map(|k: int, d: DbData| d@).take(0));
    }
    while i < n
        invariant
            i <= n,
            n == src@.len(),
            out@.len() == i,
            out@.map(|k: int, d: DbData| d@) == src@.map(|k: int, d: DbData| d@).take(i as int),
        decreases n - i,
    {
        let d = &src[i];
        let name = clone_bytes(&d.name);
        let entries = clone_entries(&d.entries);
        let nd = DbData { name, int_key: d.int_key, dup: d.dup, entries };
        proof {
            assert(nd@ == src@[i as int]@);
        }
        out.push(nd);
        proof {
            assert(src@.map(|k: int, d: DbData| d@)[i as int] == src@[i as int]@);
            assert(out@.map(|k: int, d: DbData| d@) =~= src@.map(|k: int, d: DbData| d@).take(
                i as int + 1,
            ));
        }
        i = i + 1;
    }
    proof {
        assert(src@.map(|k: int, d: DbData| d@).take(n as int) =~= src@.map(
            |k: int, d: DbData| d@,
        ));
    }
    out
}

impl NativeTxn {
    /// Begins a transaction: takes a snapshot of the committed state.
    /// A fresh transaction is active, holds an empty change set, no
    /// scratch buffer, and an empty cursor pool.
    pub fn new(instance_id: u32, env: &Env, write: bool) -> (r: NativeTxn)
        requires
            env_wf(env@),
        ensures
            r@.instance_id == instance_id,
            r@.write == write,
            r@.active,
            r@.dbs == env@,
            r@.buffer is None,
            r@.change_set == Seq::<(u16, Option<i64>)>::empty(),
            r@.pool == 0,
            txn_wf(r@),
    {
        let dbs = clone_dbs(&env.dbs);
        NativeTxn {
            instance_id,
            write,
            active: true,
            dbs,
            buffer: None,
            change_set: ChangeSet::new(),
            unbound_cursors: Vec::new(),
        }
    }

    /// Acquires a cursor bound to `db`, reusing a pooled one when
    /// available. Fails on a latched transaction.
    pub fn get_cursor(&mut self, db: Db) -> (r: Result<TxnCursor, IsarError>)
        ensures
            !old(self)@.active ==> r == Result::<TxnCursor, IsarError>::Err(
                IsarError::TransactionClosed,
            ) && final(self)@ == old(self)@,
            old(self)@.active ==> (match r {
                Result::Ok(c) => c.db == db && final(self)@ == (TxnView {
                    pool: if old(self)@.pool > 0 {
                        (old(self)@.pool - 1) as nat
                    } else {
                        0
                    },
                    ..old(self)@
                }),
                Result::Err(_) => false,
            }),
            txn_wf(old(self)@) ==> txn_wf(final(self)@),
    {
        if !self.active {
            return Err(IsarError::TransactionClosed);
        }
        let pooled = self.unbound_cursors.pop();
        let unbound = match pooled {
            Some(c) => c,
            None => UnboundCursor::new(),
        };
        let _ = unbound;
        Ok(TxnCursor { db })
    }

    /// Returns a cursor to the pool; the pool never grows past three
    /// retained cursors.
    pub fn unbind_cursor(&mut self, cursor: TxnCursor)
        ensures
            final(self)@ == (TxnView {
                pool: if old(self)@.pool < 3 {
                    old(self)@.pool + 1
                } else {
                    old(self)@.pool
                },
                ..old(self)@
            }),
            txn_wf(old(self)@) ==> txn_wf(final(self)@),
    {
        let _ = cursor;
        if self.unbound_cursors.len() < 3 {
            self.unbound_cursors.push(UnboundCursor::new());
        }
    }

    /// Read access to the accumulated change set.
    pub fn get_change_set(&self) -> (r: &ChangeSet)
        ensures
            r@ == self@.change_set,
    {
        &self.change_set
    }

    /// Records a change event for commit-time notification.
    pub fn record_change(&mut self, collection: u16, id: Option<i64>)
        ensures
            old(self)@.change_set.contains((collection, id)) ==> final(self)@ == old(self)@,
            !old(self)@.change_set.contains((collection, id)) ==> final(self)@ == (TxnView {
                change_set: old(self)@.change_set.push((collection, id)),
                ..old(self)@
            }),
            final(self)@.change_set.contains((collection, id)),
            txn_wf(old(self)@) ==> txn_wf(final(self)@),
    {
        self.change_set.register_change(collection, id);
    }

    /// Runs a fallible job under the transaction's latch: a latched
    /// transaction rejects the job outright, and a job that fails
    /// latches the transaction.
    pub fn guard<T, F: FnOnce() -> Result<T, IsarError>>(&mut self, job: F) -> (r: Result<
        T,
        IsarError,
    >)
        requires
            call_requires(job, ()),
        ensures
            !old(self)@.active ==> r == Result::<T, IsarError>::Err(IsarError::TransactionClosed)
                && final(self)@ == old(self)@,
            old(self)@.active ==> call_ensures(job, (), r),
            old(self)@.active && r is Ok ==> final(self)@ == old(self)@,
            old(self)@.active && r is Err ==> final(self)@ == (TxnView {
                active: false,
                ..old(self)@
            }),
            txn_wf(old(self)@) ==> txn_wf(final(self)@),
    {
        if !self.active {
            return Err(IsarError::TransactionClosed);
        }
        let result = job();
        if result.is_err() {
            self.active = false;
        }
        result
    }

    /// Latches the transaction inactive after a failed mutation.
    pub fn latch(&mut self)
        ensures
            final(self)@ == (TxnView { active: false, ..old(self)@ }),
            txn_wf(old(self)@) ==> txn_wf(final(self)@),
    {
        self.active = false;
    }

    /// Takes the reusable scratch buffer, or a fresh one.
    pub fn take_buffer(&mut self) -> (r: Vec<u8>)
        ensures
            final(self)@ == (TxnView { buffer: Option::None, ..old(self)@ }),
            r@ == (match old(self)@.buffer {
                Option::Some(b) => b,
                Option::None => Seq::<u8>::empty(),
            }),
            txn_wf(old(self)@) ==> txn_wf(final(self)@),
    {
        let b = self.buffer.take();
        match b {
            Some(v) => v,
            None => Vec::new(),
        }
    }

    /// Hands the scratch buffer back, cleared, for the next taker.
    pub fn put_buffer(&mut self, buffer: Vec<u8>)
        ensures
            final(self)@ == (TxnView {
                buffer: Option::Some(Seq::<u8>::empty()),
                ..old(self)@
            }),
            txn_wf(old(self)@) ==> txn_wf(final(self)@),
    {
        let mut buffer = buffer;
        buffer.clear();
        self.buffer = Some(buffer);
    }

    /// Opens a sub-database by name, creating it when the transaction
    /// writes. An existing database must carry the same flags. The
    /// empty name is reserved for dropped databases.
    pub fn open_db(&mut self, name: &[u8], int_key: bool, dup: bool) -> (r: Result<Db, IsarError>)
        ensures
            !old(self)@.active ==> r == Result::<Db, IsarError>::Err(IsarError::TransactionClosed)
                && final(self)@ == old(self)@,
            old(self)@.active && name@.len() == 0 ==> r == Result::<Db, IsarError>::Err(
                IsarError::IllegalArg,
            ) && final(self)@ == old(self)@,
            old(self)@.active && name@.len() > 0 ==> (match r {
                Result::Ok(db) => {
                    if db.index < old(self)@.dbs.len() {
                        &&& old(self)@.dbs[db.index as int].name == name@
                        &&& (forall|j: int|
                            0 <= j < db.index ==> old(self)@.dbs[j].name != name@)
                        &&& old(self)@.dbs[db.index as int].int_key == int_key
                        &&& old(self)@.dbs[db.index as int].dup == dup
                        &&& final(self)@ == old(self)@
                    } else {
                        &&& db.index == old(self)@.dbs.len()
                        &&& (forall|j: int|
                            0 <= j < old(self)@.dbs.len() ==> old(self)@.dbs[j].name != name@)
                        &&& old(self)@.write
                        &&& final(self)@ == (TxnView {
                            dbs: old(self)@.dbs.push(
                                (DbView {
                                    name: name@,
                                    int_key,
                                    dup,
                                    entries: Seq::empty(),
                                }),
                            ),
                            ..old(self)@
                        })
                    }
                },
                Result::Err(e) => {
                    if e == IsarError::SchemaMismatch {
                        (exists|j: int|
                            0 <= j < old(self)@.dbs.len() && old(self)@.dbs[j].name == name@ && (
                            old(self)@.dbs[j].int_key != int_key || old(self)@.dbs[j].dup != dup))
                            && final(self)@ == old(self)@
                    } else {
                        e == IsarError::WriteTxnRequired && !old(self)@.write && (forall|j: int|
                            0 <= j < old(self)@.dbs.len() ==> old(self)@.dbs[j].name != name@)
                            && final(self)@ == old(self)@
                    }
                },
            }),
            txn_wf(old(self)@) ==> txn_wf(final(self)@),
    {
        if !self.active {
            return Err(IsarError::TransactionClosed);
        }
        if name.len() == 0 {
            return Err(IsarError::IllegalArg);
        }
        let ghost tv = old(self)@;
        proof {
            assert(tv.active);
            assert(tv == self@);
        }
        let n = self.dbs.len();
        let mut i: usize = 0;
        while i < n
            invariant
                i <= n,
                n == self@.dbs.len(),
                n == self.dbs@.len(),
                self@ == tv,
                tv.active,
                name@.len() > 0,
                self.write == tv.write,
                forall|j: int| 0 <= j < i ==> self@.dbs[j].name != name@,
            decreases n - i,
        {
            proof {
                assert(self@.dbs[i as int] == self.dbs@[i as int]@);
            }
            if bytes_eq(self.dbs[i].name.as_slice(), name) {
                if self.dbs[i].int_key == int_key && self.dbs[i].dup == dup {
                    return Ok(Db { index: i });
                } else {
                    return Err(IsarError::SchemaMismatch);
                }
            }
            i = i + 1;
        }
        if !self.write {
            return Err(IsarError::WriteTxnRequired);
        }
        let nd = DbData {
            name: crate::codec::copy_range(name, 0, name.len()),
            int_key,
            dup,
            entries: Vec::new(),
        };
        proof {
            assert(name@.subrange(0, name@.len() as int) =~= name@);
            assert(nd@.entries =~= Seq::<(Seq<u8>, Seq<u8>)>::empty());
        }
        self.dbs.push(nd);
        proof {
            assert(self@.dbs =~= old(self)@.dbs.push(
                (DbView { name: name@, int_key, dup, entries: Seq::empty() }),
            ));
        }
        Ok(Db { index: n })
    }

    /// Replaces the sub-database at `db` with `d`, in place.
    fn replace_db(&mut self, db: Db, d: DbData)
        requires
            db.index < old(self)@.dbs.len(),
        ensures
            final(self)@ == (TxnView {
                dbs: old(self)@.dbs.update(db.index as int, d@),
                ..old(self)@
            }),
    {
        self.dbs.remove(db.index);
        self.dbs.insert(db.index, d);
        proof {
            assert(self@.dbs =~= old(self)@.dbs.update(db.index as int, d@));
        }
    }

    /// Truncates a sub-database. Requires a write transaction; a
    /// failure latches.
    pub fn clear_db(&mut self, db: Db) -> (r: Result<(), IsarError>)
        requires
            db.index < old(self)@.dbs.len(),
        ensures
            !old(self)@.active ==> r == Result::<(), IsarError>::Err(IsarError::TransactionClosed)
                && final(self)@ == old(self)@,
            old(self)@.active && !old(self)@.write ==> r == Result::<(), IsarError>::Err(
                IsarError::WriteTxnRequired,
            ) && final(self)@ == (TxnView { active: false, ..old(self)@ }),
            old(self)@.active && old(self)@.write ==> r is Ok && final(self)@ == (TxnView {
                dbs: old(self)@.dbs.update(
                    db.index as int,
                    (DbView { entries: Seq::empty(), ..old(self)@.dbs[db.index as int] }),
                ),
                ..old(self)@
            }),
            txn_wf(old(self)@) ==> txn_wf(final(self)@),
    {
        if !self.active {
            return Err(IsarError::TransactionClosed);
        }
        if !self.write {
            self.active = false;
            return Err(IsarError::WriteTxnRequired);
        }
        proof {
            assert(self@.dbs[db.index as int] == self.dbs@[db.index as int]@);
        }
        let old_db = &self.dbs[db.index];
        let d = DbData {
            name: clone_bytes(&old_db.name),
            int_key: old_db.int_key,
            dup: old_db.dup,
            entries: Vec::new(),
        };
        proof {
            assert(d@.entries =~= Seq::<(Seq<u8>, Seq<u8>)>::empty());
            assert(d@ == (DbView { entries: Seq::empty(), ..old(self)@.dbs[db.index as int] }));
        }
        self.replace_db(db, d);
        Ok(())
    }

    /// Deletes a sub-database: its name binding and contents go away;
    /// the slot stays so other handles keep their meaning.
    pub fn drop_db(&mut self, db: Db) -> (r: Result<(), IsarError>)
        requires
            db.index < old(self)@.dbs.len(),
        ensures
            !old(self)@.active ==> r == Result::<(), IsarError>::Err(IsarError::TransactionClosed)
                && final(self)@ == old(self)@,
            old(self)@.active && !old(self)@.write ==> r == Result::<(), IsarError>::Err(
                IsarError::WriteTxnRequired,
            ) && final(self)@ == (TxnView { active: false, ..old(self)@ }),
            old(self)@.active && old(self)@.write ==> r is Ok && final(self)@ == (TxnView {
                dbs: old(self)@.dbs.update(
                    db.index as int,
                    (DbView {
                        name: Seq::empty(),
                        entries: Seq::empty(),
                        ..old(self)@.dbs[db.index as int]
                    }),
                ),
                ..old(self)@
            }),
            txn_wf(old(self)@) ==> txn_wf(final(self)@),
    {
        if !self.active {
            return Err(IsarError::TransactionClosed);
        }
        if !self.write {
            self.active = false;
            return Err(IsarError::WriteTxnRequired);
        }
        proof {
            assert(self@.dbs[db.index as int] == self.dbs@[db.index as int]@);
        }
        let old_db = &self.dbs[db.index];
        let d = DbData {
            name: Vec::new(),
            int_key: old_db.int_key,
            dup: old_db.dup,
            entries: Vec::new(),
        };
        proof {
            assert(d@.entries =~= Seq::<(Seq<u8>, Seq<u8>)>::empty());
            assert(d@.name =~= Seq::<u8>::empty());
            assert(d@ == (DbView {
                name: Seq::empty(),
                entries: Seq::empty(),
                ..old(self)@.dbs[db.index as int]
            }));
        }
        self.replace_db(db, d);
        Ok(())
    }

    /// The entry count and total byte size of a sub-database.
    pub fn stat(&self, db: Db) -> (r: Result<(u64, u64), IsarError>)
        requires
            db.index < self@.dbs.len(),
        ensures
            !self@.active ==> r == Result::<(u64, u64), IsarError>::Err(
                IsarError::TransactionClosed,
            ),
            self@.active ==> (match r {
                Result::Ok(p) => p.0 == self@.dbs[db.index as int].entries.len() && (bytes_total(
                    self@.dbs[db.index as int].entries,
                    self@.dbs[db.index as int].entries.len() as int,
                ) <= u64::MAX ==> p.1 == bytes_total(
                    self@.dbs[db.index as int].entries,
                    self@.dbs[db.index as int].entries.len() as int,
                )),
                Result::Err(_) => false,
            }),
    {
        if !self.active {
            return Err(IsarError::TransactionClosed);
        }
        proof {
            assert(self@.dbs[db.index as int] == self.dbs@[db.index as int]@);
        }
        let d = &self.dbs[db.index];
        let ghost es = d@.entries;
        let n = d.entries.len();
        let mut total: u64 = 0;
        let mut i: usize = 0;
        let mut saturated = false;
        while i < n
            invariant
                i <= n,
                n == es.len(),
                n == d.entries@.len(),
                es == d@.entries,
                !saturated ==> total == bytes_total(es, i as int),
                saturated ==> bytes_total(es, i as int) > u64::MAX,
                bytes_total(es, i as int) >= 0,
            decreases n - i,
        {
            proof {
                assert(es[i as int] == (d.entries@[i as int].0@, d.entries@[i as int].1@));
            }
            let k = d.entries[i].0.len();
            let v = d.entries[i].1.len();
            let add0 = (k as u64);
            let add1 = (v as u64);
            if !saturated {
                if total <= u64::MAX - add0 {
                    total = total + add0;
                    if total <= u64::MAX - add1 {
                        total = total + add1;
                    } else {
                        saturated = true;
                    }
                } else {
                    saturated = true;
                }
            }
            i = i + 1;
        }
        Ok((n as u64, total))
    }

    /// Commits: on a write transaction the snapshot becomes the
    /// committed state, and the accumulated change set is returned so
    /// the caller can notify watchers — only after this has
    /// succeeded. A latched transaction cannot commit and leaves the
    /// committed state untouched.
    pub fn commit(self, env: &mut Env) -> (r: Result<ChangeSet, IsarError>)
        ensures
            !self@.active ==> r == Result::<ChangeSet, IsarError>::Err(
                IsarError::TransactionClosed,
            ) && final(env)@ == old(env)@,
            self@.active ==> (match r {
                Result::Ok(cs) => cs@ == self@.change_set && final(env)@ == (if self@.write {
                    self@.dbs
                } else {
                    old(env)@
                }),
                Result::Err(_) => false,
            }),
    {
        if !self.active {
            return Err(IsarError::TransactionClosed);
        }
        let NativeTxn { write, dbs, change_set, .. } = self;
        if write {
            env.dbs = dbs;
        }
        Ok(change_set)
    }

    /// Looks a key up in a sub-database of the snapshot.
    pub fn db_get(&self, db: Db, key: &[u8]) -> (r: Result<Option<Vec<u8>>, IsarError>)
        requires
            db.index < self@.dbs.len(),
        ensures
            !self@.active ==> r == Result::<Option<Vec<u8>>, IsarError>::Err(
                IsarError::TransactionClosed,
            ),
            self@.active ==> (match r {
                Result::Ok(o) => match o {
                    Option::Some(v) => self@.dbs[db.index as int].entries.contains((key@, v@)),
                    Option::None => forall|j: int|
                        0 <= j < self@.dbs[db.index as int].entries.len()
                            ==> self@.dbs[db.index as int].entries[j].0 != key@,
                },
                Result::Err(_) => false,
            }),
    {
        if !self.active {
            return Err(IsarError::TransactionClosed);
        }
        proof {
            assert(self@.dbs[db.index as int] == self.dbs@[db.index as int]@);
        }
        Ok(self.dbs[db.index].get(key))
    }

    /// The last entry of a sub-database, which holds its greatest key.
    pub fn db_last(&self, db: Db) -> (r: Result<Option<(Vec<u8>, Vec<u8>)>, IsarError>)
        requires
            db.index < self@.dbs.len(),
        ensures
            !self@.active ==> r == Result::<Option<(Vec<u8>, Vec<u8>)>, IsarError>::Err(
                IsarError::TransactionClosed,
            ),
            self@.active ==> (match r {
                Result::Ok(o) => match o {
                    Option::Some(kv) => self@.dbs[db.index as int].entries.len() > 0 && (kv.0@,
                    kv.1@) == self@.dbs[db.index as int].entries.last(),
                    Option::None => self@.dbs[db.index as int].entries.len() == 0,
                },
                Result::Err(_) => false,
            }),
    {
        if !self.active {
            return Err(IsarError::TransactionClosed);
        }
        proof {
            assert(self@.dbs[db.index as int] == self.dbs@[db.index as int]@);
        }
        let d = &self.dbs[db.index];
        let n = d.entries.len();
        if n == 0 {
            return Ok(None);
        }
        proof {
            assert(d@.entries[n - 1] == (d.entries@[n - 1].0@, d.entries@[n - 1].1@));
        }
        let k = clone_bytes(&d.entries[n - 1].0);
        let v = clone_bytes(&d.entries[n - 1].1);
        Ok(Some((k, v)))
    }

    /// The number of entries of a sub-database.
    pub fn db_count(&self, db: Db) -> (r: Result<usize, IsarError>)
        requires
            db.index < self@.dbs.len(),
        ensures
            !self@.active ==> r == Result::<usize, IsarError>::Err(IsarError::TransactionClosed),
            self@.active ==> r == Result::<usize, IsarError>::Ok(
                self@.dbs[db.index as int].entries.len() as usize,
            ),
    {
        if !self.active {
            return Err(IsarError::TransactionClosed);
        }
        proof {
            assert(self@.dbs[db.index as int] == self.dbs@[db.index as int]@);
        }
        Ok(self.dbs[db.index].len())
    }

    /// Collects the entries of a sub-database whose key lies in
    /// `[lo, hi]`.
    pub fn db_range(&self, db: Db, lo: &[u8], hi: &[u8], one_per_key: bool) -> (r: Result<
        Vec<(Vec<u8>, Vec<u8>)>,
        IsarError,
    >)
        requires
            db.index < self@.dbs.len(),
        ensures
            !self@.active ==> r == Result::<Vec<(Vec<u8>, Vec<u8>)>, IsarError>::Err(
                IsarError::TransactionClosed,
            ),
            self@.active ==> (match r {
                Result::Ok(v) => entries_view(v@) == range_spec(
                    self@.dbs[db.index as int],
                    lo@,
                    hi@,
                    one_per_key,
                ),
                Result::Err(_) => false,
            }),
    {
        if !self.active {
            return Err(IsarError::TransactionClosed);
        }
        proof {
            assert(self@.dbs[db.index as int] == self.dbs@[db.index as int]@);
        }
        Ok(self.dbs[db.index].range(lo, hi, one_per_key))
    }

    /// Upserts one entry into a sub-database of the snapshot. A
    /// read-only transaction latches.
    pub fn db_put(&mut self, db: Db, key: Vec<u8>, value: Vec<u8>) -> (r: Result<(), IsarError>)
        requires
            db.index < old(self)@.dbs.len(),
            txn_wf(old(self)@),
        ensures
            txn_wf(final(self)@),
            !old(self)@.active ==> r == Result::<(), IsarError>::Err(IsarError::TransactionClosed)
                && final(self)@ == old(self)@,
            old(self)@.active && !old(self)@.write ==> r == Result::<(), IsarError>::Err(
                IsarError::WriteTxnRequired,
            ) && final(self)@ == (TxnView { active: false, ..old(self)@ }),
            old(self)@.active && old(self)@.write ==> r is Ok && final(self)@ == (TxnView {
                dbs: final(self)@.dbs,
                ..old(self)@
            }) && final(self)@.dbs.len() == old(self)@.dbs.len() && (forall|j: int|
                0 <= j < old(self)@.dbs.len() && j != db.index ==> final(self)@.dbs[j] == old(
                    self,
                )@.dbs[j]) && {
                let od = old(self)@.dbs[db.index as int];
                let nd = final(self)@.dbs[db.index as int];
                &&& nd.name == od.name
                &&& nd.int_key == od.int_key
                &&& nd.dup == od.dup
                &&& db_wf(nd)
                &&& (!od.dup ==> forall|e: (Seq<u8>, Seq<u8>)|
                    #[trigger] nd.entries.contains(e) <==> ((od.entries.contains(e) && e.0
                        != key@) || e == (key@, value@)))
                &&& (od.dup ==> forall|e: (Seq<u8>, Seq<u8>)|
                    #[trigger] nd.entries.contains(e) <==> (od.entries.contains(e) || e == (
                    key@,
                    value@,
                )))
            },
    {
        if !self.active {
            return Err(IsarError::TransactionClosed);
        }
        if !self.write {
            self.active = false;
            return Err(IsarError::WriteTxnRequired);
        }
        proof {
            assert(self@.dbs[db.index as int] == self.dbs@[db.index as int]@);
        }
        let mut d = self.dbs.remove(db.index);
        d.put(key, value);
        self.dbs.insert(db.index, d);
        proof {
            assert(self@.dbs =~= old(self)@.dbs.update(
                db.index as int,
                self.dbs@[db.index as int]@,
            ));
        }
        Ok(())
    }

    /// Removes every entry with the given key from a unique-key
    /// sub-database.
    pub fn db_del_key(&mut self, db: Db, key: &[u8]) -> (r: Result<bool, IsarError>)
        requires
            db.index < old(self)@.dbs.len(),
            txn_wf(old(self)@),
            !old(self)@.dbs[db.index as int].dup,
        ensures
            txn_wf(final(self)@),
            !old(self)@.active ==> r == Result::<bool, IsarError>::Err(
                IsarError::TransactionClosed,
            ) && final(self)@ == old(self)@,
            old(self)@.active && !old(self)@.write ==> r == Result::<bool, IsarError>::Err(
                IsarError::WriteTxnRequired,
            ) && final(self)@ == (TxnView { active: false, ..old(self)@ }),
            old(self)@.active && old(self)@.write ==> (match r {
                Result::Ok(b) => final(self)@ == (TxnView { dbs: final(self)@.dbs, ..old(self)@ })
                    && final(self)@.dbs.len() == old(self)@.dbs.len() && (forall|j: int|
                    0 <= j < old(self)@.dbs.len() && j != db.index ==> final(self)@.dbs[j] == old(
                        self,
                    )@.dbs[j]) && {
                    let od = old(self)@.dbs[db.index as int];
                    let nd = final(self)@.dbs[db.index as int];
                    &&& nd.name == od.name
                    &&& nd.int_key == od.int_key
                    &&& nd.dup == od.dup
                    &&& db_wf(nd)
                    &&& (forall|e: (Seq<u8>, Seq<u8>)|
                        #[trigger] nd.entries.contains(e) <==> (od.entries.contains(e) && e.0
                            != key@))
                    &&& b == (exists|j: int|
                        0 <= j < od.entries.len() && od.entries[j].0 == key@)
                },
                Result::Err(_) => false,
            }),
    {
        if !self.active {
            return Err(IsarError::TransactionClosed);
        }
        if !self.write {
            self.active = false;
            return Err(IsarError::WriteTxnRequired);
        }
        proof {
            assert(self@.dbs[db.index as int] == self.dbs@[db.index as int]@);
        }
        let mut d = self.dbs.remove(db.index);
        let b = d.del_key(key);
        self.dbs.insert(db.index, d);
        proof {
            assert(self@.dbs =~= old(self)@.dbs.update(
                db.index as int,
                self.dbs@[db.index as int]@,
            ));
        }
        Ok(b)
    }

    /// Removes one exact entry from a duplicate-key sub-database.
    pub fn db_del_pair(&mut self, db: Db, key: &[u8], value: &[u8]) -> (r: Result<bool, IsarError>)
        requires
            db.index < old(self)@.dbs.len(),
            txn_wf(old(self)@),
            old(self)@.dbs[db.index as int].dup,
        ensures
            txn_wf(final(self)@),
            !old(self)@.active ==> r == Result::<bool, IsarError>::Err(
                IsarError::TransactionClosed,
            ) && final(self)@ == old(self)@,
            old(self)@.active && !old(self)@.write ==> r == Result::<bool, IsarError>::Err(
                IsarError::WriteTxnRequired,
            ) && final(self)@ == (TxnView { active: false, ..old(self)@ }),
            old(self)@.active && old(self)@.write ==> (match r {
                Result::Ok(b) => final(self)@ == (TxnView { dbs: final(self)@.dbs, ..old(self)@ })
                    && final(self)@.dbs.len() == old(self)@.dbs.len() && (forall|j: int|
                    0 <= j < old(self)@.dbs.len() && j != db.index ==> final(self)@.dbs[j] == old(
                        self,
                    )@.dbs[j]) && {
                    let od = old(self)@.dbs[db.index as int];
                    let nd = final(self)@.dbs[db.index as int];
                    &&& nd.name == od.name
                    &&& nd.int_key == od.int_key
                    &&& nd.dup == od.dup
                    &&& db_wf(nd)
                    &&& (forall|e: (Seq<u8>, Seq<u8>)|
                        #[trigger] nd.entries.contains(e) <==> (od.entries.contains(e) && e != (
                        key@,
                        value@,
                        )))
                    &&& b == od.entries.contains((key@, value@))
                },
                Result::Err(_) => false,
            }),
    {
        if !self.active {
            return Err(IsarError::TransactionClosed);
        }
        if !self.write {
            self.active = false;
            return Err(IsarError::WriteTxnRequired);
        }
        proof {
            assert(self@.dbs[db.index as int] == self.dbs@[db.index as int]@);
        }
        let mut d = self.dbs.remove(db.index);
        let b = d.del_pair(key, value);
        self.dbs.insert(db.index, d);
        proof {
            assert(self@.dbs =~= old(self)@.dbs.update(
                db.index as int,
                self.dbs@[db.index as int]@,
            ));
        }
        Ok(b)
    }

    /// Discards the transaction and its change set silently: the
    /// committed state is untouched and no notification ever arises
    /// from it.
    pub fn abort(self) {
        let _ = self;
    }
}

/// A cursor bound to one sub-database of a transaction's snapshot.
pub struct TxnCursor {
    pub db: Db,
}

/// A bounded iteration, yielded front to back. The entries were
/// copied out of the snapshot under the transaction's lifetime.
pub struct CursorIterator {
    pub entries: Vec<(Vec<u8>, Vec<u8>)>,
}

impl CursorIterator {
    /// The next entry, or nothing at the end.
    pub fn next(&mut self) -> (r: Option<(Vec<u8>, Vec<u8>)>)
        ensures
            old(self).entries@.len() == 0 ==> r is None && *final(self) == *old(self),
            old(self).entries@.len() > 0 ==> (match r {
                Option::Some(kv) => (kv.0@, kv.1@) == entries_view(old(self).entries@)[0]
                    && entries_view(final(self).entries@) == entries_view(
                    old(self).entries@,
                ).skip(1),
                Option::None => false,
            }),
    {
        if self.entries.len() == 0 {
            return None;
        }
        let kv = self.entries.remove(0);
        proof {
            assert(entries_view(old(self).entries@)[0] == (old(self).entries@[0].0@,
            old(self).entries@[0].1@));
            assert(entries_view(self.entries@) =~= entries_view(old(self).entries@).skip(1));
        }
        Some(kv)
    }

    /// How many entries remain.
    pub fn remaining(&self) -> (r: usize)
        ensures
            r == self.entries@.len(),
    {
        self.entries.len()
    }
}

impl TxnCursor {
    /// Iterates the entries whose key encodes an id in
    /// `[start_id, end_id]`; keys sort as the ids do. With
    /// `skip_duplicates`, or without `duplicates`, one entry per key.
    pub fn iter_between_ids(
        self,
        txn: &NativeTxn,
        start_id: i64,
        end_id: i64,
        duplicates: bool,
        skip_duplicates: bool,
    ) -> (r: Result<CursorIterator, IsarError>)
        requires
            self.db.index < txn@.dbs.len(),
        ensures
            !txn@.active ==> r == Result::<CursorIterator, IsarError>::Err(
                IsarError::TransactionClosed,
            ),
            txn@.active ==> (match r {
                Result::Ok(it) => entries_view(it.entries@) == range_spec(
                    txn@.dbs[self.db.index as int],
                    id_key(start_id),
                    id_key(end_id),
                    !duplicates || skip_duplicates,
                ),
                Result::Err(_) => false,
            }),
    {
        if !txn.active {
            return Err(IsarError::TransactionClosed);
        }
        let lo = crate::keys::encode_id(start_id);
        let hi = crate::keys::encode_id(end_id);
        proof {
            assert(txn@.dbs[self.db.index as int] == txn.dbs@[self.db.index as int]@);
        }
        let one = !duplicates || skip_duplicates;
        let d = &txn.dbs[self.db.index];
        let v = d.range(lo.as_slice(), hi.as_slice(), one);
        Ok(CursorIterator { entries: v })
    }

    /// Iterates the entries whose key lies between two index keys,
    /// inclusive.
    pub fn iter_between(
        self,
        txn: &NativeTxn,
        start_key: &IndexKey,
        end_key: &IndexKey,
        duplicates: bool,
        skip_duplicates: bool,
    ) -> (r: Result<CursorIterator, IsarError>)
        requires
            self.db.index < txn@.dbs.len(),
        ensures
            !txn@.active ==> r == Result::<CursorIterator, IsarError>::Err(
                IsarError::TransactionClosed,
            ),
            txn@.active ==> (match r {
                Result::Ok(it) => entries_view(it.entries@) == range_spec(
                    txn@.dbs[self.db.index as int],
                    start_key.bytes@,
                    end_key.bytes@,
                    !duplicates || skip_duplicates,
                ),
                Result::Err(_) => false,
            }),
    {
        if !txn.active {
            return Err(IsarError::TransactionClosed);
        }
        proof {
            assert(txn@.dbs[self.db.index as int] == txn.dbs@[self.db.index as int]@);
        }
        let one = !duplicates || skip_duplicates;
        let d = &txn.dbs[self.db.index];
        let v = d.range(start_key.bytes.as_slice(), end_key.bytes.as_slice(), one);
        Ok(CursorIterator { entries: v })
    }
}

} // verus!
