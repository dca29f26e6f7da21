use isar_core::codec::{encode_obj, read_prop};
use isar_core::error::IsarError;
use isar_core::index::IndexKey;
use isar_core::instance::{open_instance, CollectionSchema, IndexSchema, IsarSchema};
use isar_core::keys::{bytes_lt, encode_id};
use isar_core::query::{AggregateValue, Filter, QueryBuilder};
use isar_core::txn::TxnCursor;
use isar_core::value::{IsarValue, ValueKind};
use isar_core::Aggregation;

fn book_schema(index_on_title: bool, unique: bool) -> IsarSchema {
    let indexes = if index_on_title {
        vec![IndexSchema { name: b"title".to_vec(), props: vec![0u16], unique }]
    } else {
        vec![]
    };
    IsarSchema {
        collections: vec![CollectionSchema {
            name: b"book".to_vec(),
            kinds: vec![ValueKind::Text],
            indexes,
        }],
    }
}

fn text(s: &str) -> Option<IsarValue> {
    Some(IsarValue::Text(s.as_bytes().to_vec()))
}

#[test]
fn insert_then_get() {
    let mut inst = open_instance(1, b"db".to_vec(), b"/tmp/db".to_vec(), &book_schema(false, false), 64).unwrap();
    let mut txn = inst.begin_txn(true);
    let id = inst.insert(&mut txn, 0, Some(1), &vec![text("A")]).unwrap();
    assert_eq!(id, 1);
    inst.commit_txn(txn).unwrap();

    let rtxn = inst.begin_txn(false);
    let reader = inst.get(&rtxn, 0, 1).unwrap().expect("object stored");
    match reader.read(0).unwrap() {
        Some(IsarValue::Text(t)) => assert_eq!(t, b"A".to_vec()),
        other => panic!("unexpected value {:?}", other.is_some()),
    }
    assert_eq!(inst.count(&rtxn, 0).unwrap(), 1);
    inst.abort_txn(rtxn);
}

#[test]
fn update_touches_index() {
    let mut inst = open_instance(2, b"db".to_vec(), b"/tmp/db".to_vec(), &book_schema(true, false), 64).unwrap();
    let mut txn = inst.begin_txn(true);
    inst.insert(&mut txn, 0, Some(1), &vec![text("A")]).unwrap();
    inst.insert(&mut txn, 0, Some(2), &vec![text("B")]).unwrap();
    inst.commit_txn(txn).unwrap();

    let mut txn = inst.begin_txn(true);
    assert!(inst.update(&mut txn, 0, 1, &vec![(0u16, text("C"))]).unwrap());
    inst.commit_txn(txn).unwrap();

    let rtxn = inst.begin_txn(false);
    let index_db = inst.collections[0].indexes[0].db;
    let lookup = |txn: &isar_core::txn::NativeTxn, title: &str| -> Vec<i64> {
        let mut key = IndexKey::new();
        key.add_value(&text(title));
        let cursor = TxnCursor { db: index_db };
        let mut it = cursor.iter_between(txn, &key, &key, true, false).unwrap();
        let mut ids = vec![];
        while let Some((_k, v)) = it.next() {
            ids.push(isar_core::keys::decode_id(&v).unwrap());
        }
        ids
    };
    assert_eq!(lookup(&rtxn, "A"), Vec::<i64>::new());
    assert_eq!(lookup(&rtxn, "C"), vec![1]);
    assert_eq!(lookup(&rtxn, "B"), vec![2]);
    inst.abort_txn(rtxn);
}

#[test]
fn unique_violation_latches() {
    let mut inst = open_instance(3, b"db".to_vec(), b"/tmp/db".to_vec(), &book_schema(true, true), 64).unwrap();
    let mut txn = inst.begin_txn(true);
    inst.insert(&mut txn, 0, Some(1), &vec![text("isbn-1")]).unwrap();
    let err = inst.insert(&mut txn, 0, Some(2), &vec![text("isbn-1")]).unwrap_err();
    assert_eq!(err, IsarError::UniqueViolation);
    // the transaction is latched: every subsequent operation fails
    assert_eq!(inst.count(&txn, 0).unwrap_err(), IsarError::TransactionClosed);
    assert_eq!(inst.commit_txn(txn).unwrap_err(), IsarError::TransactionClosed);
    // nothing persisted
    let rtxn = inst.begin_txn(false);
    assert_eq!(inst.count(&rtxn, 0).unwrap(), 0);
    inst.abort_txn(rtxn);
}

fn score_schema() -> IsarSchema {
    IsarSchema {
        collections: vec![CollectionSchema {
            name: b"scored".to_vec(),
            kinds: vec![ValueKind::Int],
            indexes: vec![],
        }],
    }
}

#[test]
fn aggregate_semantics() {
    let mut inst = open_instance(4, b"db".to_vec(), b"/tmp/db".to_vec(), &score_schema(), 64).unwrap();
    let mut txn = inst.begin_txn(true);
    for (i, v) in [Some(10), None, Some(20), Some(30)].iter().enumerate() {
        let value = v.map(IsarValue::Int);
        inst.insert(&mut txn, 0, Some(i as i64 + 1), &vec![value]).unwrap();
    }
    inst.commit_txn(txn).unwrap();

    let rtxn = inst.begin_txn(false);
    let q = QueryBuilder::new(0).build();
    match inst.query_aggregate(&rtxn, &q, Aggregation::Min, Some(0)).unwrap() {
        Some(AggregateValue::Value(IsarValue::Int(v))) => assert_eq!(v, 10),
        _ => panic!("min"),
    }
    match inst.query_aggregate(&rtxn, &q, Aggregation::Max, Some(0)).unwrap() {
        Some(AggregateValue::Value(IsarValue::Int(v))) => assert_eq!(v, 30),
        _ => panic!("max"),
    }
    match inst.query_aggregate(&rtxn, &q, Aggregation::Sum, Some(0)).unwrap() {
        Some(AggregateValue::Long(v)) => assert_eq!(v, 60),
        _ => panic!("sum"),
    }
    match inst.query_aggregate(&rtxn, &q, Aggregation::Average, Some(0)).unwrap() {
        Some(AggregateValue::Fraction(sum, cnt)) => {
            assert_eq!((sum, cnt), (60, 3));
            let avg = sum as f64 / cnt as f64;
            assert_eq!(avg, 20.0);
        }
        _ => panic!("average"),
    }
    match inst.query_aggregate(&rtxn, &q, Aggregation::Count, None).unwrap() {
        Some(AggregateValue::Long(v)) => assert_eq!(v, 4),
        _ => panic!("count"),
    }
    match inst.query_aggregate(&rtxn, &q, Aggregation::IsEmpty, None).unwrap() {
        Some(AggregateValue::Bool(b)) => assert!(!b),
        _ => panic!("is_empty"),
    }
    inst.abort_txn(rtxn);

    let mut txn = inst.begin_txn(true);
    inst.clear(&mut txn, 0).unwrap();
    inst.commit_txn(txn).unwrap();
    let rtxn = inst.begin_txn(false);
    assert!(inst.query_aggregate(&rtxn, &q, Aggregation::Min, Some(0)).unwrap().is_none());
    match inst.query_aggregate(&rtxn, &q, Aggregation::Count, None).unwrap() {
        Some(AggregateValue::Long(v)) => assert_eq!(v, 0),
        _ => panic!("count"),
    }
    match inst.query_aggregate(&rtxn, &q, Aggregation::IsEmpty, None).unwrap() {
        Some(AggregateValue::Bool(b)) => assert!(b),
        _ => panic!("is_empty"),
    }
    inst.abort_txn(rtxn);
}

#[test]
fn query_offset_limit_sort() {
    let mut inst = open_instance(5, b"db".to_vec(), b"/tmp/db".to_vec(), &score_schema(), 64).unwrap();
    let mut txn = inst.begin_txn(true);
    // insert in shuffled order so the sort does real work
    for n in [7, 2, 9, 0, 5, 3, 8, 1, 6, 4] {
        inst.insert(&mut txn, 0, None, &vec![Some(IsarValue::Int(n))]).unwrap();
    }
    inst.commit_txn(txn).unwrap();

    let rtxn = inst.begin_txn(false);
    let mut qb = QueryBuilder::new(0);
    qb.set_sort(0, true);
    let q = qb.build();
    let mut cur = inst.query_cursor(&rtxn, &q, Some(3), Some(4)).unwrap();
    let mut seen = vec![];
    while let Some(r) = cur.next() {
        match r.read(0).unwrap() {
            Some(IsarValue::Int(v)) => seen.push(v),
            _ => panic!("kind"),
        }
    }
    assert_eq!(seen, vec![3, 4, 5, 6]);
    inst.abort_txn(rtxn);
}

#[test]
fn watcher_fires_once_per_commit() {
    let mut inst = open_instance(6, b"db".to_vec(), b"/tmp/db".to_vec(), &book_schema(false, false), 64).unwrap();
    let handle = inst.watch(Some(0), None).unwrap();

    let mut txn = inst.begin_txn(true);
    for i in 1..=3 {
        inst.insert(&mut txn, 0, Some(i), &vec![text("x")]).unwrap();
    }
    let notifs = inst.commit_txn(txn).unwrap();
    assert_eq!(notifs.len(), 3);
    let ids: Vec<Option<i64>> = notifs.iter().map(|n| n.obj_id).collect();
    assert_eq!(ids, vec![Some(1), Some(2), Some(3)]);
    assert!(notifs.iter().all(|n| n.handle == handle && n.collection == 0));

    // an aborted transaction notifies nobody and persists nothing
    let mut txn = inst.begin_txn(true);
    inst.insert(&mut txn, 0, Some(9), &vec![text("y")]).unwrap();
    inst.abort_txn(txn);
    let rtxn = inst.begin_txn(false);
    assert!(inst.get(&rtxn, 0, 9).unwrap().is_none());
    inst.abort_txn(rtxn);
}

#[test]
fn codec_round_trip_all_kinds() {
    let obj: Vec<Option<IsarValue>> = vec![
        Some(IsarValue::Bool(true)),
        Some(IsarValue::Bool(false)),
        Some(IsarValue::Byte(200)),
        Some(IsarValue::Int(-12345)),
        Some(IsarValue::Long(i64::MIN + 1)),
        Some(IsarValue::Text(b"hello".to_vec())),
        Some(IsarValue::Text(vec![])),
        None,
    ];
    let bytes = encode_obj(&obj).unwrap();
    for (i, expect) in obj.iter().enumerate() {
        let got = read_prop(&bytes, i).unwrap();
        match (expect, &got) {
            (Some(IsarValue::Bool(a)), Some(IsarValue::Bool(b))) => assert_eq!(a, b),
            (Some(IsarValue::Byte(a)), Some(IsarValue::Byte(b))) => assert_eq!(a, b),
            (Some(IsarValue::Int(a)), Some(IsarValue::Int(b))) => assert_eq!(a, b),
            (Some(IsarValue::Long(a)), Some(IsarValue::Long(b))) => assert_eq!(a, b),
            (Some(IsarValue::Text(a)), Some(IsarValue::Text(b))) => assert_eq!(a, b),
            (None, None) => {}
            _ => panic!("kind changed at {}", i),
        }
    }
}

#[test]
fn id_keys_sort_like_ids() {
    let ids = [i64::MIN, -5, -1, 0, 1, 2, 100, i64::MAX];
    for i in 0..ids.len() {
        for j in 0..ids.len() {
            let a = encode_id(ids[i]);
            let b = encode_id(ids[j]);
            assert_eq!(bytes_lt(&a, &b), ids[i] < ids[j], "{} vs {}", ids[i], ids[j]);
        }
    }
}

#[test]
fn index_components_sort_semantically() {
    let vals = [None, Some(IsarValue::Long(-3)), Some(IsarValue::Long(0)), Some(IsarValue::Long(7))];
    for i in 0..vals.len() {
        for j in 0..vals.len() {
            let mut a = IndexKey::new();
            a.add_value(&vals[i]);
            let mut b = IndexKey::new();
            b.add_value(&vals[j]);
            assert_eq!(bytes_lt(a.to_bytes(), b.to_bytes()), i < j);
        }
    }
}

#[test]
fn latched_transaction_rejects_everything() {
    let mut inst = open_instance(7, b"db".to_vec(), b"/tmp/db".to_vec(), &book_schema(false, false), 64).unwrap();
    // a read transaction latches on its first mutation
    let mut txn = inst.begin_txn(false);
    let err = inst.insert(&mut txn, 0, Some(1), &vec![text("A")]).unwrap_err();
    assert_eq!(err, IsarError::WriteTxnRequired);
    assert_eq!(inst.count(&txn, 0).unwrap_err(), IsarError::TransactionClosed);
    match inst.get(&txn, 0, 1) {
        Err(e) => assert_eq!(e, IsarError::TransactionClosed),
        Ok(_) => panic!("expected a closed transaction"),
    }
    assert_eq!(inst.commit_txn(txn).unwrap_err(), IsarError::TransactionClosed);
}

#[test]
fn cursor_pool_stays_bounded() {
    let inst = open_instance(8, b"db".to_vec(), b"/tmp/db".to_vec(), &book_schema(false, false), 64).unwrap();
    let mut txn = inst.begin_txn(false);
    let db = inst.collections[0].primary;
    let mut cursors = vec![];
    for _ in 0..5 {
        cursors.push(txn.get_cursor(db).unwrap());
    }
    for c in cursors {
        txn.unbind_cursor(c);
    }
    assert!(txn.unbound_cursors.len() <= 3);
    txn.abort();
}

#[test]
fn reserved_ids_are_rejected() {
    let mut inst = open_instance(9, b"db".to_vec(), b"/tmp/db".to_vec(), &book_schema(false, false), 64).unwrap();
    let mut txn = inst.begin_txn(true);
    for id in [0, i64::MIN, i64::MAX] {
        let err = inst.insert(&mut txn, 0, Some(id), &vec![text("A")]).unwrap_err();
        assert_eq!(err, IsarError::IllegalArg);
    }
    // IllegalArg does not latch
    assert_eq!(inst.count(&txn, 0).unwrap(), 0);
    inst.commit_txn(txn).unwrap();
}

#[test]
fn delete_removes_object_and_index_entries() {
    let mut inst = open_instance(10, b"db".to_vec(), b"/tmp/db".to_vec(), &book_schema(true, false), 64).unwrap();
    let mut txn = inst.begin_txn(true);
    inst.insert(&mut txn, 0, Some(1), &vec![text("A")]).unwrap();
    assert!(inst.delete(&mut txn, 0, 1).unwrap());
    assert!(!inst.delete(&mut txn, 0, 1).unwrap());
    inst.commit_txn(txn).unwrap();
    let rtxn = inst.begin_txn(false);
    assert_eq!(inst.count(&rtxn, 0).unwrap(), 0);
    inst.abort_txn(rtxn);
}

#[test]
fn filters_select_matching_objects() {
    let mut inst = open_instance(11, b"db".to_vec(), b"/tmp/db".to_vec(), &score_schema(), 64).unwrap();
    let mut txn = inst.begin_txn(true);
    for n in 0..10 {
        inst.insert(&mut txn, 0, None, &vec![Some(IsarValue::Int(n))]).unwrap();
    }
    inst.insert(&mut txn, 0, None, &vec![None]).unwrap();
    inst.commit_txn(txn).unwrap();

    let rtxn = inst.begin_txn(false);
    let mut qb = QueryBuilder::new(0);
    qb.set_filter(Filter::Between(0, Some(IsarValue::Int(2)), Some(IsarValue::Int(5))));
    let q = qb.build();
    let cur = inst.query_cursor(&rtxn, &q, None, None).unwrap();
    assert_eq!(cur.remaining(), 4);

    let mut qb = QueryBuilder::new(0);
    qb.set_filter(Filter::Eq(0, Some(IsarValue::Int(7))));
    let q = qb.build();
    let cur = inst.query_cursor(&rtxn, &q, None, None).unwrap();
    assert_eq!(cur.remaining(), 1);

    let mut qb = QueryBuilder::new(0);
    qb.set_filter(Filter::IsNull(0));
    let q = qb.build();
    let cur = inst.query_cursor(&rtxn, &q, None, None).unwrap();
    assert_eq!(cur.remaining(), 1);
    inst.abort_txn(rtxn);
}

#[test]
fn snapshot_isolation_between_transactions() {
    let mut inst = open_instance(12, b"db".to_vec(), b"/tmp/db".to_vec(), &book_schema(false, false), 64).unwrap();
    let mut wtxn = inst.begin_txn(true);
    inst.insert(&mut wtxn, 0, Some(1), &vec![text("A")]).unwrap();
    // a reader begun before the commit sees the old snapshot
    let rtxn = inst.begin_txn(false);
    assert_eq!(inst.count(&rtxn, 0).unwrap(), 0);
    inst.commit_txn(wtxn).unwrap();
    assert_eq!(inst.count(&rtxn, 0).unwrap(), 0);
    inst.abort_txn(rtxn);
    // a reader begun after the commit observes the committed bytes
    let rtxn = inst.begin_txn(false);
    assert_eq!(inst.count(&rtxn, 0).unwrap(), 1);
    inst.abort_txn(rtxn);
}
