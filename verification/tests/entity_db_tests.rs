use entity_db::chunk::{Chunk, Row};
use entity_db::db::{
    BlueprintActivationCommand, EntityDb, Error, LogMsg, SetStoreInfo, StoreInfo,
    DEFAULT_GC_TIME_BUDGET_NANOS,
};
use entity_db::ids::{ApplicationId, ChunkId, ResolvedTimeRange, RowId, StoreId, StoreKind, Timeline};
use entity_db::path::{ComponentPath, EntityPath};
use entity_db::query::LatestAtQuery;
use entity_db::store::{GarbageCollectionOptions, GarbageCollectionTarget};
use entity_db::stats::MAX_SAMPLE_AGE_NANOS;
use entity_db::ChunkError;

fn rec_id(name: &str) -> StoreId {
    StoreId::new(StoreKind::Recording, name.to_string())
}

fn path(parts: &[&str]) -> EntityPath {
    EntityPath::new(parts.iter().map(|p| p.to_string()).collect())
}

fn one_row_chunk(id: u64, parts: &[&str], timeline: &str, time: i64, row_nanos: u64) -> Chunk {
    Chunk {
        id: ChunkId { id },
        entity_path: path(parts),
        timelines: vec![Timeline::new(timeline.to_string())],
        components: vec!["position".to_string()],
        rows: vec![Row {
            row_id: RowId { nanos_since_epoch: row_nanos, inc: 0 },
            times: vec![time],
            values: vec![Some(vec![1, 2, 3])],
        }],
    }
}

fn static_chunk(id: u64, parts: &[&str], component: &str, row_nanos: u64) -> Chunk {
    Chunk {
        id: ChunkId { id },
        entity_path: path(parts),
        timelines: vec![],
        components: vec![component.to_string()],
        rows: vec![Row {
            row_id: RowId { nanos_since_epoch: row_nanos, inc: 0 },
            times: vec![],
            values: vec![Some(vec![9])],
        }],
    }
}

fn drop_all_but_latest_options() -> GarbageCollectionOptions {
    GarbageCollectionOptions {
        target: GarbageCollectionTarget::Everything,
        protect_latest: 1,
        time_budget_nanos: DEFAULT_GC_TIME_BUDGET_NANOS,
    }
}

#[test]
fn three_chunks_protect_latest_scenario() {
    let mut db = EntityDb::new(rec_id("scenario"));
    let frame = Timeline::new("frame".to_string());
    for (i, t) in [10i64, 11, 12].iter().enumerate() {
        let c = one_row_chunk(i as u64 + 1, &["world", "points"], "frame", *t, 100 + i as u64);
        db.add_chunk(&c).unwrap();
    }
    let range = db.time_range_for(&frame).unwrap();
    assert_eq!(range, ResolvedTimeRange::new(10, 12));
    let latest_before = db.latest_row_id();

    db.gc(&drop_all_but_latest_options());

    assert_eq!(db.num_rows(), 1);
    let range = db.time_range_for(&frame).unwrap();
    assert_eq!(range, ResolvedTimeRange::new(12, 12));
    assert_eq!(db.latest_row_id(), latest_before);
}

#[test]
fn entity_paths_sorted_and_order_independent() {
    let mut db1 = EntityDb::new(rec_id("one"));
    db1.add_chunk(&one_row_chunk(1, &["world", "points"], "frame", 1, 1)).unwrap();
    db1.add_chunk(&one_row_chunk(2, &["alpha"], "frame", 1, 2)).unwrap();
    db1.add_chunk(&one_row_chunk(3, &["alpha"], "frame", 2, 3)).unwrap();

    let mut db2 = EntityDb::new(rec_id("two"));
    db2.add_chunk(&one_row_chunk(7, &["alpha"], "frame", 2, 3)).unwrap();
    db2.add_chunk(&one_row_chunk(8, &["world", "points"], "frame", 1, 1)).unwrap();
    db2.add_chunk(&one_row_chunk(9, &["alpha"], "frame", 1, 2)).unwrap();

    let p1: Vec<Vec<String>> = db1.entity_paths().into_iter().map(|p| p.parts).collect();
    let p2: Vec<Vec<String>> = db2.entity_paths().into_iter().map(|p| p.parts).collect();
    assert_eq!(p1, p2);
    assert_eq!(p1, vec![vec!["alpha".to_string()], vec![
        "world".to_string(),
        "points".to_string(),
    ]]);
}

#[test]
fn latest_row_id_is_max_and_survives_gc() {
    let mut db = EntityDb::new(rec_id("latest"));
    db.add_chunk(&one_row_chunk(1, &["a"], "frame", 1, 500)).unwrap();
    db.add_chunk(&one_row_chunk(2, &["a"], "frame", 2, 900)).unwrap();
    db.add_chunk(&one_row_chunk(3, &["a"], "frame", 3, 700)).unwrap();
    assert_eq!(db.latest_row_id(), Some(RowId { nanos_since_epoch: 900, inc: 0 }));

    db.gc(&drop_all_but_latest_options());
    assert_eq!(db.latest_row_id(), Some(RowId { nanos_since_epoch: 900, inc: 0 }));
}

#[test]
fn static_only_entity_has_no_time_range() {
    let mut db = EntityDb::new(rec_id("static"));
    db.add_chunk(&static_chunk(1, &["world", "labels"], "text", 10)).unwrap();
    let frame = Timeline::new("frame".to_string());
    let log_time = Timeline::new("log_time".to_string());
    assert!(db.time_range_for(&frame).is_none());
    assert!(db.time_range_for(&log_time).is_none());
    assert_eq!(db.num_static_messages(), 1);
    let cp = ComponentPath::new(path(&["world", "labels"]), "text".to_string());
    assert_eq!(db.is_component_static(&cp), Some(true));
}

#[test]
fn drop_everything_but_latest_twice_is_idempotent() {
    let mut db = EntityDb::new(rec_id("idem"));
    for i in 0..4u64 {
        db.add_chunk(&one_row_chunk(i + 1, &["a"], "frame", i as i64, i + 1)).unwrap();
        db.add_chunk(&one_row_chunk(i + 10, &["b"], "frame", i as i64, i + 10)).unwrap();
    }
    db.add_chunk(&static_chunk(100, &["a"], "text", 50)).unwrap();

    db.gc_everything_but_the_latest_row_on_non_default_timelines();
    let rows_after_first = db.num_rows();
    let gen_after_first = db.generation();
    db.gc_everything_but_the_latest_row_on_non_default_timelines();
    assert_eq!(db.num_rows(), rows_after_first);
    // the second pass removed nothing, though it still counts as a mutation
    assert_eq!(db.generation().gc_id, gen_after_first.gc_id + 1);
    assert_eq!(db.generation().insert_id, gen_after_first.insert_id);
}

#[test]
fn export_replay_round_trip() {
    let mut db = EntityDb::new(rec_id("source"));
    db.set_store_info(SetStoreInfo {
        row_id: RowId { nanos_since_epoch: 1, inc: 0 },
        info: StoreInfo {
            application_id: ApplicationId { id: "app".to_string() },
            store_id: rec_id("source"),
            cloned_from: None,
            started: 42,
        },
    });
    db.add_chunk(&one_row_chunk(1, &["world", "points"], "frame", 10, 100)).unwrap();
    db.add_chunk(&one_row_chunk(2, &["world", "lines"], "frame", 11, 200)).unwrap();
    db.add_chunk(&static_chunk(3, &["world", "points"], "text", 300)).unwrap();

    let msgs = db.to_messages(&None);
    assert_eq!(msgs.len(), 4); // info + three data messages, no activation

    let mut replay = EntityDb::new(rec_id("copy"));
    for m in &msgs {
        replay.add(m).unwrap();
    }

    let frame = Timeline::new("frame".to_string());
    let orig_paths: Vec<Vec<String>> = db.entity_paths().into_iter().map(|p| p.parts).collect();
    let new_paths: Vec<Vec<String>> = replay.entity_paths().into_iter().map(|p| p.parts).collect();
    assert_eq!(orig_paths, new_paths);
    assert_eq!(db.time_range_for(&frame), replay.time_range_for(&frame));
    assert_eq!(db.num_rows(), replay.num_rows());
    assert_eq!(db.num_static_messages(), replay.num_static_messages());
}

#[test]
fn blueprint_export_ends_with_one_activation() {
    let bp_id = StoreId::new(StoreKind::Blueprint, "bp".to_string());
    let mut db = EntityDb::new(bp_id);
    db.add_chunk(&one_row_chunk(1, &["panel"], "frame", 1, 10)).unwrap();
    let msgs = db.to_messages(&None);
    assert_eq!(msgs.len(), 2);
    let mut activations = 0;
    for m in &msgs {
        if let LogMsg::BlueprintActivationCommand(_) = m {
            activations += 1;
        }
    }
    assert_eq!(activations, 1);
    match msgs.last().unwrap() {
        LogMsg::BlueprintActivationCommand(cmd) => {
            assert_eq!(cmd.blueprint_id.id, "bp");
            assert!(cmd.make_active);
            assert!(cmd.make_default);
        }
        _ => panic!("the activation command must come last"),
    }
}

#[test]
fn export_honours_time_window() {
    let mut db = EntityDb::new(rec_id("window"));
    db.add_chunk(&one_row_chunk(1, &["a"], "frame", 5, 1)).unwrap();
    db.add_chunk(&one_row_chunk(2, &["a"], "frame", 50, 2)).unwrap();
    let frame = Timeline::new("frame".to_string());
    let msgs = db.to_messages(&Some((frame, ResolvedTimeRange::new(0, 10))));
    // only the chunk overlapping [0, 10] is exported; there is no store info
    assert_eq!(msgs.len(), 1);
    match &msgs[0] {
        LogMsg::Data(_, chunk) => assert_eq!(chunk.id, ChunkId { id: 1 }),
        _ => panic!("expected a data message"),
    }
}

#[test]
fn clone_gets_new_id_and_back_reference() {
    let mut db = EntityDb::new(rec_id("original"));
    db.set_store_info(SetStoreInfo {
        row_id: RowId { nanos_since_epoch: 1, inc: 0 },
        info: StoreInfo {
            application_id: ApplicationId { id: "app".to_string() },
            store_id: rec_id("original"),
            cloned_from: None,
            started: 7,
        },
    });
    db.add_chunk(&one_row_chunk(1, &["a"], "frame", 1, 11)).unwrap();
    db.add_chunk(&one_row_chunk(2, &["b"], "frame", 2, 22)).unwrap();

    let copy = db.clone_with_new_id(rec_id("fresh")).unwrap();
    assert_eq!(copy.store_id().id, "fresh");
    assert_eq!(copy.cloned_from().unwrap().id, "original");
    assert!(copy.data_source().is_none());
    assert_eq!(copy.num_rows(), db.num_rows());
    assert_eq!(copy.latest_row_id(), db.latest_row_id());
    let frame = Timeline::new("frame".to_string());
    assert_eq!(copy.time_range_for(&frame), db.time_range_for(&frame));
}

#[test]
fn latency_becomes_unknown_after_the_window() {
    let mut db = EntityDb::new(rec_id("latency"));
    let ingest_at: u64 = 1_000_000;
    let chunk = one_row_chunk(1, &["a"], "frame", 1, ingest_at - 500);
    db.add_chunk_at(&chunk, ingest_at).unwrap();

    assert_eq!(db.current_e2e_latency_nanos_at(ingest_at), Some(500));
    let much_later = ingest_at + MAX_SAMPLE_AGE_NANOS + 1;
    assert_eq!(db.current_e2e_latency_nanos_at(much_later), None);
}

#[test]
fn malformed_payload_is_rejected() {
    let mut db = EntityDb::new(rec_id("bad"));
    // a row with no time value on a chunk that declares one timeline
    let bad = Chunk {
        id: ChunkId { id: 1 },
        entity_path: path(&["a"]),
        timelines: vec![Timeline::new("frame".to_string())],
        components: vec!["position".to_string()],
        rows: vec![Row {
            row_id: RowId { nanos_since_epoch: 1, inc: 0 },
            times: vec![],
            values: vec![Some(vec![1])],
        }],
    };
    let msg = LogMsg::Data(rec_id("bad"), bad);
    assert_eq!(db.add(&msg), Err(Error::Chunk(ChunkError::MalformedPayload)));
    assert!(db.is_empty());
}

#[test]
fn unsorted_payload_is_sorted_on_ingestion() {
    let mut db = EntityDb::new(rec_id("sorting"));
    let chunk = Chunk {
        id: ChunkId { id: 1 },
        entity_path: path(&["a"]),
        timelines: vec![Timeline::new("frame".to_string())],
        components: vec!["position".to_string()],
        rows: vec![
            Row {
                row_id: RowId { nanos_since_epoch: 20, inc: 0 },
                times: vec![2],
                values: vec![Some(vec![2])],
            },
            Row {
                row_id: RowId { nanos_since_epoch: 10, inc: 0 },
                times: vec![1],
                values: vec![Some(vec![1])],
            },
        ],
    };
    let msg = LogMsg::Data(rec_id("sorting"), chunk);
    db.add(&msg).unwrap();
    assert_eq!(db.num_rows(), 2);
    assert_eq!(db.latest_row_id(), Some(RowId { nanos_since_epoch: 20, inc: 0 }));
}

#[test]
fn duplicate_chunk_ids_are_rejected() {
    let mut db = EntityDb::new(rec_id("dup"));
    let chunk = one_row_chunk(1, &["a"], "frame", 1, 1);
    db.add_chunk(&chunk).unwrap();
    let again = one_row_chunk(1, &["a"], "frame", 2, 2);
    assert!(db.add_chunk(&again).is_err());
    assert_eq!(db.num_rows(), 1);
}

#[test]
fn entity_lookups() {
    let mut db = EntityDb::new(rec_id("lookup"));
    db.add_chunk(&one_row_chunk(1, &["world", "points"], "frame", 1, 1)).unwrap();

    assert!(db.is_logged_entity(&path(&["world", "points"])));
    assert!(!db.is_logged_entity(&path(&["world"])));
    assert!(db.is_known_entity(&path(&["world"])));
    assert!(db.is_known_entity(&path(&["world", "points"])));
    assert!(!db.is_known_entity(&path(&["elsewhere"])));

    let h = path(&["world", "points"]).hash();
    let found = db.entity_path_from_hash(&h).unwrap();
    assert_eq!(found.parts, vec!["world".to_string(), "points".to_string()]);

    let frame = Timeline::new("frame".to_string());
    assert!(db.has_any_data_on_timeline(&frame));
    assert_eq!(db.timelines().len(), 1);

    let hist = db.time_histogram(&frame);
    assert_eq!(hist, vec![(1, 1)]);

    let cp = ComponentPath::new(path(&["world", "points"]), "position".to_string());
    assert_eq!(db.is_component_static(&cp), Some(false));
    let missing = ComponentPath::new(path(&["world", "points"]), "color".to_string());
    assert_eq!(db.is_component_static(&missing), None);
}

#[test]
fn purge_fraction_drops_oldest_first() {
    let mut db = EntityDb::new(rec_id("purge"));
    for i in 0..10u64 {
        db.add_chunk(&one_row_chunk(i + 1, &["a"], "frame", i as i64, i + 1)).unwrap();
    }
    let before = db.heap_size_bytes();
    db.purge_fraction_of_ram(1, 2);
    let after = db.heap_size_bytes();
    // at least half the bytes are gone, and the newest row survived
    assert!(after * 2 <= before);
    let frame = Timeline::new("frame".to_string());
    assert_eq!(db.time_range_for(&frame).unwrap().max, 9);
    assert_eq!(db.latest_row_id(), Some(RowId { nanos_since_epoch: 10, inc: 0 }));
}

#[test]
fn metadata_and_sort_key() {
    let mut db = EntityDb::new(rec_id("meta"));
    assert!(db.is_empty());
    assert!(db.sort_key().is_none());
    db.set_store_info(SetStoreInfo {
        row_id: RowId { nanos_since_epoch: 1, inc: 0 },
        info: StoreInfo {
            application_id: ApplicationId { id: "app".to_string() },
            store_id: rec_id("meta"),
            cloned_from: None,
            started: 1234,
        },
    });
    assert!(!db.is_empty());
    assert_eq!(db.sort_key(), Some(("app".to_string(), 1234)));
    assert_eq!(db.app_id().unwrap().id, "app");
    assert_eq!(db.store_kind(), StoreKind::Recording);
    let _ = BlueprintActivationCommand::make_active(rec_id("meta"));
}

#[test]
fn latest_at_prefers_static_then_time_then_row_id() {
    let mut db = EntityDb::new(rec_id("query"));
    db.add_chunk(&one_row_chunk(1, &["a"], "frame", 5, 100)).unwrap();
    db.add_chunk(&one_row_chunk(2, &["a"], "frame", 7, 200)).unwrap();
    db.add_chunk(&one_row_chunk(3, &["a"], "frame", 9, 300)).unwrap();

    let q = |at: i64| LatestAtQuery { timeline: Timeline::new("frame".to_string()), at };
    let comp = "position".to_string();
    let a = path(&["a"]);

    let hit = db.latest_at_component(&a, &comp, &q(8)).unwrap();
    assert!(!hit.is_static);
    assert_eq!(hit.time, 7);
    assert_eq!(hit.row_id, RowId { nanos_since_epoch: 200, inc: 0 });

    assert!(db.latest_at_component(&a, &comp, &q(4)).is_none());

    // static data wins over anything temporal
    let mut st = static_chunk(4, &["a"], "position", 50);
    st.rows[0].values = vec![Some(vec![42])];
    db.add_chunk(&st).unwrap();
    let hit = db.latest_at_component(&a, &comp, &q(8)).unwrap();
    assert!(hit.is_static);
    assert_eq!(hit.value, vec![42]);
}

#[test]
fn latest_at_walks_up_to_the_closest_ancestor() {
    let mut db = EntityDb::new(rec_id("ancestors"));
    db.add_chunk(&one_row_chunk(1, &["world"], "frame", 3, 10)).unwrap();
    let q = LatestAtQuery { timeline: Timeline::new("frame".to_string()), at: 5 };
    let comp = "position".to_string();

    let (at_path, hit) = db
        .latest_at_component_at_closest_ancestor(&path(&["world", "points", "deep"]), &comp, &q)
        .unwrap();
    assert_eq!(at_path.parts, vec!["world".to_string()]);
    assert_eq!(hit.time, 3);

    assert!(db
        .latest_at_component_at_closest_ancestor(&path(&["elsewhere"]), &comp, &q)
        .is_none());
}
