//! The frame that opens a session.

use p2p::reconcile::codec;
use p2p::reconcile::engine::EngineKind;
use p2p::reconcile::open::SessionOpen;
use p2p::reconcile::ReconcileError;

fn open(collection: &str, engine: EngineKind) -> SessionOpen {
    SessionOpen::new(collection.to_string(), engine)
}

#[test]
fn a_named_collection_costs_what_the_campaign_derived() {
    let encoded = codec::encode(&open("BenchDoc", EngineKind::Rbsr)).expect("encode");
    assert_eq!(encoded.len(), 43);
}

/// The default engine is omitted from the encoding.
#[test]
fn only_a_non_default_engine_costs_anything_to_name() {
    let default = codec::encode(&open("Note", EngineKind::Rbsr)).expect("encode");
    let chosen = codec::encode(&open("Note", EngineKind::Riblt)).expect("encode");
    assert_eq!(chosen.len() - default.len(), 9);
}

#[test]
fn an_engine_this_build_does_not_run_is_refused_by_name() {
    let frame = codec::encode(&open("Note", EngineKind::Riblt)).expect("encode");
    let opened: SessionOpen = codec::decode(&frame).expect("decode");
    assert_eq!(opened.engine().expect("known engine"), EngineKind::Riblt);

    let opened = opened.with_engine_tag(200);
    assert_eq!(
        opened.engine(),
        Err(ReconcileError::UnsupportedEngine { tag: 200 })
    );
}

/// The frame is a fixed envelope plus the collection name.
#[test]
fn the_frame_grows_only_with_the_collection_name() {
    let short = codec::encode(&open("A", EngineKind::Rbsr)).expect("encode");
    let longer = codec::encode(&open("AAAAAAAA", EngineKind::Rbsr)).expect("encode");
    assert_eq!(longer.len() - short.len(), 7);
}

#[test]
fn an_opening_frame_reads_back() {
    for (name, kind) in [("", EngineKind::Rbsr), ("Nöte", EngineKind::Riblt)] {
        let frame = codec::encode(&open(name, kind)).expect("encode");
        let opened: SessionOpen = codec::decode(&frame).expect("decode");
        assert_eq!(opened.collection(), name);
        assert_eq!(opened.engine(), Ok(kind));
    }
}

#[test]
fn an_unknown_engine_tag_survives_the_wire_and_is_refused_on_use() {
    let odd = open("Note", EngineKind::Rbsr).with_engine_tag(7);
    let frame = codec::encode(&odd).expect("encode");
    let opened: SessionOpen = codec::decode(&frame).expect("decode");
    assert_eq!(
        opened.engine(),
        Err(ReconcileError::UnsupportedEngine { tag: 7 })
    );
}

#[test]
fn the_default_engine_is_the_range_engine() {
    assert_eq!(EngineKind::default(), EngineKind::Rbsr);
    assert_eq!(EngineKind::Rbsr.tag(), 0);
    assert_eq!(EngineKind::Riblt.tag(), 1);
    assert_eq!(EngineKind::from_tag(1), Ok(EngineKind::Riblt));
}
