//! Frames and messages as CBOR, byte for byte and item by item.

use ciborium::Value;
use p2p::reconcile::codec;
use p2p::reconcile::codec::{MessageKind, FRAME_OVERHEAD, MAX_FRAME_BYTES, PROTOCOL_VERSION};
use p2p::reconcile::engine::rbsr::{Fingerprint, Mode, Range, RbsrMessage};
use p2p::reconcile::engine::riblt::{CodedSymbol, RibltMessage};
use p2p::reconcile::engine::EngineKind;
use p2p::reconcile::open::SessionOpen;
use p2p::reconcile::{Bound, ItemId, ReconcileError, SortKey};

fn rendered(item: &Value) -> Vec<u8> {
    let mut bytes = Vec::new();
    ciborium::into_writer(item, &mut bytes).expect("writes");
    bytes
}

fn text(name: &str) -> Value {
    Value::Text(name.to_string())
}

fn table(entries: Vec<(&str, Value)>) -> Value {
    Value::Map(
        entries
            .into_iter()
            .map(|(name, value)| (text(name), value))
            .collect(),
    )
}

/// A frame of the current version around a body.
fn framed(kind: MessageKind, body: &Value) -> Vec<u8> {
    codec::encode_raw(PROTOCOL_VERSION, kind.tag(), rendered(body)).expect("encodes")
}

fn ranges(body: &Value) -> Result<RbsrMessage, ReconcileError> {
    codec::decode(&framed(MessageKind::RbsrRanges, body))
}

fn symbols(body: &Value) -> Result<RibltMessage, ReconcileError> {
    codec::decode(&framed(MessageKind::RibltSymbols, body))
}

fn is_malformed<T>(outcome: Result<T, ReconcileError>) -> bool {
    matches!(outcome, Err(ReconcileError::Codec(_)))
}

#[test]
fn a_frame_is_a_map_of_version_kind_and_body() {
    let frame = codec::encode_raw(1, 2, vec![0xaa, 0xbb]).expect("encodes");
    let mut expected = vec![0xa3];
    expected.extend_from_slice(b"\x67version\x01\x64kind\x02\x64body\x42\xaa\xbb");
    assert_eq!(frame, expected);
}

#[test]
fn a_range_message_is_written_as_named_variants() {
    let message = RbsrMessage::new(vec![
        Range::skip(Bound::Min),
        Range::fingerprint(
            Bound::Key(SortKey::new(1, &ItemId::new(vec![9]))),
            Fingerprint::from_bytes(&[7; 16]).expect("sixteen bytes"),
        ),
        Range::id_list(Bound::Max, vec![ItemId::new(vec![1, 2])]),
    ]);
    let body = table(vec![(
        "ranges",
        Value::Array(vec![
            table(vec![("upper_bound", text("Min")), ("mode", text("Skip"))]),
            table(vec![
                (
                    "upper_bound",
                    table(vec![(
                        "Key",
                        Value::Bytes(vec![0, 0, 0, 0, 0, 0, 0, 1, 9]),
                    )]),
                ),
                (
                    "mode",
                    table(vec![("Fingerprint", Value::Bytes(vec![7; 16]))]),
                ),
            ]),
            table(vec![
                ("upper_bound", text("Max")),
                (
                    "mode",
                    table(vec![(
                        "IdList",
                        Value::Array(vec![Value::Bytes(vec![1, 2])]),
                    )]),
                ),
            ]),
        ]),
    )]);
    assert_eq!(
        codec::encode(&message).expect("encodes"),
        framed(MessageKind::RbsrRanges, &body)
    );
    assert_eq!(ranges(&body), Ok(message));
}

#[test]
fn a_symbol_message_is_written_as_named_variants() {
    let request = RibltMessage::request(36, 8);
    let body = table(vec![(
        "Request",
        table(vec![
            ("symbols", Value::from(8u64)),
            ("width", Value::from(36u64)),
        ]),
    )]);
    assert_eq!(
        codec::encode(&request).expect("encodes"),
        framed(MessageKind::RibltSymbols, &body)
    );
    assert_eq!(symbols(&body), Ok(request));

    let batch = RibltMessage::symbols(2, vec![CodedSymbol::new(vec![1, 2], u64::MAX, i64::MIN)]);
    let body = table(vec![(
        "Symbols",
        table(vec![
            ("width", Value::from(2u64)),
            (
                "symbols",
                Value::Array(vec![table(vec![
                    ("sum", Value::Bytes(vec![1, 2])),
                    ("checksum", Value::from(u64::MAX)),
                    ("count", Value::from(i64::MIN)),
                ])]),
            ),
        ]),
    )]);
    assert_eq!(
        codec::encode(&batch).expect("encodes"),
        framed(MessageKind::RibltSymbols, &body)
    );
    assert_eq!(symbols(&body), Ok(batch));
}

#[test]
fn unknown_fields_are_ignored_and_repeated_ones_refused() {
    let list = || Value::Array(Vec::new());
    let extra = table(vec![("ranges", list()), ("later", Value::from(1u64))]);
    assert_eq!(ranges(&extra), Ok(RbsrMessage::new(Vec::new())));
    let twice = table(vec![("ranges", list()), ("ranges", list())]);
    assert!(is_malformed(ranges(&twice)));
    let missing = table(vec![("later", list())]);
    assert!(is_malformed(ranges(&missing)));
}

#[test]
fn a_value_out_of_range_is_malformed() {
    let request = |wanted: u64, width: u64| {
        table(vec![(
            "Request",
            table(vec![
                ("symbols", Value::from(wanted)),
                ("width", Value::from(width)),
            ]),
        )])
    };
    assert!(symbols(&request(u32::MAX as u64, u16::MAX as u64)).is_ok());
    assert!(is_malformed(symbols(&request(u32::MAX as u64 + 1, 1))));
    assert!(is_malformed(symbols(&request(1, u16::MAX as u64 + 1))));
    let negative = table(vec![(
        "Request",
        table(vec![("symbols", Value::from(-1)), ("width", Value::from(1))]),
    )]);
    assert!(is_malformed(symbols(&negative)));
}

#[test]
fn a_fingerprint_of_another_length_is_malformed() {
    for len in [0usize, 15, 17] {
        let body = table(vec![(
            "ranges",
            Value::Array(vec![table(vec![
                ("upper_bound", text("Max")),
                (
                    "mode",
                    table(vec![("Fingerprint", Value::Bytes(vec![0; len]))]),
                ),
            ])]),
        )]);
        assert!(is_malformed(ranges(&body)), "{len}");
    }
    assert_eq!(Fingerprint::from_bytes(&[0; 15]), None);
    assert_eq!(
        Fingerprint::from_bytes(&[3; 16]).map(|f| *f.as_bytes()),
        Some([3; 16])
    );
}

#[test]
fn an_unknown_variant_is_malformed() {
    let body = table(vec![(
        "ranges",
        Value::Array(vec![table(vec![
            ("upper_bound", text("Middle")),
            ("mode", text("Skip")),
        ])]),
    )]);
    assert!(is_malformed(ranges(&body)));
    assert!(is_malformed(symbols(&table(vec![(
        "Apology",
        Value::Array(Vec::new())
    )]))));
}

#[test]
fn bytes_may_come_as_an_array_of_integers() {
    let body = table(vec![(
        "ranges",
        Value::Array(vec![table(vec![
            (
                "upper_bound",
                table(vec![(
                    "Key",
                    Value::Array(vec![Value::from(5u64), Value::from(255u64)]),
                )]),
            ),
            ("mode", text("Skip")),
        ])]),
    )]);
    let expected = RbsrMessage::new(vec![Range::skip(Bound::Key(SortKey::from_bytes(vec![
        5, 255,
    ])))]);
    assert_eq!(ranges(&body), Ok(expected));
}

#[test]
fn the_kinds_have_distinct_tags() {
    assert_eq!(MessageKind::RbsrRanges.tag(), 1);
    assert_eq!(MessageKind::RibltSymbols.tag(), 2);
    assert_eq!(MessageKind::SessionOpen.tag(), 3);
    for tag in 0..=u8::MAX {
        match MessageKind::from_tag(tag) {
            Ok(kind) => assert_eq!(kind.tag(), tag),
            Err(error) => assert_eq!(error, ReconcileError::UnknownMessageKind(tag)),
        }
    }
}

#[test]
fn a_frame_decodes_only_as_its_own_kind() {
    let frame = codec::encode(&RibltMessage::request(36, 8)).expect("encodes");
    assert_eq!(
        codec::decode::<RbsrMessage>(&frame),
        Err(ReconcileError::MessageKindMismatch {
            found: 2,
            expected: 1
        })
    );
    assert_eq!(
        codec::decode::<SessionOpen>(&frame),
        Err(ReconcileError::MessageKindMismatch {
            found: 2,
            expected: 3
        })
    );
    assert_eq!(
        codec::decode::<RibltMessage>(&frame),
        Ok(RibltMessage::request(36, 8))
    );
}

#[test]
fn the_version_is_checked_before_the_kind_and_the_body() {
    let frame = codec::encode_raw(9, 77, vec![0xff]).expect("encodes");
    assert_eq!(
        codec::decode::<RbsrMessage>(&frame),
        Err(ReconcileError::UnsupportedVersion {
            found: 9,
            expected: PROTOCOL_VERSION
        })
    );
    let header = codec::peek_header(&frame).expect("a header reads without its body");
    assert_eq!((header.version, header.kind), (9, 77));
}

#[test]
fn a_message_over_the_frame_cap_does_not_encode() {
    let fat: Vec<ItemId> = (0..17u8).map(|n| ItemId::new(vec![n; 1 << 20])).collect();
    let message = RbsrMessage::new(vec![Range::id_list(Bound::Max, fat)]);
    match codec::encode(&message) {
        Err(ReconcileError::FrameTooLarge { size, max }) => {
            assert!(size > 17 << 20);
            assert_eq!(max, MAX_FRAME_BYTES);
        }
        other => panic!("expected an oversized frame, got {other:?}"),
    }
}

#[test]
fn all_skip_is_what_the_modes_say() {
    let settled = RbsrMessage::new(vec![Range::skip(Bound::Min), Range::skip(Bound::Max)]);
    assert!(settled.is_all_skip());
    let open = RbsrMessage::new(vec![
        Range::skip(Bound::Min),
        Range::id_list(Bound::Max, Vec::new()),
    ]);
    assert!(!open.is_all_skip());
    assert!(matches!(open.ranges()[1].mode, Mode::IdList(_)));
    assert!(RbsrMessage::default().is_all_skip());
}

#[test]
fn a_frame_cut_short_anywhere_is_refused() {
    let batch = RibltMessage::symbols(36, vec![CodedSymbol::new(vec![5; 36], 9, -3); 12]);
    let frame = codec::encode(&batch).expect("encodes");
    for cut in 0..frame.len() {
        assert!(is_malformed(codec::decode::<RibltMessage>(&frame[..cut])));
        assert!(is_malformed(codec::peek_header(&frame[..cut])));
    }
    let opening = SessionOpen::new("Note".to_string(), EngineKind::Riblt);
    let frame = codec::encode(&opening).expect("encodes");
    for cut in 0..frame.len() {
        assert!(is_malformed(codec::decode::<SessionOpen>(&frame[..cut])));
    }
}

/// A frame takes no more than its body and a fixed overhead.
#[test]
fn a_frame_is_little_larger_than_its_body() {
    for (len, head) in [
        (0usize, 1usize),
        (23, 1),
        (24, 2),
        (255, 2),
        (256, 3),
        (65_535, 3),
        (65_536, 5),
        (1 << 20, 5),
    ] {
        let frame = codec::encode_raw(u16::MAX, u8::MAX, vec![7; len]).expect("encodes");
        assert_eq!(frame.len(), 24 + head + len);
        assert!(frame.len() <= len + FRAME_OVERHEAD);
    }
    let largest = vec![7; MAX_FRAME_BYTES - FRAME_OVERHEAD];
    assert!(codec::encode_raw(1, 1, largest).is_ok());
}

/// Every item takes the shortest head that states its length, and what it carries.
#[test]
fn items_take_the_shortest_heads() {
    let agreed = RbsrMessage::new(vec![Range::skip(Bound::Max)]);
    assert_eq!(codec::encode(&agreed).expect("encodes").len(), 59);
    let listing = RbsrMessage::new(vec![Range::id_list(
        Bound::Max,
        vec![ItemId::new(vec![1; 23]), ItemId::new(vec![2; 24]), ItemId::new(vec![3; 256])],
    )]);
    // `{"ranges": [{"upper_bound": "Max", "mode": {"IdList": [..]}}]}`.
    let identities = (1 + 23) + (2 + 24) + (3 + 256);
    let list = 1 + 7 + 1 + identities;
    let body = 1 + 7 + 1 + (1 + 12 + 4 + 5 + list);
    assert_eq!(codec::encode(&listing).expect("encodes").len(), 21 + 3 + body);
    let cell = RibltMessage::symbols(1, vec![CodedSymbol::new(vec![9], 24, -25)]);
    // `{"sum": .., "checksum": .., "count": ..}` in a batch of one.
    let sum = 4 + 2;
    let checksum = 9 + 2;
    let count = 6 + 2;
    let batch = 1 + 8 + 1 + 6 + 1 + 8 + 1 + (1 + sum + checksum + count);
    assert_eq!(codec::encode(&cell).expect("encodes").len(), 21 + 2 + batch);
}
