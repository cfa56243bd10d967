//! The versioned CBOR envelope every reconciliation message travels in.
//!
//! A frame is a CBOR map of `{version, kind, body}` where `body` is the opaque
//! CBOR encoding of the message itself. Decoding is two-stage on purpose: the
//! version and kind are checked *before* the body is interpreted, so a peer
//! speaking a future protocol version gets a clean
//! [`ReconcileError::UnsupportedVersion`] rather than a confusing type error,
//! and no input, however malformed, can do worse than return an error.
use crate::reconcile::cbor;
use crate::reconcile::cbor::{CborView, Part};
use crate::reconcile::error::ReconcileError;
use ciborium::Value;
use vstd::prelude::*;

verus! {

/// The reconciliation protocol version this build speaks.
pub const PROTOCOL_VERSION: u16 = 1;

/// Largest frame this codec will encode or decode, mirroring the transport's
/// frame cap.
pub const MAX_FRAME_BYTES: usize = 16_777_216;

/// Most bytes a frame takes besides its body.
pub const FRAME_OVERHEAD: usize = 33;

/// Which protocol engine a frame's body belongs to.
#[derive(Clone, Copy, Debug, PartialEq, Eq, Structural)]
pub enum MessageKind {
    /// A range tiling from the RBSR engine.
    RbsrRanges,
    /// A coded-symbol batch from the RIBLT engine.
    RibltSymbols,
    /// The frame that opens a session.
    SessionOpen,
}

impl MessageKind {
    /// The tag that stands for a kind on the wire.
    pub open spec fn wire_tag(self) -> u8 {
        match self {
            MessageKind::RbsrRanges => 1,
            MessageKind::RibltSymbols => 2,
            MessageKind::SessionOpen => 3,
        }
    }

    /// The tag that stands for this kind on the wire.
    pub fn tag(self) -> (tag: u8)
        ensures
            tag == self.wire_tag(),
    {
        match self {
            MessageKind::RbsrRanges => 1,
            MessageKind::RibltSymbols => 2,
            MessageKind::SessionOpen => 3,
        }
    }

    /// Reads a kind tag off the wire.
    pub fn from_tag(tag: u8) -> (r: Result<Self, ReconcileError>)
        ensures
            match r {
                Ok(kind) => kind.wire_tag() == tag,
                Err(error) => !(1 <= tag <= 3) && error == ReconcileError::UnknownMessageKind(tag),
            },
    {
        match tag {
            1 => Ok(MessageKind::RbsrRanges),
            2 => Ok(MessageKind::RibltSymbols),
            3 => Ok(MessageKind::SessionOpen),
            other => Err(ReconcileError::UnknownMessageKind(other)),
        }
    }
}

/// A message type that can travel in a reconciliation frame.
pub trait WireMessage: View + Sized {
    /// The kind frames of this type carry.
    spec fn wire_kind() -> MessageKind;

    /// The item a message is written as.
    spec fn written(message: Self::V) -> CborView;

    /// The message an item is read as, if it is one.
    spec fn read(item: CborView) -> Option<Self::V>;

    /// The kind frames of this type carry.
    fn kind() -> (kind: MessageKind)
        ensures
            kind == Self::wire_kind(),
    ;

    /// Writes the message as an item, which reads back as the message.
    fn to_item(&self) -> (item: Value)
        ensures
            cbor::content(item) == Self::written(self@),
            cbor::plain(Self::written(self@), cbor::MAX_DEPTH as nat),
            Self::read(Self::written(self@)) == Some(self@),
    ;

    /// Reads a message from an item.
    fn from_item(item: &Value) -> (r: Option<Self>)
        ensures
            match r {
                Some(message) => Self::read(cbor::content(*item)) == Some(message@),
                None => Self::read(cbor::content(*item)) is None,
            },
    ;
}

/// The version and kind a frame declares, read without interpreting its body.
#[derive(Clone, Copy, Debug, PartialEq, Eq, Structural)]
pub struct FrameHeader {
    /// Protocol version the sender claims to speak.
    pub version: u16,
    /// Kind tag of the body.
    pub kind: u8,
}

/// What a frame holds.
#[verifier::ext_equal]
pub struct FrameView {
    /// Protocol version the sender claims to speak.
    pub version: u16,
    /// Kind tag of the body.
    pub kind: u8,
    /// The encoded message.
    pub body: Seq<u8>,
}

/// A frame's parts.
struct Frame {
    version: u16,
    kind: u8,
    body: Vec<u8>,
}

/// The item a frame is written as.
pub open spec fn frame_written(frame: FrameView) -> CborView {
    CborView::Table(
        seq![
            cbor::entry("version"@, CborView::Integer(frame.version as int)),
            cbor::entry("kind"@, CborView::Integer(frame.kind as int)),
            cbor::entry("body"@, CborView::Bytes(frame.body)),
        ],
    )
}

/// The frame an item is read as, if it is one.
pub open spec fn frame_read(item: CborView) -> Option<FrameView> {
    match cbor::record_of(item) {
        Some(entries) => match (
            cbor::field(entries, "version"@),
            cbor::field(entries, "kind"@),
            cbor::field(entries, "body"@),
        ) {
            (Some(version), Some(kind), Some(body)) => match (
                cbor::integer_in(version, 0, u16::MAX as int),
                cbor::integer_in(kind, 0, u8::MAX as int),
                cbor::bytes_of(body),
            ) {
                (Some(v), Some(k), Some(b)) => Some(
                    FrameView { version: v as u16, kind: k as u8, body: b },
                ),
                _ => None,
            },
            _ => None,
        },
        None => None,
    }
}

/// A frame reads back as it was written.
pub proof fn lemma_frame_round_trip(frame: FrameView)
    ensures
        frame_read(frame_written(frame)) == Some(frame),
        cbor::plain(frame_written(frame), cbor::MAX_DEPTH as nat),
{
    reveal_strlit("version");
    reveal_strlit("kind");
    reveal_strlit("body");
    assert("version"@.len() == 7 && "kind"@.len() == 4 && "body"@.len() == 4);
    assert("kind"@[0] != "body"@[0]);
    cbor::lemma_record3(
        "version"@,
        CborView::Integer(frame.version as int),
        "kind"@,
        CborView::Integer(frame.kind as int),
        "body"@,
        CborView::Bytes(frame.body),
    );
    reveal_with_fuel(cbor::plain, 2);
}

/// The bytes a frame around a body of so many bytes takes: its own head and three
/// names, the version, the kind, and the body behind its length.
pub open spec fn frame_size(version: u16, kind: u8, body: nat) -> nat {
    19 + cbor::head(version as int) + cbor::head(kind as int) + cbor::head(body as int) + body
}

/// A frame takes little more than its body.
pub proof fn lemma_frame_bulk(frame: FrameView)
    ensures
        cbor::bulk(frame_written(frame)) == frame_size(
            frame.version,
            frame.kind,
            frame.body.len(),
        ),
        frame_size(frame.version, frame.kind, frame.body.len()) <= FRAME_OVERHEAD
            + frame.body.len(),
{
    reveal_strlit("version");
    reveal_strlit("kind");
    reveal_strlit("body");
    assert(cbor::short("version"@) && cbor::short("kind"@) && cbor::short("body"@));
    let version = CborView::Integer(frame.version as int);
    let kind = CborView::Integer(frame.kind as int);
    let body = CborView::Bytes(frame.body);
    let one = seq![cbor::entry("version"@, version)];
    let two = one.push(cbor::entry("kind"@, kind));
    cbor::lemma_bulk1("version"@, version);
    cbor::lemma_bulk_push(one, "kind"@, kind);
    cbor::lemma_bulk_push(two, "body"@, body);
    assert(two.push(cbor::entry("body"@, body)) =~= seq![
        cbor::entry("version"@, version),
        cbor::entry("kind"@, kind),
        cbor::entry("body"@, body),
    ]);
}

/// The bytes of a frame.
pub open spec fn frame_bytes(version: u16, kind: u8, body: Seq<u8>) -> Seq<u8> {
    cbor::cbor_render(frame_written(FrameView { version, kind, body }))
}

/// The bytes of a message's body.
pub open spec fn body_bytes<M: WireMessage>(message: M::V) -> Seq<u8> {
    cbor::cbor_render(M::written(message))
}

/// Why a frame is refused.
pub enum Refusal {
    /// It is over the frame cap.
    TooLarge,
    /// It, or its body, is not CBOR of the right shape.
    Malformed,
    /// It is of another protocol version.
    Version(u16),
    /// It is of a kind nobody knows.
    UnknownKind(u8),
    /// It is of another kind.
    OtherKind(u8),
}

/// The frame a byte string holds, or why it is refused.
pub open spec fn unframed(data: Seq<u8>) -> Result<FrameView, Refusal> {
    if data.len() > MAX_FRAME_BYTES {
        Err(Refusal::TooLarge)
    } else {
        match cbor::cbor_parse(data) {
            Some(item) => match frame_read(item) {
                Some(frame) => Ok(frame),
                None => Err(Refusal::Malformed),
            },
            None => Err(Refusal::Malformed),
        }
    }
}

/// The message a byte string holds, or why it is refused: an oversized frame,
/// malformed CBOR, an unsupported version, an unknown kind, a known but wrong
/// kind, and last a malformed body.
pub open spec fn decoded<M: WireMessage>(data: Seq<u8>) -> Result<M::V, Refusal> {
    match unframed(data) {
        Err(refusal) => Err(refusal),
        Ok(frame) => if frame.version != PROTOCOL_VERSION {
            Err(Refusal::Version(frame.version))
        } else if !(1 <= frame.kind <= 3) {
            Err(Refusal::UnknownKind(frame.kind))
        } else if frame.kind != M::wire_kind().wire_tag() {
            Err(Refusal::OtherKind(frame.kind))
        } else {
            match cbor::cbor_parse(frame.body) {
                Some(item) => match M::read(item) {
                    Some(message) => Ok(message),
                    None => Err(Refusal::Malformed),
                },
                None => Err(Refusal::Malformed),
            }
        },
    }
}

/// Whether an error reports a refusal of a byte string of this length, by a
/// decoder of this kind.
pub open spec fn reports(
    error: ReconcileError,
    refusal: Refusal,
    size: nat,
    expected: u8,
) -> bool {
    match refusal {
        Refusal::TooLarge => error == (ReconcileError::FrameTooLarge {
            size: size as usize,
            max: MAX_FRAME_BYTES,
        }),
        Refusal::Malformed => error is Codec,
        Refusal::Version(found) => error == (ReconcileError::UnsupportedVersion {
            found,
            expected: PROTOCOL_VERSION,
        }),
        Refusal::UnknownKind(found) => error == ReconcileError::UnknownMessageKind(found),
        Refusal::OtherKind(found) => error == (ReconcileError::MessageKindMismatch {
            found,
            expected,
        }),
    }
}

/// A frame is a map of its version, its kind and its body, under those names and in
/// that order.
pub proof fn lemma_frame_layout(frame: FrameView)
    ensures
        frame_written(frame) == CborView::Table(
            seq![
                (CborView::Text("version"@), CborView::Integer(frame.version as int)),
                (CborView::Text("kind"@), CborView::Integer(frame.kind as int)),
                (CborView::Text("body"@), CborView::Bytes(frame.body)),
            ],
        ),
{
}

/// What an item is read as is what its three fields say, each of which has to be there
/// once, and a version or a kind that does not fit its width is refused.
pub proof fn lemma_frame_is_what_its_fields_say(item: CborView, frame: FrameView)
    ensures
        frame_read(item) == Some(frame) <==> {
            &&& cbor::record_of(item) matches Some(entries)
            &&& cbor::field(entries, "version"@) matches Some(version)
            &&& cbor::field(entries, "kind"@) matches Some(kind)
            &&& cbor::field(entries, "body"@) matches Some(body)
            &&& cbor::integer_of(version) == Some(frame.version as int)
            &&& cbor::integer_of(kind) == Some(frame.kind as int)
            &&& cbor::bytes_of(body) == Some(frame.body)
        },
{
}

/// Range tilings, coded symbols and opening frames go by the tags one, two and three.
pub proof fn lemma_kinds_have_their_tags(kind: MessageKind)
    ensures
        kind is RbsrRanges <==> kind.wire_tag() == 1,
        kind is RibltSymbols <==> kind.wire_tag() == 2,
        kind is SessionOpen <==> kind.wire_tag() == 3,
{
}

/// What a byte string decodes to, by what is wrong with it first: its length past
/// 16 MiB, its shape, its version, its kind, and last its body. A frame with nothing
/// wrong with it gives what its body is read as.
pub proof fn lemma_decode_order<M: WireMessage>(data: Seq<u8>)
    ensures
        ({
            let frame = match cbor::cbor_parse(data) {
                Some(item) => frame_read(item),
                None => None,
            };
            let answer = decoded::<M>(data);
            &&& (answer matches Err(Refusal::TooLarge)) <==> data.len() > 16_777_216
            &&& data.len() <= 16_777_216 ==> match frame {
                None => answer matches Err(Refusal::Malformed),
                Some(f) => {
                    let body = match cbor::cbor_parse(f.body) {
                        Some(item) => M::read(item),
                        None => None,
                    };
                    &&& f.version != 1 ==> (answer matches Err(Refusal::Version(found)) && found
                        == f.version)
                    &&& f.version == 1 && (f.kind == 0 || f.kind > 3) ==> (answer matches Err(
                        Refusal::UnknownKind(found),
                    ) && found == f.kind)
                    &&& f.version == 1 && 1 <= f.kind <= 3 && f.kind != M::wire_kind().wire_tag()
                        ==> (answer matches Err(Refusal::OtherKind(found)) && found == f.kind)
                    &&& f.version == 1 && f.kind == M::wire_kind().wire_tag() && 1 <= f.kind <= 3
                        ==> match body {
                        Some(message) => answer matches Ok(read) && read == message,
                        None => answer matches Err(Refusal::Malformed),
                    }
                },
            }
        }),
{
}

/// Each refusal is reported as its own error, with what was found and what was
/// expected.
pub proof fn lemma_refusals_are_told_apart(
    error: ReconcileError,
    refusal: Refusal,
    size: nat,
    expected: u8,
)
    requires
        reports(error, refusal, size, expected),
    ensures
        match refusal {
            Refusal::TooLarge => error matches ReconcileError::FrameTooLarge { size: told, max }
                && told == size as usize && max == 16_777_216,
            Refusal::Malformed => error is Codec,
            Refusal::Version(v) => error matches ReconcileError::UnsupportedVersion {
                found,
                expected: ours,
            } && found == v && ours == 1,
            Refusal::UnknownKind(k) => error matches ReconcileError::UnknownMessageKind(found)
                && found == k,
            Refusal::OtherKind(k) => error matches ReconcileError::MessageKindMismatch {
                found,
                expected: ours,
            } && found == k && ours == expected,
        },
{
}

/// Encodes a message into a versioned frame.
///
/// The frame decodes back to the message, and cut short anywhere it is refused. A
/// message encodes unless its parts and the frame around them pass the frame cap.
pub fn encode<M: WireMessage>(message: &M) -> (r: Result<Vec<u8>, ReconcileError>)
    ensures
        ({
            let frame = frame_bytes(
                PROTOCOL_VERSION,
                M::wire_kind().wire_tag(),
                body_bytes::<M>(message@),
            );
            let size = frame_size(
                PROTOCOL_VERSION,
                M::wire_kind().wire_tag(),
                cbor::bulk(M::written(message@)),
            );
            match r {
                Ok(data) => {
                    &&& data@ == frame
                    &&& data@.len() == size
                    &&& size <= MAX_FRAME_BYTES
                    &&& decoded::<M>(data@) == Ok::<M::V, Refusal>(message@)
                    &&& forall|n: int|
                        0 <= n < data@.len() ==> decoded::<M>(#[trigger] data@.take(n)) == Err::<
                            M::V,
                            Refusal,
                        >(Refusal::Malformed)
                },
                Err(error) => {
                    &&& frame.len() == size
                    &&& size > MAX_FRAME_BYTES
                    &&& error == (ReconcileError::FrameTooLarge {
                        size: size as usize,
                        max: MAX_FRAME_BYTES,
                    })
                },
            }
        }),
{
    encode_with_version(message, PROTOCOL_VERSION)
}

/// Encodes a message into a frame of the given version.
pub fn encode_with_version<M: WireMessage>(message: &M, version: u16) -> (r: Result<
    Vec<u8>,
    ReconcileError,
>)
    ensures
        ({
            let body = body_bytes::<M>(message@);
            let kind = M::wire_kind().wire_tag();
            let frame = frame_bytes(version, kind, body);
            let size = frame_size(version, kind, cbor::bulk(M::written(message@)));
            match r {
                Ok(data) => {
                    &&& data@ == frame
                    &&& data@.len() == size
                    &&& size <= MAX_FRAME_BYTES
                    &&& unframed(data@) == Ok::<FrameView, Refusal>(
                        FrameView { version, kind, body },
                    )
                    &&& version == PROTOCOL_VERSION ==> decoded::<M>(data@) == Ok::<M::V, Refusal>(
                        message@,
                    )
                    &&& forall|n: int|
                        0 <= n < data@.len() ==> unframed(#[trigger] data@.take(n)) == Err::<
                            FrameView,
                            Refusal,
                        >(Refusal::Malformed)
                },
                Err(error) => {
                    &&& frame.len() == size
                    &&& size > MAX_FRAME_BYTES
                    &&& error == (ReconcileError::FrameTooLarge {
                        size: size as usize,
                        max: MAX_FRAME_BYTES,
                    })
                },
            }
        }),
{
    let item = message.to_item();
    let body = match cbor::render_item(&item) {
        Ok(body) => body,
        Err(text) => {
            return Err(ReconcileError::Codec(text));
        },
    };
    encode_frame(version, M::kind().tag(), body)
}

/// Encodes a frame from its parts.
pub fn encode_raw(version: u16, kind: u8, body: Vec<u8>) -> (r: Result<Vec<u8>, ReconcileError>)
    ensures
        match r {
            Ok(data) => {
                &&& data@ == frame_bytes(version, kind, body@)
                &&& data@.len() == frame_size(version, kind, body@.len())
                &&& frame_size(version, kind, body@.len()) <= MAX_FRAME_BYTES
                &&& unframed(data@) == Ok::<FrameView, Refusal>(
                    FrameView { version, kind, body: body@ },
                )
                &&& forall|n: int|
                    0 <= n < data@.len() ==> unframed(#[trigger] data@.take(n)) == Err::<
                        FrameView,
                        Refusal,
                    >(Refusal::Malformed)
            },
            Err(error) => {
                &&& frame_bytes(version, kind, body@).len() == frame_size(
                    version,
                    kind,
                    body@.len(),
                )
                &&& frame_size(version, kind, body@.len()) > MAX_FRAME_BYTES
                &&& error == (ReconcileError::FrameTooLarge {
                    size: frame_size(version, kind, body@.len()) as usize,
                    max: MAX_FRAME_BYTES,
                })
            },
        },
{
    encode_frame(version, kind, body)
}

/// Reads a frame's version and kind without interpreting its body.
pub fn peek_header(data: &[u8]) -> (r: Result<FrameHeader, ReconcileError>)
    ensures
        match (r, unframed(data@)) {
            (Ok(header), Ok(frame)) => header == (FrameHeader {
                version: frame.version,
                kind: frame.kind,
            }),
            (Err(error), Err(refusal)) => reports(error, refusal, data@.len(), 0),
            _ => false,
        },
{
    match decode_frame(data) {
        Ok(frame) => Ok(FrameHeader { version: frame.version, kind: frame.kind }),
        Err(error) => Err(error),
    }
}

/// Decodes a frame into the requested message type.
///
/// Fails with a distinct error for an oversized frame, malformed CBOR, an
/// unsupported protocol version, an unknown kind tag, and a known-but-wrong kind
/// tag, in that order, so the caller can tell a future peer from a broken one.
pub fn decode<M: WireMessage>(data: &[u8]) -> (r: Result<M, ReconcileError>)
    ensures
        match (r, decoded::<M>(data@)) {
            (Ok(message), Ok(expected)) => message@ == expected,
            (Err(error), Err(refusal)) => reports(
                error,
                refusal,
                data@.len(),
                M::wire_kind().wire_tag(),
            ),
            _ => false,
        },
{
    let frame = match decode_frame(data) {
        Ok(frame) => frame,
        Err(error) => {
            return Err(error);
        },
    };
    if frame.version != PROTOCOL_VERSION {
        return Err(
            ReconcileError::UnsupportedVersion {
                found: frame.version,
                expected: PROTOCOL_VERSION,
            },
        );
    }
    let kind = match MessageKind::from_tag(frame.kind) {
        Ok(kind) => kind,
        Err(error) => {
            return Err(error);
        },
    };
    let expected = M::kind();
    if kind.tag() != expected.tag() {
        return Err(
            ReconcileError::MessageKindMismatch { found: frame.kind, expected: expected.tag() },
        );
    }
    match cbor::parse_item(frame.body.as_slice()) {
        Ok(item) => match M::from_item(&item) {
            Some(message) => Ok(message),
            None => Err(ReconcileError::Codec("unexpected message shape".to_owned())),
        },
        Err(text) => Err(ReconcileError::Codec(text)),
    }
}

/// Encodes a frame from its parts.
fn encode_frame(version: u16, kind: u8, body: Vec<u8>) -> (r: Result<Vec<u8>, ReconcileError>)
    ensures
        match r {
            Ok(data) => {
                &&& data@ == frame_bytes(version, kind, body@)
                &&& data@.len() == frame_size(version, kind, body@.len())
                &&& frame_size(version, kind, body@.len()) <= MAX_FRAME_BYTES
                &&& unframed(data@) == Ok::<FrameView, Refusal>(
                    FrameView { version, kind, body: body@ },
                )
                &&& forall|n: int|
                    0 <= n < data@.len() ==> unframed(#[trigger] data@.take(n)) == Err::<
                        FrameView,
                        Refusal,
                    >(Refusal::Malformed)
            },
            Err(error) => {
                &&& frame_bytes(version, kind, body@).len() == frame_size(
                    version,
                    kind,
                    body@.len(),
                )
                &&& frame_size(version, kind, body@.len()) > MAX_FRAME_BYTES
                &&& error == (ReconcileError::FrameTooLarge {
                    size: frame_size(version, kind, body@.len()) as usize,
                    max: MAX_FRAME_BYTES,
                })
            },
        },
{
    let ghost view = FrameView { version, kind, body: body@ };
    let item = cbor::build_record3(
        cbor::build_entry("version", cbor::build(Part::Unsigned(version as u64))),
        cbor::build_entry("kind", cbor::build(Part::Unsigned(kind as u64))),
        cbor::build_entry("body", cbor::build(Part::Bytes(body))),
    );
    proof {
        assert(cbor::content(item) == frame_written(view));
        lemma_frame_round_trip(view);
        lemma_frame_bulk(view);
    }
    match cbor::render_item(&item) {
        Ok(data) => {
            if data.len() > MAX_FRAME_BYTES {
                return Err(
                    ReconcileError::FrameTooLarge { size: data.len(), max: MAX_FRAME_BYTES },
                );
            }
            Ok(data)
        },
        Err(text) => Err(ReconcileError::Codec(text)),
    }
}

/// Reads a frame's parts.
fn decode_frame(data: &[u8]) -> (r: Result<Frame, ReconcileError>)
    ensures
        match (r, unframed(data@)) {
            (Ok(frame), Ok(view)) => view == (FrameView {
                version: frame.version,
                kind: frame.kind,
                body: frame.body@,
            }),
            (Err(error), Err(refusal)) => {
                &&& refusal is TooLarge || refusal is Malformed
                &&& reports(error, refusal, data@.len(), 0)
            },
            _ => false,
        },
{
    if data.len() > MAX_FRAME_BYTES {
        return Err(ReconcileError::FrameTooLarge { size: data.len(), max: MAX_FRAME_BYTES });
    }
    match cbor::parse_item(data) {
        Ok(item) => match read_frame(&item) {
            Some(frame) => Ok(frame),
            None => Err(ReconcileError::Codec("unexpected frame shape".to_owned())),
        },
        Err(text) => Err(ReconcileError::Codec(text)),
    }
}

/// Reads a frame's parts from an item.
fn read_frame(item: &Value) -> (r: Option<Frame>)
    ensures
        match r {
            Some(frame) => frame_read(cbor::content(*item)) == Some(
                FrameView { version: frame.version, kind: frame.kind, body: frame.body@ },
            ),
            None => frame_read(cbor::content(*item)) is None,
        },
{
    let entries = match cbor::read_record(item) {
        Some(entries) => entries,
        None => {
            return None;
        },
    };
    match (
        cbor::read_field(entries, "version"),
        cbor::read_field(entries, "kind"),
        cbor::read_field(entries, "body"),
    ) {
        (Some(version), Some(kind), Some(body)) => match (
            cbor::read_integer(version, 0, u16::MAX as i128),
            cbor::read_integer(kind, 0, u8::MAX as i128),
            cbor::read_bytes(body),
        ) {
            (Some(version), Some(kind), Some(body)) => Some(
                Frame { version: version as u16, kind: kind as u8, body },
            ),
            _ => None,
        },
        _ => None,
    }
}

} // verus!
