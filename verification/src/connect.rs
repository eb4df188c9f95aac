//! The framing of messages on the wire.
//!
//! A frame is a byte of flags, the length of the payload as four bytes with the highest
//! first, and the payload. The payload of an ordinary frame is a message; that of the
//! last frame is a JSON document.

use crate::messages::StreamCppResponse;
use vstd::prelude::*;
use vstd::slice::slice_subrange;

verus! {

/// The number of bytes in front of a payload.
pub const CONNECT_HEADER_LENGTH: usize = 5;

/// The flag of the frame that ends a stream.
pub const CONNECT_END_STREAM_FLAG: u8 = 0x02;

/// The flag of a frame with a compressed payload.
pub const CONNECT_COMPRESSED_FLAG: u8 = 0x01;

/// The longest payload that a decoder takes unless it is told otherwise.
pub const DEFAULT_MAX_FRAME_LENGTH: usize = 8 * 1024 * 1024;

// ---------------------------------------------------------------------------
// JSON documents
// ---------------------------------------------------------------------------

/// `serde_json::Value`, a JSON document.
#[verifier::external_type_specification]
#[verifier::external_body]
pub struct ExJsonValue(serde_json::Value);

/// `serde_json::Error`, what is wrong with a JSON document.
#[verifier::external_type_specification]
#[verifier::external_body]
pub struct ExJsonError(serde_json::Error);

/// The members of a document that is an object, each with its value as compact JSON. Any
/// other document has none.
pub uninterp spec fn json_members(document: serde_json::Value) -> Map<Seq<char>, Seq<char>>;

/// The members of the document that bytes hold, or `None` when they hold none.
pub uninterp spec fn json_document(bytes: Seq<u8>) -> Option<Map<Seq<char>, Seq<char>>>;

/// `serde_json::from_slice` reads a document from bytes. Whether it can, and what members
/// the document has, depends on the bytes alone.
#[verifier::external_body]
fn parse_json(bytes: &[u8]) -> (r: Result<serde_json::Value, serde_json::Error>)
    ensures
        match r {
            Ok(document) => json_document(bytes@) == Some(json_members(document)),
            Err(_) => json_document(bytes@) is None,
        },
{
    serde_json::from_slice(bytes)
}

/// `serde_json::Value::get` with a string gives the member of that name, of an object that
/// has one, and nothing otherwise. The member is written as compact JSON.
#[verifier::external_body]
pub(crate) fn json_member(document: &serde_json::Value, name: &str) -> (r: Option<String>)
    ensures
        match r {
            Some(member) => json_members(*document).contains_key(name@) && json_members(
                *document,
            )[name@] == member@,
            None => !json_members(*document).contains_key(name@),
        },
{
    document.get(name).map(|member| member.to_string())
}

// ---------------------------------------------------------------------------
// Frames
// ---------------------------------------------------------------------------

/// A frame with its payload read.
#[derive(Debug, PartialEq)]
pub enum ConnectFrame {
    /// A message.
    Message(Box<StreamCppResponse>),
    /// The document that ends the stream.
    EndStream(serde_json::Value),
}

/// What is wrong with a frame.
#[derive(Debug)]
pub enum ConnectError {
    /// The payload of a frame to be written is longer than a frame can say.
    MessageTooLong,
    /// The payload of a frame is longer than the decoder takes.
    FrameTooLong { length: usize, limit: usize },
    /// The length of a frame cannot be counted.
    LengthOverflow,
    /// The payload of a frame is compressed.
    Compressed,
    /// The document that ends the stream cannot be read.
    InvalidTrailer(serde_json::Error),
    /// A message cannot be read.
    InvalidMessage(String),
    /// The stream ends inside a frame.
    IncompleteFrame,
}

/// A frame as it stands on the wire.
pub struct RawFrame {
    pub flags: u8,
    pub payload: Seq<u8>,
}

/// What bytes begin with.
pub enum FrameStart {
    /// A part of a frame, or nothing.
    Incomplete,
    /// A frame with a longer payload than allowed.
    TooLong(int),
    /// A frame whose length cannot be counted.
    Overflow,
    /// A compressed frame.
    Compressed,
    /// A frame.
    Complete(RawFrame),
}

/// The length of the payload that a header announces.
pub open spec fn announced_length(bytes: Seq<u8>) -> int {
    bytes[1] * 0x1000000 + bytes[2] * 0x10000 + bytes[3] * 0x100 + bytes[4]
}

/// What bytes begin with, for a decoder that takes payloads up to the given length.
pub open spec fn frame_start(limit: int, bytes: Seq<u8>) -> FrameStart {
    let length = announced_length(bytes);
    if bytes.len() < CONNECT_HEADER_LENGTH {
        FrameStart::Incomplete
    } else if length > limit {
        FrameStart::TooLong(length)
    } else if CONNECT_HEADER_LENGTH + length > usize::MAX {
        FrameStart::Overflow
    } else if bytes.len() < CONNECT_HEADER_LENGTH + length {
        FrameStart::Incomplete
    } else if bytes[0] & CONNECT_COMPRESSED_FLAG != 0 {
        FrameStart::Compressed
    } else {
        FrameStart::Complete(
            RawFrame {
                flags: bytes[0],
                payload: bytes.subrange(
                    CONNECT_HEADER_LENGTH as int,
                    CONNECT_HEADER_LENGTH + length,
                ),
            },
        )
    }
}

/// What is left of bytes behind their first `n` frames, when they have so many.
pub open spec fn behind_frames(limit: int, bytes: Seq<u8>, n: nat) -> Option<Seq<u8>>
    decreases n,
{
    if n == 0 {
        Some(bytes)
    } else {
        match behind_frames(limit, bytes, (n - 1) as nat) {
            None => None,
            Some(rest) => match frame_start(limit, rest) {
                FrameStart::Complete(frame) => Some(
                    rest.skip(CONNECT_HEADER_LENGTH + frame.payload.len()),
                ),
                _ => None,
            },
        }
    }
}

/// The `i`-th frame of bytes that have so many.
pub open spec fn frame_at(limit: int, bytes: Seq<u8>, i: nat) -> RawFrame {
    frame_start(limit, behind_frames(limit, bytes, i)->0)->Complete_0
}

/// The bytes of a frame.
pub open spec fn frame_bytes(flags: u8, payload: Seq<u8>) -> Seq<u8> {
    let n = payload.len() as int;
    seq![
        flags,
        (n / 0x1000000) as u8,
        (n / 0x10000 % 0x100) as u8,
        (n / 0x100 % 0x100) as u8,
        (n % 0x100) as u8,
    ] + payload
}

/// Frames a message that is already encoded.
pub fn encode_connect_message(payload: &[u8]) -> (r: Result<Vec<u8>, ConnectError>)
    ensures
        match r {
            Ok(frame) => payload@.len() <= u32::MAX && frame@ == frame_bytes(0, payload@),
            Err(error) => payload@.len() > u32::MAX && error is MessageTooLong,
        },
{
    let length: usize = payload.len();
    if length > u32::MAX as usize {
        return Err(ConnectError::MessageTooLong);
    }
    let mut frame: Vec<u8> = Vec::new();
    frame.push(0);
    frame.push((length / 0x1000000) as u8);
    frame.push((length / 0x10000 % 0x100) as u8);
    frame.push((length / 0x100 % 0x100) as u8);
    frame.push((length % 0x100) as u8);
    frame.extend_from_slice(payload);
    assert(frame@ =~= frame_bytes(0, payload@));
    Ok(frame)
}

proof fn lemma_length_bytes(n: int)
    requires
        0 <= n <= u32::MAX,
    ensures
        0 <= n / 0x1000000 < 0x100,
        (n / 0x1000000) * 0x1000000 + (n / 0x10000 % 0x100) * 0x10000 + (n / 0x100 % 0x100) * 0x100
            + n % 0x100 == n,
{
}

/// A frame is read back as it was written, whatever follows it, and what follows it is
/// what is left.
pub proof fn lemma_frame_round_trip(limit: int, flags: u8, payload: Seq<u8>, more: Seq<u8>)
    requires
        payload.len() <= limit,
        payload.len() <= u32::MAX,
        CONNECT_HEADER_LENGTH + payload.len() <= usize::MAX,
        flags & CONNECT_COMPRESSED_FLAG == 0,
    ensures
        frame_start(limit, frame_bytes(flags, payload) + more) == FrameStart::Complete(
            RawFrame { flags, payload },
        ),
        behind_frames(limit, frame_bytes(flags, payload) + more, 1) == Some(more),
{
    let bytes = frame_bytes(flags, payload) + more;
    let n = payload.len() as int;
    lemma_length_bytes(n);
    assert(announced_length(bytes) == n);
    assert(bytes.subrange(CONNECT_HEADER_LENGTH as int, CONNECT_HEADER_LENGTH + n) =~= payload);
    reveal_with_fuel(behind_frames, 2);
    assert(bytes.skip(CONNECT_HEADER_LENGTH + n) =~= more);
}

/// The bytes of a list of frames.
pub open spec fn stream_bytes(frames: Seq<RawFrame>) -> Seq<u8>
    decreases frames.len(),
{
    if frames.len() == 0 {
        Seq::empty()
    } else {
        stream_bytes(frames.drop_last()) + frame_bytes(
            frames.last().flags,
            frames.last().payload,
        )
    }
}

/// Bytes that follow do not change the frames in front of them.
pub proof fn lemma_more_bytes(limit: int, bytes: Seq<u8>, more: Seq<u8>, n: nat)
    requires
        behind_frames(limit, bytes, n) is Some,
    ensures
        behind_frames(limit, bytes + more, n) == Some(behind_frames(limit, bytes, n)->0 + more),
        forall|i: nat| i < n ==> #[trigger] frame_at(limit, bytes + more, i) == frame_at(
            limit,
            bytes,
            i,
        ),
    decreases n,
{
    if n > 0 {
        let m = (n - 1) as nat;
        let rest = behind_frames(limit, bytes, m)->0;
        lemma_more_bytes(limit, bytes, more, m);
        lemma_start_with_more(limit, rest, more);
        let frame = frame_start(limit, rest)->Complete_0;
        let size = CONNECT_HEADER_LENGTH + frame.payload.len();
        assert((rest + more).skip(size) =~= rest.skip(size) + more);
        assert forall|i: nat| i < n implies #[trigger] frame_at(limit, bytes + more, i) == frame_at(
            limit,
            bytes,
            i,
        ) by {
            if i == m {
                assert(behind_frames(limit, bytes + more, m) == Some(rest + more));
            }
        }
    }
}

/// What bytes begin with stays the same when more follow, unless it was incomplete.
pub proof fn lemma_start_with_more(limit: int, bytes: Seq<u8>, more: Seq<u8>)
    requires
        !(frame_start(limit, bytes) is Incomplete),
    ensures
        frame_start(limit, bytes + more) == frame_start(limit, bytes),
{
    let length = announced_length(bytes);
    assert(announced_length(bytes + more) == length);
    if frame_start(limit, bytes) is Complete {
        let end = CONNECT_HEADER_LENGTH + length;
        assert((bytes + more).subrange(CONNECT_HEADER_LENGTH as int, end) =~= bytes.subrange(
            CONNECT_HEADER_LENGTH as int,
            end,
        ));
    }
}

/// Frames can be read in two goes: those of the first go, and those of what it left
/// together with the bytes of the second.
pub proof fn lemma_frames_in_pieces(
    limit: int,
    first: Seq<u8>,
    second: Seq<u8>,
    n: nat,
    m: nat,
)
    requires
        behind_frames(limit, first, n) is Some,
        behind_frames(limit, behind_frames(limit, first, n)->0 + second, m) is Some,
    ensures
        behind_frames(limit, first + second, n + m) == behind_frames(
            limit,
            behind_frames(limit, first, n)->0 + second,
            m,
        ),
        forall|i: nat| i < n ==> #[trigger] frame_at(limit, first + second, i) == frame_at(
            limit,
            first,
            i,
        ),
        forall|j: nat|
            j < m ==> #[trigger] frame_at(
                limit,
                behind_frames(limit, first, n)->0 + second,
                j,
            ) == frame_at(limit, first + second, n + j),
    decreases m,
{
    let left = behind_frames(limit, first, n)->0 + second;
    lemma_more_bytes(limit, first, second, n);
    if m > 0 {
        let k = (m - 1) as nat;
        lemma_frames_in_pieces(limit, first, second, n, k);
        assert((n + m - 1) as nat == n + k);
        assert(behind_frames(limit, first + second, n + k) == behind_frames(limit, left, k));
        assert forall|j: nat| j < m implies #[trigger] frame_at(limit, left, j) == frame_at(
            limit,
            first + second,
            n + j,
        ) by {
            if j == k {
                assert(behind_frames(limit, first + second, n + j) == behind_frames(
                    limit,
                    left,
                    j,
                ));
            }
        }
    }
}

/// The frames of a stream are read back as they were written.
pub proof fn lemma_stream_round_trip(limit: int, frames: Seq<RawFrame>)
    requires
        forall|i: int|
            0 <= i < frames.len() ==> {
                let frame = #[trigger] frames[i];
                &&& frame.payload.len() <= limit
                &&& frame.payload.len() <= u32::MAX
                &&& CONNECT_HEADER_LENGTH + frame.payload.len() <= usize::MAX
                &&& frame.flags & CONNECT_COMPRESSED_FLAG == 0
            },
    ensures
        behind_frames(limit, stream_bytes(frames), frames.len()) == Some(Seq::<u8>::empty()),
        forall|i: nat|
            i < frames.len() ==> #[trigger] frame_at(limit, stream_bytes(frames), i)
                == frames[i as int],
    decreases frames.len(),
{
    if frames.len() > 0 {
        let head = frames.drop_last();
        let last = frames.last();
        assert(frames[frames.len() - 1] == last);
        lemma_stream_round_trip(limit, head);
        let bytes = frame_bytes(last.flags, last.payload);
        let none = Seq::<u8>::empty();
        lemma_frame_round_trip(limit, last.flags, last.payload, none);
        assert(bytes + none =~= bytes);
        assert(none + bytes =~= bytes);
        lemma_frames_in_pieces(limit, stream_bytes(head), bytes, head.len(), 1);
        assert(head.len() + 1 == frames.len());
        assert(behind_frames(limit, bytes, 0) == Some(bytes));
        assert forall|i: nat| i < frames.len() implies #[trigger] frame_at(
            limit,
            stream_bytes(frames),
            i,
        ) == frames[i as int] by {
            if i < head.len() {
                assert(frame_at(limit, stream_bytes(head), i) == head[i as int]);
            } else {
                assert(frame_at(limit, none + bytes, 0) == frame_at(
                    limit,
                    stream_bytes(frames),
                    head.len() + 0,
                ));
            }
        }
    }
}

// ---------------------------------------------------------------------------
// Decoding
// ---------------------------------------------------------------------------

/// Whether a frame is read as the given one, or not read for the given reason. The payload
/// of the last frame is a JSON document; any other is handed to the message reader.
pub open spec fn frame_read<D: Fn(&[u8]) -> Result<StreamCppResponse, String>>(
    decode_message: D,
    raw: RawFrame,
    result: Result<ConnectFrame, ConnectError>,
) -> bool {
    if raw.flags & CONNECT_END_STREAM_FLAG != 0 {
        match result {
            Ok(ConnectFrame::EndStream(document)) => json_document(raw.payload) == Some(
                json_members(document),
            ),
            Err(ConnectError::InvalidTrailer(_)) => json_document(raw.payload) is None,
            _ => false,
        }
    } else {
        match result {
            Ok(ConnectFrame::Message(message)) => message_read(
                decode_message,
                raw.payload,
                Ok(*message),
            ),
            Err(ConnectError::InvalidMessage(error)) => message_read(
                decode_message,
                raw.payload,
                Err(error),
            ),
            _ => false,
        }
    }
}

/// Whether a message reader answers a payload with the given result.
pub open spec fn message_read<D: Fn(&[u8]) -> Result<StreamCppResponse, String>>(
    decode_message: D,
    payload: Seq<u8>,
    result: Result<StreamCppResponse, String>,
) -> bool {
    exists|bytes: &[u8]| #[trigger]
        call_ensures(decode_message, (bytes,), result) && bytes@ == payload
}

/// Whether the given frames are those that bytes begin with, and what is left of the bytes
/// behind them.
pub open spec fn frames_read<D: Fn(&[u8]) -> Result<StreamCppResponse, String>>(
    decode_message: D,
    limit: int,
    bytes: Seq<u8>,
    frames: Seq<ConnectFrame>,
    rest: Seq<u8>,
) -> bool {
    &&& behind_frames(limit, bytes, frames.len()) == Some(rest)
    &&& forall|i: int|
        0 <= i < frames.len() ==> frame_read(
            decode_message,
            frame_at(limit, bytes, i as nat),
            Ok(#[trigger] frames[i]),
        )
}

/// Frames that are read in two goes are those that are read in one.
pub proof fn lemma_read_in_pieces<D: Fn(&[u8]) -> Result<StreamCppResponse, String>>(
    decode_message: D,
    limit: int,
    first: Seq<u8>,
    second: Seq<u8>,
    first_frames: Seq<ConnectFrame>,
    left: Seq<u8>,
    second_frames: Seq<ConnectFrame>,
    rest: Seq<u8>,
)
    requires
        frames_read(decode_message, limit, first, first_frames, left),
        frames_read(decode_message, limit, left + second, second_frames, rest),
    ensures
        frames_read(decode_message, limit, first + second, first_frames + second_frames, rest),
{
    let n = first_frames.len();
    let m = second_frames.len();
    lemma_frames_in_pieces(limit, first, second, n, m);
    let all = first_frames + second_frames;
    assert forall|i: int| 0 <= i < all.len() implies frame_read(
        decode_message,
        frame_at(limit, first + second, i as nat),
        Ok(#[trigger] all[i]),
    ) by {
        if i < n {
            assert(all[i] == first_frames[i]);
            assert(frame_at(limit, first + second, i as nat) == frame_at(limit, first, i as nat));
        } else {
            let j = (i - n) as nat;
            assert(all[i] == second_frames[j as int]);
            assert(frame_at(limit, left + second, j) == frame_at(limit, first + second, n + j));
            assert(n + j == i as nat);
        }
    }
}

/// Whether bytes begin with a frame that is not read for the given reason.
pub open spec fn frame_refused<D: Fn(&[u8]) -> Result<StreamCppResponse, String>>(
    decode_message: D,
    limit: int,
    bytes: Seq<u8>,
    error: ConnectError,
) -> bool {
    match frame_start(limit, bytes) {
        FrameStart::Incomplete => false,
        FrameStart::TooLong(announced) => match error {
            ConnectError::FrameTooLong { length, limit: most } => length == announced && most
                == limit,
            _ => false,
        },
        FrameStart::Overflow => error is LengthOverflow,
        FrameStart::Compressed => error is Compressed,
        FrameStart::Complete(raw) => frame_read(
            decode_message,
            raw,
            Err::<ConnectFrame, ConnectError>(error),
        ),
    }
}

/// Whether a result is that of reading frames from bytes, and what is left of the bytes: all
/// frames that are complete were read, or one cannot be read and stays in front of the rest.
pub open spec fn is_reading<D: Fn(&[u8]) -> Result<StreamCppResponse, String>>(
    decode_message: D,
    limit: int,
    bytes: Seq<u8>,
    result: Result<Seq<ConnectFrame>, ConnectError>,
    rest: Seq<u8>,
) -> bool {
    match result {
        Ok(frames) => {
            &&& frames_read(decode_message, limit, bytes, frames, rest)
            &&& frame_start(limit, rest) is Incomplete
        },
        Err(error) => {
            &&& exists|frames: Seq<ConnectFrame>| #[trigger]
                frames_read(decode_message, limit, bytes, frames, rest)
            &&& frame_refused(decode_message, limit, rest, error)
        },
    }
}

/// The frames that were read, or why one was not.
pub open spec fn read_frames(result: Result<Vec<ConnectFrame>, ConnectError>) -> Result<
    Seq<ConnectFrame>,
    ConnectError,
> {
    match result {
        Ok(frames) => Ok(frames@),
        Err(error) => Err(error),
    }
}

// ---------------------------------------------------------------------------
// Readers that answer the same bytes in the same way
// ---------------------------------------------------------------------------

/// Whether a message reader answers the same bytes in the same way each time.
pub open spec fn consistent<D: Fn(&[u8]) -> Result<StreamCppResponse, String>>(
    decode_message: D,
) -> bool {
    forall|
        a: &[u8],
        b: &[u8],
        x: Result<StreamCppResponse, String>,
        y: Result<StreamCppResponse, String>,
    |
        #[trigger] call_ensures(decode_message, (a,), x) && #[trigger] call_ensures(
            decode_message,
            (b,),
            y,
        ) && a@ == b@ ==> x == y
}

/// Whether a message reader answers a payload with the given message and nothing else.
pub open spec fn answers_only<D: Fn(&[u8]) -> Result<StreamCppResponse, String>>(
    decode_message: D,
    payload: Seq<u8>,
    message: StreamCppResponse,
) -> bool {
    forall|bytes: &[u8], result: Result<StreamCppResponse, String>| #[trigger]
        call_ensures(decode_message, (bytes,), result) && bytes@ == payload ==> result == Ok::<
            StreamCppResponse,
            String,
        >(message)
}

/// Whether two frames are the same: equal messages, or documents with the same members.
pub open spec fn same_frame(a: ConnectFrame, b: ConnectFrame) -> bool {
    match (a, b) {
        (ConnectFrame::Message(x), ConnectFrame::Message(y)) => x == y,
        (ConnectFrame::EndStream(x), ConnectFrame::EndStream(y)) => json_members(x)
            == json_members(y),
        _ => false,
    }
}

/// Whether two lists of frames are the same.
pub open spec fn same_frames(a: Seq<ConnectFrame>, b: Seq<ConnectFrame>) -> bool {
    &&& a.len() == b.len()
    &&& forall|i: int| 0 <= i < a.len() ==> same_frame(#[trigger] a[i], b[i])
}

proof fn lemma_fewer_frames(limit: int, bytes: Seq<u8>, n: nat, m: nat)
    requires
        n < m,
        behind_frames(limit, bytes, m) is Some,
    ensures
        behind_frames(limit, bytes, n) is Some,
        frame_start(limit, behind_frames(limit, bytes, n)->0) is Complete,
    decreases m,
{
    if n + 1 < m {
        lemma_fewer_frames(limit, bytes, n, (m - 1) as nat);
    }
}

proof fn lemma_reading_stops<D: Fn(&[u8]) -> Result<StreamCppResponse, String>>(
    decode_message: D,
    limit: int,
    bytes: Seq<u8>,
    frames: Seq<ConnectFrame>,
    result: Result<Seq<ConnectFrame>, ConnectError>,
    rest: Seq<u8>,
    others: Seq<ConnectFrame>,
    other_rest: Seq<u8>,
)
    requires
        consistent(decode_message),
        frames_read(decode_message, limit, bytes, frames, rest),
        match result {
            Ok(_) => frame_start(limit, rest) is Incomplete,
            Err(error) => frame_refused(decode_message, limit, rest, error),
        },
        frames_read(decode_message, limit, bytes, others, other_rest),
    ensures
        others.len() <= frames.len(),
{
    let n = frames.len();
    if n < others.len() {
        lemma_fewer_frames(limit, bytes, n, others.len());
        let raw = frame_at(limit, bytes, n);
        assert(frame_read(
            decode_message,
            frame_at(limit, bytes, (n as int) as nat),
            Ok(others[n as int]),
        ));
        if let Err(error) = result {
            lemma_read_one_way(decode_message, raw, Ok(others[n as int]), Err(error));
        }
    }
}

proof fn lemma_read_one_way<D: Fn(&[u8]) -> Result<StreamCppResponse, String>>(
    decode_message: D,
    raw: RawFrame,
    a: Result<ConnectFrame, ConnectError>,
    b: Result<ConnectFrame, ConnectError>,
)
    requires
        consistent(decode_message),
        frame_read(decode_message, raw, a),
        frame_read(decode_message, raw, b),
    ensures
        a is Ok <==> b is Ok,
        a is Ok ==> same_frame(a->Ok_0, b->Ok_0),
{
}

/// What is read from bytes is settled by the bytes, for a message reader that answers the
/// same bytes in the same way: whether all frames can be read, which frames they are, and
/// what is left.
pub proof fn lemma_reading_settled<D: Fn(&[u8]) -> Result<StreamCppResponse, String>>(
    decode_message: D,
    limit: int,
    bytes: Seq<u8>,
    a: Result<Seq<ConnectFrame>, ConnectError>,
    a_rest: Seq<u8>,
    b: Result<Seq<ConnectFrame>, ConnectError>,
    b_rest: Seq<u8>,
)
    requires
        consistent(decode_message),
        is_reading(decode_message, limit, bytes, a, a_rest),
        is_reading(decode_message, limit, bytes, b, b_rest),
    ensures
        a is Ok <==> b is Ok,
        a_rest == b_rest,
        a is Ok ==> same_frames(a->Ok_0, b->Ok_0),
{
    let x = match a {
        Ok(frames) => frames,
        Err(_) => choose|frames: Seq<ConnectFrame>| #[trigger]
            frames_read(decode_message, limit, bytes, frames, a_rest),
    };
    let y = match b {
        Ok(frames) => frames,
        Err(_) => choose|frames: Seq<ConnectFrame>| #[trigger]
            frames_read(decode_message, limit, bytes, frames, b_rest),
    };
    lemma_reading_stops(decode_message, limit, bytes, x, a, a_rest, y, b_rest);
    lemma_reading_stops(decode_message, limit, bytes, y, b, b_rest, x, a_rest);
    assert forall|i: int| 0 <= i < x.len() implies same_frame(#[trigger] x[i], y[i]) by {
        let raw = frame_at(limit, bytes, i as nat);
        assert(frame_read(decode_message, raw, Ok(y[i])));
        lemma_read_one_way(decode_message, raw, Ok(x[i]), Ok(y[i]));
    }
}

/// Bytes that arrive in two pieces and bytes that arrive at once give the same frames and
/// leave the same bytes, and the one way fails exactly when the other does, for a message
/// reader that answers the same bytes in the same way.
pub proof fn lemma_same_in_pieces<D: Fn(&[u8]) -> Result<StreamCppResponse, String>>(
    decode_message: D,
    limit: int,
    first: Seq<u8>,
    second: Seq<u8>,
    first_frames: Seq<ConnectFrame>,
    left: Seq<u8>,
    in_pieces: Result<Seq<ConnectFrame>, ConnectError>,
    in_pieces_rest: Seq<u8>,
    at_once: Result<Seq<ConnectFrame>, ConnectError>,
    at_once_rest: Seq<u8>,
)
    requires
        consistent(decode_message),
        is_reading(decode_message, limit, first, Ok(first_frames), left),
        is_reading(decode_message, limit, left + second, in_pieces, in_pieces_rest),
        is_reading(decode_message, limit, first + second, at_once, at_once_rest),
    ensures
        in_pieces is Ok <==> at_once is Ok,
        in_pieces_rest == at_once_rest,
        in_pieces is Ok ==> same_frames(first_frames + in_pieces->Ok_0, at_once->Ok_0),
{
    let frames = match in_pieces {
        Ok(frames) => frames,
        Err(_) => choose|frames: Seq<ConnectFrame>| #[trigger]
            frames_read(decode_message, limit, left + second, frames, in_pieces_rest),
    };
    lemma_read_in_pieces(
        decode_message,
        limit,
        first,
        second,
        first_frames,
        left,
        frames,
        in_pieces_rest,
    );
    let all: Result<Seq<ConnectFrame>, ConnectError> = match in_pieces {
        Ok(_) => Ok(first_frames + frames),
        Err(error) => Err(error),
    };
    assert(is_reading(decode_message, limit, first + second, all, in_pieces_rest));
    lemma_reading_settled(
        decode_message,
        limit,
        first + second,
        all,
        in_pieces_rest,
        at_once,
        at_once_rest,
    );
}

/// Bytes of which a frame cannot be read are not read when more bytes come with them, for a
/// message reader that answers the same bytes in the same way. The frame stays where it is.
pub proof fn lemma_failure_with_more<D: Fn(&[u8]) -> Result<StreamCppResponse, String>>(
    decode_message: D,
    limit: int,
    bytes: Seq<u8>,
    error: ConnectError,
    rest: Seq<u8>,
    more: Seq<u8>,
    result: Result<Seq<ConnectFrame>, ConnectError>,
    result_rest: Seq<u8>,
)
    requires
        consistent(decode_message),
        is_reading(decode_message, limit, bytes, Err(error), rest),
        is_reading(decode_message, limit, bytes + more, result, result_rest),
    ensures
        rest.len() > 0,
        result is Err,
        result_rest == rest + more,
{
    let frames = choose|frames: Seq<ConnectFrame>| #[trigger]
        frames_read(decode_message, limit, bytes, frames, rest);
    lemma_start_with_more(limit, rest, more);
    assert(behind_frames(limit, rest + more, 0) == Some(rest + more));
    assert(frames_read(decode_message, limit, rest + more, Seq::empty(), rest + more));
    lemma_read_in_pieces(
        decode_message,
        limit,
        bytes,
        more,
        frames,
        rest,
        Seq::empty(),
        rest + more,
    );
    let failed: Result<Seq<ConnectFrame>, ConnectError> = Err(error);
    assert(is_reading(decode_message, limit, bytes + more, failed, rest + more));
    lemma_reading_settled(
        decode_message,
        limit,
        bytes + more,
        failed,
        rest + more,
        result,
        result_rest,
    );
}

/// A frame that was refused is never skipped, for a message reader that answers the same
/// bytes in the same way: whatever bytes come next, they are not read either, and the stream
/// cannot end there.
pub proof fn lemma_refused_for_good<D: Fn(&[u8]) -> Result<StreamCppResponse, String>>(
    decode_message: D,
    limit: int,
    buffered: Seq<u8>,
    error: ConnectError,
    more: Seq<u8>,
    result: Result<Seq<ConnectFrame>, ConnectError>,
    rest: Seq<u8>,
)
    requires
        consistent(decode_message),
        frame_refused(decode_message, limit, buffered, error),
        is_reading(decode_message, limit, buffered + more, result, rest),
    ensures
        buffered.len() > 0,
        result is Err,
        rest == buffered + more,
        frame_refused(decode_message, limit, rest, result->Err_0),
{
    let failed: Result<Seq<ConnectFrame>, ConnectError> = Err(error);
    assert(behind_frames(limit, buffered, 0) == Some(buffered));
    assert(frames_read(decode_message, limit, buffered, Seq::empty(), buffered));
    assert(is_reading(decode_message, limit, buffered, failed, buffered));
    lemma_failure_with_more(
        decode_message,
        limit,
        buffered,
        error,
        buffered,
        more,
        result,
        rest,
    );
}

/// A message that was framed is read back, and nothing is left, for a message reader that
/// answers the payload with the message alone.
pub proof fn lemma_message_round_trip<D: Fn(&[u8]) -> Result<StreamCppResponse, String>>(
    decode_message: D,
    limit: int,
    payload: Seq<u8>,
    message: StreamCppResponse,
    result: Result<Seq<ConnectFrame>, ConnectError>,
    rest: Seq<u8>,
)
    requires
        answers_only(decode_message, payload, message),
        payload.len() <= limit,
        payload.len() <= u32::MAX,
        frame_bytes(0, payload).len() <= usize::MAX,
        is_reading(decode_message, limit, frame_bytes(0, payload), result, rest),
    ensures
        result is Ok,
        result->Ok_0 == seq![ConnectFrame::Message(Box::new(message))],
        rest.len() == 0,
{
    let bytes = frame_bytes(0, payload);
    let none = Seq::<u8>::empty();
    assert(0u8 & CONNECT_COMPRESSED_FLAG == 0) by (bit_vector);
    assert(0u8 & CONNECT_END_STREAM_FLAG == 0) by (bit_vector);
    lemma_frame_round_trip(limit, 0, payload, none);
    assert(bytes + none =~= bytes);
    let frames = match result {
        Ok(frames) => frames,
        Err(_) => choose|frames: Seq<ConnectFrame>| #[trigger]
            frames_read(decode_message, limit, bytes, frames, rest),
    };
    assert(behind_frames(limit, bytes, 0) == Some(bytes));
    if frames.len() > 1 {
        lemma_fewer_frames(limit, bytes, 1, frames.len());
    }
    assert(frames.len() == 1);
    assert(frame_at(limit, bytes, 0) == (RawFrame { flags: 0, payload }));
    assert(frame_read(decode_message, frame_at(limit, bytes, 0), Ok(frames[0])));
    assert(frames =~= seq![ConnectFrame::Message(Box::new(message))]);
}

// ---------------------------------------------------------------------------
// The decoder
// ---------------------------------------------------------------------------

/// Reads frames from bytes that arrive in pieces.
pub struct ConnectDecoder {
    buffer: Vec<u8>,
    max_frame_length: usize,
}

impl Default for ConnectDecoder {
    fn default() -> (decoder: Self)
        ensures
            decoder.buffered() == Seq::<u8>::empty(),
            decoder.limit() == DEFAULT_MAX_FRAME_LENGTH,
    {
        ConnectDecoder::new(DEFAULT_MAX_FRAME_LENGTH)
    }
}

impl ConnectDecoder {
    /// The bytes that arrived and were not read yet.
    pub closed spec fn buffered(&self) -> Seq<u8> {
        self.buffer@
    }

    /// The longest payload that is taken.
    pub closed spec fn limit(&self) -> usize {
        self.max_frame_length
    }

    /// A decoder that takes payloads up to the given length.
    pub fn new(max_frame_length: usize) -> (decoder: Self)
        ensures
            decoder.buffered() == Seq::<u8>::empty(),
            decoder.limit() == max_frame_length,
    {
        ConnectDecoder { buffer: Vec::new(), max_frame_length }
    }

    /// Takes bytes and reads the frames that are complete. When a frame cannot be read, it
    /// stays in front of the bytes that were not read, and the frames before it are lost.
    pub fn push<D: Fn(&[u8]) -> Result<StreamCppResponse, String>>(
        &mut self,
        bytes: &[u8],
        decode_message: &D,
    ) -> (r: Result<Vec<ConnectFrame>, ConnectError>)
        requires
            forall|payload: &[u8]| #[trigger] call_requires(*decode_message, (payload,)),
        ensures
            final(self).limit() == old(self).limit(),
            is_reading(
                *decode_message,
                old(self).limit() as int,
                old(self).buffered() + bytes@,
                read_frames(r),
                final(self).buffered(),
            ),
    {
        let ghost limit = self.max_frame_length as int;
        let ghost all = self.buffer@ + bytes@;
        self.buffer.extend_from_slice(bytes);
        assert(self.buffer@ =~= all);
        let mut frames: Vec<ConnectFrame> = Vec::new();
        while self.buffer.len() >= CONNECT_HEADER_LENGTH
            invariant
                self.max_frame_length == limit,
                limit == old(self).limit(),
                all == old(self).buffered() + bytes@,
                forall|payload: &[u8]| #[trigger] call_requires(*decode_message, (payload,)),
                frames_read(*decode_message, limit, all, frames@, self.buffer@),
            ensures
                frame_start(limit, self.buffer@) is Incomplete,
            decreases self.buffer@.len(),
        {
            let flags: u8 = self.buffer[0];
            let length: usize = (self.buffer[1] as u32 * 0x1000000 + self.buffer[2] as u32
                * 0x10000 + self.buffer[3] as u32 * 0x100 + self.buffer[4] as u32) as usize;
            if length > self.max_frame_length {
                return Err(
                    ConnectError::FrameTooLong { length, limit: self.max_frame_length },
                );
            }
            if length > usize::MAX - CONNECT_HEADER_LENGTH {
                return Err(ConnectError::LengthOverflow);
            }
            let total: usize = CONNECT_HEADER_LENGTH + length;
            if self.buffer.len() < total {
                break ;
            }
            if flags & CONNECT_COMPRESSED_FLAG != 0 {
                return Err(ConnectError::Compressed);
            }
            let payload: &[u8] = slice_subrange(
                self.buffer.as_slice(),
                CONNECT_HEADER_LENGTH,
                total,
            );
            let ghost raw = RawFrame { flags, payload: payload@ };
            assert(frame_start(limit, self.buffer@) == FrameStart::Complete(raw));
            let result: Result<ConnectFrame, ConnectError> = read_payload(
                flags,
                payload,
                decode_message,
            );
            let frame: ConnectFrame = match result {
                Ok(frame) => frame,
                Err(error) => {
                    return Err(error);
                },
            };
            let ghost read = frames@;
            let ghost before = self.buffer@;
            frames.push(frame);
            let rest: Vec<u8> = self.buffer.split_off(total);
            self.buffer = rest;
            proof {
                assert(self.buffer@ =~= before.skip(total as int));
                assert((frames@.len() - 1) as nat == read.len());
                assert(frame_at(limit, all, read.len()) == raw);
                assert forall|i: int| 0 <= i < frames@.len() implies frame_read(
                    *decode_message,
                    frame_at(limit, all, i as nat),
                    Ok(#[trigger] frames@[i]),
                ) by {
                    if i < read.len() {
                        assert(frames@[i] == read[i]);
                    }
                }
            }
        }
        Ok(frames)
    }

    /// Ends the stream.
    pub fn finish(self) -> (r: Result<(), ConnectError>)
        ensures
            match r {
                Ok(_) => self.buffered().len() == 0,
                Err(error) => self.buffered().len() > 0 && error is IncompleteFrame,
            },
    {
        if self.buffer.len() == 0 {
            Ok(())
        } else {
            Err(ConnectError::IncompleteFrame)
        }
    }
}

/// Reads the payload of a frame.
fn read_payload<D: Fn(&[u8]) -> Result<StreamCppResponse, String>>(
    flags: u8,
    payload: &[u8],
    decode_message: &D,
) -> (r: Result<ConnectFrame, ConnectError>)
    requires
        forall|bytes: &[u8]| #[trigger] call_requires(*decode_message, (bytes,)),
    ensures
        frame_read(*decode_message, RawFrame { flags, payload: payload@ }, r),
{
    if flags & CONNECT_END_STREAM_FLAG != 0 {
        match parse_json(payload) {
            Ok(document) => Ok(ConnectFrame::EndStream(document)),
            Err(error) => Err(ConnectError::InvalidTrailer(error)),
        }
    } else {
        let message: Result<StreamCppResponse, String> = (*decode_message)(payload);
        assert(call_ensures(*decode_message, (payload,), message));
        assert(message_read(*decode_message, payload@, message));
        match message {
            Ok(message) => Ok(ConnectFrame::Message(Box::new(message))),
            Err(error) => Err(ConnectError::InvalidMessage(error)),
        }
    }
}

// ---------------------------------------------------------------------------
// What a frame looks like
// ---------------------------------------------------------------------------

/// A frame is a byte of flags, the length of the payload with the highest byte first, and the
/// payload. Too great a length is refused as soon as it is announced; an odd byte of flags
/// marks a compressed frame, which is refused once it is complete.
pub proof fn lemma_frame_layout(limit: int, bytes: Seq<u8>)
    requires
        limit + 5 <= usize::MAX,
    ensures
        bytes.len() < 5 ==> frame_start(limit, bytes) is Incomplete,
        bytes.len() >= 5 ==> {
            let length = ((bytes[1] * 256 + bytes[2]) * 256 + bytes[3]) * 256 + bytes[4];
            let start = frame_start(limit, bytes);
            &&& length > limit ==> start == FrameStart::TooLong(length)
            &&& length <= limit && bytes.len() < 5 + length ==> start is Incomplete
            &&& length <= limit && bytes.len() >= 5 + length && bytes[0] % 2 == 1
                ==> start is Compressed
            &&& length <= limit && bytes.len() >= 5 + length && bytes[0] % 2 == 0 ==> start
                == FrameStart::Complete(
                RawFrame { flags: bytes[0], payload: bytes.subrange(5, 5 + length) },
            )
        },
{
    if bytes.len() >= 5 {
        let flags = bytes[0];
        assert(flags & CONNECT_COMPRESSED_FLAG != 0 <==> flags % 2 == 1) by (bit_vector);
    }
}

/// The second lowest bit of the flags tells the document that ends a stream from a message.
pub proof fn lemma_frame_kind<D: Fn(&[u8]) -> Result<StreamCppResponse, String>>(
    decode_message: D,
    raw: RawFrame,
    result: Result<ConnectFrame, ConnectError>,
)
    requires
        frame_read(decode_message, raw, result),
    ensures
        raw.flags / 2 % 2 == 1 ==> match result {
            Ok(ConnectFrame::EndStream(document)) => json_document(raw.payload) == Some(
                json_members(document),
            ),
            Err(ConnectError::InvalidTrailer(_)) => json_document(raw.payload) is None,
            _ => false,
        },
        raw.flags / 2 % 2 == 0 ==> match result {
            Ok(ConnectFrame::Message(message)) => exists|bytes: &[u8]| #[trigger]
                call_ensures(decode_message, (bytes,), Ok(*message)) && bytes@ == raw.payload,
            Err(ConnectError::InvalidMessage(error)) => exists|bytes: &[u8]| #[trigger]
                call_ensures(decode_message, (bytes,), Err(error)) && bytes@ == raw.payload,
            _ => false,
        },
{
    let flags = raw.flags;
    assert(flags & CONNECT_END_STREAM_FLAG != 0 <==> flags / 2 % 2 == 1) by (bit_vector);
    assert(flags / 2 % 2 == 0 || flags / 2 % 2 == 1);
}

/// What is refused at the start of bytes is a frame, and the error says why.
pub proof fn lemma_refusals<D: Fn(&[u8]) -> Result<StreamCppResponse, String>>(
    decode_message: D,
    limit: int,
    bytes: Seq<u8>,
    error: ConnectError,
)
    requires
        limit + 5 <= usize::MAX,
        frame_refused(decode_message, limit, bytes, error),
    ensures
        bytes.len() >= 5,
        ({
            let length = ((bytes[1] * 256 + bytes[2]) * 256 + bytes[3]) * 256 + bytes[4];
            match error {
                ConnectError::FrameTooLong { length: announced, limit: most } => {
                    announced == length && most == limit && length > limit
                },
                ConnectError::Compressed => length <= limit && bytes.len() >= 5 + length && bytes[0]
                    % 2 == 1,
                ConnectError::InvalidTrailer(_) => {
                    &&& length <= limit && bytes.len() >= 5 + length
                    &&& bytes[0] % 2 == 0 && bytes[0] / 2 % 2 == 1
                    &&& json_document(bytes.subrange(5, 5 + length)) is None
                },
                ConnectError::InvalidMessage(_) => {
                    &&& length <= limit && bytes.len() >= 5 + length
                    &&& bytes[0] % 2 == 0 && bytes[0] / 2 % 2 == 0
                },
                _ => false,
            }
        }),
{
    lemma_frame_layout(limit, bytes);
    if let FrameStart::Complete(raw) = frame_start(limit, bytes) {
        lemma_frame_kind(decode_message, raw, Err(error));
        assert(raw.flags / 2 % 2 == 0 || raw.flags / 2 % 2 == 1);
    }
}

} // verus!
