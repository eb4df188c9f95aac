//! Accumulation of a completion stream into edits.

use crate::connect;
use crate::connect::{
    ConnectDecoder, ConnectError, ConnectFrame, DEFAULT_MAX_FRAME_LENGTH,
};
use crate::messages::{CursorPredictionTarget, RangeToReplace, StreamCppResponse};
use crate::text;
use vstd::prelude::*;
use vstd::slice::slice_subrange;

verus! {

/// One edit of a stream.
#[derive(Debug, PartialEq)]
pub struct CursorTabCompletion {
    pub text: String,
    pub range: Option<RangeToReplace>,
    pub suggestion_start_line: Option<i32>,
    pub cursor_prediction_target: Option<CursorPredictionTarget>,
    pub binding_id: Option<String>,
}

/// The edits of a stream and the cursor target that came with them.
#[derive(Debug, PartialEq)]
pub struct CursorTabStream {
    pub is_multidiff_model: bool,
    pub edits: Vec<CursorTabCompletion>,
    pub cursor_prediction_target: Option<CursorPredictionTarget>,
}

impl Default for CursorTabCompletion {
    fn default() -> (completion: Self)
        ensures
            completion.text@ == Seq::<char>::empty(),
            completion.range is None,
            completion.suggestion_start_line is None,
            completion.cursor_prediction_target is None,
            completion.binding_id is None,
    {
        CursorTabCompletion {
            text: String::new(),
            range: None,
            suggestion_start_line: None,
            cursor_prediction_target: None,
            binding_id: None,
        }
    }
}

impl Default for CursorTabStream {
    fn default() -> (stream: Self)
        ensures
            !stream.is_multidiff_model,
            stream.edits@ == Seq::<CursorTabCompletion>::empty(),
            stream.cursor_prediction_target is None,
    {
        CursorTabStream {
            is_multidiff_model: false,
            edits: Vec::new(),
            cursor_prediction_target: None,
        }
    }
}

// ---------------------------------------------------------------------------
// Accumulation
// ---------------------------------------------------------------------------

/// An edit, with its text as characters.
pub struct StreamEdit {
    pub text: Seq<char>,
    pub range: Option<RangeToReplace>,
    pub suggestion_start_line: Option<i32>,
    pub cursor_prediction_target: Option<CursorPredictionTarget>,
    pub binding_id: Option<String>,
}

/// What messages have built up so far.
pub struct Accumulated {
    pub edits: Seq<StreamEdit>,
    pub current: StreamEdit,
    pub current_has_content: bool,
    pub cursor_prediction_target: Option<CursorPredictionTarget>,
    pub remove_leading_eol: bool,
    pub is_multidiff_model: Option<bool>,
}

/// An edit of which nothing is known yet.
pub open spec fn empty_edit() -> StreamEdit {
    StreamEdit {
        text: Seq::empty(),
        range: None,
        suggestion_start_line: None,
        cursor_prediction_target: None,
        binding_id: None,
    }
}

/// Where every stream begins.
pub open spec fn nothing_yet() -> Accumulated {
    Accumulated {
        edits: Seq::empty(),
        current: empty_edit(),
        current_has_content: false,
        cursor_prediction_target: None,
        remove_leading_eol: false,
        is_multidiff_model: None,
    }
}

/// A value, or another one where there is none.
pub open spec fn or_before<T>(now: Option<T>, before: Option<T>) -> Option<T> {
    match now {
        Some(value) => Some(value),
        None => before,
    }
}

/// A text without the line feed at its start.
pub open spec fn without_leading_eol(s: Seq<char>) -> Seq<char> {
    if s.len() > 0 && s[0] == '\n' {
        s.drop_first()
    } else {
        s
    }
}

/// The current edit is closed: an edit with content is added to the edits, without the
/// line feed at its start when that was asked for; one without content is dropped.
pub open spec fn edit_finished(state: Accumulated) -> Accumulated {
    if state.current_has_content {
        let finished = StreamEdit {
            text: if state.remove_leading_eol {
                without_leading_eol(state.current.text)
            } else {
                state.current.text
            },
            ..state.current
        };
        Accumulated {
            edits: state.edits.push(finished),
            current: empty_edit(),
            current_has_content: false,
            remove_leading_eol: false,
            ..state
        }
    } else {
        Accumulated { current: empty_edit(), current_has_content: false, ..state }
    }
}

/// Whether a message closes the current edit. Streams of models that are known not to be
/// multidiff models may send the range of an edit behind its end.
pub open spec fn closes_edit(message: StreamCppResponse, is_multidiff_model: Option<bool>) -> bool {
    message.done_edit == Some(true) && is_multidiff_model != Some(false)
}

/// What one more message makes of what was built up.
pub open spec fn message_applied(state: Accumulated, message: StreamCppResponse) -> Accumulated {
    let is_multidiff_model = match message.model_info {
        Some(model) => Some(model.is_multidiff_model),
        None => state.is_multidiff_model,
    };
    let known = Accumulated { is_multidiff_model, ..state };
    let begun = if message.begin_edit == Some(true) {
        edit_finished(known)
    } else {
        known
    };
    let current_has_content = begun.current_has_content || message.text@.len() > 0
        || message.range_to_replace is Some || message.suggestion_start_line is Some;
    let filled = Accumulated {
        current: StreamEdit {
            text: begun.current.text + message.text@,
            range: or_before(message.range_to_replace, begun.current.range),
            suggestion_start_line: or_before(
                message.suggestion_start_line,
                begun.current.suggestion_start_line,
            ),
            cursor_prediction_target: if current_has_content {
                or_before(
                    message.cursor_prediction_target,
                    begun.current.cursor_prediction_target,
                )
            } else {
                begun.current.cursor_prediction_target
            },
            binding_id: or_before(message.binding_id, begun.current.binding_id),
        },
        current_has_content,
        cursor_prediction_target: or_before(
            message.cursor_prediction_target,
            begun.cursor_prediction_target,
        ),
        remove_leading_eol: begun.remove_leading_eol || message.should_remove_leading_eol == Some(
            true,
        ),
        ..begun
    };
    if closes_edit(message, is_multidiff_model) {
        edit_finished(filled)
    } else {
        filled
    }
}

/// Whether a message is the last one of its stream.
pub open spec fn ends_stream(message: StreamCppResponse) -> bool {
    message.done_stream == Some(true)
}

/// What the frames from the `i`-th on make of what was built up, or the error that the
/// service reports in them.
pub open spec fn frames_applied(
    state: Accumulated,
    frames: Seq<ConnectFrame>,
    i: int,
) -> Result<Accumulated, Seq<char>>
    decreases frames.len() - i,
{
    if i < 0 || i >= frames.len() {
        Ok(state)
    } else {
        match frames[i] {
            ConnectFrame::Message(message) => {
                let next = message_applied(state, *message);
                if ends_stream(*message) {
                    Ok(next)
                } else {
                    frames_applied(next, frames, i + 1)
                }
            },
            ConnectFrame::EndStream(trailer) => {
                if connect::json_members(trailer).contains_key("error"@) {
                    Err(connect::json_members(trailer)["error"@])
                } else {
                    frames_applied(state, frames, i + 1)
                }
            },
        }
    }
}

/// What follows the message that ends a stream does not matter.
pub proof fn lemma_end_of_stream(state: Accumulated, frames: Seq<ConnectFrame>, i: int, end: int)
    requires
        0 <= i <= end < frames.len(),
        match frames[end] {
            ConnectFrame::Message(message) => ends_stream(*message),
            ConnectFrame::EndStream(_) => false,
        },
    ensures
        frames_applied(state, frames, i) == frames_applied(state, frames.take(end + 1), i),
    decreases end - i,
{
    let kept = frames.take(end + 1);
    assert(kept[i] == frames[i]);
    if i < end {
        match frames[i] {
            ConnectFrame::Message(message) => {
                lemma_end_of_stream(message_applied(state, *message), frames, i + 1, end);
            },
            ConnectFrame::EndStream(_) => {
                lemma_end_of_stream(state, frames, i + 1, end);
            },
        }
    }
}

impl View for CursorTabCompletion {
    type V = StreamEdit;

    open spec fn view(&self) -> StreamEdit {
        StreamEdit {
            text: self.text@,
            range: self.range,
            suggestion_start_line: self.suggestion_start_line,
            cursor_prediction_target: self.cursor_prediction_target,
            binding_id: self.binding_id,
        }
    }
}

/// The edits that completions stand for.
pub open spec fn stream_edits(edits: Seq<CursorTabCompletion>) -> Seq<StreamEdit> {
    Seq::new(edits.len(), |i: int| edits[i]@)
}

/// Whether a stream is what was built up once its last edit is closed.
pub open spec fn is_stream_of(stream: CursorTabStream, state: Accumulated) -> bool {
    let finished = edit_finished(state);
    &&& stream.is_multidiff_model == (finished.is_multidiff_model == Some(true))
    &&& stream_edits(stream.edits@) == finished.edits
    &&& stream.cursor_prediction_target == finished.cursor_prediction_target
}

/// Builds a stream up from its messages.
pub struct StreamAccumulator {
    pub edits: Vec<CursorTabCompletion>,
    pub current: CursorTabCompletion,
    pub current_has_content: bool,
    pub cursor_prediction_target: Option<CursorPredictionTarget>,
    pub remove_leading_eol: bool,
    pub is_multidiff_model: Option<bool>,
}

impl View for StreamAccumulator {
    type V = Accumulated;

    open spec fn view(&self) -> Accumulated {
        Accumulated {
            edits: stream_edits(self.edits@),
            current: self.current@,
            current_has_content: self.current_has_content,
            cursor_prediction_target: self.cursor_prediction_target,
            remove_leading_eol: self.remove_leading_eol,
            is_multidiff_model: self.is_multidiff_model,
        }
    }
}

impl StreamAccumulator {
    /// Where every stream begins.
    pub fn new() -> (accumulator: Self)
        ensures
            accumulator@ == nothing_yet(),
    {
        let accumulator = StreamAccumulator {
            edits: Vec::new(),
            current: CursorTabCompletion::default(),
            current_has_content: false,
            cursor_prediction_target: None,
            remove_leading_eol: false,
            is_multidiff_model: None,
        };
        assert(accumulator@.edits =~= nothing_yet().edits);
        accumulator
    }

    /// Takes one message, and says whether it was the last one.
    pub fn apply(&mut self, message: StreamCppResponse) -> (done: bool)
        ensures
            final(self)@ == message_applied(old(self)@, message),
            done == ends_stream(message),
    {
        if let Some(model) = message.model_info {
            self.is_multidiff_model = Some(model.is_multidiff_model);
        }
        if let Some(true) = message.begin_edit {
            self.finish_current();
        }
        if let Some(true) = message.should_remove_leading_eol {
            self.remove_leading_eol = true;
        }
        if !message.text.as_str().is_empty() {
            self.current.text.append(message.text.as_str());
            self.current_has_content = true;
        }
        proof {
            if message.text@.len() == 0 {
                assert(self.current.text@ + message.text@ =~= self.current.text@);
            }
        }
        if let Some(range) = message.range_to_replace {
            self.current.range = Some(range);
            self.current_has_content = true;
        }
        if let Some(start_line) = message.suggestion_start_line {
            self.current.suggestion_start_line = Some(start_line);
            self.current_has_content = true;
        }
        if let Some(target) = message.cursor_prediction_target {
            if self.current_has_content {
                self.current.cursor_prediction_target = Some(target.clone());
            }
            self.cursor_prediction_target = Some(target);
        }
        if let Some(binding_id) = message.binding_id {
            self.current.binding_id = Some(binding_id);
        }
        if let Some(true) = message.done_edit {
            let known_plain: bool = match self.is_multidiff_model {
                Some(multidiff) => !multidiff,
                None => false,
            };
            if !known_plain {
                self.finish_current();
            }
        }
        match message.done_stream {
            Some(done) => done,
            None => false,
        }
    }

    /// Closes the current edit.
    pub fn finish_current(&mut self)
        ensures
            final(self)@ == edit_finished(old(self)@),
    {
        let ghost before = self@;
        let mut current: CursorTabCompletion = CursorTabCompletion::default();
        std::mem::swap(&mut self.current, &mut current);
        if self.current_has_content {
            if self.remove_leading_eol {
                let chars: Vec<char> = text::chars_of(current.text.as_str());
                if chars.len() > 0 && chars[0] == '\n' {
                    assert(chars@.subrange(1, chars@.len() as int) =~= chars@.drop_first());
                    current.text = text::string_of(
                        slice_subrange(chars.as_slice(), 1, chars.len()),
                    );
                }
            }
            self.remove_leading_eol = false;
            let ghost finished = current@;
            self.edits.push(current);
            assert(stream_edits(self.edits@) =~= before.edits.push(finished));
        }
        self.current_has_content = false;
    }

    /// Ends the stream.
    pub fn finish(self) -> (stream: CursorTabStream)
        ensures
            is_stream_of(stream, self@),
    {
        let mut accumulator = self;
        accumulator.finish_current();
        CursorTabStream {
            is_multidiff_model: match accumulator.is_multidiff_model {
                Some(multidiff) => multidiff,
                None => false,
            },
            edits: accumulator.edits,
            cursor_prediction_target: accumulator.cursor_prediction_target,
        }
    }
}

/// The error that the service reports at the end of a stream, as compact JSON.
#[derive(Debug, PartialEq, Eq)]
pub struct StreamError {
    pub error: String,
}

/// Builds a stream up from its frames. What follows the message that ends the stream is
/// not looked at.
pub fn accumulate_stream_frames(frames: Vec<ConnectFrame>) -> (r: Result<
    CursorTabStream,
    StreamError,
>)
    ensures
        match r {
            Ok(stream) => {
                &&& frames_applied(nothing_yet(), frames@, 0) is Ok
                &&& is_stream_of(stream, frames_applied(nothing_yet(), frames@, 0)->Ok_0)
            },
            Err(error) => frames_applied(nothing_yet(), frames@, 0) == Err::<
                Accumulated,
                Seq<char>,
            >(error.error@),
        },
{
    let ghost all = frames@;
    let mut accumulator: StreamAccumulator = StreamAccumulator::new();
    for frame in iter: frames
        invariant
            iter.seq() == all,
            frames_applied(nothing_yet(), all, 0) == frames_applied(
                accumulator@,
                all,
                iter.index() as int,
            ),
    {
        match frame {
            ConnectFrame::Message(message) => {
                if accumulator.apply(*message) {
                    return Ok(accumulator.finish());
                }
            },
            ConnectFrame::EndStream(trailer) => {
                if let Some(error) = connect::json_member(&trailer, "error") {
                    return Err(StreamError { error });
                }
            },
        }
    }
    Ok(accumulator.finish())
}

// ---------------------------------------------------------------------------
// The body of a response
// ---------------------------------------------------------------------------

/// Why the body of a response is not a stream.
#[derive(Debug)]
pub enum ResponseError {
    /// A frame cannot be read.
    Connect(ConnectError),
    /// The service reports an error.
    Stream(StreamError),
}

/// Whether the body of a response begins with the given frames, with the given rest behind
/// them.
pub open spec fn body_frames<D: Fn(&[u8]) -> Result<StreamCppResponse, String>>(
    decode_message: D,
    body: Seq<u8>,
    frames: Seq<ConnectFrame>,
    rest: Seq<u8>,
) -> bool {
    connect::frames_read(decode_message, DEFAULT_MAX_FRAME_LENGTH as int, body, frames, rest)
}

/// Whether a result is that of reading the body of a response as a stream: all of it must
/// be frames, and the frames must not report an error.
pub open spec fn is_response<D: Fn(&[u8]) -> Result<StreamCppResponse, String>>(
    decode_message: D,
    body: Seq<u8>,
    result: Result<CursorTabStream, ResponseError>,
) -> bool {
    exists|frames: Seq<ConnectFrame>, rest: Seq<u8>|
        {
            &&& #[trigger] body_frames(decode_message, body, frames, rest)
            &&& match result {
                Ok(stream) => {
                    &&& rest.len() == 0
                    &&& frames_applied(nothing_yet(), frames, 0) is Ok
                    &&& is_stream_of(stream, frames_applied(nothing_yet(), frames, 0)->Ok_0)
                },
                Err(ResponseError::Connect(ConnectError::IncompleteFrame)) => {
                    &&& rest.len() > 0
                    &&& connect::frame_start(
                        DEFAULT_MAX_FRAME_LENGTH as int,
                        rest,
                    ) is Incomplete
                },
                Err(ResponseError::Connect(error)) => connect::frame_refused(
                    decode_message,
                    DEFAULT_MAX_FRAME_LENGTH as int,
                    rest,
                    error,
                ),
                Err(ResponseError::Stream(error)) => {
                    &&& rest.len() == 0
                    &&& frames_applied(nothing_yet(), frames, 0) == Err::<Accumulated, Seq<char>>(
                        error.error@,
                    )
                },
            }
        }
}

/// Reads the body of a response as a stream.
pub fn stream_from_body<D: Fn(&[u8]) -> Result<StreamCppResponse, String>>(
    body: &[u8],
    decode_message: &D,
) -> (r: Result<CursorTabStream, ResponseError>)
    requires
        forall|payload: &[u8]| #[trigger] call_requires(*decode_message, (payload,)),
    ensures
        is_response(*decode_message, body@, r),
{
    let mut decoder: ConnectDecoder = ConnectDecoder::default();
    assert(decoder.buffered() + body@ =~= body@);
    let frames: Vec<ConnectFrame> = match decoder.push(body, decode_message) {
        Ok(frames) => frames,
        Err(error) => {
            let ghost rest = decoder.buffered();
            proof {
                let read = choose|read: Seq<ConnectFrame>| #[trigger]
                    connect::frames_read(
                        *decode_message,
                        DEFAULT_MAX_FRAME_LENGTH as int,
                        body@,
                        read,
                        rest,
                    );
                assert(body_frames(*decode_message, body@, read, rest));
            }
            return Err(ResponseError::Connect(error));
        },
    };
    let ghost read = frames@;
    let ghost rest = decoder.buffered();
    assert(body_frames(*decode_message, body@, read, rest));
    if let Err(error) = decoder.finish() {
        return Err(ResponseError::Connect(error));
    }
    match accumulate_stream_frames(frames) {
        Ok(stream) => Ok(stream),
        Err(error) => Err(ResponseError::Stream(error)),
    }
}

// ---------------------------------------------------------------------------
// What a stream does with its messages
// ---------------------------------------------------------------------------

/// A message that begins an edit closes the edit before it: one with content is added to the
/// edits as it stands, but for a line feed at its start that was to be removed. What the
/// message carries goes into an edit of its own.
pub proof fn lemma_begin_edit(state: Accumulated, message: StreamCppResponse)
    requires
        message.begin_edit == Some(true),
    ensures
        ({
            let after = message_applied(state, message);
            let n = state.edits.len() as int;
            let own = if state.current_has_content {
                n + 1
            } else {
                n
            };
            &&& own <= after.edits.len() <= own + 1
            &&& after.edits.take(n) == state.edits
            &&& state.current_has_content ==> {
                let closed = after.edits[n];
                let given = state.current.text;
                &&& closed.text == if state.remove_leading_eol && given.len() > 0 && given[0]
                    == '\n' {
                    given.skip(1)
                } else {
                    given
                }
                &&& closed.range == state.current.range
                &&& closed.suggestion_start_line == state.current.suggestion_start_line
                &&& closed.cursor_prediction_target == state.current.cursor_prediction_target
                &&& closed.binding_id == state.current.binding_id
            }
            &&& after.edits.len() == own ==> {
                &&& after.current.text == message.text@
                &&& after.current.range == message.range_to_replace
                &&& after.current.suggestion_start_line == message.suggestion_start_line
                &&& after.current.binding_id == message.binding_id || !after.current_has_content
                &&& after.current_has_content ==> after.current.cursor_prediction_target
                    == message.cursor_prediction_target
                &&& !after.current_has_content ==> after.current.cursor_prediction_target is None
            }
            &&& after.edits.len() == own + 1 ==> {
                let fresh = after.edits[own];
                let removes = message.should_remove_leading_eol == Some(true) || (
                state.remove_leading_eol && !state.current_has_content);
                &&& fresh.text == if removes && message.text@.len() > 0 && message.text@[0]
                    == '\n' {
                    message.text@.skip(1)
                } else {
                    message.text@
                }
                &&& fresh.range == message.range_to_replace
                &&& fresh.suggestion_start_line == message.suggestion_start_line
                &&& fresh.cursor_prediction_target == message.cursor_prediction_target
                &&& fresh.binding_id == message.binding_id
                &&& after.current.text.len() == 0
                &&& !after.current_has_content
            }
        }),
{
    let after = message_applied(state, message);
    assert(Seq::<char>::empty() + message.text@ =~= message.text@);
    assert(after.edits.take(state.edits.len() as int) =~= state.edits);
    assert(state.current.text.drop_first() =~= state.current.text.skip(1));
    assert(message.text@.drop_first() =~= message.text@.skip(1));
}

/// Without a message that begins an edit, an edit stays open until a message says that it is
/// done, and, when the model is known not to be a multidiff model, beyond that: its range may
/// follow. Until then text is appended, and a range or a start line replaces the one before.
pub proof fn lemma_edit_stays_open(state: Accumulated, message: StreamCppResponse)
    requires
        message.begin_edit != Some(true),
        message.done_edit != Some(true) || match message.model_info {
            Some(model) => !model.is_multidiff_model,
            None => state.is_multidiff_model == Some(false),
        },
    ensures
        ({
            let after = message_applied(state, message);
            &&& after.edits == state.edits
            &&& after.current.text == state.current.text + message.text@
            &&& after.current.range == if message.range_to_replace is Some {
                message.range_to_replace
            } else {
                state.current.range
            }
            &&& after.current.suggestion_start_line == if message.suggestion_start_line is Some {
                message.suggestion_start_line
            } else {
                state.current.suggestion_start_line
            }
            &&& after.current.binding_id == if message.binding_id is Some {
                message.binding_id
            } else {
                state.current.binding_id
            }
            &&& after.current_has_content == (state.current_has_content || message.text@.len() > 0
                || message.range_to_replace is Some || message.suggestion_start_line is Some)
            &&& after.current.cursor_prediction_target == if message.cursor_prediction_target is Some
                && after.current_has_content {
                message.cursor_prediction_target
            } else {
                state.current.cursor_prediction_target
            }
            &&& after.remove_leading_eol == (state.remove_leading_eol
                || message.should_remove_leading_eol == Some(true))
        }),
{
}

/// A message that says that its edit is done closes it, unless the model is known not to be
/// a multidiff model. An edit with content is added to the edits; the next one is empty.
pub proof fn lemma_done_edit(state: Accumulated, message: StreamCppResponse)
    requires
        message.begin_edit != Some(true),
        message.done_edit == Some(true),
        match message.model_info {
            Some(model) => model.is_multidiff_model,
            None => state.is_multidiff_model != Some(false),
        },
    ensures
        ({
            let after = message_applied(state, message);
            let n = state.edits.len() as int;
            let has_content = state.current_has_content || message.text@.len() > 0
                || message.range_to_replace is Some || message.suggestion_start_line is Some;
            &&& after.edits.len() == if has_content {
                n + 1
            } else {
                n
            }
            &&& after.edits.take(n) == state.edits
            &&& has_content ==> {
                let whole = state.current.text + message.text@;
                let closed = after.edits[n];
                &&& closed.text == if (state.remove_leading_eol
                    || message.should_remove_leading_eol == Some(true)) && whole.len() > 0
                    && whole[0] == '\n' {
                    whole.skip(1)
                } else {
                    whole
                }
                &&& message.range_to_replace is Some ==> closed.range == message.range_to_replace
                &&& message.range_to_replace is None ==> closed.range == state.current.range
            }
            &&& after.remove_leading_eol ==> !has_content
            &&& !has_content ==> after.remove_leading_eol == (state.remove_leading_eol
                || message.should_remove_leading_eol == Some(true))
            &&& !after.current_has_content
            &&& after.current.text.len() == 0
            &&& after.current.range is None
            &&& after.current.suggestion_start_line is None
            &&& after.current.cursor_prediction_target is None
            &&& after.current.binding_id is None
        }),
{
    let after = message_applied(state, message);
    let whole = state.current.text + message.text@;
    assert(after.edits.take(state.edits.len() as int) =~= state.edits);
    assert(whole.drop_first() =~= whole.skip(1));
}

/// What a message says of the model, of the cursor's target and of a line feed to be removed
/// holds from then on. A target belongs to the edit that it comes with, if that has content.
pub proof fn lemma_message_kept(state: Accumulated, message: StreamCppResponse)
    ensures
        ({
            let after = message_applied(state, message);
            &&& match message.model_info {
                Some(model) => after.is_multidiff_model == Some(model.is_multidiff_model),
                None => after.is_multidiff_model == state.is_multidiff_model,
            }
            &&& match message.cursor_prediction_target {
                Some(target) => {
                    &&& after.cursor_prediction_target == Some(target)
                    &&& after.current_has_content ==> after.current.cursor_prediction_target
                        == Some(target)
                },
                None => after.cursor_prediction_target == state.cursor_prediction_target,
            }
            &&& after.current_has_content && message.should_remove_leading_eol == Some(true)
                ==> after.remove_leading_eol
            &&& after.remove_leading_eol ==> state.remove_leading_eol
                || message.should_remove_leading_eol == Some(true)
            &&& state.remove_leading_eol ==> after.remove_leading_eol || after.edits.len()
                > state.edits.len()
        }),
{
}

/// The texts of edits, one behind the other.
pub open spec fn all_text(edits: Seq<StreamEdit>) -> Seq<char>
    decreases edits.len(),
{
    if edits.len() == 0 {
        Seq::empty()
    } else {
        all_text(edits.drop_last()) + edits.last().text
    }
}

/// No text is lost, doubled or moved: where no line feed is to be removed, the texts of all
/// edits, the open one included, are those from before and the message's behind them.
pub proof fn lemma_no_text_lost(state: Accumulated, message: StreamCppResponse)
    requires
        !state.remove_leading_eol,
        message.should_remove_leading_eol != Some(true),
        state.current_has_content || state.current.text.len() == 0,
    ensures
        ({
            let after = message_applied(state, message);
            &&& all_text(after.edits) + after.current.text == all_text(state.edits)
                + state.current.text + message.text@
            &&& !after.remove_leading_eol
            &&& after.current_has_content || after.current.text.len() == 0
        }),
{
    let begun = if message.begin_edit == Some(true) {
        lemma_finished_text(state);
        edit_finished(state)
    } else {
        state
    };
    let filled = message_applied(
        state,
        StreamCppResponse { done_edit: None, ..message },
    );
    assert(all_text(begun.edits) + begun.current.text =~= all_text(state.edits)
        + state.current.text);
    assert(filled.current.text == begun.current.text + message.text@);
    assert(all_text(filled.edits) + filled.current.text =~= all_text(state.edits)
        + state.current.text + message.text@);
    lemma_finished_text(filled);
}

proof fn lemma_finished_text(state: Accumulated)
    requires
        !state.remove_leading_eol,
        state.current_has_content || state.current.text.len() == 0,
    ensures
        all_text(edit_finished(state).edits) == all_text(state.edits) + state.current.text,
        edit_finished(state).current.text.len() == 0,
{
    let finished = edit_finished(state);
    if state.current_has_content {
        assert(finished.edits.drop_last() =~= state.edits);
    } else {
        assert(all_text(state.edits) + state.current.text =~= all_text(state.edits));
    }
}

/// Whether a frame is a message that begins an edit and gives it a text or a range.
pub open spec fn has_own_edit(frame: ConnectFrame) -> bool {
    match frame {
        ConnectFrame::Message(message) => {
            &&& message.begin_edit == Some(true)
            &&& message.text@.len() > 0 || message.range_to_replace is Some
            &&& message.should_remove_leading_eol != Some(true)
        },
        ConnectFrame::EndStream(_) => false,
    }
}

/// Whether an edit has the text, the range and the start line of a message.
pub open spec fn carries(edit: StreamEdit, frame: ConnectFrame) -> bool {
    match frame {
        ConnectFrame::Message(message) => {
            &&& edit.text == message.text@
            &&& edit.range == message.range_to_replace
            &&& edit.suggestion_start_line == message.suggestion_start_line
        },
        ConnectFrame::EndStream(_) => false,
    }
}

/// Messages that each begin an edit give as many edits, each with the text, the range and
/// the start line of its message, in the order of the messages.
pub proof fn lemma_one_edit_for_each(frames: Seq<ConnectFrame>, stream: CursorTabStream)
    requires
        forall|i: int| 0 <= i < frames.len() ==> has_own_edit(#[trigger] frames[i]),
        forall|i: int|
            0 <= i < frames.len() - 1 ==> match #[trigger] frames[i] {
                ConnectFrame::Message(message) => message.done_stream != Some(true),
                ConnectFrame::EndStream(_) => true,
            },
        frames_applied(nothing_yet(), frames, 0) is Ok ==> is_stream_of(
            stream,
            frames_applied(nothing_yet(), frames, 0)->Ok_0,
        ),
    ensures
        frames_applied(nothing_yet(), frames, 0) is Ok,
        stream.edits@.len() == frames.len(),
        forall|i: int|
            0 <= i < frames.len() ==> carries((#[trigger] stream.edits@[i])@, frames[i]),
{
    lemma_own_edits(nothing_yet(), frames, 0);
    assert forall|i: int| 0 <= i < frames.len() implies carries(
        (#[trigger] stream.edits@[i])@,
        frames[i],
    ) by {
        assert(stream_edits(stream.edits@)[i] == stream.edits@[i]@);
    }
}

proof fn lemma_own_edits(state: Accumulated, frames: Seq<ConnectFrame>, i: int)
    requires
        0 <= i <= frames.len(),
        forall|j: int| 0 <= j < frames.len() ==> has_own_edit(#[trigger] frames[j]),
        forall|j: int|
            0 <= j < frames.len() - 1 ==> match #[trigger] frames[j] {
                ConnectFrame::Message(message) => message.done_stream != Some(true),
                ConnectFrame::EndStream(_) => true,
            },
        !state.remove_leading_eol,
        edit_finished(state).edits.len() == i,
        forall|j: int|
            0 <= j < i ==> carries(#[trigger] edit_finished(state).edits[j], frames[j]),
    ensures
        frames_applied(state, frames, i) is Ok,
        ({
            let finished = edit_finished(frames_applied(state, frames, i)->Ok_0);
            &&& finished.edits.len() == frames.len()
            &&& forall|j: int|
                0 <= j < frames.len() ==> carries(#[trigger] finished.edits[j], frames[j])
        }),
    decreases frames.len() - i,
{
    if i < frames.len() {
        assert(has_own_edit(frames[i]));
        match frames[i] {
            ConnectFrame::Message(message) => {
                let after = message_applied(state, *message);
                assert(Seq::<char>::empty() + message.text@ =~= message.text@);
                let before = edit_finished(state).edits;
                let now = edit_finished(after).edits;
                assert(now.len() == i + 1);
                assert(now.take(i) =~= before);
                assert forall|j: int| 0 <= j < i + 1 implies carries(
                    #[trigger] now[j],
                    frames[j],
                ) by {
                    if j < i {
                        assert(now[j] == now.take(i)[j]);
                        assert(carries(before[j], frames[j]));
                    }
                }
                if i + 1 < frames.len() {
                    assert(i < frames.len() - 1);
                }
                if message.done_stream != Some(true) {
                    lemma_own_edits(after, frames, i + 1);
                }
            },
            ConnectFrame::EndStream(_) => {},
        }
    }
}

/// A message goes on to the next frame unless it says that the stream is done; then nothing
/// behind it counts.
pub proof fn lemma_frame_by_frame(state: Accumulated, frames: Seq<ConnectFrame>, i: int)
    requires
        0 <= i < frames.len(),
    ensures
        match frames[i] {
            ConnectFrame::Message(message) => {
                let next = message_applied(state, *message);
                if message.done_stream == Some(true) {
                    frames_applied(state, frames, i) == Ok::<Accumulated, Seq<char>>(next)
                } else {
                    frames_applied(state, frames, i) == frames_applied(next, frames, i + 1)
                }
            },
            ConnectFrame::EndStream(trailer) => {
                if connect::json_members(trailer).contains_key("error"@) {
                    frames_applied(state, frames, i) == Err::<Accumulated, Seq<char>>(
                        connect::json_members(trailer)["error"@],
                    )
                } else {
                    frames_applied(state, frames, i) == frames_applied(state, frames, i + 1)
                }
            },
        },
{
}

/// A stream is that of a multidiff model exactly when the last message that speaks of the
/// model says so.
pub proof fn lemma_stream_ends(stream: CursorTabStream, state: Accumulated)
    requires
        is_stream_of(stream, state),
    ensures
        stream.is_multidiff_model <==> state.is_multidiff_model == Some(true),
        stream.cursor_prediction_target == state.cursor_prediction_target,
        stream.edits@.len() == state.edits.len() + if state.current_has_content {
            1int
        } else {
            0int
        },
        forall|i: int|
            0 <= i < state.edits.len() ==> (#[trigger] stream.edits@[i])@ == state.edits[i],
        state.current_has_content ==> {
            let last = stream.edits@.last()@;
            let given = state.current.text;
            &&& last.text == if state.remove_leading_eol && given.len() > 0 && given[0] == '\n' {
                given.skip(1)
            } else {
                given
            }
            &&& last.range == state.current.range
            &&& last.suggestion_start_line == state.current.suggestion_start_line
            &&& last.cursor_prediction_target == state.current.cursor_prediction_target
            &&& last.binding_id == state.current.binding_id
        },
{
    assert(state.current.text.drop_first() =~= state.current.text.skip(1));
    let finished = edit_finished(state).edits;
    assert(stream_edits(stream.edits@).len() == stream.edits@.len());
    assert forall|i: int| 0 <= i < stream.edits@.len() implies (#[trigger] stream.edits@[i])@
        == finished[i] by {
        assert(stream_edits(stream.edits@)[i] == stream.edits@[i]@);
    }
}

proof fn lemma_same_applied(
    state: Accumulated,
    a: Seq<ConnectFrame>,
    b: Seq<ConnectFrame>,
    i: int,
)
    requires
        connect::same_frames(a, b),
        0 <= i,
    ensures
        frames_applied(state, a, i) == frames_applied(state, b, i),
    decreases a.len() - i,
{
    if i < a.len() {
        assert(connect::same_frame(a[i], b[i]));
        match a[i] {
            ConnectFrame::Message(message) => {
                lemma_same_applied(message_applied(state, *message), a, b, i + 1);
            },
            ConnectFrame::EndStream(_) => {
                lemma_same_applied(state, a, b, i + 1);
            },
        }
    }
}

/// A response is the stream of the frames that its bytes hold. Bytes that end within a frame,
/// or that hold a frame that cannot be read, give no stream, whatever came before.
pub proof fn lemma_response<D: Fn(&[u8]) -> Result<StreamCppResponse, String>>(
    decode_message: D,
    body: Seq<u8>,
    reading: Result<Seq<ConnectFrame>, ConnectError>,
    rest: Seq<u8>,
    result: Result<CursorTabStream, ResponseError>,
)
    requires
        connect::consistent(decode_message),
        connect::is_reading(decode_message, 8_388_608, body, reading, rest),
        is_response(decode_message, body, result),
    ensures
        match reading {
            Err(_) => match result {
                Err(ResponseError::Connect(error)) => error != ConnectError::IncompleteFrame,
                _ => false,
            },
            Ok(frames) => if rest.len() > 0 {
                result == Err::<CursorTabStream, ResponseError>(
                    ResponseError::Connect(ConnectError::IncompleteFrame),
                )
            } else {
                match (frames_applied(nothing_yet(), frames, 0), result) {
                    (Ok(state), Ok(stream)) => is_stream_of(stream, state),
                    (Err(text), Err(ResponseError::Stream(error))) => error.error@ == text,
                    _ => false,
                }
            },
        },
{
    let (frames, left) = choose|frames: Seq<ConnectFrame>, left: Seq<u8>|
        {
            &&& #[trigger] body_frames(decode_message, body, frames, left)
            &&& match result {
                Ok(stream) => {
                    &&& left.len() == 0
                    &&& frames_applied(nothing_yet(), frames, 0) is Ok
                    &&& is_stream_of(stream, frames_applied(nothing_yet(), frames, 0)->Ok_0)
                },
                Err(ResponseError::Connect(ConnectError::IncompleteFrame)) => {
                    &&& left.len() > 0
                    &&& connect::frame_start(
                        DEFAULT_MAX_FRAME_LENGTH as int,
                        left,
                    ) is Incomplete
                },
                Err(ResponseError::Connect(error)) => connect::frame_refused(
                    decode_message,
                    DEFAULT_MAX_FRAME_LENGTH as int,
                    left,
                    error,
                ),
                Err(ResponseError::Stream(error)) => {
                    &&& left.len() == 0
                    &&& frames_applied(nothing_yet(), frames, 0) == Err::<Accumulated, Seq<char>>(
                        error.error@,
                    )
                },
            }
        };
    let other: Result<Seq<ConnectFrame>, ConnectError> = match result {
        Err(ResponseError::Connect(error)) => if error == ConnectError::IncompleteFrame {
            Ok(frames)
        } else {
            Err(error)
        },
        _ => Ok(frames),
    };
    assert(connect::is_reading(decode_message, 8_388_608, body, other, left));
    connect::lemma_reading_settled(
        decode_message,
        8_388_608,
        body,
        reading,
        rest,
        other,
        left,
    );
    if let Ok(read) = reading {
        lemma_same_applied(nothing_yet(), read, frames, 0);
    }
}

} // verus!
