use cursor_tab::connect::{
    encode_connect_message, ConnectDecoder, ConnectError, ConnectFrame, CONNECT_COMPRESSED_FLAG,
    CONNECT_END_STREAM_FLAG, CONNECT_HEADER_LENGTH, DEFAULT_MAX_FRAME_LENGTH,
};
use cursor_tab::messages::{CursorPredictionTarget, RangeToReplace, StreamCppResponse};
use cursor_tab::stream::{stream_from_body, ResponseError};
use prost::bytes::{Buf, BufMut};
use prost::encoding::{
    bool as wire_bool, int32, message, skip_field, string, DecodeContext, WireType,
};
use prost::{DecodeError, Message};

#[derive(Debug, Default)]
struct RangeWire(RangeToReplace);

impl Message for RangeWire {
    fn encode_raw<B: BufMut>(&self, buf: &mut B) {
        for (tag, value) in [
            (1, self.0.start_line),
            (2, self.0.end_line),
            (3, self.0.start_column),
            (4, self.0.end_column),
        ] {
            if value != 0 {
                int32::encode(tag, &value, buf);
            }
        }
    }

    fn merge_field<B: Buf>(
        &mut self,
        tag: u32,
        wire_type: WireType,
        buf: &mut B,
        ctx: DecodeContext,
    ) -> Result<(), DecodeError> {
        match tag {
            1 => int32::merge(wire_type, &mut self.0.start_line, buf, ctx),
            2 => int32::merge(wire_type, &mut self.0.end_line, buf, ctx),
            3 => int32::merge(wire_type, &mut self.0.start_column, buf, ctx),
            4 => int32::merge(wire_type, &mut self.0.end_column, buf, ctx),
            _ => skip_field(wire_type, tag, buf, ctx),
        }
    }

    fn encoded_len(&self) -> usize {
        let mut buf = Vec::new();
        self.encode_raw(&mut buf);
        buf.len()
    }

    fn clear(&mut self) {
        *self = Self::default();
    }
}

#[derive(Debug, Default)]
struct TargetWire(CursorPredictionTarget);

impl Message for TargetWire {
    fn encode_raw<B: BufMut>(&self, buf: &mut B) {
        if !self.0.relative_path.is_empty() {
            string::encode(1, &self.0.relative_path, buf);
        }
        if self.0.line_number_one_indexed != 0 {
            int32::encode(2, &self.0.line_number_one_indexed, buf);
        }
        if !self.0.expected_content.is_empty() {
            string::encode(3, &self.0.expected_content, buf);
        }
        if self.0.should_retrigger_cpp {
            wire_bool::encode(4, &self.0.should_retrigger_cpp, buf);
        }
    }

    fn merge_field<B: Buf>(
        &mut self,
        tag: u32,
        wire_type: WireType,
        buf: &mut B,
        ctx: DecodeContext,
    ) -> Result<(), DecodeError> {
        match tag {
            1 => string::merge(wire_type, &mut self.0.relative_path, buf, ctx),
            2 => int32::merge(wire_type, &mut self.0.line_number_one_indexed, buf, ctx),
            3 => string::merge(wire_type, &mut self.0.expected_content, buf, ctx),
            4 => wire_bool::merge(wire_type, &mut self.0.should_retrigger_cpp, buf, ctx),
            _ => skip_field(wire_type, tag, buf, ctx),
        }
    }

    fn encoded_len(&self) -> usize {
        let mut buf = Vec::new();
        self.encode_raw(&mut buf);
        buf.len()
    }

    fn clear(&mut self) {
        *self = Self::default();
    }
}

#[derive(Debug, Default)]
struct ResponseWire(StreamCppResponse);

impl Message for ResponseWire {
    fn encode_raw<B: BufMut>(&self, buf: &mut B) {
        if !self.0.text.is_empty() {
            string::encode(1, &self.0.text, buf);
        }
        if let Some(done) = &self.0.done_stream {
            wire_bool::encode(4, done, buf);
        }
        if let Some(range) = self.0.range_to_replace {
            message::encode(11, &RangeWire(range), buf);
        }
        if let Some(target) = &self.0.cursor_prediction_target {
            message::encode(12, &TargetWire(target.clone()), buf);
        }
        if let Some(done) = &self.0.done_edit {
            wire_bool::encode(13, done, buf);
        }
        if let Some(begin) = &self.0.begin_edit {
            wire_bool::encode(15, begin, buf);
        }
    }

    fn merge_field<B: Buf>(
        &mut self,
        tag: u32,
        wire_type: WireType,
        buf: &mut B,
        ctx: DecodeContext,
    ) -> Result<(), DecodeError> {
        let flag = match tag {
            1 => return string::merge(wire_type, &mut self.0.text, buf, ctx),
            4 => &mut self.0.done_stream,
            11 => {
                let mut range = RangeWire::default();
                message::merge(wire_type, &mut range, buf, ctx)?;
                self.0.range_to_replace = Some(range.0);
                return Ok(());
            }
            12 => {
                let mut target = TargetWire::default();
                message::merge(wire_type, &mut target, buf, ctx)?;
                self.0.cursor_prediction_target = Some(target.0);
                return Ok(());
            }
            13 => &mut self.0.done_edit,
            15 => &mut self.0.begin_edit,
            _ => return skip_field(wire_type, tag, buf, ctx),
        };
        wire_bool::merge(wire_type, flag.get_or_insert(false), buf, ctx)
    }

    fn encoded_len(&self) -> usize {
        let mut buf = Vec::new();
        self.encode_raw(&mut buf);
        buf.len()
    }

    fn clear(&mut self) {
        *self = Self::default();
    }
}

fn decode(payload: &[u8]) -> Result<StreamCppResponse, String> {
    ResponseWire::decode(payload)
        .map(|wire| wire.0)
        .map_err(|error| error.to_string())
}

fn frame(flags: u8, payload: &[u8]) -> Vec<u8> {
    let mut frame = Vec::with_capacity(CONNECT_HEADER_LENGTH + payload.len());
    frame.push(flags);
    frame.extend_from_slice(&(payload.len() as u32).to_be_bytes());
    frame.extend_from_slice(payload);
    frame
}

fn text_message(text: &str) -> StreamCppResponse {
    StreamCppResponse {
        text: text.into(),
        ..Default::default()
    }
}

#[test]
fn decodes_fragmented_and_coalesced_frames() {
    let first = StreamCppResponse {
        text: "function ".into(),
        begin_edit: Some(true),
        range_to_replace: Some(RangeToReplace {
            start_line: 0,
            start_column: 0,
            end_line: 0,
            end_column: 9,
        }),
        ..Default::default()
    };
    let second = StreamCppResponse {
        text: "get_data() {}".into(),
        done_edit: Some(true),
        done_stream: Some(true),
        cursor_prediction_target: Some(CursorPredictionTarget {
            relative_path: "src/main.rs".into(),
            line_number_one_indexed: 2,
            expected_content: "get_data() {}".into(),
            should_retrigger_cpp: true,
        }),
        ..Default::default()
    };
    let first_frame = frame(0, &ResponseWire(first.clone()).encode_to_vec());
    let second_frame = frame(0, &ResponseWire(second.clone()).encode_to_vec());
    let trailer = frame(CONNECT_END_STREAM_FLAG, br#"{"metadata":{}}"#);
    let split = first_frame.len() - 2;

    let mut decoder = ConnectDecoder::default();
    assert!(decoder
        .push(&first_frame[..split], &decode)
        .unwrap()
        .is_empty());

    let mut remaining = first_frame[split..].to_vec();
    remaining.extend_from_slice(&second_frame);
    remaining.extend_from_slice(&trailer);
    let decoded = decoder.push(&remaining, &decode).unwrap();

    assert_eq!(decoded.len(), 3);
    assert_eq!(decoded[0], ConnectFrame::Message(Box::new(first)));
    assert_eq!(decoded[1], ConnectFrame::Message(Box::new(second)));
    assert!(matches!(&decoded[2], ConnectFrame::EndStream(value) if value["metadata"].is_object()));
    decoder.finish().unwrap();
}

#[test]
fn rejects_oversized_and_incomplete_frames() {
    let mut decoder = ConnectDecoder::new(3);
    assert!(decoder.push(&frame(0, &[0; 4]), &decode).is_err());

    let mut decoder = ConnectDecoder::default();
    assert!(decoder
        .push(&[0, 0, 0, 0, 2, 1], &decode)
        .unwrap()
        .is_empty());
    assert!(decoder.finish().is_err());
}

#[test]
fn rejects_compressed_frames_until_decompression_is_supported() {
    let mut decoder = ConnectDecoder::default();
    assert!(decoder
        .push(&frame(CONNECT_COMPRESSED_FLAG, &[]), &decode)
        .is_err());
}

#[test]
fn names_what_is_wrong_with_a_frame() {
    let mut decoder = ConnectDecoder::new(3);
    assert!(matches!(
        decoder.push(&frame(0, &[0; 4]), &decode),
        Err(ConnectError::FrameTooLong {
            length: 4,
            limit: 3
        })
    ));

    let mut decoder = ConnectDecoder::default();
    assert!(matches!(
        decoder.push(&frame(CONNECT_COMPRESSED_FLAG, &[]), &decode),
        Err(ConnectError::Compressed)
    ));

    let mut decoder = ConnectDecoder::default();
    assert!(matches!(
        decoder.push(&frame(CONNECT_END_STREAM_FLAG, b"{"), &decode),
        Err(ConnectError::InvalidTrailer(_))
    ));

    let mut decoder = ConnectDecoder::default();
    assert!(matches!(
        decoder.push(&frame(0, &[0x0a, 0x05, 0x61]), &decode),
        Err(ConnectError::InvalidMessage(_))
    ));

    let mut decoder = ConnectDecoder::default();
    decoder.push(&[0, 0, 0], &decode).unwrap();
    assert!(matches!(
        decoder.finish(),
        Err(ConnectError::IncompleteFrame)
    ));
}

#[test]
fn the_default_limit_is_inclusive() {
    let header = |length: usize| {
        let mut bytes = vec![0u8];
        bytes.extend_from_slice(&(length as u32).to_be_bytes());
        bytes
    };
    let mut decoder = ConnectDecoder::default();
    assert!(decoder
        .push(&header(DEFAULT_MAX_FRAME_LENGTH), &decode)
        .unwrap()
        .is_empty());
    let mut decoder = ConnectDecoder::default();
    assert!(decoder
        .push(&header(DEFAULT_MAX_FRAME_LENGTH + 1), &decode)
        .is_err());
}

#[test]
fn a_refused_frame_stays_in_front() {
    let mut bytes = frame(0, &ResponseWire(text_message("kept")).encode_to_vec());
    bytes.extend_from_slice(&frame(CONNECT_COMPRESSED_FLAG, &[]));
    let mut decoder = ConnectDecoder::default();
    assert!(decoder.push(&bytes, &decode).is_err());
    assert!(matches!(
        decoder.push(&[], &decode),
        Err(ConnectError::Compressed)
    ));
}

#[test]
fn messages_are_framed_with_their_length() {
    assert_eq!(
        encode_connect_message(b"abc").unwrap(),
        vec![0, 0, 0, 0, 3, b'a', b'b', b'c']
    );
    let long = vec![7u8; 0x01_02_03];
    let framed = encode_connect_message(&long).unwrap();
    assert_eq!(&framed[..5], &[0, 0, 1, 2, 3]);
    assert_eq!(&framed[5..], &long[..]);
}

#[test]
fn framed_messages_are_read_back_however_they_arrive() {
    let texts = ["one", "", "three 復古 🎵", "four"];
    let mut bytes = Vec::new();
    for text in texts {
        let payload = ResponseWire(text_message(text)).encode_to_vec();
        bytes.extend_from_slice(&encode_connect_message(&payload).unwrap());
    }
    for piece in 1..bytes.len() {
        let mut decoder = ConnectDecoder::default();
        let mut read = Vec::new();
        for part in bytes.chunks(piece) {
            read.extend(decoder.push(part, &decode).unwrap());
        }
        decoder.finish().unwrap();
        let read_texts: Vec<_> = read
            .into_iter()
            .map(|frame| match frame {
                ConnectFrame::Message(message) => message.text,
                ConnectFrame::EndStream(_) => panic!("no trailer was sent"),
            })
            .collect();
        assert_eq!(read_texts, texts);
    }
}

#[test]
fn a_response_body_becomes_a_stream() {
    let mut body = frame(0, &ResponseWire(text_message("hello")).encode_to_vec());
    body.extend_from_slice(&frame(CONNECT_END_STREAM_FLAG, br#"{"metadata":{}}"#));
    let stream = stream_from_body(&body, &decode).unwrap();
    assert_eq!(stream.edits.len(), 1);
    assert_eq!(stream.edits[0].text, "hello");

    body.push(0);
    assert!(matches!(
        stream_from_body(&body, &decode),
        Err(ResponseError::Connect(ConnectError::IncompleteFrame))
    ));
}

#[test]
fn a_trailer_can_report_an_error() {
    let mut body = frame(0, &ResponseWire(text_message("hello")).encode_to_vec());
    body.extend_from_slice(&frame(
        CONNECT_END_STREAM_FLAG,
        br#"{ "error": { "code": "unauthenticated" } }"#,
    ));
    match stream_from_body(&body, &decode) {
        Err(ResponseError::Stream(error)) => {
            assert_eq!(error.error, r#"{"code":"unauthenticated"}"#);
        }
        other => panic!("expected the reported error, got {other:?}"),
    }
}

#[test]
fn a_refused_frame_is_refused_for_good() {
    let good = frame(0, &ResponseWire(text_message("next")).encode_to_vec());
    for bad in [
        frame(CONNECT_COMPRESSED_FLAG, &[]),
        frame(CONNECT_END_STREAM_FLAG, b"{"),
        frame(0, &[0x0a, 0x05, 0x61]),
    ] {
        let mut decoder = ConnectDecoder::default();
        assert!(decoder.push(&bad, &decode).is_err());
        assert!(decoder.push(&good, &decode).is_err());
        assert!(decoder.push(&[], &decode).is_err());
        assert!(decoder.finish().is_err());
    }
}

#[test]
fn a_failure_does_not_depend_on_how_the_bytes_arrive() {
    let mut bytes = frame(0, &ResponseWire(text_message("kept")).encode_to_vec());
    bytes.extend_from_slice(&frame(CONNECT_COMPRESSED_FLAG, &[]));
    bytes.extend_from_slice(&frame(0, &ResponseWire(text_message("lost")).encode_to_vec()));
    assert!(ConnectDecoder::default().push(&bytes, &decode).is_err());
    for cut in 0..bytes.len() {
        let mut decoder = ConnectDecoder::default();
        let first = decoder.push(&bytes[..cut], &decode).is_err();
        let second = decoder.push(&bytes[cut..], &decode).is_err();
        assert!(second);
        assert!(!first || cut >= 5);
    }
}

#[test]
fn a_message_as_long_as_the_limit_is_read_back() {
    let message = text_message("hello");
    let payload = ResponseWire(message.clone()).encode_to_vec();
    let framed = encode_connect_message(&payload).unwrap();
    let mut decoder = ConnectDecoder::new(payload.len());
    let read = decoder.push(&framed, &decode).unwrap();
    assert_eq!(read, vec![ConnectFrame::Message(Box::new(message))]);
    decoder.finish().unwrap();
    assert!(ConnectDecoder::new(payload.len() - 1)
        .push(&framed, &decode)
        .is_err());
}
