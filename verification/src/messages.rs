//! The messages that the completion service streams back.

use vstd::prelude::*;

verus! {

/// One message of a completion stream.
#[derive(Clone, Debug, Default, PartialEq)]
pub struct StreamCppResponse {
    pub text: String,
    pub suggestion_start_line: Option<i32>,
    pub suggestion_confidence: Option<i32>,
    pub done_stream: Option<bool>,
    pub debug_model_output: Option<String>,
    pub debug_model_input: Option<String>,
    pub debug_stream_time: Option<String>,
    pub debug_total_time: Option<String>,
    pub debug_ttft_time: Option<String>,
    pub debug_server_timing: Option<String>,
    pub range_to_replace: Option<RangeToReplace>,
    pub cursor_prediction_target: Option<CursorPredictionTarget>,
    pub done_edit: Option<bool>,
    pub model_info: Option<ModelInfo>,
    pub begin_edit: Option<bool>,
    pub should_remove_leading_eol: Option<bool>,
    pub binding_id: Option<String>,
}

/// The range of the document that an edit replaces.
#[derive(Clone, Copy, Debug, Default, PartialEq, Eq)]
pub struct RangeToReplace {
    pub start_line: i32,
    pub end_line: i32,
    pub start_column: i32,
    pub end_column: i32,
}

/// Where the service expects the cursor to go next.
#[derive(Debug, Default, PartialEq, Eq)]
pub struct CursorPredictionTarget {
    pub relative_path: String,
    pub line_number_one_indexed: i32,
    pub expected_content: String,
    pub should_retrigger_cpp: bool,
}

impl Clone for CursorPredictionTarget {
    fn clone(&self) -> (copy: Self)
        ensures
            copy == *self,
    {
        CursorPredictionTarget {
            relative_path: self.relative_path.clone(),
            line_number_one_indexed: self.line_number_one_indexed,
            expected_content: self.expected_content.clone(),
            should_retrigger_cpp: self.should_retrigger_cpp,
        }
    }
}

/// What the service says of the model behind a stream.
#[derive(Clone, Copy, Debug, Default, PartialEq, Eq)]
pub struct ModelInfo {
    pub is_fused_cursor_prediction_model: bool,
    pub is_multidiff_model: bool,
}

} // verus!
