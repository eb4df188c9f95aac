//! Edit predictions from a streaming completion service.
//!
//! A request describes the file around the cursor (`request`, `context`) and is sent with
//! the headers that the service asks for (`service`). The answer arrives in frames
//! (`connect`) that build up a stream of edits (`stream`). The edits become replacements in
//! the document (`replacement`, `multidiff`) and, together with the place that the cursor
//! goes to (`targets`), the completion that is offered (`completion`). Which completion is
//! offered, and which answers still count, is the provider's state (`delegate`). The service
//! keeps copies of files that are brought up to date on the way (`file_sync`).

pub mod completion;
pub mod connect;
pub mod context;
pub mod delegate;
pub mod file_sync;
pub mod messages;
pub mod multidiff;
pub mod replacement;
pub mod request;
pub mod service;
pub mod snapshot;
pub mod stream;
pub mod targets;
pub mod text;
pub mod trigger;

pub use connect::{encode_connect_message, ConnectDecoder, ConnectError, ConnectFrame};
pub use delegate::CursorTabEditPredictionDelegate;
pub use file_sync::FilesyncUpdate;
pub use messages::{CursorPredictionTarget, ModelInfo, RangeToReplace, StreamCppResponse};
pub use request::{
    AdditionalFile, BlockDiffPatch, Cell, CodeBlock, CodeRange, CodeResult, ContextItem,
    ControlToken, CppIntentInfo, CurrentFileInfo, CursorPosition, DataFrame, Diagnostic,
    FileDiffHistory, LineRange, LinterError, LinterErrors, LspContext, LspSuggestedItems,
    LspSuggestion, ParameterHint, Position, RelatedInformation, Selection, Severity,
    StreamCppRequest, StreamCppRequestInput, TopChunk,
};
pub use service::{CURSOR_TAB_API_URL, CURSOR_TAB_MODEL};
