pub mod error;
pub mod event;
pub mod span;
pub mod trace;

pub use error::{ErrorDetail, ErrorType, StackFrame};
pub use event::{ClassifiedEvent, EventKind, LogEvent, LogLevel};
pub use trace::Trace;
