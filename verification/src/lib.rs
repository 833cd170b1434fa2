//! A cursor over a growable byte buffer for binary formats that hold internal
//! pointers: four-byte offsets stored in the data that refer to other places
//! in the same buffer.
//!
//! Reading follows a pointer relative to a stack of base offsets. Writing
//! reserves the pointer's slot, queues the content it will refer to, and
//! patches the slot once that content has been emitted.
//!
//! Every operation is specified over [`ParserView`], the mathematical model
//! of a parser, and proved to do what that model says.
pub mod align;
pub mod codec;
pub mod error;
pub mod laws;
pub mod model;
pub mod numbers;
pub mod order;
pub mod parser;
pub mod pointers;
pub mod round_trip;
pub mod strings;
pub mod task;
pub mod text;

pub use codec::{decode_uint, encode_uint};
pub use error::{BinaryParserError, IoErrorKind};
pub use model::{OpModel, Outcome, ParserView, PendingWrite, SeekFrom};
pub use parser::BinaryParser;
pub use task::{ScheduledWrite, WriteOp};
