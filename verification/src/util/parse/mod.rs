//! A small set of text consumers that compose into parsers.

pub mod alphanumeric;
pub mod bounded;
pub mod chars;
pub mod consumer;
pub mod cursor;
pub mod enumerated;
pub mod ext;
pub mod integer;
pub mod literal;
pub mod map;
pub mod matching;
pub mod multi;
pub mod optional;
pub mod raw;
pub mod then;
pub mod whitespace;

pub use alphanumeric::AlphanumericConsumer;
pub use bounded::BoundedConsumer;
pub use consumer::{ConsumeError, Consumer};
pub use cursor::Cursor;
pub use enumerated::EnumConsumer;
pub use ext::ConsumerExt;
pub use integer::IntegerConsumer;
pub use literal::LiteralConsumer;
pub use map::{MapError, Mapped};
pub use matching::MatchConsumer;
pub use multi::MultiConsumer;
pub use optional::OptionalConsumer;
pub use raw::RawConsumer;
pub use then::{IgnoreThen, Then, ThenError, ThenIgnore};
pub use whitespace::WhitespaceConsumer;
