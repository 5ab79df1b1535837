//! Binary codec for OpenType-style font tables: a cursor with nested table
//! origins, a per-type codec contract, counted sequences, an offset-graph
//! resolver, the layout conversion layer, the `name` table and the `gasp`
//! rendering-hint table.

pub mod codec;
pub mod counted;
pub mod error;
pub mod gasp;
pub mod layout;
pub mod name;
pub mod offsets;
pub mod primitives;
pub mod reader;
pub mod tag;
pub mod utils;

pub use codec::{from_bytes, to_bytes, Deserialize, Deserializer, Serialize, Serializer};
pub use counted::Counted;
pub use error::{DeserializationError, SerializationError};
pub use reader::ReaderContext;
pub use tag::Tag;
