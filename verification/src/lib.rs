//! A self-describing structured-data value model: one polymorphic type for
//! any JSON-shaped value, a text codec between that type and compact JSON
//! text, and a bridge between the value model and caller-defined typed
//! structures that routes through the same text codec.
pub mod bridge;
pub mod codec;
pub mod grammar;
pub mod laws;
pub mod parser;
pub mod value;

pub use value::Json;
pub use value::JsonError;
pub use value::JsonView;
