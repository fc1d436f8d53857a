use vstd::prelude::*;

pub mod error;
pub mod laws;
pub mod model;
pub mod reader;
pub mod text;

pub use error::ReaderError;
pub use reader::Reader;

verus! {
} // verus!
