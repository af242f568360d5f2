//! Random-access reading of large object-detection dataset descriptions.
//!
//! A description is one JSON object with five sections: `licenses`, `info`,
//! `categories`, `images` and `annotations`. The first three are small and
//! are kept decoded. The last two are large arrays of records; of these only
//! an index is kept, which says where each record lies in the document, so
//! that a record is decoded again each time it is asked for.

pub mod cursor;
pub mod error;
pub mod json;
pub mod laws;
pub mod mapper;
pub mod page_maps;
pub mod records;
pub mod section;

pub use error::{CocoError, MalformedKind};
pub use json::JsonDict;
pub use mapper::{CocoJsonSection, CocoPageMapper};
pub use page_maps::{AnnPageMap, ImgPageMap};
pub use section::SectionTag;
