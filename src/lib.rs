//! Page representation for a lock-free B-link tree: a compact byte buffer,
//! the sorted payload of a page, the delta records of a page's chain, the
//! view that folds such a chain, and the compaction policy.

pub mod data;
pub mod frag;
pub mod ivec;
pub mod key;
pub mod materializer;
pub mod sorted;
pub mod tx;
pub mod view;

pub use data::{Data, PageId};
pub use frag::{ChildSplit, Frag, Meta, Page, ParentSplit};
pub use ivec::IVec;
pub use materializer::{BLinkMaterializer, Recovery};
pub use tx::Tx;
pub use view::View;
