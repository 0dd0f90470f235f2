//! Collections built on storages.

pub mod raw_box;
pub mod raw_linked_list;
pub mod raw_string;
pub mod raw_vec;

pub use raw_box::RawBox;
pub use raw_linked_list::RawLinkedList;
pub use raw_linked_list::RawLinkedListNodeStorage;
pub use raw_string::RawString;
pub use raw_vec::RawVec;
