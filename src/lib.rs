//! A local note store: notebooks that own notes, notes that own binary
//! attachments, with a trash for notes and cascading permanent deletion.

pub mod model;
pub mod order;
pub mod store;
pub mod shared;
pub mod laws;
