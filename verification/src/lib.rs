//! Core engine of a mind-mapping editor: an in-memory document tree with
//! stable node identities, selection and navigation state, a deterministic
//! layout pass, six interchange codecs, a format dispatcher, and the session
//! state (active path and recent-files history) around them.

pub mod chars;
pub mod codecs;
pub mod dispatch;
pub mod errors;
pub mod escape;
pub mod layout;
pub mod lock;
pub mod model;
pub mod session;
pub mod textcodec;
pub mod tree;
