//! Patching of UI markup assets: a textual and a structural patch engine, and
//! the in-memory directory tree that stages the patched files.
pub mod assembly;
pub mod directory;
pub mod markup;
pub mod order;
pub mod span;
pub mod textual;
