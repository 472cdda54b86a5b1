//! React host bridge logic: the binary transaction wire and operation
//! decoding, the component registry, the committed node tree, the bounded
//! worker session queues, text offsets and segmentation, the text input
//! model with its shortcuts, document selection and search, virtualized list
//! rows, and how props schemas follow from their declarations.
pub mod wire;
pub mod text;
pub mod registry;
pub mod segment;
pub mod selection;
pub mod session;
pub mod offsets;
pub mod tree;
pub mod decode;
pub mod editing;
pub mod compiled;
pub mod search;
pub mod style;
pub mod protocol;
pub mod controls;
pub mod schema;
pub mod keys;
pub mod list;
pub mod document;
pub mod text_key;
pub mod plan;
pub mod apply;
