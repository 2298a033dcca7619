//! A gallery of sequentially numbered images: the index of a directory's
//! files, the single-page document that lists them in order, and the routing
//! of the few request shapes that the viewer answers.

pub mod error;
pub mod text;
pub mod codec;
pub mod index;
pub mod document;
pub mod dispatch;
