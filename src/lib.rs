//! Front end of a small browser engine: a markup parser, a stylesheet
//! parser, a style resolver and a layout-tree builder.
pub mod css;
pub mod error;
pub mod html;
pub mod layout;
pub mod style;
pub mod text;
