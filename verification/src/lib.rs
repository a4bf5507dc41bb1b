//! Document model, layout and input logic of a terminal Chinese input method.

pub mod text;
pub mod doc;
pub mod layout;
pub mod engine;
pub mod input;
pub mod keys;
pub mod view;
pub mod storage;

