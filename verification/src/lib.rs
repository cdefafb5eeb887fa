//! Core data model and algorithms of a terminal JSON viewer: a tokenizer and
//! parser that flatten JSON into rows, navigation over those rows, string
//! unescaping, search helpers and a line compositor for rendering.

mod text;
pub mod flatjson;
pub mod lineprinter;
pub mod jsontokenizer;
pub mod jsonparser;
pub mod jsonstringunescaper;
pub mod search;
pub mod action;
pub mod dimensions;
pub mod jnode;
pub mod render;
pub mod linetext;
pub mod richformatter;
pub mod clipboard;
pub mod rendering;
pub mod document;
pub mod document_viewer;
pub mod messages;
pub mod screenwriter;
pub mod options;
pub mod clip;
pub mod bsonparser;
pub mod input;
pub mod keymap;
mod wellformed;
