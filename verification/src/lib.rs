//! Assembles a manuscript kept as many plain-text files into one typeset
//! document: file paths are normalized to a fixed depth, folded into a tree of
//! parts, chapters, scenes and beats, and rendered as structural markup, while
//! the light inline markup of each file is rewritten into typeset commands.

pub mod cli;
pub mod depth;
pub mod index;
pub mod insert;
pub mod latex;
pub mod markup;
pub mod node;
pub mod normalize;
pub mod parser_tex;
pub mod reader;
pub mod scan;
pub mod settings;
pub mod shape;
pub mod text;
pub mod theme;
pub mod variable;
