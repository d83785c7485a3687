//! Turns a text tree diagram into a project description and plans, step by
//! step, how that description is laid out as directories and files.

pub mod assignment;
pub mod case;
pub mod classify;
pub mod error;
pub mod generator;
pub mod structure;
mod text;
pub mod tree_parser;

pub use error::ForgeTreeError;
pub use generator::{FileGenerator, Generator};
pub use structure::{ItemType, ProjectStructure, StructureItem};
pub use tree_parser::{Parser, TreeParser};
