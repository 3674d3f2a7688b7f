//! Splaunch's library: the file formats, checks and compilers behind the
//! Zero-K scenario editor, proved against their specifications.
pub mod codec;
pub mod text;
pub mod mapfile;
pub mod dds;
pub mod container;
pub mod lua;
pub mod game;
pub mod campaign;
pub mod install;
pub mod order;
pub mod roster;
pub mod version;
pub mod scenario;
pub mod preset;
pub mod script;
pub mod customkey;
pub mod mission;
pub mod fill;
