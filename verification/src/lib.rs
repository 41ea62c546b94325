use vstd::prelude::*;

pub mod stackstack;
pub mod dgens;
pub mod strutil;
pub mod bits;
pub mod obj;
pub use obj::Obj;
pub mod vector;
pub mod level;
pub mod textread;
pub mod builtins;
pub mod parse;
pub mod game;
pub mod pathnodemap;
pub mod solve;
pub mod keysearch;
pub mod generate;
pub mod unsolve;
pub mod pullsearch;
pub mod boxcount;
pub mod replay;
pub mod shrunkpath;
pub mod textview;
pub mod backup;
pub mod tool;
pub mod readback;
pub mod deadlock;
