//! Modify the dynamic linker, run path and other dynamic metadata of ELF
//! executables and shared libraries, with every step specified and proved.
pub mod autoformatelf;
pub mod buckets;
pub mod bytes;
pub mod cli;
pub mod codec;
pub mod constraints;
pub mod dlopen;
pub mod error;
pub mod facts;
pub mod glob;
pub mod ir;
pub mod laws;
pub mod layout;
pub mod ldcache;
pub mod lex;
pub mod ops;
pub mod parser;
pub mod patch;
pub mod paths;
pub mod probes;
pub mod raw;
pub mod roundtrip;
pub mod rpath;
pub mod seqs;
pub mod serialize;
pub mod symbols;
pub mod text;
pub mod wiring;
