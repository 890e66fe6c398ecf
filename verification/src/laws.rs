//! What holds of the library as a whole: laws that relate its functions to each
//! other, proved from what each of them promises.
pub mod anchors;
pub mod apart;
pub mod cache;
pub mod carried;
pub mod dependencies;
pub mod dynamic;
pub mod edits;
pub mod files;
pub mod frames;
pub mod headers;
pub mod indexing;
pub mod legible;
pub mod lists;
pub mod loading;
pub mod lookup;
pub mod naming;
pub mod numbers;
pub mod operations;
pub mod options;
pub mod output;
pub mod passes;
pub mod placement;
pub mod printing;
pub mod readback;
pub mod reading;
pub mod region;
pub mod renaming;
pub mod repeat;
pub mod requests;
pub mod resolution;
pub mod settings;
pub mod shrinking;
pub mod sound;
pub mod stripped;
pub mod tidy;
pub mod wired;
