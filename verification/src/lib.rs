//! Rules of a single-owner private Hub that keeps agent conversation history.
pub mod git;
pub mod http;
pub mod index;
pub mod json;
pub mod lfs;
pub mod outside;
pub mod params;
pub mod read;
pub mod receive;
pub mod search;
pub mod seqs;
pub mod smart;
pub mod space;
pub mod state;
pub mod text;
