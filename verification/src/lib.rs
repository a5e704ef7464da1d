//! A content-addressed registry: blobs named by their digest, and the tags,
//! edges, repositories and sessions built on top of them.

pub mod atproto;
pub mod body;
pub mod bytes;
pub mod canonical;
pub mod codec;
pub mod digest;
pub mod distribution;
pub mod epoch;
pub mod git;
pub mod hexadecimal;
pub mod identity;
pub mod identity_requests;
pub mod index;
pub mod json;
pub mod kappa;
pub mod merkle;
pub mod nesting;
pub mod radix;
pub mod resolution;
pub mod seams;
pub mod sorted;
pub mod store;
pub mod table;
pub mod text;
pub mod transaction;
pub mod types;
pub mod varint;
pub mod verified;
pub mod version;
