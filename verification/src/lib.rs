//! Core of a content-addressed object store and of a client for the
//! line-framed fetch protocol: object identifiers, the typed object envelope,
//! the staging index, tree objects, the frame reader, capability and reference
//! advertisement parsing, request construction and pack header parsing.
pub mod caps;
pub mod clone;
pub mod commands;
pub mod commit;
pub mod dump;
pub mod hash;
pub mod index;
pub mod ls_tree;
pub mod object;
pub mod pack;
pub mod pktline;
pub mod refs;
pub mod request;
pub mod streamer;
pub mod text;
pub mod transport;
pub mod tree;
pub mod words;
