//! Codec for the multi-DTB container format: identifier fields, header and
//! entry records, splitting a container and packing one.
pub mod ident;
pub mod layout;
pub mod outside;
pub mod split;
pub mod pack;
pub mod roundtrip;
