//! Tools for finding movies in cable TV listings and looking them up in
//! movie databases and streaming catalogues.

pub mod cache;
pub mod credentials;
pub mod listings;
pub mod mdblist;
pub mod sorted_map;
pub mod streaming_availability;
pub mod text;
pub mod web;
pub mod xmltv;

pub use credentials::Credentials;
