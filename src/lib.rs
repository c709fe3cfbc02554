//! Core logic of an audio streaming server: HTTP byte-range handling,
//! virtual chapter paths inside long audio files, admission control for
//! transcoder processes, access tokens, folder listings, and the index of
//! the transcoded-artifact cache with its on-disk form.
pub mod admission;
pub mod auth;
pub mod cache;
pub mod chapters;
pub mod dispatch;
pub mod folder;
pub mod index_file;
pub mod range;
pub mod text;
