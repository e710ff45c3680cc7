use vstd::prelude::*;

pub mod downloader;
pub mod errors;
pub mod files;
pub mod requests;
pub mod links;
pub mod text;

verus! {

} // verus!
