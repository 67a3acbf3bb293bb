//! Native backend library for a manga-translation workstation.
//!
//! The heart of the crate is the project archive codec: it turns a project
//! (an opaque metadata document plus per-image original, mask and final
//! rasters) into a single zip-based container and back.  Around it stand the
//! helpers the application's commands share: base64 data-URL handling, mask
//! normalization to a 1-bit raster, JSON payload construction for the remote
//! OCR / translation / inpainting services, response classification, and a
//! chunk-boundary-safe parser for server-sent-event streams.

use vstd::prelude::*;

pub mod bytes;
pub mod names;
pub mod b64;
pub mod archive;
pub mod mask;
pub mod jsondoc;
pub mod project;
pub mod proxy;
pub mod sse;
pub mod listing;



verus! {

} // verus!
