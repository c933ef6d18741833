//! A verified texture-atlas packer: trims bitmaps to their opaque content,
//! packs them onto a single canvas with a deterministic shelf heuristic, and
//! emits the composed pixels together with placement metadata.

pub mod bitmap;
pub mod blend2sheet;
pub mod json;
pub mod mega_sheet;
pub mod pack;
pub mod paths;
pub mod sheet;
pub mod spritesheet_gen;
pub mod trim;
