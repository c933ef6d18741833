//! Validation of the inputs for turning one model file into a sprite sheet.
//!
//! The caller gathers the facts that only the file system can answer —
//! whether the paths exist and what they are — and the decision of whether
//! the job may run is made here, in one fixed order.

use vstd::prelude::*;
use crate::paths::{path_extension, path_extension_spec, path_has_extension_spec, str_eq};

verus! {

/// Why a sheet-generation job was rejected.
#[derive(Clone, Copy, PartialEq, Eq, Structural, Debug)]
pub enum Blend2SheetError {
    /// The model file does not exist.
    BlenderFileMissing,
    /// The model file path exists but is not a file.
    BlenderFileNotAFile,
    /// The model file does not carry the `blend` extension.
    BlenderFileNotBlend,
    /// The output path exists but is not a directory.
    OutputDirectoryNotADirectory,
    /// Sprites cannot be zero pixels wide.
    SpriteWidthZero,
    /// Sprites cannot be zero pixels tall.
    SpriteHeightZero,
    /// At least one rotation must be rendered.
    NumRotationsZero,
}

/// The checks in the order they are made: the model file first, then the
/// output directory, then the numeric parameters.
pub open spec fn validate_spec(
    blender_file: Seq<char>,
    blender_file_exists: bool,
    blender_file_is_file: bool,
    output_directory_exists: bool,
    output_directory_is_dir: bool,
    sprite_width: u32,
    sprite_height: u32,
    num_rotations: u32,
) -> Result<(), Blend2SheetError> {
    if !blender_file_exists {
        Err(Blend2SheetError::BlenderFileMissing)
    } else if !blender_file_is_file {
        Err(Blend2SheetError::BlenderFileNotAFile)
    } else if !(path_has_extension_spec(blender_file)
        && path_extension_spec(blender_file) == ("blend")@) {
        Err(Blend2SheetError::BlenderFileNotBlend)
    } else if output_directory_exists && !output_directory_is_dir {
        Err(Blend2SheetError::OutputDirectoryNotADirectory)
    } else if sprite_width == 0 {
        Err(Blend2SheetError::SpriteWidthZero)
    } else if sprite_height == 0 {
        Err(Blend2SheetError::SpriteHeightZero)
    } else if num_rotations == 0 {
        Err(Blend2SheetError::NumRotationsZero)
    } else {
        Ok(())
    }
}

/// Decides whether a sheet-generation job may run. The path facts — whether
/// the paths exist, and whether they are a file or a directory — are
/// supplied by the caller, which reads them from the file system.
pub fn validate(
    blender_file: &str,
    blender_file_exists: bool,
    blender_file_is_file: bool,
    output_directory_exists: bool,
    output_directory_is_dir: bool,
    sprite_width: u32,
    sprite_height: u32,
    num_rotations: u32,
) -> (r: Result<(), Blend2SheetError>)
    ensures
        r == validate_spec(blender_file@, blender_file_exists, blender_file_is_file,
            output_directory_exists, output_directory_is_dir, sprite_width, sprite_height,
            num_rotations),
{
    if !blender_file_exists {
        return Err(Blend2SheetError::BlenderFileMissing);
    }
    if !blender_file_is_file {
        return Err(Blend2SheetError::BlenderFileNotAFile);
    }
    let is_blend = match path_extension(blender_file) {
        Some(e) => str_eq(e, "blend"),
        None => false,
    };
    if !is_blend {
        return Err(Blend2SheetError::BlenderFileNotBlend);
    }
    if output_directory_exists && !output_directory_is_dir {
        return Err(Blend2SheetError::OutputDirectoryNotADirectory);
    }
    if sprite_width == 0 {
        return Err(Blend2SheetError::SpriteWidthZero);
    }
    if sprite_height == 0 {
        return Err(Blend2SheetError::SpriteHeightZero);
    }
    if num_rotations == 0 {
        return Err(Blend2SheetError::NumRotationsZero);
    }
    Ok(())
}

} // verus!
