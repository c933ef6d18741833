//! Validation of the inputs for rendering a directory of model files into
//! one combined sprite sheet.

use vstd::prelude::*;

verus! {

/// Why a combined-sheet job was rejected.
#[derive(Clone, Copy, PartialEq, Eq, Structural, Debug)]
pub enum MegaSheetError {
    /// The output sheet needs a name.
    OutputNameEmpty,
    /// The source directory does not exist.
    SourceDirectoryMissing,
    /// The source path exists but is not a directory.
    SourceNotADirectory,
    /// The output path exists but is not a directory.
    OutputDirectoryNotADirectory,
    /// Sprites cannot be zero pixels wide.
    SpriteWidthZero,
    /// Sprites cannot be zero pixels tall.
    SpriteHeightZero,
    /// At least one rotation must be rendered.
    NumRotationsZero,
}

/// The checks in the order they are made: the name, the source directory,
/// the output directory, then the numeric parameters.
pub open spec fn validate_spec(
    output_name: Seq<char>,
    source_directory_exists: bool,
    source_directory_is_dir: bool,
    output_directory_exists: bool,
    output_directory_is_dir: bool,
    sprite_width: u32,
    sprite_height: u32,
    num_rotations: u32,
) -> Result<(), MegaSheetError> {
    if output_name.len() == 0 {
        Err(MegaSheetError::OutputNameEmpty)
    } else if !source_directory_exists {
        Err(MegaSheetError::SourceDirectoryMissing)
    } else if !source_directory_is_dir {
        Err(MegaSheetError::SourceNotADirectory)
    } else if output_directory_exists && !output_directory_is_dir {
        Err(MegaSheetError::OutputDirectoryNotADirectory)
    } else if sprite_width == 0 {
        Err(MegaSheetError::SpriteWidthZero)
    } else if sprite_height == 0 {
        Err(MegaSheetError::SpriteHeightZero)
    } else if num_rotations == 0 {
        Err(MegaSheetError::NumRotationsZero)
    } else {
        Ok(())
    }
}

/// Decides whether a combined-sheet job may run. The directory facts are
/// supplied by the caller, which reads them from the file system.
pub fn validate(
    output_name: &str,
    source_directory_exists: bool,
    source_directory_is_dir: bool,
    output_directory_exists: bool,
    output_directory_is_dir: bool,
    sprite_width: u32,
    sprite_height: u32,
    num_rotations: u32,
) -> (r: Result<(), MegaSheetError>)
    ensures
        r == validate_spec(output_name@, source_directory_exists, source_directory_is_dir,
            output_directory_exists, output_directory_is_dir, sprite_width, sprite_height,
            num_rotations),
{
    if output_name.is_empty() {
        return Err(MegaSheetError::OutputNameEmpty);
    }
    if !source_directory_exists {
        return Err(MegaSheetError::SourceDirectoryMissing);
    }
    if !source_directory_is_dir {
        return Err(MegaSheetError::SourceNotADirectory);
    }
    if output_directory_exists && !output_directory_is_dir {
        return Err(MegaSheetError::OutputDirectoryNotADirectory);
    }
    if sprite_width == 0 {
        return Err(MegaSheetError::SpriteWidthZero);
    }
    if sprite_height == 0 {
        return Err(MegaSheetError::SpriteHeightZero);
    }
    if num_rotations == 0 {
        return Err(MegaSheetError::NumRotationsZero);
    }
    Ok(())
}

} // verus!
