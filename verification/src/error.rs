//! The ways reading, repairing and writing entity data can fail.

use vstd::prelude::*;
use crate::text::{decimal, signed_decimal, push_str, push_decimal, push_signed_decimal, string_from_chars};

verus! {

/// What went wrong with a BSP file or an entity file.
#[derive(Debug, Clone, PartialEq, Eq)]
pub enum RipError {
    /// The data is shorter than a BSP header.
    FileSizeMismatch,
    /// The header names a BSP version other than the supported one.
    UnsupportedVersion(i32),
    /// The lump with this index does not lie inside the file.
    LumpOutOfBounds(usize),
    /// A header was written into a buffer shorter than a header.
    BufferTooSmall,
    /// Rebuilding the file would give offsets or lengths beyond `i32`.
    LumpTooLarge,
    /// The entity lump holds no bytes at all.
    EmptyEntityLump,
    /// The entity lump is not valid UTF-8.
    InvalidUtf8,
    /// Writing an `.ent` file was asked for without an output path.
    SingleNeedsOutputPath,
    /// Writing `.entp`/`.entm` files was asked for without an output path.
    SplitNeedsOutputPath,
    /// A file with this extension holds neither entities nor a BSP.
    UnsupportedFileType(String),
    /// The path has no extension, as a folder has none.
    NotAFile,
}

/// The text that describes an error.
pub open spec fn error_message(e: RipError) -> Seq<char> {
    match e {
        RipError::FileSizeMismatch => "File size doesn't match expected BSP version"@,
        RipError::UnsupportedVersion(v) => "Unsupported BSP version: "@ + signed_decimal(v as int)
            + ". Requires BSP version: 30."@,
        RipError::LumpOutOfBounds(i) => "Lump "@ + decimal(i as nat) + " out of bounds"@,
        RipError::BufferTooSmall => "Buffer too small for a BSP header"@,
        RipError::LumpTooLarge => "Lump data too large for a BSP file"@,
        RipError::EmptyEntityLump => "Entity lump is empty: data size is 0"@,
        RipError::InvalidUtf8 => "Entity lump is not valid UTF-8"@,
        RipError::SingleNeedsOutputPath => "ExtractTarget::Single requires an output path"@,
        RipError::SplitNeedsOutputPath => "ExtractTarget::Split requires an output path"@,
        RipError::UnsupportedFileType(ext) => "Unsupported file type '"@ + ext@
            + "'. Requires ENT/BSP."@,
        RipError::NotAFile => "Unsupported file type: cannot use folder. Must specify a ENT/BSP file."@,
    }
}

impl RipError {
    /// The text that describes the error.
    pub fn to_string(&self) -> (r: String)
        ensures
            r@ == error_message(*self),
    {
        let mut out: Vec<char> = Vec::new();
        match self {
            RipError::FileSizeMismatch => push_str(&mut out, "File size doesn't match expected BSP version"),
            RipError::UnsupportedVersion(v) => {
                push_str(&mut out, "Unsupported BSP version: ");
                push_signed_decimal(&mut out, *v as i64);
                push_str(&mut out, ". Requires BSP version: 30.");
            },
            RipError::LumpOutOfBounds(i) => {
                push_str(&mut out, "Lump ");
                push_decimal(&mut out, *i as u64);
                push_str(&mut out, " out of bounds");
            },
            RipError::BufferTooSmall => push_str(&mut out, "Buffer too small for a BSP header"),
            RipError::LumpTooLarge => push_str(&mut out, "Lump data too large for a BSP file"),
            RipError::EmptyEntityLump => push_str(&mut out, "Entity lump is empty: data size is 0"),
            RipError::InvalidUtf8 => push_str(&mut out, "Entity lump is not valid UTF-8"),
            RipError::SingleNeedsOutputPath => push_str(&mut out, "ExtractTarget::Single requires an output path"),
            RipError::SplitNeedsOutputPath => push_str(&mut out, "ExtractTarget::Split requires an output path"),
            RipError::UnsupportedFileType(ext) => {
                push_str(&mut out, "Unsupported file type '");
                push_str(&mut out, ext.as_str());
                push_str(&mut out, "'. Requires ENT/BSP.");
            },
            RipError::NotAFile => push_str(
                &mut out,
                "Unsupported file type: cannot use folder. Must specify a ENT/BSP file.",
            ),
        }
        proof {
            assert(out@ =~= error_message(*self));
        }
        string_from_chars(out.as_slice())
    }
}

} // verus!
