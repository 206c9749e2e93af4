//! Configuration of one inference run: word width, byte order, string length
//! bounds and sampling caps, together with the validation that must succeed
//! before any scanning starts.

use vstd::prelude::*;

verus! {

/// Word width of the image being analysed.
#[derive(Clone, Copy, PartialEq, Eq, Structural, Debug)]
pub enum Size {
    Bits32,
    Bits64,
}

impl Size {
    /// Number of bytes in one word of this width.
    pub open spec fn spec_word_bytes(self) -> nat {
        match self {
            Size::Bits32 => 4,
            Size::Bits64 => 8,
        }
    }

    /// Number of bytes in one word of this width.
    pub fn word_bytes(self) -> (r: usize)
        ensures
            r == self.spec_word_bytes(),
    {
        match self {
            Size::Bits32 => 4,
            Size::Bits64 => 8,
        }
    }
}

/// Byte order under which words of the image are decoded.
#[derive(Clone, Copy, PartialEq, Eq, Structural, Debug)]
pub enum Endian {
    Little,
    Big,
}

/// A configuration rejected before any index is built. Disordered string
/// length bounds are the only configuration error that can arise: the word
/// width and byte order are enums, so no invalid width or order can be
/// stated.
#[derive(Clone, Copy, PartialEq, Eq, Structural, Debug)]
pub enum ConfigError {
    /// The minimum string length exceeds the maximum string length.
    MinExceedsMax,
}

/// The configuration record one run consumes. The booleans mirror the
/// command-line switches; `size` and `endian` resolve them, with 32-bit
/// little-endian as the default.
pub struct Args {
    pub filename: String,
    pub is_32bit: bool,
    pub is_64bit: bool,
    pub is_little_endian: bool,
    pub is_big_endian: bool,
    pub max_string_length: usize,
    pub min_string_length: usize,
    pub max_strings: usize,
    pub max_addresses: usize,
}

impl Args {
    /// The word width this configuration selects.
    pub open spec fn spec_size(&self) -> Size {
        if self.is_64bit {
            Size::Bits64
        } else {
            Size::Bits32
        }
    }

    /// The byte order this configuration selects.
    pub open spec fn spec_endian(&self) -> Endian {
        if self.is_big_endian {
            Endian::Big
        } else {
            Endian::Little
        }
    }

    /// A configuration is valid when the string length bounds are ordered.
    pub open spec fn valid(&self) -> bool {
        self.min_string_length <= self.max_string_length
    }

    pub fn size(&self) -> (r: Size)
        ensures
            r == self.spec_size(),
    {
        if self.is_64bit {
            Size::Bits64
        } else {
            Size::Bits32
        }
    }

    pub fn endian(&self) -> (r: Endian)
        ensures
            r == self.spec_endian(),
    {
        if self.is_big_endian {
            Endian::Big
        } else {
            Endian::Little
        }
    }

    /// Checks the configuration before scanning starts: the only way a run
    /// can fail. Degenerate buffers are valid inputs, not errors.
    pub fn validate(&self) -> (r: Result<(), ConfigError>)
        ensures
            r is Ok <==> self.valid(),
            r is Err ==> r == Result::<(), ConfigError>::Err(ConfigError::MinExceedsMax),
    {
        if self.min_string_length <= self.max_string_length {
            Ok(())
        } else {
            Err(ConfigError::MinExceedsMax)
        }
    }
}

} // verus!
