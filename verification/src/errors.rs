use vstd::prelude::*;

verus! {

/// Why one file could not be repaired.  Every failure is file-scoped: it is
/// counted and never aborts the rest of a batch.
#[derive(Clone, Copy, Debug, PartialEq, Eq, Structural)]
pub enum FixError {
    /// The input is not a decodable image in the supported 8-bit RGBA layout.
    FormatError,
    /// The classifier found zero border points (fully opaque, fully
    /// transparent, or no opaque/transparent adjacency): nothing to repair.
    NoBorderPixels,
    /// The spatial lookup over the border points could not be built.
    IndexConstructionError,
    /// The repaired raster could not be serialized back into image bytes.
    EncodeError,
}

impl FixError {
    /// The cause string reported for this error.
    pub open spec fn spec_message(self) -> Seq<char> {
        match self {
            FixError::FormatError => "image is not in the supported 8-bit RGBA layout"@,
            FixError::NoBorderPixels => "no border pixels between opaque and transparent regions"@,
            FixError::IndexConstructionError => "could not build the border point index"@,
            FixError::EncodeError => "could not encode the repaired image"@,
        }
    }

    /// A human-readable cause string for this error.
    pub fn message(&self) -> (m: String)
        ensures
            m@ == self.spec_message(),
    {
        match self {
            FixError::FormatError => "image is not in the supported 8-bit RGBA layout".to_owned(),
            FixError::NoBorderPixels => "no border pixels between opaque and transparent regions".to_owned(),
            FixError::IndexConstructionError => "could not build the border point index".to_owned(),
            FixError::EncodeError => "could not encode the repaired image".to_owned(),
        }
    }
}

} // verus!
