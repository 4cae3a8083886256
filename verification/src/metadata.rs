use vstd::prelude::*;

verus! {

/// The element-wise view of a list of strings.
pub open spec fn strs_deep(s: Seq<String>) -> Seq<Seq<char>> {
    Seq::new(s.len(), |i: int| s[i]@)
}

/// The mathematical content of the packaging metadata.
#[verifier::ext_equal]
pub struct MetadataV {
    /// The package version string.
    pub version: Seq<char>,
    /// The names of the packages this one depends on.
    pub depends: Seq<Seq<char>>,
}

/// Struct for parcel packaging metadata.
#[derive(Debug, Clone)]
pub struct ParcelMetadata {
    /// The package version string.
    pub version: String,
    /// The names of the packages this one depends on.
    pub depends: Vec<String>,
}

impl View for ParcelMetadata {
    type V = MetadataV;

    open spec fn view(&self) -> MetadataV {
        MetadataV {
            version: self.version@,
            depends: strs_deep(self.depends@),
        }
    }
}

impl ParcelMetadata {
    /// Creates a new empty metadata.
    pub fn new() -> (r: Self)
        ensures
            r@.version == Seq::<char>::empty(),
            r@.depends == Seq::<Seq<char>>::empty(),
    {
        Self { version: String::new(), depends: Vec::new() }
    }
}

} // verus!
