use vstd::prelude::*;

verus! {

/// A directory that holds photos: those directly inside it, and those in its
/// "Top" subdirectory, which are preferred when sampling.
#[derive(Debug)]
pub struct Album {
    pub name: String,
    pub photos: Vec<String>,
    pub top_photos: Vec<String>,
}

/// Why a discovery could not start.
#[derive(Debug, PartialEq, Eq, Structural)]
#[non_exhaustive]
pub enum AlbumError {
    /// The root path does not exist or is not a directory.
    InvalidRoot,
}

impl Album {
    /// An album holds at least one photo.
    pub open spec fn is_nonempty(&self) -> bool {
        self.photos@.len() + self.top_photos@.len() > 0
    }

    /// No path occurs twice across the two photo sets: the sets are disjoint,
    /// and neither repeats a path.
    pub open spec fn paths_distinct(&self) -> bool {
        (self.top_photos@ + self.photos@).no_duplicates()
    }
}

impl AlbumError {
    /// A short description of the error, for display.
    pub fn message(&self) -> (r: String)
        ensures
            r@ == "Not a valid root directory."@,
    {
        proof {
            reveal_strlit("Not a valid root directory.");
        }
        match self {
            AlbumError::InvalidRoot => "Not a valid root directory.".to_string(),
        }
    }
}

} // verus!
