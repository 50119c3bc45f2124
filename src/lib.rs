//! Discovery of photo albums in a directory tree, and weighted random
//! selection of photos from an album.
pub mod album;
pub mod discovery;
pub mod sampling;
pub mod text;

pub use album::{Album, AlbumError};
pub use discovery::{add_photos, default_image_types, get_albums, DirListing, DirTree, FileEntry, SubDir};
pub use sampling::{get_randoms_from_album, top_target};
