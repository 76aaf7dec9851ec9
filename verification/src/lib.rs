//! Stitches a tree of text documents, joined by inline include directives,
//! into one output, and lists the files that such a tree is made of.
//!
//! A directive is written `#[docdoc:path="<relative-path>"]`, anywhere in a
//! line; the path holds neither a double quote nor a hash sign. Stitching
//! replaces each directive by what the file that it names expands to;
//! everything else is written out as it stands, each piece of text with a
//! line terminator after it. A document may be included as often as one
//! likes, but not by itself, neither directly nor through the documents
//! that it includes.
//!
//! The library never touches the file system. What it knows of the files is
//! held in a [`Store`]. [`DocDoc::stitch`] and [`DocDoc::list_imports`] walk
//! the tree with the answers that the store holds; where an answer is
//! missing they return the [`Request`] that has to be put to the file
//! system. The caller records the answer in the store and runs again, until
//! the run is [`Progress::Finished`].
//!
//! What the two functions give is stated in [`expansion`]; what follows
//! from that is proved in [`laws`], [`tree`] and [`cycle`]. The module
//! [`watch`] decides which files a watcher is to be subscribed to.

pub mod cycle;
pub mod error;
pub mod expansion;
pub mod format;
pub mod laws;
pub mod matcher;
pub mod resolve;
pub mod segment;
pub mod store;
pub mod text;
pub mod tree;
pub mod watch;

pub use crate::format::Format;
pub use crate::resolve::DocDoc;
pub use crate::resolve::Progress;
pub use crate::segment::Segment;
pub use crate::store::Request;
pub use crate::store::Store;
