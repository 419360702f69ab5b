//! SpeedyF's engine logic: the render queue and its caches, citation
//! parsing, the search indexes and the library-wide search, the citation
//! library's scan state, the formal-environment and outline structure, the
//! save plan, and the printing grammar. Reading and writing files, the PDF
//! engine and the desktop shell are the caller's part.

pub mod errors;
pub mod types;
pub mod cache;
pub mod chars;
pub mod citation;
pub mod search;
pub mod trigram;
pub mod gramindex;
pub mod formal;
pub mod tagged;
pub mod printing;
pub mod figures;
pub mod text;
pub mod bench;
pub mod library;
pub mod opens;
pub mod metrics;
pub mod librarytext;
pub mod urls;
pub mod queue;
pub mod forms;
pub mod save;
pub mod indexing;
pub mod recent;
pub mod pagecache;
pub mod librarysearch;
pub mod links;
