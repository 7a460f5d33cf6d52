//! The asynchronous indexer of files indexes each file as the threaded one
//! does: it cuts the text at delimiters and counts bytes.
pub use crate::index_files_in_threads::get_word_positions;
