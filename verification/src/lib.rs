pub mod index_files_in_threads;
pub mod index_files_with_async;
pub mod index_string;
pub mod index_string_in_threads;
pub mod linked_list;
pub mod messenger;
pub mod tail;
pub mod word_index;
