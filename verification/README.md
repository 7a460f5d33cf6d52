# rust_playground

A handful of small programs — word indexes of a text or of many files, the
end of a file, a singly linked list, and a chat server with its clients —
whose logic is written in Verus and proved against its contracts.

## Layout

- `src/` — the verified library.
  - `word_index/` — the description of a word index (`indexes_words`), the
    map from words to positions (`PositionMap`), the index of many files
    (`FileIndex`), UTF-8 byte positions, and the laws (uniqueness of the
    index, agreement of character and byte positions on ASCII text, merge
    order of files).
  - `index_string`, `index_string_in_threads`, `index_files_in_threads`,
    `index_files_with_async` — the word indexers of the four indexing
    programs.
  - `linked_list/` — `Node` and its two walks.
  - `tail` — reading the last lines of a file backwards, chunk by chunk.
  - `messenger/` — chat messages, their framing on the wire (over
    `bytes::BytesMut`), and the decisions of the server and the client.
- `app/` — the programs: argument handling, files, threads, sockets, JSON,
  the web page of the admin panel.
- `tests/` — tests of the library.
