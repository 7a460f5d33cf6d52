use vstd::prelude::*;

use super::PositionMap;

verus! {

/// The positions of one word per file after the positions `ps` of that word
/// in `file` have been added to `files`.
pub open spec fn add_to_files(
    files: Map<Seq<char>, Seq<usize>>,
    file: Seq<char>,
    ps: Seq<usize>,
) -> Map<Seq<char>, Seq<usize>> {
    files.insert(file, if files.contains_key(file) { files[file] + ps } else { ps })
}

/// The index of many files after the index `words` of `file` has been
/// merged into `index`: every word of the file gets its positions in that
/// file added; every other word keeps what it had.
pub open spec fn merged_file(
    index: Map<Seq<char>, Map<Seq<char>, Seq<usize>>>,
    file: Seq<char>,
    words: Map<Seq<char>, Seq<usize>>,
) -> Map<Seq<char>, Map<Seq<char>, Seq<usize>>> {
    Map::new(
        |w: Seq<char>| index.contains_key(w) || words.contains_key(w),
        |w: Seq<char>|
            if words.contains_key(w) {
                add_to_files(
                    if index.contains_key(w) {
                        index[w]
                    } else {
                        Map::empty()
                    },
                    file,
                    words[w],
                )
            } else {
                index[w]
            },
    )
}

/// The index of many files: for each word, the files it occurs in and its
/// positions in each.
pub struct FileIndex {
    words: Vec<(String, PositionMap)>,
    index: Ghost<Map<Seq<char>, Map<Seq<char>, Seq<usize>>>>,
}

impl FileIndex {
    /// The index as a map from a word to its positions per file.
    pub closed spec fn view(&self) -> Map<Seq<char>, Map<Seq<char>, Seq<usize>>> {
        self.index@
    }

    /// The entries hold each word once, and agree with the map.
    pub closed spec fn wf(&self) -> bool {
        &&& forall|i: int, j: int|
            0 <= i < j < self.words@.len() ==> #[trigger] self.words@[i].0@
                != #[trigger] self.words@[j].0@
        &&& forall|i: int|
            0 <= i < self.words@.len() ==> {
                &&& self.index@.contains_key(#[trigger] self.words@[i].0@)
                &&& self.index@[self.words@[i].0@] == self.words@[i].1@
                &&& self.words@[i].1.wf()
            }
        &&& forall|w: Seq<char>|
            #[trigger] self.index@.contains_key(w) ==> exists|i: int|
                0 <= i < self.words@.len() && #[trigger] self.words@[i].0@ == w
    }

    /// An empty index.
    pub fn new() -> (index: Self)
        ensures
            index.wf(),
            index@ == Map::<Seq<char>, Map<Seq<char>, Seq<usize>>>::empty(),
    {
        FileIndex { words: Vec::new(), index: Ghost(Map::empty()) }
    }

    /// Where `word` stands among the entries, if it is there.
    fn find(&self, word: &String) -> (found: Option<usize>)
        requires
            self.wf(),
        ensures
            match found {
                Some(i) => i < self.words@.len() && self.words@[i as int].0@ == word@,
                None => !self@.contains_key(word@),
            },
    {
        let mut i: usize = 0;
        while i < self.words.len()
            invariant
                self.wf(),
                i <= self.words@.len(),
                forall|j: int| 0 <= j < i ==> self.words@[j].0@ != word@,
            decreases self.words@.len() - i,
        {
            if self.words[i].0 == *word {
                return Some(i);
            }
            i = i + 1;
        }
        None
    }

    /// Adds the positions `ps` of `word` in `file`.
    fn add_word(&mut self, word: String, file: String, ps: &Vec<usize>)
        requires
            old(self).wf(),
        ensures
            final(self).wf(),
            final(self)@ == old(self)@.insert(
                word@,
                add_to_files(
                    if old(self)@.contains_key(word@) {
                        old(self)@[word@]
                    } else {
                        Map::empty()
                    },
                    file@,
                    ps@,
                ),
            ),
    {
        let ghost w = word@;
        let ghost old_map = self@;
        let i = match self.find(&word) {
            Some(i) => i,
            None => {
                let ghost before = self.words@;
                self.words.push((word, PositionMap::new()));
                proof {
                    self.index@ = self.index@.insert(w, Map::empty());
                    assert(self.words@[before.len() as int].0@ == w);
                    assert forall|j: int| 0 <= j < before.len() implies #[trigger] self.words@[j]
                        == before[j] by {}
                    assert forall|v: Seq<char>| #[trigger] self.index@.contains_key(v) implies exists|
                        j: int,
                    |
                        0 <= j < self.words@.len() && #[trigger] self.words@[j].0@ == v by {
                        if v != w {
                            let j = choose|j: int|
                                0 <= j < before.len() && #[trigger] before[j].0@ == v;
                            assert(self.words@[j].0@ == v);
                        } else {
                            assert(self.words@[before.len() as int].0@ == v);
                        }
                    }
                    assert forall|a: int, b: int|
                        0 <= a < b < self.words@.len() implies #[trigger] self.words@[a].0@
                            != #[trigger] self.words@[b].0@ by {
                        if b == before.len() {
                            assert(old_map.contains_key(before[a].0@));
                        }
                    }
                    assert forall|j: int| 0 <= j < self.words@.len() implies {
                        &&& self.index@.contains_key(#[trigger] self.words@[j].0@)
                        &&& self.index@[self.words@[j].0@] == self.words@[j].1@
                        &&& self.words@[j].1.wf()
                    } by {
                        if j < before.len() {
                            assert(old_map.contains_key(before[j].0@));
                        }
                    }
                }
                self.words.len() - 1
            },
        };
        let ghost before = self.words@;
        let ghost mid = self@;
        self.words[i].1.append(file, ps);
        proof {
            self.index@ = self.index@.insert(w, self.words@[i as int].1@);
            assert forall|j: int| 0 <= j < self.words@.len() implies #[trigger] self.words@[j].0@
                == before[j].0@ by {}
            assert forall|v: Seq<char>| #[trigger] self.index@.contains_key(v) implies exists|j: int|
                0 <= j < self.words@.len() && #[trigger] self.words@[j].0@ == v by {
                if v != w {
                    let j = choose|j: int| 0 <= j < before.len() && #[trigger] before[j].0@ == v;
                    assert(self.words@[j].0@ == v);
                } else {
                    assert(self.words@[i as int].0@ == v);
                }
            }
            assert forall|j: int| 0 <= j < self.words@.len() implies {
                &&& self.index@.contains_key(#[trigger] self.words@[j].0@)
                &&& self.index@[self.words@[j].0@] == self.words@[j].1@
                &&& self.words@[j].1.wf()
            } by {
                if j != i {
                    assert(self.words@[j] == before[j]);
                }
            }
            assert(self@ =~= old_map.insert(
                w,
                add_to_files(
                    if old_map.contains_key(w) {
                        old_map[w]
                    } else {
                        Map::empty()
                    },
                    file@,
                    ps@,
                ),
            ));
        }
    }

    /// Merges `words`, the index of the file `filepath`, into this index.
    pub fn add_file(&mut self, filepath: &String, words: &PositionMap)
        requires
            old(self).wf(),
            words.wf(),
        ensures
            final(self).wf(),
            final(self)@ == merged_file(old(self)@, filepath@, words@),
    {
        let entries = words.entries();
        let ghost start = self@;
        let ghost f = filepath@;
        let mut k: usize = 0;
        while k < entries.len()
            invariant
                self.wf(),
                words.wf(),
                f == filepath@,
                k <= entries@.len(),
                forall|i: int, j: int|
                    0 <= i < j < entries@.len() ==> #[trigger] entries@[i].0@ != #[trigger] entries@[j].0@,
                forall|i: int|
                    0 <= i < entries@.len() ==> {
                        &&& words@.contains_key(#[trigger] entries@[i].0@)
                        &&& words@[entries@[i].0@] == entries@[i].1@
                    },
                self@ == merged_file(start, f, words@.restrict(entry_keys(entries@, k as int))),
            decreases entries@.len() - k,
        {
            let ghost done = words@.restrict(entry_keys(entries@, k as int));
            let ghost w = entries@[k as int].0@;
            let word = entries[k].0.clone();
            let file = filepath.clone();
            self.add_word(word, file, &entries[k].1);
            proof {
                assert(!done.contains_key(w)) by {
                    if done.contains_key(w) {
                        let j = choose|j: int| 0 <= j < k && #[trigger] entries@[j].0@ == w;
                        assert(entries@[j].0@ != entries@[k as int].0@);
                    }
                }
                assert(entry_keys(entries@, k + 1) =~= entry_keys(entries@, k as int).insert(w));
                let next = words@.restrict(entry_keys(entries@, k + 1));
                assert(next =~= done.insert(w, words@[w]));
                lemma_merge_one_more(start, f, done, w, words@[w]);
            }
            k = k + 1;
        }
        proof {
            assert forall|w: Seq<char>| words@.contains_key(w) implies entry_keys(entries@, entries@.len() as int).contains(w) by {
                let j = choose|j: int| 0 <= j < entries@.len() && #[trigger] entries@[j].0@ == w;
                assert(entries@[j].0@ == w);
            }
            assert(words@.restrict(entry_keys(entries@, entries@.len() as int)) =~= words@);
        }
    }

    /// The files and positions recorded for `word`, if it is in the index.
    pub fn get(&self, word: &str) -> (files: Option<&PositionMap>)
        requires
            self.wf(),
        ensures
            match files {
                Some(f) => self@.contains_key(word@) && f@ == self@[word@] && f.wf(),
                None => !self@.contains_key(word@),
            },
    {
        let key = word.to_owned();
        match self.find(&key) {
            Some(i) => Some(&self.words[i].1),
            None => None,
        }
    }

    /// Each word of the index with its positions per file, each word once.
    pub fn entries(&self) -> (entries: &Vec<(String, PositionMap)>)
        requires
            self.wf(),
        ensures
            forall|i: int, j: int|
                0 <= i < j < entries@.len() ==> #[trigger] entries@[i].0@ != #[trigger] entries@[j].0@,
            forall|i: int|
                0 <= i < entries@.len() ==> {
                    &&& self@.contains_key(#[trigger] entries@[i].0@)
                    &&& self@[entries@[i].0@] == entries@[i].1@
                    &&& entries@[i].1.wf()
                },
            forall|w: Seq<char>|
                #[trigger] self@.contains_key(w) ==> exists|i: int|
                    0 <= i < entries@.len() && #[trigger] entries@[i].0@ == w,
    {
        &self.words
    }
}

/// The keys of the first `k` entries.
pub open spec fn entry_keys(entries: Seq<(String, Vec<usize>)>, k: int) -> Set<Seq<char>> {
    Set::new(|w: Seq<char>| exists|j: int| 0 <= j < k && #[trigger] entries[j].0@ == w)
}

/// Merging one more word of a file, one that was not merged before, updates
/// that word alone.
proof fn lemma_merge_one_more(
    index: Map<Seq<char>, Map<Seq<char>, Seq<usize>>>,
    file: Seq<char>,
    done: Map<Seq<char>, Seq<usize>>,
    w: Seq<char>,
    ps: Seq<usize>,
)
    requires
        !done.contains_key(w),
    ensures
        merged_file(index, file, done.insert(w, ps)) == merged_file(index, file, done).insert(
            w,
            add_to_files(
                if merged_file(index, file, done).contains_key(w) {
                    merged_file(index, file, done)[w]
                } else {
                    Map::empty()
                },
                file,
                ps,
            ),
        ),
{
    assert(merged_file(index, file, done.insert(w, ps)) =~= merged_file(index, file, done).insert(
        w,
        add_to_files(
            if merged_file(index, file, done).contains_key(w) {
                merged_file(index, file, done)[w]
            } else {
                Map::empty()
            },
            file,
            ps,
        ),
    ));
}

} // verus!
