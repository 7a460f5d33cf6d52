use vstd::prelude::*;

pub mod file_index;
pub mod laws;
pub mod scan;
pub mod utf8_offsets;

verus! {

broadcast use vstd::string::group_string_axioms;

/// Whether `c` separates words: an ASCII punctuation character
/// (`!` to `/`, `:` to `@`, `[` to `` ` ``, `{` to `~`) or ASCII whitespace
/// (space, tab, line feed, form feed, carriage return).
pub open spec fn is_delimiter(c: char) -> bool {
    let v = c as u32;
    ||| 0x21 <= v <= 0x2F
    ||| 0x3A <= v <= 0x40
    ||| 0x5B <= v <= 0x60
    ||| 0x7B <= v <= 0x7E
    ||| v == 0x20
    ||| v == 0x09
    ||| v == 0x0A
    ||| v == 0x0C
    ||| v == 0x0D
}

/// Whether `c` separates words (see `is_delimiter`).
pub fn is_word_delimiter(c: char) -> (r: bool)
    ensures
        r == is_delimiter(c),
{
    let v = c as u32;
    (0x21 <= v && v <= 0x2F) || (0x3A <= v && v <= 0x40) || (0x5B <= v && v <= 0x60) || (0x7B
        <= v && v <= 0x7E) || v == 0x20 || v == 0x09 || v == 0x0A || v == 0x0C || v == 0x0D
}

/// Whether the characters from index `a` up to `b` form a word of `cs`: a
/// non-empty run of characters that are not delimiters, with a delimiter or
/// the edge of the text on either side.
pub open spec fn is_word_span(cs: Seq<char>, a: int, b: int) -> bool {
    &&& 0 <= a < b <= cs.len()
    &&& forall|k: int| a <= k < b ==> !is_delimiter(#[trigger] cs[k])
    &&& a == 0 || is_delimiter(cs[a - 1])
    &&& b == cs.len() || is_delimiter(cs[b])
}

/// Whether the elements of `s` grow strictly from first to last.
pub open spec fn strictly_increasing(s: Seq<usize>) -> bool {
    forall|x: int, y: int| 0 <= x < y < s.len() ==> s[x] < s[y]
}

/// Whether some word of `cs` is `w` and starts at position `p`.
pub open spec fn occurs_in(
    cs: Seq<char>,
    word: spec_fn(int, int) -> Seq<char>,
    pos: spec_fn(int) -> int,
    w: Seq<char>,
    p: int,
) -> bool {
    exists|a: int, b: int|
        #![trigger is_word_span(cs, a, b)]
        is_word_span(cs, a, b) && word(a, b) == w && pos(a) == p
}

/// Whether `m` is the index of the words of `cs`: the word running from
/// index `a` up to `b` is recorded under `word(a, b)` at `pos(a)`, every
/// recorded position is the start of such a word, and each word's
/// positions are listed once each, in increasing order.
pub open spec fn indexes_words(
    m: Map<Seq<char>, Seq<usize>>,
    cs: Seq<char>,
    word: spec_fn(int, int) -> Seq<char>,
    pos: spec_fn(int) -> int,
) -> bool {
    &&& forall|w: Seq<char>|
        #[trigger] m.contains_key(w) ==> m[w].len() > 0 && strictly_increasing(m[w])
    &&& forall|w: Seq<char>, k: int|
        m.contains_key(w) && 0 <= k < m[w].len() ==> occurs_in(
            cs,
            word,
            pos,
            w,
            #[trigger] m[w][k] as int,
        )
    &&& forall|a: int, b: int|
        #[trigger] is_word_span(cs, a, b) ==> {
            &&& m.contains_key(word(a, b))
            &&& m[word(a, b)].contains(pos(a) as usize)
        }
}

/// The characters of `s`, in order.
pub fn chars_of(s: &str) -> (chars: Vec<char>)
    ensures
        chars@ == s@,
{
    let mut chars: Vec<char> = Vec::new();
    for ch in it: s.chars()
        invariant
            it.seq() == s@,
            chars@ == s@.take(it.index()),
    {
        chars.push(ch);
    }
    assert(chars@ =~= s@);
    chars
}

/// A map from texts to lists of positions, in the order in which they were
/// recorded: the index of a text (each word with the positions at which it
/// starts), or, in an index of many files, the positions of one word in
/// each file.
pub struct PositionMap {
    entries: Vec<(String, Vec<usize>)>,
    index: Ghost<Map<Seq<char>, Seq<usize>>>,
}

impl PositionMap {
    /// The index as a map from a word's characters to its positions.
    pub closed spec fn view(&self) -> Map<Seq<char>, Seq<usize>> {
        self.index@
    }

    /// The entries hold each word once, and agree with the map.
    pub closed spec fn wf(&self) -> bool {
        &&& forall|i: int, j: int|
            0 <= i < j < self.entries@.len() ==> #[trigger] self.entries@[i].0@
                != #[trigger] self.entries@[j].0@
        &&& forall|i: int|
            0 <= i < self.entries@.len() ==> {
                &&& self.index@.contains_key(#[trigger] self.entries@[i].0@)
                &&& self.index@[self.entries@[i].0@] == self.entries@[i].1@
            }
        &&& forall|w: Seq<char>|
            #[trigger] self.index@.contains_key(w) ==> exists|i: int|
                0 <= i < self.entries@.len() && #[trigger] self.entries@[i].0@ == w
    }

    /// An empty index.
    pub fn new() -> (index: Self)
        ensures
            index.wf(),
            index@ == Map::<Seq<char>, Seq<usize>>::empty(),
    {
        PositionMap { entries: Vec::new(), index: Ghost(Map::empty()) }
    }

    /// Where `word` stands among the entries, if it is there.
    fn find(&self, word: &String) -> (found: Option<usize>)
        requires
            self.wf(),
        ensures
            match found {
                Some(i) => i < self.entries@.len() && self.entries@[i as int].0@ == word@,
                None => !self@.contains_key(word@),
            },
    {
        let mut i: usize = 0;
        while i < self.entries.len()
            invariant
                self.wf(),
                i <= self.entries@.len(),
                forall|j: int| 0 <= j < i ==> self.entries@[j].0@ != word@,
            decreases self.entries@.len() - i,
        {
            if self.entries[i].0 == *word {
                return Some(i);
            }
            i = i + 1;
        }
        None
    }

    /// Records `position` for `word`, after the positions already recorded
    /// for it.
    pub fn add(&mut self, word: String, position: usize)
        requires
            old(self).wf(),
        ensures
            final(self).wf(),
            final(self)@ == old(self)@.insert(
                word@,
                if old(self)@.contains_key(word@) {
                    old(self)@[word@].push(position)
                } else {
                    seq![position]
                },
            ),
    {
        let ghost old_map = self@;
        let i = match self.find(&word) {
            Some(i) => i,
            None => self.push_empty(word),
        };
        self.add_at(i, position);
        proof {
            assert(self@ =~= old_map.insert(
                self.entries@[i as int].0@,
                if old_map.contains_key(self.entries@[i as int].0@) {
                    old_map[self.entries@[i as int].0@].push(position)
                } else {
                    seq![position]
                },
            ));
        }
    }

    /// Records `positions` for `key`, in their order, after the positions
    /// already recorded for it.
    pub fn append(&mut self, key: String, positions: &Vec<usize>)
        requires
            old(self).wf(),
        ensures
            final(self).wf(),
            final(self)@ == old(self)@.insert(
                key@,
                if old(self)@.contains_key(key@) {
                    old(self)@[key@] + positions@
                } else {
                    positions@
                },
            ),
    {
        let ghost k = key@;
        let ghost before = self.entries@;
        let ghost old_map = self@;
        let i = match self.find(&key) {
            Some(i) => i,
            None => self.push_empty(key),
        };
        let ghost start = self@;
        let ghost start_entries = self.entries@;
        assert(start.contains_key(k) && start[k] == (if old_map.contains_key(k) {
            old_map[k]
        } else {
            Seq::empty()
        }));
        let mut n: usize = 0;
        while n < positions.len()
            invariant
                self.wf(),
                i < self.entries@.len(),
                self.entries@[i as int].0@ == k,
                self.entries@.len() == start_entries.len(),
                forall|j: int| 0 <= j < start_entries.len() && j != i ==> #[trigger] self.entries@[j] == start_entries[j],
                n <= positions@.len(),
                self@ == start.insert(k, start[k] + positions@.take(n as int)),
            decreases positions@.len() - n,
        {
            let p = positions[n];
            self.add_at(i, p);
            n = n + 1;
            proof {
                assert(positions@.take(n as int) =~= positions@.take(n - 1).push(p));
                assert(start[k] + positions@.take(n as int) =~= (start[k] + positions@.take(n - 1)).push(p));
            }
        }
        proof {
            assert(positions@.take(positions@.len() as int) =~= positions@);
            assert(self@ =~= old_map.insert(
                k,
                if old_map.contains_key(k) {
                    old_map[k] + positions@
                } else {
                    positions@
                },
            ));
        }
    }

    /// Adds an entry for `key`, which is not in the map yet, with no
    /// positions, and hands back where it stands.
    fn push_empty(&mut self, key: String) -> (i: usize)
        requires
            old(self).wf(),
            !old(self)@.contains_key(key@),
        ensures
            final(self).wf(),
            i == old(self).entries@.len(),
            final(self).entries@.len() == old(self).entries@.len() + 1,
            final(self).entries@[i as int].0@ == key@,
            final(self)@ == old(self)@.insert(key@, Seq::empty()),
    {
        let ghost k = key@;
        let ghost before = self.entries@;
        let ghost old_map = self@;
        self.entries.push((key, Vec::new()));
        proof {
            self.index@ = self.index@.insert(k, Seq::empty());
            assert(self.entries@[before.len() as int].0@ == k);
            assert forall|j: int| 0 <= j < before.len() implies #[trigger] self.entries@[j]
                == before[j] by {}
            assert forall|v: Seq<char>| #[trigger] self.index@.contains_key(v) implies exists|j: int|
                0 <= j < self.entries@.len() && #[trigger] self.entries@[j].0@ == v by {
                if v != k {
                    let j = choose|j: int| 0 <= j < before.len() && #[trigger] before[j].0@ == v;
                    assert(self.entries@[j].0@ == v);
                } else {
                    assert(self.entries@[before.len() as int].0@ == v);
                }
            }
            assert forall|a: int, b: int|
                0 <= a < b < self.entries@.len() implies #[trigger] self.entries@[a].0@
                    != #[trigger] self.entries@[b].0@ by {
                if b == before.len() {
                    assert(old_map.contains_key(before[a].0@));
                }
            }
            assert forall|j: int| 0 <= j < self.entries@.len() implies {
                &&& self.index@.contains_key(#[trigger] self.entries@[j].0@)
                &&& self.index@[self.entries@[j].0@] == self.entries@[j].1@
            } by {
                if j < before.len() {
                    assert(old_map.contains_key(before[j].0@));
                }
            }
        }
        self.entries.len() - 1
    }

    /// Adds `position` to the positions of the entry at `i`.
    fn add_at(&mut self, i: usize, position: usize)
        requires
            old(self).wf(),
            i < old(self).entries@.len(),
        ensures
            final(self).wf(),
            final(self).entries@.len() == old(self).entries@.len(),
            forall|j: int|
                0 <= j < old(self).entries@.len() && j != i ==> #[trigger] final(self).entries@[j]
                    == old(self).entries@[j],
            final(self).entries@[i as int].0@ == old(self).entries@[i as int].0@,
            final(self)@ == old(self)@.insert(
                old(self).entries@[i as int].0@,
                old(self)@[old(self).entries@[i as int].0@].push(position),
            ),
    {
        let ghost w = self.entries@[i as int].0@;
        let ghost before = self.entries@;
        self.entries[i].1.push(position);
        proof {
            self.index@ = self.index@.insert(w, self.entries@[i as int].1@);
            assert forall|j: int| 0 <= j < self.entries@.len() implies #[trigger] self.entries@[j].0@
                == before[j].0@ by {}
            assert forall|v: Seq<char>| #[trigger] self.index@.contains_key(v) implies exists|j: int|
                0 <= j < self.entries@.len() && #[trigger] self.entries@[j].0@ == v by {
                if v != w {
                    let j = choose|j: int| 0 <= j < before.len() && #[trigger] before[j].0@ == v;
                    assert(self.entries@[j].0@ == v);
                } else {
                    assert(self.entries@[i as int].0@ == v);
                }
            }
            assert forall|j: int| 0 <= j < self.entries@.len() implies {
                &&& self.index@.contains_key(#[trigger] self.entries@[j].0@)
                &&& self.index@[self.entries@[j].0@] == self.entries@[j].1@
            } by {
                if j != i {
                    assert(self.entries@[j] == before[j]);
                }
            }
        }
    }

    /// The positions recorded for `word`, if it is in the index.
    pub fn get(&self, word: &str) -> (positions: Option<&Vec<usize>>)
        requires
            self.wf(),
        ensures
            match positions {
                Some(p) => self@.contains_key(word@) && p@ == self@[word@],
                None => !self@.contains_key(word@),
            },
    {
        let key = word.to_owned();
        match self.find(&key) {
            Some(i) => Some(&self.entries[i].1),
            None => None,
        }
    }

    /// The number of distinct words in the index.
    pub fn len(&self) -> (n: usize)
        requires
            self.wf(),
        ensures
            n == self@.len(),
    {
        proof {
            self.lemma_len();
        }
        self.entries.len()
    }

    /// Each word of the index with its positions, each word once.
    pub fn entries(&self) -> (entries: &Vec<(String, Vec<usize>)>)
        requires
            self.wf(),
        ensures
            forall|i: int, j: int|
                0 <= i < j < entries@.len() ==> #[trigger] entries@[i].0@ != #[trigger] entries@[j].0@,
            forall|i: int|
                0 <= i < entries@.len() ==> {
                    &&& self@.contains_key(#[trigger] entries@[i].0@)
                    &&& self@[entries@[i].0@] == entries@[i].1@
                },
            forall|w: Seq<char>|
                #[trigger] self@.contains_key(w) ==> exists|i: int|
                    0 <= i < entries@.len() && #[trigger] entries@[i].0@ == w,
    {
        &self.entries
    }

    /// The map has as many words as there are entries.
    proof fn lemma_len(&self)
        requires
            self.wf(),
        ensures
            self@.dom().finite(),
            self@.len() == self.entries@.len(),
    {
        let keys = self.entries@.map_values(|e: (String, Vec<usize>)| e.0@);
        assert forall|i: int, j: int| 0 <= i < j < keys.len() implies keys[i] != keys[j] by {
            assert(self.entries@[i].0@ != self.entries@[j].0@);
        }
        assert(keys.no_duplicates());
        keys.unique_seq_to_set();
        assert forall|w: Seq<char>| self@.dom().contains(w) <==> keys.to_set().contains(w) by {
            if self@.dom().contains(w) {
                let i = choose|i: int| 0 <= i < self.entries@.len() && #[trigger] self.entries@[i].0@ == w;
                assert(keys[i] == w);
            }
            if keys.to_set().contains(w) {
                let i = choose|i: int| 0 <= i < keys.len() && keys[i] == w;
                assert(self.entries@[i].0@ == w);
            }
        }
        assert(self@.dom() =~= keys.to_set());
    }
}

} // verus!
