use vstd::prelude::*;
use vstd::string::StringSliceAdditionalSpecFns;
use vstd::utf8::{decode_utf8, encode_utf8, valid_utf8};

use crate::word_index::utf8_offsets::lemma_encode_concat;

verus! {

/// The file is read backwards in pieces of at most this many bytes.
pub const READ_BUFFER_SIZE: usize = 4096;

/// The byte that ends a line.
pub const NEWLINE: u8 = 10;

/// The number of line ends in `s`.
pub open spec fn newlines(s: Seq<u8>) -> nat
    decreases s.len(),
{
    if s.len() == 0 {
        0
    } else {
        newlines(s.drop_last()) + if s.last() == NEWLINE {
            1nat
        } else {
            0nat
        }
    }
}

/// Whether the backward count of line ends in `chunk`, starting from
/// `before`, first goes past `n` at the line end at index `j`.
pub open spec fn passes_at(chunk: Seq<u8>, before: nat, n: nat, j: int) -> bool {
    &&& 0 <= j < chunk.len()
    &&& chunk[j] == NEWLINE
    &&& before + newlines(chunk.subrange(j, chunk.len() as int)) == n + 1
}

/// Where the kept part of `chunk` begins: at the line end where the count
/// of lines goes past `n`, or at the start of the chunk when it does not.
pub open spec fn chunk_cut(chunk: Seq<u8>, before: nat, n: nat) -> int {
    if exists|j: int| passes_at(chunk, before, n, j) {
        choose|j: int| passes_at(chunk, before, n, j)
    } else {
        0
    }
}

/// The text that the kept part of a chunk adds in front of the output: the
/// kept bytes decoded, or nothing when they are not valid UTF-8.
pub open spec fn kept_text(piece: Seq<u8>) -> Seq<char> {
    if valid_utf8(piece) {
        decode_utf8(piece)
    } else {
        Seq::empty()
    }
}

/// The state of reading the last `n` lines of a file backwards, chunk by
/// chunk.
pub struct TailState {
    n: u64,
    file_size: u64,
    tailed_lines: u64,
    tailed_output: String,
    file_len: Ghost<nat>,
    consumed: Ghost<Seq<u8>>,
    kept: Ghost<Seq<u8>>,
    all_valid: Ghost<bool>,
}

impl TailState {
    /// How many lines are wanted.
    pub closed spec fn lines_wanted(&self) -> nat {
        self.n as nat
    }

    /// How many bytes at the start of the file have not been read yet.
    pub closed spec fn unread(&self) -> nat {
        self.file_size as nat
    }

    /// How many line ends have been counted so far.
    pub closed spec fn lines_seen(&self) -> nat {
        self.tailed_lines as nat
    }

    /// The text gathered so far.
    pub closed spec fn output(&self) -> Seq<char> {
        self.tailed_output@
    }

    /// The length of the file.
    pub closed spec fn file_len(&self) -> nat {
        self.file_len@
    }

    /// The bytes read so far, in file order: the end of the file.
    pub closed spec fn consumed(&self) -> Seq<u8> {
        self.consumed@
    }

    /// The bytes kept so far, in file order: a suffix of `consumed`.
    pub closed spec fn kept(&self) -> Seq<u8> {
        self.kept@
    }

    /// Whether every kept piece so far was valid UTF-8.
    pub closed spec fn all_valid(&self) -> bool {
        self.all_valid@
    }

    /// Whether reading is over: enough lines have been counted, or the
    /// whole file has been read.
    pub open spec fn finished(&self) -> bool {
        !(self.lines_seen() < self.lines_wanted() && self.unread() > 0)
    }

    /// The size of the next chunk: up to `READ_BUFFER_SIZE` bytes before
    /// the unread end.
    pub open spec fn next_size(&self) -> nat {
        if self.unread() < READ_BUFFER_SIZE {
            self.unread()
        } else {
            READ_BUFFER_SIZE as nat
        }
    }

    /// The invariant of the reading state.
    pub closed spec fn wf(&self) -> bool {
        &&& self.file_size <= self.file_len@
        &&& self.file_len@ <= u64::MAX
        &&& self.consumed@.len() == self.file_len@ - self.file_size
        &&& self.tailed_lines <= self.consumed@.len()
        &&& self.tailed_lines <= self.n + 1
        &&& self.kept@.len() <= self.consumed@.len()
        &&& self.kept@ == self.consumed@.subrange(
            self.consumed@.len() - self.kept@.len(),
            self.consumed@.len() as int,
        )
        &&& self.all_valid@ ==> encode_utf8(self.tailed_output@) == self.kept@
        &&& self.tailed_lines == newlines(self.kept@)
        &&& self.tailed_lines <= self.n ==> self.kept@ == self.consumed@
        &&& self.tailed_lines > self.n ==> self.kept@.len() > 0 && self.kept@[0] == NEWLINE
    }

    /// The state before any reading of a file of `file_len` bytes, when the
    /// last `n` lines are wanted.
    pub fn new(file_len: u64, n: u64) -> (state: Self)
        ensures
            state.wf(),
            state.lines_wanted() == n,
            state.unread() == file_len,
            state.file_len() == file_len,
            state.lines_seen() == 0,
            state.output() == Seq::<char>::empty(),
            state.consumed() == Seq::<u8>::empty(),
            state.kept() == Seq::<u8>::empty(),
            state.all_valid(),
    {
        let state = TailState {
            n,
            file_size: file_len,
            tailed_lines: 0,
            tailed_output: String::new(),
            file_len: Ghost(file_len as nat),
            consumed: Ghost(Seq::empty()),
            kept: Ghost(Seq::empty()),
            all_valid: Ghost(true),
        };
        proof {
            assert(encode_utf8(Seq::<char>::empty()) =~= Seq::<u8>::empty());
            assert(Seq::<u8>::empty().subrange(0, 0) =~= Seq::<u8>::empty());
        }
        state
    }

    /// Where to read next: the offset and size of the next chunk, or `None`
    /// once reading is over.
    pub fn next_read(&self) -> (next: Option<(u64, usize)>)
        requires
            self.wf(),
        ensures
            self.finished() ==> next is None,
            !self.finished() ==> next == Some(
                ((self.unread() - self.next_size()) as u64, self.next_size() as usize),
            ),
    {
        if self.tailed_lines < self.n && self.file_size > 0 {
            let read_size: u64 = if self.file_size < READ_BUFFER_SIZE as u64 {
                self.file_size
            } else {
                READ_BUFFER_SIZE as u64
            };
            Some((self.file_size - read_size, read_size as usize))
        } else {
            None
        }
    }

    /// Takes in the chunk that `next_read` asked for: counts its line ends
    /// from the back, keeps the part of it from the line end where the count
    /// goes past the wanted number of lines (or the whole chunk), and puts
    /// that part, when it is valid UTF-8, in front of the output.
    #[verifier::rlimit(40)]
    pub fn take_chunk(&mut self, chunk: &[u8])
        requires
            old(self).wf(),
            !old(self).finished(),
            chunk@.len() == old(self).next_size(),
        ensures
            final(self).wf(),
            final(self).lines_wanted() == old(self).lines_wanted(),
            final(self).file_len() == old(self).file_len(),
            final(self).unread() == old(self).unread() - chunk@.len(),
            ({
                let cut = chunk_cut(chunk@, old(self).lines_seen(), old(self).lines_wanted());
                let piece = chunk@.subrange(cut, chunk@.len() as int);
                &&& 0 <= cut <= chunk@.len()
                &&& final(self).lines_seen() == old(self).lines_seen() + newlines(piece)
                &&& final(self).output() == kept_text(piece) + old(self).output()
                &&& final(self).consumed() == chunk@ + old(self).consumed()
                &&& final(self).kept() == piece + old(self).kept()
                &&& final(self).all_valid() == (old(self).all_valid() && valid_utf8(piece))
            }),
    {
        let read_size = chunk.len();
        let ghost before = self.tailed_lines as nat;
        let ghost n = self.n as nat;
        let mut found = false;
        let mut text_start: usize = 0;
        let mut pos: usize = 0;
        let mut tailed_lines = self.tailed_lines;
        proof {
            assert(chunk@.subrange(read_size as int, read_size as int) =~= Seq::<u8>::empty());
        }
        while pos < read_size
            invariant_except_break
                !found,
                text_start == 0,
                pos <= read_size,
                tailed_lines <= n,
                tailed_lines == before + newlines(chunk@.subrange(read_size - pos, read_size as int)),
                newlines(chunk@.subrange(read_size - pos, read_size as int)) <= pos,
                forall|j: int| read_size - pos <= j < read_size ==> !#[trigger] passes_at(chunk@, before, n, j),
            invariant
                read_size == chunk@.len(),
                self.n == n,
                before == self.tailed_lines,
                before <= self.consumed@.len(),
                self.consumed@.len() + read_size <= self.file_len@ <= u64::MAX,
            ensures
                text_start <= read_size,
                !found ==> text_start == 0 && tailed_lines <= n,
                found ==> passes_at(chunk@, before, n, text_start as int) && tailed_lines == n + 1,
                !found ==> (forall|j: int| 0 <= j < read_size ==> !#[trigger] passes_at(chunk@, before, n, j)),
                !found ==> tailed_lines == before + newlines(chunk@.subrange(0, read_size as int)),
            decreases read_size - pos,
        {
            let j = read_size - pos - 1;
            proof {
                lemma_newlines_push_front(chunk@, j as int, read_size as int);
            }
            if chunk[j] == NEWLINE {
                tailed_lines = tailed_lines + 1;
                if tailed_lines > self.n {
                    text_start = j;
                    found = true;
                    break;
                }
            }
            pos = pos + 1;
        }
        proof {
            if found {
                lemma_passes_unique(chunk@, before, n, text_start as int);
            }
        }
        let (_, piece) = chunk.split_at(text_start);
        let ghost cut = text_start as int;
        proof {
            assert(piece@ =~= chunk@.subrange(cut, read_size as int));
            assert(cut == chunk_cut(chunk@, before, n));
            lemma_newlines_concat(piece@, self.kept@);
        }
        let ghost old_output = self.tailed_output@;
        match utf8_text(piece) {
            Some(text) => {
                let mut new_output = text.to_owned();
                new_output.append(self.tailed_output.as_str());
                proof {
                    vstd::utf8::encode_utf8_decode_utf8(text@);
                    lemma_encode_concat(text@, old_output);
                }
                self.tailed_output = new_output;
            },
            None => {
                proof {
                    assert(Seq::<char>::empty() + old_output =~= old_output);
                }
            },
        }
        self.tailed_lines = tailed_lines;
        self.file_size = self.file_size - read_size as u64;
        proof {
            let old_consumed = self.consumed@;
            self.consumed@ = chunk@ + old_consumed;
            self.kept@ = piece@ + self.kept@;
            self.all_valid@ = self.all_valid@ && valid_utf8(piece@);
            lemma_newlines_concat(chunk@, old_consumed);
            lemma_newlines_len(self.kept@);
            if !found {
                assert(piece@ =~= chunk@);
            }
            assert(self.kept@ =~= self.consumed@.subrange(
                self.consumed@.len() - self.kept@.len(),
                self.consumed@.len() as int,
            ));
            if found {
                assert(self.kept@[0] == chunk@[cut]);
            }
        }
    }

    /// The gathered text.
    pub fn into_output(self) -> (output: String)
        ensures
            output@ == self.output(),
    {
        self.tailed_output
    }
}

/// What reading the end of a file gives back: once reading is over, and
/// provided every kept piece was valid UTF-8, the output is exactly the
/// kept bytes, which are the last bytes read. When more than `n` line ends
/// were counted, the kept bytes hold exactly `n + 1` of them and begin with
/// the line end that precedes the last `n` lines. Otherwise every byte read
/// was kept, and either the whole file was read or exactly `n` line ends
/// were counted.
pub proof fn law_tail_output(state: TailState)
    requires
        state.wf(),
        state.finished(),
        state.all_valid(),
    ensures
        encode_utf8(state.output()) == state.kept(),
        state.kept().len() <= state.consumed().len(),
        state.kept() == state.consumed().subrange(
            state.consumed().len() - state.kept().len(),
            state.consumed().len() as int,
        ),
        newlines(state.kept()) == state.lines_seen(),
        state.lines_seen() > state.lines_wanted() ==> {
            &&& state.lines_seen() == state.lines_wanted() + 1
            &&& state.kept().len() > 0
            &&& state.kept()[0] == NEWLINE
        },
        state.lines_seen() <= state.lines_wanted() ==> {
            &&& state.kept() == state.consumed()
            &&& state.unread() == 0 || state.lines_seen() == state.lines_wanted()
        },
{
}

/// `std::str::from_utf8`: the bytes as text when they are valid UTF-8.
#[verifier::external_body]
fn utf8_text(bytes: &[u8]) -> (text: Option<&str>)
    ensures
        text is Some <==> valid_utf8(bytes@),
        text matches Some(t) ==> t.spec_bytes() == bytes@,
{
    std::str::from_utf8(bytes).ok()
}

/// A sequence has no more line ends than bytes.
proof fn lemma_newlines_len(s: Seq<u8>)
    ensures
        newlines(s) <= s.len(),
    decreases s.len(),
{
    if s.len() > 0 {
        lemma_newlines_len(s.drop_last());
    }
}

/// Line ends of a concatenation add up.
proof fn lemma_newlines_concat(x: Seq<u8>, y: Seq<u8>)
    ensures
        newlines(x + y) == newlines(x) + newlines(y),
    decreases y.len(),
{
    if y.len() == 0 {
        assert(x + y =~= x);
    } else {
        lemma_newlines_concat(x, y.drop_last());
        assert((x + y).drop_last() =~= x + y.drop_last());
    }
}

/// The line end where the count goes past `n` is the only one.
proof fn lemma_passes_unique(chunk: Seq<u8>, before: nat, n: nat, j: int)
    requires
        passes_at(chunk, before, n, j),
    ensures
        chunk_cut(chunk, before, n) == j,
{
    assert forall|k: int| passes_at(chunk, before, n, k) implies k == j by {
        if k < j {
            lemma_newlines_more(chunk, k, j);
        }
        if j < k {
            lemma_newlines_more(chunk, j, k);
        }
    }
}

/// A range that starts at a line end and reaches past a later start has
/// more line ends.
proof fn lemma_newlines_more(s: Seq<u8>, a: int, b: int)
    requires
        0 <= a < b < s.len(),
        s[a] == NEWLINE,
    ensures
        newlines(s.subrange(a, s.len() as int)) > newlines(s.subrange(b, s.len() as int)),
    decreases b - a,
{
    lemma_newlines_push_front(s, a, s.len() as int);
    if a + 1 < b {
        lemma_newlines_at_least(s, a + 1, b);
    }
}

/// Starting a range earlier never loses line ends.
proof fn lemma_newlines_at_least(s: Seq<u8>, a: int, b: int)
    requires
        0 <= a <= b <= s.len(),
    ensures
        newlines(s.subrange(a, s.len() as int)) >= newlines(s.subrange(b, s.len() as int)),
    decreases b - a,
{
    if a < b {
        lemma_newlines_push_front(s, a, s.len() as int);
        lemma_newlines_at_least(s, a + 1, b);
    }
}

/// Counting the line ends of a range that starts one byte earlier adds
/// that byte's line end.
proof fn lemma_newlines_push_front(s: Seq<u8>, j: int, end: int)
    requires
        0 <= j < end <= s.len(),
    ensures
        newlines(s.subrange(j, end)) == newlines(s.subrange(j + 1, end)) + if s[j] == NEWLINE {
            1nat
        } else {
            0nat
        },
        newlines(s.subrange(j + 1, end)) <= end - j - 1,
    decreases end - j,
{
    if j + 1 == end {
        assert(s.subrange(j, end).drop_last() =~= Seq::<u8>::empty());
        assert(s.subrange(j + 1, end) =~= Seq::<u8>::empty());
    } else {
        lemma_newlines_push_front(s, j, end - 1);
        assert(s.subrange(j, end).drop_last() =~= s.subrange(j, end - 1));
        assert(s.subrange(j + 1, end).drop_last() =~= s.subrange(j + 1, end - 1));
    }
}

} // verus!
