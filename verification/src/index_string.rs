use vstd::prelude::*;
use vstd::string::StringSliceAdditionalSpecFns;
use vstd::utf8::{decode_utf8, is_char_boundary};

use crate::word_index::scan::{
    increasing_positions, lemma_scan_close, lemma_scan_finish, lemma_scan_no_close,
    lemma_scan_start, scan_state, scanned,
};
use crate::word_index::utf8_offsets::slice_of;
use crate::word_index::{chars_of, indexes_words, is_word_delimiter, is_word_span, PositionMap};

verus! {

/// The text that the index records for the word running from character
/// `a` up to character `b`: the character indices are used as byte
/// positions into the UTF-8 encoding `bytes` (which coincide for ASCII
/// text), and a word that reaches the end of the text runs to the last
/// byte.
pub open spec fn word_at_char_indices(bytes: Seq<u8>, len: int, a: int, b: int) -> Seq<char> {
    if b == len {
        decode_utf8(bytes.subrange(a, bytes.len() as int))
    } else {
        decode_utf8(bytes.subrange(a, b))
    }
}

/// Whether cutting the encoding of the text at the character indices that
/// delimit its words lands on character boundaries, so that every cut is
/// possible.
pub open spec fn cuts_fall_on_boundaries(s: &str) -> bool {
    forall|a: int, b: int|
        #[trigger] is_word_span(s@, a, b) ==> {
            &&& is_char_boundary(s.spec_bytes(), a)
            &&& b < s@.len() ==> is_char_boundary(s.spec_bytes(), b)
        }
}

/// The index of `string_to_index`: each word, with the character positions
/// at which it starts, in increasing order. The words are cut out of the
/// text's bytes at those character positions, which is exact for ASCII
/// text; the text must be one in which every such cut falls on a character
/// boundary.
pub fn get_word_positions(string_to_index: &str) -> (indexed_string: PositionMap)
    requires
        string_to_index.spec_bytes().len() <= usize::MAX,
        cuts_fall_on_boundaries(string_to_index),
    ensures
        indexed_string.wf(),
        indexes_words(
            indexed_string@,
            string_to_index@,
            |a: int, b: int|
                word_at_char_indices(
                    string_to_index.spec_bytes(),
                    string_to_index@.len() as int,
                    a,
                    b,
                ),
            |a: int| a,
        ),
{
    let ghost cs = string_to_index@;
    let ghost bytes = string_to_index.spec_bytes();
    let ghost word = |a: int, b: int| word_at_char_indices(bytes, cs.len() as int, a, b);
    let ghost pos = |a: int| a;
    let chars = chars_of(string_to_index);
    let mut indexed_string = PositionMap::new();
    let mut is_tracking_word = false;
    let mut word_start_index: usize = 0;
    let mut index: usize = 0;
    proof {
        lemma_scan_start(cs, word, pos);
        vstd::utf8::encode_utf8_valid_utf8(cs);
        vstd::utf8::is_char_boundary_start_end_of_seq(bytes);
        lemma_chars_fit_bytes(cs);
    }
    while index < chars.len()
        invariant
            chars@ == cs,
            string_to_index@ == cs,
            string_to_index.spec_bytes() == bytes,
            bytes.len() <= usize::MAX,
            cs.len() <= bytes.len(),
            vstd::utf8::valid_utf8(bytes),
            vstd::utf8::is_char_boundary(bytes, bytes.len() as int),
            cuts_fall_on_boundaries(string_to_index),
            word == (|a: int, b: int| word_at_char_indices(bytes, cs.len() as int, a, b)),
            pos == (|a: int| a),
            index <= cs.len(),
            scan_state(cs, index as int, is_tracking_word, word_start_index as int),
            indexed_string.wf(),
            scanned(
                indexed_string@,
                cs,
                index as int,
                word,
                pos,
                if is_tracking_word {
                    word_start_index as int
                } else {
                    index as int
                },
            ),
        decreases cs.len() - index,
    {
        let ch = chars[index];
        let is_ch_punctuation = is_word_delimiter(ch);
        if is_tracking_word {
            if is_ch_punctuation {
                proof {
                    lemma_scan_close(
                        indexed_string@,
                        cs,
                        index as int,
                        word_start_index as int,
                        word,
                        pos,
                    );
                }
                let found_word = slice_of(string_to_index, word_start_index, index);
                indexed_string.add(found_word, word_start_index);
                is_tracking_word = false;
            } else {
                proof {
                    lemma_scan_no_close(
                        indexed_string@,
                        cs,
                        index as int,
                        true,
                        word_start_index as int,
                        word,
                        pos,
                        word_start_index as int,
                        word_start_index as int,
                    );
                }
            }
        } else {
            proof {
                lemma_scan_no_close(
                    indexed_string@,
                    cs,
                    index as int,
                    false,
                    word_start_index as int,
                    word,
                    pos,
                    index as int,
                    index as int,
                );
            }
            if !is_ch_punctuation {
                is_tracking_word = true;
                word_start_index = index;
            }
        }
        index = index + 1;
    }
    if is_tracking_word {
        proof {
            lemma_scan_close(indexed_string@, cs, index as int, word_start_index as int, word, pos);
        }
        let found_word = slice_of(string_to_index, word_start_index, string_to_index.len());
        indexed_string.add(found_word, word_start_index);
        proof {
            lemma_scan_finish(indexed_string@, cs, word, pos, word_start_index as int + 1);
        }
    } else {
        proof {
            lemma_scan_no_close(
                indexed_string@,
                cs,
                index as int,
                false,
                word_start_index as int,
                word,
                pos,
                index as int,
                index as int,
            );
            lemma_scan_finish(indexed_string@, cs, word, pos, index as int);
        }
    }
    indexed_string
}

/// A text has at least as many bytes as characters.
proof fn lemma_chars_fit_bytes(cs: Seq<char>)
    ensures
        cs.len() <= vstd::utf8::encode_utf8(cs).len(),
    decreases cs.len(),
{
    if cs.len() > 0 {
        lemma_chars_fit_bytes(cs.drop_first());
        vstd::utf8::char_is_scalar(cs[0]);
    }
}

} // verus!
