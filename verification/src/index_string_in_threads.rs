use vstd::prelude::*;
use vstd::string::StringSliceAdditionalSpecFns;

use crate::word_index::scan::{
    increasing_positions, lemma_scan_close, lemma_scan_finish, lemma_scan_no_close,
    lemma_scan_start, scan_state, scanned,
};
use crate::word_index::utf8_offsets::{
    byte_offset, lemma_offset_boundary, lemma_offset_monotonic, lemma_offset_slice,
    lemma_offset_step, slice_of, utf8_len,
};
use crate::word_index::{chars_of, indexes_words, is_word_delimiter, PositionMap};

verus! {

/// The index of `string_to_index`: each word, with the byte positions at
/// which it starts, in increasing order.
pub fn get_word_positions(string_to_index: &str) -> (indexed_string: PositionMap)
    requires
        string_to_index.spec_bytes().len() <= usize::MAX,
    ensures
        indexed_string.wf(),
        indexes_words(
            indexed_string@,
            string_to_index@,
            |a: int, b: int| string_to_index@.subrange(a, b),
            |a: int| byte_offset(string_to_index@, a),
        ),
{
    let ghost cs = string_to_index@;
    let ghost word = |a: int, b: int| cs.subrange(a, b);
    let ghost pos = |a: int| byte_offset(cs, a);
    let chars = chars_of(string_to_index);
    let mut indexed_string = PositionMap::new();
    let mut is_tracking_word = false;
    let mut word_start_index: usize = 0;
    let ghost mut start_char: int = 0;
    let mut index: usize = 0;
    let mut i: usize = 0;
    proof {
        lemma_scan_start(cs, word, pos);
        lemma_offset_boundary(cs, cs.len() as int);
        assert(cs.take(cs.len() as int) =~= cs);
        assert forall|x: int, y: int| 0 <= x < y <= cs.len() implies #[trigger] pos(x) < #[trigger] pos(y) by {
            lemma_offset_monotonic(cs, x, y);
        }
        assert forall|x: int| 0 <= x <= cs.len() implies 0 <= #[trigger] pos(x) <= usize::MAX by {
            lemma_offset_monotonic(cs, x, cs.len() as int);
        }
        assert(cs.take(0) =~= Seq::<char>::empty());
    }
    while i < chars.len()
        invariant
            chars@ == cs,
            string_to_index@ == cs,
            word == (|a: int, b: int| cs.subrange(a, b)),
            pos == (|a: int| byte_offset(cs, a)),
            increasing_positions(cs, pos),
            byte_offset(cs, cs.len() as int) == string_to_index.spec_bytes().len(),
            string_to_index.spec_bytes().len() <= usize::MAX,
            i <= cs.len(),
            index == byte_offset(cs, i as int),
            scan_state(cs, i as int, is_tracking_word, start_char),
            is_tracking_word ==> word_start_index == byte_offset(cs, start_char),
            indexed_string.wf(),
            scanned(
                indexed_string@,
                cs,
                i as int,
                word,
                pos,
                if is_tracking_word {
                    pos(start_char)
                } else {
                    pos(i as int)
                },
            ),
        decreases cs.len() - i,
    {
        let ch = chars[i];
        let is_ch_punctuation = is_word_delimiter(ch);
        proof {
            lemma_offset_step(cs, i as int);
            lemma_offset_monotonic(cs, i as int + 1, cs.len() as int);
        }
        if is_tracking_word {
            if is_ch_punctuation {
                proof {
                    lemma_scan_close(indexed_string@, cs, i as int, start_char, word, pos);
                    lemma_offset_boundary(cs, start_char);
                    lemma_offset_boundary(cs, i as int);
                    lemma_offset_slice(cs, start_char, i as int);
                    lemma_offset_monotonic(cs, start_char, i as int);
                    vstd::utf8::encode_utf8_decode_utf8(cs.subrange(start_char, i as int));
                }
                let found_word = slice_of(string_to_index, word_start_index, index);
                indexed_string.add(found_word, word_start_index);
                is_tracking_word = false;
            } else {
                proof {
                    lemma_scan_no_close(
                        indexed_string@,
                        cs,
                        i as int,
                        is_tracking_word,
                        start_char,
                        word,
                        pos,
                        pos(start_char),
                        pos(start_char),
                    );
                }
            }
        } else {
            proof {
                lemma_scan_no_close(
                    indexed_string@,
                    cs,
                    i as int,
                    is_tracking_word,
                    start_char,
                    word,
                    pos,
                    pos(i as int),
                    if is_ch_punctuation { pos(i as int + 1) } else { pos(i as int) },
                );
            }
            if !is_ch_punctuation {
                is_tracking_word = true;
                word_start_index = index;
                proof {
                    start_char = i as int;
                }
            }
        }
        index = index + utf8_len(ch);
        i = i + 1;
    }
    if is_tracking_word {
        proof {
            lemma_scan_close(indexed_string@, cs, i as int, start_char, word, pos);
            lemma_offset_boundary(cs, start_char);
            lemma_offset_boundary(cs, i as int);
            lemma_offset_slice(cs, start_char, i as int);
            lemma_offset_monotonic(cs, start_char, i as int);
            vstd::utf8::encode_utf8_decode_utf8(cs.subrange(start_char, i as int));
        }
        let found_word = slice_of(string_to_index, word_start_index, index);
        indexed_string.add(found_word, word_start_index);
        proof {
            lemma_scan_finish(indexed_string@, cs, word, pos, pos(start_char) + 1);
        }
    } else {
        proof {
            lemma_scan_no_close(
                indexed_string@,
                cs,
                i as int,
                is_tracking_word,
                start_char,
                word,
                pos,
                pos(i as int),
                pos(i as int),
            );
            lemma_scan_finish(indexed_string@, cs, word, pos, pos(i as int));
        }
    }
    indexed_string
}

} // verus!
