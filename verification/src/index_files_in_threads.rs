use vstd::prelude::*;
use vstd::string::StringSliceAdditionalSpecFns;

use crate::word_index::scan::{
    increasing_positions, lemma_scan_close, lemma_scan_finish, lemma_scan_no_close,
    lemma_scan_start, scan_state, scanned,
};
use crate::word_index::utf8_offsets::{
    byte_offset, lemma_offset_boundary, lemma_offset_monotonic, lemma_offset_slice,
    lemma_offset_step, slice_of, utf8_len, utf8_width,
};
use crate::word_index::{chars_of, indexes_words, is_word_delimiter, PositionMap};

verus! {

/// The index of `string_to_index`, built piece by piece: the text is cut at
/// every delimiter, each non-empty piece is a word, and a running byte
/// count gives where it starts.
pub fn get_word_positions(string_to_index: &str) -> (indexed_string: PositionMap)
    requires
        string_to_index.spec_bytes().len() <= usize::MAX,
    ensures
        indexed_string.wf(),
        indexes_words(
            indexed_string@,
            string_to_index@,
            |a: int, b: int| string_to_index@.subrange(a, b),
            |a: int| byte_offset(string_to_index@, a),
        ),
{
    let ghost cs = string_to_index@;
    let ghost word = |a: int, b: int| cs.subrange(a, b);
    let ghost pos = |a: int| byte_offset(cs, a);
    let chars = chars_of(string_to_index);
    let mut indexed_string = PositionMap::new();
    // byte position at which the current piece starts
    let mut word_byte_index: usize = 0;
    // character index at which the current piece starts
    let mut piece_start: usize = 0;
    // byte position of the character being looked at
    let mut byte_index: usize = 0;
    let mut i: usize = 0;
    proof {
        lemma_scan_start(cs, word, pos);
        lemma_offset_boundary(cs, cs.len() as int);
        assert(cs.take(cs.len() as int) =~= cs);
        assert forall|x: int, y: int| 0 <= x < y <= cs.len() implies #[trigger] pos(x) < #[trigger] pos(y) by {
            lemma_offset_monotonic(cs, x, y);
        }
        assert forall|x: int| 0 <= x <= cs.len() implies 0 <= #[trigger] pos(x) <= usize::MAX by {
            lemma_offset_monotonic(cs, x, cs.len() as int);
        }
        assert(cs.take(0) =~= Seq::<char>::empty());
    }
    while i < chars.len()
        invariant
            chars@ == cs,
            string_to_index@ == cs,
            word == (|a: int, b: int| cs.subrange(a, b)),
            pos == (|a: int| byte_offset(cs, a)),
            increasing_positions(cs, pos),
            byte_offset(cs, cs.len() as int) == string_to_index.spec_bytes().len(),
            string_to_index.spec_bytes().len() <= usize::MAX,
            piece_start <= i <= cs.len(),
            byte_index == byte_offset(cs, i as int),
            word_byte_index == byte_offset(cs, piece_start as int),
            scan_state(cs, i as int, piece_start < i, piece_start as int),
            indexed_string.wf(),
            scanned(indexed_string@, cs, i as int, word, pos, pos(piece_start as int)),
        decreases cs.len() - i,
    {
        let ch = chars[i];
        proof {
            lemma_offset_step(cs, i as int);
            lemma_offset_monotonic(cs, i as int + 1, cs.len() as int);
            lemma_offset_monotonic(cs, piece_start as int, i as int);
        }
        if is_word_delimiter(ch) {
            if piece_start < i {
                proof {
                    lemma_scan_close(indexed_string@, cs, i as int, piece_start as int, word, pos);
                    lemma_offset_boundary(cs, piece_start as int);
                    lemma_offset_boundary(cs, i as int);
                    lemma_offset_slice(cs, piece_start as int, i as int);
                    vstd::utf8::encode_utf8_decode_utf8(cs.subrange(piece_start as int, i as int));
                }
                let piece = slice_of(string_to_index, word_byte_index, byte_index);
                indexed_string.add(piece, word_byte_index);
                // the next piece starts after this word ...
                word_byte_index = byte_index;
            } else {
                proof {
                    lemma_scan_no_close(
                        indexed_string@,
                        cs,
                        i as int,
                        false,
                        piece_start as int,
                        word,
                        pos,
                        pos(piece_start as int),
                        pos(i as int + 1),
                    );
                }
            }
            // ... and after the delimiter, which takes one byte
            proof {
                assert(utf8_width(ch) == 1);
            }
            word_byte_index = word_byte_index + 1;
            piece_start = i + 1;
        } else {
            proof {
                lemma_scan_no_close(
                    indexed_string@,
                    cs,
                    i as int,
                    piece_start < i,
                    piece_start as int,
                    word,
                    pos,
                    pos(piece_start as int),
                    pos(piece_start as int),
                );
            }
        }
        byte_index = byte_index + utf8_len(ch);
        i = i + 1;
    }
    if piece_start < i {
        proof {
            lemma_scan_close(indexed_string@, cs, i as int, piece_start as int, word, pos);
            lemma_offset_boundary(cs, piece_start as int);
            lemma_offset_boundary(cs, i as int);
            lemma_offset_slice(cs, piece_start as int, i as int);
            lemma_offset_monotonic(cs, piece_start as int, i as int);
            vstd::utf8::encode_utf8_decode_utf8(cs.subrange(piece_start as int, i as int));
        }
        let piece = slice_of(string_to_index, word_byte_index, byte_index);
        indexed_string.add(piece, word_byte_index);
        proof {
            lemma_scan_finish(indexed_string@, cs, word, pos, pos(piece_start as int) + 1);
        }
    } else {
        proof {
            lemma_scan_no_close(
                indexed_string@,
                cs,
                i as int,
                false,
                piece_start as int,
                word,
                pos,
                pos(piece_start as int),
                pos(piece_start as int),
            );
            lemma_scan_finish(indexed_string@, cs, word, pos, pos(piece_start as int));
        }
    }
    indexed_string
}

} // verus!
