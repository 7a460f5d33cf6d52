use vstd::prelude::*;
use vstd::string::StringSliceAdditionalSpecFns;

use super::file_index::{add_to_files, merged_file};
use super::utf8_offsets::byte_offset;
use super::{indexes_words, is_delimiter, is_word_span, occurs_in, strictly_increasing};
use crate::index_string::{cuts_fall_on_boundaries, word_at_char_indices};

verus! {

/// Two strictly increasing sequences that hold the same elements are equal.
proof fn lemma_increasing_same_elements(s1: Seq<usize>, s2: Seq<usize>)
    requires
        strictly_increasing(s1),
        strictly_increasing(s2),
        forall|x: usize| s1.contains(x) <==> s2.contains(x),
    ensures
        s1 == s2,
    decreases s1.len(),
{
    if s1.len() == 0 {
        if s2.len() > 0 {
            assert(s2.contains(s2[0]));
        }
        assert(s1 =~= s2);
    } else {
        assert(s1.contains(s1[0]));
        assert(s2.len() > 0);
        assert(s2.contains(s2[0]));
        let k1 = choose|k: int| 0 <= k < s1.len() && s1[k] == s2[0];
        let k2 = choose|k: int| 0 <= k < s2.len() && s2[k] == s1[0];
        if k1 > 0 {
            assert(s1[0] < s1[k1]);
            if k2 > 0 {
                assert(s2[0] < s2[k2]);
            }
        }
        assert(s1[0] == s2[0]);
        let t1 = s1.drop_first();
        let t2 = s2.drop_first();
        assert forall|x: usize| t1.contains(x) <==> t2.contains(x) by {
            if t1.contains(x) {
                let k = choose|k: int| 0 <= k < t1.len() && t1[k] == x;
                assert(s1[0] < s1[k + 1]);
                assert(s1.contains(x));
                let j = choose|j: int| 0 <= j < s2.len() && s2[j] == x;
                assert(j != 0);
                assert(t2[j - 1] == x);
            }
            if t2.contains(x) {
                let k = choose|k: int| 0 <= k < t2.len() && t2[k] == x;
                assert(s2[0] < s2[k + 1]);
                assert(s2.contains(x));
                let j = choose|j: int| 0 <= j < s1.len() && s1[j] == x;
                assert(j != 0);
                assert(t1[j - 1] == x);
            }
        }
        lemma_increasing_same_elements(t1, t2);
        assert(s1 =~= seq![s1[0]] + t1);
        assert(s2 =~= seq![s2[0]] + t2);
    }
}

/// In an index of `cs`, a word is listed at a position exactly when some
/// word of `cs` is that word and starts there.
proof fn lemma_index_membership(
    m: Map<Seq<char>, Seq<usize>>,
    cs: Seq<char>,
    word: spec_fn(int, int) -> Seq<char>,
    pos: spec_fn(int) -> int,
    w: Seq<char>,
    p: usize,
)
    requires
        indexes_words(m, cs, word, pos),
    ensures
        (m.contains_key(w) && m[w].contains(p)) <==> occurs_in(cs, word, pos, w, p as int),
{
    if m.contains_key(w) && m[w].contains(p) {
        let k = choose|k: int| 0 <= k < m[w].len() && m[w][k] == p;
        assert(occurs_in(cs, word, pos, w, m[w][k] as int));
    }
    if occurs_in(cs, word, pos, w, p as int) {
        let (a, b) = choose|a: int, b: int|
            #![trigger is_word_span(cs, a, b)]
            is_word_span(cs, a, b) && word(a, b) == w && pos(a) == p;
        assert(is_word_span(cs, a, b));
    }
}

/// The index of a text is determined by the text: two maps that both meet
/// the description of the index of `cs` are the same map. Every indexer
/// whose contract is `indexes_words` therefore gives the same index.
pub proof fn law_index_is_unique(
    m1: Map<Seq<char>, Seq<usize>>,
    m2: Map<Seq<char>, Seq<usize>>,
    cs: Seq<char>,
    word: spec_fn(int, int) -> Seq<char>,
    pos: spec_fn(int) -> int,
)
    requires
        indexes_words(m1, cs, word, pos),
        indexes_words(m2, cs, word, pos),
    ensures
        m1 == m2,
{
    assert forall|w: Seq<char>| m1.contains_key(w) implies m2.contains_key(w) && m1[w] == m2[w] by {
        assert(m1[w].contains(m1[w][0]));
        lemma_index_membership(m1, cs, word, pos, w, m1[w][0]);
        lemma_index_membership(m2, cs, word, pos, w, m1[w][0]);
        assert forall|x: usize| m1[w].contains(x) <==> m2[w].contains(x) by {
            lemma_index_membership(m1, cs, word, pos, w, x);
            lemma_index_membership(m2, cs, word, pos, w, x);
        }
        lemma_increasing_same_elements(m1[w], m2[w]);
    }
    assert forall|w: Seq<char>| m2.contains_key(w) implies m1.contains_key(w) by {
        assert(m2[w].contains(m2[w][0]));
        lemma_index_membership(m2, cs, word, pos, w, m2[w][0]);
        lemma_index_membership(m1, cs, word, pos, w, m2[w][0]);
    }
    assert(m1 =~= m2);
}

/// An index stays an index when the way of naming words and positions is
/// replaced by one that agrees with it on every word of the text.
proof fn lemma_index_transfer(
    m: Map<Seq<char>, Seq<usize>>,
    cs: Seq<char>,
    word1: spec_fn(int, int) -> Seq<char>,
    pos1: spec_fn(int) -> int,
    word2: spec_fn(int, int) -> Seq<char>,
    pos2: spec_fn(int) -> int,
)
    requires
        indexes_words(m, cs, word1, pos1),
        forall|a: int, b: int|
            #[trigger] is_word_span(cs, a, b) ==> word1(a, b) == word2(a, b) && pos1(a) == pos2(a),
    ensures
        indexes_words(m, cs, word2, pos2),
{
    assert forall|w: Seq<char>, k: int|
        m.contains_key(w) && 0 <= k < m[w].len() implies occurs_in(
            cs,
            word2,
            pos2,
            w,
            #[trigger] m[w][k] as int,
        ) by {
        assert(occurs_in(cs, word1, pos1, w, m[w][k] as int));
        let (a, b) = choose|a: int, b: int|
            #![trigger is_word_span(cs, a, b)]
            is_word_span(cs, a, b) && word1(a, b) == w && pos1(a) == m[w][k];
        assert(is_word_span(cs, a, b));
    }
    assert forall|a: int, b: int| #[trigger] is_word_span(cs, a, b) implies {
        &&& m.contains_key(word2(a, b))
        &&& m[word2(a, b)].contains(pos2(a) as usize)
    } by {
        assert(m.contains_key(word1(a, b)));
    }
}

/// Every position of an ASCII text is a character boundary, so the
/// indexer that cuts at character indices accepts every ASCII text.
pub proof fn law_ascii_text_can_be_cut_anywhere(s: &str)
    requires
        vstd::string::is_ascii(s),
    ensures
        cuts_fall_on_boundaries(s),
{
    let bytes = s.spec_bytes();
    vstd::utf8::is_ascii_chars_encode_utf8(s@);
    vstd::utf8::encode_utf8_valid_utf8(s@);
    assert forall|a: int, b: int| #[trigger] is_word_span(s@, a, b) implies {
        &&& vstd::utf8::is_char_boundary(bytes, a)
        &&& b < s@.len() ==> vstd::utf8::is_char_boundary(bytes, b)
    } by {
        vstd::utf8::is_char_boundary_iff_is_leading_byte(bytes, a);
        assert(s@[a] as u8 == bytes[a]);
        if b < s@.len() {
            vstd::utf8::is_char_boundary_iff_is_leading_byte(bytes, b);
            assert(s@[b] as u8 == bytes[b]);
        }
    }
}

/// On ASCII text character positions are byte positions, so the index by
/// character positions and the index by byte positions are the same.
pub proof fn law_ascii_char_and_byte_indexes_agree(
    s: &str,
    by_chars: Map<Seq<char>, Seq<usize>>,
    by_bytes: Map<Seq<char>, Seq<usize>>,
)
    requires
        vstd::string::is_ascii(s),
        indexes_words(
            by_chars,
            s@,
            |a: int, b: int| word_at_char_indices(s.spec_bytes(), s@.len() as int, a, b),
            |a: int| a,
        ),
        indexes_words(by_bytes, s@, |a: int, b: int| s@.subrange(a, b), |a: int| byte_offset(s@, a)),
    ensures
        by_chars == by_bytes,
{
    let cs = s@;
    let bytes = s.spec_bytes();
    vstd::utf8::is_ascii_chars_encode_utf8(cs);
    assert forall|a: int, b: int| #[trigger] is_word_span(cs, a, b) implies word_at_char_indices(
        bytes,
        cs.len() as int,
        a,
        b,
    ) == cs.subrange(a, b) && a == byte_offset(cs, a) by {
        lemma_ascii_slice(cs, a, b);
        lemma_ascii_slice(cs, 0, a);
        assert(cs.subrange(0, a) =~= cs.take(a));
    }
    lemma_index_transfer(
        by_chars,
        cs,
        |a: int, b: int| word_at_char_indices(bytes, cs.len() as int, a, b),
        |a: int| a,
        |a: int, b: int| cs.subrange(a, b),
        |a: int| byte_offset(cs, a),
    );
    law_index_is_unique(
        by_chars,
        by_bytes,
        cs,
        |a: int, b: int| cs.subrange(a, b),
        |a: int| byte_offset(cs, a),
    );
}

/// In an ASCII text, the bytes between two character positions decode to
/// the characters between them.
proof fn lemma_ascii_slice(cs: Seq<char>, a: int, b: int)
    requires
        vstd::utf8::is_ascii_chars(cs),
        0 <= a <= b <= cs.len(),
    ensures
        vstd::utf8::decode_utf8(vstd::utf8::encode_utf8(cs).subrange(a, b)) == cs.subrange(a, b),
        vstd::utf8::encode_utf8(cs.subrange(a, b)).len() == b - a,
{
    let sub = cs.subrange(a, b);
    vstd::utf8::is_ascii_chars_encode_utf8(cs);
    assert(vstd::utf8::is_ascii_chars(sub));
    vstd::utf8::is_ascii_chars_encode_utf8(sub);
    assert(vstd::utf8::encode_utf8(cs).subrange(a, b) =~= vstd::utf8::encode_utf8(sub));
    vstd::utf8::encode_utf8_decode_utf8(sub);
}

/// Merging the indexes of two different files gives the same index in
/// either order, so results that come back from workers in any order build
/// the same index of many files.
pub proof fn law_file_merge_order_irrelevant(
    index: Map<Seq<char>, Map<Seq<char>, Seq<usize>>>,
    file1: Seq<char>,
    words1: Map<Seq<char>, Seq<usize>>,
    file2: Seq<char>,
    words2: Map<Seq<char>, Seq<usize>>,
)
    requires
        file1 != file2,
    ensures
        merged_file(merged_file(index, file1, words1), file2, words2) == merged_file(
            merged_file(index, file2, words2),
            file1,
            words1,
        ),
{
    let a = merged_file(merged_file(index, file1, words1), file2, words2);
    let b = merged_file(merged_file(index, file2, words2), file1, words1);
    assert forall|w: Seq<char>| #[trigger] a.contains_key(w) implies a[w] =~= b[w] by {}
    assert(a =~= b);
}

/// Words are separated by exactly the ASCII punctuation characters and
/// the ASCII white space characters (space, tab, line feed, form feed and
/// carriage return); every other character, letters and digits and all
/// non-ASCII characters among them, belongs to a word.
pub proof fn law_delimiters_are_ascii_punctuation_and_whitespace(c: char)
    ensures
        is_delimiter(c) <==> {
            ||| c == '!' || c == '"' || c == '#' || c == '$' || c == '%' || c == '&' || c == '\''
            ||| c == '(' || c == ')' || c == '*' || c == '+' || c == ',' || c == '-' || c == '.'
            ||| c == '/' || c == ':' || c == ';' || c == '<' || c == '=' || c == '>' || c == '?'
            ||| c == '@' || c == '[' || c == '\\' || c == ']' || c == '^' || c == '_' || c == '`'
            ||| c == '{' || c == '|' || c == '}' || c == '~'
            ||| c == ' ' || c == '\t' || c == '\n' || c == '\x0C' || c == '\r'
        },
{
}

/// Merging the index of a file keeps every position of it: each word of
/// the file lists, for that file, the positions it already had there (none
/// if it had none) followed by all of the file's positions of the word, in
/// their order; the positions of that word in other files stay as they
/// were; and words that the file does not hold keep what they had.
pub proof fn law_merge_keeps_every_position(
    index: Map<Seq<char>, Map<Seq<char>, Seq<usize>>>,
    file: Seq<char>,
    words: Map<Seq<char>, Seq<usize>>,
)
    ensures
        forall|w: Seq<char>|
            #[trigger] words.contains_key(w) ==> {
                let before: Seq<usize> = if index.contains_key(w) && index[w].contains_key(file) {
                    index[w][file]
                } else {
                    Seq::empty()
                };
                let after = merged_file(index, file, words)[w];
                &&& merged_file(index, file, words).contains_key(w)
                &&& after.contains_key(file)
                &&& after[file].len() == before.len() + words[w].len()
                &&& after[file].take(before.len() as int) == before
                &&& after[file].skip(before.len() as int) == words[w]
                &&& forall|g: Seq<char>|
                    g != file ==> (#[trigger] after.contains_key(g) <==> (index.contains_key(w)
                        && index[w].contains_key(g)))
                &&& forall|g: Seq<char>|
                    g != file && #[trigger] after.contains_key(g) ==> after[g] == index[w][g]
            },
        forall|w: Seq<char>|
            !words.contains_key(w) ==> (#[trigger] merged_file(index, file, words).contains_key(w)
                <==> index.contains_key(w)),
        forall|w: Seq<char>|
            !words.contains_key(w) && index.contains_key(w) ==> #[trigger] merged_file(
                index,
                file,
                words,
            )[w] == index[w],
{
    let m = merged_file(index, file, words);
    assert forall|w: Seq<char>| #[trigger] words.contains_key(w) implies {
        let before: Seq<usize> = if index.contains_key(w) && index[w].contains_key(file) {
            index[w][file]
        } else {
            Seq::empty()
        };
        let after = m[w];
        &&& m.contains_key(w)
        &&& after.contains_key(file)
        &&& after[file].len() == before.len() + words[w].len()
        &&& after[file].take(before.len() as int) == before
        &&& after[file].skip(before.len() as int) == words[w]
        &&& forall|g: Seq<char>|
            g != file ==> (#[trigger] after.contains_key(g) <==> (index.contains_key(w)
                && index[w].contains_key(g)))
        &&& forall|g: Seq<char>|
            g != file && #[trigger] after.contains_key(g) ==> after[g] == index[w][g]
    } by {
        let before: Seq<usize> = if index.contains_key(w) && index[w].contains_key(file) {
            index[w][file]
        } else {
            Seq::empty()
        };
        let after = m[w];
        assert(after[file] =~= before + words[w]);
        assert(after[file].take(before.len() as int) =~= before);
        assert(after[file].skip(before.len() as int) =~= words[w]);
    }
}

} // verus!
