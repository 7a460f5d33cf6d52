use vstd::prelude::*;

use super::{indexes_words, is_delimiter, is_word_span, occurs_in, strictly_increasing};

verus! {

/// Whether a word that runs up to index `i` ends there: `i` is the end of
/// the text or holds a delimiter.
pub open spec fn closes(cs: Seq<char>, i: int) -> bool {
    i == cs.len() || is_delimiter(cs[i])
}

/// The state of a left-to-right scan that has looked at the characters
/// before index `i`: when it is inside a word, the word began at `start`.
pub open spec fn scan_state(cs: Seq<char>, i: int, tracking: bool, start: int) -> bool {
    &&& 0 <= i <= cs.len()
    &&& tracking ==> {
        &&& 0 <= start < i
        &&& start == 0 || is_delimiter(cs[start - 1])
        &&& forall|k: int| start <= k < i ==> !is_delimiter(#[trigger] cs[k])
    }
    &&& !tracking ==> (i == 0 || is_delimiter(cs[i - 1]))
}

/// Positions grow with the start of the word.
pub open spec fn increasing_positions(cs: Seq<char>, pos: spec_fn(int) -> int) -> bool {
    &&& forall|x: int, y: int| 0 <= x < y <= cs.len() ==> #[trigger] pos(x) < #[trigger] pos(y)
    &&& forall|x: int| 0 <= x <= cs.len() ==> 0 <= #[trigger] pos(x) <= usize::MAX
}

/// Whether `w` is recorded at `p` for some word of `cs` that ends before
/// `limit`.
pub open spec fn occurs_before(
    cs: Seq<char>,
    limit: int,
    word: spec_fn(int, int) -> Seq<char>,
    pos: spec_fn(int) -> int,
    w: Seq<char>,
    p: int,
) -> bool {
    exists|a: int, b: int|
        #![trigger is_word_span(cs, a, b)]
        is_word_span(cs, a, b) && b < limit && word(a, b) == w && pos(a) == p
}

/// The index `m` records exactly the words that end before `limit`, each
/// under `word(a, b)` at `pos(a)`, and every recorded position is below
/// `bound`.
pub open spec fn scanned(
    m: Map<Seq<char>, Seq<usize>>,
    cs: Seq<char>,
    limit: int,
    word: spec_fn(int, int) -> Seq<char>,
    pos: spec_fn(int) -> int,
    bound: int,
) -> bool {
    &&& forall|w: Seq<char>|
        #[trigger] m.contains_key(w) ==> {
            &&& m[w].len() > 0
            &&& strictly_increasing(m[w])
            &&& forall|k: int| 0 <= k < m[w].len() ==> m[w][k] < bound
        }
    &&& forall|w: Seq<char>, k: int|
        m.contains_key(w) && 0 <= k < m[w].len() ==> occurs_before(
            cs,
            limit,
            word,
            pos,
            w,
            #[trigger] m[w][k] as int,
        )
    &&& forall|a: int, b: int|
        #[trigger] is_word_span(cs, a, b) && b < limit ==> {
            &&& m.contains_key(word(a, b))
            &&& m[word(a, b)].contains(pos(a) as usize)
        }
}

/// The scan has recorded nothing before it starts.
pub proof fn lemma_scan_start(
    cs: Seq<char>,
    word: spec_fn(int, int) -> Seq<char>,
    pos: spec_fn(int) -> int,
)
    ensures
        scan_state(cs, 0, false, 0),
        scanned(Map::empty(), cs, 0, word, pos, pos(0)),
{
}

/// A scan step at which no word ends keeps what has been recorded.
pub proof fn lemma_scan_no_close(
    m: Map<Seq<char>, Seq<usize>>,
    cs: Seq<char>,
    i: int,
    tracking: bool,
    start: int,
    word: spec_fn(int, int) -> Seq<char>,
    pos: spec_fn(int) -> int,
    bound: int,
    new_bound: int,
)
    requires
        scan_state(cs, i, tracking, start),
        i <= cs.len(),
        !(tracking && closes(cs, i)),
        scanned(m, cs, i, word, pos, bound),
        bound <= new_bound,
    ensures
        scanned(m, cs, i + 1, word, pos, new_bound),
{
    assert forall|a: int, b: int| #[trigger] is_word_span(cs, a, b) && b < i + 1 implies b < i by {
        if b == i {
            assert(!is_delimiter(cs[i - 1]));
        }
    }
    assert forall|w: Seq<char>, k: int|
        m.contains_key(w) && 0 <= k < m[w].len() implies occurs_before(
            cs,
            i + 1,
            word,
            pos,
            w,
            #[trigger] m[w][k] as int,
        ) by {
        assert(occurs_before(cs, i, word, pos, w, m[w][k] as int));
        let (a, b) = choose|a: int, b: int|
            #![trigger is_word_span(cs, a, b)]
            is_word_span(cs, a, b) && b < i && word(a, b) == w && pos(a) == m[w][k];
        assert(is_word_span(cs, a, b) && b < i + 1);
    }
    assert forall|w: Seq<char>| #[trigger] m.contains_key(w) implies {
        &&& m[w].len() > 0
        &&& strictly_increasing(m[w])
        &&& forall|k: int| 0 <= k < m[w].len() ==> m[w][k] < new_bound
    } by {
        assert forall|k: int| 0 <= k < m[w].len() implies m[w][k] < new_bound by {
            assert(m[w][k] < bound);
        }
    }
}

/// A scan step at which the tracked word ends records its start.
pub proof fn lemma_scan_close(
    m: Map<Seq<char>, Seq<usize>>,
    cs: Seq<char>,
    i: int,
    start: int,
    word: spec_fn(int, int) -> Seq<char>,
    pos: spec_fn(int) -> int,
)
    requires
        scan_state(cs, i, true, start),
        closes(cs, i),
        scanned(m, cs, i, word, pos, pos(start)),
        increasing_positions(cs, pos),
    ensures
        is_word_span(cs, start, i),
        scanned(
            m.insert(
                word(start, i),
                if m.contains_key(word(start, i)) {
                    m[word(start, i)].push(pos(start) as usize)
                } else {
                    seq![pos(start) as usize]
                },
            ),
            cs,
            i + 1,
            word,
            pos,
            pos(start) + 1,
        ),
{
    let w0 = word(start, i);
    let p0 = pos(start) as usize;
    let m2 = m.insert(w0, if m.contains_key(w0) { m[w0].push(p0) } else { seq![p0] });
    assert(is_word_span(cs, start, i));
    assert forall|a: int, b: int| #[trigger] is_word_span(cs, a, b) && b == i implies a == start by {
        if a < start {
            assert(!is_delimiter(cs[start - 1]));
        }
        if a > start {
            assert(!is_delimiter(cs[a - 1]));
        }
    }
    assert forall|w: Seq<char>| #[trigger] m2.contains_key(w) implies {
        &&& m2[w].len() > 0
        &&& strictly_increasing(m2[w])
        &&& forall|k: int| 0 <= k < m2[w].len() ==> m2[w][k] < pos(start) + 1
    } by {
        if w == w0 && m.contains_key(w0) {
            assert forall|x: int, y: int| 0 <= x < y < m2[w].len() implies m2[w][x] < m2[w][y] by {
                if y == m2[w].len() - 1 {
                    assert(m[w][x] < pos(start));
                }
            }
        }
    }
    assert forall|w: Seq<char>, k: int|
        m2.contains_key(w) && 0 <= k < m2[w].len() implies occurs_before(
            cs,
            i + 1,
            word,
            pos,
            w,
            #[trigger] m2[w][k] as int,
        ) by {
        if w == w0 && k == m2[w].len() - 1 {
            assert(is_word_span(cs, start, i) && i < i + 1 && word(start, i) == w && pos(start)
                == m2[w][k]);
        } else {
            assert(m.contains_key(w) && 0 <= k < m[w].len() && m2[w][k] == m[w][k]);
            assert(occurs_before(cs, i, word, pos, w, m[w][k] as int));
        let (a, b) = choose|a: int, b: int|
                #![trigger is_word_span(cs, a, b)]
                is_word_span(cs, a, b) && b < i && word(a, b) == w && pos(a) == m[w][k];
            assert(is_word_span(cs, a, b) && b < i + 1);
        }
    }
    assert forall|a: int, b: int| #[trigger] is_word_span(cs, a, b) && b < i + 1 implies {
        &&& m2.contains_key(word(a, b))
        &&& m2[word(a, b)].contains(pos(a) as usize)
    } by {
        if b == i {
            assert(a == start);
            assert(m2[w0][m2[w0].len() - 1] == p0);
        } else {
            let w = word(a, b);
            let p = pos(a) as usize;
            assert(m[w].contains(p));
            let k = choose|k: int| 0 <= k < m[w].len() && m[w][k] == p;
            assert(m2[w][k] == p);
        }
    }
}

/// A scan that has passed the end of the text has recorded every word.
pub proof fn lemma_scan_finish(
    m: Map<Seq<char>, Seq<usize>>,
    cs: Seq<char>,
    word: spec_fn(int, int) -> Seq<char>,
    pos: spec_fn(int) -> int,
    bound: int,
)
    requires
        scanned(m, cs, cs.len() + 1int, word, pos, bound),
    ensures
        indexes_words(m, cs, word, pos),
{
    assert forall|w: Seq<char>, k: int|
        m.contains_key(w) && 0 <= k < m[w].len() implies occurs_in(
            cs,
            word,
            pos,
            w,
            #[trigger] m[w][k] as int,
        ) by {
        assert(occurs_before(cs, cs.len() + 1int, word, pos, w, m[w][k] as int));
        let (a, b) = choose|a: int, b: int|
            #![trigger is_word_span(cs, a, b)]
            is_word_span(cs, a, b) && b < cs.len() + 1int && word(a, b) == w && pos(a) == m[w][k];
        assert(is_word_span(cs, a, b));
    }
}

} // verus!
