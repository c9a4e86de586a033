//! How a text comes apart into lines, pieces and words.

use vstd::prelude::*;

use crate::brackets;
use crate::sources;
use crate::text;

verus! {

/// The pieces with the separator between each two.
pub open spec fn rejoined(pieces: Seq<Seq<char>>, c: char) -> Seq<char>
    decreases pieces.len(),
{
    if pieces.len() == 0 {
        Seq::empty()
    } else if pieces.len() == 1 {
        pieces[0]
    } else {
        pieces[0] + seq![c] + rejoined(pieces.skip(1), c)
    }
}

/// The pieces of a text hold the separator nowhere, and with the separator
/// between each two they are the text.
pub proof fn law_pieces_make_up_the_text(s: Seq<char>, c: char)
    ensures
        ({
            let pieces = text::split_on(s, c);
            &&& pieces.len() > 0
            &&& rejoined(pieces, c) == s
            &&& forall|i: int| 0 <= i < pieces.len() ==> sources::lacks(#[trigger] pieces[i], c)
        }),
    decreases s.len(),
{
    let q = text::is_at(s, c);
    text::lemma_first_from(0, s.len() as int, q);
    let pieces = text::split_on(s, c);
    match text::find(s, c) {
        None => {
            assert forall|i: int| 0 <= i < s.len() implies #[trigger] s[i] != c by {
                assert(!q(i));
            }
        },
        Some(i) => {
            let rest = s.skip(i + 1);
            law_pieces_make_up_the_text(rest, c);
            assert(q(i));
            let first = s.take(i);
            let others = text::split_on(rest, c);
            assert(pieces.skip(1) =~= others);
            assert(first + seq![c] + rest =~= s);
            assert forall|j: int| 0 <= j < first.len() implies #[trigger] first[j] != c by {
                assert(!q(j));
            }
            assert forall|k: int| 0 <= k < pieces.len() implies sources::lacks(
                #[trigger] pieces[k],
                c,
            ) by {
                if k > 0 {
                    assert(pieces[k] == others[k - 1]);
                }
            }
        },
    }
}

/// The end of a line.
pub open spec fn line_end(carriage: bool) -> Seq<char> {
    if carriage {
        seq!['\r', '\n']
    } else {
        seq!['\n']
    }
}

/// A line: it holds no line feed, and no carriage return ends it.
pub open spec fn single(s: Seq<char>) -> bool {
    sources::lacks(s, '\n') && (s.len() > 0 ==> s.last() != '\r')
}

/// A text is its first line and the lines of the rest, whichever way the first
/// one ends; a last line needs no end.
pub proof fn law_lines_come_apart(line: Seq<char>, carriage: bool, rest: Seq<char>)
    requires
        single(line),
    ensures
        text::lines_of(line + line_end(carriage) + rest) == seq![line] + text::lines_of(rest),
        line.len() > 0 ==> text::lines_of(line) == seq![line],
        text::lines_of(Seq::empty()).len() == 0,
{
    let s = line + line_end(carriage) + rest;
    let front = if carriage {
        line.push('\r')
    } else {
        line
    };
    assert(s =~= front + seq!['\n'] + rest);
    assert forall|i: int| 0 <= i < front.len() implies #[trigger] front[i] != '\n' by {
        if i < line.len() {
            assert(front[i] == line[i]);
        }
    }
    sources::lemma_find(front, '\n', rest);
    if carriage {
        assert(front.drop_last() =~= line);
    }
    sources::lemma_find_none(line, '\n');
}

/// A word: not empty, and without white space.
pub open spec fn word(s: Seq<char>) -> bool {
    s.len() > 0 && forall|i: int| 0 <= i < s.len() ==> !text::white(#[trigger] s[i])
}

/// White space before words does not count; a word ends at white space or where
/// the text ends.
pub proof fn law_words_come_apart(w: Seq<char>, c: char, rest: Seq<char>)
    requires
        word(w),
        text::white(c),
    ensures
        text::words_of(seq![c] + rest) == text::words_of(rest),
        text::words_of(w + seq![c] + rest) == seq![w] + text::words_of(rest),
        text::words_of(w) == seq![w],
        text::words_of(Seq::empty()).len() == 0,
{
    let blank = seq![c] + rest;
    assert(blank[0] == c);
    assert(blank.skip(1) =~= rest);
    let p = text::is_white_at(w);
    assert forall|j: int| 0 <= j < w.len() implies !#[trigger] p(j) by {
        assert(!text::white(w[j]));
    }
    text::lemma_first_none(0, w.len() as int, p);
    assert(!text::white(w[0]));
    let s = w + seq![c] + rest;
    let n = w.len() as int;
    let q = text::is_white_at(s);
    assert forall|j: int| 0 <= j < n implies !#[trigger] q(j) by {
        assert(s[j] == w[j]);
    }
    assert(s[n] == c);
    assert(q(n));
    text::lemma_first_is(0, s.len() as int, q, n);
    assert(s[0] == w[0]);
    assert(s.take(n) =~= w);
    assert(s.skip(n) =~= blank);
}

/// Nothing but white space.
pub open spec fn all_white(s: Seq<char>) -> bool {
    forall|i: int| 0 <= i < s.len() ==> text::white(#[trigger] s[i])
}

/// Trimming takes the white space off both ends and nothing else.
#[verifier::spinoff_prover]
#[verifier::rlimit(40)]
pub proof fn law_trimming_takes_white_space_off(a: Seq<char>, s: Seq<char>, b: Seq<char>)
    requires
        all_white(a),
        all_white(b),
        s.len() > 0 ==> !text::white(s[0]) && !text::white(s.last()),
    ensures
        text::trimmed(a + s + b) == s,
    decreases a.len() + b.len(),
{
    let t = a + s + b;
    if a.len() > 0 {
        assert(text::white(a[0]));
        assert(t[0] == a[0]);
        let less = a.skip(1);
        assert forall|i: int| 0 <= i < less.len() implies text::white(#[trigger] less[i]) by {
            assert(less[i] == a[i + 1]);
        }
        assert(t.skip(1) =~= less + s + b);
        law_trimming_takes_white_space_off(less, s, b);
    } else if s.len() > 0 {
        assert(t[0] == s[0]);
        if b.len() > 0 {
            assert(text::white(b[b.len() - 1]));
            assert(t.last() == b.last());
            let less = b.drop_last();
            assert forall|i: int| 0 <= i < less.len() implies text::white(#[trigger] less[i]) by {
                assert(less[i] == b[i]);
            }
            assert(t.drop_last() =~= a + s + less);
            assert((a + s + less)[0] == s[0]);
            law_trimming_takes_white_space_off(a, s, less);
        } else {
            assert(t =~= s);
        }
    } else if b.len() > 0 {
        assert(text::white(b[0]));
        assert(t[0] == b[0]);
        let less = b.skip(1);
        assert forall|i: int| 0 <= i < less.len() implies text::white(#[trigger] less[i]) by {
            assert(less[i] == b[i + 1]);
        }
        assert(t.skip(1) =~= a + s + less);
        law_trimming_takes_white_space_off(a, s, less);
    } else {
        assert(t =~= s);
    }
}

/// How often a character stands in a text.
pub open spec fn count(s: Seq<char>, c: char) -> int
    decreases s.len(),
{
    if s.len() == 0 {
        0
    } else {
        count(s.drop_last(), c) + if s.last() == c {
            1int
        } else {
            0
        }
    }
}

/// The depth of a text is the number of brackets that it opens less the number
/// of those that it closes, of all three kinds.
pub proof fn law_depth_counts_brackets(s: Seq<char>)
    ensures
        brackets::depth(s) == count(s, '(') + count(s, '[') + count(s, '{') - count(s, ')') - count(
            s,
            ']',
        ) - count(s, '}'),
        brackets::pair_depth(s, '(', ')') == count(s, '(') - count(s, ')'),
    decreases s.len(),
{
    if s.len() > 0 {
        law_depth_counts_brackets(s.drop_last());
    }
}

/// The number of commas outside every bracket from an index on.
pub open spec fn outer_commas(s: Seq<char>, i: int) -> int
    decreases s.len() - i,
{
    if i >= s.len() {
        0
    } else {
        outer_commas(s, i + 1) + if s[i] == ',' && brackets::depth(s.take(i)) == 0 {
            1int
        } else {
            0
        }
    }
}

proof fn lemma_no_commas(s: Seq<char>, i: int, k: int)
    requires
        0 <= i <= k <= s.len(),
        forall|j: int| i <= j < k ==> !#[trigger] brackets::comma_at(s)(j),
    ensures
        outer_commas(s, i) == outer_commas(s, k),
    decreases k - i,
{
    if i < k {
        assert(!brackets::comma_at(s)(i));
        lemma_no_commas(s, i + 1, k);
    }
}

proof fn lemma_pieces(s: Seq<char>, start: int)
    requires
        0 <= start <= s.len(),
    ensures
        brackets::pieces_from(s, start).len() == 1 + outer_commas(s, start),
    decreases s.len() - start,
{
    let q = brackets::comma_at(s);
    text::lemma_first_from(start, s.len() as int, q);
    match text::first_from(start, s.len() as int, q) {
        Some(i) => {
            lemma_no_commas(s, start, i);
            assert(q(i));
            lemma_pieces(s, i + 1);
        },
        None => {
            lemma_no_commas(s, start, s.len() as int);
        },
    }
}

/// A list has one piece more than it has commas outside its brackets, blank
/// pieces counted; a blank list has none.
pub proof fn law_list_has_a_piece_for_each_comma(s: Seq<char>)
    ensures
        brackets::comma_pieces(s).len() == if text::trimmed(s).len() == 0 {
            0
        } else {
            1 + outer_commas(text::trimmed(s), 0)
        },
{
    if text::trimmed(s).len() > 0 {
        lemma_pieces(text::trimmed(s), 0);
    }
}

} // verus!
