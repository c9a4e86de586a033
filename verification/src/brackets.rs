//! Bracket-aware scans: nesting depth, matching brackets and the separators
//! that stand outside every bracket.

use vstd::prelude::*;

use crate::text;

verus! {

/// What a character adds to the nesting depth.
pub open spec fn step(c: char) -> int {
    if c == '(' || c == '[' || c == '{' {
        1
    } else if c == ')' || c == ']' || c == '}' {
        -1
    } else {
        0
    }
}

/// The openers less the closers in `s`, over all three kinds of bracket.
pub open spec fn depth(s: Seq<char>) -> int
    decreases s.len(),
{
    if s.len() == 0 {
        0
    } else {
        depth(s.drop_last()) + step(s.last())
    }
}

/// What a character adds to the depth of the one pair of brackets `o`, `c`.
pub open spec fn pair_step(x: char, o: char, c: char) -> int {
    if x == o {
        1
    } else if x == c {
        -1
    } else {
        0
    }
}

/// The `o` less the `c` in `s`.
pub open spec fn pair_depth(s: Seq<char>, o: char, c: char) -> int
    decreases s.len(),
{
    if s.len() == 0 {
        0
    } else {
        pair_depth(s.drop_last(), o, c) + pair_step(s.last(), o, c)
    }
}

/// The depth changes by at most one at each character.
pub proof fn lemma_depth_bound(s: Seq<char>)
    ensures
        -s.len() <= depth(s) <= s.len(),
    decreases s.len(),
{
    if s.len() > 0 {
        lemma_depth_bound(s.drop_last());
    }
}

/// Depth adds up over concatenation.
pub proof fn lemma_depth_add(a: Seq<char>, b: Seq<char>)
    ensures
        depth(a + b) == depth(a) + depth(b),
    decreases b.len(),
{
    if b.len() == 0 {
        assert(a + b =~= a);
    } else {
        lemma_depth_add(a, b.drop_last());
        assert((a + b).drop_last() =~= a + b.drop_last());
    }
}

pub proof fn lemma_depth_take(s: Seq<char>, i: int)
    requires
        0 <= i < s.len(),
    ensures
        depth(s.take(i + 1)) == depth(s.take(i)) + step(s[i]),
{
    assert(s.take(i + 1).drop_last() =~= s.take(i));
}

pub proof fn lemma_pair_bound(s: Seq<char>, o: char, c: char)
    ensures
        -s.len() <= pair_depth(s, o, c) <= s.len(),
    decreases s.len(),
{
    if s.len() > 0 {
        lemma_pair_bound(s.drop_last(), o, c);
    }
}

pub proof fn lemma_pair_add(a: Seq<char>, b: Seq<char>, o: char, c: char)
    ensures
        pair_depth(a + b, o, c) == pair_depth(a, o, c) + pair_depth(b, o, c),
    decreases b.len(),
{
    if b.len() == 0 {
        assert(a + b =~= a);
    } else {
        lemma_pair_add(a, b.drop_last(), o, c);
        assert((a + b).drop_last() =~= a + b.drop_last());
    }
}

pub proof fn lemma_pair_take(s: Seq<char>, i: int, o: char, c: char)
    requires
        0 <= i < s.len(),
    ensures
        pair_depth(s.take(i + 1), o, c) == pair_depth(s.take(i), o, c) + pair_step(s[i], o, c),
{
    assert(s.take(i + 1).drop_last() =~= s.take(i));
}

pub proof fn lemma_pair_skip(s: Seq<char>, i: int, o: char, c: char)
    requires
        0 <= i < s.len(),
    ensures
        pair_depth(s.skip(i), o, c) == pair_step(s[i], o, c) + pair_depth(s.skip(i + 1), o, c),
{
    let one = seq![s[i]];
    assert(one + s.skip(i + 1) =~= s.skip(i));
    lemma_pair_add(one, s.skip(i + 1), o, c);
    assert(one.drop_last() =~= Seq::empty());
    reveal_with_fuel(pair_depth, 2);
}

/// The change of depth at a character.
fn step_of(c: char) -> (d: i128)
    ensures
        d == step(c),
        -1 <= d <= 1,
{
    if c == '(' || c == '[' || c == '{' {
        1
    } else if c == ')' || c == ']' || c == '}' {
        -1
    } else {
        0
    }
}

/// Net change of the nesting depth over a line, `(`, `[` and `{` counting up
/// and their closers down. Strings and comments are not special.
pub fn bracket_depth(line: &str) -> (d: i128)
    ensures
        d == depth(line@),
{
    let v = text::chars_of(line);
    let mut d: i128 = 0;
    let mut i: usize = 0;
    assert(v@.take(0) =~= Seq::empty());
    while i < v.len()
        invariant
            i <= v.len(),
            v@ == line@,
            d == depth(line@.take(i as int)),
            -i <= d <= i,
        decreases v.len() - i,
    {
        proof {
            lemma_depth_take(line@, i as int);
        }
        d = d + step_of(v[i]);
        i += 1;
    }
    assert(line@.take(line@.len() as int) =~= line@);
    d
}

/// "The `o` at this index matches the closer at the end of the text."
pub open spec fn matches_end(s: Seq<char>, o: char, c: char) -> spec_fn(int) -> bool {
    |i: int| s[i] == o && pair_depth(s.skip(i), o, c) == 0
}

/// The opener `o` that matches the `c` at the end of `s`.
pub open spec fn matching_open(s: Seq<char>, o: char, c: char) -> Option<int> {
    text::last_below(s.len() as int, matches_end(s, o, c))
}

/// Find the opener that matches the closer at the end of a text.
pub fn find_matching_open(s: &str, o: char, c: char) -> (r: Option<usize>)
    requires
        o != c,
    ensures
        text::opt_int(r) == matching_open(s@, o, c),
        r matches Some(i) ==> i < s@.len() && s@[i as int] == o,
{
    let v = text::chars_of(s);
    let mut n: usize = v.len();
    let mut d: i128 = 0;
    assert(s@.skip(n as int) =~= Seq::empty());
    while n > 0
        invariant
            n <= v.len(),
            v@ == s@,
            o != c,
            d == pair_depth(s@.skip(n as int), o, c),
            -(v.len() - n) <= d <= v.len() - n,
            matching_open(s@, o, c) == text::last_below(n as int, matches_end(s@, o, c)),
        decreases n,
    {
        n -= 1;
        proof {
            lemma_pair_skip(s@, n as int, o, c);
        }
        if v[n] == o {
            d = d + 1;
            if d == 0 {
                return Some(n);
            }
        } else if v[n] == c {
            d = d - 1;
        }
    }
    None
}

/// "The `)` at this index closes a parenthesis opened before the text."
pub open spec fn closes_outer(s: Seq<char>) -> spec_fn(int) -> bool {
    |i: int| s[i] == ')' && pair_depth(s.take(i + 1), '(', ')') == -1
}

/// The first `)` of `s` without its `(` in `s`.
pub open spec fn outer_close(s: Seq<char>) -> Option<int> {
    text::first_from(0, s.len() as int, closes_outer(s))
}

/// Find the first `)` whose `(` stands before the text.
pub fn find_outer_close(s: &str) -> (r: Option<usize>)
    ensures
        text::opt_int(r) == outer_close(s@),
        r matches Some(i) ==> i < s@.len() && s@[i as int] == ')',
{
    let v = text::chars_of(s);
    let mut i: usize = 0;
    let mut d: i128 = 0;
    assert(s@.take(0) =~= Seq::empty());
    while i < v.len()
        invariant
            i <= v.len(),
            v@ == s@,
            d == pair_depth(s@.take(i as int), '(', ')'),
            -i <= d <= i,
            outer_close(s@) == text::first_from(i as int, s@.len() as int, closes_outer(s@)),
        decreases v.len() - i,
    {
        proof {
            lemma_pair_take(s@, i as int, '(', ')');
        }
        if v[i] == '(' {
            d = d + 1;
        } else if v[i] == ')' {
            d = d - 1;
            if d == -1 {
                return Some(i);
            }
        }
        i += 1;
    }
    None
}

/// "A comma outside every bracket stands at this index."
pub open spec fn comma_at(s: Seq<char>) -> spec_fn(int) -> bool {
    |i: int| s[i] == ',' && depth(s.take(i)) == 0
}

/// The trimmed pieces of `s` from `start` on, cut at the outer commas.
pub open spec fn pieces_from(s: Seq<char>, start: int) -> Seq<Seq<char>>
    decreases s.len() - start,
{
    match text::first_from(start, s.len() as int, comma_at(s)) {
        Some(i) => if start <= i < s.len() {
            seq![text::trimmed(s.subrange(start, i))] + pieces_from(s, i + 1)
        } else {
            seq![text::trimmed(s.skip(start))]
        },
        None => seq![text::trimmed(s.skip(start))],
    }
}

/// The trimmed pieces of a comma-separated list; none of a blank text.
pub open spec fn comma_pieces(s: Seq<char>) -> Seq<Seq<char>> {
    let t = text::trimmed(s);
    if t.len() == 0 {
        Seq::empty()
    } else {
        pieces_from(t, 0)
    }
}

/// Split a text on the commas outside every bracket, trimming each piece.
pub fn split_top_level_commas(s: &str) -> (r: Vec<String>)
    ensures
        text::texts(r@) == comma_pieces(s@),
{
    let s = text::trim(s);
    let v = text::chars_of(s);
    let mut out: Vec<String> = Vec::new();
    assert(text::texts(out@) =~= Seq::empty());
    if v.len() == 0 {
        return out;
    }
    let mut d: i128 = 0;
    let mut start: usize = 0;
    let mut i: usize = 0;
    assert(s@.take(0) =~= Seq::empty());
    while i < v.len()
        invariant
            start <= i <= v.len(),
            v@ == s@,
            d == depth(s@.take(i as int)),
            -i <= d <= i,
            text::first_from(start as int, s@.len() as int, comma_at(s@)) == text::first_from(
                i as int,
                s@.len() as int,
                comma_at(s@),
            ),
            text::texts(out@) + pieces_from(s@, start as int) == pieces_from(s@, 0),
        decreases v.len() - i,
    {
        proof {
            lemma_depth_take(s@, i as int);
        }
        if v[i] == ',' && d == 0 {
            let piece = text::trim(text::slice(s, start, i)).to_owned();
            let ghost done = text::texts(out@);
            proof {
                text::lemma_texts_push(out@, piece);
                assert(done + (seq![piece@] + pieces_from(s@, i + 1)) =~= done.push(piece@)
                    + pieces_from(s@, i + 1));
            }
            out.push(piece);
            start = i + 1;
        } else {
            d = d + step_of(v[i]);
        }
        i += 1;
    }
    let piece = text::trim(text::tail(s, start)).to_owned();
    proof {
        let done = text::texts(out@);
        text::lemma_texts_push(out@, piece);
        assert(done + seq![piece@] =~= done.push(piece@));
    }
    out.push(piece);
    out
}

/// "A sign `=` outside every bracket that is no part of `==`, `!=`, `<=` or
/// `>=` stands at this index."
pub open spec fn assign_at(s: Seq<char>) -> spec_fn(int) -> bool {
    |i: int|
        {
            &&& s[i] == '='
            &&& depth(s.take(i)) == 0
            &&& !(i + 1 < s.len() && s[i + 1] == '=')
            &&& !(i > 0 && (s[i - 1] == '!' || s[i - 1] == '<' || s[i - 1] == '>' || s[i - 1]
                == '='))
        }
}

/// The first assignment sign of `s`.
pub open spec fn assign_pos(s: Seq<char>) -> Option<int> {
    text::first_from(0, s.len() as int, assign_at(s))
}

/// Find the first assignment sign of a line.
pub fn find_top_level_assign(s: &str) -> (r: Option<usize>)
    ensures
        text::opt_int(r) == assign_pos(s@),
        r matches Some(i) ==> i < s@.len(),
{
    let v = text::chars_of(s);
    let mut d: i128 = 0;
    let mut i: usize = 0;
    assert(s@.take(0) =~= Seq::empty());
    while i < v.len()
        invariant
            i <= v.len(),
            v@ == s@,
            d == depth(s@.take(i as int)),
            -i <= d <= i,
            assign_pos(s@) == text::first_from(i as int, s@.len() as int, assign_at(s@)),
        decreases v.len() - i,
    {
        proof {
            lemma_depth_take(s@, i as int);
        }
        if v[i] == '=' && d == 0 {
            let doubled = i + 1 < v.len() && v[i + 1] == '=';
            let compared = i > 0 && (v[i - 1] == '!' || v[i - 1] == '<' || v[i - 1] == '>' || v[i
                - 1] == '=');
            if !doubled && !compared {
                return Some(i);
            }
        }
        d = d + step_of(v[i]);
        i += 1;
    }
    None
}

/// "A dot outside every bracket stands at this index."
pub open spec fn dot_at(s: Seq<char>) -> spec_fn(int) -> bool {
    |i: int| s[i] == '.' && depth(s.take(i)) == 0
}

/// The last dot of `s` outside every bracket.
pub open spec fn last_dot(s: Seq<char>) -> Option<int> {
    text::last_below(s.len() as int, dot_at(s))
}

/// Find the last dot outside every bracket.
pub fn find_last_dot(s: &str) -> (r: Option<usize>)
    ensures
        text::opt_int(r) == last_dot(s@),
        r matches Some(i) ==> i < s@.len(),
{
    let v = text::chars_of(s);
    let mut d: i128 = 0;
    let mut i: usize = 0;
    let mut last: Option<usize> = None;
    assert(s@.take(0) =~= Seq::empty());
    while i < v.len()
        invariant
            i <= v.len(),
            v@ == s@,
            d == depth(s@.take(i as int)),
            -i <= d <= i,
            text::opt_int(last) == text::last_below(i as int, dot_at(s@)),
            last matches Some(k) ==> k < i,
        decreases v.len() - i,
    {
        proof {
            lemma_depth_take(s@, i as int);
        }
        if v[i] == '.' && d == 0 {
            last = Some(i);
        }
        d = d + step_of(v[i]);
        i += 1;
    }
    last
}

} // verus!
