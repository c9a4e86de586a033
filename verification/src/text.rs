//! Text primitives on sequences of characters.

use vstd::prelude::*;

verus! {

/// Appending one character to a string (`String::push`).
pub assume_specification[ String::push ](s: &mut String, c: char)
    ensures
        final(s)@ == old(s)@.push(c),
;

/// The `White_Space` property of Unicode, which `char::is_whitespace` tests.
pub open spec fn white(c: char) -> bool {
    let n = c as u32;
    ||| 9 <= n <= 13
    ||| n == 32
    ||| n == 0x85
    ||| n == 0xa0
    ||| n == 0x1680
    ||| 0x2000 <= n <= 0x200a
    ||| n == 0x2028
    ||| n == 0x2029
    ||| n == 0x202f
    ||| n == 0x205f
    ||| n == 0x3000
}

/// Whether `c` is a white-space character.
pub fn is_white(c: char) -> (b: bool)
    ensures
        b == white(c),
{
    let n: u32 = c as u32;
    (9 <= n && n <= 13) || n == 32 || n == 0x85 || n == 0xa0 || n == 0x1680 || (0x2000 <= n && n
        <= 0x200a) || n == 0x2028 || n == 0x2029 || n == 0x202f || n == 0x205f || n == 0x3000
}

/// The characters of a string, in order.
pub fn chars_of(s: &str) -> (v: Vec<char>)
    ensures
        v@ == s@,
{
    let mut v: Vec<char> = Vec::new();
    for c in it: s.chars()
        invariant
            v@ == s@.take(it.index()),
            it.seq() == s@,
    {
        v.push(c);
        assert(s@.take(it.index() + 1) == s@.take(it.index()).push(c));
    }
    assert(s@.take(s@.len() as int) == s@);
    v
}

/// Whether two strings hold the same characters.
pub fn str_eq(a: &str, b: &str) -> (r: bool)
    ensures
        r == (a@ == b@),
{
    let x = chars_of(a);
    let y = chars_of(b);
    if x.len() != y.len() {
        return false;
    }
    let mut i: usize = 0;
    while i < x.len()
        invariant
            i <= x.len(),
            x.len() == y.len(),
            forall|j: int| 0 <= j < i ==> x@[j] == y@[j],
            x@ == a@,
            y@ == b@,
        decreases x.len() - i,
    {
        if x[i] != y[i] {
            assert(a@[i as int] != b@[i as int]);
            return false;
        }
        i += 1;
    }
    assert(a@ =~= b@);
    true
}

/// `s` without its leading white space.
pub open spec fn ltrim(s: Seq<char>) -> Seq<char>
    decreases s.len(),
{
    if s.len() > 0 && white(s[0]) {
        ltrim(s.skip(1))
    } else {
        s
    }
}

/// `s` without its trailing white space.
pub open spec fn rtrim(s: Seq<char>) -> Seq<char>
    decreases s.len(),
{
    if s.len() > 0 && white(s.last()) {
        rtrim(s.drop_last())
    } else {
        s
    }
}

/// `s` without white space at either end.
pub open spec fn trimmed(s: Seq<char>) -> Seq<char> {
    rtrim(ltrim(s))
}

/// Trimming never lengthens a text.
pub proof fn lemma_trim_len(s: Seq<char>)
    ensures
        ltrim(s).len() <= s.len(),
        rtrim(s).len() <= s.len(),
        trimmed(s).len() <= s.len(),
{
    lemma_ltrim_len(s);
    lemma_rtrim_len(s);
    lemma_rtrim_len(ltrim(s));
}

proof fn lemma_ltrim_len(s: Seq<char>)
    ensures
        ltrim(s).len() <= s.len(),
    decreases s.len(),
{
    if s.len() > 0 && white(s[0]) {
        lemma_ltrim_len(s.skip(1));
    }
}

proof fn lemma_rtrim_len(s: Seq<char>)
    ensures
        rtrim(s).len() <= s.len(),
    decreases s.len(),
{
    if s.len() > 0 && white(s.last()) {
        lemma_rtrim_len(s.drop_last());
    }
}

/// The text without its leading white space.
pub fn trim_start(s: &str) -> (r: &str)
    ensures
        r@ == ltrim(s@),
{
    let v = chars_of(s);
    let mut i: usize = 0;
    assert(s@.skip(0) == s@);
    while i < v.len() && is_white(v[i])
        invariant
            i <= v.len(),
            v@ == s@,
            ltrim(s@) == ltrim(s@.skip(i as int)),
        decreases v.len() - i,
    {
        i += 1;
        assert(s@.skip(i - 1).skip(1) == s@.skip(i as int));
    }
    assert(s@.skip(i as int) == s@.subrange(i as int, s@.len() as int));
    s.substring_char(i, v.len())
}

/// The text without its trailing white space.
pub fn trim_end(s: &str) -> (r: &str)
    ensures
        r@ == rtrim(s@),
{
    let v = chars_of(s);
    let mut n: usize = v.len();
    assert(s@.take(n as int) == s@);
    while n > 0 && is_white(v[n - 1])
        invariant
            n <= v.len(),
            v@ == s@,
            rtrim(s@) == rtrim(s@.take(n as int)),
        decreases n,
    {
        n -= 1;
        assert(s@.take(n + 1).drop_last() == s@.take(n as int));
    }
    assert(s@.take(n as int) == s@.subrange(0, n as int));
    s.substring_char(0, n)
}

/// The text without white space at either end.
pub fn trim(s: &str) -> (r: &str)
    ensures
        r@ == trimmed(s@),
{
    trim_end(trim_start(s))
}

/// The views of a list of string slices.
pub open spec fn views(v: Seq<&str>) -> Seq<Seq<char>> {
    v.map_values(|s: &str| s@)
}

/// The views of a list of strings.
pub open spec fn texts(v: Seq<String>) -> Seq<Seq<char>> {
    v.map_values(|s: String| s@)
}

/// The view of an optional string slice.
pub open spec fn opt_view(r: Option<&str>) -> Option<Seq<char>> {
    match r {
        Some(s) => Some(s@),
        None => None,
    }
}

/// The view of an optional string.
pub open spec fn opt_text(r: Option<String>) -> Option<Seq<char>> {
    match r {
        Some(s) => Some(s@),
        None => None,
    }
}

/// The view of an optional index.
pub open spec fn opt_int(r: Option<usize>) -> Option<int> {
    match r {
        Some(i) => Some(i as int),
        None => None,
    }
}

pub proof fn lemma_views_push(v: Seq<&str>, s: &str)
    ensures
        views(v.push(s)) == views(v).push(s@),
{
    assert(views(v.push(s)) =~= views(v).push(s@));
}

pub proof fn lemma_texts_push(v: Seq<String>, s: String)
    ensures
        texts(v.push(s)) == texts(v).push(s@),
{
    assert(texts(v.push(s)) =~= texts(v).push(s@));
}

/// The first index in `i..n` with `p`, if there is one.
pub open spec fn first_from(i: int, n: int, p: spec_fn(int) -> bool) -> Option<int>
    decreases n - i,
{
    if i >= n {
        None
    } else if p(i) {
        Some(i)
    } else {
        first_from(i + 1, n, p)
    }
}

/// The last index in `0..n` with `p`, if there is one.
pub open spec fn last_below(n: int, p: spec_fn(int) -> bool) -> Option<int>
    decreases n,
{
    if n <= 0 {
        None
    } else if p(n - 1) {
        Some(n - 1)
    } else {
        last_below(n - 1, p)
    }
}

/// `first_from` gives the least index of the range with the property.
pub proof fn lemma_first_from(i: int, n: int, p: spec_fn(int) -> bool)
    ensures
        match first_from(i, n, p) {
            Some(k) => i <= k < n && p(k) && forall|j: int| i <= j < k ==> !#[trigger] p(j),
            None => forall|j: int| i <= j < n ==> !#[trigger] p(j),
        },
    decreases n - i,
{
    if i < n && !p(i) {
        lemma_first_from(i + 1, n, p);
    }
}

/// `last_below` gives the greatest index below the bound with the property.
pub proof fn lemma_last_below(n: int, p: spec_fn(int) -> bool)
    ensures
        match last_below(n, p) {
            Some(k) => 0 <= k < n && p(k) && forall|j: int| k < j < n ==> !#[trigger] p(j),
            None => forall|j: int| 0 <= j < n ==> !#[trigger] p(j),
        },
    decreases n,
{
    if n > 0 && !p(n - 1) {
        lemma_last_below(n - 1, p);
    }
}

/// "The character at this index is `c`."
pub open spec fn is_at(s: Seq<char>, c: char) -> spec_fn(int) -> bool {
    |i: int| s[i] == c
}

/// The index of the first `c` in `s`.
pub open spec fn find(s: Seq<char>, c: char) -> Option<int> {
    first_from(0, s.len() as int, is_at(s, c))
}

/// The index of the last `c` in `s`.
pub open spec fn rfind(s: Seq<char>, c: char) -> Option<int> {
    last_below(s.len() as int, is_at(s, c))
}

/// "The text at this index begins with `p`."
pub open spec fn is_text_at(s: Seq<char>, p: Seq<char>) -> spec_fn(int) -> bool {
    |i: int| p.is_prefix_of(s.skip(i))
}

/// The index of the first occurrence of `p` in `s`.
pub open spec fn find_text(s: Seq<char>, p: Seq<char>) -> Option<int> {
    first_from(0, s.len() - p.len() + 1, is_text_at(s, p))
}

/// What follows the prefix `p` of `s`.
pub open spec fn after(s: Seq<char>, p: Seq<char>) -> Option<Seq<char>> {
    if p.is_prefix_of(s) {
        Some(s.skip(p.len() as int))
    } else {
        None
    }
}

/// What precedes the suffix `p` of `s`.
pub open spec fn before(s: Seq<char>, p: Seq<char>) -> Option<Seq<char>> {
    if p.is_suffix_of(s) {
        Some(s.take(s.len() - p.len()))
    } else {
        None
    }
}

/// `s` without the run of `c` at its end.
pub open spec fn rtrim_char(s: Seq<char>, c: char) -> Seq<char>
    decreases s.len(),
{
    if s.len() > 0 && s.last() == c {
        rtrim_char(s.drop_last(), c)
    } else {
        s
    }
}

/// The pieces of `s` between the occurrences of `c`.
pub open spec fn split_on(s: Seq<char>, c: char) -> Seq<Seq<char>>
    decreases s.len(),
{
    match find(s, c) {
        Some(i) => if 0 <= i < s.len() {
            seq![s.take(i)] + split_on(s.skip(i + 1), c)
        } else {
            seq![s]
        },
        None => seq![s],
    }
}

/// The pieces of `s` between the occurrences of the non-empty text `p`.
pub open spec fn split_on_text(s: Seq<char>, p: Seq<char>) -> Seq<Seq<char>>
    decreases s.len(),
{
    match find_text(s, p) {
        Some(i) => if 0 <= i && 0 < p.len() && i + p.len() <= s.len() {
            seq![s.take(i)] + split_on_text(s.skip(i + p.len()), p)
        } else {
            seq![s]
        },
        None => seq![s],
    }
}

/// A line without the carriage return that ends it.
pub open spec fn without_cr(s: Seq<char>) -> Seq<char> {
    if s.len() > 0 && s.last() == '\r' {
        s.drop_last()
    } else {
        s
    }
}

/// The lines of `s`: ended by `\n` or `\r\n`, the last ending being optional.
pub open spec fn lines_of(s: Seq<char>) -> Seq<Seq<char>>
    decreases s.len(),
{
    if s.len() == 0 {
        Seq::empty()
    } else {
        match find(s, '\n') {
            Some(i) => if 0 <= i < s.len() {
                seq![without_cr(s.take(i))] + lines_of(s.skip(i + 1))
            } else {
                seq![s]
            },
            None => seq![s],
        }
    }
}

/// "The character at this index is white space."
pub open spec fn is_white_at(s: Seq<char>) -> spec_fn(int) -> bool {
    |i: int| white(s[i])
}

/// The runs of `s` without white space.
pub open spec fn words_of(s: Seq<char>) -> Seq<Seq<char>>
    decreases s.len(),
{
    if s.len() == 0 {
        Seq::empty()
    } else if white(s[0]) {
        words_of(s.skip(1))
    } else {
        match first_from(0, s.len() as int, is_white_at(s)) {
            Some(i) => if 0 < i < s.len() {
                seq![s.take(i)] + words_of(s.skip(i))
            } else {
                seq![s]
            },
            None => seq![s],
        }
    }
}

/// The texts of `parts` with `sep` between each two.
pub open spec fn joined(parts: Seq<Seq<char>>, sep: Seq<char>) -> Seq<char>
    decreases parts.len(),
{
    if parts.len() == 0 {
        Seq::empty()
    } else if parts.len() == 1 {
        parts[0]
    } else {
        joined(parts.drop_last(), sep) + sep + parts.last()
    }
}

/// The slice of the characters `from..to`.
pub fn slice(s: &str, from: usize, to: usize) -> (r: &str)
    requires
        from <= to <= s@.len(),
    ensures
        r@ == s@.subrange(from as int, to as int),
{
    s.substring_char(from, to)
}

/// The slice of the first `n` characters.
pub fn head(s: &str, n: usize) -> (r: &str)
    requires
        n <= s@.len(),
    ensures
        r@ == s@.take(n as int),
{
    assert(s@.take(n as int) == s@.subrange(0, n as int));
    s.substring_char(0, n)
}

/// The slice past the first `n` characters.
pub fn tail(s: &str, n: usize) -> (r: &str)
    requires
        n <= s@.len(),
    ensures
        r@ == s@.skip(n as int),
{
    assert(s@.skip(n as int) == s@.subrange(n as int, s@.len() as int));
    s.substring_char(n, s.unicode_len())
}

/// The index of the first `c`.
pub fn find_char(s: &str, c: char) -> (r: Option<usize>)
    ensures
        opt_int(r) == find(s@, c),
        r matches Some(i) ==> i < s@.len() && s@[i as int] == c,
{
    let v = chars_of(s);
    let mut i: usize = 0;
    while i < v.len()
        invariant
            i <= v.len(),
            v@ == s@,
            find(s@, c) == first_from(i as int, s@.len() as int, is_at(s@, c)),
        decreases v.len() - i,
    {
        if v[i] == c {
            return Some(i);
        }
        i += 1;
    }
    None
}

/// The index of the last `c`.
pub fn rfind_char(s: &str, c: char) -> (r: Option<usize>)
    ensures
        opt_int(r) == rfind(s@, c),
        r matches Some(i) ==> i < s@.len() && s@[i as int] == c,
{
    let v = chars_of(s);
    let mut n: usize = v.len();
    while n > 0
        invariant
            n <= v.len(),
            v@ == s@,
            rfind(s@, c) == last_below(n as int, is_at(s@, c)),
        decreases n,
    {
        n -= 1;
        if v[n] == c {
            return Some(n);
        }
    }
    None
}

/// Whether the text of `v` at `i` begins with `p`.
fn text_at(v: &Vec<char>, i: usize, p: &Vec<char>) -> (b: bool)
    requires
        i <= v.len(),
    ensures
        b == p@.is_prefix_of(v@.skip(i as int)),
{
    if p.len() > v.len() - i {
        return false;
    }
    let mut k: usize = 0;
    while k < p.len()
        invariant
            k <= p.len(),
            i + p.len() <= v.len(),
            forall|j: int| 0 <= j < k ==> p@[j] == v@[i + j],
        decreases p.len() - k,
    {
        if v[i + k] != p[k] {
            proof {
                if p@.is_prefix_of(v@.skip(i as int)) {
                    assert(p@[k as int] == v@.skip(i as int).subrange(0, p@.len() as int)[k as int]);
                }
            }
            return false;
        }
        k += 1;
    }
    assert(p@ =~= v@.skip(i as int).subrange(0, p@.len() as int));
    true
}

/// The index of the first occurrence of a text.
pub fn find_str(s: &str, p: &str) -> (r: Option<usize>)
    ensures
        opt_int(r) == find_text(s@, p@),
        r matches Some(i) ==> i + p@.len() <= s@.len() && p@.is_prefix_of(s@.skip(i as int)),
{
    let v = chars_of(s);
    let w = chars_of(p);
    if w.len() > v.len() {
        return None;
    }
    let n: usize = v.len() - w.len();
    let mut i: usize = 0;
    while i <= n
        invariant
            i <= n + 1,
            n + w.len() == v.len(),
            v@ == s@,
            w@ == p@,
            find_text(s@, p@) == first_from(i as int, n + 1, is_text_at(s@, p@)),
        decreases n + 1 - i,
    {
        if text_at(&v, i, &w) {
            return Some(i);
        }
        if i == n {
            assert(first_from(i + 1, n + 1, is_text_at(s@, p@)) is None);
            return None;
        }
        i += 1;
    }
    None
}

/// Whether a text begins with another.
pub fn starts_with(s: &str, p: &str) -> (b: bool)
    ensures
        b == p@.is_prefix_of(s@),
{
    let v = chars_of(s);
    let w = chars_of(p);
    assert(v@.skip(0) == s@);
    text_at(&v, 0, &w)
}

/// What follows a prefix.
pub fn strip_prefix<'a>(s: &'a str, p: &str) -> (r: Option<&'a str>)
    ensures
        opt_view(r) == after(s@, p@),
{
    if starts_with(s, p) {
        Some(tail(s, p.unicode_len()))
    } else {
        None
    }
}

/// What precedes a suffix.
pub fn strip_suffix<'a>(s: &'a str, p: &str) -> (r: Option<&'a str>)
    ensures
        opt_view(r) == before(s@, p@),
{
    let v = chars_of(s);
    let w = chars_of(p);
    if w.len() > v.len() {
        return None;
    }
    let n: usize = v.len() - w.len();
    let b = text_at(&v, n, &w);
    assert(s@.skip(n as int).subrange(0, p@.len() as int) =~= s@.subrange(n as int, s@.len() as int));
    if b {
        Some(head(s, n))
    } else {
        None
    }
}

/// Whether `c` is the first character of `s`.
pub fn starts_with_char(s: &str, c: char) -> (b: bool)
    ensures
        b == (s@.len() > 0 && s@[0] == c),
{
    s.unicode_len() > 0 && s.get_char(0) == c
}

/// Whether `c` is the last character of `s`.
pub fn ends_with_char(s: &str, c: char) -> (b: bool)
    ensures
        b == (s@.len() > 0 && s@.last() == c),
{
    let n: usize = s.unicode_len();
    n > 0 && s.get_char(n - 1) == c
}

/// The text without the run of `c` at its end.
pub fn trim_end_char(s: &str, c: char) -> (r: &str)
    ensures
        r@ == rtrim_char(s@, c),
{
    let v = chars_of(s);
    let mut n: usize = v.len();
    assert(s@.take(n as int) == s@);
    while n > 0 && v[n - 1] == c
        invariant
            n <= v.len(),
            v@ == s@,
            rtrim_char(s@, c) == rtrim_char(s@.take(n as int), c),
        decreases n,
    {
        n -= 1;
        assert(s@.take(n + 1).drop_last() == s@.take(n as int));
    }
    head(s, n)
}

/// Whether `s` holds the character `c`.
pub fn has_char(s: &str, c: char) -> (b: bool)
    ensures
        b == find(s@, c) is Some,
{
    find_char(s, c).is_some()
}

/// The pieces between the occurrences of `c`.
pub fn split_char<'a>(s: &'a str, c: char) -> (r: Vec<&'a str>)
    ensures
        views(r@) == split_on(s@, c),
{
    let mut out: Vec<&'a str> = Vec::new();
    let mut rest: &'a str = s;
    assert(views(out@) =~= Seq::empty());
    loop
        invariant
            views(out@) + split_on(rest@, c) == split_on(s@, c),
        decreases rest@.len(),
    {
        match find_char(rest, c) {
            Some(i) => {
                let piece = head(rest, i);
                let ghost done = views(out@);
                proof {
                    lemma_views_push(out@, piece);
                }
                out.push(piece);
                let n: usize = rest.unicode_len();
                assert(i < n);
                let next = tail(rest, i + 1);
                assert(done + (seq![piece@] + split_on(next@, c)) =~= done.push(piece@) + split_on(
                    next@,
                    c,
                ));
                rest = next;
            },
            None => {
                proof {
                    lemma_views_push(out@, rest);
                }
                let ghost done = views(out@);
                out.push(rest);
                assert(done + seq![rest@] =~= done.push(rest@));
                return out;
            },
        }
    }
}

/// The pieces between the occurrences of a text.
pub fn split_str<'a>(s: &'a str, p: &str) -> (r: Vec<&'a str>)
    requires
        p@.len() > 0,
    ensures
        views(r@) == split_on_text(s@, p@),
{
    let mut out: Vec<&'a str> = Vec::new();
    let mut rest: &'a str = s;
    assert(views(out@) =~= Seq::empty());
    loop
        invariant
            p@.len() > 0,
            views(out@) + split_on_text(rest@, p@) == split_on_text(s@, p@),
        decreases rest@.len(),
    {
        match find_str(rest, p) {
            Some(i) => {
                let piece = head(rest, i);
                let ghost done = views(out@);
                proof {
                    lemma_views_push(out@, piece);
                }
                out.push(piece);
                let n: usize = rest.unicode_len();
                let k: usize = p.unicode_len();
                assert(i + k <= n);
                let next = tail(rest, i + k);
                assert(done + (seq![piece@] + split_on_text(next@, p@)) =~= done.push(piece@)
                    + split_on_text(next@, p@));
                rest = next;
            },
            None => {
                proof {
                    lemma_views_push(out@, rest);
                }
                let ghost done = views(out@);
                out.push(rest);
                assert(done + seq![rest@] =~= done.push(rest@));
                return out;
            },
        }
    }
}

/// A line without the carriage return that ends it.
fn strip_cr(s: &str) -> (r: &str)
    ensures
        r@ == without_cr(s@),
{
    let n: usize = s.unicode_len();
    if n > 0 && s.get_char(n - 1) == '\r' {
        head(s, n - 1)
    } else {
        s
    }
}

/// The lines of a text.
pub fn lines<'a>(s: &'a str) -> (r: Vec<&'a str>)
    ensures
        views(r@) == lines_of(s@),
{
    let mut out: Vec<&'a str> = Vec::new();
    let mut rest: &'a str = s;
    assert(views(out@) =~= Seq::empty());
    while rest.unicode_len() > 0
        invariant
            views(out@) + lines_of(rest@) == lines_of(s@),
        ensures
            views(out@) == lines_of(s@),
        decreases rest@.len(),
    {
        match find_char(rest, '\n') {
            Some(i) => {
                let piece = strip_cr(head(rest, i));
                let ghost done = views(out@);
                proof {
                    lemma_views_push(out@, piece);
                }
                out.push(piece);
                let next = tail(rest, i + 1);
                assert(done + (seq![piece@] + lines_of(next@)) =~= done.push(piece@) + lines_of(
                    next@,
                ));
                rest = next;
            },
            None => {
                proof {
                    lemma_views_push(out@, rest);
                }
                let ghost done = views(out@);
                out.push(rest);
                assert(done + seq![rest@] =~= done.push(rest@));
                return out;
            },
        }
    }
    out
}

/// The words of a text: its runs without white space.
pub fn split_whitespace<'a>(s: &'a str) -> (r: Vec<&'a str>)
    ensures
        views(r@) == words_of(s@),
{
    let mut out: Vec<&'a str> = Vec::new();
    let mut rest: &'a str = s;
    assert(views(out@) =~= Seq::empty());
    while rest.unicode_len() > 0
        invariant
            views(out@) + words_of(rest@) == words_of(s@),
        ensures
            views(out@) == words_of(s@),
        decreases rest@.len(),
    {
        if is_white(rest.get_char(0)) {
            rest = tail(rest, 1);
            continue;
        }
        let v = chars_of(rest);
        let mut i: usize = 0;
        while i < v.len() && !is_white(v[i])
            invariant
                i <= v.len(),
                v@ == rest@,
                first_from(0, rest@.len() as int, is_white_at(rest@)) == first_from(
                    i as int,
                    rest@.len() as int,
                    is_white_at(rest@),
                ),
            decreases v.len() - i,
        {
            i += 1;
        }
        let piece = head(rest, i);
        let ghost done = views(out@);
        proof {
            lemma_views_push(out@, piece);
        }
        out.push(piece);
        let next = tail(rest, i);
        assert(done + (seq![piece@] + words_of(next@)) =~= done.push(piece@) + words_of(next@));
        proof {
            if i == v.len() {
                assert(next@ =~= Seq::empty());
                assert(words_of(next@) =~= Seq::empty());
                assert(piece@ =~= rest@);
                assert(done + seq![rest@] =~= done.push(piece@) + words_of(next@));
            }
        }
        rest = next;
    }
    out
}

/// The concatenation of two texts.
pub fn concat2(a: &str, b: &str) -> (r: String)
    ensures
        r@ == a@ + b@,
{
    let mut r = a.to_owned();
    r.append(b);
    r
}

/// The concatenation of three texts.
pub fn concat3(a: &str, b: &str, c: &str) -> (r: String)
    ensures
        r@ == a@ + b@ + c@,
{
    let mut r = concat2(a, b);
    r.append(c);
    r
}

/// The texts of a list with a separator between each two.
pub fn join(parts: &Vec<String>, sep: &str) -> (r: String)
    ensures
        r@ == joined(texts(parts@), sep@),
{
    let mut r = String::new();
    let mut i: usize = 0;
    while i < parts.len()
        invariant
            i <= parts.len(),
            r@ == joined(texts(parts@).take(i as int), sep@),
        decreases parts.len() - i,
    {
        let ghost t = texts(parts@).take(i + 1);
        assert(t.drop_last() =~= texts(parts@).take(i as int));
        if i > 0 {
            r.append(sep);
        }
        r.append(parts[i].as_str());
        assert(i == 0 ==> r@ =~= t[0]);
        i += 1;
    }
    assert(texts(parts@).take(parts@.len() as int) =~= texts(parts@));
    r
}

/// A text that neither begins nor ends with white space is trimmed.
pub proof fn lemma_trimmed_already(s: Seq<char>)
    requires
        s.len() > 0 ==> !white(s[0]) && !white(s.last()),
    ensures
        trimmed(s) == s,
{
}

/// A trimmed text neither begins nor ends with white space.
pub proof fn lemma_trimmed_ends(s: Seq<char>)
    requires
        trimmed(s) == s,
        s.len() > 0,
    ensures
        !white(s[0]),
        !white(s.last()),
{
    if white(s[0]) {
        lemma_ltrim_len(s.skip(1));
        lemma_rtrim_len(ltrim(s));
    } else if white(s.last()) {
        lemma_rtrim_len(s.drop_last());
    }
}

/// The first index with a property is where everything before lacks it.
pub proof fn lemma_first_is(i: int, n: int, p: spec_fn(int) -> bool, k: int)
    requires
        i <= k < n,
        p(k),
        forall|j: int| i <= j < k ==> !#[trigger] p(j),
    ensures
        first_from(i, n, p) == Some(k),
    decreases k - i,
{
    if i < k {
        lemma_first_is(i + 1, n, p, k);
    }
}

/// There is no first index where no index has the property.
pub proof fn lemma_first_none(i: int, n: int, p: spec_fn(int) -> bool)
    requires
        forall|j: int| i <= j < n ==> !#[trigger] p(j),
    ensures
        first_from(i, n, p) is None,
    decreases n - i,
{
    if i < n {
        lemma_first_none(i + 1, n, p);
    }
}

/// What follows a prefix is the rest.
pub proof fn lemma_after(p: Seq<char>, s: Seq<char>)
    ensures
        after(p + s, p) == Some(s),
{
    assert((p + s).subrange(0, p.len() as int) =~= p);
    assert((p + s).skip(p.len() as int) =~= s);
}

/// What precedes a suffix is the rest.
pub proof fn lemma_before(s: Seq<char>, p: Seq<char>)
    ensures
        before(s + p, p) == Some(s),
{
    assert((s + p).subrange(s.len() as int, (s + p).len() as int) =~= p);
    assert((s + p).take(s.len() as int) =~= s);
}

/// A blank in front of a trimmed text is trimmed away.
pub proof fn lemma_blank_before(s: Seq<char>)
    requires
        s.len() > 0,
        !white(s[0]),
        !white(s.last()),
    ensures
        trimmed(seq![' '] + s) == s,
{
    let t = seq![' '] + s;
    assert(t[0] == ' ');
    assert(t.skip(1) =~= s);
    reveal_with_fuel(ltrim, 2);
}

/// A blank behind a trimmed text is trimmed away.
pub proof fn lemma_blank_behind(s: Seq<char>)
    requires
        s.len() > 0,
        !white(s[0]),
        !white(s.last()),
    ensures
        trimmed(s + seq![' ']) == s,
{
    let t = s + seq![' '];
    assert(t[0] == s[0]);
    assert(t.last() == ' ');
    assert(t.drop_last() =~= s);
    reveal_with_fuel(rtrim, 2);
}

/// Joining from the front.
pub proof fn lemma_joined_front(parts: Seq<Seq<char>>, sep: Seq<char>)
    requires
        parts.len() > 1,
    ensures
        joined(parts, sep) == parts[0] + sep + joined(parts.skip(1), sep),
    decreases parts.len(),
{
    let rest = parts.skip(1);
    if parts.len() == 2 {
        assert(parts.drop_last().len() == 1);
        assert(joined(parts.drop_last(), sep) == parts[0]);
        assert(joined(rest, sep) == parts[1]);
    } else {
        lemma_joined_front(parts.drop_last(), sep);
        assert(parts.drop_last().skip(1) =~= rest.drop_last());
        assert(joined(parts, sep) =~= parts[0] + sep + joined(rest, sep));
    }
}

} // verus!
