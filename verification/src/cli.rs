//! The rules of the command line that do not depend on where its values come
//! from.

use vstd::prelude::*;

use crate::text;

verus! {

/// The directory of the traces where nothing else says one.
pub open spec fn fallback_dir() -> Seq<char> {
    "./ct-traces/"@
}

/// The directory of the traces where nothing else says one.
pub fn default_out_dir() -> (r: &'static str)
    ensures
        r@ == fallback_dir(),
{
    "./ct-traces/"
}

/// The directory of the traces: the one of the command line, or else the one
/// of the environment unless that is empty, or else the default.
pub fn resolve_out_dir<P>(
    cli_out_dir: Option<P>,
    env_out_dir: Option<P>,
    env_is_empty: bool,
    default: P,
) -> (r: P)
    ensures
        r == (match cli_out_dir {
            Some(dir) => dir,
            None => match env_out_dir {
                Some(dir) => if env_is_empty {
                    default
                } else {
                    dir
                },
                None => default,
            },
        }),
{
    if let Some(dir) = cli_out_dir {
        return dir;
    }
    if let Some(dir) = env_out_dir {
        if !env_is_empty {
            return dir;
        }
    }
    default
}

/// The lower-case form of an ASCII letter; any other character as it is.
pub open spec fn lower(c: char) -> char {
    if 'A' <= c <= 'Z' {
        (c as u32 + 32) as char
    } else {
        c
    }
}

/// `s` in lower case, as far as it is ASCII.
pub open spec fn lowered(s: Seq<char>) -> Seq<char> {
    s.map_values(|c: char| lower(c))
}

/// The value switches recording off.
pub open spec fn disables(value: Option<Seq<char>>) -> bool {
    match value {
        Some(v) => text::trimmed(v) == "1"@ || lowered(text::trimmed(v)) == lowered("true"@),
        None => false,
    }
}

fn lower_char(c: char) -> (r: char)
    ensures
        r == lower(c),
{
    match c {
        'A' => 'a',
        'B' => 'b',
        'C' => 'c',
        'D' => 'd',
        'E' => 'e',
        'F' => 'f',
        'G' => 'g',
        'H' => 'h',
        'I' => 'i',
        'J' => 'j',
        'K' => 'k',
        'L' => 'l',
        'M' => 'm',
        'N' => 'n',
        'O' => 'o',
        'P' => 'p',
        'Q' => 'q',
        'R' => 'r',
        'S' => 's',
        'T' => 't',
        'U' => 'u',
        'V' => 'v',
        'W' => 'w',
        'X' => 'x',
        'Y' => 'y',
        'Z' => 'z',
        _ => c,
    }
}

/// Whether two texts are equal when the case of ASCII letters does not count.
pub fn equal_ignoring_case(a: &str, b: &str) -> (r: bool)
    ensures
        r == (lowered(a@) == lowered(b@)),
{
    let x = text::chars_of(a);
    let y = text::chars_of(b);
    if x.len() != y.len() {
        assert(lowered(a@).len() != lowered(b@).len());
        return false;
    }
    let mut i: usize = 0;
    while i < x.len()
        invariant
            i <= x.len(),
            x@ == a@,
            y@ == b@,
            x.len() == y.len(),
            forall|j: int| 0 <= j < i ==> #[trigger] lowered(a@)[j] == lowered(b@)[j],
        decreases x.len() - i,
    {
        if lower_char(x[i]) != lower_char(y[i]) {
            assert(lowered(a@)[i as int] != lowered(b@)[i as int]);
            return false;
        }
        i += 1;
    }
    assert(lowered(a@) =~= lowered(b@));
    true
}

/// Whether the value of the environment variable switches recording off: `1`
/// or `true`, in any case and with blanks around it.
pub fn recording_disabled(value: Option<&str>) -> (r: bool)
    ensures
        r == disables(text::opt_view(value)),
{
    match value {
        Some(value) => {
            let v = text::trim(value);
            text::str_eq(v, "1") || equal_ignoring_case(v, "true")
        },
        None => false,
    }
}

/// A character is one of the two forms of a letter.
pub open spec fn either(c: char, small: char, capital: char) -> bool {
    c == small || c == capital
}

/// What switches recording off is, but for white space around it, the digit one
/// or the word true with each letter small or capital, and nothing else.
pub proof fn law_recording_is_switched_off(v: Seq<char>)
    ensures
        disables(Some(v)) <==> ({
            let t = text::trimmed(v);
            ||| t.len() == 1 && t[0] == '1'
            ||| {
                &&& t.len() == 4
                &&& either(t[0], 't', 'T')
                &&& either(t[1], 'r', 'R')
                &&& either(t[2], 'u', 'U')
                &&& either(t[3], 'e', 'E')
            }
        }),
        !disables(None),
{
    reveal_strlit("1");
    reveal_strlit("true");
    let t = text::trimmed(v);
    let word = "true"@;
    lemma_lower('t');
    lemma_lower('r');
    lemma_lower('u');
    lemma_lower('e');
    assert(lowered(word) =~= word);
    if t.len() == 1 {
        assert(t == "1"@ <==> t[0] == '1') by {
            if t[0] == '1' {
                assert(t =~= "1"@);
            }
        }
    }
    if t.len() == 4 {
        let low = lowered(t);
        lemma_lower(t[0]);
        lemma_lower(t[1]);
        lemma_lower(t[2]);
        lemma_lower(t[3]);
        assert(low[0] == lower(t[0]) && low[1] == lower(t[1]) && low[2] == lower(t[2]) && low[3]
            == lower(t[3]));
        if low[0] == 't' && low[1] == 'r' && low[2] == 'u' && low[3] == 'e' {
            assert(low =~= word);
        }
    }
}

proof fn lemma_lower(c: char)
    ensures
        lower(c) == 't' <==> either(c, 't', 'T'),
        lower(c) == 'r' <==> either(c, 'r', 'R'),
        lower(c) == 'u' <==> either(c, 'u', 'U'),
        lower(c) == 'e' <==> either(c, 'e', 'E'),
{
    assert(c <= 0x10_ffff);
    assert(c as u32 == c as int);
}

} // verus!
