//! What the comments and attributes of a source tell.

use vstd::prelude::*;

use crate::directives;
use crate::functions;
use crate::grammar;
use crate::numbers;
use crate::numeral;
use crate::ops::State;
use crate::parser;
use crate::semantics::Program;
use crate::sources;
use crate::statement;
use crate::text;
use crate::tracer;

verus! {

/// The two marks that begin a comment are alike.
pub proof fn law_comment_marks_are_alike(rest: Seq<char>)
    ensures
        directives::directive_of(";;"@ + rest) == directives::directive_of("//"@ + rest),
{
    reveal_strlit("//");
    reveal_strlit(";;");
    let a = "//"@ + rest;
    let b = ";;"@ + rest;
    assert(a[0] == '/');
    assert(b[0] == ';');
    text::lemma_after("//"@, rest);
    text::lemma_after(";;"@, rest);
    if "//"@.is_prefix_of(b) {
        assert(b.subrange(0, 2)[0] == '/');
    }
}

/// A line that does not begin with a mark of a comment is no directive.
pub proof fn law_directive_is_a_comment(line: Seq<char>)
    requires
        line.len() > 0,
        !text::white(line[0]),
        line[0] != '/',
        line[0] != ';',
    ensures
        directives::directive_of(line) is None,
{
    reveal_strlit("//");
    reveal_strlit(";;");
    if "//"@.is_prefix_of(line) {
        assert(line.subrange(0, 2)[0] == '/');
    }
    if ";;"@.is_prefix_of(line) {
        assert(line.subrange(0, 2)[0] == ';');
    }
}

/// A comma between the codes of a directive counts as a blank.
pub proof fn law_commas_count_as_blanks(a: Seq<char>, b: Seq<char>)
    ensures
        directives::commas_as_spaces(a + seq![','] + b) == directives::commas_as_spaces(
            a + seq![' '] + b,
        ),
        sources::lacks(a, ',') ==> directives::commas_as_spaces(a) == a,
{
    assert(directives::commas_as_spaces(a + seq![','] + b) =~= directives::commas_as_spaces(
        a + seq![' '] + b,
    ));
    if sources::lacks(a, ',') {
        assert(directives::commas_as_spaces(a) =~= a);
    }
}

/// A mark behind a code does not count.
pub proof fn law_marks_behind_codes_do_not_count(
    words: Seq<Seq<char>>,
    word: Seq<char>,
    mark: char,
)
    requires
        mark == '.' || mark == ';' || mark == ':' || mark == '!' || mark == '?',
    ensures
        directives::op_codes_of(words.push(word.push(mark))) == directives::op_codes_of(
            words.push(word),
        ),
        directives::op_codes_of(words.push(seq![mark])) == directives::op_codes_of(words),
{
    assert(words.push(word.push(mark)).drop_last() =~= words);
    assert(words.push(word).drop_last() =~= words);
    assert(word.push(mark).drop_last() =~= word);
    let single = seq![mark];
    assert(words.push(single).drop_last() =~= words);
    assert(single.drop_last() =~= Seq::empty());
    reveal_with_fuel(directives::without_punctuation, 2);
    assert(directives::without_punctuation(single).len() == 0);
    assert(directives::op_codes_of(words) matches Some(codes) ==> directives::op_codes_of(
        words.push(single),
    ) == Some(codes));
}

/// A code may be written in hexadecimal, with small or capital letters, behind
/// `0x` or `0X`.
pub proof fn law_hexadecimal_code_has_its_value(digits: Seq<char>, capital: bool)
    requires
        digits.len() > 0,
        numbers::all_digits(digits, 16),
        numbers::number(digits, 16) <= i64::MAX,
    ensures
        directives::op_code_of(
            if capital {
                "0X"@ + digits
            } else {
                "0x"@ + digits
            },
        ) == Some(numbers::number(digits, 16) as i64),
{
    reveal_strlit("0x");
    reveal_strlit("0X");
    numbers::law_number_has_its_value(digits, 16, i64::MIN as int, i64::MAX as int);
    text::lemma_after("0x"@, digits);
    text::lemma_after("0X"@, digits);
    if capital && "0x"@.is_prefix_of("0X"@ + digits) {
        assert(("0X"@ + digits).subrange(0, 2)[1] == 'X');
    }
}

/// A word that is no code spoils the list, whatever stands before it.
pub proof fn law_other_word_spoils_the_list(words: Seq<Seq<char>>, word: Seq<char>, k: int)
    requires
        1 <= k < word.len(),
        !('0' <= word[k] <= '9'),
        word[1] != 'x',
        word[1] != 'X',
        word.last() != '.' && word.last() != ';' && word.last() != ':' && word.last() != '!'
            && word.last() != '?',
    ensures
        directives::op_codes_of(words.push(word)) is None,
{
    reveal_strlit("0x");
    reveal_strlit("0X");
    assert(words.push(word).drop_last() =~= words);
    if "0x"@.is_prefix_of(word) {
        assert(word.subrange(0, 2)[1] == word[1]);
    }
    if "0X"@.is_prefix_of(word) {
        assert(word.subrange(0, 2)[1] == word[1]);
    }
    if numeral::i64_value(word) is Ok {
        numeral::lemma_integer_chars(word, i64::MIN as int, i64::MAX as int);
    }
}

/// The attribute that gives a method id, as it is written.
pub open spec fn method_id_text(n: i64) -> Seq<char> {
    "@method_id("@ + numeral::int_text(n as int) + ")"@
}

/// A method id is read back.
pub proof fn law_method_id_is_read_back(n: i64)
    ensures
        functions::method_id_of(method_id_text(n)) == Some(n),
{
    reveal_strlit("@method_id(");
    reveal_strlit("@");
    reveal_strlit("method_id");
    reveal_strlit(")");
    let shown = numeral::int_text(n as int);
    let rest = "method_id"@ + seq!['('] + (shown + seq![')']);
    assert(method_id_text(n) =~= "@"@ + rest);
    text::lemma_after("@"@, rest);
    assert forall|i: int| 0 <= i < "method_id"@.len() implies #[trigger] "method_id"@[i] != '(' by {}
    sources::lemma_find("method_id"@, '(', shown + seq![')']);
    lemma_shown(n);
    sources::lemma_find(shown, ')', Seq::empty());
    assert(shown + seq![')'] + Seq::<char>::empty() =~= shown + seq![')']);
    assert("method_id"@[0] == 'm');
    assert("method_id"@.last() == 'd');
    text::lemma_trimmed_already("method_id"@);
    text::lemma_trimmed_already(shown);
    numeral::law_decimal_round_trip(n as int, i64::MIN as int, i64::MAX as int);
}

proof fn lemma_shown(n: i64)
    ensures
        sources::lacks(numeral::int_text(n as int), ')'),
        numeral::int_text(n as int).len() > 0,
        !text::white(numeral::int_text(n as int)[0]),
        !text::white(numeral::int_text(n as int).last()),
{
    let shown = numeral::int_text(n as int);
    numeral::lemma_int_text_ends(n as int);
    if n < 0 {
        numeral::lemma_nat_text_digits((-n) as nat);
        assert forall|i: int| 0 <= i < shown.len() implies #[trigger] shown[i] != ')' by {
            if i > 0 {
                assert(shown[i] == numeral::nat_text((-n) as nat)[i - 1]);
            }
        }
    } else {
        numeral::lemma_nat_text_digits(n as nat);
    }
}

/// A method id that stands on a line goes to the function that comes next;
/// another attribute changes nothing.
pub proof fn law_method_id_belongs_to_the_next_function(
    lines: Seq<Seq<char>>,
    i: int,
    pending: Option<i64>,
    path: Seq<char>,
    n: i64,
)
    requires
        0 <= i < lines.len(),
    ensures
        parser::line_at(lines, i) == method_id_text(n) ==> functions::functions_from(
            lines,
            i,
            pending,
            path,
        ) == functions::functions_from(lines, i + 1, Some(n), path),
        ({
            let t = parser::line_at(lines, i);
            t.len() > 0 && t[0] == '@' && sources::lacks(t, '(') ==> functions::functions_from(
                lines,
                i,
                pending,
                path,
            ) == functions::functions_from(lines, i + 1, pending, path)
        }),
{
    reveal_strlit("@method_id(");
    reveal_strlit("@");
    let t = parser::line_at(lines, i);
    if t == method_id_text(n) {
        law_method_id_is_read_back(n);
        assert(t[0] == '@');
        assert(t[10] == '(');
    } else if t.len() > 0 && t[0] == '@' && sources::lacks(t, '(') {
        assert(t =~= "@"@ + t.skip(1));
        text::lemma_after("@"@, t.skip(1));
        let rest = t.skip(1);
        assert forall|j: int| 0 <= j < rest.len() implies #[trigger] rest[j] != '(' by {
            assert(rest[j] == t[j + 1]);
        }
        sources::lemma_find_none(rest, '(');
    }
}

/// A name for another type is no union and has no constructors.
#[verifier::spinoff_prover]
#[verifier::rlimit(40)]
pub proof fn law_alias_is_no_union(name: Seq<char>, ty: Seq<char>)
    requires
        grammar::plain_name(name),
        ty.len() > 0,
        text::trimmed(ty) == ty,
        ty.last() != ';',
        sources::lacks(ty, '|'),
    ensures
        directives::constructors_in(seq!["type "@ + name + " = "@ + ty + ";"@]) == Set::<
            Seq<char>,
        >::empty(),
{
    reveal_strlit("type ");
    reveal_strlit(" = ");
    reveal_strlit(";");
    let line = "type "@ + name + " = "@ + ty + ";"@;
    assert(line[0] == 't');
    assert(line.last() == ';');
    text::lemma_trimmed_already(line);
    let tail = seq![' '] + ty + ";"@;
    let front = name + seq![' '];
    let rest = front + seq!['='] + tail;
    assert(line =~= "type "@ + rest);
    text::lemma_after("type "@, rest);
    sources::lemma_name_lacks(name, '=');
    assert forall|i: int| 0 <= i < front.len() implies #[trigger] front[i] != '=' by {
        if i < name.len() {
            assert(front[i] == name[i]);
        }
    }
    sources::lemma_find(front, '=', tail);
    text::lemma_trimmed_ends(ty);
    text::lemma_blank_before(ty);
    assert(tail =~= (seq![' '] + ty) + ";"@);
    let padded = seq![' '] + ty;
    assert(padded.last() == ty.last());
    assert(tail.drop_last() =~= padded);
    reveal_with_fuel(text::rtrim_char, 2);
    sources::lemma_bare(ty);
    assert(statement::bare(tail) == ty);
    sources::lemma_find_none(ty, '|');
    assert(directives::alternatives_of(line) =~= Seq::empty());
    let one = seq![line];
    assert(one.drop_last() =~= Seq::empty());
    reveal_with_fuel(directives::constructors_in, 2);
    assert(directives::constructors_in(one) =~= Set::empty());
}

/// What has no type among the parameters of a function is passed over.
pub proof fn law_parameter_needs_a_type(parts: Seq<Seq<char>>, s: Seq<char>)
    requires
        text::trimmed(s) == s,
        sources::lacks(s, ':'),
    ensures
        functions::params_among(parts.push(s)) == functions::params_among(parts),
{
    assert(parts.push(s).drop_last() =~= parts);
    sources::lemma_find_none(s, ':');
}

/// A directive without messages is like none: the handler runs once.
pub proof fn law_directive_without_messages_does_not_count(
    p: Program,
    depth: nat,
    st: State,
    name: Seq<char>,
    first: bool,
)
    ensures
        tracer::hook_run(p, depth, st, name, Some(Seq::empty()), first) == tracer::hook_run(
            p,
            depth,
            st,
            name,
            None,
            first,
        ),
{
}

/// Every function has a name: what has none is passed over.
pub proof fn law_functions_have_names(
    lines: Seq<Seq<char>>,
    i: int,
    pending: Option<i64>,
    path: Seq<char>,
    k: int,
)
    requires
        0 <= k < functions::functions_from(lines, i, pending, path).len(),
    ensures
        functions::functions_from(lines, i, pending, path)[k].name.len() > 0,
    decreases parser::left(lines, i),
{
    let t = parser::line_at(lines, i);
    if i < lines.len() {
        if t.len() > 0 && t[0] == '@' {
            let next = match functions::method_id_of(t) {
                Some(n) => Some(n),
                None => pending,
            };
            law_functions_have_names(lines, i + 1, next, path, k);
        } else {
            match text::after(t, "fun "@) {
                None => {
                    law_functions_have_names(lines, i + 1, pending, path, k);
                },
                Some(rest) => {
                    let (f, end) = functions::function_at(lines, i, rest, pending, path);
                    let behind = parser::next_line(lines, parser::past(i, end));
                    if f.name.len() == 0 {
                        law_functions_have_names(lines, behind, None, path, k);
                    } else if k > 0 {
                        law_functions_have_names(lines, behind, None, path, k - 1);
                    }
                },
            }
        }
    }
}

} // verus!
