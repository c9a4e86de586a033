//! What becomes of the accesses to integer fields in an expression.

use vstd::prelude::*;

use crate::brackets;
use crate::chars;
use crate::numeral;
use crate::rewrite::{self, Env};
use crate::sources;
use crate::syntax;
use crate::text;
use crate::value::Val;

verus! {

/// An ASCII name.
pub open spec fn ascii_name(s: Seq<char>) -> bool {
    &&& s.len() > 0
    &&& chars::ascii_letter(s[0]) || s[0] == '_'
    &&& forall|i: int| 0 <= i < s.len() ==> chars::ascii_word(#[trigger] s[i])
}

/// A text before which a name ends.
pub open spec fn ends_names(s: Seq<char>) -> bool {
    s.len() > 0 ==> !chars::ascii_word(s[0])
}

/// The word that begins a text ends where the rest begins.
proof fn lemma_word(front: Seq<char>, word: Seq<char>, rest: Seq<char>)
    requires
        forall|i: int| 0 <= i < word.len() ==> chars::ascii_word(#[trigger] word[i]),
        ends_names(rest),
    ensures
        rewrite::word_end(front + word + rest, front.len() as int) == front.len() + word.len(),
{
    let s = front + word + rest;
    let i = front.len() as int;
    let k = i + word.len();
    let q = rewrite::not_word_at(s);
    text::lemma_first_from(i, s.len() as int, q);
    let end = rewrite::word_end(s, i);
    assert forall|j: int| i <= j < k implies !#[trigger] q(j) by {
        assert(s[j] == word[j - i]);
    }
    if rest.len() > 0 {
        assert(s[k] == rest[0]);
        assert(q(k));
    }
}

/// What becomes of a text from some place on does not depend on what stands
/// before it, except for whether a name may begin there.
proof fn lemma_behind(front: Seq<char>, s: Seq<char>, i: int, env: Env)
    requires
        front.len() > 0,
        0 <= i <= s.len(),
        i > 0 || s.len() == 0 || rewrite::name_begins(front + s, front.len() as int)
            == rewrite::name_begins(s, 0),
    ensures
        rewrite::accesses_resolved(front + s, front.len() + i, env) == rewrite::accesses_resolved(
            s,
            i,
            env,
        ),
    decreases s.len() - i,
{
    let t = front + s;
    let n = front.len() as int;
    if i < s.len() {
        assert(t[n + i] == s[i]);
        if i > 0 {
            assert(t[n + i - 1] == s[i - 1]);
        }
        if rewrite::name_begins(s, i) {
            let j = rewrite::word_end(s, i);
            rewrite::lemma_word_end(s, i);
            lemma_word_end_behind(front, s, i);
            assert(t.subrange(n + i, n + j) =~= s.subrange(i, j));
            assert(chars::ascii_word(s[i]));
            lemma_behind(front, s, j, env);
            if j < s.len() {
                assert(t[n + j] == s[j]);
                let k = rewrite::word_end(s, j + 1);
                rewrite::lemma_word_end(s, j + 1);
                lemma_word_end_behind(front, s, j + 1);
                if k > j + 1 {
                    assert(t.subrange(n + j + 1, n + k) =~= s.subrange(j + 1, k));
                    lemma_behind(front, s, k, env);
                }
            }
        } else {
            lemma_behind(front, s, i + 1, env);
        }
    }
}

proof fn lemma_word_end_behind(front: Seq<char>, s: Seq<char>, i: int)
    requires
        0 <= i <= s.len(),
    ensures
        rewrite::word_end(front + s, front.len() + i) == front.len() + rewrite::word_end(s, i),
    decreases s.len() - i,
{
    let t = front + s;
    let n = front.len() as int;
    if i < s.len() {
        assert(t[n + i] == s[i]);
        if chars::ascii_word(s[i]) {
            lemma_word_end_behind(front, s, i + 1);
        }
    }
}

/// The first field of the name in a struct is this integer.
pub open spec fn has_integer(base: Val, field: Seq<char>, n: i64) -> bool {
    exists|i: int| has_integer_at(base, field, n, i)
}

/// The field at the index is the first of the name, or the element that the
/// index in decimal selects, and is this integer.
pub open spec fn has_integer_at(base: Val, field: Seq<char>, n: i64, i: int) -> bool {
    match base {
        Val::Struct { fields, .. } => {
            &&& 0 <= i < fields.len()
            &&& fields[i].0 == field
            &&& forall|j: int| 0 <= j < i ==> (#[trigger] fields[j]).0 != field
            &&& fields[i].1 == Val::Int(n) || fields[i].1 == Val::Coin(n)
        },
        Val::Tuple(elements) => {
            &&& 0 <= i < elements.len() <= usize::MAX
            &&& field == numeral::int_text(i)
            &&& elements[i] == Val::Int(n) || elements[i] == Val::Coin(n)
        },
        _ => false,
    }
}

proof fn lemma_integer(env: Env, ident: Seq<char>, field: Seq<char>, n: i64)
    requires
        env.dom().contains(ident),
        has_integer(env[ident], field, n),
    ensures
        rewrite::int_access(env, ident, field) == Some(n),
{
    let base = env[ident];
    let i = choose|i: int| has_integer_at(base, field, n, i);
    match base {
        Val::Struct { fields, .. } => {
            let q = rewrite::field_named(fields, field);
            assert(q(i));
            assert forall|j: int| 0 <= j < i implies !#[trigger] q(j) by {
                assert(fields[j].0 != field);
            }
            text::lemma_first_is(0, fields.len() as int, q, i);
        },
        Val::Tuple(elements) => {
            numeral::law_decimal_round_trip(i, 0, usize::MAX as int);
        },
        _ => {},
    }
}

/// An access to an integer of a variable is replaced by that integer, and what
/// follows it comes to what it would alone.
pub proof fn law_access_is_replaced(
    ident: Seq<char>,
    field: Seq<char>,
    rest: Seq<char>,
    env: Env,
    n: i64,
)
    requires
        ascii_name(ident),
        field.len() > 0,
        forall|i: int| 0 <= i < field.len() ==> chars::ascii_word(#[trigger] field[i]),
        ends_names(rest),
        env.dom().contains(ident),
        has_integer(env[ident], field, n),
    ensures
        rewrite::accesses_resolved(ident + "."@ + field + rest, 0, env) == numeral::int_text(
            n as int,
        ) + rewrite::accesses_resolved(rest, 0, env),
{
    reveal_strlit(".");
    let s = ident + "."@ + field + rest;
    let j = ident.len() as int;
    let k = j + 1 + field.len();
    let none = Seq::<char>::empty();
    let tail = "."@ + field + rest;
    assert(s =~= none + ident + tail);
    lemma_word(none, ident, tail);
    assert(s =~= (ident + "."@) + field + rest);
    lemma_word(ident + "."@, field, rest);
    assert(s[0] == ident[0]);
    assert(s[j] == '.');
    assert(s.subrange(0, j) =~= ident);
    assert(s.subrange(j + 1, k) =~= field);
    lemma_integer(env, ident, field, n);
    let front = ident + "."@ + field;
    if rest.len() > 0 {
        assert(s[k] == rest[0]);
        lemma_no_start(rest[0]);
    }
    lemma_behind(front, rest, 0, env);
}

proof fn lemma_no_start(c: char)
    requires
        !chars::ascii_word(c),
    ensures
        !chars::ascii_letter(c),
        c != '_',
{
}

/// A character that is no part of a name is kept, and what follows it comes to
/// what it would alone.
pub proof fn law_other_character_is_kept(c: char, rest: Seq<char>, env: Env)
    requires
        !chars::ascii_word(c),
        c != '.',
    ensures
        rewrite::accesses_resolved(seq![c] + rest, 0, env) == seq![c] + rewrite::accesses_resolved(
            rest,
            0,
            env,
        ),
{
    let s = seq![c] + rest;
    assert(s[0] == c);
    lemma_no_start(c);
    if rest.len() > 0 {
        assert(s[1] == rest[0]);
    }
    lemma_behind(seq![c], rest, 0, env);
}

/// A text without a dot is kept as it is.
pub proof fn law_text_without_access_is_kept(s: Seq<char>, env: Env)
    requires
        sources::lacks(s, '.'),
    ensures
        rewrite::accesses_resolved(s, 0, env) == s,
{
    lemma_kept(s, 0, env);
    assert(s.skip(0) =~= s);
}

proof fn lemma_kept(s: Seq<char>, i: int, env: Env)
    requires
        0 <= i <= s.len(),
        sources::lacks(s, '.'),
    ensures
        rewrite::accesses_resolved(s, i, env) == s.skip(i),
    decreases s.len() - i,
{
    if i == s.len() {
        assert(s.skip(i) =~= Seq::empty());
    } else if rewrite::name_begins(s, i) {
        let j = rewrite::word_end(s, i);
        rewrite::lemma_word_end(s, i);
        assert(chars::ascii_word(s[i]));
        lemma_kept(s, j, env);
        assert(s.subrange(i, j) + s.skip(j) =~= s.skip(i));
    } else {
        lemma_kept(s, i + 1, env);
        assert(seq![s[i]] + s.skip(i + 1) =~= s.skip(i));
    }
}

/// Nothing is replaced behind a dot: a chain of names whose first access is no
/// integer is kept as it is, whatever its later names stand for.
#[verifier::spinoff_prover]
#[verifier::rlimit(40)]
pub proof fn law_chain_is_kept(
    a: Seq<char>,
    b: Seq<char>,
    c: Seq<char>,
    rest: Seq<char>,
    env: Env,
)
    requires
        ascii_name(a),
        ascii_name(b),
        ascii_name(c),
        ends_names(rest),
        rest.len() > 0 ==> rest[0] != '.',
        rewrite::int_access(env, a, b) is None,
    ensures
        rewrite::accesses_resolved(a + "."@ + b + "."@ + c + rest, 0, env) == a + "."@ + b + "."@
            + c + rewrite::accesses_resolved(rest, 0, env),
{
    reveal_strlit(".");
    let s = a + "."@ + b + "."@ + c + rest;
    let none = Seq::<char>::empty();
    let i = a.len() as int;
    let j = i + 1 + b.len();
    let k = j + 1 + c.len();
    assert(s =~= none + a + ("."@ + b + "."@ + c + rest));
    lemma_word(none, a, "."@ + b + "."@ + c + rest);
    assert(s =~= (a + "."@) + b + ("."@ + c + rest));
    lemma_word(a + "."@, b, "."@ + c + rest);
    assert(s[0] == a[0]);
    assert(s[i] == '.');
    assert(s[j] == '.');
    assert(s.subrange(0, i) =~= a);
    assert(s.subrange(i + 1, j) =~= b);
    let whole = a + "."@ + b + "."@ + c;
    assert(s.take(k) =~= whole);
    assert forall|n: int| i <= n < k implies !#[trigger] rewrite::name_begins(s, n) by {
        if n == i || n == j {
        } else if n < j {
            assert(s[n] == b[n - i - 1]);
            if n > i + 1 {
                assert(s[n - 1] == b[n - i - 2]);
            }
        } else {
            assert(s[n] == c[n - j - 1]);
            if n > j + 1 {
                assert(s[n - 1] == c[n - j - 2]);
            }
        }
    }
    lemma_skipped(s, i, k, env);
    if rest.len() > 0 {
        assert(s[k] == rest[0]);
        lemma_no_start(rest[0]);
    }
    assert(s =~= whole + rest);
    lemma_behind(whole, rest, 0, env);
    assert(s.subrange(0, i) + s.subrange(i, k) =~= whole);
    assert(s.subrange(0, i) + (s.subrange(i, k) + rewrite::accesses_resolved(rest, 0, env))
        =~= whole + rewrite::accesses_resolved(rest, 0, env));
}

/// Where no name begins everything is kept.
proof fn lemma_skipped(s: Seq<char>, i: int, k: int, env: Env)
    requires
        0 <= i <= k <= s.len(),
        forall|n: int| i <= n < k ==> !#[trigger] rewrite::name_begins(s, n),
    ensures
        rewrite::accesses_resolved(s, i, env) == s.subrange(i, k) + rewrite::accesses_resolved(
            s,
            k,
            env,
        ),
    decreases k - i,
{
    if i < k {
        assert(!rewrite::name_begins(s, i));
        lemma_skipped(s, i + 1, k, env);
        assert(seq![s[i]] + (s.subrange(i + 1, k) + rewrite::accesses_resolved(s, k, env))
            =~= s.subrange(i, k) + rewrite::accesses_resolved(s, k, env));
    } else {
        assert(s.subrange(i, k) + rewrite::accesses_resolved(s, k, env)
            =~= rewrite::accesses_resolved(s, k, env));
    }
}

/// The variables that an expression can name are the integers of the
/// environment.
pub proof fn law_integers_are_known(env: Env, name: Seq<char>, v: Val)
    ensures
        ({
            let known = rewrite::int_env(env.insert(name, v));
            &&& (v matches Val::Int(n) ==> known.dom().contains(name) && known[name] == n)
            &&& (v matches Val::Coin(n) ==> known.dom().contains(name) && known[name] == n)
            &&& (!(v is Int) && !(v is Coin) ==> !known.dom().contains(name))
            &&& known.remove(name) == rewrite::int_env(env).remove(name)
        }),
{
    let known = rewrite::int_env(env.insert(name, v));
    assert(known.remove(name) =~= rewrite::int_env(env).remove(name));
}

/// A sign of arithmetic.
pub open spec fn arithmetic_sign(c: char) -> bool {
    c == '+' || c == '-' || c == '*' || c == '/' || c == '%'
}

/// The base of an access: every dot and every sign of arithmetic in it stands in
/// brackets, and it does not begin with a digit.
pub open spec fn base_text(s: Seq<char>) -> bool {
    &&& s.len() > 0
    &&& text::trimmed(s) == s
    &&& brackets::depth(s) == 0
    &&& !('0' <= s[0] <= '9')
    &&& forall|i: int|
        0 <= i < s.len() && (#[trigger] s[i] == '.' || arithmetic_sign(s[i])) ==> brackets::depth(
            s.take(i),
        ) != 0
}

/// The name of a field or the number of an element.
pub open spec fn field_text(s: Seq<char>) -> bool {
    s.len() > 0 && forall|i: int| 0 <= i < s.len() ==> chars::ascii_word(#[trigger] s[i])
}

/// A text with a field behind its last dot is split there.
proof fn lemma_dot_parts(lhs: Seq<char>, field: Seq<char>)
    requires
        lhs.len() > 0,
        text::trimmed(lhs) == lhs,
        brackets::depth(lhs) == 0,
        field_text(field),
    ensures
        ({
            let t = lhs + "."@ + field;
            &&& text::trimmed(t) == t
            &&& brackets::depth(t) == 0
            &&& syntax::dot_parts(t) == Some((lhs, field))
        }),
{
    reveal_strlit(".");
    let t = lhs + "."@ + field;
    let n = lhs.len() as int;
    text::lemma_trimmed_ends(lhs);
    lemma_field_ends(field);
    assert(t[0] == lhs[0]);
    assert(t.last() == field.last());
    text::lemma_trimmed_already(t);
    text::lemma_trimmed_already(field);
    let q = brackets::dot_at(t);
    assert(t.take(n) =~= lhs);
    assert(t[n] == '.');
    assert(q(n));
    text::lemma_last_below(t.len() as int, q);
    assert forall|j: int| n < j < t.len() implies !#[trigger] q(j) by {
        assert(t[j] == field[j - n - 1]);
    }
    assert(t.skip(n + 1) =~= field);
    assert forall|i: int| 0 <= i < field.len() implies chars::word(#[trigger] field[i]) by {
        syntax::lemma_ascii_is_word(field[i]);
    }
    assert(t =~= lhs + ("."@ + field));
    brackets::lemma_depth_add(lhs, "."@ + field);
    lemma_flat("."@ + field);
}

/// A field has neither white space nor brackets.
proof fn lemma_field_ends(field: Seq<char>)
    requires
        field_text(field),
    ensures
        !text::white(field[0]),
        !text::white(field.last()),
{
    lemma_word_is_black(field[0]);
    assert(field.last() == field[field.len() - 1]);
    lemma_word_is_black(field.last());
}

proof fn lemma_word_is_black(c: char)
    requires
        chars::ascii_word(c),
    ensures
        !text::white(c),
{
    assert(c <= 0x10_ffff);
    assert(c as u32 == c as int);
}

proof fn lemma_flat(s: Seq<char>)
    requires
        forall|i: int| 0 <= i < s.len() ==> chars::ascii_word(#[trigger] s[i]) || s[i] == '.',
    ensures
        brackets::depth(s) == 0,
    decreases s.len(),
{
    if s.len() > 0 {
        let front = s.drop_last();
        assert forall|i: int| 0 <= i < front.len() implies chars::ascii_word(#[trigger] front[i])
            || front[i] == '.' by {
            assert(front[i] == s[i]);
        }
        lemma_flat(front);
        assert(chars::ascii_word(s[s.len() - 1]) || s[s.len() - 1] == '.');
    }
}

/// An access is read as the base and the field that it was written of. A field
/// of a field is no access, and neither is one of a sum or a product.
pub proof fn law_access_is_read_back(
    base: Seq<char>,
    field: Seq<char>,
    other: Seq<char>,
    i: int,
    sum: Seq<char>,
)
    requires
        base_text(base),
        field_text(field),
        field_text(other),
        sum.len() > 0,
        text::trimmed(sum) == sum,
        brackets::depth(sum) == 0,
        0 <= i < sum.len(),
        arithmetic_sign(sum[i]),
        brackets::depth(sum.take(i)) == 0,
    ensures
        syntax::dot_shape(base + "."@ + field) == Some((base, field)),
        syntax::dot_shape(base + "."@ + field + "."@ + other) is None,
        syntax::dot_shape(sum + "."@ + field) is None,
{
    lemma_dot_parts(base, field);
    let q = brackets::dot_at(base);
    text::lemma_last_below(base.len() as int, q);
    assert forall|j: int| 0 <= j < base.len() implies !#[trigger] q(j) by {
        assert(base[j] == '.' ==> brackets::depth(base.take(j)) != 0);
    }
    let signs = syntax::sign_at(base);
    text::lemma_first_from(0, base.len() as int, signs);
    assert forall|j: int| 0 <= j < base.len() implies !#[trigger] signs(j) by {
        assert(arithmetic_sign(base[j]) ==> brackets::depth(base.take(j)) != 0);
    }
    lemma_dot_parts(base + "."@ + field, other);
    lemma_dot_parts(sum, field);
    let there = syntax::sign_at(sum);
    assert(there(i));
    text::lemma_first_from(0, sum.len() as int, there);
}

} // verus!
