//! Rewriting of expressions before their evaluation: casts are dropped, and
//! accesses to integer fields are replaced by the integers.

use vstd::prelude::*;

use crate::chars;
use crate::numeral;
use crate::scope::Scope;
use crate::text;
use crate::value;
use crate::value::{Val, Value};

verus! {

/// "The character at this index is no ASCII letter, digit or underscore."
pub open spec fn not_word_at(s: Seq<char>) -> spec_fn(int) -> bool {
    |i: int| !chars::ascii_word(s[i])
}

/// The end of the run of ASCII letters, digits and underscores from `i` on.
pub open spec fn word_end(s: Seq<char>, i: int) -> int {
    match text::first_from(i, s.len() as int, not_word_at(s)) {
        Some(j) => j,
        None => s.len() as int,
    }
}

pub proof fn lemma_word_end(s: Seq<char>, i: int)
    requires
        0 <= i <= s.len(),
    ensures
        i <= word_end(s, i) <= s.len(),
        i < s.len() && chars::ascii_word(s[i]) ==> i < word_end(s, i),
{
    text::lemma_first_from(i, s.len() as int, not_word_at(s));
}

fn find_word_end(v: &Vec<char>, i: usize) -> (j: usize)
    requires
        i <= v.len(),
    ensures
        j == word_end(v@, i as int),
        i <= j <= v.len(),
{
    let mut j: usize = i;
    while j < v.len() && chars::is_ascii_word(v[j])
        invariant
            i <= j <= v.len(),
            word_end(v@, i as int) == word_end(v@, j as int),
        decreases v.len() - j,
    {
        j += 1;
    }
    j
}

/// "A cast begins at this index": ` as ` with a type name behind it.
pub open spec fn cast_at(s: Seq<char>, i: int) -> bool {
    i + 4 < s.len() && s.subrange(i, i + 4) == " as "@ && chars::ascii_word(s[i + 4])
}

/// `s` from `i` on without its casts: each ` as ` is dropped together with the
/// type name that follows it.
pub open spec fn casts_dropped(s: Seq<char>, i: int) -> Seq<char>
    decreases s.len() - i,
    when 0 <= i
{
    if i >= s.len() {
        Seq::empty()
    } else if cast_at(s, i) {
        proof {
            lemma_word_end(s, i + 4);
        }
        casts_dropped(s, word_end(s, i + 4))
    } else {
        seq![s[i]] + casts_dropped(s, i + 1)
    }
}

/// Drop the casts `as Type` of an expression: they do not change a value.
pub fn strip_as_casts(input: &str) -> (r: String)
    ensures
        r@ == casts_dropped(input@, 0),
{
    let v = text::chars_of(input);
    let mut out = String::new();
    let mut i: usize = 0;
    proof {
        reveal_strlit(" as ");
    }
    while i < v.len()
        invariant
            i <= v.len(),
            v@ == input@,
            " as "@ =~= seq![' ', 'a', 's', ' '],
            out@ + casts_dropped(input@, i as int) == casts_dropped(input@, 0),
        decreases v.len() - i,
    {
        if v.len() - i > 4 && v[i] == ' ' && v[i + 1] == 'a' && v[i + 2] == 's' && v[i + 3] == ' '
            && chars::is_ascii_word(v[i + 4]) {
            assert(input@.subrange(i as int, i + 4) =~= " as "@);
            i = find_word_end(&v, i + 4);
        } else {
            proof {
                if cast_at(input@, i as int) {
                    assert(input@.subrange(i as int, i + 4)[0] == ' ');
                    assert(input@.subrange(i as int, i + 4)[1] == 'a');
                    assert(input@.subrange(i as int, i + 4)[2] == 's');
                    assert(input@.subrange(i as int, i + 4)[3] == ' ');
                }
                assert(out@ + (seq![input@[i as int]] + casts_dropped(input@, i + 1))
                    =~= out@.push(input@[i as int]) + casts_dropped(input@, i + 1));
            }
            out.push(v[i]);
            i += 1;
        }
    }
    assert(out@ + casts_dropped(input@, i as int) =~= out@);
    out
}

/// "The field at this index has the name."
pub open spec fn field_named(fields: Seq<(Seq<char>, Val)>, name: Seq<char>) -> spec_fn(
    int,
) -> bool {
    |i: int| fields[i].0 == name
}

/// The part of a value that a field name or an index selects: the first field
/// of the name of a struct, or the element of the index of a tuple.
pub open spec fn projected(base: Val, field: Seq<char>) -> Option<Val> {
    match base {
        Val::Struct { fields, .. } => match text::first_from(
            0,
            fields.len() as int,
            field_named(fields, field),
        ) {
            Some(i) => Some(fields[i].1),
            None => None,
        },
        Val::Tuple(elements) => match numeral::usize_value(field) {
            Ok(i) => if i < elements.len() {
                Some(elements[i])
            } else {
                None
            },
            Err(_) => None,
        },
        _ => None,
    }
}

/// The part of a value that a field name or an index selects.
pub fn project<'a>(base: &'a Value, field: &str) -> (r: Option<&'a Value>)
    ensures
        match r {
            Some(v) => projected(base.model(), field@) == Some(v.model()),
            None => projected(base.model(), field@) is None,
        },
{
    match base {
        Value::Struct { ty_name: _, fields } => {
            let ghost all = value::fields_model(fields@);
            proof {
                value::lemma_fields_model(fields@);
            }
            let mut i: usize = 0;
            while i < fields.len()
                invariant
                    i <= fields.len(),
                    all.len() == fields.len(),
                    all == value::fields_model(fields@),
                    forall|j: int|
                        0 <= j < fields.len() ==> #[trigger] all[j] == (
                            fields@[j].0@,
                            fields@[j].1.model(),
                        ),
                    text::first_from(0, all.len() as int, field_named(all, field@))
                        == text::first_from(i as int, all.len() as int, field_named(all, field@)),
                    base.model() matches Val::Struct { fields: fs, .. } && fs == all,
                decreases fields.len() - i,
            {
                assert(all[i as int].0 == fields@[i as int].0@);
                if text::str_eq(fields[i].0.as_str(), field) {
                    return Some(&fields[i].1);
                }
                i += 1;
            }
            None
        },
        Value::Tuple(elements) => {
            proof {
                value::lemma_values_model(elements@);
            }
            match numeral::parse_usize(field) {
                Ok(i) => if i < elements.len() {
                    Some(&elements[i])
                } else {
                    None
                },
                Err(_) => None,
            }
        },
        _ => None,
    }
}

/// A variable environment.
pub type Env = Map<Seq<char>, Val>;

/// The model of an environment.
pub open spec fn env_model(m: Map<Seq<char>, Value>) -> Env {
    m.map_values(|v: Value| v.model())
}

pub proof fn lemma_env_remove(m: Map<Seq<char>, Value>, k: Seq<char>)
    ensures
        env_model(m.remove(k)) == env_model(m).remove(k),
{
    assert(env_model(m.remove(k)) =~= env_model(m).remove(k));
}

pub proof fn lemma_env_insert(m: Map<Seq<char>, Value>, k: Seq<char>, v: Value)
    ensures
        env_model(m.insert(k, v)) == env_model(m).insert(k, v.model()),
{
    assert(env_model(m.insert(k, v)) =~= env_model(m).insert(k, v.model()));
}

/// The integer that `ident.field` is in an environment.
pub open spec fn int_access(env: Env, ident: Seq<char>, field: Seq<char>) -> Option<i64> {
    if env.dom().contains(ident) {
        match projected(env[ident], field) {
            Some(v) => value::as_int(v),
            None => None,
        }
    } else {
        None
    }
}

/// A name may begin at `i`: no part of a name or a dot stands before it.
pub open spec fn at_boundary(s: Seq<char>, i: int) -> bool {
    i == 0 || !(chars::ascii_word(s[i - 1]) || s[i - 1] == '.')
}

/// A name begins at `i`.
pub open spec fn name_begins(s: Seq<char>, i: int) -> bool {
    at_boundary(s, i) && (chars::ascii_letter(s[i]) || s[i] == '_')
}

/// `s` from `i` on with each `ident.field` that is an integer of the
/// environment replaced by that integer.
pub open spec fn accesses_resolved(s: Seq<char>, i: int, env: Env) -> Seq<char>
    decreases s.len() - i,
    when 0 <= i
{
    if i >= s.len() {
        Seq::empty()
    } else if name_begins(s, i) {
        let j = word_end(s, i);
        proof {
            lemma_word_end(s, i);
            if j < s.len() {
                lemma_word_end(s, j + 1);
            }
        }
        let ident = s.subrange(i, j);
        let k = word_end(s, j + 1);
        let found = if j < s.len() && s[j] == '.' && k > j + 1 {
            int_access(env, ident, s.subrange(j + 1, k))
        } else {
            None
        };
        match found {
            Some(n) => numeral::int_text(n as int) + accesses_resolved(s, k, env),
            None => ident + accesses_resolved(s, j, env),
        }
    } else {
        seq![s[i]] + accesses_resolved(s, i + 1, env)
    }
}

/// Replace each access `ident.field` to an integer field or element of a bound
/// struct or tuple by that integer. Every other part stays in place.
pub fn resolve_field_accesses(expr: &str, env: &Scope<Value>) -> (r: String)
    ensures
        r@ == accesses_resolved(expr@, 0, env_model(env@)),
{
    let v = text::chars_of(expr);
    let ghost e = env_model(env@);
    let ghost s = expr@;
    let mut out = String::new();
    let mut i: usize = 0;
    while i < v.len()
        invariant
            i <= v.len(),
            v@ == s,
            s == expr@,
            e == env_model(env@),
            out@ + accesses_resolved(s, i as int, e) == accesses_resolved(s, 0, e),
        decreases v.len() - i,
    {
        let ghost done = out@;
        let boundary = i == 0 || !(chars::is_ascii_word(v[i - 1]) || v[i - 1] == '.');
        if boundary && (chars::is_ascii_letter(v[i]) || v[i] == '_') {
            proof {
                lemma_word_end(s, i as int);
            }
            let j = find_word_end(&v, i);
            let ident = text::slice(expr, i, j);
            let mut found: Option<i64> = None;
            let mut k: usize = j;
            if j < v.len() && v[j] == '.' {
                k = find_word_end(&v, j + 1);
                if k > j + 1 {
                    let field = text::slice(expr, j + 1, k);
                    if let Some(base) = env.get(ident) {
                        assert(e[ident@] == base.model());
                        if let Some(part) = project(base, field) {
                            found = part.as_i64();
                        }
                    }
                }
            }
            match found {
                Some(n) => {
                    let shown = numeral::i64_to_string(n);
                    out.append(shown.as_str());
                    assert(done + (shown@ + accesses_resolved(s, k as int, e)) =~= out@
                        + accesses_resolved(s, k as int, e));
                    i = k;
                },
                None => {
                    out.append(ident);
                    assert(done + (ident@ + accesses_resolved(s, j as int, e)) =~= out@
                        + accesses_resolved(s, j as int, e));
                    i = j;
                },
            }
        } else {
            out.push(v[i]);
            assert(done + (seq![s[i as int]] + accesses_resolved(s, i + 1, e)) =~= out@
                + accesses_resolved(s, i + 1, e));
            i += 1;
        }
    }
    assert(out@ + accesses_resolved(s, i as int, e) =~= out@);
    out
}

/// The integers of an environment.
pub open spec fn int_env(env: Env) -> Map<Seq<char>, i64> {
    Map::new(
        |k: Seq<char>| env.dom().contains(k) && value::as_int(env[k]) is Some,
        |k: Seq<char>| value::as_int(env[k])->0,
    )
}

/// The integers of an environment; what is no integer is left out.
pub fn value_env_to_i64_map(env: &Scope<Value>) -> (r: Scope<i64>)
    ensures
        r@ == int_env(env_model(env@)),
{
    let mut out: Scope<i64> = Scope::new();
    let n: usize = env.size();
    let ghost ints = int_env(env_model(env@));
    let mut i: usize = 0;
    while i < n
        invariant
            i <= n == env.entry_count(),
            ints == int_env(env_model(env@)),
            forall|k: Seq<char>| #[trigger]
                out@.dom().contains(k) ==> ints.dom().contains(k) && out@[k] == ints[k],
            forall|j: int|
                0 <= j < i && ints.dom().contains(#[trigger] env.name_at(j)) ==> out@.dom().contains(
                    env.name_at(j),
                ),
        decreases n - i,
    {
        let (name, v) = env.entry(i);
        assert(env_model(env@)[name@] == v.model());
        if let Some(number) = v.as_i64() {
            out.insert(name.to_owned(), number);
        }
        i += 1;
    }
    proof {
        env.lemma_entries_cover();
        assert forall|k: Seq<char>| ints.dom().contains(k) implies out@.dom().contains(k) by {
            assert(env@.dom().contains(k));
            let j = choose|j: int| 0 <= j < env.entry_count() && #[trigger] env.name_at(j) == k;
            assert(ints.dom().contains(env.name_at(j)));
        }
        assert(out@ =~= ints);
    }
    out
}

/// A text without a cast is kept as it is.
pub proof fn law_text_without_cast_is_kept(s: Seq<char>)
    requires
        forall|i: int| 0 <= i < s.len() ==> !(#[trigger] cast_at(s, i)),
    ensures
        casts_dropped(s, 0) == s,
{
    lemma_kept(s, 0);
    assert(s.skip(0) =~= s);
}

proof fn lemma_kept(s: Seq<char>, i: int)
    requires
        0 <= i <= s.len(),
        forall|j: int| 0 <= j < s.len() ==> !(#[trigger] cast_at(s, j)),
    ensures
        casts_dropped(s, i) == s.skip(i),
    decreases s.len() - i,
{
    if i < s.len() {
        assert(!cast_at(s, i));
        lemma_kept(s, i + 1);
        assert(seq![s[i]] + s.skip(i + 1) =~= s.skip(i));
    } else {
        assert(s.skip(i) =~= Seq::empty());
    }
}

/// A cast to a named type changes nothing: the text with the cast comes to the
/// same as the text without it, unless that ends in a bare ` as` and so takes
/// the next word for its type.
pub proof fn law_cast_changes_nothing(s: Seq<char>, ty: Seq<char>)
    requires
        ty.len() > 0,
        forall|i: int| 0 <= i < ty.len() ==> chars::ascii_word(#[trigger] ty[i]),
        !(s.len() >= 3 && s.skip(s.len() - 3) == " as"@),
    ensures
        casts_dropped(s + " as "@ + ty, 0) == casts_dropped(s, 0),
{
    lemma_cast_behind(s, ty, 0);
}

/// A run of letters ends where the text before the cast ends, if not before.
proof fn lemma_word_end_before_cast(s: Seq<char>, ty: Seq<char>, i: int)
    requires
        0 <= i <= s.len(),
    ensures
        word_end(s + " as "@ + ty, i) == word_end(s, i),
    decreases s.len() - i,
{
    reveal_strlit(" as ");
    let all = s + " as "@ + ty;
    if i < s.len() {
        assert(all[i] == s[i]);
        if chars::ascii_word(s[i]) {
            lemma_word_end_before_cast(s, ty, i + 1);
        }
    } else {
        assert(all[i] == ' ');
        assert(not_word_at(all)(i));
    }
}

proof fn lemma_cast_behind(s: Seq<char>, ty: Seq<char>, i: int)
    requires
        0 <= i <= s.len(),
        ty.len() > 0,
        forall|j: int| 0 <= j < ty.len() ==> chars::ascii_word(#[trigger] ty[j]),
        !(s.len() >= 3 && s.skip(s.len() - 3) == " as"@),
    ensures
        casts_dropped(s + " as "@ + ty, i) == casts_dropped(s, i),
    decreases s.len() - i,
{
    reveal_strlit(" as ");
    reveal_strlit(" as");
    let all = s + " as "@ + ty;
    let n = s.len() as int;
    if i == n {
        assert(all.subrange(n, n + 4) =~= " as "@);
        assert(all[n + 4] == ty[0]);
        let end = word_end(all, n + 4);
        text::lemma_first_from(n + 4, all.len() as int, not_word_at(all));
        if end < all.len() {
            assert(not_word_at(all)(end));
            assert(all[end] == ty[end - (n + 4)]);
        }
        assert(casts_dropped(all, end) =~= Seq::empty());
    } else {
        assert(all[i] == s[i]);
        assert(cast_at(all, i) == cast_at(s, i)) by {
            if i + 4 < n {
                assert(all.subrange(i, i + 4) =~= s.subrange(i, i + 4));
                assert(all[i + 4] == s[i + 4]);
            } else {
                let part = all.subrange(i, i + 4);
                assert(all[n] == ' ');
                if i + 4 == n {
                    assert(!chars::ascii_word(all[i + 4]));
                } else if part == " as "@ {
                    assert(part[0] == ' ' && part[1] == 'a' && part[2] == 's');
                    assert(part[n - i] == all[n]);
                    assert(i == n - 3);
                    assert(s[n - 3] == part[0] && s[n - 2] == part[1] && s[n - 1] == part[2]);
                    assert(s.skip(n - 3) =~= " as"@);
                }
            }
        }
        if cast_at(s, i) {
            lemma_word_end(s, i + 4);
            lemma_word_end_before_cast(s, ty, i + 4);
            lemma_cast_behind(s, ty, word_end(s, i + 4));
        } else {
            lemma_cast_behind(s, ty, i + 1);
        }
    }
}

} // verus!
