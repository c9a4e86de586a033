//! Laws of expressions by their form: what a call, a literal or an access that
//! is written out evaluates to.

use vstd::prelude::*;

use crate::brackets;
use crate::calls;
use crate::cells;
use crate::chars;
use crate::flow;
use crate::grammar;
use crate::laws;
use crate::numeral;
use crate::ops::{EventKind, Op, State};
use crate::records;
use crate::rewrite;
use crate::rewrite::Env;
use crate::semantics;
use crate::semantics::{Out, Program};
use crate::syntax;
use crate::text;
use crate::tvm;
use crate::tvm::TvmFault;
use crate::value::Val;

verus! {

/// A text without a cast.
pub open spec fn no_cast(s: Seq<char>) -> bool {
    forall|i: int| 0 <= i < s.len() ==> !(#[trigger] rewrite::cast_at(s, i))
}

/// A call as it is written.
pub open spec fn call_text(name: Seq<char>, args: Seq<Seq<char>>) -> Seq<char> {
    name + "("@ + grammar::list_text(args) + ")"@
}

/// The names of the calls that are not to functions of the program.
pub open spec fn reserved(name: Seq<char>) -> bool {
    ||| name == "now"@ || name == "myBalance"@ || name == "msgSender"@ || name == "myAddress"@
    ||| name == "beginCell"@ || name == "get_data"@ || name == "load_data"@
    ||| name == "set_data"@ || name == "save_data"@
}

/// Trimming keeps the last character, if that is no white space.
proof fn lemma_last_kept(s: Seq<char>)
    requires
        s.len() > 0,
        !text::white(s.last()),
    ensures
        text::trimmed(s).len() > 0,
        text::trimmed(s).last() == s.last(),
    decreases s.len(),
{
    if text::white(s[0]) {
        assert(s.len() > 1);
        assert(s.skip(1).last() == s.last());
        lemma_last_kept(s.skip(1));
        assert(text::ltrim(s) == text::ltrim(s.skip(1)));
    }
}

/// A text that ends with a bracket is no access to a field.
proof fn lemma_no_dot(s: Seq<char>)
    requires
        s.len() > 0,
        text::trimmed(s) == s,
        s.last() == ')' || s.last() == '}',
    ensures
        syntax::dot_shape(s) is None,
{
    let q = brackets::dot_at(s);
    text::lemma_last_below(s.len() as int, q);
    if let Some(pos) = brackets::last_dot(s) {
        assert(q(pos));
        let rest = s.skip(pos + 1);
        assert(pos < s.len() - 1);
        assert(rest.last() == s.last());
        lemma_last_kept(rest);
        let field = text::trimmed(rest);
        if syntax::all_word(field) {
            assert(chars::word(field[field.len() - 1]));
        }
    }
}

/// A text that begins with the letter of a name is no literal of a slice.
proof fn lemma_no_slice(s: Seq<char>)
    requires
        s.len() > 0,
        text::trimmed(s) == s,
        s[0] != '0',
        s[0] != '"',
    ensures
        syntax::slice_shape(s) is None,
{
    reveal_strlit("0x\"");
    reveal_strlit("0X\"");
    reveal_strlit("\"");
    if "0x\""@.is_prefix_of(s) {
        assert(s[0] == s.subrange(0, 3)[0]);
    }
    if "0X\""@.is_prefix_of(s) {
        assert(s[0] == s.subrange(0, 3)[0]);
    }
    if "\""@.is_prefix_of(s) {
        assert(s[0] == s.subrange(0, 1)[0]);
    }
}

/// What a call that is written out is read as, and is not read as.
proof fn lemma_call_text(name: Seq<char>, args: Seq<Seq<char>>)
    requires
        syntax::ascii_name(name),
        forall|k: int| 0 <= k < args.len() ==> grammar::list_item(#[trigger] args[k]),
    ensures
        ({
            let x = call_text(name, args);
            &&& x.len() > 0
            &&& text::trimmed(x) == x
            &&& syntax::call_shape(x) == Some((name, args))
            &&& syntax::slice_shape(x) is None
            &&& syntax::method_shape(x) is None
            &&& syntax::struct_shape(x) is None
            &&& syntax::tuple_shape(x) is None
            &&& syntax::dot_shape(x) is None
            &&& !syntax::identifier(x)
        }),
{
    reveal_strlit("(");
    reveal_strlit(")");
    let inner = grammar::list_text(args);
    let x = call_text(name, args);
    let n = name.len() as int;
    assert(chars::ascii_word(name[0]));
    assert(chars::ascii_word(name[n - 1]));
    assert(x[0] == name[0]);
    assert(x.last() == ')');
    assert(x[n] == '(');
    text::lemma_trimmed_already(x);
    grammar::law_call_is_read_back(name, args);
    lemma_no_slice(x);
    lemma_no_dot(x);
    grammar::lemma_opener_of_list(name, args);
    assert(x.take(n) =~= name);
    text::lemma_trimmed_already(name);
    let q = text::is_at(name, '.');
    text::lemma_last_below(n, q);
    assert forall|j: int| 0 <= j < n implies !#[trigger] q(j) by {
        assert(chars::ascii_word(name[j]));
    }
    text::lemma_first_from(0, x.len() as int, text::is_at(x, '{'));
    if syntax::identifier(x) {
        syntax::lemma_name_is_plain(x);
        assert(chars::ascii_word(x[n]));
    }
}

/// A call of a function of the program evaluates the arguments from left to
/// right, calls the last function of the name with exactly their values, in
/// order, and has the value that the function returns.
pub proof fn law_call_passes_its_arguments(
    p: Program,
    depth: nat,
    st: State,
    env: Env,
    name: Seq<char>,
    args: Seq<Seq<char>>,
    vals: Seq<Val>,
    to: (State, Env),
    i: int,
)
    requires
        depth > 0,
        syntax::ascii_name(name),
        !reserved(name),
        forall|k: int| 0 <= k < args.len() ==> grammar::list_item(#[trigger] args[k]),
        no_cast(call_text(name, args)),
        calls::evaluate_to(p, (depth - 1) as nat, (st, env), args, calls::present(vals), to),
        calls::defined(p.funcs, i, name),
    ensures
        semantics::eval_value(p, depth, st, env, call_text(name, args))
            == match semantics::call_function(
            p,
            (depth - 1) as nat,
            to.0,
            p.funcs[i],
            false,
            vals,
        ) {
            None => None,
            Some((end, result)) => Some((end, to.1, result)),
        },
{
    let x = call_text(name, args);
    let d = (depth - 1) as nat;
    lemma_call_text(name, args);
    rewrite::law_text_without_cast_is_kept(x);
    calls::lemma_defined(p.funcs, i, name);
    calls::law_list_has_its_values(p, d, (st, env), args, vals, to, calls::present(vals));
    assert(semantics::context_value(name) is None);
    assert(semantics::ton_call(p, d, st, env, x) == Some((st, env, None::<Val>)));
    assert(semantics::eval_literal(p, d, st, env, x) == semantics::eval_access(p, d, st, env, x));
    assert(semantics::eval_access(p, d, st, env, x) == semantics::eval_call(p, d, st, env, x));
}

/// A struct literal is the struct of its name, with its fields in order, each
/// with the value of its expression.
pub proof fn law_struct_literal_has_its_fields(
    p: Program,
    depth: nat,
    st: State,
    env: Env,
    name: Seq<char>,
    fields: Seq<(Seq<char>, Seq<char>)>,
    vals: Seq<Val>,
    to: (State, Env),
)
    requires
        depth > 0,
        grammar::plain_name(name),
        chars::capital(name[0]),
        forall|k: int|
            0 <= k < fields.len() ==> grammar::plain_name((#[trigger] fields[k]).0)
                && grammar::list_item(fields[k].1),
        no_cast(name + " {"@ + grammar::list_text(grammar::field_texts(fields)) + "}"@),
        calls::evaluate_to(
            p,
            (depth - 1) as nat,
            (st, env),
            calls::field_exprs(fields),
            calls::present(vals),
            to,
        ),
    ensures
        semantics::eval_value(
            p,
            depth,
            st,
            env,
            name + " {"@ + grammar::list_text(grammar::field_texts(fields)) + "}"@,
        ) == Some(
            (
                to.0,
                to.1,
                Some(Val::Struct { ty_name: name, fields: calls::with_values(fields, vals) }),
            ),
        ),
{
    reveal_strlit(" {");
    reveal_strlit("}");
    let x = name + " {"@ + grammar::list_text(grammar::field_texts(fields)) + "}"@;
    let d = (depth - 1) as nat;
    syntax::lemma_name_is_plain(name);
    syntax::lemma_word_start(name);
    text::lemma_trimmed_ends(name);
    assert(x[0] == name[0]);
    assert(x.last() == '}');
    text::lemma_trimmed_already(x);
    grammar::law_struct_literal_is_read_back(name, fields);
    lemma_no_slice(x);
    rewrite::law_text_without_cast_is_kept(x);
    assert(syntax::call_shape(x) is None);
    assert(syntax::method_shape(x) is None);
    assert(semantics::ton_call(p, d, st, env, x) == Some((st, env, None::<Val>)));
    assert(calls::field_exprs(fields).skip(0) =~= calls::field_exprs(fields));
    assert(fields.skip(0) =~= fields);
    calls::lemma_fields(p, d, (st, env), fields, 0, vals, to, Seq::empty());
    let all = calls::with_values(fields, vals);
    assert(Seq::<(Seq<char>, Val)>::empty() + all =~= all);
}

/// A tuple literal is the tuple of the values of its elements, in order.
pub proof fn law_tuple_literal_has_its_elements(
    p: Program,
    depth: nat,
    st: State,
    env: Env,
    items: Seq<Seq<char>>,
    vals: Seq<Val>,
    to: (State, Env),
)
    requires
        depth > 0,
        items.len() >= 2,
        forall|k: int| 0 <= k < items.len() ==> grammar::list_item(#[trigger] items[k]),
        no_cast("("@ + grammar::list_text(items) + ")"@),
        calls::evaluate_to(p, (depth - 1) as nat, (st, env), items, calls::present(vals), to),
    ensures
        semantics::eval_value(p, depth, st, env, "("@ + grammar::list_text(items) + ")"@) == Some(
            (to.0, to.1, Some(Val::Tuple(vals))),
        ),
{
    reveal_strlit("(");
    reveal_strlit(")");
    let x = "("@ + grammar::list_text(items) + ")"@;
    let d = (depth - 1) as nat;
    assert(x[0] == '(');
    assert(x.last() == ')');
    text::lemma_trimmed_already(x);
    grammar::law_tuple_is_read_back(items);
    lemma_no_slice(x);
    rewrite::law_text_without_cast_is_kept(x);
    let none = Seq::<char>::empty();
    grammar::lemma_opener_of_list(none, items);
    assert(none + "("@ + grammar::list_text(items) + ")"@ =~= x);
    assert(x.take(0) =~= none);
    text::lemma_trimmed_already(none);
    assert(syntax::call_shape(x) is None);
    assert(syntax::method_shape(x) is None);
    text::lemma_first_from(0, x.len() as int, text::is_at(x, '{'));
    assert(syntax::struct_shape(x) is None);
    assert(semantics::ton_call(p, d, st, env, x) == Some((st, env, None::<Val>)));
    calls::law_list_has_its_values(p, d, (st, env), items, vals, to, calls::present(vals));
}

proof fn lemma_context(p: Program, depth: nat, st: State, env: Env, name: Seq<char>)
    requires
        syntax::ascii_name(name),
        semantics::context_value(name) is Some,
    ensures
        semantics::ton_call(p, depth, st, env, call_text(name, Seq::empty())) == Some(
            (st, env, semantics::context_value(name)),
        ),
{
    lemma_call_text(name, Seq::empty());
}

proof fn lemma_context_values()
    ensures
        semantics::context_value("now"@) == Some(Val::Int(1_700_000_000)),
        semantics::context_value("myBalance"@) == Some(Val::Coin(2_000_000_000)),
        semantics::context_value("msgSender"@) == Some(Val::Address { workchain: 0, hash: 51966 }),
        semantics::context_value("myAddress"@) == Some(Val::Address { workchain: 0, hash: 48879 }),
        semantics::context_value("beginCell"@) == Some(
            Val::Builder { payload: Seq::empty(), refs: Seq::empty() },
        ),
        syntax::ascii_name("now"@),
        syntax::ascii_name("myBalance"@),
        syntax::ascii_name("msgSender"@),
        syntax::ascii_name("myAddress"@),
        syntax::ascii_name("beginCell"@),
{
    reveal_strlit("now");
    reveal_strlit("myBalance");
    reveal_strlit("msgSender");
    reveal_strlit("myAddress");
    reveal_strlit("beginCell");
    assert("myBalance"@[2] != "msgSender"@[2]);
    assert("myBalance"@[2] != "myAddress"@[2]);
    assert("myBalance"@[0] != "beginCell"@[0]);
    assert("msgSender"@[1] != "myAddress"@[1]);
    assert("msgSender"@[0] != "beginCell"@[0]);
    assert("myAddress"@[0] != "beginCell"@[0]);
    assert("now"@.len() == 3);
}

/// The calls that read the context have fixed values and record nothing.
pub proof fn law_context_calls(p: Program, depth: nat, st: State, env: Env)
    ensures
        ({
            let none = Seq::<Seq<char>>::empty();
            let got = |name: Seq<char>| semantics::ton_call(p, depth, st, env, call_text(name, none));
            let is = |v: Val| Some((st, env, Some(v)));
            let no_refs = Seq::<Seq<i64>>::empty();
            &&& got("now"@) == is(Val::Int(1_700_000_000))
            &&& got("myBalance"@) == is(Val::Coin(2_000_000_000))
            &&& got("msgSender"@) == is(Val::Address { workchain: 0, hash: 51966 })
            &&& got("myAddress"@) == is(Val::Address { workchain: 0, hash: 48879 })
            &&& got("beginCell"@) == is(Val::Builder { payload: Seq::empty(), refs: no_refs })
        }),
{
    lemma_context_values();
    lemma_context(p, depth, st, env, "now"@);
    lemma_context(p, depth, st, env, "myBalance"@);
    lemma_context(p, depth, st, env, "msgSender"@);
    lemma_context(p, depth, st, env, "myAddress"@);
    lemma_context(p, depth, st, env, "beginCell"@);
}

/// What the event of a store shows of a value.
pub open spec fn stored_text(v: Val) -> Seq<char> {
    match v {
        Val::Cell { payload, refs } => records::contents_text("Cell"@, payload, refs),
        Val::Builder { payload, refs } => records::contents_text("Builder"@, payload, refs),
        _ => "<non-cell>"@,
    }
}

/// `set_data` and `save_data` store the value of their argument and record it
/// as the last operation, as a write.
pub proof fn law_storing_calls(
    p: Program,
    depth: nat,
    st: State,
    env: Env,
    arg: Seq<char>,
    mid: State,
    vars: Env,
    v: Val,
    saves: bool,
)
    requires
        grammar::list_item(arg),
        semantics::eval_value(p, depth, st, env, arg) == Some((mid, vars, Some(v))),
    ensures
        ({
            let name = if saves {
                "save_data"@
            } else {
                "set_data"@
            };
            let event = Op::Event {
                channel: EventKind::Write,
                metadata: "TolkStorage"@,
                content: name + ": "@ + stored_text(v),
            };
            semantics::ton_call(p, depth, st, env, call_text(name, seq![arg])) == Some(
                (
                    State { storage: Some(v), ..flow::recorded(mid, event) },
                    vars,
                    Some(Val::Cell { payload: Seq::empty(), refs: Seq::empty() }),
                ),
            )
        }),
{
    reveal_strlit("set_data");
    reveal_strlit("save_data");
    let name = if saves {
        "save_data"@
    } else {
        "set_data"@
    };
    let args = seq![arg];
    lemma_call_text(name, args);
    match v {
        Val::Cell { payload, refs } => {
            records::law_contents_are_shown("Cell"@, payload, refs);
        },
        Val::Builder { payload, refs } => {
            records::law_contents_are_shown("Builder"@, payload, refs);
        },
        _ => {},
    }
    assert(semantics::ton_call(p, depth, st, env, call_text(name, args)) == semantics::store_data(
        p,
        depth,
        st,
        env,
        name,
        args[0],
    ));
}

/// `get_data` and `load_data` give a cell of what was last stored, empty before
/// that and if it was no cell, and record it as the last operation, as a read.
pub proof fn law_loading_calls(p: Program, depth: nat, st: State, env: Env, loads: bool)
    ensures
        ({
            let name = if loads {
                "load_data"@
            } else {
                "get_data"@
            };
            let cell = match st.storage {
                Some(Val::Cell { payload, refs }) => Val::Cell { payload, refs },
                Some(Val::Builder { payload, refs }) => Val::Cell { payload, refs },
                _ => Val::Cell { payload: Seq::empty(), refs: Seq::empty() },
            };
            let event = Op::Event {
                channel: EventKind::Read,
                metadata: "TolkStorage"@,
                content: name + ": "@ + stored_text(cell),
            };
            semantics::ton_call(p, depth, st, env, call_text(name, Seq::empty())) == Some(
                (flow::recorded(st, event), env, Some(cell)),
            )
        }),
{
    reveal_strlit("get_data");
    reveal_strlit("load_data");
    reveal_strlit("now");
    reveal_strlit("myBalance");
    reveal_strlit("msgSender");
    reveal_strlit("myAddress");
    reveal_strlit("beginCell");
    let name = if loads {
        "load_data"@
    } else {
        "get_data"@
    };
    lemma_call_text(name, Seq::empty());
    assert("load_data"@[0] == 'l');
    assert("myBalance"@[0] == 'm');
    assert("msgSender"@[0] == 'm');
    assert("myAddress"@[0] == 'm');
    assert("beginCell"@[0] == 'b');
    assert("now"@.len() == 3);
    assert(semantics::context_value(name) is None);
    let (payload, refs) = semantics::stored_contents(st.storage);
    records::law_contents_are_shown("Cell"@, payload, refs);
}

/// The part of a value that a field selects: of a struct the first field of the
/// name, of a tuple the element of the number.
pub proof fn law_field_is_selected(
    ty_name: Seq<char>,
    fields: Seq<(Seq<char>, Val)>,
    field: Seq<char>,
    i: int,
    elements: Seq<Val>,
    k: nat,
)
    requires
        0 <= i <= fields.len(),
        forall|j: int| 0 <= j < i ==> (#[trigger] fields[j]).0 != field,
        i < fields.len() ==> fields[i].0 == field,
        k <= usize::MAX,
    ensures
        rewrite::projected(Val::Struct { ty_name, fields }, field) == if i < fields.len() {
            Some(fields[i].1)
        } else {
            None
        },
        rewrite::projected(Val::Tuple(elements), numeral::int_text(k as int)) == if k
            < elements.len() {
            Some(elements[k as int])
        } else {
            None
        },
{
    let q = rewrite::field_named(fields, field);
    text::lemma_first_from(0, fields.len() as int, q);
    if i < fields.len() {
        assert(q(i));
    }
    if let Some(j) = text::first_from(0, fields.len() as int, q) {
        assert(q(j));
        assert(fields[j].0 == field);
    }
    numeral::law_decimal_round_trip(k as int, 0, usize::MAX as int);
}

/// A field or an element of a variable that holds a struct or a tuple is the
/// part that the field selects, and its evaluation records nothing.
pub proof fn law_access_to_a_variable(
    p: Program,
    depth: nat,
    st: State,
    env: Env,
    name: Seq<char>,
    field: Seq<char>,
    v: Val,
)
    requires
        depth > 1,
        grammar::plain_name(name),
        field.len() > 0,
        forall|i: int| 0 <= i < field.len() ==> chars::ascii_word(#[trigger] field[i]),
        env.dom().contains(name),
        rewrite::projected(env[name], field) == Some(v),
    ensures
        semantics::eval_value(p, depth, st, env, name + "."@ + field) == Some((st, env, Some(v))),
{
    reveal_strlit(".");
    let x = name + "."@ + field;
    let d = (depth - 1) as nat;
    let n = name.len() as int;
    syntax::lemma_name_is_plain(name);
    syntax::lemma_word_start(name);
    text::lemma_trimmed_ends(name);
    assert(x[0] == name[0]);
    assert(chars::ascii_word(field[field.len() - 1]));
    assert(x.last() == field[field.len() - 1]);
    assert(x[n] == '.');
    text::lemma_trimmed_already(x);
    lemma_no_slice(x);
    lemma_access_shape(name, field);
    assert forall|i: int| 0 <= i < x.len() implies !(#[trigger] rewrite::cast_at(x, i)) by {
        reveal_strlit(" as ");
        if rewrite::cast_at(x, i) {
            assert(x.subrange(i, i + 4)[0] == x[i]);
            assert(x[i] == ' ');
            if i < n {
                assert(x[i] == name[i]);
            } else if i > n {
                assert(x[i] == field[i - n - 1]);
            }
        }
    }
    rewrite::law_text_without_cast_is_kept(x);
    laws::law_variable_has_its_value(p, d, st, env, name);
    assert(semantics::ton_call(p, d, st, env, x) == Some((st, env, None::<Val>)));
    assert(semantics::eval_literal(p, d, st, env, x) == semantics::eval_access(p, d, st, env, x));
}

/// What an access that is written out is read as, and is not read as.
#[verifier::spinoff_prover]
#[verifier::rlimit(40)]
proof fn lemma_access_shape(name: Seq<char>, field: Seq<char>)
    requires
        grammar::plain_name(name),
        field.len() > 0,
        forall|i: int| 0 <= i < field.len() ==> chars::ascii_word(#[trigger] field[i]),
    ensures
        ({
            let x = name + "."@ + field;
            &&& syntax::dot_shape(x) == Some((name, field))
            &&& syntax::call_shape(x) is None
            &&& syntax::method_shape(x) is None
            &&& syntax::struct_shape(x) is None
            &&& syntax::tuple_shape(x) is None
            &&& !syntax::identifier(x)
        }),
{
    reveal_strlit(".");
    let x = name + "."@ + field;
    let n = name.len() as int;
    syntax::lemma_name_is_plain(name);
    syntax::lemma_word_start(name);
    text::lemma_trimmed_ends(name);
    assert(chars::ascii_word(field[0]));
    assert(chars::ascii_word(field[field.len() - 1]));
    assert(x[0] == name[0]);
    assert(x.last() == field[field.len() - 1]);
    assert(x[n] == '.');
    text::lemma_trimmed_already(x);
    text::lemma_trimmed_already(field);
    laws::lemma_name_depth(name);
    assert(x.take(n) =~= name);
    assert(x.skip(n + 1) =~= field);
    let q = brackets::dot_at(x);
    text::lemma_last_below(x.len() as int, q);
    assert(q(n));
    assert forall|j: int| n < j < x.len() implies !#[trigger] q(j) by {
        assert(x[j] == field[j - n - 1]);
    }
    let r = brackets::dot_at(name);
    text::lemma_last_below(n, r);
    assert forall|j: int| 0 <= j < n implies !#[trigger] r(j) by {
        assert(chars::ascii(name[j]) ==> chars::ascii_word(name[j]));
    }
    assert(syntax::all_word(field)) by {
        assert forall|j: int| 0 <= j < field.len() implies chars::word(#[trigger] field[j]) by {
            assert(chars::ascii_word(field[j]));
            syntax::lemma_ascii_is_word(field[j]);
        }
    }
    let a = syntax::sign_at(name);
    text::lemma_first_from(0, n, a);
    assert forall|j: int| 0 <= j < n implies !#[trigger] a(j) by {
        assert(chars::ascii(name[j]) ==> chars::ascii_word(name[j]));
    }
    assert(!chars::ascii_digit(name[0]));
    if syntax::identifier(x) {
        syntax::lemma_name_is_plain(x);
        assert(chars::ascii_word(x[n]));
    }
    text::lemma_first_from(0, x.len() as int, text::is_at(x, '{'));
}

proof fn lemma_fallback(p: Program, depth: nat, st: State, env: Env, x: Seq<char>)
    requires
        depth > 0,
        x.len() > 0,
        text::trimmed(x) == x,
        no_cast(x),
        syntax::slice_shape(x) is None,
        syntax::call_shape(x) is None,
        syntax::method_shape(x) is None,
        syntax::struct_shape(x) is None,
        syntax::tuple_shape(x) is None,
        syntax::dot_shape(x) is None,
        !syntax::identifier(x),
    ensures
        semantics::eval_value(p, depth, st, env, x) == semantics::eval_fallback(
            p,
            (depth - 1) as nat,
            st,
            env,
            x,
        ),
{
    let d = (depth - 1) as nat;
    rewrite::law_text_without_cast_is_kept(x);
    assert(semantics::ton_call(p, d, st, env, x) == Some((st, env, None::<Val>)));
    assert(semantics::eval_literal(p, d, st, env, x) == semantics::eval_access(p, d, st, env, x));
    assert(semantics::eval_access(p, d, st, env, x) == semantics::eval_call(p, d, st, env, x));
    assert(semantics::eval_call(p, d, st, env, x) == semantics::eval_fallback(p, d, st, env, x));
}

proof fn lemma_known(env: Env, known: Map<Seq<char>, i64>)
    requires
        integers_of(env, known),
    ensures
        rewrite::int_env(env) == known,
{
    let ints = rewrite::int_env(env);
    assert forall|name: Seq<char>| #[trigger] ints.dom().contains(name) == known.dom().contains(
        name,
    ) && (ints.dom().contains(name) ==> ints[name] == known[name]) by {
        assert(known.dom().contains(name) <==> env.dom().contains(name) && (env[name] is Int
            || env[name] is Coin));
    }
    assert(ints =~= known);
}

/// The integers and coins among the variables.
pub open spec fn integers_of(env: Env, known: Map<Seq<char>, i64>) -> bool {
    forall|name: Seq<char>|
        {
            &&& #[trigger] known.dom().contains(name) <==> env.dom().contains(name) && (env[name]
                is Int || env[name] is Coin)
            &&& known.dom().contains(name) ==> env[name] == Val::Int(known[name]) || env[name]
                == Val::Coin(known[name])
        }
}

/// What an evaluation leaves when the virtual machine has answered so: a value
/// or none, and a run that failed is recorded as an error.
pub open spec fn from_the_machine(
    st: State,
    env: Env,
    answer: Result<Option<int>, TvmFault>,
) -> Out<Option<Val>> {
    match answer {
        Ok(Some(n)) => Some((st, env, Some(Val::Int(n as i64)))),
        Ok(None) => Some((st, env, None)),
        Err(fault) => Some(
            (
                flow::recorded(
                    st,
                    Op::Event {
                        channel: EventKind::Error,
                        metadata: "tvm_exception"@,
                        content: tvm::fault_text(fault),
                    },
                ),
                env,
                None,
            ),
        ),
    }
}

/// A text of none of the other forms is an integer expression: its value is
/// what the virtual machine makes of it with the integers among the variables,
/// where each access to an integer field is that integer; and a run that failed
/// is recorded as an error and has no value.
pub proof fn law_integer_expression_runs_on_the_machine(
    p: Program,
    depth: nat,
    st: State,
    env: Env,
    x: Seq<char>,
    known: Map<Seq<char>, i64>,
)
    requires
        depth > 0,
        x.len() > 0,
        text::trimmed(x) == x,
        no_cast(x),
        syntax::slice_shape(x) is None,
        syntax::call_shape(x) is None,
        syntax::method_shape(x) is None,
        syntax::struct_shape(x) is None,
        syntax::tuple_shape(x) is None,
        syntax::dot_shape(x) is None,
        !syntax::identifier(x),
        syntax::call_shape(rewrite::accesses_resolved(x, 0, env)) is None,
        integers_of(env, known),
    ensures
        semantics::eval_value(p, depth, st, env, x) == from_the_machine(
            st,
            env,
            tvm::checked_value(rewrite::accesses_resolved(x, 0, env), known),
        ),
{
    let d = (depth - 1) as nat;
    lemma_fallback(p, depth, st, env, x);
    lemma_known(env, known);
    rewrite::law_text_without_cast_is_kept(x);
    let (st1, n) = semantics::machine_value(
        st,
        env,
        rewrite::accesses_resolved(x, 0, env),
    );
    assert(semantics::eval_int(p, d, st, env, x) == Some((st1, env, n)));
}

/// An access to a part that the value of the variable does not have is an
/// integer expression like any other text.
pub proof fn law_access_to_no_part(
    p: Program,
    depth: nat,
    st: State,
    env: Env,
    name: Seq<char>,
    field: Seq<char>,
    known: Map<Seq<char>, i64>,
)
    requires
        depth > 1,
        grammar::plain_name(name),
        field.len() > 0,
        forall|i: int| 0 <= i < field.len() ==> chars::ascii_word(#[trigger] field[i]),
        env.dom().contains(name),
        rewrite::projected(env[name], field) is None,
        syntax::call_shape(rewrite::accesses_resolved(name + "."@ + field, 0, env)) is None,
        no_cast(name + "."@ + field),
        integers_of(env, known),
    ensures
        semantics::eval_value(p, depth, st, env, name + "."@ + field) == from_the_machine(
            st,
            env,
            tvm::checked_value(
                rewrite::accesses_resolved(name + "."@ + field, 0, env),
                known,
            ),
        ),
{
    reveal_strlit(".");
    let x = name + "."@ + field;
    let d = (depth - 1) as nat;
    syntax::lemma_name_is_plain(name);
    syntax::lemma_word_start(name);
    text::lemma_trimmed_ends(name);
    assert(x[0] == name[0]);
    assert(chars::ascii_word(field[field.len() - 1]));
    assert(x.last() == field[field.len() - 1]);
    text::lemma_trimmed_already(x);
    lemma_no_slice(x);
    lemma_access_shape(name, field);
    rewrite::law_text_without_cast_is_kept(x);
    laws::law_variable_has_its_value(p, d, st, env, name);
    lemma_known(env, known);
    assert(semantics::ton_call(p, d, st, env, x) == Some((st, env, None::<Val>)));
    assert(semantics::eval_literal(p, d, st, env, x) == semantics::eval_access(p, d, st, env, x));
    assert(semantics::eval_access(p, d, st, env, x) == semantics::eval_call(p, d, st, env, x));
    assert(semantics::eval_call(p, d, st, env, x) == semantics::eval_fallback(p, d, st, env, x));
    let (st1, n) = semantics::machine_value(st, env, rewrite::accesses_resolved(x, 0, env));
    assert(semantics::eval_int(p, d, st, env, x) == Some((st1, env, n)));
}

/// A call with an argument that has no value is not made: it is tried as an
/// integer expression, where the evaluation of the arguments ended.
pub proof fn law_call_without_an_argument_is_not_made(
    p: Program,
    depth: nat,
    st: State,
    env: Env,
    name: Seq<char>,
    args: Seq<Seq<char>>,
    mid: State,
    vars: Env,
    i: int,
)
    requires
        depth > 0,
        syntax::ascii_name(name),
        !reserved(name),
        forall|k: int| 0 <= k < args.len() ==> grammar::list_item(#[trigger] args[k]),
        no_cast(call_text(name, args)),
        semantics::eval_list(p, (depth - 1) as nat, st, env, args, 0, Seq::empty()) == Some(
            (mid, vars, None::<Seq<Val>>),
        ),
        calls::defined(p.funcs, i, name),
    ensures
        semantics::eval_value(p, depth, st, env, call_text(name, args)) == match semantics::eval_int(
            p,
            (depth - 1) as nat,
            mid,
            vars,
            call_text(name, args),
        ) {
            None => None,
            Some((end, e, Some(n))) => Some((end, e, Some(Val::Int(n)))),
            Some((end, e, None)) => Some((end, e, None)),
        },
{
    let x = call_text(name, args);
    let d = (depth - 1) as nat;
    lemma_call_text(name, args);
    rewrite::law_text_without_cast_is_kept(x);
    calls::lemma_defined(p.funcs, i, name);
    assert(semantics::context_value(name) is None);
    assert(semantics::ton_call(p, d, st, env, x) == Some((st, env, None::<Val>)));
    assert(semantics::eval_literal(p, d, st, env, x) == semantics::eval_access(p, d, st, env, x));
    assert(semantics::eval_access(p, d, st, env, x) == semantics::eval_call(p, d, st, env, x));
}

/// A store of what has no value stores nothing and records nothing, and has the
/// empty cell for its value like any other.
pub proof fn law_storing_no_value(
    p: Program,
    depth: nat,
    st: State,
    env: Env,
    arg: Seq<char>,
    mid: State,
    vars: Env,
    saves: bool,
)
    requires
        grammar::list_item(arg),
        semantics::eval_value(p, depth, st, env, arg) == Some((mid, vars, None::<Val>)),
    ensures
        ({
            let name = if saves {
                "save_data"@
            } else {
                "set_data"@
            };
            semantics::ton_call(p, depth, st, env, call_text(name, seq![arg])) == Some(
                (mid, vars, Some(Val::Cell { payload: Seq::empty(), refs: Seq::empty() })),
            )
        }),
{
    reveal_strlit("set_data");
    reveal_strlit("save_data");
    let name = if saves {
        "save_data"@
    } else {
        "set_data"@
    };
    let args = seq![arg];
    lemma_call_text(name, args);
    assert(semantics::ton_call(p, depth, st, env, call_text(name, args)) == semantics::store_data(
        p,
        depth,
        st,
        env,
        name,
        args[0],
    ));
}

/// A blank expression has no value, and its evaluation changes nothing.
pub proof fn law_blank_expression_has_no_value(p: Program, depth: nat, st: State, env: Env)
    requires
        depth > 0,
    ensures
        semantics::eval_value(p, depth, st, env, Seq::empty()) == Some((st, env, None::<Val>)),
{
    let e = Seq::<char>::empty();
    rewrite::law_text_without_cast_is_kept(e);
    text::lemma_trimmed_already(e);
}

/// A method of cells changes no variable where the receiver is not one but a
/// call or an expression in parentheses.
pub proof fn law_method_of_a_call_changes_no_variable(
    p: Program,
    depth: nat,
    st: State,
    env: Env,
    lhs: Seq<char>,
    method: Seq<char>,
    args: Seq<Seq<char>>,
    values: Seq<Option<Val>>,
    base: Val,
)
    requires
        lhs.len() > 0,
        text::trimmed(lhs) == lhs,
        lhs.last() == ')',
        cells::method_outcome(method, base, semantics::first_value(values)) is Done,
    ensures
        semantics::on_receiver(p, depth, st, env, lhs, method, args, values, base) == Some(
            (
                st,
                env,
                Some(cells::method_outcome(method, base, semantics::first_value(values))->result),
            ),
        ),
{
    let n = lhs.len() - 1;
    if syntax::identifier(lhs) {
        if n > 0 {
            assert(lhs.skip(1)[n - 1] == ')');
        }
        assert(chars::word(lhs[n]) || chars::word_start(lhs[n]));
    }
}

} // verus!
