//! Well-formed traces: types are registered before they are named and never
//! twice, and calls and returns nest.

use vstd::prelude::*;

use crate::ops;
use crate::ops::{Op, Rec, State, TypeKind};
use crate::text;
use crate::value::Val;

verus! {

/// The names of the types that some operations register, in order.
pub open spec fn type_names(ops: Seq<Op>) -> Seq<Seq<char>>
    decreases ops.len(),
{
    if ops.len() == 0 {
        Seq::empty()
    } else {
        let done = type_names(ops.drop_last());
        match ops.last() {
            Op::Type { name, .. } => done.push(name),
            _ => done,
        }
    }
}

/// How an operation changes the number of open calls.
pub open spec fn call_change(op: Op) -> int {
    match op {
        Op::Call => 1,
        Op::Return { .. } => -1,
        _ => 0,
    }
}

/// The number of calls that some operations leave open.
pub open spec fn open_calls(ops: Seq<Op>) -> int
    decreases ops.len(),
{
    if ops.len() == 0 {
        0
    } else {
        open_calls(ops.drop_last()) + call_change(ops.last())
    }
}

/// All type numbers of some records are among the first `n`.
pub open spec fn all_ids_below(s: Seq<Rec>, n: int) -> bool
    decreases s,
{
    s.len() == 0 || (all_ids_below(s.drop_last(), n) && ids_below(s.last(), n))
}

/// All type numbers of a record are among the first `n`.
pub open spec fn ids_below(r: Rec, n: int) -> bool
    decreases r,
{
    match r {
        Rec::Int { type_id, .. } => 0 <= type_id < n,
        Rec::Tuple { elements, type_id } => 0 <= type_id < n && all_ids_below(elements, n),
        Rec::Struct { field_values, type_id } => 0 <= type_id < n && all_ids_below(
            field_values,
            n,
        ),
        Rec::Variant { contents, type_id, .. } => 0 <= type_id < n && ids_below(*contents, n),
        Rec::Raw { type_id, .. } => 0 <= type_id < n,
        Rec::Nothing => true,
    }
}

/// All type numbers of an operation are among the first `n`.
pub open spec fn op_ids_below(op: Op, n: int) -> bool {
    match op {
        Op::Variable { value, .. } => ids_below(value, n),
        Op::Arg { value, .. } => ids_below(value, n),
        Op::Return { value } => ids_below(value, n),
        _ => true,
    }
}

/// Every operation names only types registered before it.
pub open spec fn ids_declared(ops: Seq<Op>) -> bool
    decreases ops.len(),
{
    ops.len() == 0 || (ids_declared(ops.drop_last()) && op_ids_below(
        ops.last(),
        type_names(ops.drop_last()).len() as int,
    ))
}

/// The state of a recording whose operations so far are well formed: it knows
/// the types that they registered, none of them twice and at least one, and
/// they name no others.
pub open spec fn sound(st: State) -> bool {
    &&& type_names(st.ops) == st.types
    &&& st.types.no_duplicates()
    &&& st.types.len() > 0
    &&& ids_declared(st.ops)
}

/// `a` is a beginning of `b`.
pub open spec fn begins<T>(a: Seq<T>, b: Seq<T>) -> bool {
    a.len() <= b.len() && b.take(a.len() as int) == a
}

/// The recording went from `a` to `b`: nothing recorded was changed, what is
/// well formed stayed so, and at no time in between were fewer than `low` calls
/// open.
pub open spec fn reaches(a: State, b: State, low: int) -> bool {
    &&& begins(a.ops, b.ops)
    &&& begins(a.types, b.types)
    &&& sound(a) ==> sound(b)
    &&& forall|k: int|
        a.ops.len() <= k <= b.ops.len() ==> open_calls(#[trigger] b.ops.take(k)) >= low
}

/// The recording went from `a` to `b`, and all calls opened in between are
/// closed, and no others.
#[verifier::opaque]
pub open spec fn steady(a: State, b: State) -> bool {
    reaches(a, b, open_calls(a.ops)) && open_calls(b.ops) == open_calls(a.ops)
}

pub proof fn lemma_reaches_trans(a: State, b: State, c: State, low: int)
    requires
        reaches(a, b, low),
        reaches(b, c, low),
    ensures
        reaches(a, c, low),
{
    assert(c.ops.take(a.ops.len() as int) =~= b.ops.take(a.ops.len() as int));
    assert(c.types.take(a.types.len() as int) =~= b.types.take(a.types.len() as int));
    assert forall|k: int| a.ops.len() <= k <= c.ops.len() implies open_calls(
        #[trigger] c.ops.take(k),
    ) >= low by {
        if k <= b.ops.len() {
            assert(c.ops.take(k) =~= b.ops.take(k));
        }
    }
}

/// One operation that registers no type.
pub proof fn lemma_reaches_emit(st: State, op: Op, low: int)
    requires
        !(op is Type),
        sound(st) ==> op_ids_below(op, st.types.len() as int),
        open_calls(st.ops) >= low,
        open_calls(st.ops) + call_change(op) >= low,
    ensures
        reaches(st, ops::emitted(st, op), low),
        open_calls(ops::emitted(st, op).ops) == open_calls(st.ops) + call_change(op),
{
    let next = ops::emitted(st, op);
    assert(next.ops.drop_last() =~= st.ops);
    assert(next.ops.take(st.ops.len() as int) =~= st.ops);
    assert(next.types.take(st.types.len() as int) =~= st.types);
    assert forall|k: int| st.ops.len() <= k <= next.ops.len() implies open_calls(
        #[trigger] next.ops.take(k),
    ) >= low by {
        if k < next.ops.len() {
            assert(next.ops.take(k) =~= st.ops);
        } else {
            assert(next.ops.take(k) =~= next.ops);
        }
    }
}

pub proof fn lemma_steady_refl(st: State)
    ensures
        steady(st, st),
{
    reveal(steady);
    assert(st.ops.take(st.ops.len() as int) =~= st.ops);
    assert(st.types.take(st.types.len() as int) =~= st.types);
    assert forall|k: int| st.ops.len() <= k <= st.ops.len() implies open_calls(
        #[trigger] st.ops.take(k),
    ) >= open_calls(st.ops) by {
        assert(st.ops.take(k) =~= st.ops);
    }
}

pub broadcast proof fn lemma_steady_trans(a: State, b: State, c: State)
    requires
        #[trigger] steady(a, b),
        #[trigger] steady(b, c),
    ensures
        steady(a, c),
{
    reveal(steady);
    lemma_reaches_trans(a, b, c, open_calls(a.ops));
}

/// What soundness gives at the end of a steady stretch.
pub proof fn lemma_steady_sound(a: State, b: State)
    requires
        steady(a, b),
    ensures
        sound(a) ==> sound(b),
        a.types.len() <= b.types.len(),
        begins(a.ops, b.ops),
        begins(a.types, b.types),
        open_calls(b.ops) == open_calls(a.ops),
{
    reveal(steady);
}

/// An operation behind a steady stretch that neither registers a type nor
/// opens or closes a call.
pub proof fn lemma_steady_emit(a: State, b: State, op: Op)
    requires
        steady(a, b),
        !(op is Type),
        call_change(op) == 0,
        sound(a) ==> op_ids_below(op, b.types.len() as int),
    ensures
        steady(a, ops::emitted(b, op)),
{
    reveal(steady);
    let low = open_calls(a.ops);
    if sound(a) {
        lemma_reaches_emit(b, op, low);
        lemma_reaches_trans(a, b, ops::emitted(b, op), low);
    } else {
        let next = ops::emitted(b, op);
        assert(next.ops.drop_last() =~= b.ops);
        assert(next.ops.take(a.ops.len() as int) =~= b.ops.take(a.ops.len() as int));
        assert forall|k: int| a.ops.len() <= k <= next.ops.len() implies open_calls(
            #[trigger] next.ops.take(k),
        ) >= low by {
            if k < next.ops.len() {
                assert(next.ops.take(k) =~= b.ops.take(k));
            } else {
                assert(next.ops.take(k) =~= next.ops);
            }
        }
    }
}

/// An operation without a record, behind nothing.
pub proof fn lemma_steady_one(st: State, op: Op)
    requires
        op is Step || op is Event || op is Function,
    ensures
        steady(st, ops::emitted(st, op)),
{
    lemma_steady_refl(st);
    lemma_steady_emit(st, st, op);
}

/// The storage is no part of the trace.
pub proof fn lemma_steady_storage(a: State, b: State, storage: Option<Val>)
    requires
        steady(a, b),
    ensures
        steady(a, State { storage, ..b }),
{
    reveal(steady);
    let next = State { storage, ..b };
    assert(next.ops == b.ops && next.types == b.types);
    assert forall|k: int| a.ops.len() <= k <= next.ops.len() implies open_calls(
        #[trigger] next.ops.take(k),
    ) >= open_calls(a.ops) by {
        assert(open_calls(b.ops.take(k)) >= open_calls(a.ops));
    }
}

/// A call whose body is steady is steady as a whole.
pub proof fn lemma_steady_call(a: State, opened: State, ended: State, b: State, value: Rec)
    requires
        steady(a, opened),
        steady(ops::emitted(opened, Op::Call), ended),
        steady(ended, b),
        sound(ended) ==> ids_below(value, b.types.len() as int),
    ensures
        steady(a, ops::emitted(b, Op::Return { value })),
{
    reveal(steady);
    let low = open_calls(a.ops);
    let called = ops::emitted(opened, Op::Call);
    lemma_reaches_emit(opened, Op::Call, low);
    lemma_reaches_trans(a, opened, called, low);
    assert(reaches(called, ended, low));
    lemma_reaches_trans(a, called, ended, low);
    assert(reaches(ended, b, low));
    lemma_reaches_trans(a, ended, b, low);
    let op = Op::Return { value };
    let next = ops::emitted(b, op);
    assert(next.ops.drop_last() =~= b.ops);
    if sound(ended) {
        lemma_reaches_emit(b, op, low);
        lemma_reaches_trans(a, b, next, low);
    } else {
        assert(next.ops.take(a.ops.len() as int) =~= b.ops.take(a.ops.len() as int));
        assert forall|k: int| a.ops.len() <= k <= next.ops.len() implies open_calls(
            #[trigger] next.ops.take(k),
        ) >= low by {
            if k < next.ops.len() {
                assert(next.ops.take(k) =~= b.ops.take(k));
            } else {
                assert(next.ops.take(k) =~= next.ops);
            }
        }
    }
}

/// More types leave the numbers of a record valid.
pub proof fn lemma_ids_grow(r: Rec, n: int, m: int)
    requires
        ids_below(r, n),
        n <= m,
    ensures
        ids_below(r, m),
    decreases r,
{
    match r {
        Rec::Tuple { elements, .. } => {
            lemma_all_ids_grow(elements, n, m);
        },
        Rec::Struct { field_values, .. } => {
            lemma_all_ids_grow(field_values, n, m);
        },
        Rec::Variant { contents, .. } => {
            lemma_ids_grow(*contents, n, m);
        },
        _ => {},
    }
}

proof fn lemma_all_ids_grow(s: Seq<Rec>, n: int, m: int)
    requires
        all_ids_below(s, n),
        n <= m,
    ensures
        all_ids_below(s, m),
    decreases s,
{
    if s.len() > 0 {
        lemma_all_ids_grow(s.drop_last(), n, m);
        lemma_ids_grow(s.last(), n, m);
    }
}

/// A type that is registered has a number, and it names it.
pub proof fn lemma_type_number(types: Seq<Seq<char>>, name: Seq<char>)
    ensures
        match ops::type_number(types, name) {
            Some(i) => 0 <= i < types.len() && types[i] == name,
            None => !types.contains(name),
        },
        types.len() > 0 ==> 0 <= ops::type_or_zero(types, name) < types.len(),
{
    text::lemma_first_from(0, types.len() as int, ops::type_named(types, name));
    if ops::type_number(types, name) is None {
        if types.contains(name) {
            let j = types.index_of(name);
            assert(ops::type_named(types, name)(j));
        }
    }
}

/// Registering a type keeps the trace well formed.
pub proof fn lemma_with_type(st: State, kind: TypeKind, name: Seq<char>)
    ensures
        steady(st, ops::with_type(st, kind, name).0),
        0 <= ops::with_type(st, kind, name).1 < ops::with_type(st, kind, name).0.types.len(),
        sound(ops::with_type(st, kind, name).0) || !sound(st),
{
    lemma_type_number(st.types, name);
    lemma_steady_refl(st);
    if ops::type_number(st.types, name) is None {
        reveal(steady);
        let (next, id) = ops::with_type(st, kind, name);
        assert(next.ops.drop_last() =~= st.ops);
        assert(next.ops.take(st.ops.len() as int) =~= st.ops);
        assert(next.types.take(st.types.len() as int) =~= st.types);
        if sound(st) {
            assert(type_names(next.ops) =~= next.types);
            assert(next.types.no_duplicates()) by {
                assert forall|i: int, j: int|
                    0 <= i < next.types.len() && 0 <= j < next.types.len() && i
                        != j implies next.types[i] != next.types[j] by {
                    if i < st.types.len() && j < st.types.len() {
                        assert(st.types[i] != st.types[j]);
                    } else if i < st.types.len() {
                        assert(st.types.contains(st.types[i]));
                    } else {
                        assert(st.types.contains(st.types[j]));
                    }
                }
            }
        }
        assert forall|k: int| st.ops.len() <= k <= next.ops.len() implies open_calls(
            #[trigger] next.ops.take(k),
        ) >= open_calls(st.ops) by {
            if k < next.ops.len() {
                assert(next.ops.take(k) =~= st.ops);
            } else {
                assert(next.ops.take(k) =~= next.ops);
            }
        }
    }
}

/// A record names only types that are registered when it has been made.
pub proof fn lemma_record(st: State, variants: Set<Seq<char>>, v: Val)
    ensures
        ({
            let (next, rec) = ops::record_of(st, variants, v);
            &&& steady(st, next)
            &&& sound(st) ==> ids_below(rec, next.types.len() as int)
        }),
    decreases v,
{
    broadcast use lemma_steady_trans;

    lemma_steady_refl(st);
    match v {
        Val::Int(_) => {
            lemma_type_number(st.types, "int"@);
        },
        Val::Tuple(elements) => {
            lemma_records(st, variants, elements);
            let (next, _) = ops::records_of(st, variants, elements);
            lemma_steady_sound(st, next);
            lemma_type_number(next.types, "Tuple"@);
        },
        Val::Struct { ty_name, fields } => {
            lemma_field_records(st, variants, fields);
            let (mid, values) = ops::field_records_of(st, variants, fields);
            lemma_with_type(mid, TypeKind::Struct, ty_name);
            let (next, type_id) = ops::with_type(mid, TypeKind::Struct, ty_name);
            lemma_steady_sound(st, mid);
            lemma_steady_sound(mid, next);
            if sound(st) {
                lemma_all_ids_grow(values, mid.types.len() as int, next.types.len() as int);
                let plain = Rec::Struct { field_values: values, type_id };
                assert(ids_below(plain, next.types.len() as int));
            }
        },
        Val::Builder { .. } => {
            lemma_with_type(st, TypeKind::Raw, "TolkBuilder"@);
        },
        Val::Cell { .. } => {
            lemma_with_type(st, TypeKind::Raw, "TolkCell"@);
        },
        Val::Slice { .. } => {
            lemma_with_type(st, TypeKind::Raw, "TolkSlice"@);
        },
        Val::SliceLit { encoding, .. } => {
            lemma_with_type(st, TypeKind::Raw, ops::literal_type(encoding));
        },
        Val::Coin(_) => {
            lemma_with_type(st, TypeKind::Int, "coin"@);
        },
        Val::Address { workchain, hash } => {
            lemma_with_type(st, TypeKind::Struct, "TolkAddress"@);
            let (next, type_id) = ops::with_type(st, TypeKind::Struct, "TolkAddress"@);
            lemma_type_number(next.types, "int"@);
            let int_id = ops::type_or_zero(next.types, "int"@);
            let n = next.types.len() as int;
            let first = Rec::Int { i: workchain, type_id: int_id };
            let second = Rec::Int { i: hash, type_id: int_id };
            let values = seq![first, second];
            assert(values.drop_last() =~= seq![first]);
            assert(seq![first].drop_last() =~= Seq::empty());
            reveal_with_fuel(all_ids_below, 3);
            assert(all_ids_below(values, n));
        },
    }
}

proof fn lemma_records(st: State, variants: Set<Seq<char>>, s: Seq<Val>)
    ensures
        ({
            let (next, recs) = ops::records_of(st, variants, s);
            &&& steady(st, next)
            &&& sound(st) ==> all_ids_below(recs, next.types.len() as int)
        }),
    decreases s,
{
    broadcast use lemma_steady_trans;

    lemma_steady_refl(st);
    if s.len() > 0 {
        lemma_records(st, variants, s.drop_last());
        let (mid, done) = ops::records_of(st, variants, s.drop_last());
        lemma_record(mid, variants, s.last());
        let (next, last) = ops::record_of(mid, variants, s.last());
        lemma_steady_sound(st, mid);
        lemma_steady_sound(mid, next);
        if sound(st) {
            lemma_all_ids_grow(done, mid.types.len() as int, next.types.len() as int);
            assert(done.push(last).drop_last() =~= done);
        }
    }
}

proof fn lemma_field_records(st: State, variants: Set<Seq<char>>, s: Seq<(Seq<char>, Val)>)
    ensures
        ({
            let (next, recs) = ops::field_records_of(st, variants, s);
            &&& steady(st, next)
            &&& sound(st) ==> all_ids_below(recs, next.types.len() as int)
        }),
    decreases s,
{
    broadcast use lemma_steady_trans;

    lemma_steady_refl(st);
    if s.len() > 0 {
        lemma_field_records(st, variants, s.drop_last());
        let (mid, done) = ops::field_records_of(st, variants, s.drop_last());
        lemma_record(mid, variants, s.last().1);
        let (next, last) = ops::record_of(mid, variants, s.last().1);
        lemma_steady_sound(st, mid);
        lemma_steady_sound(mid, next);
        if sound(st) {
            lemma_all_ids_grow(done, mid.types.len() as int, next.types.len() as int);
            assert(done.push(last).drop_last() =~= done);
        }
    }
}

proof fn lemma_begins_trans<T>(a: Seq<T>, b: Seq<T>, c: Seq<T>)
    requires
        begins(a, b),
        begins(b, c),
    ensures
        begins(a, c),
{
    assert(c.take(a.len() as int) =~= c.take(b.len() as int).take(a.len() as int));
}

/// A type keeps its number when more types are registered.
proof fn lemma_number_stays(types: Seq<Seq<char>>, more: Seq<Seq<char>>, name: Seq<char>)
    requires
        begins(types, more),
        ops::type_number(types, name) is Some,
    ensures
        ops::type_number(more, name) == ops::type_number(types, name),
{
    let p = ops::type_named(types, name);
    let q = ops::type_named(more, name);
    text::lemma_first_from(0, types.len() as int, p);
    text::lemma_first_from(0, more.len() as int, q);
    assert forall|j: int| 0 <= j < types.len() implies q(j) == #[trigger] p(j) by {
        assert(more.take(types.len() as int)[j] == more[j]);
    }
    let i = ops::type_number(types, name)->0;
    assert(p(i));
    assert(q(i));
    let k = ops::type_number(more, name)->0;
    if k < i {
        assert(p(k));
    }
}

/// Once a type is registered it is found under its number.
proof fn lemma_with_type_again(st: State, later: State, kind: TypeKind, name: Seq<char>)
    requires
        begins(ops::with_type(st, kind, name).0.types, later.types),
    ensures
        ops::with_type(later, kind, name) == (later, ops::with_type(st, kind, name).1),
{
    let (next, id) = ops::with_type(st, kind, name);
    lemma_type_number(st.types, name);
    if ops::type_number(st.types, name) is None {
        text::lemma_first_from(0, next.types.len() as int, ops::type_named(next.types, name));
        assert(ops::type_named(next.types, name)(id));
        let k = ops::type_number(next.types, name)->0;
        if k < id {
            assert(st.types[k] == name);
            assert(st.types.contains(name));
        }
    }
    lemma_number_stays(next.types, later.types, name);
}

/// The types that every trace registers first are there.
pub open spec fn has_common_types(types: Seq<Seq<char>>) -> bool {
    ops::type_number(types, "int"@) is Some && ops::type_number(types, "Tuple"@) is Some
}

proof fn lemma_record_again(st: State, later: State, variants: Set<Seq<char>>, v: Val)
    requires
        has_common_types(st.types),
        begins(ops::record_of(st, variants, v).0.types, later.types),
    ensures
        ops::record_of(later, variants, v) == (later, ops::record_of(st, variants, v).1),
    decreases v,
{
    let (next, _) = ops::record_of(st, variants, v);
    lemma_record(st, variants, v);
    lemma_steady_sound(st, next);
    lemma_begins_trans(st.types, next.types, later.types);
    lemma_number_stays(st.types, later.types, "int"@);
    match v {
        Val::Int(_) => {},
        Val::Tuple(elements) => {
            lemma_records_again(st, later, variants, elements);
            lemma_number_stays(st.types, next.types, "Tuple"@);
            lemma_number_stays(st.types, later.types, "Tuple"@);
        },
        Val::Struct { ty_name, fields } => {
            let (mid, _) = ops::field_records_of(st, variants, fields);
            lemma_with_type(mid, TypeKind::Struct, ty_name);
            lemma_steady_sound(mid, next);
            lemma_begins_trans(mid.types, next.types, later.types);
            lemma_field_records_again(st, later, variants, fields);
            lemma_with_type_again(mid, later, TypeKind::Struct, ty_name);
        },
        Val::Builder { .. } => {
            lemma_with_type_again(st, later, TypeKind::Raw, "TolkBuilder"@);
        },
        Val::Cell { .. } => {
            lemma_with_type_again(st, later, TypeKind::Raw, "TolkCell"@);
        },
        Val::Slice { .. } => {
            lemma_with_type_again(st, later, TypeKind::Raw, "TolkSlice"@);
        },
        Val::SliceLit { encoding, .. } => {
            lemma_with_type_again(st, later, TypeKind::Raw, ops::literal_type(encoding));
        },
        Val::Coin(_) => {
            lemma_with_type_again(st, later, TypeKind::Int, "coin"@);
        },
        Val::Address { .. } => {
            lemma_number_stays(st.types, next.types, "int"@);
            lemma_with_type_again(st, later, TypeKind::Struct, "TolkAddress"@);
        },
    }
}

proof fn lemma_records_again(st: State, later: State, variants: Set<Seq<char>>, s: Seq<Val>)
    requires
        has_common_types(st.types),
        begins(ops::records_of(st, variants, s).0.types, later.types),
    ensures
        ops::records_of(later, variants, s) == (later, ops::records_of(st, variants, s).1),
    decreases s,
{
    if s.len() > 0 {
        let less = s.drop_last();
        let (mid, _) = ops::records_of(st, variants, less);
        lemma_records(st, variants, less);
        lemma_steady_sound(st, mid);
        lemma_record(mid, variants, s.last());
        let (next, _) = ops::record_of(mid, variants, s.last());
        lemma_steady_sound(mid, next);
        lemma_begins_trans(mid.types, next.types, later.types);
        lemma_number_stays(st.types, mid.types, "int"@);
        lemma_number_stays(st.types, mid.types, "Tuple"@);
        lemma_records_again(st, later, variants, less);
        lemma_record_again(mid, later, variants, s.last());
    }
}

proof fn lemma_field_records_again(
    st: State,
    later: State,
    variants: Set<Seq<char>>,
    s: Seq<(Seq<char>, Val)>,
)
    requires
        has_common_types(st.types),
        begins(ops::field_records_of(st, variants, s).0.types, later.types),
    ensures
        ops::field_records_of(later, variants, s) == (
            later,
            ops::field_records_of(st, variants, s).1,
        ),
    decreases s,
{
    if s.len() > 0 {
        let less = s.drop_last();
        let v = s.last().1;
        let (mid, _) = ops::field_records_of(st, variants, less);
        lemma_field_records(st, variants, less);
        lemma_steady_sound(st, mid);
        lemma_record(mid, variants, v);
        let (next, _) = ops::record_of(mid, variants, v);
        lemma_steady_sound(mid, next);
        lemma_begins_trans(mid.types, next.types, later.types);
        lemma_number_stays(st.types, mid.types, "int"@);
        lemma_number_stays(st.types, mid.types, "Tuple"@);
        lemma_field_records_again(st, later, variants, less);
        lemma_record_again(mid, later, variants, v);
    }
}

/// A value is recorded alike whenever it is recorded: types are registered on
/// first use alone, so that at any later time the same value gives the same
/// record and registers nothing.
pub proof fn law_value_is_recorded_alike(
    st: State,
    later: State,
    variants: Set<Seq<char>>,
    v: Val,
)
    requires
        has_common_types(st.types),
        begins(ops::record_of(st, variants, v).0.types, later.types),
    ensures
        ops::record_of(later, variants, v) == (later, ops::record_of(st, variants, v).1),
{
    lemma_record_again(st, later, variants, v);
}

} // verus!
