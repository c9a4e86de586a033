//! Laws of records: what the trace shows of a value.

use vstd::prelude::*;

use crate::numeral;
use crate::ops;
use crate::ops::{Op, Rec, State, TypeKind};
use crate::text;
use crate::value;
use crate::value::{SliceEncoding, Val};
use crate::wellformed;

verus! {

/// The number is that of a type with the name.
pub open spec fn typed(types: Seq<Seq<char>>, id: int, name: Seq<char>) -> bool {
    0 <= id < types.len() && types[id] == name
}

/// The records show the values, one by one.
pub open spec fn all_show(
    types: Seq<Seq<char>>,
    variants: Set<Seq<char>>,
    s: Seq<Val>,
    recs: Seq<Rec>,
) -> bool
    decreases s,
{
    s.len() == recs.len() && (s.len() > 0 ==> all_show(
        types,
        variants,
        s.drop_last(),
        recs.drop_last(),
    ) && shows(types, variants, s.last(), recs.last()))
}

/// The records show the values of the fields, one by one.
pub open spec fn fields_show(
    types: Seq<Seq<char>>,
    variants: Set<Seq<char>>,
    s: Seq<(Seq<char>, Val)>,
    recs: Seq<Rec>,
) -> bool
    decreases s,
{
    s.len() == recs.len() && (s.len() > 0 ==> fields_show(
        types,
        variants,
        s.drop_last(),
        recs.drop_last(),
    ) && shows(types, variants, s.last().1, recs.last()))
}

/// A raw record with a text, under a type of a name.
pub open spec fn shows_raw(
    types: Seq<Seq<char>>,
    rec: Rec,
    name: Seq<char>,
    shown: Seq<char>,
) -> bool {
    match rec {
        Rec::Raw { r, type_id } => r == shown && typed(types, type_id, name),
        _ => false,
    }
}

/// An integer record, under a type of a name.
pub open spec fn shows_int(types: Seq<Seq<char>>, rec: Rec, name: Seq<char>, n: i64) -> bool {
    match rec {
        Rec::Int { i, type_id } => i == n && typed(types, type_id, name),
        _ => false,
    }
}

/// The record shows the value: integers, coins and addresses by their numbers,
/// tuples and structs by the records of their parts in order, a struct named
/// like a constructor of a union as a variant of that name, and builders, cells
/// and slices as texts, each under the type that belongs to it.
pub open spec fn shows(
    types: Seq<Seq<char>>,
    variants: Set<Seq<char>>,
    v: Val,
    rec: Rec,
) -> bool
    decreases v,
{
    match v {
        Val::Int(n) => shows_int(types, rec, "int"@, n),
        Val::Coin(n) => shows_int(types, rec, "coin"@, n),
        Val::Address { workchain, hash } => match rec {
            Rec::Struct { field_values, type_id } => {
                &&& typed(types, type_id, "TolkAddress"@)
                &&& field_values.len() == 2
                &&& shows_int(types, field_values[0], "int"@, workchain)
                &&& shows_int(types, field_values[1], "int"@, hash)
            },
            _ => false,
        },
        Val::Tuple(elements) => match rec {
            Rec::Tuple { elements: recs, type_id } => typed(types, type_id, "Tuple"@) && all_show(
                types,
                variants,
                elements,
                recs,
            ),
            _ => false,
        },
        Val::Struct { ty_name, fields } => if variants.contains(ty_name) {
            match rec {
                Rec::Variant { discriminator, contents, type_id } => {
                    &&& discriminator == ty_name
                    &&& typed(types, type_id, ty_name)
                    &&& match *contents {
                        Rec::Struct { field_values, type_id: inner } => inner == type_id
                            && fields_show(types, variants, fields, field_values),
                        _ => false,
                    }
                },
                _ => false,
            }
        } else {
            match rec {
                Rec::Struct { field_values, type_id } => typed(types, type_id, ty_name)
                    && fields_show(types, variants, fields, field_values),
                _ => false,
            }
        },
        Val::Builder { payload, refs } => shows_raw(
            types,
            rec,
            "TolkBuilder"@,
            contents_text("Builder"@, payload, refs),
        ),
        Val::Cell { payload, refs } => shows_raw(
            types,
            rec,
            "TolkCell"@,
            contents_text("Cell"@, payload, refs),
        ),
        Val::Slice { payload, pos, refs, ref_pos } => shows_raw(
            types,
            rec,
            "TolkSlice"@,
            contents_text("Slice"@, payload, refs) + " @"@ + numeral::int_text(pos) + "/r"@
                + numeral::int_text(ref_pos),
        ),
        Val::SliceLit { encoding, bytes } => shows_raw(
            types,
            rec,
            match encoding {
                SliceEncoding::Text => "TolkSliceText"@,
                SliceEncoding::Hex => "TolkSliceHex"@,
            },
            match encoding {
                SliceEncoding::Text => "Slice<text> \""@ + (if vstd::utf8::valid_utf8(bytes) {
                    vstd::utf8::decode_utf8(bytes)
                } else {
                    numeral::bytes_hex(bytes)
                }) + "\""@,
                SliceEncoding::Hex => "Slice<hex> 0x\""@ + numeral::bytes_hex(bytes) + "\""@,
            },
        ),
    }
}

/// Integers with a comma and a blank between them.
pub open spec fn ints_text(ints: Seq<i64>) -> Seq<char>
    decreases ints.len(),
{
    if ints.len() == 0 {
        Seq::empty()
    } else if ints.len() == 1 {
        numeral::int_text(ints[0] as int)
    } else {
        ints_text(ints.drop_last()) + ", "@ + numeral::int_text(ints.last() as int)
    }
}

/// Cells without references, with a comma and a blank between them.
pub open spec fn cells_text(cells: Seq<Seq<i64>>) -> Seq<char>
    decreases cells.len(),
{
    if cells.len() == 0 {
        Seq::empty()
    } else if cells.len() == 1 {
        "Cell"@ + "(["@ + ints_text(cells[0]) + "])"@
    } else {
        cells_text(cells.drop_last()) + ", "@ + ("Cell"@ + "(["@ + ints_text(cells.last()) + "])"@)
    }
}

/// The text of a builder, cell or slice: its integers, and the cells that it
/// refers to if there are any.
pub open spec fn contents_text(kind: Seq<char>, payload: Seq<i64>, refs: Seq<Seq<i64>>) -> Seq<
    char,
> {
    if refs.len() == 0 {
        kind + "(["@ + ints_text(payload) + "])"@
    } else {
        kind + "(["@ + ints_text(payload) + "])"@ + " refs=["@ + cells_text(refs) + "]"@
    }
}

proof fn lemma_ints(ints: Seq<i64>)
    ensures
        text::joined(value::int_texts(ints), ", "@) == ints_text(ints),
    decreases ints.len(),
{
    let parts = value::int_texts(ints);
    if ints.len() > 1 {
        assert(parts.drop_last() =~= value::int_texts(ints.drop_last()));
        lemma_ints(ints.drop_last());
    }
}

proof fn lemma_cells(cells: Seq<Seq<i64>>)
    ensures
        text::joined(value::ref_texts(cells), ", "@) == cells_text(cells),
    decreases cells.len(),
{
    let parts = value::ref_texts(cells);
    if cells.len() > 0 {
        lemma_ints(cells.last());
        assert(parts.last() == value::payload_text("Cell"@, cells.last()));
        assert(parts.last() =~= "Cell"@ + "(["@ + ints_text(cells.last()) + "])"@);
    }
    if cells.len() > 1 {
        assert(parts.drop_last() =~= value::ref_texts(cells.drop_last()));
        lemma_cells(cells.drop_last());
    }
}

/// The contents of a builder, cell or slice are shown as they are: every
/// integer in order, and every cell that it refers to.
pub proof fn law_contents_are_shown(kind: Seq<char>, payload: Seq<i64>, refs: Seq<Seq<i64>>)
    ensures
        value::payload_refs_text(kind, payload, refs) == contents_text(kind, payload, refs),
{
    lemma_ints(payload);
    lemma_cells(refs);
}

/// More types change nothing of what is shown.
pub proof fn lemma_shows_on(
    types: Seq<Seq<char>>,
    more: Seq<Seq<char>>,
    variants: Set<Seq<char>>,
    v: Val,
    rec: Rec,
)
    requires
        shows(types, variants, v, rec),
        wellformed::begins(types, more),
    ensures
        shows(more, variants, v, rec),
    decreases v, 1int,
{
    lemma_typed_on(types, more);
    match v {
        Val::Tuple(elements) => {
            lemma_all_on(types, more, variants, elements, rec->Tuple_elements);
        },
        Val::Struct { ty_name, fields } => {
            if variants.contains(ty_name) {
                let contents = *rec->contents;
                lemma_fields_on(types, more, variants, fields, contents->Struct_field_values);
            } else {
                lemma_fields_on(types, more, variants, fields, rec->Struct_field_values);
            }
        },
        _ => {},
    }
}

proof fn lemma_typed_on(types: Seq<Seq<char>>, more: Seq<Seq<char>>)
    requires
        wellformed::begins(types, more),
    ensures
        forall|id: int, name: Seq<char>| typed(types, id, name) ==> #[trigger] typed(more, id, name),
{
    assert forall|id: int, name: Seq<char>| typed(types, id, name) implies #[trigger] typed(
        more,
        id,
        name,
    ) by {
        assert(more.take(types.len() as int)[id] == more[id]);
    }
}

proof fn lemma_all_on(
    types: Seq<Seq<char>>,
    more: Seq<Seq<char>>,
    variants: Set<Seq<char>>,
    s: Seq<Val>,
    recs: Seq<Rec>,
)
    requires
        all_show(types, variants, s, recs),
        wellformed::begins(types, more),
    ensures
        all_show(more, variants, s, recs),
    decreases s, 0int,
{
    if s.len() > 0 {
        lemma_all_on(types, more, variants, s.drop_last(), recs.drop_last());
        lemma_shows_on(types, more, variants, s.last(), recs.last());
    }
}

proof fn lemma_fields_on(
    types: Seq<Seq<char>>,
    more: Seq<Seq<char>>,
    variants: Set<Seq<char>>,
    s: Seq<(Seq<char>, Val)>,
    recs: Seq<Rec>,
)
    requires
        fields_show(types, variants, s, recs),
        wellformed::begins(types, more),
    ensures
        fields_show(more, variants, s, recs),
    decreases s, 0int,
{
    if s.len() > 0 {
        lemma_fields_on(types, more, variants, s.drop_last(), recs.drop_last());
        lemma_shows_on(types, more, variants, s.last().1, recs.last());
    }
}

/// Between two states types were registered and nothing else happened: each new
/// type has its operation, in order.
pub open spec fn registers(a: State, b: State) -> bool {
    &&& wellformed::begins(a.types, b.types)
    &&& wellformed::begins(a.ops, b.ops)
    &&& b.storage == a.storage
    &&& b.ops.len() - a.ops.len() == b.types.len() - a.types.len()
    &&& forall|k: int|
        0 <= k < b.types.len() - a.types.len() ==> match #[trigger] b.ops[a.ops.len() + k] {
            Op::Type { name, .. } => name == b.types[a.types.len() + k],
            _ => false,
        }
}

proof fn lemma_registers_refl(a: State)
    ensures
        registers(a, a),
{
    assert(a.types.take(a.types.len() as int) =~= a.types);
    assert(a.ops.take(a.ops.len() as int) =~= a.ops);
}

proof fn lemma_registers_trans(a: State, b: State, c: State)
    requires
        registers(a, b),
        registers(b, c),
    ensures
        registers(a, c),
{
    assert(c.types.take(a.types.len() as int) =~= c.types.take(b.types.len() as int).take(
        a.types.len() as int,
    ));
    assert(c.ops.take(a.ops.len() as int) =~= c.ops.take(b.ops.len() as int).take(
        a.ops.len() as int,
    ));
    assert forall|k: int| 0 <= k < c.types.len() - a.types.len() implies match #[trigger] c.ops[
    a.ops.len() + k] {
        Op::Type { name, .. } => name == c.types[a.types.len() + k],
        _ => false,
    } by {
        let n = b.types.len() - a.types.len();
        if k < n {
            assert(b.ops[a.ops.len() + k] is Type);
            assert(c.ops.take(b.ops.len() as int)[a.ops.len() + k] == c.ops[a.ops.len() + k]);
            assert(c.types.take(b.types.len() as int)[a.types.len() + k] == c.types[a.types.len()
                + k]);
        } else {
            assert(c.ops[b.ops.len() + (k - n)] is Type);
        }
    }
}

proof fn lemma_with_type(st: State, kind: TypeKind, name: Seq<char>)
    ensures
        ({
            let (after, id) = ops::with_type(st, kind, name);
            registers(st, after) && typed(after.types, id, name)
        }),
{
    let q = ops::type_named(st.types, name);
    text::lemma_first_from(0, st.types.len() as int, q);
    let (after, id) = ops::with_type(st, kind, name);
    match ops::type_number(st.types, name) {
        Some(i) => {
            assert(q(i));
            lemma_registers_refl(st);
        },
        None => {
            assert(after.types.take(st.types.len() as int) =~= st.types);
            assert(after.ops.take(st.ops.len() as int) =~= st.ops);
        },
    }
}

pub proof fn lemma_common(types: Seq<Seq<char>>, name: Seq<char>)
    requires
        types.contains(name),
    ensures
        typed(types, ops::type_or_zero(types, name), name),
{
    let q = ops::type_named(types, name);
    text::lemma_first_from(0, types.len() as int, q);
    let k = types.index_of(name);
    assert(q(k));
    if let Some(i) = ops::type_number(types, name) {
        assert(q(i));
    }
}

proof fn lemma_contains_on(types: Seq<Seq<char>>, more: Seq<Seq<char>>, name: Seq<char>)
    requires
        types.contains(name),
        wellformed::begins(types, more),
    ensures
        more.contains(name),
{
    let k = types.index_of(name);
    assert(more.take(types.len() as int)[k] == more[k]);
}

/// The record of a value shows it, and making the record does no more than
/// register the types that are new.
#[verifier::spinoff_prover]
#[verifier::rlimit(40)]
pub proof fn law_record_shows_its_value(st: State, variants: Set<Seq<char>>, v: Val)
    requires
        st.types.contains("int"@),
        st.types.contains("Tuple"@),
    ensures
        ({
            let (after, rec) = ops::record_of(st, variants, v);
            shows(after.types, variants, v, rec) && registers(st, after)
        }),
    decreases v, 1int,
{
    let (after, rec) = ops::record_of(st, variants, v);
    lemma_registers_refl(st);
    match v {
        Val::Int(_) => {
            lemma_common(st.types, "int"@);
        },
        Val::Tuple(elements) => {
            lemma_all_records(st, variants, elements);
            lemma_contains_on(st.types, after.types, "Tuple"@);
            lemma_common(after.types, "Tuple"@);
        },
        Val::Struct { ty_name, fields } => {
            lemma_all_fields(st, variants, fields);
            let (mid, recs) = ops::field_records_of(st, variants, fields);
            lemma_with_type(mid, TypeKind::Struct, ty_name);
            lemma_registers_trans(st, mid, after);
            lemma_fields_on(mid.types, after.types, variants, fields, recs);
        },
        Val::Builder { payload, refs } => {
            law_contents_are_shown("Builder"@, payload, refs);
            lemma_with_type(st, TypeKind::Raw, "TolkBuilder"@);
        },
        Val::Cell { payload, refs } => {
            law_contents_are_shown("Cell"@, payload, refs);
            lemma_with_type(st, TypeKind::Raw, "TolkCell"@);
        },
        Val::Slice { payload, refs, .. } => {
            law_contents_are_shown("Slice"@, payload, refs);
            lemma_with_type(st, TypeKind::Raw, "TolkSlice"@);
        },
        Val::SliceLit { encoding, .. } => {
            lemma_with_type(st, TypeKind::Raw, ops::literal_type(encoding));
        },
        Val::Coin(_) => {
            lemma_with_type(st, TypeKind::Int, "coin"@);
        },
        Val::Address { .. } => {
            lemma_with_type(st, TypeKind::Struct, "TolkAddress"@);
            lemma_contains_on(st.types, after.types, "int"@);
            lemma_common(after.types, "int"@);
        },
    }
}

proof fn lemma_all_records(st: State, variants: Set<Seq<char>>, s: Seq<Val>)
    requires
        st.types.contains("int"@),
        st.types.contains("Tuple"@),
    ensures
        ({
            let (after, recs) = ops::records_of(st, variants, s);
            all_show(after.types, variants, s, recs) && registers(st, after)
        }),
    decreases s, 0int,
{
    if s.len() == 0 {
        lemma_registers_refl(st);
    } else {
        lemma_all_records(st, variants, s.drop_last());
        let (mid, done) = ops::records_of(st, variants, s.drop_last());
        lemma_contains_on(st.types, mid.types, "int"@);
        lemma_contains_on(st.types, mid.types, "Tuple"@);
        law_record_shows_its_value(mid, variants, s.last());
        let (after, last) = ops::record_of(mid, variants, s.last());
        lemma_registers_trans(st, mid, after);
        lemma_all_on(mid.types, after.types, variants, s.drop_last(), done);
        assert(done.push(last).drop_last() =~= done);
    }
}

proof fn lemma_all_fields(st: State, variants: Set<Seq<char>>, s: Seq<(Seq<char>, Val)>)
    requires
        st.types.contains("int"@),
        st.types.contains("Tuple"@),
    ensures
        ({
            let (after, recs) = ops::field_records_of(st, variants, s);
            fields_show(after.types, variants, s, recs) && registers(st, after)
        }),
    decreases s, 0int,
{
    if s.len() == 0 {
        lemma_registers_refl(st);
    } else {
        lemma_all_fields(st, variants, s.drop_last());
        let (mid, done) = ops::field_records_of(st, variants, s.drop_last());
        lemma_contains_on(st.types, mid.types, "int"@);
        lemma_contains_on(st.types, mid.types, "Tuple"@);
        law_record_shows_its_value(mid, variants, s.last().1);
        let (after, last) = ops::record_of(mid, variants, s.last().1);
        lemma_registers_trans(st, mid, after);
        lemma_fields_on(mid.types, after.types, variants, s.drop_last(), done);
        assert(done.push(last).drop_last() =~= done);
    }
}

/// A type is registered under the kind that belongs to its values: coins as
/// integers, addresses and structs as structs, and builders, cells and slices
/// as raw values.
pub proof fn law_types_have_their_kinds(
    st: State,
    variants: Set<Seq<char>>,
    payload: Seq<i64>,
    refs: Seq<Seq<i64>>,
    n: i64,
    ty_name: Seq<char>,
)
    ensures
        ({
            let fresh = |name: Seq<char>| !st.types.contains(name);
            let after = |v: Val| ops::record_of(st, variants, v).0.ops;
            let with = |kind: TypeKind, name: Seq<char>| st.ops.push(Op::Type { kind, name });
            &&& fresh("coin"@) ==> after(Val::Coin(n)) == with(TypeKind::Int, "coin"@)
            &&& fresh("TolkAddress"@) ==> after(Val::Address { workchain: n, hash: n }) == with(
                TypeKind::Struct,
                "TolkAddress"@,
            )
            &&& fresh(ty_name) ==> after(Val::Struct { ty_name, fields: Seq::empty() }) == with(
                TypeKind::Struct,
                ty_name,
            )
            &&& fresh("TolkCell"@) ==> after(Val::Cell { payload, refs }) == with(
                TypeKind::Raw,
                "TolkCell"@,
            )
            &&& fresh("TolkBuilder"@) ==> after(Val::Builder { payload, refs }) == with(
                TypeKind::Raw,
                "TolkBuilder"@,
            )
            &&& fresh("TolkSlice"@) ==> after(Val::Slice { payload, pos: 0, refs, ref_pos: 0 })
                == with(TypeKind::Raw, "TolkSlice"@)
        }),
{
    assert forall|name: Seq<char>| !st.types.contains(name) implies #[trigger] ops::type_number(
        st.types,
        name,
    ) is None by {
        let q = ops::type_named(st.types, name);
        text::lemma_first_from(0, st.types.len() as int, q);
        if let Some(i) = ops::type_number(st.types, name) {
            assert(q(i));
            assert(st.types[i] == name);
        }
    }
    reveal_with_fuel(ops::record_of, 2);
    reveal_with_fuel(ops::field_records_of, 2);
}

} // verus!
