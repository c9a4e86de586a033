//! The methods of builders, cells and slices.
//!
//! A cell is modelled by the integers stored in it and the integers of the
//! cells it refers to; no bits are laid out.

use vstd::prelude::*;

use crate::text;
use crate::value;
use crate::value::{Val, Value};

verus! {

/// What a method of a builder, cell or slice did.
#[derive(Debug)]
pub enum MethodOutcome {
    /// There is no such method.
    Unknown,
    /// The receiver does not have the method.
    Refused,
    /// The result, and the receiver with its cursor advanced if it has one.
    Done { result: Value, advanced: Option<Value> },
}

/// The mathematical model of an outcome.
#[verifier::ext_equal]
pub enum Outcome {
    Unknown,
    Refused,
    Done { result: Val, advanced: Option<Val> },
}

impl MethodOutcome {
    /// The model of the outcome.
    pub open spec fn model(self) -> Outcome {
        match self {
            MethodOutcome::Unknown => Outcome::Unknown,
            MethodOutcome::Refused => Outcome::Refused,
            MethodOutcome::Done { result, advanced } => Outcome::Done {
                result: result.model(),
                advanced: value::opt_model(advanced),
            },
        }
    }
}

/// The integers and references of a builder or a cell.
pub open spec fn contents_of(v: Val) -> Option<(Seq<i64>, Seq<Seq<i64>>)> {
    match v {
        Val::Builder { payload, refs } => Some((payload, refs)),
        Val::Cell { payload, refs } => Some((payload, refs)),
        _ => None,
    }
}

/// The integers with that of the argument behind them, if it is one.
pub open spec fn appended(payload: Seq<i64>, arg: Option<Val>) -> Seq<i64> {
    match arg {
        Some(v) => match value::as_int(v) {
            Some(n) => payload.push(n),
            None => payload,
        },
        None => payload,
    }
}

/// The integers that a reference to the argument holds: of a slice those not
/// yet loaded, and none of an argument that is no cell.
pub open spec fn reference_to(arg: Option<Val>) -> Seq<i64> {
    match arg {
        Some(Val::Cell { payload, .. }) => payload,
        Some(Val::Builder { payload, .. }) => payload,
        Some(Val::Slice { payload, pos, .. }) => value::rest_of(payload, pos),
        Some(Val::Int(n)) => seq![n],
        _ => Seq::empty(),
    }
}

/// The cursor behind `pos`; it stops at the greatest `usize`.
pub open spec fn cursor_after(pos: int) -> int {
    if pos < usize::MAX {
        pos + 1
    } else {
        pos
    }
}

/// `storeInt`, `storeUint` and `storeAddress`: a builder with one integer more.
pub open spec fn store_int(base: Val, arg: Option<Val>) -> Outcome {
    match contents_of(base) {
        Some((payload, refs)) => Outcome::Done {
            result: Val::Builder { payload: appended(payload, arg), refs },
            advanced: None,
        },
        None => Outcome::Refused,
    }
}

/// `storeRef` and `storeMaybeRef`: a builder with one reference more.
pub open spec fn store_ref(base: Val, arg: Option<Val>) -> Outcome {
    match contents_of(base) {
        Some((payload, refs)) => Outcome::Done {
            result: Val::Builder { payload, refs: refs.push(reference_to(arg)) },
            advanced: None,
        },
        None => Outcome::Refused,
    }
}

/// `storeSlice`: a builder with what a slice has not yet loaded.
pub open spec fn store_slice(base: Val, arg: Option<Val>) -> Outcome {
    match contents_of(base) {
        Some((payload, refs)) => match arg {
            Some(Val::Slice { payload: more, pos, refs: more_refs, ref_pos }) => Outcome::Done {
                result: Val::Builder {
                    payload: payload + value::rest_of(more, pos),
                    refs: refs + value::rest_of(more_refs, ref_pos),
                },
                advanced: None,
            },
            _ => Outcome::Done { result: Val::Builder { payload, refs }, advanced: None },
        },
        None => Outcome::Refused,
    }
}

/// `endCell`: the cell of what a builder holds.
pub open spec fn end_cell(base: Val) -> Outcome {
    match contents_of(base) {
        Some((payload, refs)) => Outcome::Done {
            result: Val::Cell { payload, refs },
            advanced: None,
        },
        None => Outcome::Refused,
    }
}

/// `beginParse`: a slice at the beginning of a cell.
pub open spec fn begin_parse(base: Val) -> Outcome {
    let contents = match base {
        Val::Slice { payload, refs, .. } => Some((payload, refs)),
        _ => contents_of(base),
    };
    match contents {
        Some((payload, refs)) => Outcome::Done {
            result: Val::Slice { payload, pos: 0, refs, ref_pos: 0 },
            advanced: None,
        },
        None => Outcome::Refused,
    }
}

/// `loadInt`, `loadUint` and `loadAddress`: the integer at the cursor, zero
/// past the end.
pub open spec fn load_int(base: Val) -> Outcome {
    match base {
        Val::Slice { payload, pos, refs, ref_pos } => Outcome::Done {
            result: Val::Int(
                if pos < payload.len() {
                    payload[pos]
                } else {
                    0
                },
            ),
            advanced: Some(Val::Slice { payload, pos: cursor_after(pos), refs, ref_pos }),
        },
        _ => Outcome::Refused,
    }
}

/// `loadRef` and `loadMaybeRef`: the cell of the reference at the cursor, an
/// empty one past the end.
pub open spec fn load_ref(base: Val) -> Outcome {
    match base {
        Val::Slice { payload, pos, refs, ref_pos } => Outcome::Done {
            result: Val::Cell {
                payload: if ref_pos < refs.len() {
                    refs[ref_pos]
                } else {
                    Seq::empty()
                },
                refs: Seq::empty(),
            },
            advanced: Some(Val::Slice { payload, pos, refs, ref_pos: cursor_after(ref_pos) }),
        },
        _ => Outcome::Refused,
    }
}

/// What a method does on a receiver, `arg` being its first argument.
pub open spec fn method_outcome(method: Seq<char>, base: Val, arg: Option<Val>) -> Outcome {
    if method == "storeInt"@ || method == "storeUint"@ || method == "storeAddress"@ {
        store_int(base, arg)
    } else if method == "storeRef"@ || method == "storeMaybeRef"@ {
        store_ref(base, arg)
    } else if method == "storeSlice"@ {
        store_slice(base, arg)
    } else if method == "endCell"@ {
        end_cell(base)
    } else if method == "beginParse"@ {
        begin_parse(base)
    } else if method == "loadInt"@ || method == "loadUint"@ || method == "loadAddress"@ {
        load_int(base)
    } else if method == "loadRef"@ || method == "loadMaybeRef"@ {
        load_ref(base)
    } else {
        Outcome::Unknown
    }
}

/// The integers and references of a builder or a cell.
fn take_contents(v: &Value) -> (r: Option<(Vec<i64>, Vec<Vec<i64>>)>)
    ensures
        match r {
            Some((payload, refs)) => contents_of(v.model()) == Some(
                (payload@, value::refs_model(refs@)),
            ),
            None => contents_of(v.model()) is None,
        },
{
    match v {
        Value::Builder { payload, refs } => Some(
            (value::copy_ints(payload, 0), value::copy_refs(refs, 0)),
        ),
        Value::Cell { payload, refs } => Some(
            (value::copy_ints(payload, 0), value::copy_refs(refs, 0)),
        ),
        _ => None,
    }
}

fn do_store_int(base: &Value, arg: Option<&Value>) -> (r: MethodOutcome)
    ensures
        r.model() == store_int(base.model(), ref_model(arg)),
{
    match take_contents(base) {
        Some((payload, refs)) => {
            let mut payload = payload;
            if let Some(v) = arg {
                if let Some(n) = v.as_i64() {
                    payload.push(n);
                }
            }
            MethodOutcome::Done { result: Value::Builder { payload, refs }, advanced: None }
        },
        None => MethodOutcome::Refused,
    }
}

/// The model of an optional reference to a value.
pub open spec fn ref_model(v: Option<&Value>) -> Option<Val> {
    match v {
        Some(v) => Some(v.model()),
        None => None,
    }
}

fn referenced(arg: Option<&Value>) -> (r: Vec<i64>)
    ensures
        r@ == reference_to(ref_model(arg)),
{
    match arg {
        Some(Value::Cell { payload, refs: _ }) => value::copy_ints(payload, 0),
        Some(Value::Builder { payload, refs: _ }) => value::copy_ints(payload, 0),
        Some(Value::Slice { payload, pos, refs: _, ref_pos: _ }) => value::copy_ints(payload, *pos),
        Some(Value::Int(n)) => {
            let mut r: Vec<i64> = Vec::new();
            r.push(*n);
            assert(r@ =~= seq![*n]);
            r
        },
        _ => Vec::new(),
    }
}

fn do_store_ref(base: &Value, arg: Option<&Value>) -> (r: MethodOutcome)
    ensures
        r.model() == store_ref(base.model(), ref_model(arg)),
{
    match take_contents(base) {
        Some((payload, refs)) => {
            let mut refs = refs;
            let target = referenced(arg);
            let ghost before = value::refs_model(refs@);
            refs.push(target);
            assert(value::refs_model(refs@) =~= before.push(target@));
            MethodOutcome::Done { result: Value::Builder { payload, refs }, advanced: None }
        },
        None => MethodOutcome::Refused,
    }
}

fn do_store_slice(base: &Value, arg: Option<&Value>) -> (r: MethodOutcome)
    ensures
        r.model() == store_slice(base.model(), ref_model(arg)),
{
    match take_contents(base) {
        Some((payload, refs)) => {
            let mut payload = payload;
            let mut refs = refs;
            if let Some(Value::Slice { payload: more, pos, refs: more_refs, ref_pos }) = arg {
                let mut tail = value::copy_ints(more, *pos);
                let mut tail_refs = value::copy_refs(more_refs, *ref_pos);
                let ghost before = value::refs_model(refs@);
                let ghost added = value::refs_model(tail_refs@);
                payload.append(&mut tail);
                refs.append(&mut tail_refs);
                assert(value::refs_model(refs@) =~= before + added);
            }
            MethodOutcome::Done { result: Value::Builder { payload, refs }, advanced: None }
        },
        None => MethodOutcome::Refused,
    }
}

fn do_end_cell(base: &Value) -> (r: MethodOutcome)
    ensures
        r.model() == end_cell(base.model()),
{
    match take_contents(base) {
        Some((payload, refs)) => MethodOutcome::Done {
            result: Value::Cell { payload, refs },
            advanced: None,
        },
        None => MethodOutcome::Refused,
    }
}

fn do_begin_parse(base: &Value) -> (r: MethodOutcome)
    ensures
        r.model() == begin_parse(base.model()),
{
    let contents = match base {
        Value::Slice { payload, pos: _, refs, ref_pos: _ } => Some(
            (value::copy_ints(payload, 0), value::copy_refs(refs, 0)),
        ),
        _ => take_contents(base),
    };
    match contents {
        Some((payload, refs)) => MethodOutcome::Done {
            result: Value::Slice { payload, pos: 0, refs, ref_pos: 0 },
            advanced: None,
        },
        None => MethodOutcome::Refused,
    }
}

fn advance(pos: usize) -> (r: usize)
    ensures
        r == cursor_after(pos as int),
{
    if pos < usize::MAX {
        pos + 1
    } else {
        pos
    }
}

fn do_load_int(base: &Value) -> (r: MethodOutcome)
    ensures
        r.model() == load_int(base.model()),
{
    match base {
        Value::Slice { payload, pos, refs, ref_pos } => {
            let n: i64 = if *pos < payload.len() {
                payload[*pos]
            } else {
                0
            };
            MethodOutcome::Done {
                result: Value::Int(n),
                advanced: Some(
                    Value::Slice {
                        payload: value::copy_ints(payload, 0),
                        pos: advance(*pos),
                        refs: value::copy_refs(refs, 0),
                        ref_pos: *ref_pos,
                    },
                ),
            }
        },
        _ => MethodOutcome::Refused,
    }
}

fn do_load_ref(base: &Value) -> (r: MethodOutcome)
    ensures
        r.model() == load_ref(base.model()),
{
    match base {
        Value::Slice { payload, pos, refs, ref_pos } => {
            let target: Vec<i64> = if *ref_pos < refs.len() {
                value::copy_ints(&refs[*ref_pos], 0)
            } else {
                Vec::new()
            };
            let none: Vec<Vec<i64>> = Vec::new();
            assert(value::refs_model(none@) =~= Seq::empty());
            MethodOutcome::Done {
                result: Value::Cell { payload: target, refs: none },
                advanced: Some(
                    Value::Slice {
                        payload: value::copy_ints(payload, 0),
                        pos: *pos,
                        refs: value::copy_refs(refs, 0),
                        ref_pos: advance(*ref_pos),
                    },
                ),
            }
        },
        _ => MethodOutcome::Refused,
    }
}

/// Apply a method of a builder, cell or slice, `arg` being its first argument.
pub fn apply_method(method: &str, base: &Value, arg: Option<&Value>) -> (r: MethodOutcome)
    ensures
        r.model() == method_outcome(method@, base.model(), ref_model(arg)),
{
    if text::str_eq(method, "storeInt") || text::str_eq(method, "storeUint") || text::str_eq(
        method,
        "storeAddress",
    ) {
        do_store_int(base, arg)
    } else if text::str_eq(method, "storeRef") || text::str_eq(method, "storeMaybeRef") {
        do_store_ref(base, arg)
    } else if text::str_eq(method, "storeSlice") {
        do_store_slice(base, arg)
    } else if text::str_eq(method, "endCell") {
        do_end_cell(base)
    } else if text::str_eq(method, "beginParse") {
        do_begin_parse(base)
    } else if text::str_eq(method, "loadInt") || text::str_eq(method, "loadUint") || text::str_eq(
        method,
        "loadAddress",
    ) {
        do_load_int(base)
    } else if text::str_eq(method, "loadRef") || text::str_eq(method, "loadMaybeRef") {
        do_load_ref(base)
    } else {
        MethodOutcome::Unknown
    }
}

/// A store into a builder: an integer, or a reference to a cell.
pub enum Store {
    Int(i64),
    Ref { payload: Seq<i64>, refs: Seq<Seq<i64>> },
}

/// What a store does on a builder.
pub open spec fn store_outcome(base: Val, store: Store) -> Outcome {
    match store {
        Store::Int(_) => store_int(base, Some(store_argument(store))),
        Store::Ref { .. } => store_ref(base, Some(store_argument(store))),
    }
}

/// The method is one that stores so.
pub open spec fn stores_by(store: Store, method: Seq<char>) -> bool {
    match store {
        Store::Int(_) => method == "storeInt"@ || method == "storeUint"@ || method
            == "storeAddress"@,
        Store::Ref { .. } => method == "storeRef"@ || method == "storeMaybeRef"@,
    }
}

/// The value that a store takes as its argument.
pub open spec fn store_argument(store: Store) -> Val {
    match store {
        Store::Int(n) => Val::Int(n),
        Store::Ref { payload, refs } => Val::Cell { payload, refs },
    }
}

/// An empty builder.
pub open spec fn empty_builder() -> Val {
    Val::Builder { payload: Seq::empty(), refs: Seq::empty() }
}

/// The builder after some stores, one after the other.
pub open spec fn stored(base: Val, stores: Seq<Store>) -> Val
    decreases stores.len(),
{
    if stores.len() == 0 {
        base
    } else {
        store_outcome(stored(base, stores.drop_last()), stores.last())->result
    }
}

/// The integers among some stores, in order.
pub open spec fn ints_of(stores: Seq<Store>) -> Seq<i64>
    decreases stores.len(),
{
    if stores.len() == 0 {
        Seq::empty()
    } else {
        match stores.last() {
            Store::Int(n) => ints_of(stores.drop_last()).push(n),
            Store::Ref { .. } => ints_of(stores.drop_last()),
        }
    }
}

/// The integers of the cells that are referred to among some stores, in order.
pub open spec fn refs_of(stores: Seq<Store>) -> Seq<Seq<i64>>
    decreases stores.len(),
{
    if stores.len() == 0 {
        Seq::empty()
    } else {
        match stores.last() {
            Store::Int(_) => refs_of(stores.drop_last()),
            Store::Ref { payload, .. } => refs_of(stores.drop_last()).push(payload),
        }
    }
}

/// Stores append, each to what is of its kind, however they are mixed.
pub proof fn law_stores_append(payload: Seq<i64>, refs: Seq<Seq<i64>>, stores: Seq<Store>)
    ensures
        stored(Val::Builder { payload, refs }, stores) == (Val::Builder {
            payload: payload + ints_of(stores),
            refs: refs + refs_of(stores),
        }),
    decreases stores.len(),
{
    if stores.len() == 0 {
        assert(payload + ints_of(stores) =~= payload);
        assert(refs + refs_of(stores) =~= refs);
    } else {
        let less = stores.drop_last();
        law_stores_append(payload, refs, less);
        match stores.last() {
            Store::Int(n) => {
                assert((payload + ints_of(less)).push(n) =~= payload + ints_of(stores));
            },
            Store::Ref { payload: target, .. } => {
                assert((refs + refs_of(less)).push(target) =~= refs + refs_of(stores));
            },
        }
    }
}

/// A load from a slice: of an integer, or of a reference.
pub enum Load {
    Int,
    Ref,
}

/// What a load does on a slice.
pub open spec fn load_outcome(base: Val, load: Load) -> Outcome {
    match load {
        Load::Int => load_int(base),
        Load::Ref => load_ref(base),
    }
}

/// The method is one that loads so.
pub open spec fn loads_by(load: Load, method: Seq<char>) -> bool {
    match load {
        Load::Int => method == "loadInt"@ || method == "loadUint"@ || method == "loadAddress"@,
        Load::Ref => method == "loadRef"@ || method == "loadMaybeRef"@,
    }
}

/// The slice after some loads, one after the other.
pub open spec fn loaded(slice: Val, loads: Seq<Load>) -> Val
    decreases loads.len(),
{
    if loads.len() == 0 {
        slice
    } else {
        load_outcome(loaded(slice, loads.drop_last()), loads.last())->advanced->0
    }
}

/// How many of the loads are of a kind.
pub open spec fn count_of(loads: Seq<Load>, kind: Load) -> nat
    decreases loads.len(),
{
    if loads.len() == 0 {
        0
    } else if loads.last() == kind {
        count_of(loads.drop_last(), kind) + 1
    } else {
        count_of(loads.drop_last(), kind)
    }
}

/// The cursor after `n` loads.
pub open spec fn cursor_at(n: nat) -> int {
    if n < usize::MAX {
        n as int
    } else {
        usize::MAX as int
    }
}

/// Each load moves the cursor of its kind by one and changes nothing else.
proof fn lemma_loaded(payload: Seq<i64>, refs: Seq<Seq<i64>>, loads: Seq<Load>)
    ensures
        loaded(Val::Slice { payload, pos: 0, refs, ref_pos: 0 }, loads) == (Val::Slice {
            payload,
            pos: cursor_at(count_of(loads, Load::Int)),
            refs,
            ref_pos: cursor_at(count_of(loads, Load::Ref)),
        }),
    decreases loads.len(),
{
    if loads.len() > 0 {
        lemma_loaded(payload, refs, loads.drop_last());
    }
}

/// The slice at the beginning of a cell that was built of some stores.
pub open spec fn parsed(stores: Seq<Store>) -> Val {
    begin_parse(end_cell(stored(empty_builder(), stores))->result)->result
}

/// What a load behind others gives of a cell that was built of some stores: the
/// store of its kind with its number, zero or an empty cell past the end.
pub open spec fn given_back(stores: Seq<Store>, loads: Seq<Load>, load: Load) -> Val {
    let n = count_of(loads, load) as int;
    match load {
        Load::Int => Val::Int(
            if n < ints_of(stores).len() {
                ints_of(stores)[n]
            } else {
                0
            },
        ),
        Load::Ref => Val::Cell {
            payload: if n < refs_of(stores).len() {
                refs_of(stores)[n]
            } else {
                Seq::empty()
            },
            refs: Seq::empty(),
        },
    }
}

proof fn lemma_kinds(stores: Seq<Store>)
    ensures
        ints_of(stores).len() + refs_of(stores).len() == stores.len(),
    decreases stores.len(),
{
    if stores.len() > 0 {
        lemma_kinds(stores.drop_last());
    }
}

/// What a cell was built of comes back in order: after any stores into an empty
/// builder, the cell ended and its parsing begun, the load number `n` of a kind
/// gives the store number `n` of that kind, however the stores were mixed and
/// whatever loads come before it. Past the end come zeros and empty cells.
pub proof fn law_loads_give_back_stores(stores: Seq<Store>, loads: Seq<Load>, load: Load)
    requires
        stores.len() <= usize::MAX,
    ensures
        load_outcome(loaded(parsed(stores), loads), load) == (Outcome::Done {
            result: given_back(stores, loads, load),
            advanced: Some(loaded(parsed(stores), loads.push(load))),
        }),
{
    law_stores_append(Seq::empty(), Seq::empty(), stores);
    let ints = ints_of(stores);
    let refs = refs_of(stores);
    assert(Seq::<i64>::empty() + ints =~= ints);
    assert(Seq::<Seq<i64>>::empty() + refs =~= refs);
    lemma_kinds(stores);
    lemma_loaded(ints, refs, loads);
    assert(loads.push(load).drop_last() =~= loads);
}

/// The methods have different names.
#[verifier::spinoff_prover]
#[verifier::rlimit(40)]
proof fn lemma_names()
    ensures
        "storeInt"@ != "storeUint"@,
        "storeInt"@ != "storeAddress"@,
        "storeInt"@ != "storeRef"@,
        "storeInt"@ != "storeMaybeRef"@,
        "storeInt"@ != "storeSlice"@,
        "storeInt"@ != "endCell"@,
        "storeInt"@ != "beginParse"@,
        "storeInt"@ != "loadInt"@,
        "storeInt"@ != "loadUint"@,
        "storeInt"@ != "loadAddress"@,
        "storeInt"@ != "loadRef"@,
        "storeInt"@ != "loadMaybeRef"@,
        "storeUint"@ != "storeAddress"@,
        "storeUint"@ != "storeRef"@,
        "storeUint"@ != "storeMaybeRef"@,
        "storeUint"@ != "storeSlice"@,
        "storeUint"@ != "endCell"@,
        "storeUint"@ != "beginParse"@,
        "storeUint"@ != "loadInt"@,
        "storeUint"@ != "loadUint"@,
        "storeUint"@ != "loadAddress"@,
        "storeUint"@ != "loadRef"@,
        "storeUint"@ != "loadMaybeRef"@,
        "storeAddress"@ != "storeRef"@,
        "storeAddress"@ != "storeMaybeRef"@,
        "storeAddress"@ != "storeSlice"@,
        "storeAddress"@ != "endCell"@,
        "storeAddress"@ != "beginParse"@,
        "storeAddress"@ != "loadInt"@,
        "storeAddress"@ != "loadUint"@,
        "storeAddress"@ != "loadAddress"@,
        "storeAddress"@ != "loadRef"@,
        "storeAddress"@ != "loadMaybeRef"@,
        "storeRef"@ != "storeMaybeRef"@,
        "storeRef"@ != "storeSlice"@,
        "storeRef"@ != "endCell"@,
        "storeRef"@ != "beginParse"@,
        "storeRef"@ != "loadInt"@,
        "storeRef"@ != "loadUint"@,
        "storeRef"@ != "loadAddress"@,
        "storeRef"@ != "loadRef"@,
        "storeRef"@ != "loadMaybeRef"@,
        "storeMaybeRef"@ != "storeSlice"@,
        "storeMaybeRef"@ != "endCell"@,
        "storeMaybeRef"@ != "beginParse"@,
        "storeMaybeRef"@ != "loadInt"@,
        "storeMaybeRef"@ != "loadUint"@,
        "storeMaybeRef"@ != "loadAddress"@,
        "storeMaybeRef"@ != "loadRef"@,
        "storeMaybeRef"@ != "loadMaybeRef"@,
        "storeSlice"@ != "endCell"@,
        "storeSlice"@ != "beginParse"@,
        "storeSlice"@ != "loadInt"@,
        "storeSlice"@ != "loadUint"@,
        "storeSlice"@ != "loadAddress"@,
        "storeSlice"@ != "loadRef"@,
        "storeSlice"@ != "loadMaybeRef"@,
        "endCell"@ != "beginParse"@,
        "endCell"@ != "loadInt"@,
        "endCell"@ != "loadUint"@,
        "endCell"@ != "loadAddress"@,
        "endCell"@ != "loadRef"@,
        "endCell"@ != "loadMaybeRef"@,
        "beginParse"@ != "loadInt"@,
        "beginParse"@ != "loadUint"@,
        "beginParse"@ != "loadAddress"@,
        "beginParse"@ != "loadRef"@,
        "beginParse"@ != "loadMaybeRef"@,
        "loadInt"@ != "loadUint"@,
        "loadInt"@ != "loadAddress"@,
        "loadInt"@ != "loadRef"@,
        "loadInt"@ != "loadMaybeRef"@,
        "loadUint"@ != "loadAddress"@,
        "loadUint"@ != "loadRef"@,
        "loadUint"@ != "loadMaybeRef"@,
        "loadAddress"@ != "loadRef"@,
        "loadAddress"@ != "loadMaybeRef"@,
        "loadRef"@ != "loadMaybeRef"@,
{
    reveal_strlit("storeInt");
    reveal_strlit("storeUint");
    reveal_strlit("storeAddress");
    reveal_strlit("storeRef");
    reveal_strlit("storeMaybeRef");
    reveal_strlit("storeSlice");
    reveal_strlit("endCell");
    reveal_strlit("beginParse");
    reveal_strlit("loadInt");
    reveal_strlit("loadUint");
    reveal_strlit("loadAddress");
    reveal_strlit("loadRef");
    reveal_strlit("loadMaybeRef");
    assert("storeInt"@.len() == 8);
    assert("storeUint"@.len() == 9);
    assert("storeAddress"@.len() == 12);
    assert("storeRef"@.len() == 8);
    assert("storeMaybeRef"@.len() == 13);
    assert("storeSlice"@.len() == 10);
    assert("endCell"@.len() == 7);
    assert("beginParse"@.len() == 10);
    assert("loadInt"@.len() == 7);
    assert("loadUint"@.len() == 8);
    assert("loadAddress"@.len() == 11);
    assert("loadRef"@.len() == 7);
    assert("loadMaybeRef"@.len() == 12);
    assert("storeInt"@[5] != "storeRef"@[5]);
    assert("storeInt"@[0] != "loadUint"@[0]);
    assert("storeAddress"@[0] != "loadMaybeRef"@[0]);
    assert("storeRef"@[0] != "loadUint"@[0]);
    assert("storeSlice"@[0] != "beginParse"@[0]);
    assert("endCell"@[0] != "loadInt"@[0]);
    assert("endCell"@[0] != "loadRef"@[0]);
    assert("loadInt"@[4] != "loadRef"@[4]);
}

/// Loads behind others move the cursors on from where they are.
proof fn lemma_loaded_from(
    payload: Seq<i64>,
    refs: Seq<Seq<i64>>,
    a: nat,
    b: nat,
    loads: Seq<Load>,
)
    ensures
        loaded(
            Val::Slice { payload, pos: cursor_at(a), refs, ref_pos: cursor_at(b) },
            loads,
        ) == (Val::Slice {
            payload,
            pos: cursor_at(a + count_of(loads, Load::Int)),
            refs,
            ref_pos: cursor_at(b + count_of(loads, Load::Ref)),
        }),
    decreases loads.len(),
{
    if loads.len() > 0 {
        lemma_loaded_from(payload, refs, a, b, loads.drop_last());
    }
}

/// How many of the stores a load of this kind gives back.
pub open spec fn stored_count(stores: Seq<Store>, kind: Load) -> nat {
    match kind {
        Load::Int => ints_of(stores).len(),
        Load::Ref => refs_of(stores).len(),
    }
}

/// The slice of the cell that is built of what a builder holds and of a slice.
pub open spec fn rebuilt(held: Seq<Store>, slice: Val) -> Val {
    let whole = method_outcome("storeSlice"@, stored(empty_builder(), held), Some(slice))->result;
    let cell = method_outcome("endCell"@, whole, None)->result;
    method_outcome("beginParse"@, cell, None)->result
}

/// Storing a slice stores what it has left to load: of the cell built of what
/// the builder held and of the slice, loads give back first what the builder
/// held, and then what loads of the slice would have given.
pub proof fn law_stored_slice_is_loaded_on(
    held: Seq<Store>,
    stores: Seq<Store>,
    loads: Seq<Load>,
    more: Seq<Load>,
    less: Seq<Load>,
    load: Load,
)
    requires
        held.len() + stores.len() <= usize::MAX,
    ensures
        ({
            let slice = loaded(parsed(stores), loads);
            let again = rebuilt(held, slice);
            let n = count_of(more, load) as int;
            let h = stored_count(held, load) as int;
            let got = load_outcome(loaded(again, more), load);
            &&& method_outcome("storeSlice"@, stored(empty_builder(), held), Some(slice)) is Done
            &&& got is Done
            &&& n < h ==> got->result == given_back(held, more, load)
            &&& n >= h && count_of(less, load) == n - h ==> got->result == load_outcome(
                loaded(slice, less),
                load,
            )->result
        }),
{
    lemma_names();
    let ints = ints_of(stores);
    let refs = refs_of(stores);
    let held_ints = ints_of(held);
    let held_refs = refs_of(held);
    law_stores_append(Seq::empty(), Seq::empty(), stores);
    law_stores_append(Seq::empty(), Seq::empty(), held);
    assert(Seq::<i64>::empty() + ints =~= ints);
    assert(Seq::<Seq<i64>>::empty() + refs =~= refs);
    assert(Seq::<i64>::empty() + held_ints =~= held_ints);
    assert(Seq::<Seq<i64>>::empty() + held_refs =~= held_refs);
    lemma_kinds(stores);
    lemma_kinds(held);
    lemma_loaded(ints, refs, loads);
    let a = count_of(loads, Load::Int);
    let b = count_of(loads, Load::Ref);
    lemma_loaded_from(ints, refs, a, b, less);
    let whole_ints = held_ints + value::rest_of(ints, cursor_at(a));
    let whole_refs = held_refs + value::rest_of(refs, cursor_at(b));
    lemma_loaded(whole_ints, whole_refs, more);
}

/// The cell that the reference to a value is loaded as.
pub open spec fn referred(value: Val) -> Val {
    let with_ref = method_outcome("storeRef"@, empty_builder(), Some(value))->result;
    let cell = method_outcome("endCell"@, with_ref, None)->result;
    let slice = method_outcome("beginParse"@, cell, None)->result;
    method_outcome("loadRef"@, slice, None)->result
}

/// A reference holds the integers of what it refers to: of a cell or a builder
/// all that were stored, of a slice those that it has left to load, and an
/// integer as the only one. It holds none of the references.
pub proof fn law_reference_holds_the_integers(stores: Seq<Store>, loads: Seq<Load>, n: i64)
    requires
        stores.len() <= usize::MAX,
    ensures
        ({
            let builder = stored(empty_builder(), stores);
            let cell = method_outcome("endCell"@, builder, None)->result;
            let slice = loaded(parsed(stores), loads);
            let left = count_of(loads, Load::Int) as int;
            let none = Seq::<Seq<i64>>::empty();
            &&& referred(builder) == (Val::Cell { payload: ints_of(stores), refs: none })
            &&& referred(cell) == (Val::Cell { payload: ints_of(stores), refs: none })
            &&& referred(slice) == (Val::Cell {
                payload: if left < ints_of(stores).len() {
                    ints_of(stores).skip(left)
                } else {
                    Seq::empty()
                },
                refs: none,
            })
            &&& referred(Val::Int(n)) == (Val::Cell { payload: seq![n], refs: none })
        }),
{
    lemma_names();
    let ints = ints_of(stores);
    let refs = refs_of(stores);
    law_stores_append(Seq::empty(), Seq::empty(), stores);
    assert(Seq::<i64>::empty() + ints =~= ints);
    assert(Seq::<Seq<i64>>::empty() + refs =~= refs);
    lemma_kinds(stores);
    lemma_loaded(ints, refs, loads);
}

/// Stores take integers and coins, and store nothing of what has no integer.
/// They and `endCell` take builders and cells alone, loads take slices alone,
/// and `beginParse` takes all three and begins at the beginning.
pub proof fn law_methods_take_their_receivers(
    payload: Seq<i64>,
    refs: Seq<Seq<i64>>,
    pos: int,
    ref_pos: int,
    n: i64,
    arg: Option<Val>,
    base: Val,
)
    ensures
        ({
            let builder = Val::Builder { payload, refs };
            let cell = Val::Cell { payload, refs };
            let slice = Val::Slice { payload, pos, refs, ref_pos };
            let done = |result: Val| Outcome::Done { result, advanced: None };
            let more = Val::Builder { payload: payload.push(n), refs };
            let fresh = Val::Slice { payload, pos: 0, refs, ref_pos: 0 };
            &&& method_outcome("storeInt"@, builder, Some(Val::Int(n))) == done(more)
            &&& method_outcome("storeInt"@, cell, Some(Val::Int(n))) == done(more)
            &&& method_outcome("storeInt"@, builder, Some(Val::Coin(n))) == done(more)
            &&& method_outcome("storeUint"@, builder, Some(Val::Int(n))) == done(more)
            &&& method_outcome("storeAddress"@, builder, Some(Val::Int(n))) == done(more)
            &&& !(arg matches Some(Val::Int(_)) || arg matches Some(Val::Coin(_)))
                ==> method_outcome("storeInt"@, builder, arg) == done(builder)
            &&& method_outcome("endCell"@, builder, arg) == done(cell)
            &&& method_outcome("endCell"@, cell, arg) == done(cell)
            &&& method_outcome("beginParse"@, cell, arg) == done(fresh)
            &&& method_outcome("beginParse"@, builder, arg) == done(fresh)
            &&& method_outcome("beginParse"@, slice, arg) == done(fresh)
            &&& !(base is Builder || base is Cell) ==> {
                &&& method_outcome("storeInt"@, base, arg) == Outcome::Refused
                &&& method_outcome("storeRef"@, base, arg) == Outcome::Refused
                &&& method_outcome("storeSlice"@, base, arg) == Outcome::Refused
                &&& method_outcome("endCell"@, base, arg) == Outcome::Refused
            }
            &&& !(base is Slice) ==> {
                &&& method_outcome("loadInt"@, base, arg) == Outcome::Refused
                &&& method_outcome("loadRef"@, base, arg) == Outcome::Refused
            }
            &&& !(base is Builder || base is Cell || base is Slice) ==> method_outcome(
                "beginParse"@,
                base,
                arg,
            ) == Outcome::Refused
        }),
{
    lemma_names();
}

/// Integers of either sign and addresses are stored and loaded alike, and so are
/// references that may be missing and others.
pub proof fn law_methods_of_a_kind_are_alike(base: Val, arg: Option<Val>)
    ensures
        method_outcome("storeUint"@, base, arg) == method_outcome("storeInt"@, base, arg),
        method_outcome("storeAddress"@, base, arg) == method_outcome("storeInt"@, base, arg),
        method_outcome("storeMaybeRef"@, base, arg) == method_outcome("storeRef"@, base, arg),
        method_outcome("loadUint"@, base, arg) == method_outcome("loadInt"@, base, arg),
        method_outcome("loadAddress"@, base, arg) == method_outcome("loadInt"@, base, arg),
        method_outcome("loadMaybeRef"@, base, arg) == method_outcome("loadRef"@, base, arg),
{
    lemma_names();
}

/// A method whose name begins with none of the words that the methods of cells
/// begin with is not one of them.
pub proof fn law_other_methods_are_unknown(method: Seq<char>, base: Val, arg: Option<Val>)
    requires
        !"store"@.is_prefix_of(method),
        !"load"@.is_prefix_of(method),
        !"end"@.is_prefix_of(method),
        !"begin"@.is_prefix_of(method),
    ensures
        method_outcome(method, base, arg) == Outcome::Unknown,
{
    reveal_strlit("store");
    reveal_strlit("load");
    reveal_strlit("end");
    reveal_strlit("begin");
    reveal_strlit("storeInt");
    reveal_strlit("storeUint");
    reveal_strlit("storeAddress");
    reveal_strlit("storeRef");
    reveal_strlit("storeMaybeRef");
    reveal_strlit("storeSlice");
    reveal_strlit("endCell");
    reveal_strlit("beginParse");
    reveal_strlit("loadInt");
    reveal_strlit("loadUint");
    reveal_strlit("loadAddress");
    reveal_strlit("loadRef");
    reveal_strlit("loadMaybeRef");
    assert("storeInt"@.subrange(0, 5) =~= "store"@);
    assert("storeUint"@.subrange(0, 5) =~= "store"@);
    assert("storeAddress"@.subrange(0, 5) =~= "store"@);
    assert("storeRef"@.subrange(0, 5) =~= "store"@);
    assert("storeMaybeRef"@.subrange(0, 5) =~= "store"@);
    assert("storeSlice"@.subrange(0, 5) =~= "store"@);
    assert("endCell"@.subrange(0, 3) =~= "end"@);
    assert("beginParse"@.subrange(0, 5) =~= "begin"@);
    assert("loadInt"@.subrange(0, 4) =~= "load"@);
    assert("loadUint"@.subrange(0, 4) =~= "load"@);
    assert("loadAddress"@.subrange(0, 4) =~= "load"@);
    assert("loadRef"@.subrange(0, 4) =~= "load"@);
    assert("loadMaybeRef"@.subrange(0, 4) =~= "load"@);
}

} // verus!
