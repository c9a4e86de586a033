//! The operations of a trace, in the order in which a trace writer takes them,
//! and the state of a recording.

use vstd::prelude::*;

use crate::names::NameSet;
use crate::numeral;
use crate::text;
use crate::value;
use crate::value::{SliceEncoding, Val, Value};

verus! {

/// The kind of a registered type.
#[derive(Debug, Clone, Copy, PartialEq, Eq, Structural)]
pub enum TypeKind {
    Int,
    Sequence,
    Struct,
    Raw,
}

/// The kind of a special event.
#[derive(Debug, Clone, Copy, PartialEq, Eq, Structural)]
pub enum EventKind {
    Error,
    Read,
    Write,
    EvmEvent,
}

/// A value as a trace shows it. A type is named by its number: the types of a
/// trace are numbered from zero in the order of their registration.
#[derive(Debug)]
pub enum Record {
    Int { i: i64, type_id: usize },
    Tuple { elements: Vec<Record>, type_id: usize },
    Struct { field_values: Vec<Record>, type_id: usize },
    Variant { discriminator: String, contents: Box<Record>, type_id: usize },
    Raw { r: String, type_id: usize },
    /// No value.
    Nothing,
}

/// An operation of a trace.
#[derive(Debug)]
pub enum TraceOp {
    /// Register the next type.
    Type { kind: TypeKind, name: String },
    /// Register a function.
    Function { name: String, path: String, line: u32 },
    /// A step to a source line.
    Step { path: String, line: u32 },
    /// A variable has a value.
    Variable { name: String, value: Record },
    /// An argument of the call that comes next.
    Arg { name: String, value: Record },
    /// A call of the function registered last.
    Call,
    /// The current call returns.
    Return { value: Record },
    /// A special event.
    Event { channel: EventKind, metadata: String, content: String },
}

/// The mathematical model of a record.
#[verifier::ext_equal]
pub enum Rec {
    Int { i: i64, type_id: int },
    Tuple { elements: Seq<Rec>, type_id: int },
    Struct { field_values: Seq<Rec>, type_id: int },
    Variant { discriminator: Seq<char>, contents: Box<Rec>, type_id: int },
    Raw { r: Seq<char>, type_id: int },
    Nothing,
}

/// The mathematical model of an operation.
#[verifier::ext_equal]
pub enum Op {
    Type { kind: TypeKind, name: Seq<char> },
    Function { name: Seq<char>, path: Seq<char>, line: u32 },
    Step { path: Seq<char>, line: u32 },
    Variable { name: Seq<char>, value: Rec },
    Arg { name: Seq<char>, value: Rec },
    Call,
    Return { value: Rec },
    Event { channel: EventKind, metadata: Seq<char>, content: Seq<char> },
}

/// The models of a list of records.
pub open spec fn records_model(s: Seq<Record>) -> Seq<Rec>
    decreases s,
{
    if s.len() == 0 {
        Seq::empty()
    } else {
        records_model(s.drop_last()).push(s.last().model())
    }
}

impl Record {
    /// The model of the record.
    pub open spec fn model(self) -> Rec
        decreases self,
    {
        match self {
            Record::Int { i, type_id } => Rec::Int { i, type_id: type_id as int },
            Record::Tuple { elements, type_id } => Rec::Tuple {
                elements: records_model(elements@),
                type_id: type_id as int,
            },
            Record::Struct { field_values, type_id } => Rec::Struct {
                field_values: records_model(field_values@),
                type_id: type_id as int,
            },
            Record::Variant { discriminator, contents, type_id } => Rec::Variant {
                discriminator: discriminator@,
                contents: Box::new(contents.model()),
                type_id: type_id as int,
            },
            Record::Raw { r, type_id } => Rec::Raw { r: r@, type_id: type_id as int },
            Record::Nothing => Rec::Nothing,
        }
    }
}

impl TraceOp {
    /// The model of the operation.
    pub open spec fn model(self) -> Op {
        match self {
            TraceOp::Type { kind, name } => Op::Type { kind, name: name@ },
            TraceOp::Function { name, path, line } => Op::Function {
                name: name@,
                path: path@,
                line,
            },
            TraceOp::Step { path, line } => Op::Step { path: path@, line },
            TraceOp::Variable { name, value } => Op::Variable { name: name@, value: value.model() },
            TraceOp::Arg { name, value } => Op::Arg { name: name@, value: value.model() },
            TraceOp::Call => Op::Call,
            TraceOp::Return { value } => Op::Return { value: value.model() },
            TraceOp::Event { channel, metadata, content } => Op::Event {
                channel,
                metadata: metadata@,
                content: content@,
            },
        }
    }
}

/// The models of a list of operations.
pub open spec fn ops_model(s: Seq<TraceOp>) -> Seq<Op> {
    s.map_values(|op: TraceOp| op.model())
}

pub proof fn lemma_ops_push(s: Seq<TraceOp>, op: TraceOp)
    ensures
        ops_model(s.push(op)) == ops_model(s).push(op.model()),
{
    assert(ops_model(s.push(op)) =~= ops_model(s).push(op.model()));
}

/// Append an operation to a list.
pub fn push_op(out: &mut Vec<TraceOp>, op: TraceOp)
    ensures
        ops_model(final(out)@) == ops_model(old(out)@).push(op.model()),
{
    proof {
        lemma_ops_push(out@, op);
    }
    out.push(op);
}

pub proof fn lemma_records_push(s: Seq<Record>, r: Record)
    ensures
        records_model(s.push(r)) == records_model(s).push(r.model()),
{
    assert(s.push(r).drop_last() =~= s);
}

/// The state of a recording: the operations so far, the registered types and
/// the persistent storage of the contract.
#[verifier::ext_equal]
pub struct State {
    pub ops: Seq<Op>,
    pub types: Seq<Seq<char>>,
    pub storage: Option<Val>,
}

/// The state with one operation more.
pub open spec fn emitted(st: State, op: Op) -> State {
    State { ops: st.ops.push(op), ..st }
}

/// "The type at this index has the name."
pub open spec fn type_named(types: Seq<Seq<char>>, name: Seq<char>) -> spec_fn(int) -> bool {
    |i: int| types[i] == name
}

/// The number of the type of a name.
pub open spec fn type_number(types: Seq<Seq<char>>, name: Seq<char>) -> Option<int> {
    text::first_from(0, types.len() as int, type_named(types, name))
}

/// The number of the type of a name, or zero.
pub open spec fn type_or_zero(types: Seq<Seq<char>>, name: Seq<char>) -> int {
    match type_number(types, name) {
        Some(i) => i,
        None => 0,
    }
}

/// The type of a name is registered unless it is already; with its number.
pub open spec fn with_type(st: State, kind: TypeKind, name: Seq<char>) -> (State, int) {
    match type_number(st.types, name) {
        Some(i) => (st, i),
        None => (
            State {
                ops: st.ops.push(Op::Type { kind, name }),
                types: st.types.push(name),
                ..st
            },
            st.types.len() as int,
        ),
    }
}

/// The record of a raw value under a type of its own.
pub open spec fn raw_record(st: State, name: Seq<char>, r: Seq<char>) -> (State, Rec) {
    let (st, type_id) = with_type(st, TypeKind::Raw, name);
    (st, Rec::Raw { r, type_id })
}

/// The text of a literal slice.
pub open spec fn literal_text(encoding: SliceEncoding, bytes: Seq<u8>) -> Seq<char> {
    match encoding {
        SliceEncoding::Text => "Slice<text> \""@ + (if vstd::utf8::valid_utf8(bytes) {
            vstd::utf8::decode_utf8(bytes)
        } else {
            numeral::bytes_hex(bytes)
        }) + "\""@,
        SliceEncoding::Hex => "Slice<hex> 0x\""@ + numeral::bytes_hex(bytes) + "\""@,
    }
}

/// The name of the type of a literal slice.
pub open spec fn literal_type(encoding: SliceEncoding) -> Seq<char> {
    match encoding {
        SliceEncoding::Text => "TolkSliceText"@,
        SliceEncoding::Hex => "TolkSliceHex"@,
    }
}

/// The records of some values, made from left to right.
pub open spec fn records_of(st: State, variants: Set<Seq<char>>, s: Seq<Val>) -> (State, Seq<Rec>)
    decreases s,
{
    if s.len() == 0 {
        (st, Seq::empty())
    } else {
        let (st, done) = records_of(st, variants, s.drop_last());
        let (st, last) = record_of(st, variants, s.last());
        (st, done.push(last))
    }
}

/// The records of the values of some fields, made from left to right.
pub open spec fn field_records_of(
    st: State,
    variants: Set<Seq<char>>,
    s: Seq<(Seq<char>, Val)>,
) -> (State, Seq<Rec>)
    decreases s,
{
    if s.len() == 0 {
        (st, Seq::empty())
    } else {
        let (st, done) = field_records_of(st, variants, s.drop_last());
        let (st, last) = record_of(st, variants, s.last().1);
        (st, done.push(last))
    }
}

/// The record of a value. Types are registered on first use; a struct whose
/// name is a constructor of a union is recorded as a variant.
pub open spec fn record_of(st: State, variants: Set<Seq<char>>, v: Val) -> (State, Rec)
    decreases v,
{
    match v {
        Val::Int(i) => (st, Rec::Int { i, type_id: type_or_zero(st.types, "int"@) }),
        Val::Tuple(elements) => {
            let (st, elements) = records_of(st, variants, elements);
            (st, Rec::Tuple { elements, type_id: type_or_zero(st.types, "Tuple"@) })
        },
        Val::Struct { ty_name, fields } => {
            let (st, field_values) = field_records_of(st, variants, fields);
            let (st, type_id) = with_type(st, TypeKind::Struct, ty_name);
            let plain = Rec::Struct { field_values, type_id };
            if variants.contains(ty_name) {
                (
                    st,
                    Rec::Variant { discriminator: ty_name, contents: Box::new(plain), type_id },
                )
            } else {
                (st, plain)
            }
        },
        Val::Builder { payload, refs } => raw_record(
            st,
            "TolkBuilder"@,
            value::payload_refs_text("Builder"@, payload, refs),
        ),
        Val::Cell { payload, refs } => raw_record(
            st,
            "TolkCell"@,
            value::payload_refs_text("Cell"@, payload, refs),
        ),
        Val::Slice { payload, pos, refs, ref_pos } => raw_record(
            st,
            "TolkSlice"@,
            value::payload_refs_text("Slice"@, payload, refs) + " @"@ + numeral::int_text(pos)
                + "/r"@ + numeral::int_text(ref_pos),
        ),
        Val::SliceLit { encoding, bytes } => raw_record(
            st,
            literal_type(encoding),
            literal_text(encoding, bytes),
        ),
        Val::Coin(i) => {
            let (st, type_id) = with_type(st, TypeKind::Int, "coin"@);
            (st, Rec::Int { i, type_id })
        },
        Val::Address { workchain, hash } => {
            let (st, type_id) = with_type(st, TypeKind::Struct, "TolkAddress"@);
            let int_id = type_or_zero(st.types, "int"@);
            (
                st,
                Rec::Struct {
                    field_values: seq![
                        Rec::Int { i: workchain, type_id: int_id },
                        Rec::Int { i: hash, type_id: int_id },
                    ],
                    type_id,
                },
            )
        },
    }
}

/// `String::from_utf8`: the text that the bytes encode, and nothing if they
/// are not valid UTF-8.
#[verifier::external_body]
fn decode_text(bytes: Vec<u8>) -> (r: Option<String>)
    ensures
        match r {
            Some(s) => vstd::utf8::valid_utf8(bytes@) && s@ == vstd::utf8::decode_utf8(bytes@),
            None => !vstd::utf8::valid_utf8(bytes@),
        },
{
    String::from_utf8(bytes).ok()
}

/// A recording under way.
#[derive(Debug)]
pub struct TolkTracer {
    ops: Vec<TraceOp>,
    types: Vec<String>,
    storage: Option<Value>,
    variants: NameSet,
}

impl TolkTracer {
    /// The state of the recording.
    pub closed spec fn state(&self) -> State {
        State {
            ops: ops_model(self.ops@),
            types: text::texts(self.types@),
            storage: value::opt_model(self.storage),
        }
    }

    /// The names whose struct literals are variants.
    pub closed spec fn variants(&self) -> Set<Seq<char>> {
        self.variants@
    }

    /// An empty recording.
    pub fn new(variants: NameSet) -> (r: Self)
        ensures
            r.state() == (State { ops: Seq::empty(), types: Seq::empty(), storage: None }),
            r.variants() == variants@,
    {
        let r = TolkTracer { ops: Vec::new(), types: Vec::new(), storage: None, variants };
        assert(ops_model(r.ops@) =~= Seq::empty());
        assert(text::texts(r.types@) =~= Seq::empty());
        r
    }

    /// The operations recorded.
    pub fn into_ops(self) -> (r: Vec<TraceOp>)
        ensures
            ops_model(r@) == self.state().ops,
    {
        self.ops
    }

    /// Append an operation.
    pub fn emit(&mut self, op: TraceOp)
        ensures
            final(self).state() == emitted(old(self).state(), op.model()),
            final(self).variants() == old(self).variants(),
    {
        push_op(&mut self.ops, op);
    }

    /// The number of the type of a name.
    pub fn find_type(&self, name: &str) -> (r: Option<usize>)
        ensures
            text::opt_int(r) == type_number(self.state().types, name@),
    {
        let ghost types = text::texts(self.types@);
        let mut i: usize = 0;
        while i < self.types.len()
            invariant
                i <= self.types.len(),
                types == text::texts(self.types@),
                type_number(types, name@) == text::first_from(
                    i as int,
                    types.len() as int,
                    type_named(types, name@),
                ),
            decreases self.types.len() - i,
        {
            assert(types[i as int] == self.types@[i as int]@);
            if text::str_eq(self.types[i].as_str(), name) {
                return Some(i);
            }
            i += 1;
        }
        None
    }

    /// The number of the type of a name, or zero.
    pub fn type_id_or_zero(&self, name: &str) -> (r: usize)
        ensures
            r == type_or_zero(self.state().types, name@),
    {
        match self.find_type(name) {
            Some(i) => i,
            None => 0,
        }
    }

    /// Register the type of a name unless it is already; returns its number.
    pub fn ensure_type_id(&mut self, kind: TypeKind, name: &str) -> (r: usize)
        ensures
            (final(self).state(), r as int) == with_type(old(self).state(), kind, name@),
            final(self).variants() == old(self).variants(),
    {
        if let Some(i) = self.find_type(name) {
            return i;
        }
        let id: usize = self.types.len();
        let op = TraceOp::Type { kind, name: name.to_owned() };
        let owned = name.to_owned();
        proof {
            lemma_ops_push(self.ops@, op);
            text::lemma_texts_push(self.types@, owned);
        }
        self.ops.push(op);
        self.types.push(owned);
        id
    }

    /// Register an opaque type of a name.
    pub fn ensure_raw_type_id(&mut self, name: &str) -> (r: usize)
        ensures
            (final(self).state(), r as int) == with_type(old(self).state(), TypeKind::Raw, name@),
            final(self).variants() == old(self).variants(),
    {
        self.ensure_type_id(TypeKind::Raw, name)
    }

    /// Register an integer type of a name.
    pub fn ensure_int_alias_type_id(&mut self, name: &str) -> (r: usize)
        ensures
            (final(self).state(), r as int) == with_type(old(self).state(), TypeKind::Int, name@),
            final(self).variants() == old(self).variants(),
    {
        self.ensure_type_id(TypeKind::Int, name)
    }

    /// The persistent storage.
    pub fn storage(&self) -> (r: &Option<Value>)
        ensures
            value::opt_model(*r) == self.state().storage,
    {
        &self.storage
    }

    /// Replace the persistent storage.
    pub fn set_storage(&mut self, v: Value)
        ensures
            final(self).state() == (State { storage: Some(v.model()), ..old(self).state() }),
            final(self).variants() == old(self).variants(),
    {
        self.storage = Some(v);
    }

    fn raw(&mut self, name: &str, r: String) -> (rec: Record)
        ensures
            (final(self).state(), rec.model()) == raw_record(old(self).state(), name@, r@),
            final(self).variants() == old(self).variants(),
    {
        let type_id = self.ensure_raw_type_id(name);
        Record::Raw { r, type_id }
    }

    /// The record of a value, its types registered on first use.
    pub fn value_to_record(&mut self, val: &Value) -> (rec: Record)
        ensures
            (final(self).state(), rec.model()) == record_of(
                old(self).state(),
                old(self).variants(),
                val.model(),
            ),
            final(self).variants() == old(self).variants(),
        decreases val, 0int,
    {
        match val {
            Value::Int(i) => Record::Int { i: *i, type_id: self.type_id_or_zero("int") },
            Value::Tuple(elements) => {
                let elements = self.records(elements);
                let type_id = self.type_id_or_zero("Tuple");
                Record::Tuple { elements, type_id }
            },
            Value::Struct { ty_name, fields } => {
                let field_values = self.field_records(fields);
                let type_id = self.ensure_type_id(TypeKind::Struct, ty_name.as_str());
                let plain = Record::Struct { field_values, type_id };
                assert(plain.model() == Rec::Struct {
                    field_values: records_model(field_values@),
                    type_id: type_id as int,
                });
                if self.variants.contains(ty_name.as_str()) {
                    Record::Variant {
                        discriminator: ty_name.clone(),
                        contents: Box::new(plain),
                        type_id,
                    }
                } else {
                    plain
                }
            },
            Value::Builder { payload, refs } => {
                let r = value::format_payload_with_refs("Builder", payload, refs);
                self.raw("TolkBuilder", r)
            },
            Value::Cell { payload, refs } => {
                let r = value::format_payload_with_refs("Cell", payload, refs);
                self.raw("TolkCell", r)
            },
            Value::Slice { payload, pos, refs, ref_pos } => {
                let mut r = value::format_payload_with_refs("Slice", payload, refs);
                r.append(" @");
                r.append(numeral::u64_to_string(*pos as u64).as_str());
                r.append("/r");
                r.append(numeral::u64_to_string(*ref_pos as u64).as_str());
                self.raw("TolkSlice", r)
            },
            Value::SliceLit { encoding, bytes } => match encoding {
                SliceEncoding::Text => {
                    let body = match decode_text(value::copy_bytes(bytes)) {
                        Some(s) => s,
                        None => numeral::hex_string(bytes),
                    };
                    let r = text::concat3("Slice<text> \"", body.as_str(), "\"");
                    self.raw("TolkSliceText", r)
                },
                SliceEncoding::Hex => {
                    let body = numeral::hex_string(bytes);
                    let r = text::concat3("Slice<hex> 0x\"", body.as_str(), "\"");
                    self.raw("TolkSliceHex", r)
                },
            },
            Value::Coin(i) => {
                let type_id = self.ensure_int_alias_type_id("coin");
                Record::Int { i: *i, type_id }
            },
            Value::Address { workchain, hash } => {
                let type_id = self.ensure_type_id(TypeKind::Struct, "TolkAddress");
                let int_id = self.type_id_or_zero("int");
                let mut field_values: Vec<Record> = Vec::new();
                let first = Record::Int { i: *workchain, type_id: int_id };
                let second = Record::Int { i: *hash, type_id: int_id };
                proof {
                    lemma_records_push(field_values@, first);
                    lemma_records_push(field_values@.push(first), second);
                }
                field_values.push(first);
                field_values.push(second);
                assert(records_model(field_values@) =~= seq![first.model(), second.model()]);
                Record::Struct { field_values, type_id }
            },
        }
    }

    fn records(&mut self, values: &Vec<Value>) -> (r: Vec<Record>)
        ensures
            (final(self).state(), records_model(r@)) == records_of(
                old(self).state(),
                old(self).variants(),
                value::values_model(values@),
            ),
            final(self).variants() == old(self).variants(),
        decreases values, 1int,
    {
        let ghost before = self.state();
        let ghost variants = self.variants();
        let ghost all = value::values_model(values@);
        proof {
            value::lemma_values_model(values@);
            assert(all.take(0) =~= Seq::empty());
        }
        let mut out: Vec<Record> = Vec::new();
        let mut i: usize = 0;
        while i < values.len()
            invariant
                i <= values.len(),
                all == value::values_model(values@),
                all.len() == values.len(),
                forall|j: int| 0 <= j < values.len() ==> #[trigger] all[j] == values@[j].model(),
                self.variants() == variants,
                (self.state(), records_model(out@)) == records_of(
                    before,
                    variants,
                    all.take(i as int),
                ),
            decreases values.len() - i,
        {
            proof {
                assert(all.take(i + 1).drop_last() =~= all.take(i as int));
                assert(all.take(i + 1).last() == all[i as int]);
            }
            let r = self.value_to_record(&values[i]);
            proof {
                lemma_records_push(out@, r);
            }
            out.push(r);
            i += 1;
        }
        assert(all.take(i as int) =~= all);
        out
    }

    fn field_records(&mut self, fields: &Vec<(String, Value)>) -> (r: Vec<Record>)
        ensures
            (final(self).state(), records_model(r@)) == field_records_of(
                old(self).state(),
                old(self).variants(),
                value::fields_model(fields@),
            ),
            final(self).variants() == old(self).variants(),
        decreases fields, 1int,
    {
        let ghost before = self.state();
        let ghost variants = self.variants();
        let ghost all = value::fields_model(fields@);
        proof {
            value::lemma_fields_model(fields@);
            assert(all.take(0) =~= Seq::empty());
        }
        let mut out: Vec<Record> = Vec::new();
        let mut i: usize = 0;
        while i < fields.len()
            invariant
                i <= fields.len(),
                all == value::fields_model(fields@),
                all.len() == fields.len(),
                forall|j: int|
                    0 <= j < fields.len() ==> #[trigger] all[j] == (
                        fields@[j].0@,
                        fields@[j].1.model(),
                    ),
                self.variants() == variants,
                (self.state(), records_model(out@)) == field_records_of(
                    before,
                    variants,
                    all.take(i as int),
                ),
            decreases fields.len() - i,
        {
            proof {
                assert(all.take(i + 1).drop_last() =~= all.take(i as int));
                assert(all.take(i + 1).last() == all[i as int]);
            }
            let r = self.value_to_record(&fields[i].1);
            proof {
                lemma_records_push(out@, r);
            }
            out.push(r);
            i += 1;
        }
        assert(all.take(i as int) =~= all);
        out
    }
}

} // verus!
