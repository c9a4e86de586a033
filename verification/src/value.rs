//! The values of Tolk programs.

use vstd::prelude::*;

use crate::numeral;
use crate::text;

verus! {

/// How a literal slice was written.
#[derive(Debug, Clone, Copy, PartialEq, Eq, Structural)]
pub enum SliceEncoding {
    /// `"abc"`: the bytes of the UTF-8 text.
    Text,
    /// `0x"abcd"`: the bytes of the hexadecimal digits.
    Hex,
}

/// A value of a running Tolk program.
#[derive(Debug)]
pub enum Value {
    /// An integer.
    Int(i64),
    /// A tuple literal.
    Tuple(Vec<Value>),
    /// A struct literal; the type name is also the tag of a variant.
    Struct { ty_name: String, fields: Vec<(String, Value)> },
    /// A builder: the integers stored so far, and the integers of each
    /// referenced cell.
    Builder { payload: Vec<i64>, refs: Vec<Vec<i64>> },
    /// A finished cell.
    Cell { payload: Vec<i64>, refs: Vec<Vec<i64>> },
    /// A cell being read: the cursors count what has been loaded.
    Slice { payload: Vec<i64>, pos: usize, refs: Vec<Vec<i64>>, ref_pos: usize },
    /// A literal slice.
    SliceLit { encoding: SliceEncoding, bytes: Vec<u8> },
    /// An amount of the domain type `coin`.
    Coin(i64),
    /// An account address.
    Address { workchain: i64, hash: i64 },
}

/// The mathematical model of a value.
#[verifier::ext_equal]
pub enum Val {
    Int(i64),
    Tuple(Seq<Val>),
    Struct { ty_name: Seq<char>, fields: Seq<(Seq<char>, Val)> },
    Builder { payload: Seq<i64>, refs: Seq<Seq<i64>> },
    Cell { payload: Seq<i64>, refs: Seq<Seq<i64>> },
    Slice { payload: Seq<i64>, pos: int, refs: Seq<Seq<i64>>, ref_pos: int },
    SliceLit { encoding: SliceEncoding, bytes: Seq<u8> },
    Coin(i64),
    Address { workchain: i64, hash: i64 },
}

/// The models of the referenced cells.
pub open spec fn refs_model(refs: Seq<Vec<i64>>) -> Seq<Seq<i64>> {
    refs.map_values(|r: Vec<i64>| r@)
}

/// The models of a list of values.
pub open spec fn values_model(s: Seq<Value>) -> Seq<Val>
    decreases s,
{
    if s.len() == 0 {
        Seq::empty()
    } else {
        values_model(s.drop_last()).push(s.last().model())
    }
}

/// The models of a list of named values.
pub open spec fn fields_model(s: Seq<(String, Value)>) -> Seq<(Seq<char>, Val)>
    decreases s,
{
    if s.len() == 0 {
        Seq::empty()
    } else {
        fields_model(s.drop_last()).push((s.last().0@, s.last().1.model()))
    }
}

/// The model of an optional value.
pub open spec fn opt_model(v: Option<Value>) -> Option<Val> {
    match v {
        Some(v) => Some(v.model()),
        None => None,
    }
}

impl Value {
    /// The model of the value.
    pub open spec fn model(self) -> Val
        decreases self,
    {
        match self {
            Value::Int(i) => Val::Int(i),
            Value::Tuple(elements) => Val::Tuple(values_model(elements@)),
            Value::Struct { ty_name, fields } => Val::Struct {
                ty_name: ty_name@,
                fields: fields_model(fields@),
            },
            Value::Builder { payload, refs } => Val::Builder {
                payload: payload@,
                refs: refs_model(refs@),
            },
            Value::Cell { payload, refs } => Val::Cell {
                payload: payload@,
                refs: refs_model(refs@),
            },
            Value::Slice { payload, pos, refs, ref_pos } => Val::Slice {
                payload: payload@,
                pos: pos as int,
                refs: refs_model(refs@),
                ref_pos: ref_pos as int,
            },
            Value::SliceLit { encoding, bytes } => Val::SliceLit { encoding, bytes: bytes@ },
            Value::Coin(i) => Val::Coin(i),
            Value::Address { workchain, hash } => Val::Address { workchain, hash },
        }
    }

    /// The integer that the value is in arithmetic: of an integer or a coin.
    pub fn as_i64(&self) -> (r: Option<i64>)
        ensures
            r == as_int(self.model()),
    {
        match self {
            Value::Int(i) => Some(*i),
            Value::Coin(i) => Some(*i),
            _ => None,
        }
    }

    /// A value with the same model.
    pub fn duplicate(&self) -> (r: Value)
        ensures
            r.model() == self.model(),
        decreases self,
    {
        match self {
            Value::Int(i) => Value::Int(*i),
            Value::Tuple(elements) => {
                let out = duplicate_all(elements);
                Value::Tuple(out)
            },
            Value::Struct { ty_name, fields } => {
                let out = duplicate_fields(fields);
                Value::Struct { ty_name: ty_name.clone(), fields: out }
            },
            Value::Builder { payload, refs } => Value::Builder {
                payload: copy_ints(payload, 0),
                refs: copy_refs(refs, 0),
            },
            Value::Cell { payload, refs } => Value::Cell {
                payload: copy_ints(payload, 0),
                refs: copy_refs(refs, 0),
            },
            Value::Slice { payload, pos, refs, ref_pos } => Value::Slice {
                payload: copy_ints(payload, 0),
                pos: *pos,
                refs: copy_refs(refs, 0),
                ref_pos: *ref_pos,
            },
            Value::SliceLit { encoding, bytes } => Value::SliceLit {
                encoding: *encoding,
                bytes: copy_bytes(bytes),
            },
            Value::Coin(i) => Value::Coin(*i),
            Value::Address { workchain, hash } => Value::Address {
                workchain: *workchain,
                hash: *hash,
            },
        }
    }
}

/// The integer that a value is in arithmetic.
pub open spec fn as_int(v: Val) -> Option<i64> {
    match v {
        Val::Int(i) => Some(i),
        Val::Coin(i) => Some(i),
        _ => None,
    }
}

pub proof fn lemma_values_push(s: Seq<Value>, v: Value)
    ensures
        values_model(s.push(v)) == values_model(s).push(v.model()),
{
    assert(s.push(v).drop_last() =~= s);
}

pub proof fn lemma_fields_push(s: Seq<(String, Value)>, f: (String, Value))
    ensures
        fields_model(s.push(f)) == fields_model(s).push((f.0@, f.1.model())),
{
    assert(s.push(f).drop_last() =~= s);
}

/// The model of a list is the list of the models.
pub proof fn lemma_values_model(s: Seq<Value>)
    ensures
        values_model(s).len() == s.len(),
        forall|i: int| 0 <= i < s.len() ==> #[trigger] values_model(s)[i] == s[i].model(),
    decreases s.len(),
{
    if s.len() > 0 {
        lemma_values_model(s.drop_last());
    }
}

/// The model of a list of named values, element by element.
pub proof fn lemma_fields_model(s: Seq<(String, Value)>)
    ensures
        fields_model(s).len() == s.len(),
        forall|i: int|
            0 <= i < s.len() ==> #[trigger] fields_model(s)[i] == (s[i].0@, s[i].1.model()),
    decreases s.len(),
{
    if s.len() > 0 {
        lemma_fields_model(s.drop_last());
    }
}

/// Copies of all values of a list.
pub fn duplicate_all(v: &Vec<Value>) -> (r: Vec<Value>)
    ensures
        values_model(r@) == values_model(v@),
    decreases v,
{
    let mut out: Vec<Value> = Vec::new();
    let mut i: usize = 0;
    proof {
        lemma_values_model(v@);
        assert(values_model(out@) =~= values_model(v@).take(0));
    }
    while i < v.len()
        invariant
            i <= v.len(),
            values_model(v@).len() == v.len(),
            forall|j: int| 0 <= j < v.len() ==> #[trigger] values_model(v@)[j] == v@[j].model(),
            values_model(out@) == values_model(v@).take(i as int),
        decreases v.len() - i,
    {
        let e = v[i].duplicate();
        proof {
            lemma_values_push(out@, e);
            assert(values_model(v@).take(i + 1) =~= values_model(v@).take(i as int).push(
                values_model(v@)[i as int],
            ));
        }
        out.push(e);
        i += 1;
    }
    assert(values_model(v@).take(v@.len() as int) =~= values_model(v@));
    out
}

/// Copies of all fields of a list.
fn duplicate_fields(v: &Vec<(String, Value)>) -> (r: Vec<(String, Value)>)
    ensures
        fields_model(r@) == fields_model(v@),
    decreases v,
{
    let mut out: Vec<(String, Value)> = Vec::new();
    let mut i: usize = 0;
    proof {
        lemma_fields_model(v@);
        assert(fields_model(out@) =~= fields_model(v@).take(0));
    }
    while i < v.len()
        invariant
            i <= v.len(),
            fields_model(v@).len() == v.len(),
            forall|j: int|
                0 <= j < v.len() ==> #[trigger] fields_model(v@)[j] == (v@[j].0@, v@[j].1.model()),
            fields_model(out@) == fields_model(v@).take(i as int),
        decreases v.len() - i,
    {
        let f: (String, Value) = (v[i].0.clone(), v[i].1.duplicate());
        proof {
            lemma_fields_push(out@, f);
            assert(fields_model(v@).take(i + 1) =~= fields_model(v@).take(i as int).push(
                fields_model(v@)[i as int],
            ));
        }
        out.push(f);
        i += 1;
    }
    assert(fields_model(v@).take(v@.len() as int) =~= fields_model(v@));
    out
}

/// The elements of `s` from `from` on; none past the end.
pub open spec fn rest_of<T>(s: Seq<T>, from: int) -> Seq<T> {
    if from <= s.len() {
        s.skip(from)
    } else {
        Seq::empty()
    }
}

/// The integers from `from` on.
pub fn copy_ints(v: &Vec<i64>, from: usize) -> (r: Vec<i64>)
    ensures
        r@ == rest_of(v@, from as int),
{
    let mut out: Vec<i64> = Vec::new();
    let mut i: usize = from;
    while i < v.len()
        invariant
            from <= i,
            i <= v.len() || i == from,
            out@ =~= if i <= v.len() {
                v@.subrange(from as int, i as int)
            } else {
                Seq::empty()
            },
        decreases v.len() - i,
    {
        out.push(v[i]);
        i += 1;
    }
    assert(out@ =~= rest_of(v@, from as int));
    out
}

/// The referenced cells from `from` on.
pub fn copy_refs(v: &Vec<Vec<i64>>, from: usize) -> (r: Vec<Vec<i64>>)
    ensures
        refs_model(r@) == rest_of(refs_model(v@), from as int),
{
    let mut out: Vec<Vec<i64>> = Vec::new();
    let mut i: usize = from;
    while i < v.len()
        invariant
            from <= i,
            i <= v.len() || i == from,
            refs_model(out@) =~= if i <= v.len() {
                refs_model(v@).subrange(from as int, i as int)
            } else {
                Seq::empty()
            },
        decreases v.len() - i,
    {
        let r = copy_ints(&v[i], 0);
        assert(r@ =~= v@[i as int]@);
        let ghost done = refs_model(out@);
        out.push(r);
        assert(refs_model(out@) =~= done.push(r@));
        i += 1;
    }
    assert(refs_model(out@) =~= rest_of(refs_model(v@), from as int));
    out
}

/// A copy of some bytes.
pub fn copy_bytes(v: &Vec<u8>) -> (r: Vec<u8>)
    ensures
        r@ == v@,
{
    let mut out: Vec<u8> = Vec::new();
    let mut i: usize = 0;
    while i < v.len()
        invariant
            i <= v.len(),
            out@ =~= v@.take(i as int),
        decreases v.len() - i,
    {
        out.push(v[i]);
        i += 1;
    }
    assert(out@ =~= v@);
    out
}

/// The decimal renderings of some integers.
pub open spec fn int_texts(s: Seq<i64>) -> Seq<Seq<char>> {
    s.map_values(|n: i64| numeral::int_text(n as int))
}

/// The rendering of the integers of a builder, cell or slice.
pub open spec fn payload_text(kind: Seq<char>, payload: Seq<i64>) -> Seq<char> {
    kind + "(["@ + text::joined(int_texts(payload), ", "@) + "])"@
}

/// The renderings of the referenced cells.
pub open spec fn ref_texts(refs: Seq<Seq<i64>>) -> Seq<Seq<char>> {
    refs.map_values(|r: Seq<i64>| payload_text("Cell"@, r))
}

/// The rendering of a payload with its referenced cells, if there are any.
pub open spec fn payload_refs_text(
    kind: Seq<char>,
    payload: Seq<i64>,
    refs: Seq<Seq<i64>>,
) -> Seq<char> {
    if refs.len() == 0 {
        payload_text(kind, payload)
    } else {
        payload_text(kind, payload) + " refs=["@ + text::joined(ref_texts(refs), ", "@) + "]"@
    }
}

/// Render the integers of a builder, cell or slice.
pub fn format_payload(kind: &str, payload: &Vec<i64>) -> (r: String)
    ensures
        r@ == payload_text(kind@, payload@),
{
    let mut parts: Vec<String> = Vec::new();
    let mut i: usize = 0;
    while i < payload.len()
        invariant
            i <= payload.len(),
            text::texts(parts@) =~= int_texts(payload@).take(i as int),
        decreases payload.len() - i,
    {
        let t = numeral::i64_to_string(payload[i]);
        proof {
            text::lemma_texts_push(parts@, t);
        }
        parts.push(t);
        i += 1;
    }
    assert(int_texts(payload@).take(i as int) =~= int_texts(payload@));
    let list = text::join(&parts, ", ");
    let mut r = text::concat3(kind, "([", list.as_str());
    r.append("])");
    r
}

/// Render a payload that may have references.
pub fn format_payload_with_refs(kind: &str, payload: &Vec<i64>, refs: &Vec<Vec<i64>>) -> (r: String)
    ensures
        r@ == payload_refs_text(kind@, payload@, refs_model(refs@)),
{
    let mut head = format_payload(kind, payload);
    if refs.len() == 0 {
        return head;
    }
    let mut parts: Vec<String> = Vec::new();
    let mut i: usize = 0;
    while i < refs.len()
        invariant
            i <= refs.len(),
            text::texts(parts@) =~= ref_texts(refs_model(refs@)).take(i as int),
        decreases refs.len() - i,
    {
        let t = format_payload("Cell", &refs[i]);
        proof {
            text::lemma_texts_push(parts@, t);
        }
        parts.push(t);
        i += 1;
    }
    assert(ref_texts(refs_model(refs@)).take(i as int) =~= ref_texts(refs_model(refs@)));
    let list = text::join(&parts, ", ");
    head.append(" refs=[");
    head.append(list.as_str());
    head.append("]");
    head
}

/// Without references the rendering is that of the payload alone.
pub proof fn law_payload_without_references(kind: Seq<char>, payload: Seq<i64>)
    ensures
        payload_refs_text(kind, payload, Seq::empty()) == payload_text(kind, payload),
{
}

} // verus!
