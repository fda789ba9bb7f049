//! Object schemas: required and optional fields, primitive and list types,
//! and length and range constraints.
use vstd::prelude::*;
use crate::display::{push_decimal, push_signed, push_str, signed_text, string_from_chars};
use crate::text::decimal_text;
use vstd::utf8::encode_utf8;
use std::time::Duration;
use crate::timing::{self, is_median_sample};
use crate::evidence::{first_from, lemma_first_from};
use crate::text::chars_of;

verus! {

/// A document value. A float is held by its IEEE-754 bit pattern (as
/// `f64::to_bits` gives it): validation only asks whether a value is a float.
/// An object lists its entries; a name given twice stands for its last value.
#[derive(Debug, PartialEq)]
pub enum Value {
    Null,
    Bool(bool),
    Int(i64),
    Float(u64),
    Text(String),
    List(Vec<Value>),
    Object(Vec<Entry>),
}

/// A named entry of an object.
#[derive(Debug, PartialEq)]
pub struct Entry {
    pub name: String,
    pub value: Value,
}

/// Text order: lexicographic by character code.
pub open spec fn text_lt(a: Seq<char>, b: Seq<char>) -> bool
    decreases a.len(),
{
    if a.len() == 0 {
        b.len() > 0
    } else if b.len() == 0 {
        false
    } else if a[0] != b[0] {
        (a[0] as u32) < (b[0] as u32)
    } else {
        text_lt(a.drop_first(), b.drop_first())
    }
}

/// `text_lt` is a strict total order.
pub proof fn lemma_text_order(a: Seq<char>, b: Seq<char>, c: Seq<char>)
    ensures
        !text_lt(a, a),
        text_lt(a, b) && text_lt(b, c) ==> text_lt(a, c),
        a != b ==> text_lt(a, b) || text_lt(b, a),
        text_lt(a, b) ==> a != b,
    decreases a.len(),
{
    broadcast use vstd::utf8::char_u32_cast;

    if a.len() > 0 {
        lemma_text_order(a.drop_first(), b.drop_first(), c.drop_first());
        if b.len() > 0 && a[0] == b[0] && a.drop_first() == b.drop_first() {
            assert(a =~= b) by {
                assert forall|k: int| 0 <= k < a.len() implies a[k] == b[k] by {
                    if k > 0 {
                        assert(a.drop_first()[k - 1] == b.drop_first()[k - 1]);
                    }
                }
            }
        }
        if b.len() > 0 && a[0] != b[0] {
            assert((a[0] as u32) != (b[0] as u32)) by {
                if (a[0] as u32) == (b[0] as u32) {
                    vstd::utf8::char_u32_cast(a[0], a[0] as u32);
                    vstd::utf8::char_u32_cast(b[0], b[0] as u32);
                }
            }
        }
    } else if b.len() == 0 {
        assert(a =~= b);
    }
}

/// Every name in `es` sorts before the names after it.
pub open spec fn sorted_names(es: Seq<Entry>) -> bool {
    forall|i: int, j: int| 0 <= i < j < es.len() ==> text_lt(#[trigger] es[i].name@, #[trigger] es[j].name@)
}

/// The value the given name-value pairs give `name`: that of its last pair.
pub open spec fn field_value<'a>(fields: Seq<(&'a str, Value)>, name: Seq<char>) -> Option<Value>
    decreases fields.len(),
{
    if fields.len() == 0 {
        None
    } else if fields.last().0@ == name {
        Some(fields.last().1)
    } else {
        field_value(fields.drop_last(), name)
    }
}

proof fn lemma_lookup_sorted(es: Seq<Entry>, name: Seq<char>)
    requires
        sorted_names(es),
    ensures
        forall|i: int| 0 <= i < es.len() && (#[trigger] es[i]).name@ == name ==> lookup(es, name) == Some(es[i].value),
        (forall|i: int| 0 <= i < es.len() ==> (#[trigger] es[i]).name@ != name) ==> lookup(es, name) is None,
    decreases es.len(),
{
    if es.len() > 0 {
        let d = es.drop_last();
        assert(sorted_names(d)) by {
            assert forall|i: int, j: int| 0 <= i < j < d.len() implies text_lt(#[trigger] d[i].name@, #[trigger] d[j].name@) by {
                assert(d[i] == es[i] && d[j] == es[j]);
            }
        }
        lemma_lookup_sorted(d, name);
        assert forall|i: int| 0 <= i < es.len() && (#[trigger] es[i]).name@ == name implies lookup(es, name) == Some(
            es[i].value,
        ) by {
            if i < es.len() - 1 {
                assert(text_lt(es[i].name@, es[es.len() - 1].name@));
                lemma_text_order(es[i].name@, es[es.len() - 1].name@, es[i].name@);
                assert(d[i] == es[i]);
            }
        }
        if forall|i: int| 0 <= i < es.len() ==> (#[trigger] es[i]).name@ != name {
            assert(es[es.len() - 1].name@ != name);
            assert forall|i: int| 0 <= i < d.len() implies (#[trigger] d[i]).name@ != name by {
                assert(d[i] == es[i]);
            }
        }
    }
}

/// Whether `a` sorts before `b`.
fn text_less(a: &str, b: &str) -> (r: bool)
    ensures
        r == text_lt(a@, b@),
{
    let x = chars_of(a);
    let y = chars_of(b);
    let mut i: usize = 0;
    assert(a@.skip(0) =~= a@);
    assert(b@.skip(0) =~= b@);
    while i < x.len() && i < y.len() && x[i] == y[i]
        invariant
            i <= x.len(),
            i <= y.len(),
            x@ == a@,
            y@ == b@,
            text_lt(a@, b@) == text_lt(a@.skip(i as int), b@.skip(i as int)),
        decreases x.len() - i,
    {
        let ghost sa = a@.skip(i as int);
        let ghost sb = b@.skip(i as int);
        assert(sa.drop_first() =~= a@.skip(i + 1));
        assert(sb.drop_first() =~= b@.skip(i + 1));
        assert(sa[0] == sb[0]);
        i = i + 1;
    }
    let ghost sa = a@.skip(i as int);
    let ghost sb = b@.skip(i as int);
    if i == x.len() {
        assert(sa.len() == 0);
        i < y.len()
    } else if i == y.len() {
        assert(sb.len() == 0);
        false
    } else {
        assert(sa[0] == x@[i as int] && sb[0] == y@[i as int]);
        (x[i] as u32) < (y[i] as u32)
    }
}

/// Whether `a` and `b` hold the same text.
fn text_equal(a: &str, b: &str) -> (r: bool)
    ensures
        r == (a@ == b@),
{
    let x = chars_of(a);
    let y = chars_of(b);
    if x.len() != y.len() {
        return false;
    }
    let mut i: usize = 0;
    while i < x.len()
        invariant
            x.len() == y.len(),
            i <= x.len(),
            x@ == a@,
            y@ == b@,
            forall|k: int| 0 <= k < i ==> x@[k] == y@[k],
        decreases x.len() - i,
    {
        if x[i] != y[i] {
            return false;
        }
        i = i + 1;
    }
    assert(a@ =~= b@);
    true
}

impl Value {
    /// An object with the given entries, kept sorted by name with one entry
    /// per name: a name given twice keeps its last value.
    pub fn object(fields: Vec<(&str, Value)>) -> (r: Value)
        ensures
            r matches Value::Object(entries) && sorted_names(entries@) && forall|name: Seq<char>|
                #[trigger] lookup(entries@, name) == field_value(fields@, name),
    {
        let ghost orig = fields@;
        let mut entries: Vec<Entry> = Vec::new();
        proof {
            broadcast use vstd::std_specs::vec::axiom_spec_into_iter;
        }
        for item in it: fields.into_iter()
            invariant
                it.seq() == orig,
                sorted_names(entries@),
                forall|name: Seq<char>| #[trigger] lookup(entries@, name) == field_value(orig.take(it.index() as int), name),
        {
            let ghost k = it.index() as int;
            let ghost before = entries@;
            let (name, value) = item;
            proof {
                assert(orig.take(k + 1).drop_last() =~= orig.take(k));
                assert(orig.take(k + 1).last() == (name, value));
            }
            let mut p: usize = 0;
            while p < entries.len() && text_less(entries[p].name.as_str(), name)
                invariant
                    p <= entries.len(),
                    entries@ == before,
                    forall|j: int| 0 <= j < p ==> text_lt(#[trigger] entries@[j].name@, name@),
                decreases entries.len() - p,
            {
                p = p + 1;
            }
            let replace = p < entries.len() && text_equal(entries[p].name.as_str(), name);
            if replace {
                entries.set(p, Entry { name: name.to_owned(), value });
                proof {
                    assert forall|i: int, j: int| 0 <= i < j < entries@.len() implies text_lt(
                        #[trigger] entries@[i].name@,
                        #[trigger] entries@[j].name@,
                    ) by {
                        assert(entries@[i].name@ == before[i].name@);
                        assert(entries@[j].name@ == before[j].name@);
                    }
                    lemma_lookup_sorted(before, name@);
                    assert forall|nm: Seq<char>| #[trigger] lookup(entries@, nm) == field_value(orig.take(k + 1), nm) by {
                        lemma_lookup_sorted(entries@, nm);
                        lemma_lookup_sorted(before, nm);
                        if nm == name@ {
                            assert(entries@[p as int].name@ == nm);
                        } else {
                            if exists|i: int| 0 <= i < before.len() && (#[trigger] before[i]).name@ == nm {
                                let i = choose|i: int| 0 <= i < before.len() && (#[trigger] before[i]).name@ == nm;
                                assert(entries@[i] == before[i]);
                            } else {
                                assert forall|i: int| 0 <= i < entries@.len() implies (#[trigger] entries@[i]).name@ != nm by {
                                    if i != p {
                                        assert(entries@[i] == before[i]);
                                    }
                                }
                            }
                        }
                    }
                }
            } else {
                entries.insert(p, Entry { name: name.to_owned(), value });
                proof {
                    if p < before.len() {
                        lemma_text_order(before[p as int].name@, name@, name@);
                    }
                    assert forall|i: int, j: int| 0 <= i < j < entries@.len() implies text_lt(
                        #[trigger] entries@[i].name@,
                        #[trigger] entries@[j].name@,
                    ) by {
                        if j < p {
                            assert(entries@[i] == before[i] && entries@[j] == before[j]);
                        } else if j == p {
                            assert(entries@[i] == before[i]);
                        } else if i < p {
                            assert(entries@[i] == before[i] && entries@[j] == before[j - 1]);
                            lemma_text_order(before[i].name@, name@, before[p as int].name@);
                            if j - 1 > p {
                                assert(text_lt(before[p as int].name@, before[j - 1].name@));
                            }
                            lemma_text_order(name@, before[p as int].name@, before[j - 1].name@);
                            lemma_text_order(before[i].name@, name@, before[j - 1].name@);
                        } else if i == p {
                            assert(entries@[j] == before[j - 1]);
                            if j - 1 > p {
                                assert(text_lt(before[p as int].name@, before[j - 1].name@));
                            }
                            lemma_text_order(name@, before[p as int].name@, before[j - 1].name@);
                        } else {
                            assert(entries@[i] == before[i - 1] && entries@[j] == before[j - 1]);
                        }
                    }
                    assert forall|nm: Seq<char>| #[trigger] lookup(entries@, nm) == field_value(orig.take(k + 1), nm) by {
                        lemma_lookup_sorted(entries@, nm);
                        lemma_lookup_sorted(before, nm);
                        if nm == name@ {
                            assert(entries@[p as int].name@ == nm);
                            assert forall|i: int| 0 <= i < before.len() implies (#[trigger] before[i]).name@ != nm by {
                                if i < p {
                                    lemma_text_order(before[i].name@, nm, nm);
                                } else {
                                    if i > p {
                                        assert(text_lt(before[p as int].name@, before[i].name@));
                                        lemma_text_order(nm, before[p as int].name@, before[i].name@);
                                    }
                                    lemma_text_order(nm, before[i].name@, nm);
                                }
                            }
                        } else {
                            if exists|i: int| 0 <= i < before.len() && (#[trigger] before[i]).name@ == nm {
                                let i = choose|i: int| 0 <= i < before.len() && (#[trigger] before[i]).name@ == nm;
                                if i < p {
                                    assert(entries@[i] == before[i]);
                                } else {
                                    assert(entries@[i + 1] == before[i]);
                                }
                            } else {
                                assert forall|i: int| 0 <= i < entries@.len() implies (#[trigger] entries@[i]).name@ != nm by {
                                    if i < p {
                                        assert(entries@[i] == before[i]);
                                    } else if i > p {
                                        assert(entries@[i] == before[i - 1]);
                                    }
                                }
                            }
                        }
                    }
                }
            }
        }
        proof {
            assert(orig.take(orig.len() as int) =~= orig);
        }
        Value::Object(entries)
    }

    /// A list of the given values.
    pub fn list(values: Vec<Value>) -> (r: Value)
        ensures
            r == Value::List(values),
    {
        Value::List(values)
    }
}

/// The type a field must have; a list type constrains every element.
#[derive(Debug, PartialEq, Eq)]
pub enum ValueType {
    Bool,
    Int,
    Float,
    Text,
    List(Box<ValueType>),
}

/// A field of an object schema, with its constraints.
#[derive(Debug, Clone, PartialEq, Eq)]
pub struct Field {
    pub name: String,
    pub value_type: ValueType,
    pub required: bool,
    pub min_len: Option<usize>,
    pub min_number: Option<i64>,
    pub max_number: Option<i64>,
}

impl Field {
    /// A field that must be present.
    pub fn required(name: &str, value_type: ValueType) -> (r: Field)
        ensures
            r.name@ == name@,
            r.value_type == value_type,
            r.required,
            r.min_len is None,
            r.min_number is None,
            r.max_number is None,
    {
        Field { name: name.to_owned(), value_type, required: true, min_len: None, min_number: None, max_number: None }
    }

    /// A field that may be absent or null.
    pub fn optional(name: &str, value_type: ValueType) -> (r: Field)
        ensures
            r.name@ == name@,
            r.value_type == value_type,
            !r.required,
            r.min_len is None,
            r.min_number is None,
            r.max_number is None,
    {
        Field { required: false, ..Self::required(name, value_type) }
    }

    /// The same field with a minimum text length in bytes.
    pub fn min_len(self, min_len: usize) -> (r: Field)
        ensures
            r == (Field { min_len: Some(min_len), ..self }),
    {
        let mut f = self;
        f.min_len = Some(min_len);
        f
    }

    /// The same field with an inclusive range for integers.
    pub fn number_range(self, min: i64, max: i64) -> (r: Field)
        ensures
            r == (Field { min_number: Some(min), max_number: Some(max), ..self }),
    {
        let mut f = self;
        f.min_number = Some(min);
        f.max_number = Some(max);
        f
    }
}

/// Why a value does not meet a schema.
#[derive(Debug, Clone, PartialEq)]
pub enum ValidationError {
    RootNotObject,
    MissingField(String),
    TypeMismatch { field: String, expected: ValueType, actual: &'static str },
    MinLength { field: String, min: usize, actual: usize },
    NumberTooSmall { field: String, min: i64, actual: i64 },
    NumberTooLarge { field: String, max: i64, actual: i64 },
}

/// How `Debug` writes a value type.
pub open spec fn type_text(t: ValueType) -> Seq<char>
    decreases t,
{
    match t {
        ValueType::Bool => "Bool"@,
        ValueType::Int => "Int"@,
        ValueType::Float => "Float"@,
        ValueType::Text => "Text"@,
        ValueType::List(inner) => "List("@ + type_text(*inner) + ")"@,
    }
}

fn push_type(out: &mut Vec<char>, t: &ValueType)
    ensures
        final(out)@ == old(out)@ + type_text(*t),
    decreases t,
{
    match t {
        ValueType::Bool => push_str(out, "Bool"),
        ValueType::Int => push_str(out, "Int"),
        ValueType::Float => push_str(out, "Float"),
        ValueType::Text => push_str(out, "Text"),
        ValueType::List(inner) => {
            push_str(out, "List(");
            push_type(out, inner);
            push_str(out, ")");
            assert(out@ =~= old(out)@ + type_text(*t));
        },
    }
}

/// The description of an error, as its `Display` text reads.
pub open spec fn validation_message(e: ValidationError) -> Seq<char> {
    match e {
        ValidationError::RootNotObject => "root value must be an object"@,
        ValidationError::MissingField(f) => "missing required field: "@ + f@,
        ValidationError::TypeMismatch { field, expected, actual } => "field "@ + field@ + " expected "@ + type_text(
            expected,
        ) + ", received "@ + actual@,
        ValidationError::MinLength { field, min, actual } => "field "@ + field@ + " length "@ + decimal_text(
            actual as nat,
        ) + " is below minimum "@ + decimal_text(min as nat),
        ValidationError::NumberTooSmall { field, min, actual } => "field "@ + field@ + " value "@ + signed_text(
            actual as int,
        ) + " is below minimum "@ + signed_text(min as int),
        ValidationError::NumberTooLarge { field, max, actual } => "field "@ + field@ + " value "@ + signed_text(
            actual as int,
        ) + " is above maximum "@ + signed_text(max as int),
    }
}

impl ValidationError {
    /// Human-readable description of the error.
    pub fn message(&self) -> (r: String)
        ensures
            r@ == validation_message(*self),
    {
        let mut out: Vec<char> = Vec::new();
        match self {
            ValidationError::RootNotObject => push_str(&mut out, "root value must be an object"),
            ValidationError::MissingField(f) => {
                push_str(&mut out, "missing required field: ");
                push_str(&mut out, f.as_str());
            },
            ValidationError::TypeMismatch { field, expected, actual } => {
                push_str(&mut out, "field ");
                push_str(&mut out, field.as_str());
                push_str(&mut out, " expected ");
                push_type(&mut out, expected);
                push_str(&mut out, ", received ");
                push_str(&mut out, actual);
            },
            ValidationError::MinLength { field, min, actual } => {
                push_str(&mut out, "field ");
                push_str(&mut out, field.as_str());
                push_str(&mut out, " length ");
                push_decimal(&mut out, *actual as u128);
                push_str(&mut out, " is below minimum ");
                push_decimal(&mut out, *min as u128);
            },
            ValidationError::NumberTooSmall { field, min, actual } => {
                push_str(&mut out, "field ");
                push_str(&mut out, field.as_str());
                push_str(&mut out, " value ");
                push_signed(&mut out, *actual as i128);
                push_str(&mut out, " is below minimum ");
                push_signed(&mut out, *min as i128);
            },
            ValidationError::NumberTooLarge { field, max, actual } => {
                push_str(&mut out, "field ");
                push_str(&mut out, field.as_str());
                push_str(&mut out, " value ");
                push_signed(&mut out, *actual as i128);
                push_str(&mut out, " is above maximum ");
                push_signed(&mut out, *max as i128);
            },
        }
        proof {
            assert(out@ =~= validation_message(*self));
        }
        string_from_chars(&out)
    }
}

/// The name of a value's kind.
pub open spec fn kind_name_spec(v: Value) -> Seq<char> {
    match v {
        Value::Null => "null"@,
        Value::Bool(_) => "bool"@,
        Value::Int(_) => "int"@,
        Value::Float(_) => "float"@,
        Value::Text(_) => "text"@,
        Value::List(_) => "list"@,
        Value::Object(_) => "object"@,
    }
}

fn kind_name(v: &Value) -> (r: &'static str)
    ensures
        r@ == kind_name_spec(*v),
{
    match v {
        Value::Null => "null",
        Value::Bool(_) => "bool",
        Value::Int(_) => "int",
        Value::Float(_) => "float",
        Value::Text(_) => "text",
        Value::List(_) => "list",
        Value::Object(_) => "object",
    }
}

/// Where `v` first fails the type `t`: the type expected there and the value
/// found; an integer is accepted as a float, and a list is checked element by
/// element in order.
pub open spec fn type_error(t: ValueType, v: Value) -> Option<(ValueType, Value)>
    decreases v, 0int,
{
    match v {
        Value::Bool(_) => if t == ValueType::Bool {
            None
        } else {
            Some((t, v))
        },
        Value::Int(_) => if t == ValueType::Int || t == ValueType::Float {
            None
        } else {
            Some((t, v))
        },
        Value::Float(_) => if t == ValueType::Float {
            None
        } else {
            Some((t, v))
        },
        Value::Text(_) => if t == ValueType::Text {
            None
        } else {
            Some((t, v))
        },
        Value::List(vals) => match t {
            ValueType::List(inner) => list_error(*inner, vals@, 0),
            _ => Some((t, v)),
        },
        _ => Some((t, v)),
    }
}

/// A value passes a type check only if it is of that type: only booleans
/// pass `Bool`, only integers `Int`, only text `Text`, only lists `List`, and
/// only integers or floats `Float`. A float fails every type but `Float`,
/// and the failure names the expected type and the float itself.
pub proof fn lemma_accepted_values_have_their_type(t: ValueType, v: Value)
    ensures
        type_error(t, v) is None ==> match t {
            ValueType::Bool => v is Bool,
            ValueType::Int => v is Int,
            ValueType::Float => v is Int || v is Float,
            ValueType::Text => v is Text,
            ValueType::List(_) => v is List,
        },
        (v is Float && t != ValueType::Float) ==> type_error(t, v) == Some((t, v)),
        (v is Int && (t == ValueType::Int || t == ValueType::Float)) ==> type_error(t, v) is None,
{
}

/// A list passes a list type exactly when each of its elements passes the
/// element type; when one fails, the failure is the first failing
/// element's.
pub proof fn lemma_list_elements_checked(inner: ValueType, vals: Seq<Value>, k: int)
    requires
        0 <= k <= vals.len(),
    ensures
        list_error(inner, vals, k) is None <==> forall|m: int| k <= m < vals.len() ==> (#[trigger] type_error(inner, vals[m])) is None,
        list_error(inner, vals, k) matches Some(e) ==> exists|m: int|
            k <= m < vals.len() && type_error(inner, vals[m]) == Some(e) && forall|p: int|
                k <= p < m ==> (#[trigger] type_error(inner, vals[p])) is None,
    decreases vals.len() - k,
{
    if k < vals.len() {
        lemma_list_elements_checked(inner, vals, k + 1);
        if type_error(inner, vals[k]) is None {
            if let Some(e) = list_error(inner, vals, k + 1) {
                let m = choose|m: int|
                    k + 1 <= m < vals.len() && type_error(inner, vals[m]) == Some(e) && forall|p: int|
                        k + 1 <= p < m ==> (#[trigger] type_error(inner, vals[p])) is None;
                assert(forall|p: int| k <= p < m ==> (#[trigger] type_error(inner, vals[p])) is None);
            }
        } else {
            assert(forall|p: int| k <= p < k ==> (#[trigger] type_error(inner, vals[p])) is None);
        }
    }
}

/// A field of type `Int` whose value is a float is reported as a type
/// mismatch that names the field, expects `Int` and found a `"float"`.
pub proof fn lemma_float_for_int_field(f: Field, entries: Seq<Entry>, e: Option<ValidationError>, x: u64)
    requires
        field_result(f, entries, e),
        lookup(entries, f.name@) == Some(Value::Float(x)),
        f.value_type == ValueType::Int,
    ensures
        e matches Some(ValidationError::TypeMismatch { field, expected, actual }) && field@ == f.name@ && expected
            == ValueType::Int && actual@ == "float"@,
{
    lemma_accepted_values_have_their_type(f.value_type, Value::Float(x));
}

/// Where the elements of `vals` from position `k` on first fail the type `t`.
pub open spec fn list_error(t: ValueType, vals: Seq<Value>, k: int) -> Option<(ValueType, Value)>
    decreases vals, vals.len() - k,
{
    if k < 0 || k >= vals.len() {
        None
    } else {
        match type_error(t, vals[k]) {
            Some(e) => Some(e),
            None => list_error(t, vals, k + 1),
        }
    }
}

impl Clone for ValueType {
    fn clone(&self) -> (r: Self)
        ensures
            r == *self,
    {
        copy_type(self)
    }
}

fn copy_type(t: &ValueType) -> (r: ValueType)
    ensures
        r == *t,
    decreases t,
{
    match t {
        ValueType::Bool => ValueType::Bool,
        ValueType::Int => ValueType::Int,
        ValueType::Float => ValueType::Float,
        ValueType::Text => ValueType::Text,
        ValueType::List(inner) => ValueType::List(Box::new(copy_type(inner))),
    }
}

/// The first type mismatch inside `v`, as described by `type_error`.
fn check_type(t: &ValueType, v: &Value) -> (r: Option<(ValueType, &'static str)>)
    ensures
        match type_error(*t, *v) {
            None => r is None,
            Some((et, ev)) => r matches Some((rt, name)) && rt == et && name@ == kind_name_spec(ev),
        },
    decreases v, 0int,
{
    let ok = match v {
        Value::Bool(_) => matches!(t, ValueType::Bool),
        Value::Int(_) => matches!(t, ValueType::Int) || matches!(t, ValueType::Float),
        Value::Float(_) => matches!(t, ValueType::Float),
        Value::Text(_) => matches!(t, ValueType::Text),
        Value::List(vals) => match t {
            ValueType::List(inner) => {
                return check_list(inner, vals, 0);
            },
            _ => false,
        },
        _ => false,
    };
    if ok {
        None
    } else {
        Some((copy_type(t), kind_name(v)))
    }
}

fn check_list(t: &ValueType, vals: &Vec<Value>, k: usize) -> (r: Option<(ValueType, &'static str)>)
    requires
        k <= vals.len(),
    ensures
        match list_error(*t, vals@, k as int) {
            None => r is None,
            Some((et, ev)) => r matches Some((rt, name)) && rt == et && name@ == kind_name_spec(ev),
        },
    decreases vals@, vals.len() - k,
{
    if k >= vals.len() {
        return None;
    }
    match check_type(t, &vals[k]) {
        Some(e) => Some(e),
        None => check_list(t, vals, k + 1),
    }
}

/// The length of a text in UTF-8 bytes, as `str::len` counts it.
pub open spec fn text_len(s: Seq<char>) -> nat {
    encode_utf8(s).len()
}

/// What checking `v` against the length and range constraints of `f` reports:
/// a text shorter than the minimum length, then an integer below the minimum,
/// then one above the maximum; `None` when all hold.
pub open spec fn constraint_result(f: Field, v: Value, e: Option<ValidationError>) -> bool {
    match v {
        Value::Text(t) => match f.min_len {
            Some(min) => if text_len(t@) < min {
                e matches Some(ValidationError::MinLength { field, min: m, actual }) && field@ == f.name@ && m == min
                    && actual == text_len(t@)
            } else {
                e is None
            },
            None => e is None,
        },
        Value::Int(x) => if (match f.min_number {
            Some(m) => x < m,
            None => false,
        }) {
            e matches Some(ValidationError::NumberTooSmall { field, min, actual }) && field@ == f.name@ && f.min_number
                == Some(min) && actual == x
        } else if (match f.max_number {
            Some(m) => x > m,
            None => false,
        }) {
            e matches Some(ValidationError::NumberTooLarge { field, max, actual }) && field@ == f.name@ && f.max_number
                == Some(max) && actual == x
        } else {
            e is None
        },
        _ => e is None,
    }
}

fn check_constraints(f: &Field, v: &Value) -> (r: Option<ValidationError>)
    ensures
        constraint_result(*f, *v, r),
{
    match v {
        Value::Text(t) => {
            match f.min_len {
                Some(min) => {
                    let len = t.as_str().as_bytes().len();
                    if len < min {
                        return Some(ValidationError::MinLength { field: f.name.clone(), min, actual: len });
                    }
                },
                None => {},
            }
            None
        },
        Value::Int(x) => {
            match f.min_number {
                Some(min) => {
                    if *x < min {
                        return Some(ValidationError::NumberTooSmall { field: f.name.clone(), min, actual: *x });
                    }
                },
                None => {},
            }
            match f.max_number {
                Some(max) => {
                    if *x > max {
                        return Some(ValidationError::NumberTooLarge { field: f.name.clone(), max, actual: *x });
                    }
                },
                None => {},
            }
            None
        },
        _ => None,
    }
}

/// The value an object's entries give for `name`: that of its last entry with
/// that name.
pub open spec fn lookup(entries: Seq<Entry>, name: Seq<char>) -> Option<Value>
    decreases entries.len(),
{
    if entries.len() == 0 {
        None
    } else if entries.last().name@ == name {
        Some(entries.last().value)
    } else {
        lookup(entries.drop_last(), name)
    }
}

fn find_entry<'a>(entries: &'a Vec<Entry>, name: &String) -> (r: Option<&'a Value>)
    ensures
        match lookup(entries@, name@) {
            Some(v) => r matches Some(x) && *x == v,
            None => r is None,
        },
{
    let mut i = entries.len();
    assert(entries@.take(i as int) =~= entries@);
    while i > 0
        invariant
            i <= entries.len(),
            lookup(entries@, name@) == lookup(entries@.take(i as int), name@),
        decreases i,
    {
        let ghost t = entries@.take(i as int);
        assert(t.drop_last() =~= entries@.take(i - 1));
        if entries[i - 1].name.eq(name) {
            return Some(&entries[i - 1].value);
        }
        i = i - 1;
    }
    None
}

/// What checking field `f` of an object with these entries reports: a
/// required field that is missing; nothing for an absent or null optional
/// field; else the first type mismatch, then the first broken constraint.
pub open spec fn field_result(f: Field, entries: Seq<Entry>, e: Option<ValidationError>) -> bool {
    match lookup(entries, f.name@) {
        None => if f.required {
            e matches Some(ValidationError::MissingField(n)) && n@ == f.name@
        } else {
            e is None
        },
        Some(v) => if v is Null && !f.required {
            e is None
        } else {
            match type_error(f.value_type, v) {
                Some((et, ev)) => e matches Some(ValidationError::TypeMismatch { field, expected, actual })
                    && field@ == f.name@ && expected == et && actual@ == kind_name_spec(ev),
                None => constraint_result(f, v, e),
            }
        },
    }
}

fn check_field(f: &Field, entries: &Vec<Entry>) -> (r: Option<ValidationError>)
    ensures
        field_result(*f, entries@, r),
{
    match find_entry(entries, &f.name) {
        None => {
            if f.required {
                Some(ValidationError::MissingField(f.name.clone()))
            } else {
                None
            }
        },
        Some(v) => {
            if matches!(v, Value::Null) && !f.required {
                return None;
            }
            match check_type(&f.value_type, v) {
                Some((expected, actual)) => Some(
                    ValidationError::TypeMismatch { field: f.name.clone(), expected, actual },
                ),
                None => check_constraints(f, v),
            }
        },
    }
}

/// An object schema: the fields it checks, in order.
#[derive(Debug, Clone, PartialEq, Eq)]
pub struct Schema {
    fields: Vec<Field>,
}

/// What validating `v` against `fields` reports: a value that is not an
/// object, else the first field that fails; `None` when all pass.
pub open spec fn validation_result(fields: Seq<Field>, v: Value, e: Option<ValidationError>) -> bool {
    match v {
        Value::Object(entries) => match first_from(
            0,
            fields.len() as int,
            |i: int| !field_result(fields[i], entries@, None),
        ) {
            Some(i) => e is Some && field_result(fields[i], entries@, e),
            None => e is None,
        },
        _ => e == Some(ValidationError::RootNotObject),
    }
}

/// An object that passed validation, borrowed from the validated value.
#[derive(Debug, Clone, Copy)]
pub struct ValidatedObject<'a> {
    object: &'a Vec<Entry>,
}

impl<'a> ValidatedObject<'a> {
    /// The entries of the validated object.
    pub closed spec fn entries(self) -> Seq<Entry> {
        self.object@
    }

    /// The value of the entry named `name`, if any.
    pub fn get(&self, name: &str) -> (r: Option<&Value>)
        ensures
            match lookup(self.entries(), name@) {
                Some(v) => r matches Some(x) && *x == v,
                None => r is None,
            },
    {
        let key = name.to_owned();
        find_entry(self.object, &key)
    }
}

/// `r` reports validating `v` against `fields`.
pub open spec fn validated(fields: Seq<Field>, v: Value, r: Result<ValidatedObject, ValidationError>) -> bool {
    match r {
        Ok(o) => validation_result(fields, v, None) && (v matches Value::Object(es) && o.entries() == es@),
        Err(e) => validation_result(fields, v, Some(e)),
    }
}

/// Every field that a successful validation checked holds a value of the
/// field's type: a present, non-null value of an `Int` field is an integer
/// (never a float), and so on for each type.
pub proof fn lemma_validated_fields_have_their_types<'a>(
    fields: Seq<Field>,
    v: Value,
    r: Result<ValidatedObject<'a>, ValidationError>,
    k: int,
    x: Value,
)
    requires
        validated(fields, v, r),
        r is Ok,
        0 <= k < fields.len(),
        v matches Value::Object(es) && lookup(es@, fields[k].name@) == Some(x),
        !(x is Null && !fields[k].required),
    ensures
        type_error(fields[k].value_type, x) is None,
        match fields[k].value_type {
            ValueType::Bool => x is Bool,
            ValueType::Int => x is Int,
            ValueType::Float => x is Int || x is Float,
            ValueType::Text => x is Text,
            ValueType::List(_) => x is List,
        },
{
    let es = v->Object_0;
    let p = |i: int| !field_result(fields[i], es@, None);
    lemma_first_from(0, fields.len() as int, p);
    assert(!p(k));
    assert(field_result(fields[k], es@, None));
    lemma_accepted_values_have_their_type(fields[k].value_type, x);
}

impl Schema {
    pub closed spec fn fields_spec(self) -> Seq<Field> {
        self.fields@
    }

    /// A schema checking these fields in order.
    pub fn new(fields: Vec<Field>) -> (r: Schema)
        ensures
            r.fields_spec() == fields@,
    {
        Schema { fields }
    }

    /// Check that `value` is an object and that each field, in order, is
    /// present when required, of its type, and within its constraints.
    pub fn validate<'a>(&self, value: &'a Value) -> (r: Result<ValidatedObject<'a>, ValidationError>)
        ensures
            validated(self.fields_spec(), *value, r),
    {
        let entries = match value {
            Value::Object(entries) => entries,
            _ => return Err(ValidationError::RootNotObject),
        };
        let ghost fs = self.fields@;
        let ghost p = |i: int| !field_result(fs[i], entries@, None);
        proof {
            lemma_first_from(0, fs.len() as int, p);
        }
        let mut i: usize = 0;
        while i < self.fields.len()
            invariant
                i <= self.fields.len(),
                fs == self.fields@,
                *value == Value::Object(*entries),
                p == (|i: int| !field_result(fs[i], entries@, None)),
                first_from(0, fs.len() as int, p) == first_from(i as int, fs.len() as int, p),
            decreases self.fields.len() - i,
        {
            match check_field(&self.fields[i], entries) {
                Some(e) => {
                    assert(p(i as int));
                    assert(first_from(i as int, fs.len() as int, p) == Some(i as int));
                    assert(field_result(fs[i as int], entries@, Some(e)));
                    assert(*value == Value::Object(*entries));
                    assert(validation_result(fs, Value::Object(*entries), Some(e)));
                    return Err(e);
                },
                None => {},
            }
            i = i + 1;
        }
        Ok(ValidatedObject { object: entries })
    }

    /// Validate each value in order, stopping at the first that fails.
    pub fn validate_many<'a>(&self, values: &'a [Value]) -> (r: Result<Vec<ValidatedObject<'a>>, ValidationError>)
        ensures
            match first_from(0, values@.len() as int, |i: int| !validation_result(self.fields_spec(), values@[i], None)) {
                Some(i) => r matches Err(e) && validation_result(self.fields_spec(), values@[i], Some(e)),
                None => r matches Ok(v) && v@.len() == values@.len() && forall|i: int|
                    0 <= i < values@.len() ==> validated(self.fields_spec(), values@[i], Ok(#[trigger] v@[i])),
            },
    {
        let ghost p = |i: int| !validation_result(self.fields_spec(), values@[i], None);
        proof {
            lemma_first_from(0, values@.len() as int, p);
        }
        let mut out: Vec<ValidatedObject<'a>> = Vec::new();
        let mut i: usize = 0;
        while i < values.len()
            invariant
                i <= values.len(),
                out@.len() == i,
                p == (|i: int| !validation_result(self.fields_spec(), values@[i], None)),
                first_from(0, values@.len() as int, p) == first_from(i as int, values@.len() as int, p),
                forall|k: int| 0 <= k < i ==> validated(self.fields_spec(), values@[k], Ok(#[trigger] out@[k])),
            decreases values.len() - i,
        {
            match self.validate(&values[i]) {
                Ok(o) => out.push(o),
                Err(e) => {
                    assert(p(i as int));
                    return Err(e);
                },
            }
            i = i + 1;
        }
        Ok(out)
    }
}

/// The median of non-empty timing samples, as [`crate::timing::median_duration`]
/// computes it.
pub fn median_duration(samples: Vec<Duration>) -> (r: Duration)
    requires
        samples.len() > 0,
    ensures
        is_median_sample(samples@, r),
{
    timing::median_duration(samples)
}

} // verus!
