use vstd::prelude::*;
use smol_str::SmolStr;
use crate::text::{smol_new, smol_text};

verus! {

/// A primitive value. `Null` stands for the absence of a value: a mark whose
/// value is `Null` removes a mark.
#[derive(Debug)]
pub enum ScalarValue {
    Bytes(Vec<u8>),
    Str(SmolStr),
    Int(i64),
    Uint(u64),
    Counter(i64),
    Timestamp(i64),
    Boolean(bool),
    Unknown { type_code: u8, bytes: Vec<u8> },
    Null,
}

/// What a `ScalarValue` holds.
pub ghost enum ScalarView {
    Bytes(Seq<u8>),
    Str(Seq<char>),
    Int(i64),
    Uint(u64),
    Counter(i64),
    Timestamp(i64),
    Boolean(bool),
    Unknown { type_code: u8, bytes: Seq<u8> },
    Null,
}

impl View for ScalarValue {
    type V = ScalarView;

    open spec fn view(&self) -> ScalarView {
        match self {
            ScalarValue::Bytes(b) => ScalarView::Bytes(b@),
            ScalarValue::Str(s) => ScalarView::Str(smol_text(*s)),
            ScalarValue::Int(i) => ScalarView::Int(*i),
            ScalarValue::Uint(u) => ScalarView::Uint(*u),
            ScalarValue::Counter(c) => ScalarView::Counter(*c),
            ScalarValue::Timestamp(t) => ScalarView::Timestamp(*t),
            ScalarValue::Boolean(b) => ScalarView::Boolean(*b),
            ScalarValue::Unknown { type_code, bytes } => ScalarView::Unknown {
                type_code: *type_code,
                bytes: bytes@,
            },
            ScalarValue::Null => ScalarView::Null,
        }
    }
}

/// Whether two byte strings are equal.
fn same_bytes(a: &Vec<u8>, b: &Vec<u8>) -> (r: bool)
    ensures
        r == (a@ == b@),
{
    if a.len() != b.len() {
        return false;
    }
    let mut i: usize = 0;
    while i < a.len()
        invariant
            a.len() == b.len(),
            i <= a.len(),
            forall|j: int| 0 <= j < i ==> a@[j] == b@[j],
        decreases a.len() - i,
    {
        if a[i] != b[i] {
            return false;
        }
        i += 1;
    }
    assert(a@ =~= b@);
    true
}

impl ScalarValue {
    pub fn is_null(&self) -> (r: bool)
        ensures
            r == (self@ is Null),
    {
        matches!(self, ScalarValue::Null)
    }

    /// A string value.
    pub fn str(text: &str) -> (r: ScalarValue)
        ensures
            r@ == ScalarView::Str(text@),
    {
        ScalarValue::Str(smol_new(text))
    }

    /// Whether the two values are of the same kind and hold the same.
    pub fn same(&self, other: &ScalarValue) -> (r: bool)
        ensures
            r == (self@ == other@),
    {
        match (self, other) {
            (ScalarValue::Bytes(a), ScalarValue::Bytes(b)) => same_bytes(a, b),
            (ScalarValue::Str(a), ScalarValue::Str(b)) => a.eq(b),
            (ScalarValue::Int(a), ScalarValue::Int(b)) => *a == *b,
            (ScalarValue::Uint(a), ScalarValue::Uint(b)) => *a == *b,
            (ScalarValue::Counter(a), ScalarValue::Counter(b)) => *a == *b,
            (ScalarValue::Timestamp(a), ScalarValue::Timestamp(b)) => *a == *b,
            (ScalarValue::Boolean(a), ScalarValue::Boolean(b)) => *a == *b,
            (
                ScalarValue::Unknown { type_code: ta, bytes: a },
                ScalarValue::Unknown { type_code: tb, bytes: b },
            ) => *ta == *tb && same_bytes(a, b),
            (ScalarValue::Null, ScalarValue::Null) => true,
            _ => false,
        }
    }
}

impl Clone for ScalarValue {
    fn clone(&self) -> (r: Self)
        ensures
            r@ == self@,
    {
        match self {
            ScalarValue::Bytes(b) => ScalarValue::Bytes(b.clone()),
            ScalarValue::Str(s) => ScalarValue::Str(s.clone()),
            ScalarValue::Int(i) => ScalarValue::Int(*i),
            ScalarValue::Uint(u) => ScalarValue::Uint(*u),
            ScalarValue::Counter(c) => ScalarValue::Counter(*c),
            ScalarValue::Timestamp(t) => ScalarValue::Timestamp(*t),
            ScalarValue::Boolean(b) => ScalarValue::Boolean(*b),
            ScalarValue::Unknown { type_code, bytes } => ScalarValue::Unknown {
                type_code: *type_code,
                bytes: bytes.clone(),
            },
            ScalarValue::Null => ScalarValue::Null,
        }
    }
}

impl PartialEq for ScalarValue {
    fn eq(&self, other: &ScalarValue) -> (r: bool) {
        self.same(other)
    }
}

impl vstd::std_specs::cmp::PartialEqSpecImpl for ScalarValue {
    open spec fn obeys_eq_spec() -> bool {
        true
    }

    open spec fn eq_spec(&self, other: &ScalarValue) -> bool {
        self@ == other@
    }
}

impl From<bool> for ScalarValue {
    fn from(v: bool) -> (r: ScalarValue)
        ensures
            r@ == ScalarView::Boolean(v),
    {
        ScalarValue::Boolean(v)
    }
}

impl vstd::std_specs::convert::FromSpecImpl<bool> for ScalarValue {
    open spec fn obeys_from_spec() -> bool {
        true
    }

    open spec fn from_spec(v: bool) -> ScalarValue {
        ScalarValue::Boolean(v)
    }
}

impl From<i64> for ScalarValue {
    fn from(v: i64) -> (r: ScalarValue)
        ensures
            r@ == ScalarView::Int(v),
    {
        ScalarValue::Int(v)
    }
}

impl vstd::std_specs::convert::FromSpecImpl<i64> for ScalarValue {
    open spec fn obeys_from_spec() -> bool {
        true
    }

    open spec fn from_spec(v: i64) -> ScalarValue {
        ScalarValue::Int(v)
    }
}

impl From<u64> for ScalarValue {
    fn from(v: u64) -> (r: ScalarValue)
        ensures
            r@ == ScalarView::Uint(v),
    {
        ScalarValue::Uint(v)
    }
}

impl vstd::std_specs::convert::FromSpecImpl<u64> for ScalarValue {
    open spec fn obeys_from_spec() -> bool {
        true
    }

    open spec fn from_spec(v: u64) -> ScalarValue {
        ScalarValue::Uint(v)
    }
}

impl From<Vec<u8>> for ScalarValue {
    fn from(v: Vec<u8>) -> (r: ScalarValue)
        ensures
            r@ == ScalarView::Bytes(v@),
    {
        ScalarValue::Bytes(v)
    }
}

impl vstd::std_specs::convert::FromSpecImpl<Vec<u8>> for ScalarValue {
    open spec fn obeys_from_spec() -> bool {
        true
    }

    open spec fn from_spec(v: Vec<u8>) -> ScalarValue {
        ScalarValue::Bytes(v)
    }
}

/// A string becomes a `Str` with the same characters. Which value of the
/// string type holds them is left open, so the conversion is stated over the
/// view.
impl From<String> for ScalarValue {
    fn from(v: String) -> (r: ScalarValue)
        ensures
            r@ == ScalarView::Str(v@),
    {
        ScalarValue::str(v.as_str())
    }
}

impl vstd::std_specs::convert::FromSpecImpl<String> for ScalarValue {
    open spec fn obeys_from_spec() -> bool {
        false
    }

    open spec fn from_spec(v: String) -> ScalarValue {
        ScalarValue::Null
    }
}

impl<'a> From<&'a str> for ScalarValue {
    fn from(v: &'a str) -> (r: ScalarValue)
        ensures
            r@ == ScalarView::Str(v@),
    {
        ScalarValue::str(v)
    }
}

impl<'a> vstd::std_specs::convert::FromSpecImpl<&'a str> for ScalarValue {
    open spec fn obeys_from_spec() -> bool {
        false
    }

    open spec fn from_spec(v: &'a str) -> ScalarValue {
        ScalarValue::Null
    }
}

/// The kinds of object that a document holds.
#[derive(PartialEq, Eq, Structural, Debug, Clone, Copy, Hash)]
pub enum ObjType {
    Mapping,
    Table,
    List,
    Text,
}

/// What can be put into a document: a new object, or a primitive value.
#[derive(Debug)]
pub enum Value {
    Object(ObjType),
    Scalar(ScalarValue),
}

/// What a `Value` holds.
pub ghost enum ValueView {
    Object(ObjType),
    Scalar(ScalarView),
}

impl View for Value {
    type V = ValueView;

    open spec fn view(&self) -> ValueView {
        match self {
            Value::Object(kind) => ValueView::Object(*kind),
            Value::Scalar(scalar) => ValueView::Scalar(scalar@),
        }
    }
}

impl Clone for Value {
    fn clone(&self) -> (r: Self)
        ensures
            r@ == self@,
    {
        match self {
            Value::Object(kind) => Value::Object(*kind),
            Value::Scalar(scalar) => Value::Scalar(scalar.clone()),
        }
    }
}

impl PartialEq for Value {
    fn eq(&self, other: &Value) -> (r: bool) {
        match (self, other) {
            (Value::Object(a), Value::Object(b)) => *a == *b,
            (Value::Scalar(a), Value::Scalar(b)) => a.same(b),
            _ => false,
        }
    }
}

impl vstd::std_specs::cmp::PartialEqSpecImpl for Value {
    open spec fn obeys_eq_spec() -> bool {
        true
    }

    open spec fn eq_spec(&self, other: &Value) -> bool {
        self@ == other@
    }
}

/// What each of the values holds.
pub open spec fn value_views(values: Seq<Value>) -> Seq<ValueView> {
    values.map_values(|v: Value| v@)
}

} // verus!
