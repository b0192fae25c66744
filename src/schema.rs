//! The data model: field schemas, raw and decoded values, decode options.
use vstd::prelude::*;

verus! {

/// The natural type of a plain scalar field.
#[derive(Clone, Copy, Debug, PartialEq, Eq, Structural)]
pub enum ScalarType {
    Int,
    Bool,
    Text,
}

/// One scalar as a field source offers it.
#[derive(Debug, PartialEq, Eq)]
pub enum Scalar {
    Int(i64),
    Bool(bool),
    Text(String),
}

impl Scalar {
    /// Whether this scalar can be read as a value of type `ty`.
    pub open spec fn has_type(self, ty: ScalarType) -> bool {
        match self {
            Scalar::Int(_) => ty == ScalarType::Int,
            Scalar::Bool(_) => ty == ScalarType::Bool,
            Scalar::Text(_) => ty == ScalarType::Text,
        }
    }

    pub fn is_of_type(&self, ty: ScalarType) -> (r: bool)
        ensures
            r == self.has_type(ty),
    {
        match self {
            Scalar::Int(_) => ty == ScalarType::Int,
            Scalar::Bool(_) => ty == ScalarType::Bool,
            Scalar::Text(_) => ty == ScalarType::Text,
        }
    }

    pub fn copy(&self) -> (r: Scalar)
        ensures
            r == *self,
    {
        match self {
            Scalar::Int(n) => Scalar::Int(*n),
            Scalar::Bool(b) => Scalar::Bool(*b),
            Scalar::Text(s) => Scalar::Text(s.clone()),
        }
    }
}

/// Every scalar of `ss` has type `ty`.
pub open spec fn all_have_type(ss: Seq<Scalar>, ty: ScalarType) -> bool {
    forall|i: int| 0 <= i < ss.len() ==> (#[trigger] ss[i]).has_type(ty)
}

/// Whether every scalar of `v` has type `ty`.
pub fn all_of_type(v: &Vec<Scalar>, ty: ScalarType) -> (r: bool)
    ensures
        r == all_have_type(v@, ty),
{
    let mut i: usize = 0;
    while i < v.len()
        invariant
            i <= v@.len(),
            forall|j: int| 0 <= j < i ==> (#[trigger] v@[j]).has_type(ty),
        decreases v@.len() - i,
    {
        if !v[i].is_of_type(ty) {
            return false;
        }
        i = i + 1;
    }
    true
}

/// A copy of a sequence of scalars, element for element.
pub fn copy_scalars(v: &Vec<Scalar>) -> (r: Vec<Scalar>)
    ensures
        r@ == v@,
{
    let mut r: Vec<Scalar> = Vec::new();
    let mut i: usize = 0;
    while i < v.len()
        invariant
            i <= v@.len(),
            r@ == v@.take(i as int),
        decreases v@.len() - i,
    {
        r.push(v[i].copy());
        i = i + 1;
        assert(r@ =~= v@.take(i as int));
    }
    assert(r@ =~= v@);
    r
}

/// A raw value: what a field source holds under one key. `Unsupported`
/// stands for a value of no shape that a field can read (a nested map, a
/// null, a number that is not an integer).
#[derive(Debug)]
pub enum RawValue {
    One(Scalar),
    Many(Vec<Scalar>),
    Unsupported,
}

/// The mathematical view of a raw value.
pub enum RawView {
    One(Scalar),
    Many(Seq<Scalar>),
    Unsupported,
}

impl View for RawValue {
    type V = RawView;

    open spec fn view(&self) -> RawView {
        match self {
            RawValue::One(s) => RawView::One(*s),
            RawValue::Many(v) => RawView::Many(v@),
            RawValue::Unsupported => RawView::Unsupported,
        }
    }
}

/// One key/value pair of a field source.
#[derive(Debug)]
pub struct Entry {
    pub key: String,
    pub value: RawValue,
}

/// The decoded value of one field.
#[derive(Debug, PartialEq, Eq)]
pub enum Value {
    Scalar(Scalar),
    Scalars(Vec<Scalar>),
    Code(i32),
    Codes(Vec<i32>),
    Bytes(Vec<u8>),
    BytesList(Vec<Vec<u8>>),
}

/// The mathematical view of a decoded value.
pub enum ValueView {
    Scalar(Scalar),
    Scalars(Seq<Scalar>),
    Code(i32),
    Codes(Seq<i32>),
    Bytes(Seq<u8>),
    BytesList(Seq<Seq<u8>>),
}

pub open spec fn bytes_views(v: Seq<Vec<u8>>) -> Seq<Seq<u8>> {
    v.map_values(|b: Vec<u8>| b@)
}

impl View for Value {
    type V = ValueView;

    open spec fn view(&self) -> ValueView {
        match self {
            Value::Scalar(s) => ValueView::Scalar(*s),
            Value::Scalars(v) => ValueView::Scalars(v@),
            Value::Code(c) => ValueView::Code(*c),
            Value::Codes(v) => ValueView::Codes(v@),
            Value::Bytes(b) => ValueView::Bytes(b@),
            Value::BytesList(v) => ValueView::BytesList(bytes_views(v@)),
        }
    }
}

pub fn copy_bytes(b: &Vec<u8>) -> (r: Vec<u8>)
    ensures
        r@ == b@,
{
    let mut r: Vec<u8> = Vec::new();
    let mut i: usize = 0;
    while i < b.len()
        invariant
            i <= b@.len(),
            r@ == b@.take(i as int),
        decreases b@.len() - i,
    {
        r.push(b[i]);
        i = i + 1;
        assert(r@ =~= b@.take(i as int));
    }
    assert(r@ =~= b@);
    r
}

impl Value {
    pub fn copy(&self) -> (r: Value)
        ensures
            r@ == self@,
    {
        match self {
            Value::Scalar(s) => Value::Scalar(s.copy()),
            Value::Scalars(v) => Value::Scalars(copy_scalars(v)),
            Value::Code(c) => Value::Code(*c),
            Value::Codes(v) => Value::Codes(copy_codes(v)),
            Value::Bytes(b) => Value::Bytes(copy_bytes(b)),
            Value::BytesList(v) => {
                let mut r: Vec<Vec<u8>> = Vec::new();
                let mut i: usize = 0;
                while i < v.len()
                    invariant
                        i <= v@.len(),
                        r@.len() == i,
                        forall|j: int| 0 <= j < i ==> #[trigger] r@[j]@ == v@[j]@,
                    decreases v@.len() - i,
                {
                    r.push(copy_bytes(&v[i]));
                    i = i + 1;
                }
                assert(bytes_views(r@) =~= bytes_views(v@));
                Value::BytesList(r)
            },
        }
    }
}

fn copy_codes(v: &Vec<i32>) -> (r: Vec<i32>)
    ensures
        r@ == v@,
{
    let mut r: Vec<i32> = Vec::new();
    let mut i: usize = 0;
    while i < v.len()
        invariant
            i <= v@.len(),
            r@ == v@.take(i as int),
        decreases v@.len() - i,
    {
        r.push(v[i]);
        i = i + 1;
        assert(r@ =~= v@.take(i as int));
    }
    assert(r@ =~= v@);
    r
}

/// Whether a field holds one value or an ordered sequence of them.
#[derive(Clone, Copy, Debug, PartialEq, Eq, Structural)]
pub enum Modifier {
    Single,
    Repeated,
}

/// One name of an enumeration and its integer code.
#[derive(Debug)]
pub struct EnumVariant {
    pub name: String,
    pub code: i32,
}

/// How the raw value of a field is turned into its decoded value.
#[derive(Debug)]
pub enum DecodeKind {
    Scalar(ScalarType),
    Enumeration(Vec<EnumVariant>),
    Bytes,
}

/// The static description of one record field.
#[derive(Debug)]
pub struct FieldSchema {
    pub name: String,
    pub kind: DecodeKind,
    pub modifier: Modifier,
    pub default: Option<Value>,
    pub lenient_on_type_error: bool,
}

/// The fields of a record, in declaration order.
#[derive(Debug)]
pub struct RecordSchema {
    pub fields: Vec<FieldSchema>,
}

/// The knobs of one decode call.
#[derive(Clone, Copy, Debug, PartialEq, Eq, Structural)]
pub struct DecodeOptions {
    pub lenient_on_type_error: bool,
    pub use_default_for_missing: bool,
    pub ignore_unknown_fields: bool,
}

/// The shape a raw value was expected to have.
#[derive(Clone, Copy, Debug, PartialEq, Eq, Structural)]
pub enum ValueShape {
    One(ScalarType),
    Many(ScalarType),
}

/// Whether a decoded value has the shape that a field of this kind and
/// modifier produces.
pub open spec fn value_fits(kind: DecodeKind, modifier: Modifier, v: ValueView) -> bool {
    match v {
        ValueView::Scalar(s) => modifier == Modifier::Single && match kind {
            DecodeKind::Scalar(ty) => s.has_type(ty),
            _ => false,
        },
        ValueView::Scalars(ss) => modifier == Modifier::Repeated && match kind {
            DecodeKind::Scalar(ty) => all_have_type(ss, ty),
            _ => false,
        },
        ValueView::Code(_) => modifier == Modifier::Single && kind is Enumeration,
        ValueView::Codes(_) => modifier == Modifier::Repeated && kind is Enumeration,
        ValueView::Bytes(_) => modifier == Modifier::Single && kind is Bytes,
        ValueView::BytesList(_) => modifier == Modifier::Repeated && kind is Bytes,
    }
}

/// No two names of an enumeration table are equal.
pub open spec fn table_names_unique(table: Seq<EnumVariant>) -> bool {
    forall|i: int, j: int|
        0 <= i < table.len() && 0 <= j < table.len() && i != j ==> table[i].name@ != table[j].name@
}

impl FieldSchema {
    /// The field's enumeration table has unique names and its default, if
    /// any, has the field's shape.
    pub open spec fn wf(self) -> bool {
        &&& match self.kind {
            DecodeKind::Enumeration(table) => table_names_unique(table@),
            _ => true,
        }
        &&& match self.default {
            Some(d) => value_fits(self.kind, self.modifier, d@),
            None => true,
        }
    }
}

impl RecordSchema {
    /// Every field is well formed and no two fields share a name.
    pub open spec fn wf(self) -> bool {
        &&& forall|i: int| 0 <= i < self.fields@.len() ==> (#[trigger] self.fields@[i]).wf()
        &&& forall|i: int, j: int|
            0 <= i < self.fields@.len() && 0 <= j < self.fields@.len() && i != j
                ==> self.fields@[i].name@ != self.fields@[j].name@
    }
}

/// Why a decode call failed. Each variant names the field (or the key) it
/// is about.
#[derive(Debug, PartialEq, Eq)]
pub enum DecodeError {
    /// A key that names no field of the schema.
    UnknownField(String),
    /// A second value for a field that already has one.
    DuplicateField(String),
    /// A raw value that cannot be read with the shape the field expects.
    TypeMismatch(String, ValueShape),
    /// A name that the field's enumeration table does not hold: the field,
    /// then the name.
    UnknownEnumVariant(String, String),
    /// A string that is not valid base64: the field, then the string.
    InvalidByteEncoding(String, String),
    /// A single field with no value and no default that applies.
    MissingField(String),
}

/// The view of a result whose success value is a `Value`.
pub open spec fn result_view(r: Result<Value, DecodeError>) -> Result<ValueView, DecodeError> {
    match r {
        Ok(v) => Ok(v@),
        Err(e) => Err(e),
    }
}

/// Whether a decoded value has the shape of a field of this kind and
/// modifier.
pub fn fits(kind: &DecodeKind, modifier: Modifier, v: &Value) -> (r: bool)
    ensures
        r == value_fits(*kind, modifier, v@),
{
    match (kind, modifier, v) {
        (DecodeKind::Scalar(ty), Modifier::Single, Value::Scalar(s)) => s.is_of_type(*ty),
        (DecodeKind::Scalar(ty), Modifier::Repeated, Value::Scalars(ss)) => all_of_type(ss, *ty),
        (DecodeKind::Enumeration(_), Modifier::Single, Value::Code(_)) => true,
        (DecodeKind::Enumeration(_), Modifier::Repeated, Value::Codes(_)) => true,
        (DecodeKind::Bytes, Modifier::Single, Value::Bytes(_)) => true,
        (DecodeKind::Bytes, Modifier::Repeated, Value::BytesList(_)) => true,
        _ => false,
    }
}

/// Whether no two names of the table are equal.
pub fn has_unique_names(table: &Vec<EnumVariant>) -> (r: bool)
    ensures
        r == table_names_unique(table@),
{
    let mut i: usize = 0;
    while i < table.len()
        invariant
            i <= table@.len(),
            forall|a: int, b: int| 0 <= a < i && 0 <= b < table@.len() && a != b
                ==> table@[a].name@ != table@[b].name@,
        decreases table@.len() - i,
    {
        let mut j: usize = 0;
        while j < table.len()
            invariant
                i < table@.len(),
                j <= table@.len(),
                forall|a: int, b: int| 0 <= a < i && 0 <= b < table@.len() && a != b
                    ==> table@[a].name@ != table@[b].name@,
                forall|b: int| 0 <= b < j && b != i ==> table@[i as int].name@ != table@[b].name@,
            decreases table@.len() - j,
        {
            if j != i && table[i].name == table[j].name {
                return false;
            }
            j = j + 1;
        }
        i = i + 1;
    }
    true
}

impl FieldSchema {
    /// Whether the field is well formed.
    pub fn is_well_formed(&self) -> (r: bool)
        ensures
            r == self.wf(),
    {
        let table_ok = match &self.kind {
            DecodeKind::Enumeration(table) => has_unique_names(table),
            _ => true,
        };
        let default_ok = match &self.default {
            Some(d) => fits(&self.kind, self.modifier, d),
            None => true,
        };
        table_ok && default_ok
    }
}

impl RecordSchema {
    /// Whether the schema is well formed: every field is, and no two
    /// fields share a name.
    pub fn is_well_formed(&self) -> (r: bool)
        ensures
            r == self.wf(),
    {
        let n = self.fields.len();
        let mut i: usize = 0;
        while i < n
            invariant
                n == self.fields@.len(),
                i <= n,
                forall|a: int| 0 <= a < i ==> (#[trigger] self.fields@[a]).wf(),
                forall|a: int, b: int| 0 <= a < i && 0 <= b < n && a != b
                    ==> self.fields@[a].name@ != self.fields@[b].name@,
            decreases n - i,
        {
            if !self.fields[i].is_well_formed() {
                return false;
            }
            let mut j: usize = 0;
            while j < n
                invariant
                    n == self.fields@.len(),
                    i < n,
                    j <= n,
                    forall|a: int, b: int| 0 <= a < i && 0 <= b < n && a != b
                        ==> self.fields@[a].name@ != self.fields@[b].name@,
                    forall|b: int| 0 <= b < j && b != i ==> self.fields@[i as int].name@ != self.fields@[b].name@,
                decreases n - j,
            {
                if j != i && self.fields[i].name == self.fields[j].name {
                    return false;
                }
                j = j + 1;
            }
            i = i + 1;
        }
        true
    }
}

impl Default for DecodeOptions {
    /// Every option off: strict about types, missing fields and unknown keys.
    fn default() -> (r: DecodeOptions)
        ensures
            !r.lenient_on_type_error,
            !r.use_default_for_missing,
            !r.ignore_unknown_fields,
    {
        DecodeOptions { lenient_on_type_error: false, use_default_for_missing: false, ignore_unknown_fields: false }
    }
}

} // verus!
