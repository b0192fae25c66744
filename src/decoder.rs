//! The value decoders: one rule per decode kind, turning the raw value of a
//! field into its decoded value.
use vstd::prelude::*;

use crate::schema::{
    copy_scalars, DecodeError, DecodeKind, EnumVariant, FieldSchema, Modifier, RawValue, RawView,
    Scalar, ScalarType, Value, ValueShape, ValueView, all_have_type, all_of_type, bytes_views,
    result_view,
};

verus! {

/// What standard base64 decoding makes of a string: the bytes, or `None`
/// where the string is not valid base64.
pub uninterp spec fn base64_decoded(s: Seq<char>) -> Option<Seq<u8>>;

/// A character of the standard base64 alphabet, padding included.
pub open spec fn is_base64_char(c: char) -> bool {
    ('A' <= c && c <= 'Z') || ('a' <= c && c <= 'z') || ('0' <= c && c <= '9') || c == '+'
        || c == '/' || c == '='
}

/// Some character of `s` is outside the standard base64 alphabet.
pub open spec fn has_non_base64_char(s: Seq<char>) -> bool {
    exists|i: int| 0 <= i < s.len() && !is_base64_char(#[trigger] s[i])
}

/// Relies on base64::decode (standard alphabet, with padding): its result
/// depends on the string alone, and a byte outside the alphabet is an error.
#[verifier::external_body]
fn base64_decode(s: &String) -> (r: Option<Vec<u8>>)
    ensures
        match r {
            Some(b) => base64_decoded(s@) == Some(b@),
            None => base64_decoded(s@) is None,
        },
        has_non_base64_char(s@) ==> r is None,
{
    base64::decode(s.as_bytes()).ok()
}

/// The text of a scalar that holds one (unspecified for other scalars).
pub open spec fn text_of(s: Scalar) -> String {
    match s {
        Scalar::Text(t) => t,
        _ => arbitrary(),
    }
}

/// The raw value read as one scalar of type `ty`.
pub open spec fn read_one(ty: ScalarType, raw: RawView) -> Option<Scalar> {
    match raw {
        RawView::One(s) => if s.has_type(ty) { Some(s) } else { None },
        _ => None,
    }
}

/// The raw value read as a sequence of scalars of type `ty`.
pub open spec fn read_many(ty: ScalarType, raw: RawView) -> Option<Seq<Scalar>> {
    match raw {
        RawView::Many(ss) => if all_have_type(ss, ty) { Some(ss) } else { None },
        _ => None,
    }
}

/// The code of the first variant of `table` named `name`.
pub open spec fn enum_lookup(table: Seq<EnumVariant>, name: Seq<char>) -> Option<i32>
    decreases table.len(),
{
    if table.len() == 0 {
        None
    } else {
        match enum_lookup(table.drop_last(), name) {
            Some(c) => Some(c),
            None => if table.last().name@ == name { Some(table.last().code) } else { None },
        }
    }
}

/// Each text of `names` looked up in `table`, in order; the first name that
/// is not there is the error.
pub open spec fn lookup_all(table: Seq<EnumVariant>, names: Seq<Scalar>) -> Result<Seq<i32>, String>
    decreases names.len(),
{
    if names.len() == 0 {
        Ok(Seq::empty())
    } else {
        match lookup_all(table, names.drop_last()) {
            Err(e) => Err(e),
            Ok(codes) => match enum_lookup(table, text_of(names.last())@) {
                Some(c) => Ok(codes.push(c)),
                None => Err(text_of(names.last())),
            },
        }
    }
}

/// Each text of `items` decoded from base64, in order; the first text that
/// is not valid base64 is the error.
pub open spec fn decode_all_base64(items: Seq<Scalar>) -> Result<Seq<Seq<u8>>, String>
    decreases items.len(),
{
    if items.len() == 0 {
        Ok(Seq::empty())
    } else {
        match decode_all_base64(items.drop_last()) {
            Err(e) => Err(e),
            Ok(bs) => match base64_decoded(text_of(items.last())@) {
                Some(b) => Ok(bs.push(b)),
                None => Err(text_of(items.last())),
            },
        }
    }
}

/// The empty sequence of the kind's element.
pub open spec fn empty_of(kind: DecodeKind) -> ValueView {
    match kind {
        DecodeKind::Scalar(_) => ValueView::Scalars(Seq::empty()),
        DecodeKind::Enumeration(_) => ValueView::Codes(Seq::empty()),
        DecodeKind::Bytes => ValueView::BytesList(Seq::empty()),
    }
}

/// The shape a field's raw value must have.
pub open spec fn expected_shape(f: FieldSchema) -> ValueShape {
    let ty = match f.kind {
        DecodeKind::Scalar(ty) => ty,
        _ => ScalarType::Text,
    };
    match f.modifier {
        Modifier::Single => ValueShape::One(ty),
        Modifier::Repeated => ValueShape::Many(ty),
    }
}

/// What a field's value is when its raw value has the wrong shape: the
/// field's default where leniency is on and a default is configured; a type
/// mismatch otherwise.
pub open spec fn type_error_outcome(f: FieldSchema, lenient: bool) -> Result<ValueView, DecodeError> {
    if lenient && f.default is Some {
        Ok(f.default.unwrap()@)
    } else {
        Err(DecodeError::TypeMismatch(f.name, expected_shape(f)))
    }
}

/// The decoded value of field `f` from the raw value `raw`.
pub open spec fn decode_field(f: FieldSchema, raw: RawView, lenient: bool) -> Result<ValueView, DecodeError> {
    match (f.kind, f.modifier) {
        (DecodeKind::Scalar(ty), Modifier::Single) => match read_one(ty, raw) {
            Some(s) => Ok(ValueView::Scalar(s)),
            None => type_error_outcome(f, lenient),
        },
        (DecodeKind::Scalar(ty), Modifier::Repeated) => match read_many(ty, raw) {
            Some(ss) => Ok(ValueView::Scalars(ss)),
            None => type_error_outcome(f, lenient),
        },
        (DecodeKind::Enumeration(table), Modifier::Single) => match read_one(ScalarType::Text, raw) {
            Some(s) => match enum_lookup(table@, text_of(s)@) {
                Some(c) => Ok(ValueView::Code(c)),
                None => Err(DecodeError::UnknownEnumVariant(f.name, text_of(s))),
            },
            None => type_error_outcome(f, lenient),
        },
        (DecodeKind::Enumeration(table), Modifier::Repeated) => match read_many(ScalarType::Text, raw) {
            Some(ss) => match lookup_all(table@, ss) {
                Ok(cs) => Ok(ValueView::Codes(cs)),
                Err(name) => Err(DecodeError::UnknownEnumVariant(f.name, name)),
            },
            None => type_error_outcome(f, lenient),
        },
        (DecodeKind::Bytes, Modifier::Single) => match read_one(ScalarType::Text, raw) {
            Some(s) => match base64_decoded(text_of(s)@) {
                Some(b) => Ok(ValueView::Bytes(b)),
                None => Err(DecodeError::InvalidByteEncoding(f.name, text_of(s))),
            },
            None => type_error_outcome(f, lenient),
        },
        (DecodeKind::Bytes, Modifier::Repeated) => match read_many(ScalarType::Text, raw) {
            Some(ss) => match decode_all_base64(ss) {
                Ok(bs) => Ok(ValueView::BytesList(bs)),
                Err(s) => Err(DecodeError::InvalidByteEncoding(f.name, s)),
            },
            None => type_error_outcome(f, lenient),
        },
    }
}

/// The code of the first variant of `table` named `name`.
pub fn lookup_enum(table: &Vec<EnumVariant>, name: &String) -> (r: Option<i32>)
    ensures
        r == enum_lookup(table@, name@),
{
    let mut i: usize = 0;
    while i < table.len()
        invariant
            i <= table@.len(),
            enum_lookup(table@.take(i as int), name@) is None,
        decreases table@.len() - i,
    {
        assert(table@.take(i as int + 1).drop_last() =~= table@.take(i as int));
        if table[i].name == *name {
            let r = Some(table[i].code);
            assert(enum_lookup(table@.take(i as int + 1), name@) == r);
            proof { lemma_enum_lookup_prefix(table@, name@, i as int + 1); }
            return r;
        }
        i = i + 1;
    }
    assert(table@.take(i as int) =~= table@);
    None
}

/// A match in a prefix of the table is the match in the whole table.
proof fn lemma_enum_lookup_prefix(table: Seq<EnumVariant>, name: Seq<char>, n: int)
    requires
        0 <= n <= table.len(),
        enum_lookup(table.take(n), name) is Some,
    ensures
        enum_lookup(table, name) == enum_lookup(table.take(n), name),
    decreases table.len() - n,
{
    if n < table.len() {
        assert(table.take(n + 1).drop_last() =~= table.take(n));
        lemma_enum_lookup_prefix(table, name, n + 1);
    } else {
        assert(table.take(n) =~= table);
    }
}

/// Each name looked up in `table`, in order, up to the first unknown one.
pub fn lookup_enum_names(table: &Vec<EnumVariant>, names: &Vec<Scalar>) -> (r: Result<Vec<i32>, String>)
    requires
        all_have_type(names@, ScalarType::Text),
    ensures
        match r {
            Ok(cs) => lookup_all(table@, names@) == Ok::<Seq<i32>, String>(cs@),
            Err(e) => lookup_all(table@, names@) == Err::<Seq<i32>, String>(e),
        },
{
    let mut codes: Vec<i32> = Vec::new();
    let mut i: usize = 0;
    while i < names.len()
        invariant
            i <= names@.len(),
            all_have_type(names@, ScalarType::Text),
            lookup_all(table@, names@.take(i as int)) == Ok::<Seq<i32>, String>(codes@),
        decreases names@.len() - i,
    {
        let ghost prefix = names@.take(i as int + 1);
        assert(prefix.drop_last() =~= names@.take(i as int));
        assert(names@[i as int].has_type(ScalarType::Text));
        match &names[i] {
            Scalar::Text(name) => {
                match lookup_enum(table, name) {
                    Some(c) => {
                        codes.push(c);
                    },
                    None => {
                        proof { lemma_lookup_all_err_extends(table@, names@, i as int + 1); }
                        return Err(name.clone());
                    },
                }
            },
            _ => {},
        }
        i = i + 1;
    }
    assert(names@.take(i as int) =~= names@);
    Ok(codes)
}

/// Once a prefix of the names fails, every longer prefix fails the same way.
pub proof fn lemma_lookup_all_err_extends(table: Seq<EnumVariant>, names: Seq<Scalar>, n: int)
    requires
        0 <= n <= names.len(),
        lookup_all(table, names.take(n)) is Err,
    ensures
        lookup_all(table, names) == lookup_all(table, names.take(n)),
    decreases names.len() - n,
{
    if n < names.len() {
        assert(names.take(n + 1).drop_last() =~= names.take(n));
        lemma_lookup_all_err_extends(table, names, n + 1);
    } else {
        assert(names.take(n) =~= names);
    }
}

/// Once a prefix of the texts fails, every longer prefix fails the same way.
pub proof fn lemma_decode_all_err_extends(items: Seq<Scalar>, n: int)
    requires
        0 <= n <= items.len(),
        decode_all_base64(items.take(n)) is Err,
    ensures
        decode_all_base64(items) == decode_all_base64(items.take(n)),
    decreases items.len() - n,
{
    if n < items.len() {
        assert(items.take(n + 1).drop_last() =~= items.take(n));
        lemma_decode_all_err_extends(items, n + 1);
    } else {
        assert(items.take(n) =~= items);
    }
}

/// Each text decoded from base64, in order, up to the first invalid one.
pub fn decode_base64_texts(items: &Vec<Scalar>) -> (r: Result<Vec<Vec<u8>>, String>)
    requires
        all_have_type(items@, ScalarType::Text),
    ensures
        match r {
            Ok(bs) => decode_all_base64(items@) == Ok::<Seq<Seq<u8>>, String>(bytes_views(bs@)),
            Err(e) => decode_all_base64(items@) == Err::<Seq<Seq<u8>>, String>(e),
        },
        (exists|j: int| 0 <= j < items@.len() && has_non_base64_char(text_of(#[trigger] items@[j])@)) ==> r is Err,
{
    let mut out: Vec<Vec<u8>> = Vec::new();
    let mut i: usize = 0;
    assert(bytes_views(out@) =~= Seq::<Seq<u8>>::empty());
    assert(items@.take(0) =~= Seq::<Scalar>::empty());
    while i < items.len()
        invariant
            i <= items@.len(),
            all_have_type(items@, ScalarType::Text),
            decode_all_base64(items@.take(i as int)) == Ok::<Seq<Seq<u8>>, String>(bytes_views(out@)),
            forall|j: int| 0 <= j < i ==> !has_non_base64_char(text_of(#[trigger] items@[j])@),
        decreases items@.len() - i,
    {
        let ghost prefix = items@.take(i as int + 1);
        assert(prefix.drop_last() =~= items@.take(i as int));
        assert(items@[i as int].has_type(ScalarType::Text));
        match &items[i] {
            Scalar::Text(text) => {
                match base64_decode(text) {
                    Some(b) => {
                        let ghost before = out@;
                        out.push(b);
                        assert(bytes_views(out@) =~= bytes_views(before).push(b@));
                    },
                    None => {
                        proof { lemma_decode_all_err_extends(items@, i as int + 1); }
                        return Err(text.clone());
                    },
                }
            },
            _ => {},
        }
        i = i + 1;
    }
    assert(items@.take(i as int) =~= items@);
    assert(!(exists|j: int| 0 <= j < items@.len() && has_non_base64_char(text_of(#[trigger] items@[j])@)));
    Ok(out)
}

/// The empty sequence of the kind's element.
pub(crate) fn empty_value(kind: &DecodeKind) -> (r: Value)
    ensures
        r@ == empty_of(*kind),
{
    match kind {
        DecodeKind::Scalar(_) => Value::Scalars(Vec::new()),
        DecodeKind::Enumeration(_) => Value::Codes(Vec::new()),
        DecodeKind::Bytes => {
            let v: Vec<Vec<u8>> = Vec::new();
            assert(bytes_views(v@) =~= Seq::<Seq<u8>>::empty());
            Value::BytesList(v)
        },
    }
}

/// The outcome of a raw value of the wrong shape for field `f`.
pub fn on_type_error(f: &FieldSchema, lenient: bool) -> (r: Result<Value, DecodeError>)
    ensures
        result_view(r) == type_error_outcome(*f, lenient),
{
    if lenient {
        match &f.default {
            Some(d) => return Ok(d.copy()),
            None => {},
        }
    }
    let ty = match &f.kind {
        DecodeKind::Scalar(ty) => *ty,
        _ => ScalarType::Text,
    };
    let shape = match f.modifier {
        Modifier::Single => ValueShape::One(ty),
        Modifier::Repeated => ValueShape::Many(ty),
    };
    Err(DecodeError::TypeMismatch(f.name.clone(), shape))
}

/// Decodes the raw value of field `f`. Under `lenient`, a raw value of the
/// wrong shape gives the field's default where one is configured, and is a
/// type mismatch otherwise; unknown enumeration names and invalid base64
/// are errors whatever `lenient` says.
pub fn decode_value(f: &FieldSchema, raw: &RawValue, lenient: bool) -> (r: Result<Value, DecodeError>)
    ensures
        result_view(r) == decode_field(*f, raw@, lenient),
        f.kind is Bytes && f.modifier == Modifier::Single && raw@ is One && raw@->One_0 is Text
            && has_non_base64_char(text_of(raw@->One_0)@)
            ==> r == Err::<Value, DecodeError>(DecodeError::InvalidByteEncoding(f.name, text_of(raw@->One_0))),
        f.kind is Bytes && f.modifier == Modifier::Repeated && raw@ is Many
            && all_have_type(raw@->Many_0, ScalarType::Text)
            && (exists|j: int| 0 <= j < raw@->Many_0.len() && has_non_base64_char(text_of(#[trigger] raw@->Many_0[j])@))
            ==> r is Err && r->Err_0 is InvalidByteEncoding && r->Err_0->InvalidByteEncoding_0 == f.name,
{
    match (&f.kind, f.modifier) {
        (DecodeKind::Scalar(ty), Modifier::Single) => match raw {
            RawValue::One(s) => {
                if s.is_of_type(*ty) {
                    Ok(Value::Scalar(s.copy()))
                } else {
                    on_type_error(f, lenient)
                }
            },
            _ => on_type_error(f, lenient),
        },
        (DecodeKind::Scalar(ty), Modifier::Repeated) => match raw {
            RawValue::Many(ss) => {
                if all_of_type(ss, *ty) {
                    Ok(Value::Scalars(copy_scalars(ss)))
                } else {
                    on_type_error(f, lenient)
                }
            },
            _ => on_type_error(f, lenient),
        },
        (DecodeKind::Enumeration(table), Modifier::Single) => match raw {
            RawValue::One(Scalar::Text(name)) => match lookup_enum(table, name) {
                Some(c) => Ok(Value::Code(c)),
                None => Err(DecodeError::UnknownEnumVariant(f.name.clone(), name.clone())),
            },
            _ => on_type_error(f, lenient),
        },
        (DecodeKind::Enumeration(table), Modifier::Repeated) => match raw {
            RawValue::Many(names) => {
                if all_of_type(names, ScalarType::Text) {
                    match lookup_enum_names(table, names) {
                        Ok(cs) => Ok(Value::Codes(cs)),
                        Err(name) => Err(DecodeError::UnknownEnumVariant(f.name.clone(), name)),
                    }
                } else {
                    on_type_error(f, lenient)
                }
            },
            _ => on_type_error(f, lenient),
        },
        (DecodeKind::Bytes, Modifier::Single) => match raw {
            RawValue::One(Scalar::Text(text)) => match base64_decode(text) {
                Some(b) => Ok(Value::Bytes(b)),
                None => Err(DecodeError::InvalidByteEncoding(f.name.clone(), text.clone())),
            },
            _ => on_type_error(f, lenient),
        },
        (DecodeKind::Bytes, Modifier::Repeated) => match raw {
            RawValue::Many(texts) => {
                if all_of_type(texts, ScalarType::Text) {
                    match decode_base64_texts(texts) {
                        Ok(bs) => Ok(Value::BytesList(bs)),
                        Err(text) => Err(DecodeError::InvalidByteEncoding(f.name.clone(), text)),
                    }
                } else {
                    on_type_error(f, lenient)
                }
            },
            _ => on_type_error(f, lenient),
        },
    }
}

} // verus!
