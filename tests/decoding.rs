use prost_serde_decode::engine::{decode, NamedStructDeserializer};
use prost_serde_decode::schema::{
    DecodeError, DecodeKind, DecodeOptions, EnumVariant, Entry, FieldSchema, Modifier, RawValue,
    RecordSchema, Scalar, ScalarType, Value, ValueShape,
};

fn text(s: &str) -> Scalar {
    Scalar::Text(s.to_string())
}

fn entry(key: &str, value: RawValue) -> Entry {
    Entry { key: key.to_string(), value }
}

fn field(name: &str, kind: DecodeKind, modifier: Modifier, default: Option<Value>) -> FieldSchema {
    FieldSchema { name: name.to_string(), kind, modifier, default, lenient_on_type_error: false }
}

fn status_table() -> Vec<EnumVariant> {
    vec![
        EnumVariant { name: "ACTIVE".to_string(), code: 0 },
        EnumVariant { name: "DONE".to_string(), code: 1 },
    ]
}

fn opts(lenient: bool, use_default: bool, ignore_unknown: bool) -> DecodeOptions {
    DecodeOptions {
        lenient_on_type_error: lenient,
        use_default_for_missing: use_default,
        ignore_unknown_fields: ignore_unknown,
    }
}

/// id: int, required; tags: repeated string; status: enum with default ACTIVE.
fn record_schema() -> RecordSchema {
    RecordSchema {
        fields: vec![
            field("id", DecodeKind::Scalar(ScalarType::Int), Modifier::Single, None),
            field("tags", DecodeKind::Scalar(ScalarType::Text), Modifier::Repeated, None),
            field("status", DecodeKind::Enumeration(status_table()), Modifier::Single, Some(Value::Code(0))),
        ],
    }
}

fn id_and_tags() -> Vec<Entry> {
    vec![
        entry("id", RawValue::One(Scalar::Int(7))),
        entry("tags", RawValue::Many(vec![text("a"), text("b")])),
    ]
}

#[test]
fn missing_enum_takes_default_when_enabled() {
    let schema = record_schema();
    assert!(schema.is_well_formed());
    let r = decode(&schema, &id_and_tags(), opts(false, true, false));
    assert_eq!(
        r,
        Ok(vec![
            Value::Scalar(Scalar::Int(7)),
            Value::Scalars(vec![text("a"), text("b")]),
            Value::Code(0),
        ])
    );
}

#[test]
fn missing_enum_fails_when_defaults_disabled() {
    let r = decode(&record_schema(), &id_and_tags(), opts(false, false, false));
    assert_eq!(r, Err(DecodeError::MissingField("status".to_string())));
}

fn lenient_id_schema() -> RecordSchema {
    RecordSchema {
        fields: vec![field(
            "id",
            DecodeKind::Scalar(ScalarType::Int),
            Modifier::Single,
            Some(Value::Scalar(Scalar::Int(0))),
        )],
    }
}

#[test]
fn type_error_takes_default_when_lenient() {
    let source = vec![entry("id", RawValue::One(text("oops")))];
    let r = decode(&lenient_id_schema(), &source, opts(true, false, false));
    assert_eq!(r, Ok(vec![Value::Scalar(Scalar::Int(0))]));
}

#[test]
fn type_error_fails_when_strict() {
    let source = vec![entry("id", RawValue::One(text("oops")))];
    let r = decode(&lenient_id_schema(), &source, opts(false, false, false));
    assert_eq!(
        r,
        Err(DecodeError::TypeMismatch("id".to_string(), ValueShape::One(ScalarType::Int)))
    );
}

#[test]
fn field_flag_alone_makes_type_errors_lenient() {
    let mut schema = lenient_id_schema();
    schema.fields[0].lenient_on_type_error = true;
    let source = vec![entry("id", RawValue::One(Scalar::Bool(true)))];
    let r = decode(&schema, &source, DecodeOptions::default());
    assert_eq!(r, Ok(vec![Value::Scalar(Scalar::Int(0))]));
}

#[test]
fn full_source_decodes_in_schema_order() {
    let source = vec![
        entry("status", RawValue::One(text("DONE"))),
        entry("tags", RawValue::Many(vec![text("x")])),
        entry("id", RawValue::One(Scalar::Int(-3))),
    ];
    let r = decode(&record_schema(), &source, DecodeOptions::default());
    assert_eq!(
        r,
        Ok(vec![Value::Scalar(Scalar::Int(-3)), Value::Scalars(vec![text("x")]), Value::Code(1)])
    );
}

#[test]
fn decoding_twice_gives_equal_records() {
    let schema = record_schema();
    let source = id_and_tags();
    let first = decode(&schema, &source, opts(false, true, false));
    let second = decode(&schema, &source, opts(false, true, false));
    assert_eq!(first, second);
}

#[test]
fn duplicate_key_fails() {
    let source = vec![
        entry("id", RawValue::One(Scalar::Int(1))),
        entry("status", RawValue::One(text("ACTIVE"))),
        entry("id", RawValue::One(text("not even an int"))),
    ];
    let r = decode(&record_schema(), &source, opts(true, true, true));
    assert_eq!(r, Err(DecodeError::DuplicateField("id".to_string())));
}

#[test]
fn first_missing_field_in_schema_order_is_reported() {
    let schema = RecordSchema {
        fields: vec![
            field("a", DecodeKind::Scalar(ScalarType::Int), Modifier::Single, None),
            field("b", DecodeKind::Scalar(ScalarType::Int), Modifier::Single, None),
        ],
    };
    let r = decode(&schema, &vec![], DecodeOptions::default());
    assert_eq!(r, Err(DecodeError::MissingField("a".to_string())));
}

#[test]
fn absent_repeated_fields_are_empty() {
    let schema = RecordSchema {
        fields: vec![
            field("names", DecodeKind::Scalar(ScalarType::Text), Modifier::Repeated, None),
            field("kinds", DecodeKind::Enumeration(status_table()), Modifier::Repeated, None),
            field("blobs", DecodeKind::Bytes, Modifier::Repeated, None),
        ],
    };
    let r = decode(&schema, &vec![], DecodeOptions::default());
    assert_eq!(r, Ok(vec![Value::Scalars(vec![]), Value::Codes(vec![]), Value::BytesList(vec![])]));
}

#[test]
fn unknown_key_fails_unless_ignored() {
    let mut source = id_and_tags();
    source.push(entry("colour", RawValue::One(text("red"))));
    let strict = decode(&record_schema(), &source, opts(false, true, false));
    assert_eq!(strict, Err(DecodeError::UnknownField("colour".to_string())));
    let relaxed = decode(&record_schema(), &source, opts(false, true, true));
    assert_eq!(
        relaxed,
        Ok(vec![
            Value::Scalar(Scalar::Int(7)),
            Value::Scalars(vec![text("a"), text("b")]),
            Value::Code(0),
        ])
    );
}

#[test]
fn field_names_are_compared_verbatim() {
    let source = vec![entry("ID", RawValue::One(Scalar::Int(7)))];
    let r = decode(&record_schema(), &source, DecodeOptions::default());
    assert_eq!(r, Err(DecodeError::UnknownField("ID".to_string())));
}

fn enum_schema(modifier: Modifier) -> RecordSchema {
    RecordSchema {
        fields: vec![field("status", DecodeKind::Enumeration(status_table()), modifier, Some(Value::Code(0)))],
    }
}

#[test]
fn every_enum_name_decodes_to_its_code() {
    for variant in status_table() {
        let source = vec![entry("status", RawValue::One(Scalar::Text(variant.name.clone())))];
        let r = decode(&enum_schema(Modifier::Single), &source, DecodeOptions::default());
        assert_eq!(r, Ok(vec![Value::Code(variant.code)]));
    }
}

#[test]
fn unknown_enum_name_fails_even_when_lenient() {
    let source = vec![entry("status", RawValue::One(text("PAUSED")))];
    let r = decode(&enum_schema(Modifier::Single), &source, opts(true, true, true));
    assert_eq!(
        r,
        Err(DecodeError::UnknownEnumVariant("status".to_string(), "PAUSED".to_string()))
    );
}

#[test]
fn repeated_enum_decodes_in_order_and_stops_at_first_unknown() {
    let schema = RecordSchema {
        fields: vec![field("states", DecodeKind::Enumeration(status_table()), Modifier::Repeated, None)],
    };
    let good = vec![entry("states", RawValue::Many(vec![text("DONE"), text("ACTIVE"), text("DONE")]))];
    assert_eq!(decode(&schema, &good, DecodeOptions::default()), Ok(vec![Value::Codes(vec![1, 0, 1])]));
    let bad = vec![entry("states", RawValue::Many(vec![text("DONE"), text("X"), text("Y")]))];
    assert_eq!(
        decode(&schema, &bad, opts(true, false, false)),
        Err(DecodeError::UnknownEnumVariant("states".to_string(), "X".to_string()))
    );
}

#[test]
fn enum_of_wrong_shape_is_a_type_mismatch() {
    let schema = RecordSchema {
        fields: vec![field("status", DecodeKind::Enumeration(status_table()), Modifier::Single, None)],
    };
    let source = vec![entry("status", RawValue::One(Scalar::Int(1)))];
    assert_eq!(
        decode(&schema, &source, DecodeOptions::default()),
        Err(DecodeError::TypeMismatch("status".to_string(), ValueShape::One(ScalarType::Text)))
    );
    assert_eq!(
        decode(&enum_schema(Modifier::Single), &source, opts(true, false, false)),
        Ok(vec![Value::Code(0)])
    );
}

fn bytes_schema(modifier: Modifier) -> RecordSchema {
    RecordSchema { fields: vec![field("payload", DecodeKind::Bytes, modifier, None)] }
}

#[test]
fn bytes_round_trip_through_base64() {
    let original: Vec<u8> = vec![0, 1, 2, 250, 255, 104, 105];
    let encoded = base64::encode(&original);
    let source = vec![entry("payload", RawValue::One(Scalar::Text(encoded)))];
    let r = decode(&bytes_schema(Modifier::Single), &source, DecodeOptions::default());
    assert_eq!(r, Ok(vec![Value::Bytes(original)]));
}

#[test]
fn base64_text_is_decoded_not_copied() {
    let source = vec![entry("payload", RawValue::One(text("aGVsbG8=")))];
    let r = decode(&bytes_schema(Modifier::Single), &source, DecodeOptions::default());
    assert_eq!(r, Ok(vec![Value::Bytes(b"hello".to_vec())]));
}

#[test]
fn invalid_base64_fails_even_when_lenient() {
    let source = vec![entry("payload", RawValue::One(text("not*base64!")))];
    let r = decode(&bytes_schema(Modifier::Single), &source, opts(true, true, true));
    assert_eq!(
        r,
        Err(DecodeError::InvalidByteEncoding("payload".to_string(), "not*base64!".to_string()))
    );
}

#[test]
fn repeated_bytes_decode_each_entry() {
    let source = vec![entry("payload", RawValue::Many(vec![text("aGk="), text(""), text("AAE=")]))];
    let r = decode(&bytes_schema(Modifier::Repeated), &source, DecodeOptions::default());
    assert_eq!(r, Ok(vec![Value::BytesList(vec![b"hi".to_vec(), vec![], vec![0, 1]])]));
    let bad = vec![entry("payload", RawValue::Many(vec![text("aGk="), text("%%")]))];
    assert_eq!(
        decode(&bytes_schema(Modifier::Repeated), &bad, DecodeOptions::default()),
        Err(DecodeError::InvalidByteEncoding("payload".to_string(), "%%".to_string()))
    );
}

#[test]
fn repeated_type_error_without_default_fails_even_when_lenient() {
    let schema = RecordSchema {
        fields: vec![field("tags", DecodeKind::Scalar(ScalarType::Text), Modifier::Repeated, None)],
    };
    let source = vec![entry("tags", RawValue::Many(vec![text("a"), Scalar::Int(2)]))];
    let mismatch = Err(DecodeError::TypeMismatch("tags".to_string(), ValueShape::Many(ScalarType::Text)));
    assert_eq!(decode(&schema, &source, DecodeOptions::default()), mismatch);
    assert_eq!(decode(&schema, &source, opts(true, false, false)), mismatch);
    let kinds = RecordSchema {
        fields: vec![field("kinds", DecodeKind::Enumeration(status_table()), Modifier::Repeated, None)],
    };
    let one_name = vec![entry("kinds", RawValue::One(text("DONE")))];
    assert_eq!(
        decode(&kinds, &one_name, opts(true, false, false)),
        Err(DecodeError::TypeMismatch("kinds".to_string(), ValueShape::Many(ScalarType::Text)))
    );
    let blobs = bytes_schema(Modifier::Repeated);
    let one_text = vec![entry("payload", RawValue::One(text("aGk=")))];
    assert_eq!(
        decode(&blobs, &one_text, opts(true, false, false)),
        Err(DecodeError::TypeMismatch("payload".to_string(), ValueShape::Many(ScalarType::Text)))
    );
}

#[test]
fn unsupported_value_is_a_type_error() {
    let source = vec![entry("id", RawValue::Unsupported)];
    assert_eq!(
        decode(&lenient_id_schema(), &source, opts(false, false, false)),
        Err(DecodeError::TypeMismatch("id".to_string(), ValueShape::One(ScalarType::Int)))
    );
    assert_eq!(
        decode(&lenient_id_schema(), &source, opts(true, false, false)),
        Ok(vec![Value::Scalar(Scalar::Int(0))])
    );
}

#[test]
fn non_alphabet_characters_are_invalid_base64() {
    let source = vec![entry("payload", RawValue::One(text("@@@@")))];
    assert_eq!(
        decode(&bytes_schema(Modifier::Single), &source, opts(true, false, false)),
        Err(DecodeError::InvalidByteEncoding("payload".to_string(), "@@@@".to_string()))
    );
}

#[test]
fn ignored_unknown_keys_do_not_hide_a_missing_field() {
    let source = vec![
        entry("extra", RawValue::One(text("x"))),
        entry("tags", RawValue::Many(vec![])),
        entry("extra", RawValue::One(Scalar::Int(1))),
    ];
    assert_eq!(
        decode(&record_schema(), &source, opts(false, false, true)),
        Err(DecodeError::MissingField("id".to_string()))
    );
}

#[test]
fn absent_repeated_field_equals_an_empty_one() {
    let without = vec![entry("id", RawValue::One(Scalar::Int(5)))];
    let mut with = vec![entry("id", RawValue::One(Scalar::Int(5)))];
    with.push(entry("tags", RawValue::Many(vec![])));
    let o = opts(false, true, false);
    let a = decode(&record_schema(), &without, o);
    assert_eq!(a, decode(&record_schema(), &with, o));
    assert_eq!(
        a,
        Ok(vec![Value::Scalar(Scalar::Int(5)), Value::Scalars(vec![]), Value::Code(0)])
    );
}

#[test]
fn repeated_scalar_type_error_takes_default_when_lenient() {
    let schema = RecordSchema {
        fields: vec![field(
            "tags",
            DecodeKind::Scalar(ScalarType::Text),
            Modifier::Repeated,
            Some(Value::Scalars(vec![text("none")])),
        )],
    };
    let source = vec![entry("tags", RawValue::One(text("a")))];
    assert_eq!(
        decode(&schema, &source, opts(true, false, false)),
        Ok(vec![Value::Scalars(vec![text("none")])])
    );
}

#[test]
fn bound_deserializer_uses_its_options() {
    let d = NamedStructDeserializer::new(record_schema(), opts(false, true, false));
    assert_eq!(
        d.deserialize(&id_and_tags()),
        Ok(vec![
            Value::Scalar(Scalar::Int(7)),
            Value::Scalars(vec![text("a"), text("b")]),
            Value::Code(0),
        ])
    );
}

#[test]
fn schema_well_formedness() {
    assert!(record_schema().is_well_formed());
    let twice = RecordSchema {
        fields: vec![
            field("id", DecodeKind::Scalar(ScalarType::Int), Modifier::Single, None),
            field("id", DecodeKind::Bytes, Modifier::Single, None),
        ],
    };
    assert!(!twice.is_well_formed());
    let bad_default = RecordSchema {
        fields: vec![field(
            "id",
            DecodeKind::Scalar(ScalarType::Int),
            Modifier::Single,
            Some(Value::Scalar(text("zero"))),
        )],
    };
    assert!(!bad_default.is_well_formed());
    let bad_table = RecordSchema {
        fields: vec![field(
            "s",
            DecodeKind::Enumeration(vec![
                EnumVariant { name: "A".to_string(), code: 0 },
                EnumVariant { name: "A".to_string(), code: 1 },
            ]),
            Modifier::Single,
            None,
        )],
    };
    assert!(!bad_table.is_well_formed());
}
