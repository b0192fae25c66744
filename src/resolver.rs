//! The field name resolver: from a key of the field source to the field of
//! the schema that it names.
use vstd::prelude::*;

use crate::schema::{DecodeError, FieldSchema, RecordSchema};

verus! {

/// The position of the first field named `key`, names compared verbatim.
pub open spec fn field_index(fields: Seq<FieldSchema>, key: Seq<char>) -> Option<int>
    decreases fields.len(),
{
    if fields.len() == 0 {
        None
    } else {
        match field_index(fields.drop_last(), key) {
            Some(i) => Some(i),
            None => if fields.last().name@ == key { Some(fields.len() - 1) } else { None },
        }
    }
}

/// A match in a prefix of the fields is the match in all of them.
proof fn lemma_field_index_prefix(fields: Seq<FieldSchema>, key: Seq<char>, n: int)
    requires
        0 <= n <= fields.len(),
        field_index(fields.take(n), key) is Some,
    ensures
        field_index(fields, key) == field_index(fields.take(n), key),
    decreases fields.len() - n,
{
    if n < fields.len() {
        assert(fields.take(n + 1).drop_last() =~= fields.take(n));
        lemma_field_index_prefix(fields, key, n + 1);
    } else {
        assert(fields.take(n) =~= fields);
    }
}

/// The position found lies within the fields and names `key`;
/// no earlier field does.
pub proof fn lemma_field_index_facts(fields: Seq<FieldSchema>, key: Seq<char>)
    ensures
        match field_index(fields, key) {
            Some(i) => 0 <= i < fields.len() && fields[i].name@ == key
                && forall|j: int| 0 <= j < i ==> (#[trigger] fields[j]).name@ != key,
            None => forall|j: int| 0 <= j < fields.len() ==> (#[trigger] fields[j]).name@ != key,
        },
    decreases fields.len(),
{
    if fields.len() > 0 {
        let init = fields.drop_last();
        lemma_field_index_facts(init, key);
        assert forall|j: int| 0 <= j < init.len() implies init[j] == fields[j] by {}
    }
}

/// Finds the field that `key` names, or fails with `UnknownField(key)`.
pub fn resolve(schema: &RecordSchema, key: &String) -> (r: Result<usize, DecodeError>)
    ensures
        match r {
            Ok(i) => field_index(schema.fields@, key@) == Some(i as int),
            Err(e) => field_index(schema.fields@, key@) is None && e == DecodeError::UnknownField(*key),
        },
{
    let mut i: usize = 0;
    while i < schema.fields.len()
        invariant
            i <= schema.fields@.len(),
            field_index(schema.fields@.take(i as int), key@) is None,
        decreases schema.fields@.len() - i,
    {
        assert(schema.fields@.take(i as int + 1).drop_last() =~= schema.fields@.take(i as int));
        if schema.fields[i].name == *key {
            proof { lemma_field_index_prefix(schema.fields@, key@, i as int + 1); }
            return Ok(i);
        }
        i = i + 1;
    }
    assert(schema.fields@.take(i as int) =~= schema.fields@);
    Err(DecodeError::UnknownField(key.clone()))
}

} // verus!
