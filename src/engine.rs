//! The deserialization engine: one decode pass over a field source, driven
//! by a record schema.
use vstd::prelude::*;

use crate::builder::{accumulate, narrow, values_view, FieldAccumulator};
use crate::schema::{DecodeError, DecodeOptions, Entry, FieldSchema, RecordSchema, Value, ValueView};

verus! {

/// The record that the entries decode to under `fields`, in declaration
/// order, or the first error.
pub open spec fn decode_result(fields: Seq<FieldSchema>, entries: Seq<Entry>, opts: DecodeOptions) -> Result<Seq<ValueView>, DecodeError> {
    match accumulate(fields, entries, opts) {
        Err(e) => Err(e),
        Ok(slots) => narrow(fields, slots, opts),
    }
}

pub open spec fn record_view(r: Result<Vec<Value>, DecodeError>) -> Result<Seq<ValueView>, DecodeError> {
    match r {
        Ok(vs) => Ok(values_view(vs@)),
        Err(e) => Err(e),
    }
}

/// An error of a prefix of the entries is the error of them all.
pub proof fn lemma_accumulate_err_extends(fields: Seq<FieldSchema>, entries: Seq<Entry>, opts: DecodeOptions, n: int)
    requires
        0 <= n <= entries.len(),
        accumulate(fields, entries.take(n), opts) is Err,
    ensures
        accumulate(fields, entries, opts) == accumulate(fields, entries.take(n), opts),
    decreases entries.len() - n,
{
    if n < entries.len() {
        assert(entries.take(n + 1).drop_last() =~= entries.take(n));
        lemma_accumulate_err_extends(fields, entries, opts, n + 1);
    } else {
        assert(entries.take(n) =~= entries);
    }
}

/// Decodes the entries of a field source, in order, into a record of the
/// schema: the values of its fields in declaration order. The first error
/// ends the call; no partial record is returned.
pub fn decode(schema: &RecordSchema, source: &Vec<Entry>, options: DecodeOptions) -> (r: Result<Vec<Value>, DecodeError>)
    ensures
        record_view(r) == decode_result(schema.fields@, source@, options),
{
    let mut acc = FieldAccumulator::new(schema);
    let mut i: usize = 0;
    assert(source@.take(0) =~= Seq::<Entry>::empty());
    while i < source.len()
        invariant
            i <= source@.len(),
            acc@.len() == schema.fields@.len(),
            accumulate(schema.fields@, source@.take(i as int), options) == Ok::<Seq<Option<ValueView>>, DecodeError>(acc@),
        decreases source@.len() - i,
    {
        assert(source@.take(i as int + 1).drop_last() =~= source@.take(i as int));
        match acc.accept(schema, &source[i], options) {
            Ok(()) => {},
            Err(e) => {
                proof { lemma_accumulate_err_extends(schema.fields@, source@, options, i as int + 1); }
                return Err(e);
            },
        }
        i = i + 1;
    }
    assert(source@.take(i as int) =~= source@);
    acc.narrow(schema, options)
}

/// A decoder bound to one record schema and one set of options.
pub struct NamedStructDeserializer {
    pub schema: RecordSchema,
    pub options: DecodeOptions,
}

impl NamedStructDeserializer {
    pub fn new(schema: RecordSchema, options: DecodeOptions) -> (r: NamedStructDeserializer)
        ensures
            r.schema == schema,
            r.options == options,
    {
        NamedStructDeserializer { schema, options }
    }

    /// Decodes one field source with the bound schema and options.
    pub fn deserialize(&self, source: &Vec<Entry>) -> (r: Result<Vec<Value>, DecodeError>)
        ensures
            record_view(r) == decode_result(self.schema.fields@, source@, self.options),
    {
        decode(&self.schema, source, self.options)
    }
}

} // verus!
