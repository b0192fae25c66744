//! The record builder: per-field presence tracking while the entries are
//! read, then narrowing of the slots into the finished record.
use vstd::prelude::*;

use crate::decoder::{decode_field, decode_value, empty_of, empty_value};
use crate::resolver::{field_index, resolve};
use crate::schema::{
    DecodeError, DecodeOptions, Entry, FieldSchema, Modifier, RecordSchema, Value, ValueView,
    result_view,
};

verus! {

/// Whether type errors on field `f` fall back under these options: the
/// field opts in, or the call enables it for every field.
pub open spec fn lenient_for(f: FieldSchema, opts: DecodeOptions) -> bool {
    opts.lenient_on_type_error || f.lenient_on_type_error
}

pub open spec fn slot_view(o: Option<Value>) -> Option<ValueView> {
    match o {
        Some(v) => Some(v@),
        None => None,
    }
}

/// Every slot absent, one per field.
pub open spec fn empty_slots(n: nat) -> Seq<Option<ValueView>> {
    Seq::new(n, |i: int| None)
}

/// The slots after one entry is read: the key resolved, a duplicate
/// refused, the value decoded into the field's slot.
pub open spec fn accept_entry(
    fields: Seq<FieldSchema>,
    slots: Seq<Option<ValueView>>,
    e: Entry,
    opts: DecodeOptions,
) -> Result<Seq<Option<ValueView>>, DecodeError> {
    match field_index(fields, e.key@) {
        None => if opts.ignore_unknown_fields {
            Ok(slots)
        } else {
            Err(DecodeError::UnknownField(e.key))
        },
        Some(i) => if slots[i] is Some {
            Err(DecodeError::DuplicateField(fields[i].name))
        } else {
            match decode_field(fields[i], e.value@, lenient_for(fields[i], opts)) {
                Ok(v) => Ok(slots.update(i, Some(v))),
                Err(err) => Err(err),
            }
        },
    }
}

/// The slots after all entries are read in order, or the first error.
pub open spec fn accumulate(fields: Seq<FieldSchema>, entries: Seq<Entry>, opts: DecodeOptions) -> Result<Seq<Option<ValueView>>, DecodeError>
    decreases entries.len(),
{
    if entries.len() == 0 {
        Ok(empty_slots(fields.len()))
    } else {
        match accumulate(fields, entries.drop_last(), opts) {
            Err(e) => Err(e),
            Ok(slots) => accept_entry(fields, slots, entries.last(), opts),
        }
    }
}

/// The final value of one field from its slot.
pub open spec fn narrow_field(f: FieldSchema, slot: Option<ValueView>, opts: DecodeOptions) -> Result<ValueView, DecodeError> {
    match slot {
        Some(v) => Ok(v),
        None => if f.modifier == Modifier::Repeated {
            Ok(empty_of(f.kind))
        } else if opts.use_default_for_missing && f.default is Some {
            Ok(f.default.unwrap()@)
        } else {
            Err(DecodeError::MissingField(f.name))
        },
    }
}

/// The first `n` fields narrowed in declaration order, or the first error.
pub open spec fn narrow_upto(fields: Seq<FieldSchema>, slots: Seq<Option<ValueView>>, opts: DecodeOptions, n: nat) -> Result<Seq<ValueView>, DecodeError>
    decreases n,
{
    if n == 0 {
        Ok(Seq::empty())
    } else {
        match narrow_upto(fields, slots, opts, (n - 1) as nat) {
            Err(e) => Err(e),
            Ok(vs) => match narrow_field(fields[n - 1], slots[n - 1], opts) {
                Ok(v) => Ok(vs.push(v)),
                Err(e) => Err(e),
            },
        }
    }
}

/// Every field narrowed, or the first error in declaration order.
pub open spec fn narrow(fields: Seq<FieldSchema>, slots: Seq<Option<ValueView>>, opts: DecodeOptions) -> Result<Seq<ValueView>, DecodeError> {
    narrow_upto(fields, slots, opts, fields.len())
}

pub open spec fn values_view(v: Seq<Value>) -> Seq<ValueView> {
    v.map_values(|x: Value| x@)
}

/// The per-call state of the builder: one slot per field, absent until the
/// field's value is read.
pub struct FieldAccumulator {
    slots: Vec<Option<Value>>,
}

impl View for FieldAccumulator {
    type V = Seq<Option<ValueView>>;

    closed spec fn view(&self) -> Seq<Option<ValueView>> {
        self.slots@.map_values(|o: Option<Value>| slot_view(o))
    }
}

impl FieldAccumulator {
    /// An accumulator with every slot of the schema absent.
    pub fn new(schema: &RecordSchema) -> (r: FieldAccumulator)
        ensures
            r@ == empty_slots(schema.fields@.len()),
    {
        let mut slots: Vec<Option<Value>> = Vec::new();
        let mut i: usize = 0;
        while i < schema.fields.len()
            invariant
                i <= schema.fields@.len(),
                slots@.len() == i,
                forall|j: int| 0 <= j < i ==> slots@[j] is None,
            decreases schema.fields@.len() - i,
        {
            slots.push(None);
            i = i + 1;
        }
        let r = FieldAccumulator { slots };
        assert(r@ =~= empty_slots(schema.fields@.len()));
        r
    }

    /// Reads one entry into its field's slot; fails on an unknown key (unless
    /// the options ignore those), on a second value for a field, and on a
    /// value that does not decode.
    pub fn accept(&mut self, schema: &RecordSchema, e: &Entry, opts: DecodeOptions) -> (r: Result<(), DecodeError>)
        requires
            old(self)@.len() == schema.fields@.len(),
        ensures
            final(self)@.len() == schema.fields@.len(),
            match r {
                Ok(()) => accept_entry(schema.fields@, old(self)@, *e, opts) == Ok::<Seq<Option<ValueView>>, DecodeError>(final(self)@),
                Err(err) => accept_entry(schema.fields@, old(self)@, *e, opts) == Err::<Seq<Option<ValueView>>, DecodeError>(err),
            },
    {
        proof { crate::resolver::lemma_field_index_facts(schema.fields@, e.key@); }
        match resolve(schema, &e.key) {
            Err(err) => {
                if opts.ignore_unknown_fields {
                    Ok(())
                } else {
                    Err(err)
                }
            },
            Ok(i) => {
                let f = &schema.fields[i];
                if self.slots[i].is_some() {
                    return Err(DecodeError::DuplicateField(f.name.clone()));
                }
                let lenient = opts.lenient_on_type_error || f.lenient_on_type_error;
                match decode_value(f, &e.value, lenient) {
                    Ok(v) => {
                        let ghost before = self@;
                        let ghost vv = v@;
                        self.slots.set(i, Some(v));
                        assert(self@ =~= before.update(i as int, Some(vv)));
                        Ok(())
                    },
                    Err(err) => Err(err),
                }
            },
        }
    }
}

/// An error in the first `n` fields stays the error of every longer prefix.
pub proof fn lemma_narrow_err_extends(fields: Seq<FieldSchema>, slots: Seq<Option<ValueView>>, opts: DecodeOptions, n: nat, m: nat)
    requires
        n <= m,
        narrow_upto(fields, slots, opts, n) is Err,
    ensures
        narrow_upto(fields, slots, opts, m) == narrow_upto(fields, slots, opts, n),
    decreases m - n,
{
    if n < m {
        lemma_narrow_err_extends(fields, slots, opts, n, (m - 1) as nat);
    }
}

/// The final value of field `f` from its slot.
fn narrow_slot(f: &FieldSchema, slot: &Option<Value>, opts: DecodeOptions) -> (r: Result<Value, DecodeError>)
    ensures
        result_view(r) == narrow_field(*f, slot_view(*slot), opts),
{
    match slot {
        Some(v) => Ok(v.copy()),
        None => {
            if f.modifier == Modifier::Repeated {
                Ok(empty_value(&f.kind))
            } else {
                match &f.default {
                    Some(d) if opts.use_default_for_missing => Ok(d.copy()),
                    _ => Err(DecodeError::MissingField(f.name.clone())),
                }
            }
        },
    }
}

impl FieldAccumulator {
    /// Turns the slots into the finished record, field by field in
    /// declaration order: a repeated field without a value is empty, a
    /// single one takes its default where the options allow, and otherwise
    /// is missing.
    pub fn narrow(&self, schema: &RecordSchema, opts: DecodeOptions) -> (r: Result<Vec<Value>, DecodeError>)
        requires
            self@.len() == schema.fields@.len(),
        ensures
            match r {
                Ok(vs) => narrow(schema.fields@, self@, opts) == Ok::<Seq<ValueView>, DecodeError>(values_view(vs@)),
                Err(e) => narrow(schema.fields@, self@, opts) == Err::<Seq<ValueView>, DecodeError>(e),
            },
    {
        let mut out: Vec<Value> = Vec::new();
        let mut i: usize = 0;
        assert(values_view(out@) =~= Seq::<ValueView>::empty());
        while i < schema.fields.len()
            invariant
                i <= schema.fields@.len(),
                self@.len() == schema.fields@.len(),
                narrow_upto(schema.fields@, self@, opts, i as nat) == Ok::<Seq<ValueView>, DecodeError>(values_view(out@)),
            decreases schema.fields@.len() - i,
        {
            assert(self@[i as int] == slot_view(self.slots@[i as int]));
            match narrow_slot(&schema.fields[i], &self.slots[i], opts) {
                Ok(v) => {
                    let ghost before = out@;
                    out.push(v);
                    assert(values_view(out@) =~= values_view(before).push(out@.last()@));
                },
                Err(e) => {
                    proof { lemma_narrow_err_extends(schema.fields@, self@, opts, i as nat + 1, schema.fields@.len()); }
                    return Err(e);
                },
            }
            i = i + 1;
        }
        Ok(out)
    }
}

} // verus!
