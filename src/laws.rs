//! Properties of the engine that hold for every schema and field source.
use vstd::prelude::*;

use crate::builder::{
    accept_entry, accumulate, empty_slots, lemma_narrow_err_extends, lenient_for, narrow,
    narrow_field, narrow_upto,
};
use crate::decoder::{
    base64_decoded, decode_all_base64, decode_field, empty_of, enum_lookup,
    lemma_decode_all_err_extends, lemma_lookup_all_err_extends, lookup_all, text_of,
};
use crate::engine::{decode_result, lemma_accumulate_err_extends};
use crate::resolver::{field_index, lemma_field_index_facts};
use crate::schema::{
    DecodeError, DecodeKind, DecodeOptions, EnumVariant, Entry, FieldSchema, Modifier, RawView,
    RecordSchema, Scalar, ScalarType, ValueView, all_have_type, table_names_unique,
};

verus! {

/// No two fields share a name.
pub open spec fn names_unique(fields: Seq<FieldSchema>) -> bool {
    forall|i: int, j: int|
        0 <= i < fields.len() && 0 <= j < fields.len() && i != j ==> fields[i].name@ != fields[j].name@
}

/// The field that entry `j` names.
pub open spec fn target(fields: Seq<FieldSchema>, entries: Seq<Entry>, j: int) -> int {
    field_index(fields, entries[j].key@).unwrap()
}

/// The decoded value of entry `j` for the field it names.
pub open spec fn decoded(fields: Seq<FieldSchema>, entries: Seq<Entry>, opts: DecodeOptions, j: int) -> ValueView {
    let i = target(fields, entries, j);
    decode_field(fields[i], entries[j].value@, lenient_for(fields[i], opts)).unwrap()
}

/// Some entry among the first `k` names field `i`.
pub open spec fn named_before(fields: Seq<FieldSchema>, entries: Seq<Entry>, i: int, k: int) -> bool {
    exists|j: int| 0 <= j < k && (#[trigger] entries[j]).key@ == fields[i].name@
}

/// The source reads without error: every key names a field (or the options
/// ignore the keys that do not), no key that names a field comes twice, and
/// every value under such a key decodes for its field.
pub open spec fn clean_source(fields: Seq<FieldSchema>, entries: Seq<Entry>, opts: DecodeOptions) -> bool {
    &&& forall|j: int| 0 <= j < entries.len()
        ==> field_index(fields, (#[trigger] entries[j]).key@) is Some || opts.ignore_unknown_fields
    &&& forall|j1: int, j2: int|
        0 <= j1 < entries.len() && 0 <= j2 < entries.len() && j1 != j2 && field_index(fields, entries[j1].key@) is Some
            ==> entries[j1].key@ != entries[j2].key@
    &&& forall|j: int| 0 <= j < entries.len() && field_index(fields, entries[j].key@) is Some ==> {
        let i = #[trigger] target(fields, entries, j);
        decode_field(fields[i], entries[j].value@, lenient_for(fields[i], opts)) is Ok
    }
}

proof fn lemma_index_of_name(fields: Seq<FieldSchema>, i: int)
    requires
        names_unique(fields),
        0 <= i < fields.len(),
    ensures
        field_index(fields, fields[i].name@) == Some(i),
{
    lemma_field_index_facts(fields, fields[i].name@);
}

/// Reading a clean source fills exactly the slots of the fields that it
/// names, each with the decoded value of its entry.
proof fn lemma_clean_accumulate(fields: Seq<FieldSchema>, entries: Seq<Entry>, opts: DecodeOptions, k: int) -> (slots: Seq<Option<ValueView>>)
    requires
        names_unique(fields),
        clean_source(fields, entries, opts),
        0 <= k <= entries.len(),
    ensures
        accumulate(fields, entries.take(k), opts) == Ok::<Seq<Option<ValueView>>, DecodeError>(slots),
        slots.len() == fields.len(),
        forall|i: int| 0 <= i < fields.len() ==> (#[trigger] slots[i] is Some <==> named_before(fields, entries, i, k)),
        forall|j: int| 0 <= j < k && field_index(fields, entries[j].key@) is Some
            ==> slots[#[trigger] target(fields, entries, j)] == Some(decoded(fields, entries, opts, j)),
    decreases k,
{
    if k == 0 {
        assert(entries.take(0) =~= Seq::<Entry>::empty());
        empty_slots(fields.len())
    } else {
        let prev = lemma_clean_accumulate(fields, entries, opts, k - 1);
        assert(entries.take(k).drop_last() =~= entries.take(k - 1));
        let e = entries[k - 1];
        assert(entries.take(k).last() == e);
        lemma_field_index_facts(fields, e.key@);
        if field_index(fields, e.key@) is None {
            assert(accept_entry(fields, prev, e, opts) == Ok::<Seq<Option<ValueView>>, DecodeError>(prev));
            assert forall|i: int| 0 <= i < fields.len() implies (#[trigger] prev[i] is Some <==> named_before(fields, entries, i, k)) by {
                if named_before(fields, entries, i, k) {
                    let j = choose|j: int| 0 <= j < k && (#[trigger] entries[j]).key@ == fields[i].name@;
                    if j == k - 1 {
                        assert(fields[i].name@ != e.key@);
                    }
                    assert(named_before(fields, entries, i, k - 1));
                }
            }
            return prev;
        }
        let t = target(fields, entries, k - 1);
        assert(prev[t] is None) by {
            if named_before(fields, entries, t, k - 1) {
                let j = choose|j: int| 0 <= j < k - 1 && (#[trigger] entries[j]).key@ == fields[t].name@;
                assert(entries[j].key@ == e.key@);
            }
        }
        let v = decoded(fields, entries, opts, k - 1);
        let slots = prev.update(t, Some(v));
        assert(accept_entry(fields, prev, e, opts) == Ok::<Seq<Option<ValueView>>, DecodeError>(slots));
        assert forall|i: int| 0 <= i < fields.len() implies (#[trigger] slots[i] is Some <==> named_before(fields, entries, i, k)) by {
            if i == t {
                assert(entries[k - 1].key@ == fields[i].name@);
            } else {
                if named_before(fields, entries, i, k) {
                    let j = choose|j: int| 0 <= j < k && (#[trigger] entries[j]).key@ == fields[i].name@;
                    if j == k - 1 {
                        lemma_index_of_name(fields, i);
                        assert(false);
                    }
                }
            }
        }
        assert forall|j: int| 0 <= j < k && field_index(fields, entries[j].key@) is Some
            implies slots[#[trigger] target(fields, entries, j)] == Some(decoded(fields, entries, opts, j)) by {
            if j < k - 1 {
                let tj = target(fields, entries, j);
                lemma_field_index_facts(fields, entries[j].key@);
                if tj == t {
                    assert(entries[j].key@ == fields[t].name@);
                    assert(entries[j].key@ == e.key@);
                }
            }
        }
        slots
    }
}

/// Narrowing succeeds on every prefix whose fields all narrow.
proof fn lemma_narrow_prefix_ok(fields: Seq<FieldSchema>, slots: Seq<Option<ValueView>>, opts: DecodeOptions, n: nat)
    requires
        n <= fields.len(),
        n <= slots.len(),
        forall|i: int| 0 <= i < n ==> (#[trigger] narrow_field(fields[i], slots[i], opts)) is Ok,
    ensures
        narrow_upto(fields, slots, opts, n) is Ok,
        narrow_upto(fields, slots, opts, n).unwrap().len() == n,
        forall|i: int| 0 <= i < n ==> narrow_upto(fields, slots, opts, n).unwrap()[i]
            == (#[trigger] narrow_field(fields[i], slots[i], opts)).unwrap(),
    decreases n,
{
    if n > 0 {
        lemma_narrow_prefix_ok(fields, slots, opts, (n - 1) as nat);
        assert(narrow_field(fields[n - 1], slots[n - 1], opts) is Ok);
    }
}

/// Narrowing fails with the error of the first field that does not narrow.
proof fn lemma_narrow_first_err(fields: Seq<FieldSchema>, slots: Seq<Option<ValueView>>, opts: DecodeOptions, i: int)
    requires
        0 <= i < fields.len(),
        fields.len() <= slots.len(),
        forall|k: int| 0 <= k < i ==> (#[trigger] narrow_field(fields[k], slots[k], opts)) is Ok,
        narrow_field(fields[i], slots[i], opts) is Err,
    ensures
        narrow(fields, slots, opts) == Err::<Seq<ValueView>, DecodeError>(narrow_field(fields[i], slots[i], opts)->Err_0),
{
    lemma_narrow_prefix_ok(fields, slots, opts, i as nat);
    lemma_narrow_err_extends(fields, slots, opts, (i + 1) as nat, fields.len());
}

/// A failed narrowing fails with the error of some field.
proof fn lemma_narrow_err_source(fields: Seq<FieldSchema>, slots: Seq<Option<ValueView>>, opts: DecodeOptions, n: nat)
    requires
        n <= fields.len(),
        n <= slots.len(),
        narrow_upto(fields, slots, opts, n) is Err,
    ensures
        exists|k: int| 0 <= k < n && (#[trigger] narrow_field(fields[k], slots[k], opts)) == Err::<ValueView, DecodeError>(narrow_upto(fields, slots, opts, n)->Err_0),
    decreases n,
{
    if narrow_upto(fields, slots, opts, (n - 1) as nat) is Err {
        lemma_narrow_err_source(fields, slots, opts, (n - 1) as nat);
    } else {
        assert(narrow_field(fields[n - 1], slots[n - 1], opts) == Err::<ValueView, DecodeError>(narrow_upto(fields, slots, opts, n)->Err_0));
    }
}

/// A successful narrowing narrows every field.
proof fn lemma_narrow_ok_all(fields: Seq<FieldSchema>, slots: Seq<Option<ValueView>>, opts: DecodeOptions, n: nat)
    requires
        n <= fields.len(),
        n <= slots.len(),
        narrow_upto(fields, slots, opts, n) is Ok,
    ensures
        forall|i: int| 0 <= i < n ==> (#[trigger] narrow_field(fields[i], slots[i], opts)) is Ok,
    decreases n,
{
    if n > 0 {
        lemma_narrow_ok_all(fields, slots, opts, (n - 1) as nat);
    }
}

/// A clean source in which every single field is present, or absent with a
/// default that the options apply, decodes to the record of its entries.
proof fn lemma_clean_decode_ok(fields: Seq<FieldSchema>, entries: Seq<Entry>, opts: DecodeOptions) -> (rec: Seq<ValueView>)
    requires
        names_unique(fields),
        clean_source(fields, entries, opts),
        forall|i: int| 0 <= i < fields.len() && fields[i].modifier == Modifier::Single
            && !(#[trigger] named_before(fields, entries, i, entries.len() as int))
            ==> opts.use_default_for_missing && fields[i].default is Some,
    ensures
        decode_result(fields, entries, opts) == Ok::<Seq<ValueView>, DecodeError>(rec),
        rec.len() == fields.len(),
        forall|j: int| 0 <= j < entries.len() && field_index(fields, entries[j].key@) is Some
            ==> rec[#[trigger] target(fields, entries, j)] == decoded(fields, entries, opts, j),
        forall|i: int| 0 <= i < fields.len() && !(#[trigger] named_before(fields, entries, i, entries.len() as int))
            ==> rec[i] == if fields[i].modifier == Modifier::Repeated {
                empty_of(fields[i].kind)
            } else {
                fields[i].default.unwrap()@
            },
{
    let slots = lemma_clean_accumulate(fields, entries, opts, entries.len() as int);
    assert(entries.take(entries.len() as int) =~= entries);
    assert forall|i: int| 0 <= i < fields.len() implies (#[trigger] narrow_field(fields[i], slots[i], opts)) is Ok by {
        assert(slots[i] is Some <==> named_before(fields, entries, i, entries.len() as int));
    }
    lemma_narrow_prefix_ok(fields, slots, opts, fields.len());
    let rec = narrow(fields, slots, opts).unwrap();
    assert forall|j: int| 0 <= j < entries.len() && field_index(fields, entries[j].key@) is Some
        implies rec[#[trigger] target(fields, entries, j)] == decoded(fields, entries, opts, j) by {
        lemma_field_index_facts(fields, entries[j].key@);
        assert(narrow_field(fields[target(fields, entries, j)], slots[target(fields, entries, j)], opts) is Ok);
    }
    assert forall|i: int| 0 <= i < fields.len() && !(#[trigger] named_before(fields, entries, i, entries.len() as int))
        implies rec[i] == if fields[i].modifier == Modifier::Repeated {
            empty_of(fields[i].kind)
        } else {
            fields[i].default.unwrap()@
        } by {
        assert(narrow_field(fields[i], slots[i], opts) is Ok);
    }
    rec
}

/// A source with one decodable value for each single field, any of the
/// repeated ones, and no key outside the schema (or only keys that the
/// options ignore) decodes: the record holds,
/// in schema order, the decoded value of each entry's field, and the empty
/// sequence for each repeated field left out.
pub proof fn law_well_formed_source_decodes(schema: RecordSchema, entries: Seq<Entry>, opts: DecodeOptions)
    requires
        schema.wf(),
        clean_source(schema.fields@, entries, opts),
        forall|i: int| 0 <= i < schema.fields@.len() && schema.fields@[i].modifier == Modifier::Single
            ==> #[trigger] named_before(schema.fields@, entries, i, entries.len() as int),
    ensures
        decode_result(schema.fields@, entries, opts) is Ok,
        decode_result(schema.fields@, entries, opts).unwrap().len() == schema.fields@.len(),
        forall|j: int| 0 <= j < entries.len() && field_index(schema.fields@, entries[j].key@) is Some
            ==> decode_result(schema.fields@, entries, opts).unwrap()[
            #[trigger] target(schema.fields@, entries, j)] == decoded(schema.fields@, entries, opts, j),
        forall|i: int| 0 <= i < schema.fields@.len() && !(#[trigger] named_before(schema.fields@, entries, i, entries.len() as int))
            ==> decode_result(schema.fields@, entries, opts).unwrap()[i] == empty_of(schema.fields@[i].kind),
{
    lemma_clean_decode_ok(schema.fields@, entries, opts);
}

/// Decoding depends on the keys and the raw values alone: two reads of the
/// same source give the same record, or the same error.
pub proof fn law_decode_deterministic(schema: RecordSchema, a: Seq<Entry>, b: Seq<Entry>, opts: DecodeOptions)
    requires
        a.len() == b.len(),
        forall|j: int| 0 <= j < a.len() ==> (#[trigger] a[j]).key == b[j].key && a[j].value@ == b[j].value@,
    ensures
        decode_result(schema.fields@, a, opts) == decode_result(schema.fields@, b, opts),
{
    lemma_same_entries_accumulate(schema.fields@, a, b, opts, a.len() as int);
    assert(a.take(a.len() as int) =~= a);
    assert(b.take(b.len() as int) =~= b);
}

proof fn lemma_same_entries_accumulate(fields: Seq<FieldSchema>, a: Seq<Entry>, b: Seq<Entry>, opts: DecodeOptions, k: int)
    requires
        a.len() == b.len(),
        0 <= k <= a.len(),
        forall|j: int| 0 <= j < a.len() ==> (#[trigger] a[j]).key == b[j].key && a[j].value@ == b[j].value@,
    ensures
        accumulate(fields, a.take(k), opts) == accumulate(fields, b.take(k), opts),
    decreases k,
{
    if k > 0 {
        lemma_same_entries_accumulate(fields, a, b, opts, k - 1);
        assert(a.take(k).drop_last() =~= a.take(k - 1));
        assert(b.take(k).drop_last() =~= b.take(k - 1));
        assert(a.take(k).last() == a[k - 1]);
        assert(b.take(k).last() == b[k - 1]);
    }
}

/// A key that comes a second time fails the decode with `DuplicateField`
/// for that field, whatever the values, provided nothing before the second
/// occurrence failed first.
pub proof fn law_duplicate_key_fails(schema: RecordSchema, entries: Seq<Entry>, opts: DecodeOptions, j1: int, j2: int)
    requires
        schema.wf(),
        0 <= j1 < j2 < entries.len(),
        entries[j1].key@ == entries[j2].key@,
        field_index(schema.fields@, entries[j2].key@) is Some,
        clean_source(schema.fields@, entries.take(j2), opts),
    ensures
        schema.fields@[target(schema.fields@, entries, j2)].name@ == entries[j2].key@,
        decode_result(schema.fields@, entries, opts) == Err::<Seq<ValueView>, DecodeError>(
            DecodeError::DuplicateField(schema.fields@[target(schema.fields@, entries, j2)].name),
        ),
{
    let fields = schema.fields@;
    let pre = entries.take(j2);
    assert(pre[j1] == entries[j1]);
    let slots = lemma_clean_accumulate(fields, pre, opts, j2);
    assert(pre.take(j2) =~= pre);
    assert(entries.take(j2 + 1).drop_last() =~= pre);
    assert(entries.take(j2 + 1).last() == entries[j2]);
    lemma_field_index_facts(fields, entries[j2].key@);
    let t = target(fields, entries, j2);
    assert(target(fields, pre, j1) == t);
    assert(slots[t] is Some);
    lemma_accumulate_err_extends(fields, entries, opts, j2 + 1);
}

/// A single field left out, with no default that the options apply, fails
/// the decode with `MissingField` for it, provided every field before it is
/// present or defaulted.
pub proof fn law_missing_field_fails(schema: RecordSchema, entries: Seq<Entry>, opts: DecodeOptions, i: int)
    requires
        schema.wf(),
        clean_source(schema.fields@, entries, opts),
        0 <= i < schema.fields@.len(),
        schema.fields@[i].modifier == Modifier::Single,
        !named_before(schema.fields@, entries, i, entries.len() as int),
        !(opts.use_default_for_missing && schema.fields@[i].default is Some),
        forall|k: int| 0 <= k < i && schema.fields@[k].modifier == Modifier::Single
            && !(#[trigger] named_before(schema.fields@, entries, k, entries.len() as int))
            ==> opts.use_default_for_missing && schema.fields@[k].default is Some,
    ensures
        decode_result(schema.fields@, entries, opts) == Err::<Seq<ValueView>, DecodeError>(
            DecodeError::MissingField(schema.fields@[i].name),
        ),
{
    let fields = schema.fields@;
    let slots = lemma_clean_accumulate(fields, entries, opts, entries.len() as int);
    assert(entries.take(entries.len() as int) =~= entries);
    assert forall|k: int| 0 <= k < i implies (#[trigger] narrow_field(fields[k], slots[k], opts)) is Ok by {
        assert(slots[k] is Some <==> named_before(fields, entries, k, entries.len() as int));
    }
    assert(slots[i] is None);
    lemma_narrow_first_err(fields, slots, opts, i);
}

/// With defaults for missing fields on, a single field left out takes its
/// default, with no error.
pub proof fn law_missing_field_takes_default(schema: RecordSchema, entries: Seq<Entry>, opts: DecodeOptions, i: int)
    requires
        schema.wf(),
        clean_source(schema.fields@, entries, opts),
        opts.use_default_for_missing,
        forall|k: int| 0 <= k < schema.fields@.len() && schema.fields@[k].modifier == Modifier::Single
            && !(#[trigger] named_before(schema.fields@, entries, k, entries.len() as int))
            ==> schema.fields@[k].default is Some,
        0 <= i < schema.fields@.len(),
        schema.fields@[i].modifier == Modifier::Single,
        !named_before(schema.fields@, entries, i, entries.len() as int),
    ensures
        decode_result(schema.fields@, entries, opts) is Ok,
        decode_result(schema.fields@, entries, opts).unwrap()[i] == schema.fields@[i].default.unwrap()@,
{
    lemma_clean_decode_ok(schema.fields@, entries, opts);
}

/// While no entry names field `i`, its slot stays absent.
proof fn lemma_unnamed_slot_absent(fields: Seq<FieldSchema>, entries: Seq<Entry>, opts: DecodeOptions, i: int)
    requires
        0 <= i < fields.len(),
        forall|j: int| 0 <= j < entries.len() ==> (#[trigger] entries[j]).key@ != fields[i].name@,
    ensures
        accumulate(fields, entries, opts) is Ok ==> accumulate(fields, entries, opts).unwrap().len() == fields.len()
            && accumulate(fields, entries, opts).unwrap()[i] is None,
    decreases entries.len(),
{
    if entries.len() > 0 {
        let init = entries.drop_last();
        assert forall|j: int| 0 <= j < init.len() implies (#[trigger] init[j]).key@ != fields[i].name@ by {
            assert(init[j] == entries[j]);
        }
        lemma_unnamed_slot_absent(fields, init, opts, i);
        lemma_field_index_facts(fields, entries.last().key@);
        assert(entries.last() == entries[entries.len() - 1]);
    }
}

/// Reading the entries never fails with `MissingField`.
proof fn lemma_accumulate_never_missing(fields: Seq<FieldSchema>, entries: Seq<Entry>, opts: DecodeOptions)
    ensures
        accumulate(fields, entries, opts) is Err ==> !(accumulate(fields, entries, opts)->Err_0 is MissingField),
    decreases entries.len(),
{
    if entries.len() > 0 {
        lemma_accumulate_never_missing(fields, entries.drop_last(), opts);
    }
}

/// Narrowing gives the same outcome for two slot sequences whose fields
/// narrow alike.
proof fn lemma_narrow_same(fields: Seq<FieldSchema>, a: Seq<Option<ValueView>>, b: Seq<Option<ValueView>>, opts: DecodeOptions, n: nat)
    requires
        n <= fields.len(),
        n <= a.len(),
        n <= b.len(),
        forall|k: int| 0 <= k < n ==> #[trigger] narrow_field(fields[k], a[k], opts) == narrow_field(fields[k], b[k], opts),
    ensures
        narrow_upto(fields, a, opts, n) == narrow_upto(fields, b, opts, n),
    decreases n,
{
    if n > 0 {
        lemma_narrow_same(fields, a, b, opts, (n - 1) as nat);
        assert(narrow_field(fields[n - 1], a[n - 1], opts) == narrow_field(fields[n - 1], b[n - 1], opts));
    }
}

/// A repeated field left out never causes an error: it is the empty
/// sequence in any record decoded, no failure is `MissingField` for it, and
/// the outcome is the same as with the field given as an empty sequence.
pub proof fn law_absent_repeated_field_is_empty(schema: RecordSchema, entries: Seq<Entry>, opts: DecodeOptions, i: int, empty: Entry)
    requires
        schema.wf(),
        0 <= i < schema.fields@.len(),
        schema.fields@[i].modifier == Modifier::Repeated,
        forall|j: int| 0 <= j < entries.len() ==> (#[trigger] entries[j]).key@ != schema.fields@[i].name@,
        empty.key@ == schema.fields@[i].name@,
        empty.value@ == RawView::Many(Seq::empty()),
    ensures
        decode_result(schema.fields@, entries, opts) is Ok
            ==> decode_result(schema.fields@, entries, opts).unwrap()[i] == empty_of(schema.fields@[i].kind),
        decode_result(schema.fields@, entries, opts) != Err::<Seq<ValueView>, DecodeError>(
            DecodeError::MissingField(schema.fields@[i].name),
        ),
        decode_result(schema.fields@, entries.push(empty), opts) == decode_result(schema.fields@, entries, opts),
{
    let fields = schema.fields@;
    let n = fields.len();
    lemma_unnamed_slot_absent(fields, entries, opts, i);
    lemma_accumulate_never_missing(fields, entries, opts);
    let longer = entries.push(empty);
    assert(longer.drop_last() =~= entries);
    assert(longer.last() == empty);
    if accumulate(fields, entries, opts) is Ok {
        let slots = accumulate(fields, entries, opts).unwrap();
        assert(slots[i] is None);
        lemma_index_of_name(fields, i);
        let ev = empty_of(fields[i].kind);
        assert(decode_field(fields[i], empty.value@, lenient_for(fields[i], opts)) == Ok::<ValueView, DecodeError>(ev)) by {
            assert(all_have_type(Seq::<Scalar>::empty(), ScalarType::Text));
            match fields[i].kind {
                DecodeKind::Scalar(ty) => {
                    assert(all_have_type(Seq::<Scalar>::empty(), ty));
                },
                DecodeKind::Enumeration(table) => {
                    assert(lookup_all(table@, Seq::<Scalar>::empty()) == Ok::<Seq<i32>, String>(Seq::empty()));
                },
                DecodeKind::Bytes => {
                    assert(decode_all_base64(Seq::<Scalar>::empty()) == Ok::<Seq<Seq<u8>>, String>(Seq::empty()));
                },
            }
        }
        let filled = slots.update(i, Some(ev));
        assert(accumulate(fields, longer, opts) == Ok::<Seq<Option<ValueView>>, DecodeError>(filled));
        assert forall|k: int| 0 <= k < n implies #[trigger] narrow_field(fields[k], filled[k], opts) == narrow_field(fields[k], slots[k], opts) by {}
        lemma_narrow_same(fields, filled, slots, opts, n);
        if narrow(fields, slots, opts) is Ok {
            lemma_narrow_ok_all(fields, slots, opts, n);
            lemma_narrow_prefix_ok(fields, slots, opts, n);
            assert(narrow_field(fields[i], slots[i], opts) == Ok::<ValueView, DecodeError>(ev));
        } else {
            lemma_narrow_err_source(fields, slots, opts, n);
            let k = choose|k: int| 0 <= k < n && (#[trigger] narrow_field(fields[k], slots[k], opts))
                == Err::<ValueView, DecodeError>(narrow_upto(fields, slots, opts, n)->Err_0);
            if narrow(fields, slots, opts) == Err::<Seq<ValueView>, DecodeError>(DecodeError::MissingField(fields[i].name)) {
                assert(fields[k].name == fields[i].name);
                assert(k != i);
            }
        }
    }
}

/// The code of a variant of a table without repeated names.
proof fn lemma_enum_lookup_finds(table: Seq<EnumVariant>, k: int)
    requires
        table_names_unique(table),
        0 <= k < table.len(),
    ensures
        enum_lookup(table, table[k].name@) == Some(table[k].code),
    decreases table.len(),
{
    let init = table.drop_last();
    if k < table.len() - 1 {
        assert(table_names_unique(init)) by {
            assert forall|a: int, b: int| 0 <= a < init.len() && 0 <= b < init.len() && a != b
                implies init[a].name@ != init[b].name@ by {
                assert(init[a] == table[a] && init[b] == table[b]);
            }
        }
        assert(init[k] == table[k]);
        lemma_enum_lookup_finds(init, k);
    } else {
        lemma_enum_lookup_none(init, table[k].name@);
    }
}

/// A name that no variant has is found nowhere.
proof fn lemma_enum_lookup_none(table: Seq<EnumVariant>, name: Seq<char>)
    requires
        forall|k: int| 0 <= k < table.len() ==> (#[trigger] table[k]).name@ != name,
    ensures
        enum_lookup(table, name) is None,
    decreases table.len(),
{
    if table.len() > 0 {
        let init = table.drop_last();
        assert forall|k: int| 0 <= k < init.len() implies (#[trigger] init[k]).name@ != name by {
            assert(init[k] == table[k]);
        }
        lemma_enum_lookup_none(init, name);
    }
}

/// Every name of a single enumeration field's table decodes to its code.
pub proof fn law_enum_name_decodes_to_code(f: FieldSchema, k: int, lenient: bool)
    requires
        f.wf(),
        f.kind is Enumeration,
        f.modifier == Modifier::Single,
        0 <= k < f.kind->Enumeration_0@.len(),
    ensures
        decode_field(f, RawView::One(Scalar::Text(f.kind->Enumeration_0@[k].name)), lenient)
            == Ok::<ValueView, DecodeError>(ValueView::Code(f.kind->Enumeration_0@[k].code)),
{
    lemma_enum_lookup_finds(f.kind->Enumeration_0@, k);
}

/// Any other string fails with `UnknownEnumVariant`, lenient or not.
pub proof fn law_unknown_enum_name_fails(f: FieldSchema, s: String, lenient: bool)
    requires
        f.kind is Enumeration,
        f.modifier == Modifier::Single,
        forall|k: int| 0 <= k < f.kind->Enumeration_0@.len() ==> (#[trigger] f.kind->Enumeration_0@[k]).name@ != s@,
    ensures
        decode_field(f, RawView::One(Scalar::Text(s)), lenient)
            == Err::<ValueView, DecodeError>(DecodeError::UnknownEnumVariant(f.name, s)),
{
    lemma_enum_lookup_none(f.kind->Enumeration_0@, s@);
}

/// A single bytes field holds exactly what base64 decoding makes of its
/// string; a string that is not valid base64 fails with
/// `InvalidByteEncoding`, lenient or not.
pub proof fn law_bytes_decode_base64(f: FieldSchema, s: String, lenient: bool)
    requires
        f.kind is Bytes,
        f.modifier == Modifier::Single,
    ensures
        decode_field(f, RawView::One(Scalar::Text(s)), lenient) == match base64_decoded(s@) {
            Some(b) => Ok::<ValueView, DecodeError>(ValueView::Bytes(b)),
            None => Err::<ValueView, DecodeError>(DecodeError::InvalidByteEncoding(f.name, s)),
        },
{
}

/// Names that are all found look up to their codes, in order.
proof fn lemma_lookup_all_found(table: Seq<EnumVariant>, names: Seq<Scalar>)
    requires
        forall|j: int| 0 <= j < names.len() ==> enum_lookup(table, text_of(#[trigger] names[j])@) is Some,
    ensures
        lookup_all(table, names) == Ok::<Seq<i32>, String>(
            Seq::new(names.len(), |j: int| enum_lookup(table, text_of(names[j])@).unwrap()),
        ),
    decreases names.len(),
{
    if names.len() > 0 {
        let init = names.drop_last();
        assert forall|j: int| 0 <= j < init.len() implies enum_lookup(table, text_of(#[trigger] init[j])@) is Some by {
            assert(init[j] == names[j]);
        }
        lemma_lookup_all_found(table, init);
        assert(enum_lookup(table, text_of(names[names.len() - 1])@) is Some);
        assert(Seq::new(init.len(), |j: int| enum_lookup(table, text_of(init[j])@).unwrap()).push(
            enum_lookup(table, text_of(names.last())@).unwrap(),
        ) =~= Seq::new(names.len(), |j: int| enum_lookup(table, text_of(names[j])@).unwrap()));
    } else {
        assert(Seq::new(names.len(), |j: int| enum_lookup(table, text_of(names[j])@).unwrap()) =~= Seq::<i32>::empty());
    }
}

/// Every list of table names decodes, for a repeated enumeration field, to
/// the list of their codes in the same order.
pub proof fn law_enum_names_decode_to_codes(f: FieldSchema, ks: Seq<int>, lenient: bool)
    requires
        f.wf(),
        f.kind is Enumeration,
        f.modifier == Modifier::Repeated,
        forall|j: int| 0 <= j < ks.len() ==> 0 <= #[trigger] ks[j] < f.kind->Enumeration_0@.len(),
    ensures
        decode_field(
            f,
            RawView::Many(Seq::new(ks.len(), |j: int| Scalar::Text(f.kind->Enumeration_0@[ks[j]].name))),
            lenient,
        ) == Ok::<ValueView, DecodeError>(
            ValueView::Codes(Seq::new(ks.len(), |j: int| f.kind->Enumeration_0@[ks[j]].code)),
        ),
{
    let table = f.kind->Enumeration_0@;
    let names = Seq::new(ks.len(), |j: int| Scalar::Text(table[ks[j]].name));
    assert forall|j: int| 0 <= j < names.len() implies enum_lookup(table, text_of(#[trigger] names[j])@)
        == Some(table[ks[j]].code) by {
        lemma_enum_lookup_finds(table, ks[j]);
    }
    assert(all_have_type(names, ScalarType::Text));
    lemma_lookup_all_found(table, names);
    assert(Seq::new(names.len(), |j: int| enum_lookup(table, text_of(names[j])@).unwrap())
        =~= Seq::new(ks.len(), |j: int| table[ks[j]].code));
}

/// In a repeated enumeration field, the first name that is not in the
/// table fails the whole field with `UnknownEnumVariant`, lenient or not.
pub proof fn law_unknown_enum_name_in_list_fails(f: FieldSchema, names: Seq<Scalar>, p: int, lenient: bool)
    requires
        f.wf(),
        f.kind is Enumeration,
        f.modifier == Modifier::Repeated,
        all_have_type(names, ScalarType::Text),
        0 <= p < names.len(),
        forall|j: int| 0 <= j < p ==> exists|k: int|
            0 <= k < f.kind->Enumeration_0@.len() && (#[trigger] f.kind->Enumeration_0@[k]).name@ == text_of(#[trigger] names[j])@,
        forall|k: int| 0 <= k < f.kind->Enumeration_0@.len()
            ==> (#[trigger] f.kind->Enumeration_0@[k]).name@ != text_of(names[p])@,
    ensures
        decode_field(f, RawView::Many(names), lenient)
            == Err::<ValueView, DecodeError>(DecodeError::UnknownEnumVariant(f.name, text_of(names[p]))),
{
    let table = f.kind->Enumeration_0@;
    let pre = names.take(p);
    assert forall|j: int| 0 <= j < pre.len() implies enum_lookup(table, text_of(#[trigger] pre[j])@) is Some by {
        assert(pre[j] == names[j]);
        let k = choose|k: int| 0 <= k < table.len() && (#[trigger] table[k]).name@ == text_of(names[j])@;
        lemma_enum_lookup_finds(table, k);
    }
    lemma_lookup_all_found(table, pre);
    lemma_enum_lookup_none(table, text_of(names[p])@);
    assert(names.take(p + 1).drop_last() =~= pre);
    assert(names.take(p + 1).last() == names[p]);
    lemma_lookup_all_err_extends(table, names, p + 1);
}

/// Texts that all decode from base64 give their bytes, in order.
proof fn lemma_decode_all_found(items: Seq<Scalar>)
    requires
        forall|j: int| 0 <= j < items.len() ==> base64_decoded(text_of(#[trigger] items[j])@) is Some,
    ensures
        decode_all_base64(items) == Ok::<Seq<Seq<u8>>, String>(
            Seq::new(items.len(), |j: int| base64_decoded(text_of(items[j])@).unwrap()),
        ),
    decreases items.len(),
{
    if items.len() > 0 {
        let init = items.drop_last();
        assert forall|j: int| 0 <= j < init.len() implies base64_decoded(text_of(#[trigger] init[j])@) is Some by {
            assert(init[j] == items[j]);
        }
        lemma_decode_all_found(init);
        assert(base64_decoded(text_of(items[items.len() - 1])@) is Some);
        assert(Seq::new(init.len(), |j: int| base64_decoded(text_of(init[j])@).unwrap()).push(
            base64_decoded(text_of(items.last())@).unwrap(),
        ) =~= Seq::new(items.len(), |j: int| base64_decoded(text_of(items[j])@).unwrap()));
    } else {
        assert(Seq::new(items.len(), |j: int| base64_decoded(text_of(items[j])@).unwrap()) =~= Seq::<Seq<u8>>::empty());
    }
}

/// A repeated bytes field holds, in order, exactly what base64 decoding
/// makes of each of its strings, when all of them are valid.
pub proof fn law_bytes_list_decode_base64(f: FieldSchema, items: Seq<Scalar>, lenient: bool)
    requires
        f.kind is Bytes,
        f.modifier == Modifier::Repeated,
        all_have_type(items, ScalarType::Text),
        forall|j: int| 0 <= j < items.len() ==> base64_decoded(text_of(#[trigger] items[j])@) is Some,
    ensures
        decode_field(f, RawView::Many(items), lenient) == Ok::<ValueView, DecodeError>(
            ValueView::BytesList(Seq::new(items.len(), |j: int| base64_decoded(text_of(items[j])@).unwrap())),
        ),
{
    lemma_decode_all_found(items);
}

/// In a repeated bytes field, the first string that is not valid base64
/// fails the whole field with `InvalidByteEncoding`, lenient or not.
pub proof fn law_invalid_base64_in_list_fails(f: FieldSchema, items: Seq<Scalar>, p: int, lenient: bool)
    requires
        f.kind is Bytes,
        f.modifier == Modifier::Repeated,
        all_have_type(items, ScalarType::Text),
        0 <= p < items.len(),
        forall|j: int| 0 <= j < p ==> base64_decoded(text_of(#[trigger] items[j])@) is Some,
        base64_decoded(text_of(items[p])@) is None,
    ensures
        decode_field(f, RawView::Many(items), lenient)
            == Err::<ValueView, DecodeError>(DecodeError::InvalidByteEncoding(f.name, text_of(items[p]))),
{
    let pre = items.take(p);
    assert forall|j: int| 0 <= j < pre.len() implies base64_decoded(text_of(#[trigger] pre[j])@) is Some by {
        assert(pre[j] == items[j]);
    }
    lemma_decode_all_found(pre);
    assert(items.take(p + 1).drop_last() =~= pre);
    assert(items.take(p + 1).last() == items[p]);
    lemma_decode_all_err_extends(items, p + 1);
}

} // verus!
