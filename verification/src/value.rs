//! Component values, and which of them may pass between plugins.

use crate::error::DispatchError;
use vstd::prelude::*;
use wasmtime::component::{FutureAny, ResourceAny, StreamAny};

verus! {

/// A value that a component function takes or returns. The two floating-point variants hold
/// the bits of the number.
#[derive(Debug)]
pub enum Value {
    Bool(bool),
    S8(i8),
    U8(u8),
    S16(i16),
    U16(u16),
    S32(i32),
    U32(u32),
    S64(i64),
    U64(u64),
    Float32(u32),
    Float64(u64),
    Char(char),
    String(String),
    List(Vec<Value>),
    Mapping(Vec<(Value, Value)>),
    Record(Vec<(String, Value)>),
    Tuple(Vec<Value>),
    Variant(String, Option<Box<Value>>),
    Enum(String),
    Option(Option<Box<Value>>),
    Result(Result<Option<Box<Value>>, Option<Box<Value>>>),
    Flags(Vec<String>),
    Resource(ResourceAny),
    Future(FutureAny),
    Stream(StreamAny),
    /// An error context, whose handle the engine keeps to itself.
    ErrorContext,
    FixedLengthList(Vec<Value>),
}

/// Nothing in a value keeps it from passing between plugins: neither it nor a value inside it
/// is a future, a stream or an error context.
pub open spec fn supported(value: Value) -> bool
    decreases value,
{
    match value {
        Value::List(values) => forall|i: int|
            0 <= i < values@.len() ==> supported(#[trigger] values@[i]),
        Value::Tuple(values) => forall|i: int|
            0 <= i < values@.len() ==> supported(#[trigger] values@[i]),
        Value::FixedLengthList(values) => forall|i: int|
            0 <= i < values@.len() ==> supported(#[trigger] values@[i]),
        Value::Mapping(entries) => forall|i: int|
            0 <= i < entries@.len() ==> supported((#[trigger] entries@[i]).0) && supported(
                entries@[i].1,
            ),
        Value::Record(fields) => forall|i: int|
            0 <= i < fields@.len() ==> supported((#[trigger] fields@[i]).1),
        Value::Variant(_, Some(inner)) => supported(*inner),
        Value::Option(Some(inner)) => supported(*inner),
        Value::Result(Ok(Some(inner))) => supported(*inner),
        Value::Result(Err(Some(inner))) => supported(*inner),
        Value::Future(_) => false,
        Value::Stream(_) => false,
        Value::ErrorContext => false,
        _ => true,
    }
}

/// The name of the first thing in a value that keeps it from passing, in the order in which
/// the value is written: of an entry the key comes before what it maps to.
pub open spec fn first_barred(value: Value) -> Option<Seq<char>>
    decreases value,
{
    match value {
        Value::List(values) => first_barred_of(values@),
        Value::Tuple(values) => first_barred_of(values@),
        Value::FixedLengthList(values) => first_barred_of(values@),
        Value::Mapping(entries) => first_barred_entry(entries@),
        Value::Record(fields) => first_barred_field(fields@),
        Value::Variant(_, Some(inner)) => first_barred(*inner),
        Value::Option(Some(inner)) => first_barred(*inner),
        Value::Result(Ok(Some(inner))) => first_barred(*inner),
        Value::Result(Err(Some(inner))) => first_barred(*inner),
        Value::Future(_) => Some("future"@),
        Value::Stream(_) => Some("stream"@),
        Value::ErrorContext => Some("error-context"@),
        _ => None,
    }
}

/// The first such name among several values.
pub open spec fn first_barred_of(values: Seq<Value>) -> Option<Seq<char>>
    decreases values,
{
    if values.len() == 0 {
        None
    } else if first_barred(values[0]) is Some {
        first_barred(values[0])
    } else {
        first_barred_of(values.subrange(1, values.len() as int))
    }
}

/// The first such name among the entries of a mapping.
pub open spec fn first_barred_entry(entries: Seq<(Value, Value)>) -> Option<Seq<char>>
    decreases entries,
{
    if entries.len() == 0 {
        None
    } else if first_barred(entries[0].0) is Some {
        first_barred(entries[0].0)
    } else if first_barred(entries[0].1) is Some {
        first_barred(entries[0].1)
    } else {
        first_barred_entry(entries.subrange(1, entries.len() as int))
    }
}

/// The first such name among the fields of a record.
pub open spec fn first_barred_field(fields: Seq<(String, Value)>) -> Option<Seq<char>>
    decreases fields,
{
    if fields.len() == 0 {
        None
    } else if first_barred(fields[0].1) is Some {
        first_barred(fields[0].1)
    } else {
        first_barred_field(fields.subrange(1, fields.len() as int))
    }
}

/// A result that reports the first barred thing as an unsupported type, or nothing.
pub open spec fn reports(result: Result<(), DispatchError>, barred: Option<Seq<char>>) -> bool {
    match barred {
        None => result is Ok,
        Some(name) => result matches Err(DispatchError::UnsupportedType(reported)) && reported@
            == name,
    }
}

/// Accepts values that may pass between plugins, and names the first thing that may not.
pub fn ensure_supported_values(values: &[Value]) -> (result: Result<(), DispatchError>)
    ensures
        reports(result, first_barred_of(values@)),
    decreases values@,
{
    let mut i: usize = 0;
    assert(values@.subrange(0, values@.len() as int) =~= values@);
    while i < values.len()
        invariant
            i <= values@.len(),
            first_barred_of(values@) == first_barred_of(
                values@.subrange(i as int, values@.len() as int),
            ),
        decreases values.len() - i,
    {
        proof {
            let rest = values@.subrange(i as int, values@.len() as int);
            assert(rest[0] == values@[i as int]);
            assert(rest.subrange(1, rest.len() as int) =~= values@.subrange(
                i + 1,
                values@.len() as int,
            ));
            assert(decreases_to!(values@ => values@[i as int]));
        }
        let checked = ensure_supported_value(&values[i]);
        if checked.is_err() {
            return checked;
        }
        i = i + 1;
    }
    assert(values@.subrange(i as int, values@.len() as int).len() == 0);
    Ok(())
}

/// Accepts a value that may pass between plugins, and names the first thing in it that may not.
pub fn ensure_supported_value(value: &Value) -> (result: Result<(), DispatchError>)
    ensures
        reports(result, first_barred(*value)),
    decreases value,
{
    match value {
        Value::List(values) => ensure_supported_values(values.as_slice()),
        Value::Tuple(values) => ensure_supported_values(values.as_slice()),
        Value::FixedLengthList(values) => ensure_supported_values(values.as_slice()),
        Value::Mapping(entries) => {
            let mut i: usize = 0;
            assert(entries@.subrange(0, entries@.len() as int) =~= entries@);
            while i < entries.len()
                invariant
                    i <= entries@.len(),
                    *value == Value::Mapping(*entries),
                    first_barred(*value) == first_barred_entry(
                        entries@.subrange(i as int, entries@.len() as int),
                    ),
                decreases entries.len() - i,
            {
                proof {
                    let rest = entries@.subrange(i as int, entries@.len() as int);
                    assert(rest[0] == entries@[i as int]);
                    assert(rest.subrange(1, rest.len() as int) =~= entries@.subrange(
                        i + 1,
                        entries@.len() as int,
                    ));
                    assert(decreases_to!(*value => entries@[i as int]));
                }
                let key = ensure_supported_value(&entries[i].0);
                if key.is_err() {
                    return key;
                }
                let mapped = ensure_supported_value(&entries[i].1);
                if mapped.is_err() {
                    return mapped;
                }
                i = i + 1;
            }
            assert(entries@.subrange(i as int, entries@.len() as int).len() == 0);
            Ok(())
        },
        Value::Record(fields) => {
            let mut i: usize = 0;
            assert(fields@.subrange(0, fields@.len() as int) =~= fields@);
            while i < fields.len()
                invariant
                    i <= fields@.len(),
                    *value == Value::Record(*fields),
                    first_barred(*value) == first_barred_field(
                        fields@.subrange(i as int, fields@.len() as int),
                    ),
                decreases fields.len() - i,
            {
                proof {
                    let rest = fields@.subrange(i as int, fields@.len() as int);
                    assert(rest[0] == fields@[i as int]);
                    assert(rest.subrange(1, rest.len() as int) =~= fields@.subrange(
                        i + 1,
                        fields@.len() as int,
                    ));
                    assert(decreases_to!(*value => fields@[i as int]));
                }
                let checked = ensure_supported_value(&fields[i].1);
                if checked.is_err() {
                    return checked;
                }
                i = i + 1;
            }
            assert(fields@.subrange(i as int, fields@.len() as int).len() == 0);
            Ok(())
        },
        Value::Variant(_, Some(inner)) => ensure_supported_value(inner),
        Value::Option(Some(inner)) => ensure_supported_value(inner),
        Value::Result(Ok(Some(inner))) => ensure_supported_value(inner),
        Value::Result(Err(Some(inner))) => ensure_supported_value(inner),
        Value::Future(_) => Err(DispatchError::UnsupportedType("future".to_string())),
        Value::Stream(_) => Err(DispatchError::UnsupportedType("stream".to_string())),
        Value::ErrorContext => Err(DispatchError::UnsupportedType("error-context".to_string())),
        _ => Ok(()),
    }
}

/// A value may pass exactly if nothing in it is barred.
pub proof fn law_passes_iff_supported(value: Value)
    ensures
        first_barred(value) is None <==> supported(value),
    decreases value,
{
    match value {
        Value::List(values) => {
            assert(decreases_to!(value => values@));
            lemma_pass_iff_all_supported(values@);
        },
        Value::Tuple(values) => {
            assert(decreases_to!(value => values@));
            lemma_pass_iff_all_supported(values@);
        },
        Value::FixedLengthList(values) => {
            assert(decreases_to!(value => values@));
            lemma_pass_iff_all_supported(values@);
        },
        Value::Mapping(entries) => {
            assert(decreases_to!(value => entries@));
            lemma_entries_pass_iff_supported(entries@);
        },
        Value::Record(fields) => {
            assert(decreases_to!(value => fields@));
            lemma_fields_pass_iff_supported(fields@);
        },
        Value::Variant(_, Some(inner)) => law_passes_iff_supported(*inner),
        Value::Option(Some(inner)) => law_passes_iff_supported(*inner),
        Value::Result(Ok(Some(inner))) => law_passes_iff_supported(*inner),
        Value::Result(Err(Some(inner))) => law_passes_iff_supported(*inner),
        _ => {},
    }
}

proof fn lemma_pass_iff_all_supported(values: Seq<Value>)
    ensures
        first_barred_of(values) is None <==> forall|i: int|
            0 <= i < values.len() ==> supported(#[trigger] values[i]),
    decreases values,
{
    if values.len() > 0 {
        let rest = values.subrange(1, values.len() as int);
        law_passes_iff_supported(values[0]);
        lemma_pass_iff_all_supported(rest);
        if first_barred_of(values) is None {
            assert forall|i: int| 0 <= i < values.len() implies supported(#[trigger] values[i]) by {
                if i > 0 {
                    assert(values[i] == rest[i - 1]);
                }
            }
        } else if forall|i: int| 0 <= i < values.len() ==> supported(#[trigger] values[i]) {
            assert forall|i: int| 0 <= i < rest.len() implies supported(#[trigger] rest[i]) by {
                assert(rest[i] == values[i + 1]);
            }
        }
    }
}

proof fn lemma_entries_pass_iff_supported(entries: Seq<(Value, Value)>)
    ensures
        first_barred_entry(entries) is None <==> forall|i: int|
            0 <= i < entries.len() ==> supported((#[trigger] entries[i]).0) && supported(
                entries[i].1,
            ),
    decreases entries,
{
    if entries.len() > 0 {
        let rest = entries.subrange(1, entries.len() as int);
        assert(decreases_to!(entries => entries[0]));
        law_passes_iff_supported(entries[0].0);
        law_passes_iff_supported(entries[0].1);
        lemma_entries_pass_iff_supported(rest);
        if first_barred_entry(entries) is None {
            assert forall|i: int| 0 <= i < entries.len() implies supported(
                (#[trigger] entries[i]).0,
            ) && supported(entries[i].1) by {
                if i > 0 {
                    assert(entries[i] == rest[i - 1]);
                }
            }
        } else if forall|i: int|
            0 <= i < entries.len() ==> supported((#[trigger] entries[i]).0) && supported(
                entries[i].1,
            ) {
            assert forall|i: int| 0 <= i < rest.len() implies supported((#[trigger] rest[i]).0)
                && supported(rest[i].1) by {
                assert(rest[i] == entries[i + 1]);
            }
        }
    }
}

proof fn lemma_fields_pass_iff_supported(fields: Seq<(String, Value)>)
    ensures
        first_barred_field(fields) is None <==> forall|i: int|
            0 <= i < fields.len() ==> supported((#[trigger] fields[i]).1),
    decreases fields,
{
    if fields.len() > 0 {
        let rest = fields.subrange(1, fields.len() as int);
        assert(decreases_to!(fields => fields[0]));
        law_passes_iff_supported(fields[0].1);
        lemma_fields_pass_iff_supported(rest);
        if first_barred_field(fields) is None {
            assert forall|i: int| 0 <= i < fields.len() implies supported(
                (#[trigger] fields[i]).1,
            ) by {
                if i > 0 {
                    assert(fields[i] == rest[i - 1]);
                }
            }
        } else if forall|i: int| 0 <= i < fields.len() ==> supported((#[trigger] fields[i]).1) {
            assert forall|i: int| 0 <= i < rest.len() implies supported((#[trigger] rest[i]).1) by {
                assert(rest[i] == fields[i + 1]);
            }
        }
    }
}

/// `part` stands in `whole`, with nothing in between.
pub open spec fn stands_in(part: Value, whole: Value) -> bool {
    match whole {
        Value::List(values) => values@.contains(part),
        Value::Tuple(values) => values@.contains(part),
        Value::FixedLengthList(values) => values@.contains(part),
        Value::Mapping(entries) => exists|i: int|
            0 <= i < entries@.len() && ((#[trigger] entries@[i]).0 == part || entries@[i].1 == part),
        Value::Record(fields) => exists|i: int|
            0 <= i < fields@.len() && (#[trigger] fields@[i]).1 == part,
        Value::Variant(_, Some(inner)) => *inner == part,
        Value::Option(Some(inner)) => *inner == part,
        Value::Result(Ok(Some(inner))) => *inner == part,
        Value::Result(Err(Some(inner))) => *inner == part,
        _ => false,
    }
}

/// A value that may not pass keeps every value from passing that it stands in.
pub proof fn law_barred_part_bars_the_whole(part: Value, whole: Value)
    requires
        stands_in(part, whole),
        first_barred(part) is Some,
    ensures
        first_barred(whole) is Some,
        !supported(whole),
{
    law_passes_iff_supported(part);
    law_passes_iff_supported(whole);
    match whole {
        Value::Mapping(entries) => {
            let i = choose|i: int|
                0 <= i < entries@.len() && ((#[trigger] entries@[i]).0 == part || entries@[i].1
                    == part);
            assert(!supported(entries@[i].0) || !supported(entries@[i].1));
        },
        Value::Record(fields) => {
            let i = choose|i: int| 0 <= i < fields@.len() && (#[trigger] fields@[i]).1 == part;
            assert(!supported(fields@[i].1));
        },
        _ => {},
    }
}

/// A value that may not pass is a future, a stream or an error context, which is what is reported
/// of it, or it has a part that may not pass.
pub proof fn law_only_futures_streams_and_error_contexts_are_barred(value: Value)
    ensures
        value is Future ==> first_barred(value) == Some("future"@),
        value is Stream ==> first_barred(value) == Some("stream"@),
        value is ErrorContext ==> first_barred(value) == Some("error-context"@),
        first_barred(value) is Some ==> value is Future || value is Stream || value is ErrorContext
            || exists|part: Value| #[trigger] stands_in(part, value) && first_barred(part) is Some,
{
    law_passes_iff_supported(value);
    if first_barred(value) is Some {
        match value {
            Value::List(values) => {
                lemma_barred_among(values@, value);
            },
            Value::Tuple(values) => {
                lemma_barred_among(values@, value);
            },
            Value::FixedLengthList(values) => {
                lemma_barred_among(values@, value);
            },
            Value::Mapping(entries) => {
                let i = choose|i: int|
                    0 <= i < entries@.len() && !(supported((#[trigger] entries@[i]).0) && supported(
                        entries@[i].1,
                    ));
                law_passes_iff_supported(entries@[i].0);
                law_passes_iff_supported(entries@[i].1);
                assert(stands_in(entries@[i].0, value));
                assert(stands_in(entries@[i].1, value));
            },
            Value::Record(fields) => {
                let i = choose|i: int|
                    0 <= i < fields@.len() && !supported((#[trigger] fields@[i]).1);
                law_passes_iff_supported(fields@[i].1);
                assert(stands_in(fields@[i].1, value));
            },
            Value::Variant(_, Some(inner)) => {
                assert(stands_in(*inner, value));
            },
            Value::Option(Some(inner)) => {
                assert(stands_in(*inner, value));
            },
            Value::Result(Ok(Some(inner))) => {
                assert(stands_in(*inner, value));
            },
            Value::Result(Err(Some(inner))) => {
                assert(stands_in(*inner, value));
            },
            _ => {},
        }
    }
}

proof fn lemma_barred_among(values: Seq<Value>, whole: Value)
    requires
        exists|i: int| 0 <= i < values.len() && !supported(#[trigger] values[i]),
        forall|part: Value| #[trigger] stands_in(part, whole) <==> values.contains(part),
    ensures
        exists|part: Value| #[trigger] stands_in(part, whole) && first_barred(part) is Some,
{
    let i = choose|i: int| 0 <= i < values.len() && !supported(#[trigger] values[i]);
    law_passes_iff_supported(values[i]);
    assert(values.contains(values[i]));
    assert(stands_in(values[i], whole));
}

/// Of values in a row, what is reported is what is reported of the first that may not pass.
pub proof fn law_first_barred_value_is_reported(values: Seq<Value>, i: int)
    requires
        0 <= i < values.len(),
        first_barred(values[i]) is Some,
        forall|j: int| 0 <= j < i ==> first_barred(#[trigger] values[j]) is None,
    ensures
        first_barred_of(values) == first_barred(values[i]),
    decreases i,
{
    if i > 0 {
        assert(first_barred(values[0]) is None);
        let rest = values.subrange(1, values.len() as int);
        assert forall|j: int| 0 <= j < i - 1 implies first_barred(#[trigger] rest[j]) is None by {
            assert(rest[j] == values[j + 1]);
        }
        law_first_barred_value_is_reported(rest, i - 1);
    }
}

/// Of the fields of a record, what is reported is what is reported of the first that may not pass.
pub proof fn law_first_barred_field_is_reported(fields: Seq<(String, Value)>, i: int)
    requires
        0 <= i < fields.len(),
        first_barred(fields[i].1) is Some,
        forall|j: int| 0 <= j < i ==> first_barred((#[trigger] fields[j]).1) is None,
    ensures
        first_barred_field(fields) == first_barred(fields[i].1),
    decreases i,
{
    if i > 0 {
        assert(first_barred(fields[0].1) is None);
        let rest = fields.subrange(1, fields.len() as int);
        assert forall|j: int| 0 <= j < i - 1 implies first_barred((#[trigger] rest[j]).1) is None by {
            assert(rest[j] == fields[j + 1]);
        }
        law_first_barred_field_is_reported(rest, i - 1);
    }
}

/// Of the entries of a mapping, what is reported is what is reported of the first that may not
/// pass, and of its key if that may not.
pub proof fn law_first_barred_entry_is_reported(entries: Seq<(Value, Value)>, i: int)
    requires
        0 <= i < entries.len(),
        first_barred(entries[i].0) is Some || first_barred(entries[i].1) is Some,
        forall|j: int|
            0 <= j < i ==> first_barred((#[trigger] entries[j]).0) is None && first_barred(
                entries[j].1,
            ) is None,
    ensures
        first_barred(entries[i].0) is Some ==> first_barred_entry(entries) == first_barred(
            entries[i].0,
        ),
        first_barred(entries[i].0) is None ==> first_barred_entry(entries) == first_barred(
            entries[i].1,
        ),
    decreases i,
{
    if i > 0 {
        assert(first_barred(entries[0].0) is None);
        let rest = entries.subrange(1, entries.len() as int);
        assert forall|j: int| 0 <= j < i - 1 implies first_barred((#[trigger] rest[j]).0) is None
            && first_barred(rest[j].1) is None by {
            assert(rest[j] == entries[j + 1]);
        }
        law_first_barred_entry_is_reported(rest, i - 1);
    }
}

/// What is reported of a value is what is reported of the row of values, the entries or the
/// fields that it holds, or of the one value inside it.
pub proof fn law_barred_whole_reports_its_part(value: Value)
    ensures
        value matches Value::List(values) ==> first_barred(value) == first_barred_of(values@),
        value matches Value::Tuple(values) ==> first_barred(value) == first_barred_of(values@),
        value matches Value::FixedLengthList(values) ==> first_barred(value) == first_barred_of(
            values@,
        ),
        value matches Value::Mapping(entries) ==> first_barred(value) == first_barred_entry(
            entries@,
        ),
        value matches Value::Record(fields) ==> first_barred(value) == first_barred_field(fields@),
        value matches Value::Variant(_, Some(inner)) ==> first_barred(value) == first_barred(*inner),
        value matches Value::Option(Some(inner)) ==> first_barred(value) == first_barred(*inner),
        value matches Value::Result(Ok(Some(inner))) ==> first_barred(value) == first_barred(
            *inner,
        ),
        value matches Value::Result(Err(Some(inner))) ==> first_barred(value) == first_barred(
            *inner,
        ),
{
}

/// Values pass if every one of them passes, and what stops them is an error that names what is
/// barred.
pub proof fn law_report_names_what_is_barred(
    values: Seq<Value>,
    result: Result<(), DispatchError>,
)
    requires
        reports(result, first_barred_of(values)),
    ensures
        result is Ok <==> forall|i: int| 0 <= i < values.len() ==> supported(#[trigger] values[i]),
        result matches Err(error) ==> (error matches DispatchError::UnsupportedType(name)
            && first_barred_of(values) == Some(name@)),
{
    lemma_pass_iff_all_supported(values);
}

} // verus!
