//! CBOR.

use crate::convert::{
    collect_results, lemma_collect_first_error, lemma_collect_values, lemma_collected, viewed,
};
use crate::dict::{index_map_entries, index_map_insert, index_map_into_entries, index_map_new};
use crate::error::ConvertError;
use crate::format::Format;
use crate::value::{
    dict_collect, keys_unique, lemma_collect_of_unique, lemma_collect_wf, lemma_view_array,
    lemma_view_dict, view_entries, view_values, Float, Integer, Value, ValueView,
};
use vstd::prelude::*;

verus! {

/// A CBOR value.
///
/// A dictionary takes any value as a key.
#[derive(Debug, PartialEq)]
pub enum Cbor {
    Null,
    Bool(bool),
    Integer(i128),
    Float(Float),
    Bytes(Vec<u8>),
    Text(String),
    Array(Vec<Cbor>),
    Dict(Vec<(Cbor, Cbor)>),
    Tag(u64, Box<Cbor>),
}

/// The mathematical content of a [`Cbor`].
pub ghost enum CborView {
    Null,
    Bool(bool),
    Integer(i128),
    Float(Float),
    Bytes(Seq<u8>),
    Text(Seq<char>),
    Array(Seq<CborView>),
    Dict(Seq<(CborView, CborView)>),
    Tag(u64, Box<CborView>),
}

impl Cbor {
    /// The content of the value.
    pub open spec fn model(self) -> CborView
        decreases self,
    {
        match self {
            Cbor::Null => CborView::Null,
            Cbor::Bool(b) => CborView::Bool(b),
            Cbor::Integer(number) => CborView::Integer(number),
            Cbor::Float(float) => CborView::Float(float),
            Cbor::Bytes(bytes) => CborView::Bytes(bytes@),
            Cbor::Text(text) => CborView::Text(text@),
            Cbor::Array(items) => CborView::Array(
                Seq::new(
                    items@.len(),
                    |i: int|
                        if 0 <= i < items@.len() {
                            items@[i].model()
                        } else {
                            CborView::Null
                        },
                ),
            ),
            Cbor::Dict(entries) => CborView::Dict(
                Seq::new(
                    entries@.len(),
                    |i: int|
                        if 0 <= i < entries@.len() {
                            (entries@[i].0.model(), entries@[i].1.model())
                        } else {
                            (CborView::Null, CborView::Null)
                        },
                ),
            ),
            Cbor::Tag(tag, inner) => CborView::Tag(tag, Box::new((*inner).model())),
        }
    }
}

impl View for Cbor {
    type V = CborView;

    open spec fn view(&self) -> CborView {
        self.model()
    }
}

impl Clone for Cbor {
    fn clone(&self) -> (r: Cbor)
        ensures
            r@ == self@,
        decreases self,
    {
        match self {
            Cbor::Null => Cbor::Null,
            Cbor::Bool(b) => Cbor::Bool(*b),
            Cbor::Integer(number) => Cbor::Integer(*number),
            Cbor::Float(float) => Cbor::Float(*float),
            Cbor::Bytes(bytes) => Cbor::Bytes(bytes.clone()),
            Cbor::Text(text) => Cbor::Text(text.clone()),
            Cbor::Tag(tag, inner) => Cbor::Tag(*tag, Box::new((**inner).clone())),
            Cbor::Array(items) => {
                let mut copies: Vec<Cbor> = Vec::new();
                let mut i: usize = 0;
                while i < items.len()
                    invariant
                        i <= items.len(),
                        self is Array && self->Array_0 == *items,
                        copies@.len() == i,
                        forall|j: int| 0 <= j < i ==> (#[trigger] copies@[j])@ == items@[j]@,
                    decreases items.len() - i,
                {
                    copies.push(items[i].clone());
                    i += 1;
                }
                proof {
                    lemma_view_items(*items);
                    lemma_view_items(copies);
                    assert(view_items(copies@) =~= view_items(items@));
                }
                Cbor::Array(copies)
            },
            Cbor::Dict(entries) => {
                let mut copies: Vec<(Cbor, Cbor)> = Vec::new();
                let mut i: usize = 0;
                while i < entries.len()
                    invariant
                        i <= entries.len(),
                        self is Dict && self->Dict_0 == *entries,
                        copies@.len() == i,
                        forall|j: int|
                            0 <= j < i ==> (#[trigger] copies@[j]).0@ == entries@[j].0@
                                && copies@[j].1@ == entries@[j].1@,
                    decreases entries.len() - i,
                {
                    copies.push((entries[i].0.clone(), entries[i].1.clone()));
                    i += 1;
                }
                proof {
                    lemma_view_pairs(*entries);
                    lemma_view_pairs(copies);
                    assert(view_pairs(copies@) =~= view_pairs(entries@));
                }
                Cbor::Dict(copies)
            },
        }
    }
}

/// The contents of a sequence of CBOR values.
pub open spec fn view_items(items: Seq<Cbor>) -> Seq<CborView> {
    Seq::new(items.len(), |i: int| items[i]@)
}

/// The contents of a sequence of CBOR entries.
pub open spec fn view_pairs(entries: Seq<(Cbor, Cbor)>) -> Seq<(CborView, CborView)> {
    Seq::new(entries.len(), |i: int| (entries[i].0@, entries[i].1@))
}

proof fn lemma_view_items(items: Vec<Cbor>)
    ensures
        Cbor::Array(items)@ == CborView::Array(view_items(items@)),
{
    assert(Cbor::Array(items)@->Array_0 =~= view_items(items@));
}

proof fn lemma_view_pairs(entries: Vec<(Cbor, Cbor)>)
    ensures
        Cbor::Dict(entries)@ == CborView::Dict(view_pairs(entries@)),
{
    assert(Cbor::Dict(entries)@->Dict_0 =~= view_pairs(entries@));
}

/// Every key is a text string.
pub open spec fn keys_are_text(entries: Seq<(CborView, CborView)>) -> bool {
    forall|i: int| 0 <= i < entries.len() ==> (#[trigger] entries[i]).0 is Text
}

impl CborView {
    /// The intermediate value that a CBOR value stands for.
    ///
    /// A byte string and a semantic tag have none, and an integer has one
    /// where it lies in one of the two 64-bit ranges. A dictionary must have
    /// text strings for its keys, which is looked at before any of its
    /// values. Of an array's items and of a dictionary's values, the first
    /// that has no counterpart decides.
    pub open spec fn to_value(self) -> Result<ValueView, ConvertError>
        decreases self,
    {
        match self {
            CborView::Null => Ok(ValueView::Null),
            CborView::Bool(b) => Ok(ValueView::Bool(b)),
            CborView::Integer(number) => if Integer::in_range(number as int) {
                Ok(ValueView::Integer(number as int))
            } else {
                Err(ConvertError::IntegerTooWide(number))
            },
            CborView::Float(float) => Ok(ValueView::Float(float)),
            CborView::Bytes(_) => Err(ConvertError::ByteString),
            CborView::Text(text) => Ok(ValueView::String(text)),
            CborView::Array(items) => match collect_results(CborView::item_results(items)) {
                Ok(values) => Ok(ValueView::Array(values)),
                Err(error) => Err(error),
            },
            CborView::Dict(entries) => if !keys_are_text(entries) {
                Err(ConvertError::KeyNotString(Format::Cbor))
            } else {
                match collect_results(CborView::entry_results(entries)) {
                    Ok(pairs) => Ok(ValueView::Dict(dict_collect(pairs))),
                    Err(error) => Err(error),
                }
            },
            CborView::Tag(_, _) => Err(ConvertError::SemanticTag),
        }
    }

    /// What each item is converted to.
    pub open spec fn item_results(items: Seq<CborView>) -> Seq<Result<ValueView, ConvertError>>
        decreases items,
    {
        Seq::new(
            items.len(),
            |i: int|
                if 0 <= i < items.len() {
                    items[i].to_value()
                } else {
                    Ok(ValueView::Null)
                },
        )
    }

    /// What each entry is converted to: the text of its key with the
    /// counterpart of its value.
    pub open spec fn entry_results(entries: Seq<(CborView, CborView)>) -> Seq<
        Result<(Seq<char>, ValueView), ConvertError>,
    >
        decreases entries,
    {
        Seq::new(
            entries.len(),
            |i: int|
                if 0 <= i < entries.len() {
                    match entries[i].1.to_value() {
                        Ok(value) => Ok((entries[i].0->Text_0, value)),
                        Err(error) => Err(error),
                    }
                } else {
                    Err(ConvertError::KeyNotString(Format::Cbor))
                },
        )
    }

    /// The CBOR value that stands for an intermediate value.
    pub open spec fn of_value(value: ValueView) -> CborView
        decreases value,
    {
        match value {
            ValueView::Null => CborView::Null,
            ValueView::Bool(b) => CborView::Bool(b),
            ValueView::Integer(number) => CborView::Integer(number as i128),
            ValueView::Float(float) => CborView::Float(float),
            ValueView::String(string) => CborView::Text(string),
            ValueView::Array(items) => CborView::Array(CborView::of_values(items)),
            ValueView::Dict(entries) => CborView::Dict(CborView::of_entries(entries)),
        }
    }

    /// The counterparts of the items of an array.
    pub open spec fn of_values(items: Seq<ValueView>) -> Seq<CborView>
        decreases items,
    {
        Seq::new(
            items.len(),
            |i: int|
                if 0 <= i < items.len() {
                    CborView::of_value(items[i])
                } else {
                    CborView::Null
                },
        )
    }

    /// The counterparts of the entries of a dictionary: each key as a text
    /// string.
    pub open spec fn of_entries(entries: Seq<(Seq<char>, ValueView)>) -> Seq<(CborView, CborView)>
        decreases entries,
    {
        Seq::new(
            entries.len(),
            |i: int|
                if 0 <= i < entries.len() {
                    (CborView::Text(entries[i].0), CborView::of_value(entries[i].1))
                } else {
                    (CborView::Null, CborView::Null)
                },
        )
    }

    /// No dictionary holds a key twice.
    pub open spec fn wf(self) -> bool
        decreases self,
    {
        match self {
            CborView::Array(items) => forall|i: int|
                0 <= i < items.len() ==> (#[trigger] items[i]).wf(),
            CborView::Dict(entries) => {
                &&& forall|i: int, j: int|
                    0 <= i < j < entries.len() ==> (#[trigger] entries[i]).0 != (
                    #[trigger] entries[j]).0
                &&& forall|i: int|
                    0 <= i < entries.len() ==> (#[trigger] entries[i]).0.wf() && entries[i].1.wf()
            },
            CborView::Tag(_, inner) => inner.wf(),
            _ => true,
        }
    }
}

impl Cbor {
    /// Converts a CBOR value into the intermediate value.
    pub fn into_value(self) -> (r: Result<Value, ConvertError>)
        ensures
            viewed(r) == self@.to_value(),
            r matches Ok(value) ==> value@.wf(),
        decreases self,
    {
        match self {
            Cbor::Null => Ok(Value::Null),
            Cbor::Bool(b) => Ok(Value::Bool(b)),
            Cbor::Integer(number) => {
                if -0x8000_0000_0000_0000 <= number && number <= 0x7fff_ffff_ffff_ffff {
                    let signed: i64 = number as i64;
                    Ok(Value::Integer(Integer::from(signed)))
                } else if 0 <= number && number <= 0xffff_ffff_ffff_ffff {
                    let unsigned: u64 = number as u64;
                    Ok(Value::Integer(Integer::from(unsigned)))
                } else {
                    Err(ConvertError::IntegerTooWide(number))
                }
            },
            Cbor::Float(float) => Ok(Value::Float(float)),
            Cbor::Bytes(_) => Err(ConvertError::ByteString),
            Cbor::Text(text) => Ok(Value::String(text)),
            Cbor::Array(items) => {
                let ghost views = view_items(items@);
                let ghost results = CborView::item_results(views);
                proof {
                    lemma_view_items(items);
                }
                let mut values: Vec<Value> = Vec::new();
                for item in it: items
                    invariant
                        it.seq() == items@,
                        views == view_items(items@),
                        results == CborView::item_results(views),
                        self is Array && self->Array_0 == items,
                        self@ == CborView::Array(views),
                        values@.len() == it.index(),
                        forall|j: int|
                            0 <= j < it.index() ==> (#[trigger] results[j]) == Ok::<
                                ValueView,
                                ConvertError,
                            >(values@[j]@),
                        forall|j: int| 0 <= j < it.index() ==> (#[trigger] values@[j])@.wf(),
                {
                    match item.into_value() {
                        Ok(value) => {
                            values.push(value);
                        },
                        Err(error) => {
                            proof {
                                lemma_collect_first_error(results, it.index() as int);
                            }
                            return Err(error);
                        },
                    }
                }
                proof {
                    lemma_view_array(values);
                    lemma_collect_values(results, view_values(values@));
                }
                Ok(Value::Array(values))
            },
            Cbor::Dict(entries) => {
                let ghost views = view_pairs(entries@);
                let ghost results = CborView::entry_results(views);
                proof {
                    lemma_view_pairs(entries);
                }
                let mut i: usize = 0;
                while i < entries.len()
                    invariant
                        i <= entries.len(),
                        views == view_pairs(entries@),
                        self@ == CborView::Dict(views),
                        forall|j: int| 0 <= j < i ==> (#[trigger] views[j]).0 is Text,
                    decreases entries.len() - i,
                {
                    match &entries[i].0 {
                        Cbor::Text(_) => {},
                        _ => {
                            assert(!(views[i as int].0 is Text));
                            return Err(ConvertError::KeyNotString(Format::Cbor));
                        },
                    }
                    i += 1;
                }
                let mut map = index_map_new();
                let ghost mut pairs: Seq<(Seq<char>, ValueView)> = Seq::empty();
                for entry in it: entries
                    invariant
                        it.seq() == entries@,
                        views == view_pairs(entries@),
                        results == CborView::entry_results(views),
                        self is Dict && self->Dict_0 == entries,
                        self@ == CborView::Dict(views),
                        keys_are_text(views),
                        pairs.len() == it.index(),
                        forall|j: int|
                            0 <= j < it.index() ==> (#[trigger] results[j]) == Ok::<
                                (Seq<char>, ValueView),
                                ConvertError,
                            >(pairs[j]),
                        index_map_entries(map) == dict_collect(pairs),
                        forall|j: int| 0 <= j < pairs.len() ==> (#[trigger] pairs[j]).1.wf(),
                {
                    let (key, value) = entry;
                    match key {
                        Cbor::Text(text) => match value.into_value() {
                            Ok(value) => {
                                proof {
                                    let next = pairs.push((text@, value@));
                                    assert(next.drop_last() =~= pairs);
                                    pairs = next;
                                }
                                index_map_insert(&mut map, text, value);
                            },
                            Err(error) => {
                                proof {
                                    lemma_collect_first_error(results, it.index() as int);
                                }
                                return Err(error);
                            },
                        },
                        _ => {
                            assert(views[it.index()].0 is Text);
                            return Err(ConvertError::KeyNotString(Format::Cbor));
                        },
                    }
                }
                let collected = index_map_into_entries(map);
                proof {
                    lemma_view_dict(collected);
                    lemma_collect_wf(pairs);
                    lemma_collect_values(results, pairs);
                }
                Ok(Value::Dict(collected))
            },
            Cbor::Tag(_, _) => Err(ConvertError::SemanticTag),
        }
    }

    /// Converts the intermediate value into a CBOR value.
    pub fn from_value(value: Value) -> (r: Cbor)
        ensures
            r@ == CborView::of_value(value@),
        decreases value,
    {
        match value {
            Value::Null => Cbor::Null,
            Value::Bool(b) => Cbor::Bool(b),
            Value::Integer(integer) => match integer.as_i64() {
                Some(signed) => Cbor::Integer(signed as i128),
                None => {
                    let unsigned = integer.as_u64();
                    Cbor::Integer(unsigned.unwrap() as i128)
                },
            },
            Value::Float(float) => Cbor::Float(float),
            Value::String(string) => Cbor::Text(string),
            Value::Array(items) => {
                let ghost views = view_values(items@);
                proof {
                    lemma_view_array(items);
                }
                let mut out: Vec<Cbor> = Vec::new();
                for item in it: items
                    invariant
                        it.seq() == items@,
                        views == view_values(items@),
                        value is Array && value->Array_0 == items,
                        out@.len() == it.index(),
                        forall|j: int|
                            0 <= j < it.index() ==> (#[trigger] out@[j])@ == CborView::of_value(
                                views[j],
                            ),
                {
                    out.push(Cbor::from_value(item));
                }
                proof {
                    lemma_view_items(out);
                    assert(view_items(out@) =~= CborView::of_values(views));
                }
                Cbor::Array(out)
            },
            Value::Dict(entries) => {
                let ghost views = view_entries(entries@);
                proof {
                    lemma_view_dict(entries);
                }
                let mut out: Vec<(Cbor, Cbor)> = Vec::new();
                for entry in it: entries
                    invariant
                        it.seq() == entries@,
                        views == view_entries(entries@),
                        value is Dict && value->Dict_0 == entries,
                        out@.len() == it.index(),
                        forall|j: int|
                            0 <= j < it.index() ==> (#[trigger] out@[j]).0@ == CborView::Text(
                                views[j].0,
                            ) && out@[j].1@ == CborView::of_value(views[j].1),
                {
                    let (key, item) = entry;
                    out.push((Cbor::Text(key), Cbor::from_value(item)));
                }
                proof {
                    lemma_view_pairs(out);
                    assert(view_pairs(out@) =~= CborView::of_entries(views));
                }
                Cbor::Dict(out)
            },
        }
    }
}

/// A value that was converted into CBOR is converted back into itself.
pub proof fn lemma_value_through_cbor(value: ValueView)
    requires
        value.wf(),
    ensures
        CborView::of_value(value).to_value() == Ok::<ValueView, ConvertError>(value),
    decreases value,
{
    match value {
        ValueView::Array(items) => {
            let encoded = CborView::of_values(items);
            let results = CborView::item_results(encoded);
            assert forall|i: int| 0 <= i < results.len() implies (#[trigger] results[i]) == Ok::<
                ValueView,
                ConvertError,
            >(items[i]) by {
                assert(items[i].wf());
                lemma_value_through_cbor(items[i]);
            }
            lemma_collect_values(results, items);
        },
        ValueView::Dict(entries) => {
            let encoded = CborView::of_entries(entries);
            let results = CborView::entry_results(encoded);
            assert forall|i: int| 0 <= i < results.len() implies (#[trigger] results[i]) == Ok::<
                (Seq<char>, ValueView),
                ConvertError,
            >(entries[i]) by {
                assert(entries[i].1.wf());
                lemma_value_through_cbor(entries[i].1);
            }
            lemma_collect_values(results, entries);
            lemma_collect_of_unique(entries);
        },
        _ => {},
    }
}

/// A CBOR value that has a counterpart is what its counterpart is converted
/// into.
pub proof fn lemma_cbor_through_value(cbor: CborView)
    requires
        cbor.wf(),
        cbor.to_value() is Ok,
    ensures
        CborView::of_value(cbor.to_value()->Ok_0) == cbor,
    decreases cbor,
{
    match cbor {
        CborView::Array(items) => {
            let results = CborView::item_results(items);
            lemma_collected(results);
            let values = collect_results(results)->Ok_0;
            assert forall|i: int| 0 <= i < items.len() implies CborView::of_value(values[i])
                == items[i] by {
                assert(results[i] == Ok::<ValueView, ConvertError>(values[i]));
                assert(items[i].wf());
                lemma_cbor_through_value(items[i]);
            }
            assert(CborView::of_values(values) =~= items);
        },
        CborView::Dict(entries) => {
            let results = CborView::entry_results(entries);
            lemma_collected(results);
            let pairs = collect_results(results)->Ok_0;
            assert forall|i: int| 0 <= i < entries.len() implies pairs[i].0 == entries[i].0->Text_0
                && CborView::of_value(pairs[i].1) == entries[i].1 by {
                assert(results[i] == Ok::<(Seq<char>, ValueView), ConvertError>(pairs[i]));
                assert(entries[i].1.wf());
                lemma_cbor_through_value(entries[i].1);
            }
            assert(keys_unique(pairs)) by {
                assert forall|i: int, j: int| 0 <= i < j < pairs.len() implies pairs[i].0
                    != pairs[j].0 by {
                    assert(entries[i].0 is Text && entries[j].0 is Text);
                    assert(entries[i].0 != entries[j].0);
                }
            }
            lemma_collect_of_unique(pairs);
            assert(CborView::of_entries(pairs) =~= entries) by {
                assert forall|i: int| 0 <= i < entries.len() implies CborView::of_entries(
                    pairs,
                )[i] == entries[i] by {
                    assert(entries[i].0 is Text);
                }
            }
        },
        _ => {},
    }
}

/// The value that a CBOR value is converted into is well-formed.
pub proof fn lemma_cbor_value_wf(cbor: CborView)
    ensures
        cbor.to_value() matches Ok(value) ==> value.wf(),
    decreases cbor,
{
    match cbor {
        CborView::Array(items) => {
            let results = CborView::item_results(items);
            if collect_results(results) is Ok {
                lemma_collected(results);
                let values = collect_results(results)->Ok_0;
                assert forall|i: int| 0 <= i < values.len() implies (#[trigger] values[i]).wf() by {
                    assert(results[i] == Ok::<ValueView, ConvertError>(values[i]));
                    lemma_cbor_value_wf(items[i]);
                }
            }
        },
        CborView::Dict(entries) => {
            let results = CborView::entry_results(entries);
            if keys_are_text(entries) && collect_results(results) is Ok {
                lemma_collected(results);
                let pairs = collect_results(results)->Ok_0;
                assert forall|i: int| 0 <= i < pairs.len() implies (#[trigger] pairs[i]).1.wf() by {
                    assert(results[i] == Ok::<(Seq<char>, ValueView), ConvertError>(pairs[i]));
                    lemma_cbor_value_wf(entries[i].1);
                }
                lemma_collect_wf(pairs);
            }
        },
        _ => {},
    }
}

/// The CBOR value that a well-formed value is converted into holds no key
/// twice.
pub proof fn lemma_cbor_of_value_wf(value: ValueView)
    requires
        value.wf(),
    ensures
        CborView::of_value(value).wf(),
    decreases value,
{
    match value {
        ValueView::Array(items) => {
            let converted = CborView::of_values(items);
            assert forall|i: int| 0 <= i < converted.len() implies (
            #[trigger] converted[i]).wf() by {
                assert(items[i].wf());
                lemma_cbor_of_value_wf(items[i]);
            }
        },
        ValueView::Dict(entries) => {
            let converted = CborView::of_entries(entries);
            assert forall|i: int| 0 <= i < converted.len() implies (#[trigger] converted[i]).0.wf()
                && converted[i].1.wf() by {
                assert(entries[i].1.wf());
                lemma_cbor_of_value_wf(entries[i].1);
            }
            assert forall|i: int, j: int| 0 <= i < j < converted.len() implies (
            #[trigger] converted[i]).0 != (#[trigger] converted[j]).0 by {
                assert(entries[i].0 != entries[j].0);
            }
        },
        _ => {},
    }
}

} // verus!
