//! RON, which is read and never written.

use crate::convert::{
    collect_results, lemma_collect_first_error, lemma_collect_values, lemma_collected, viewed,
};
use crate::dict::{index_map_entries, index_map_insert, index_map_into_entries, index_map_new};
use crate::error::ConvertError;
use crate::format::Format;
use crate::text::string_from_char;
use crate::value::{
    dict_collect, lemma_collect_wf, lemma_view_array, lemma_view_dict, view_values, Float, Integer,
    Value, ValueView,
};
use vstd::prelude::*;
use vstd::std_specs::convert::FromSpecImpl;

verus! {

/// A RON number: a signed 64-bit integer or a float.
#[derive(Clone, Copy, Debug, PartialEq, Eq)]
pub enum Number {
    Integer(i64),
    Float(Float),
}

impl Number {
    /// The integer, where the number is one.
    pub open spec fn spec_as_i64(self) -> Option<i64> {
        match self {
            Number::Integer(integer) => Some(integer),
            Number::Float(_) => None,
        }
    }

    /// The float, where the number is one.
    pub open spec fn spec_as_float(self) -> Option<Float> {
        match self {
            Number::Integer(_) => None,
            Number::Float(float) => Some(float),
        }
    }

    /// The integer, where the number is one.
    #[verifier::when_used_as_spec(spec_as_i64)]
    pub fn as_i64(self) -> (r: Option<i64>)
        ensures
            r == self.spec_as_i64(),
    {
        match self {
            Number::Integer(integer) => Some(integer),
            Number::Float(_) => None,
        }
    }

    /// The float, where the number is one.
    #[verifier::when_used_as_spec(spec_as_float)]
    pub fn as_float(self) -> (r: Option<Float>)
        ensures
            r == self.spec_as_float(),
    {
        match self {
            Number::Integer(_) => None,
            Number::Float(float) => Some(float),
        }
    }
}

impl From<i64> for Number {
    fn from(integer: i64) -> (r: Number) {
        Number::Integer(integer)
    }
}

impl FromSpecImpl<i64> for Number {
    open spec fn obeys_from_spec() -> bool {
        true
    }

    open spec fn from_spec(integer: i64) -> Number {
        Number::Integer(integer)
    }
}

impl From<Float> for Number {
    fn from(float: Float) -> (r: Number) {
        Number::Float(float)
    }
}

impl FromSpecImpl<Float> for Number {
    open spec fn obeys_from_spec() -> bool {
        true
    }

    open spec fn from_spec(float: Float) -> Number {
        Number::Float(float)
    }
}

/// A RON value.
///
/// A dictionary takes any value as a key.
#[derive(Debug, PartialEq)]
pub enum Ron {
    Bool(bool),
    Char(char),
    Dict(Vec<(Ron, Ron)>),
    Number(Number),
    Option(Option<Box<Ron>>),
    String(String),
    Sequence(Vec<Ron>),
    Unit,
}

/// The mathematical content of a [`Ron`].
pub ghost enum RonView {
    Bool(bool),
    Char(char),
    Dict(Seq<(RonView, RonView)>),
    Number(Number),
    Option(Option<Box<RonView>>),
    String(Seq<char>),
    Sequence(Seq<RonView>),
    Unit,
}

impl Ron {
    /// The content of the value.
    pub open spec fn model(self) -> RonView
        decreases self,
    {
        match self {
            Ron::Bool(b) => RonView::Bool(b),
            Ron::Char(c) => RonView::Char(c),
            Ron::Dict(entries) => RonView::Dict(
                Seq::new(
                    entries@.len(),
                    |i: int|
                        if 0 <= i < entries@.len() {
                            (entries@[i].0.model(), entries@[i].1.model())
                        } else {
                            (RonView::Unit, RonView::Unit)
                        },
                ),
            ),
            Ron::Number(number) => RonView::Number(number),
            Ron::Option(None) => RonView::Option(None),
            Ron::Option(Some(inner)) => RonView::Option(Some(Box::new((*inner).model()))),
            Ron::String(string) => RonView::String(string@),
            Ron::Sequence(items) => RonView::Sequence(
                Seq::new(
                    items@.len(),
                    |i: int|
                        if 0 <= i < items@.len() {
                            items@[i].model()
                        } else {
                            RonView::Unit
                        },
                ),
            ),
            Ron::Unit => RonView::Unit,
        }
    }
}

impl View for Ron {
    type V = RonView;

    open spec fn view(&self) -> RonView {
        self.model()
    }
}

impl Clone for Ron {
    fn clone(&self) -> (r: Ron)
        ensures
            r@ == self@,
        decreases self,
    {
        match self {
            Ron::Bool(b) => Ron::Bool(*b),
            Ron::Char(c) => Ron::Char(*c),
            Ron::Number(number) => Ron::Number(*number),
            Ron::Option(None) => Ron::Option(None),
            Ron::Option(Some(inner)) => Ron::Option(Some(Box::new((**inner).clone()))),
            Ron::String(string) => Ron::String(string.clone()),
            Ron::Unit => Ron::Unit,
            Ron::Sequence(items) => {
                let mut copies: Vec<Ron> = Vec::new();
                let mut i: usize = 0;
                while i < items.len()
                    invariant
                        i <= items.len(),
                        self is Sequence && self->Sequence_0 == *items,
                        copies@.len() == i,
                        forall|j: int| 0 <= j < i ==> (#[trigger] copies@[j])@ == items@[j]@,
                    decreases items.len() - i,
                {
                    copies.push(items[i].clone());
                    i += 1;
                }
                proof {
                    lemma_view_items(*items);
                    lemma_view_items(copies);
                    assert(view_items(copies@) =~= view_items(items@));
                }
                Ron::Sequence(copies)
            },
            Ron::Dict(entries) => {
                let mut copies: Vec<(Ron, Ron)> = Vec::new();
                let mut i: usize = 0;
                while i < entries.len()
                    invariant
                        i <= entries.len(),
                        self is Dict && self->Dict_0 == *entries,
                        copies@.len() == i,
                        forall|j: int|
                            0 <= j < i ==> (#[trigger] copies@[j]).0@ == entries@[j].0@
                                && copies@[j].1@ == entries@[j].1@,
                    decreases entries.len() - i,
                {
                    copies.push((entries[i].0.clone(), entries[i].1.clone()));
                    i += 1;
                }
                proof {
                    lemma_view_pairs(*entries);
                    lemma_view_pairs(copies);
                    assert(view_pairs(copies@) =~= view_pairs(entries@));
                }
                Ron::Dict(copies)
            },
        }
    }
}

/// The contents of a sequence of RON values.
pub open spec fn view_items(items: Seq<Ron>) -> Seq<RonView> {
    Seq::new(items.len(), |i: int| items[i]@)
}

/// The contents of a sequence of RON entries.
pub open spec fn view_pairs(entries: Seq<(Ron, Ron)>) -> Seq<(RonView, RonView)> {
    Seq::new(entries.len(), |i: int| (entries[i].0@, entries[i].1@))
}

proof fn lemma_view_items(items: Vec<Ron>)
    ensures
        Ron::Sequence(items)@ == RonView::Sequence(view_items(items@)),
{
    assert(Ron::Sequence(items)@->Sequence_0 =~= view_items(items@));
}

proof fn lemma_view_pairs(entries: Vec<(Ron, Ron)>)
    ensures
        Ron::Dict(entries)@ == RonView::Dict(view_pairs(entries@)),
{
    assert(Ron::Dict(entries)@->Dict_0 =~= view_pairs(entries@));
}

impl RonView {
    /// The intermediate value that a RON value stands for.
    ///
    /// A character is the string of that character. An `Option` and the unit
    /// have no counterpart. A dictionary must have strings for its keys,
    /// which is looked at before any of its values. Of a sequence's items and
    /// of a dictionary's values, the first that has no counterpart decides.
    pub open spec fn to_value(self) -> Result<ValueView, ConvertError>
        decreases self,
    {
        match self {
            RonView::Bool(b) => Ok(ValueView::Bool(b)),
            RonView::Char(c) => Ok(ValueView::String(seq![c])),
            RonView::Dict(entries) => if !RonView::keys_are_strings(entries) {
                Err(ConvertError::KeyNotString(Format::Ron))
            } else {
                match collect_results(RonView::entry_results(entries)) {
                    Ok(pairs) => Ok(ValueView::Dict(dict_collect(pairs))),
                    Err(error) => Err(error),
                }
            },
            RonView::Number(Number::Integer(integer)) => Ok(ValueView::Integer(integer as int)),
            RonView::Number(Number::Float(float)) => Ok(ValueView::Float(float)),
            RonView::Option(_) => Err(ConvertError::OptionType),
            RonView::String(string) => Ok(ValueView::String(string)),
            RonView::Sequence(items) => match collect_results(RonView::item_results(items)) {
                Ok(values) => Ok(ValueView::Array(values)),
                Err(error) => Err(error),
            },
            RonView::Unit => Err(ConvertError::UnitType),
        }
    }

    /// Every key is a string.
    pub open spec fn keys_are_strings(entries: Seq<(RonView, RonView)>) -> bool {
        forall|i: int| 0 <= i < entries.len() ==> (#[trigger] entries[i]).0 is String
    }

    /// What each item is converted to.
    pub open spec fn item_results(items: Seq<RonView>) -> Seq<Result<ValueView, ConvertError>>
        decreases items,
    {
        Seq::new(
            items.len(),
            |i: int|
                if 0 <= i < items.len() {
                    items[i].to_value()
                } else {
                    Err(ConvertError::UnitType)
                },
        )
    }

    /// What each entry is converted to: its key's string with the
    /// counterpart of its value.
    pub open spec fn entry_results(entries: Seq<(RonView, RonView)>) -> Seq<
        Result<(Seq<char>, ValueView), ConvertError>,
    >
        decreases entries,
    {
        Seq::new(
            entries.len(),
            |i: int|
                if 0 <= i < entries.len() {
                    match entries[i].1.to_value() {
                        Ok(value) => Ok((entries[i].0->String_0, value)),
                        Err(error) => Err(error),
                    }
                } else {
                    Err(ConvertError::UnitType)
                },
        )
    }
}

impl Ron {
    /// Converts a RON value into the intermediate value.
    pub fn into_value(self) -> (r: Result<Value, ConvertError>)
        ensures
            viewed(r) == self@.to_value(),
            r matches Ok(value) ==> value@.wf(),
        decreases self,
    {
        match self {
            Ron::Bool(b) => Ok(Value::Bool(b)),
            Ron::Char(c) => Ok(Value::String(string_from_char(c))),
            Ron::Dict(entries) => {
                let ghost views = view_pairs(entries@);
                let ghost results = RonView::entry_results(views);
                proof {
                    lemma_view_pairs(entries);
                }
                let mut i: usize = 0;
                while i < entries.len()
                    invariant
                        i <= entries.len(),
                        views == view_pairs(entries@),
                        self@ == RonView::Dict(views),
                        forall|j: int| 0 <= j < i ==> (#[trigger] views[j]).0 is String,
                    decreases entries.len() - i,
                {
                    let is_string = match &entries[i].0 {
                        Ron::String(_) => true,
                        _ => false,
                    };
                    if !is_string {
                        assert(!(views[i as int].0 is String));
                        return Err(ConvertError::KeyNotString(Format::Ron));
                    }
                    i += 1;
                }
                let mut map = index_map_new();
                let ghost mut pairs: Seq<(Seq<char>, ValueView)> = Seq::empty();
                for entry in it: entries
                    invariant
                        it.seq() == entries@,
                        views == view_pairs(entries@),
                        results == RonView::entry_results(views),
                        self is Dict && self->Dict_0 == entries,
                        self@ == RonView::Dict(views),
                        RonView::keys_are_strings(views),
                        pairs.len() == it.index(),
                        forall|j: int|
                            0 <= j < it.index() ==> (#[trigger] results[j]) == Ok::<
                                (Seq<char>, ValueView),
                                ConvertError,
                            >(pairs[j]),
                        index_map_entries(map) == dict_collect(pairs),
                        forall|j: int| 0 <= j < pairs.len() ==> (#[trigger] pairs[j]).1.wf(),
                {
                    assert(views[it.index()].0 is String);
                    let (key, value) = entry;
                    let text = match key {
                        Ron::String(string) => Some(string),
                        _ => None,
                    };
                    match text {
                        Some(text) => match value.into_value() {
                            Ok(value) => {
                                proof {
                                    let next = pairs.push((text@, value@));
                                    assert(next.drop_last() =~= pairs);
                                    pairs = next;
                                }
                                index_map_insert(&mut map, text, value);
                            },
                            Err(error) => {
                                proof {
                                    lemma_collect_first_error(results, it.index() as int);
                                }
                                return Err(error);
                            },
                        },
                        None => {
                            return Err(ConvertError::KeyNotString(Format::Ron));
                        },
                    }
                }
                let collected = index_map_into_entries(map);
                proof {
                    lemma_view_dict(collected);
                    lemma_collect_wf(pairs);
                    lemma_collect_values(results, pairs);
                }
                Ok(Value::Dict(collected))
            },
            Ron::Number(number) => match number.as_i64() {
                Some(integer) => Ok(Value::Integer(Integer::from(integer))),
                None => {
                    let float = number.as_float();
                    Ok(Value::Float(float.unwrap()))
                },
            },
            Ron::Option(_) => Err(ConvertError::OptionType),
            Ron::String(string) => Ok(Value::String(string)),
            Ron::Sequence(items) => {
                let ghost views = view_items(items@);
                let ghost results = RonView::item_results(views);
                proof {
                    lemma_view_items(items);
                }
                let mut values: Vec<Value> = Vec::new();
                for item in it: items
                    invariant
                        it.seq() == items@,
                        views == view_items(items@),
                        results == RonView::item_results(views),
                        self is Sequence && self->Sequence_0 == items,
                        self@ == RonView::Sequence(views),
                        values@.len() == it.index(),
                        forall|j: int|
                            0 <= j < it.index() ==> (#[trigger] results[j]) == Ok::<
                                ValueView,
                                ConvertError,
                            >(values@[j]@),
                        forall|j: int| 0 <= j < it.index() ==> (#[trigger] values@[j])@.wf(),
                {
                    match item.into_value() {
                        Ok(value) => {
                            values.push(value);
                        },
                        Err(error) => {
                            proof {
                                lemma_collect_first_error(results, it.index() as int);
                            }
                            return Err(error);
                        },
                    }
                }
                proof {
                    lemma_view_array(values);
                    lemma_collect_values(results, view_values(values@));
                }
                Ok(Value::Array(values))
            },
            Ron::Unit => Err(ConvertError::UnitType),
        }
    }
}

/// The value that a RON value is converted into is well-formed.
pub proof fn lemma_ron_value_wf(ron: RonView)
    ensures
        ron.to_value() matches Ok(value) ==> value.wf(),
    decreases ron,
{
    match ron {
        RonView::Sequence(items) => {
            let results = RonView::item_results(items);
            if collect_results(results) is Ok {
                lemma_collected(results);
                let values = collect_results(results)->Ok_0;
                assert forall|i: int| 0 <= i < values.len() implies (#[trigger] values[i]).wf() by {
                    assert(results[i] == Ok::<ValueView, ConvertError>(values[i]));
                    lemma_ron_value_wf(items[i]);
                }
            }
        },
        RonView::Dict(entries) => {
            let results = RonView::entry_results(entries);
            if RonView::keys_are_strings(entries) && collect_results(results) is Ok {
                lemma_collected(results);
                let pairs = collect_results(results)->Ok_0;
                assert forall|i: int| 0 <= i < pairs.len() implies (#[trigger] pairs[i]).1.wf() by {
                    assert(results[i] == Ok::<(Seq<char>, ValueView), ConvertError>(pairs[i]));
                    lemma_ron_value_wf(entries[i].1);
                }
                lemma_collect_wf(pairs);
            }
        },
        _ => {},
    }
}

} // verus!
