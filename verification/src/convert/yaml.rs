//! YAML.

use crate::convert::{
    collect_results, lemma_collect_first_error, lemma_collect_values, lemma_collected, viewed,
    NumberView,
};
use crate::dict::{index_map_entries, index_map_insert, index_map_into_entries, index_map_new};
use crate::error::ConvertError;
use crate::format::Format;
use crate::value::{
    dict_collect, keys_unique, lemma_collect_of_unique, lemma_collect_wf, lemma_view_array,
    lemma_view_dict, view_entries, view_values, Float, Integer, Value, ValueView,
};
use vstd::prelude::*;
use vstd::std_specs::convert::FromSpecImpl;

verus! {

#[derive(Clone, Copy, Debug, PartialEq)]
enum N {
    PosInt(u64),
    NegInt(i64),
    Float(Float),
}

/// A YAML number: an integer of the signed or of the unsigned 64-bit range,
/// or a float, which may be an infinity or a NaN.
#[derive(Clone, Copy, Debug, PartialEq)]
pub struct Number {
    n: N,
}

impl View for Number {
    type V = NumberView;

    closed spec fn view(&self) -> NumberView {
        match self.n {
            N::PosInt(magnitude) => NumberView::Integer(magnitude as int),
            N::NegInt(number) => NumberView::Integer(number as int),
            N::Float(float) => NumberView::Float(float),
        }
    }
}

impl Number {
    #[verifier::type_invariant]
    spec fn valid(self) -> bool {
        match self.n {
            N::PosInt(_) => true,
            N::NegInt(number) => number < 0,
            N::Float(_) => true,
        }
    }

    /// What holds of the content of every YAML number.
    pub open spec fn wf(number: NumberView) -> bool {
        match number {
            NumberView::Integer(integer) => Integer::in_range(integer),
            NumberView::Float(_) => true,
        }
    }

    /// The number that stands for `number`.
    pub closed spec fn of(number: NumberView) -> Number {
        match number {
            NumberView::Integer(integer) => if integer < 0 {
                Number { n: N::NegInt(integer as i64) }
            } else {
                Number { n: N::PosInt(integer as u64) }
            },
            NumberView::Float(float) => Number { n: N::Float(float) },
        }
    }

    /// The signed value of an integer that fits the signed 64-bit range.
    pub fn as_i64(&self) -> (r: Option<i64>)
        ensures
            Number::wf(self@),
            r == (match self@ {
                NumberView::Integer(integer) if integer <= i64::MAX => Some(integer as i64),
                _ => None,
            }),
    {
        proof {
            use_type_invariant(self);
        }
        match self.n {
            N::PosInt(magnitude) => if magnitude <= 0x7fff_ffff_ffff_ffff {
                Some(magnitude as i64)
            } else {
                None
            },
            N::NegInt(number) => Some(number),
            N::Float(_) => None,
        }
    }

    /// The unsigned value of an integer that is not below zero.
    pub fn as_u64(&self) -> (r: Option<u64>)
        ensures
            Number::wf(self@),
            r == (match self@ {
                NumberView::Integer(integer) if 0 <= integer => Some(integer as u64),
                _ => None,
            }),
    {
        proof {
            use_type_invariant(self);
        }
        match self.n {
            N::PosInt(magnitude) => Some(magnitude),
            N::NegInt(_) => None,
            N::Float(_) => None,
        }
    }

    /// The float, where the number is no integer.
    pub fn as_float(&self) -> (r: Option<Float>)
        ensures
            Number::wf(self@),
            r == (match self@ {
                NumberView::Integer(_) => None,
                NumberView::Float(float) => Some(float),
            }),
    {
        proof {
            use_type_invariant(self);
        }
        match self.n {
            N::PosInt(_) => None,
            N::NegInt(_) => None,
            N::Float(float) => Some(float),
        }
    }
}

impl From<i64> for Number {
    fn from(integer: i64) -> (r: Number)
        ensures
            r@ == NumberView::Integer(integer as int),
    {
        if integer < 0 {
            Number { n: N::NegInt(integer) }
        } else {
            Number { n: N::PosInt(integer as u64) }
        }
    }
}

impl FromSpecImpl<i64> for Number {
    open spec fn obeys_from_spec() -> bool {
        true
    }

    open spec fn from_spec(integer: i64) -> Number {
        Number::of(NumberView::Integer(integer as int))
    }
}

impl From<u64> for Number {
    fn from(integer: u64) -> (r: Number)
        ensures
            r@ == NumberView::Integer(integer as int),
    {
        Number { n: N::PosInt(integer) }
    }
}

impl FromSpecImpl<u64> for Number {
    open spec fn obeys_from_spec() -> bool {
        true
    }

    open spec fn from_spec(integer: u64) -> Number {
        Number::of(NumberView::Integer(integer as int))
    }
}

impl From<Float> for Number {
    fn from(float: Float) -> (r: Number)
        ensures
            r@ == NumberView::Float(float),
    {
        Number { n: N::Float(float) }
    }
}

impl FromSpecImpl<Float> for Number {
    open spec fn obeys_from_spec() -> bool {
        true
    }

    open spec fn from_spec(float: Float) -> Number {
        Number::of(NumberView::Float(float))
    }
}

/// A YAML value.
///
/// A mapping takes any value as a key, and keeps its entries in the order
/// in which they were inserted.
#[derive(Debug, PartialEq)]
pub enum Yaml {
    Null,
    Bool(bool),
    Number(Number),
    String(String),
    Sequence(Vec<Yaml>),
    Mapping(Vec<(Yaml, Yaml)>),
}

/// The mathematical content of a [`Yaml`].
pub ghost enum YamlView {
    Null,
    Bool(bool),
    Number(NumberView),
    String(Seq<char>),
    Sequence(Seq<YamlView>),
    Mapping(Seq<(YamlView, YamlView)>),
}

impl Yaml {
    /// The content of the value.
    pub open spec fn model(self) -> YamlView
        decreases self,
    {
        match self {
            Yaml::Null => YamlView::Null,
            Yaml::Bool(b) => YamlView::Bool(b),
            Yaml::Number(number) => YamlView::Number(number@),
            Yaml::String(string) => YamlView::String(string@),
            Yaml::Sequence(items) => YamlView::Sequence(
                Seq::new(
                    items@.len(),
                    |i: int|
                        if 0 <= i < items@.len() {
                            items@[i].model()
                        } else {
                            YamlView::Null
                        },
                ),
            ),
            Yaml::Mapping(entries) => YamlView::Mapping(
                Seq::new(
                    entries@.len(),
                    |i: int|
                        if 0 <= i < entries@.len() {
                            (entries@[i].0.model(), entries@[i].1.model())
                        } else {
                            (YamlView::Null, YamlView::Null)
                        },
                ),
            ),
        }
    }
}

impl View for Yaml {
    type V = YamlView;

    open spec fn view(&self) -> YamlView {
        self.model()
    }
}

impl Clone for Yaml {
    fn clone(&self) -> (r: Yaml)
        ensures
            r@ == self@,
        decreases self,
    {
        match self {
            Yaml::Null => Yaml::Null,
            Yaml::Bool(b) => Yaml::Bool(*b),
            Yaml::Number(number) => Yaml::Number(*number),
            Yaml::String(string) => Yaml::String(string.clone()),
            Yaml::Sequence(items) => {
                let mut copies: Vec<Yaml> = Vec::new();
                let mut i: usize = 0;
                while i < items.len()
                    invariant
                        i <= items.len(),
                        self is Sequence && self->Sequence_0 == *items,
                        copies@.len() == i,
                        forall|j: int| 0 <= j < i ==> (#[trigger] copies@[j])@ == items@[j]@,
                    decreases items.len() - i,
                {
                    copies.push(items[i].clone());
                    i += 1;
                }
                proof {
                    lemma_view_items(*items);
                    lemma_view_items(copies);
                    assert(view_items(copies@) =~= view_items(items@));
                }
                Yaml::Sequence(copies)
            },
            Yaml::Mapping(entries) => {
                let mut copies: Vec<(Yaml, Yaml)> = Vec::new();
                let mut i: usize = 0;
                while i < entries.len()
                    invariant
                        i <= entries.len(),
                        self is Mapping && self->Mapping_0 == *entries,
                        copies@.len() == i,
                        forall|j: int|
                            0 <= j < i ==> (#[trigger] copies@[j]).0@ == entries@[j].0@
                                && copies@[j].1@ == entries@[j].1@,
                    decreases entries.len() - i,
                {
                    copies.push((entries[i].0.clone(), entries[i].1.clone()));
                    i += 1;
                }
                proof {
                    lemma_view_pairs(*entries);
                    lemma_view_pairs(copies);
                    assert(view_pairs(copies@) =~= view_pairs(entries@));
                }
                Yaml::Mapping(copies)
            },
        }
    }
}

/// The contents of a sequence of YAML values.
pub open spec fn view_items(items: Seq<Yaml>) -> Seq<YamlView> {
    Seq::new(items.len(), |i: int| items[i]@)
}

/// The contents of a sequence of YAML entries.
pub open spec fn view_pairs(entries: Seq<(Yaml, Yaml)>) -> Seq<
    (YamlView, YamlView),
> {
    Seq::new(entries.len(), |i: int| (entries[i].0@, entries[i].1@))
}

proof fn lemma_view_items(items: Vec<Yaml>)
    ensures
        Yaml::Sequence(items)@ == YamlView::Sequence(view_items(items@)),
{
    assert(Yaml::Sequence(items)@->Sequence_0 =~= view_items(items@));
}

proof fn lemma_view_pairs(entries: Vec<(Yaml, Yaml)>)
    ensures
        Yaml::Mapping(entries)@ == YamlView::Mapping(view_pairs(entries@)),
{
    assert(Yaml::Mapping(entries)@->Mapping_0 =~= view_pairs(entries@));
}

impl YamlView {
    /// The intermediate value that a YAML value stands for.
    ///
    /// A number is an integer where it is one and else a float. A mapping
    /// must have strings for its keys, which is looked at before any of its
    /// values. Of a sequence's items and of a mapping's values, the first
    /// that has no counterpart decides.
    pub open spec fn to_value(self) -> Result<ValueView, ConvertError>
        decreases self,
    {
        match self {
            YamlView::Null => Ok(ValueView::Null),
            YamlView::Bool(b) => Ok(ValueView::Bool(b)),
            YamlView::Number(NumberView::Integer(integer)) => Ok(ValueView::Integer(integer)),
            YamlView::Number(NumberView::Float(float)) => Ok(ValueView::Float(float)),
            YamlView::String(string) => Ok(ValueView::String(string)),
            YamlView::Sequence(items) => match collect_results(
                YamlView::item_results(items),
            ) {
                Ok(values) => Ok(ValueView::Array(values)),
                Err(error) => Err(error),
            },
            YamlView::Mapping(entries) => if !YamlView::keys_are_strings(entries) {
                Err(ConvertError::KeyNotString(Format::Yaml))
            } else {
                match collect_results(YamlView::entry_results(entries)) {
                    Ok(pairs) => Ok(ValueView::Dict(dict_collect(pairs))),
                    Err(error) => Err(error),
                }
            },
        }
    }

    /// Every key is a string.
    pub open spec fn keys_are_strings(entries: Seq<(YamlView, YamlView)>) -> bool {
        forall|i: int| 0 <= i < entries.len() ==> (#[trigger] entries[i]).0 is String
    }

    /// What each item is converted to.
    pub open spec fn item_results(items: Seq<YamlView>) -> Seq<
        Result<ValueView, ConvertError>,
    >
        decreases items,
    {
        Seq::new(
            items.len(),
            |i: int|
                if 0 <= i < items.len() {
                    items[i].to_value()
                } else {
                    Ok(ValueView::Null)
                },
        )
    }

    /// What each entry is converted to: its key's string with the
    /// counterpart of its value.
    pub open spec fn entry_results(entries: Seq<(YamlView, YamlView)>) -> Seq<
        Result<(Seq<char>, ValueView), ConvertError>,
    >
        decreases entries,
    {
        Seq::new(
            entries.len(),
            |i: int|
                if 0 <= i < entries.len() {
                    match entries[i].1.to_value() {
                        Ok(value) => Ok((entries[i].0->String_0, value)),
                        Err(error) => Err(error),
                    }
                } else {
                    Err(ConvertError::KeyNotString(Format::Yaml))
                },
        )
    }

    /// The YAML value that stands for an intermediate value.
    pub open spec fn of_value(value: ValueView) -> YamlView
        decreases value,
    {
        match value {
            ValueView::Null => YamlView::Null,
            ValueView::Bool(b) => YamlView::Bool(b),
            ValueView::Integer(integer) => YamlView::Number(NumberView::Integer(integer)),
            ValueView::Float(float) => YamlView::Number(NumberView::Float(float)),
            ValueView::String(string) => YamlView::String(string),
            ValueView::Array(items) => YamlView::Sequence(YamlView::of_values(items)),
            ValueView::Dict(entries) => YamlView::Mapping(YamlView::of_entries(entries)),
        }
    }

    /// The counterparts of the items of an array.
    pub open spec fn of_values(items: Seq<ValueView>) -> Seq<YamlView>
        decreases items,
    {
        Seq::new(
            items.len(),
            |i: int|
                if 0 <= i < items.len() {
                    YamlView::of_value(items[i])
                } else {
                    YamlView::Null
                },
        )
    }

    /// The counterparts of the entries of a dictionary: each key as a
    /// string.
    pub open spec fn of_entries(entries: Seq<(Seq<char>, ValueView)>) -> Seq<
        (YamlView, YamlView),
    >
        decreases entries,
    {
        Seq::new(
            entries.len(),
            |i: int|
                if 0 <= i < entries.len() {
                    (YamlView::String(entries[i].0), YamlView::of_value(entries[i].1))
                } else {
                    (YamlView::Null, YamlView::Null)
                },
        )
    }

    /// Every number is one that YAML has, and no mapping holds a key twice.
    pub open spec fn wf(self) -> bool
        decreases self,
    {
        match self {
            YamlView::Number(number) => Number::wf(number),
            YamlView::Sequence(items) => forall|i: int|
                0 <= i < items.len() ==> (#[trigger] items[i]).wf(),
            YamlView::Mapping(entries) => {
                &&& forall|i: int, j: int|
                    0 <= i < j < entries.len() ==> (#[trigger] entries[i]).0 != (
                    #[trigger] entries[j]).0
                &&& forall|i: int|
                    0 <= i < entries.len() ==> (#[trigger] entries[i]).1.wf()
            },
            _ => true,
        }
    }
}

impl Yaml {
    /// Converts a YAML value into the intermediate value.
    pub fn into_value(self) -> (r: Result<Value, ConvertError>)
        ensures
            viewed(r) == self@.to_value(),
            r matches Ok(value) ==> value@.wf(),
        decreases self,
    {
        match self {
            Yaml::Null => Ok(Value::Null),
            Yaml::Bool(b) => Ok(Value::Bool(b)),
            Yaml::Number(number) => match number.as_i64() {
                Some(signed) => Ok(Value::Integer(Integer::from(signed))),
                None => match number.as_u64() {
                    Some(unsigned) => Ok(Value::Integer(Integer::from(unsigned))),
                    None => {
                        let float = number.as_float();
                        Ok(Value::Float(float.unwrap()))
                    },
                },
            },
            Yaml::String(string) => Ok(Value::String(string)),
            Yaml::Sequence(items) => {
                let ghost views = view_items(items@);
                let ghost results = YamlView::item_results(views);
                proof {
                    lemma_view_items(items);
                }
                let mut values: Vec<Value> = Vec::new();
                for item in it: items
                    invariant
                        it.seq() == items@,
                        views == view_items(items@),
                        results == YamlView::item_results(views),
                        self is Sequence && self->Sequence_0 == items,
                        self@ == YamlView::Sequence(views),
                        values@.len() == it.index(),
                        forall|j: int|
                            0 <= j < it.index() ==> (#[trigger] results[j]) == Ok::<
                                ValueView,
                                ConvertError,
                            >(values@[j]@),
                        forall|j: int| 0 <= j < it.index() ==> (#[trigger] values@[j])@.wf(),
                {
                    match item.into_value() {
                        Ok(value) => {
                            values.push(value);
                        },
                        Err(error) => {
                            proof {
                                lemma_collect_first_error(results, it.index() as int);
                            }
                            return Err(error);
                        },
                    }
                }
                proof {
                    lemma_view_array(values);
                    lemma_collect_values(results, view_values(values@));
                }
                Ok(Value::Array(values))
            },
            Yaml::Mapping(entries) => {
                let ghost views = view_pairs(entries@);
                let ghost results = YamlView::entry_results(views);
                proof {
                    lemma_view_pairs(entries);
                }
                let mut i: usize = 0;
                while i < entries.len()
                    invariant
                        i <= entries.len(),
                        views == view_pairs(entries@),
                        self@ == YamlView::Mapping(views),
                        forall|j: int| 0 <= j < i ==> (#[trigger] views[j]).0 is String,
                    decreases entries.len() - i,
                {
                    let is_string = match &entries[i].0 {
                        Yaml::String(_) => true,
                        _ => false,
                    };
                    if !is_string {
                        assert(!(views[i as int].0 is String));
                        return Err(ConvertError::KeyNotString(Format::Yaml));
                    }
                    i += 1;
                }
                let mut map = index_map_new();
                let ghost mut pairs: Seq<(Seq<char>, ValueView)> = Seq::empty();
                for entry in it: entries
                    invariant
                        it.seq() == entries@,
                        views == view_pairs(entries@),
                        results == YamlView::entry_results(views),
                        self is Mapping && self->Mapping_0 == entries,
                        self@ == YamlView::Mapping(views),
                        YamlView::keys_are_strings(views),
                        pairs.len() == it.index(),
                        forall|j: int|
                            0 <= j < it.index() ==> (#[trigger] results[j]) == Ok::<
                                (Seq<char>, ValueView),
                                ConvertError,
                            >(pairs[j]),
                        index_map_entries(map) == dict_collect(pairs),
                        forall|j: int| 0 <= j < pairs.len() ==> (#[trigger] pairs[j]).1.wf(),
                {
                    assert(views[it.index()].0 is String);
                    let (key, value) = entry;
                    let text = match key {
                        Yaml::String(string) => Some(string),
                        _ => None,
                    };
                    match text {
                        Some(text) => match value.into_value() {
                            Ok(value) => {
                                proof {
                                    let next = pairs.push((text@, value@));
                                    assert(next.drop_last() =~= pairs);
                                    pairs = next;
                                }
                                index_map_insert(&mut map, text, value);
                            },
                            Err(error) => {
                                proof {
                                    lemma_collect_first_error(results, it.index() as int);
                                }
                                return Err(error);
                            },
                        },
                        None => {
                            return Err(ConvertError::KeyNotString(Format::Yaml));
                        },
                    }
                }
                let collected = index_map_into_entries(map);
                proof {
                    lemma_view_dict(collected);
                    lemma_collect_wf(pairs);
                    lemma_collect_values(results, pairs);
                }
                Ok(Value::Dict(collected))
            },
        }
    }

    /// Converts the intermediate value into a YAML value.
    pub fn from_value(value: Value) -> (r: Yaml)
        ensures
            r@ == YamlView::of_value(value@),
        decreases value,
    {
        match value {
            Value::Null => Yaml::Null,
            Value::Bool(b) => Yaml::Bool(b),
            Value::Integer(integer) => match integer.as_i64() {
                Some(signed) => Yaml::Number(Number::from(signed)),
                None => {
                    let unsigned = integer.as_u64();
                    Yaml::Number(Number::from(unsigned.unwrap()))
                },
            },
            Value::Float(float) => Yaml::Number(Number::from(float)),
            Value::String(string) => Yaml::String(string),
            Value::Array(items) => {
                let ghost views = view_values(items@);
                proof {
                    lemma_view_array(items);
                }
                let mut out: Vec<Yaml> = Vec::new();
                for item in it: items
                    invariant
                        it.seq() == items@,
                        views == view_values(items@),
                        value is Array && value->Array_0 == items,
                        out@.len() == it.index(),
                        forall|j: int|
                            0 <= j < it.index() ==> (#[trigger] out@[j])@
                                == YamlView::of_value(views[j]),
                {
                    out.push(Yaml::from_value(item));
                }
                proof {
                    lemma_view_items(out);
                    assert(view_items(out@) =~= YamlView::of_values(views));
                }
                Yaml::Sequence(out)
            },
            Value::Dict(entries) => {
                let ghost views = view_entries(entries@);
                proof {
                    lemma_view_dict(entries);
                }
                let mut out: Vec<(Yaml, Yaml)> = Vec::new();
                for entry in it: entries
                    invariant
                        it.seq() == entries@,
                        views == view_entries(entries@),
                        value is Dict && value->Dict_0 == entries,
                        out@.len() == it.index(),
                        forall|j: int|
                            0 <= j < it.index() ==> (#[trigger] out@[j]).0@
                                == YamlView::String(views[j].0) && out@[j].1@
                                == YamlView::of_value(views[j].1),
                {
                    let (key, item) = entry;
                    out.push((Yaml::String(key), Yaml::from_value(item)));
                }
                proof {
                    lemma_view_pairs(out);
                    assert(view_pairs(out@) =~= YamlView::of_entries(views));
                }
                Yaml::Mapping(out)
            },
        }
    }
}

/// A value that was converted into YAML is converted back into itself.
pub proof fn lemma_value_through_yaml(value: ValueView)
    requires
        value.wf(),
    ensures
        YamlView::of_value(value).to_value() == Ok::<ValueView, ConvertError>(value),
    decreases value,
{
    match value {
        ValueView::Array(items) => {
            let results = YamlView::item_results(YamlView::of_values(items));
            assert forall|i: int| 0 <= i < results.len() implies (#[trigger] results[i]) == Ok::<
                ValueView,
                ConvertError,
            >(items[i]) by {
                assert(items[i].wf());
                lemma_value_through_yaml(items[i]);
            }
            lemma_collect_values(results, items);
        },
        ValueView::Dict(entries) => {
            let encoded = YamlView::of_entries(entries);
            let results = YamlView::entry_results(encoded);
            assert forall|i: int| 0 <= i < results.len() implies (#[trigger] results[i]) == Ok::<
                (Seq<char>, ValueView),
                ConvertError,
            >(entries[i]) by {
                assert(entries[i].1.wf());
                lemma_value_through_yaml(entries[i].1);
            }
            lemma_collect_values(results, entries);
            lemma_collect_of_unique(entries);
        },
        _ => {},
    }
}

/// A YAML value that has a counterpart is what its counterpart is converted
/// into.
pub proof fn lemma_yaml_through_value(yaml: YamlView)
    requires
        yaml.wf(),
        yaml.to_value() is Ok,
    ensures
        YamlView::of_value(yaml.to_value()->Ok_0) == yaml,
    decreases yaml,
{
    match yaml {
        YamlView::Sequence(items) => {
            let results = YamlView::item_results(items);
            lemma_collected(results);
            let values = collect_results(results)->Ok_0;
            assert forall|i: int| 0 <= i < items.len() implies YamlView::of_value(values[i])
                == items[i] by {
                assert(results[i] == Ok::<ValueView, ConvertError>(values[i]));
                assert(items[i].wf());
                lemma_yaml_through_value(items[i]);
            }
            assert(YamlView::of_values(values) =~= items);
        },
        YamlView::Mapping(entries) => {
            let results = YamlView::entry_results(entries);
            lemma_collected(results);
            let pairs = collect_results(results)->Ok_0;
            assert forall|i: int| 0 <= i < entries.len() implies pairs[i].0
                == entries[i].0->String_0 && YamlView::of_value(pairs[i].1)
                == entries[i].1 by {
                assert(results[i] == Ok::<(Seq<char>, ValueView), ConvertError>(pairs[i]));
                assert(entries[i].1.wf());
                lemma_yaml_through_value(entries[i].1);
            }
            assert(keys_unique(pairs)) by {
                assert forall|i: int, j: int| 0 <= i < j < pairs.len() implies pairs[i].0
                    != pairs[j].0 by {
                    assert(entries[i].0 is String && entries[j].0 is String);
                    assert(entries[i].0 != entries[j].0);
                }
            }
            lemma_collect_of_unique(pairs);
            assert(YamlView::of_entries(pairs) =~= entries) by {
                assert forall|i: int| 0 <= i < entries.len() implies YamlView::of_entries(
                    pairs,
                )[i] == entries[i] by {
                    assert(entries[i].0 is String);
                }
            }
        },
        _ => {},
    }
}

/// The value that a YAML value is converted into is well-formed.
pub proof fn lemma_yaml_value_wf(yaml: YamlView)
    requires
        yaml.wf(),
    ensures
        yaml.to_value() matches Ok(value) ==> value.wf(),
    decreases yaml,
{
    match yaml {
        YamlView::Sequence(items) => {
            let results = YamlView::item_results(items);
            if collect_results(results) is Ok {
                lemma_collected(results);
                let values = collect_results(results)->Ok_0;
                assert forall|i: int| 0 <= i < values.len() implies (#[trigger] values[i]).wf() by {
                    assert(results[i] == Ok::<ValueView, ConvertError>(values[i]));
                    assert(items[i].wf());
                    lemma_yaml_value_wf(items[i]);
                }
            }
        },
        YamlView::Mapping(entries) => {
            let results = YamlView::entry_results(entries);
            if YamlView::keys_are_strings(entries) && collect_results(results) is Ok {
                lemma_collected(results);
                let pairs = collect_results(results)->Ok_0;
                assert forall|i: int| 0 <= i < pairs.len() implies (#[trigger] pairs[i]).1.wf() by {
                    assert(results[i] == Ok::<(Seq<char>, ValueView), ConvertError>(pairs[i]));
                    assert(entries[i].1.wf());
                    lemma_yaml_value_wf(entries[i].1);
                }
                lemma_collect_wf(pairs);
            }
        },
        _ => {},
    }
}

/// The YAML value that a well-formed value is converted into is one that
/// YAML has, and holds no key twice.
pub proof fn lemma_yaml_of_value_wf(value: ValueView)
    requires
        value.wf(),
    ensures
        YamlView::of_value(value).wf(),
    decreases value,
{
    match value {
        ValueView::Array(items) => {
            let converted = YamlView::of_values(items);
            assert forall|i: int| 0 <= i < converted.len() implies (
            #[trigger] converted[i]).wf() by {
                assert(items[i].wf());
                lemma_yaml_of_value_wf(items[i]);
            }
        },
        ValueView::Dict(entries) => {
            let converted = YamlView::of_entries(entries);
            assert forall|i: int| 0 <= i < converted.len() implies (#[trigger] converted[i]).0.wf()
                && converted[i].1.wf() by {
                assert(entries[i].1.wf());
                lemma_yaml_of_value_wf(entries[i].1);
            }
            assert forall|i: int, j: int| 0 <= i < j < converted.len() implies (
            #[trigger] converted[i]).0 != (#[trigger] converted[j]).0 by {
                assert(entries[i].0 != entries[j].0);
            }
        },
        _ => {},
    }
}

} // verus!
