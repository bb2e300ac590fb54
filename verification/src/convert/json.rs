//! JSON.

use crate::convert::{
    collect_results, lemma_collect_first_error, lemma_collect_values, lemma_collected,
    lemma_collected_error, viewed, NumberView,
};
use crate::dict::{index_map_entries, index_map_insert, index_map_into_entries, index_map_new};
use crate::error::ConvertError;
use crate::value::{
    dict_collect, keys_unique, lemma_collect_of_unique, lemma_collect_wf, lemma_view_array,
    lemma_view_dict, view_entries, view_values, Float, Integer, Value, ValueView,
};
use vstd::prelude::*;
use vstd::std_specs::convert::FromSpecImpl;

verus! {

#[derive(Clone, Copy, Debug, PartialEq)]
enum N {
    PosInt(u64),
    NegInt(i64),
    Float(Float),
}

/// A JSON number: an integer of the signed or of the unsigned 64-bit range,
/// or a finite float.
#[derive(Clone, Copy, Debug, PartialEq)]
pub struct Number {
    n: N,
}

impl View for Number {
    type V = NumberView;

    closed spec fn view(&self) -> NumberView {
        match self.n {
            N::PosInt(magnitude) => NumberView::Integer(magnitude as int),
            N::NegInt(number) => NumberView::Integer(number as int),
            N::Float(float) => NumberView::Float(float),
        }
    }
}

impl Number {
    #[verifier::type_invariant]
    spec fn valid(self) -> bool {
        match self.n {
            N::PosInt(_) => true,
            N::NegInt(number) => number < 0,
            N::Float(float) => float.is_finite(),
        }
    }

    /// What holds of the content of every JSON number.
    pub open spec fn wf(number: NumberView) -> bool {
        match number {
            NumberView::Integer(integer) => Integer::in_range(integer),
            NumberView::Float(float) => float.is_finite(),
        }
    }

    /// The number that stands for `number`.
    pub closed spec fn of(number: NumberView) -> Number {
        match number {
            NumberView::Integer(integer) => if integer < 0 {
                Number { n: N::NegInt(integer as i64) }
            } else {
                Number { n: N::PosInt(integer as u64) }
            },
            NumberView::Float(float) => Number { n: N::Float(float) },
        }
    }

    /// The signed value of an integer that fits the signed 64-bit range.
    pub fn as_i64(&self) -> (r: Option<i64>)
        ensures
            Number::wf(self@),
            r == (match self@ {
                NumberView::Integer(integer) if integer <= i64::MAX => Some(integer as i64),
                _ => None,
            }),
    {
        proof {
            use_type_invariant(self);
        }
        match self.n {
            N::PosInt(magnitude) => if magnitude <= 0x7fff_ffff_ffff_ffff {
                Some(magnitude as i64)
            } else {
                None
            },
            N::NegInt(number) => Some(number),
            N::Float(_) => None,
        }
    }

    /// The unsigned value of an integer that is not below zero.
    pub fn as_u64(&self) -> (r: Option<u64>)
        ensures
            Number::wf(self@),
            r == (match self@ {
                NumberView::Integer(integer) if 0 <= integer => Some(integer as u64),
                _ => None,
            }),
    {
        proof {
            use_type_invariant(self);
        }
        match self.n {
            N::PosInt(magnitude) => Some(magnitude),
            N::NegInt(_) => None,
            N::Float(_) => None,
        }
    }

    /// The float, where the number is no integer.
    pub fn as_float(&self) -> (r: Option<Float>)
        ensures
            Number::wf(self@),
            r == (match self@ {
                NumberView::Integer(_) => None,
                NumberView::Float(float) => Some(float),
            }),
    {
        proof {
            use_type_invariant(self);
        }
        match self.n {
            N::PosInt(_) => None,
            N::NegInt(_) => None,
            N::Float(float) => Some(float),
        }
    }

    /// The number that holds a float, which an infinity and a NaN have not.
    pub fn from_f64(float: Float) -> (r: Option<Number>)
        ensures
            match r {
                Some(number) => float.is_finite() && number@ == NumberView::Float(float),
                None => !float.is_finite(),
            },
    {
        if float.is_finite() {
            Some(Number { n: N::Float(float) })
        } else {
            None
        }
    }
}

impl From<i64> for Number {
    fn from(integer: i64) -> (r: Number)
        ensures
            r@ == NumberView::Integer(integer as int),
    {
        if integer < 0 {
            Number { n: N::NegInt(integer) }
        } else {
            Number { n: N::PosInt(integer as u64) }
        }
    }
}

impl FromSpecImpl<i64> for Number {
    open spec fn obeys_from_spec() -> bool {
        true
    }

    open spec fn from_spec(integer: i64) -> Number {
        Number::of(NumberView::Integer(integer as int))
    }
}

impl From<u64> for Number {
    fn from(integer: u64) -> (r: Number)
        ensures
            r@ == NumberView::Integer(integer as int),
    {
        Number { n: N::PosInt(integer) }
    }
}

impl FromSpecImpl<u64> for Number {
    open spec fn obeys_from_spec() -> bool {
        true
    }

    open spec fn from_spec(integer: u64) -> Number {
        Number::of(NumberView::Integer(integer as int))
    }
}

/// A JSON value.
///
/// An object keeps its members in the order in which they were inserted.
#[derive(Debug, PartialEq)]
pub enum Json {
    Null,
    Bool(bool),
    Number(Number),
    String(String),
    Array(Vec<Json>),
    Object(Vec<(String, Json)>),
}

/// The mathematical content of a [`Json`].
pub ghost enum JsonView {
    Null,
    Bool(bool),
    Number(NumberView),
    String(Seq<char>),
    Array(Seq<JsonView>),
    Object(Seq<(Seq<char>, JsonView)>),
}

impl Json {
    /// The content of the value.
    pub open spec fn model(self) -> JsonView
        decreases self,
    {
        match self {
            Json::Null => JsonView::Null,
            Json::Bool(b) => JsonView::Bool(b),
            Json::Number(number) => JsonView::Number(number@),
            Json::String(string) => JsonView::String(string@),
            Json::Array(items) => JsonView::Array(
                Seq::new(
                    items@.len(),
                    |i: int|
                        if 0 <= i < items@.len() {
                            items@[i].model()
                        } else {
                            JsonView::Null
                        },
                ),
            ),
            Json::Object(members) => JsonView::Object(
                Seq::new(
                    members@.len(),
                    |i: int|
                        if 0 <= i < members@.len() {
                            (members@[i].0@, members@[i].1.model())
                        } else {
                            (Seq::empty(), JsonView::Null)
                        },
                ),
            ),
        }
    }
}

impl View for Json {
    type V = JsonView;

    open spec fn view(&self) -> JsonView {
        self.model()
    }
}

impl Clone for Json {
    fn clone(&self) -> (r: Json)
        ensures
            r@ == self@,
        decreases self,
    {
        match self {
            Json::Null => Json::Null,
            Json::Bool(b) => Json::Bool(*b),
            Json::Number(number) => Json::Number(*number),
            Json::String(string) => Json::String(string.clone()),
            Json::Array(items) => {
                let mut copies: Vec<Json> = Vec::new();
                let mut i: usize = 0;
                while i < items.len()
                    invariant
                        i <= items.len(),
                        self is Array && self->Array_0 == *items,
                        copies@.len() == i,
                        forall|j: int| 0 <= j < i ==> (#[trigger] copies@[j])@ == items@[j]@,
                    decreases items.len() - i,
                {
                    copies.push(items[i].clone());
                    i += 1;
                }
                proof {
                    lemma_view_items(*items);
                    lemma_view_items(copies);
                    assert(view_items(copies@) =~= view_items(items@));
                }
                Json::Array(copies)
            },
            Json::Object(entries) => {
                let mut copies: Vec<(String, Json)> = Vec::new();
                let mut i: usize = 0;
                while i < entries.len()
                    invariant
                        i <= entries.len(),
                        self is Object && self->Object_0 == *entries,
                        copies@.len() == i,
                        forall|j: int|
                            0 <= j < i ==> (#[trigger] copies@[j]).0@ == entries@[j].0@
                                && copies@[j].1@ == entries@[j].1@,
                    decreases entries.len() - i,
                {
                    copies.push((entries[i].0.clone(), entries[i].1.clone()));
                    i += 1;
                }
                proof {
                    lemma_view_members(*entries);
                    lemma_view_members(copies);
                    assert(view_members(copies@) =~= view_members(entries@));
                }
                Json::Object(copies)
            },
        }
    }
}

/// The contents of a sequence of JSON values.
pub open spec fn view_items(items: Seq<Json>) -> Seq<JsonView> {
    Seq::new(items.len(), |i: int| items[i]@)
}

/// The contents of a sequence of members.
pub open spec fn view_members(members: Seq<(String, Json)>) -> Seq<(Seq<char>, JsonView)> {
    Seq::new(members.len(), |i: int| (members[i].0@, members[i].1@))
}

proof fn lemma_view_items(items: Vec<Json>)
    ensures
        Json::Array(items)@ == JsonView::Array(view_items(items@)),
{
    assert(Json::Array(items)@->Array_0 =~= view_items(items@));
}

proof fn lemma_view_members(members: Vec<(String, Json)>)
    ensures
        Json::Object(members)@ == JsonView::Object(view_members(members@)),
{
    assert(Json::Object(members)@->Object_0 =~= view_members(members@));
}

impl JsonView {
    /// The intermediate value that a JSON value stands for: each value its
    /// like, a number an integer where it is one and else a float, and an
    /// object the dictionary that its members make, in their order.
    pub open spec fn to_value(self) -> ValueView
        decreases self,
    {
        match self {
            JsonView::Null => ValueView::Null,
            JsonView::Bool(b) => ValueView::Bool(b),
            JsonView::Number(NumberView::Integer(integer)) => ValueView::Integer(integer),
            JsonView::Number(NumberView::Float(float)) => ValueView::Float(float),
            JsonView::String(string) => ValueView::String(string),
            JsonView::Array(items) => ValueView::Array(JsonView::to_values(items)),
            JsonView::Object(members) => ValueView::Dict(dict_collect(JsonView::to_pairs(members))),
        }
    }

    /// The counterparts of the items of an array.
    pub open spec fn to_values(items: Seq<JsonView>) -> Seq<ValueView>
        decreases items,
    {
        Seq::new(
            items.len(),
            |i: int|
                if 0 <= i < items.len() {
                    items[i].to_value()
                } else {
                    ValueView::Null
                },
        )
    }

    /// The members of an object, each with the counterpart of its value.
    pub open spec fn to_pairs(members: Seq<(Seq<char>, JsonView)>) -> Seq<(Seq<char>, ValueView)>
        decreases members,
    {
        Seq::new(
            members.len(),
            |i: int|
                if 0 <= i < members.len() {
                    (members[i].0, members[i].1.to_value())
                } else {
                    (Seq::empty(), ValueView::Null)
                },
        )
    }

    /// The JSON value that stands for an intermediate value.
    ///
    /// A float that is an infinity or a NaN has none. Of an array's items and
    /// of a dictionary's values, the first that has no counterpart decides.
    pub open spec fn of_value(value: ValueView) -> Result<JsonView, ConvertError>
        decreases value,
    {
        match value {
            ValueView::Null => Ok(JsonView::Null),
            ValueView::Bool(b) => Ok(JsonView::Bool(b)),
            ValueView::Integer(integer) => Ok(JsonView::Number(NumberView::Integer(integer))),
            ValueView::Float(float) => match float.non_finite() {
                None => Ok(JsonView::Number(NumberView::Float(float))),
                Some(kind) => Err(ConvertError::NonFiniteFloat(kind)),
            },
            ValueView::String(string) => Ok(JsonView::String(string)),
            ValueView::Array(items) => match collect_results(JsonView::item_results(items)) {
                Ok(converted) => Ok(JsonView::Array(converted)),
                Err(error) => Err(error),
            },
            ValueView::Dict(entries) => match collect_results(JsonView::entry_results(entries)) {
                Ok(members) => Ok(JsonView::Object(members)),
                Err(error) => Err(error),
            },
        }
    }

    /// What each item of an array is converted to.
    pub open spec fn item_results(items: Seq<ValueView>) -> Seq<Result<JsonView, ConvertError>>
        decreases items,
    {
        Seq::new(
            items.len(),
            |i: int|
                if 0 <= i < items.len() {
                    JsonView::of_value(items[i])
                } else {
                    Ok(JsonView::Null)
                },
        )
    }

    /// What each entry of a dictionary is converted to: its key with the
    /// counterpart of its value.
    pub open spec fn entry_results(entries: Seq<(Seq<char>, ValueView)>) -> Seq<
        Result<(Seq<char>, JsonView), ConvertError>,
    >
        decreases entries,
    {
        Seq::new(
            entries.len(),
            |i: int|
                if 0 <= i < entries.len() {
                    match JsonView::of_value(entries[i].1) {
                        Ok(converted) => Ok((entries[i].0, converted)),
                        Err(error) => Err(error),
                    }
                } else {
                    Ok((Seq::empty(), JsonView::Null))
                },
        )
    }

    /// Every number is one that JSON has, and no object holds a name twice.
    pub open spec fn wf(self) -> bool
        decreases self,
    {
        match self {
            JsonView::Number(number) => Number::wf(number),
            JsonView::Array(items) => forall|i: int|
                0 <= i < items.len() ==> (#[trigger] items[i]).wf(),
            JsonView::Object(members) => keys_unique(members) && forall|i: int|
                0 <= i < members.len() ==> (#[trigger] members[i]).1.wf(),
            _ => true,
        }
    }
}

impl Json {
    /// Converts a JSON value into the intermediate value.
    pub fn into_value(self) -> (r: Value)
        ensures
            r@ == self@.to_value(),
            r@.wf(),
        decreases self,
    {
        match self {
            Json::Null => Value::Null,
            Json::Bool(b) => Value::Bool(b),
            Json::Number(number) => match number.as_i64() {
                Some(signed) => Value::Integer(Integer::from(signed)),
                None => match number.as_u64() {
                    Some(unsigned) => Value::Integer(Integer::from(unsigned)),
                    None => {
                        let float = number.as_float();
                        Value::Float(float.unwrap())
                    },
                },
            },
            Json::String(string) => Value::String(string),
            Json::Array(items) => {
                let ghost views = view_items(items@);
                proof {
                    lemma_view_items(items);
                }
                let mut values: Vec<Value> = Vec::new();
                for item in it: items
                    invariant
                        it.seq() == items@,
                        views == view_items(items@),
                        self is Array && self->Array_0 == items,
                        values@.len() == it.index(),
                        forall|j: int|
                            0 <= j < it.index() ==> (#[trigger] values@[j])@
                                == views[j].to_value(),
                        forall|j: int| 0 <= j < it.index() ==> (#[trigger] values@[j])@.wf(),
                {
                    values.push(item.into_value());
                }
                proof {
                    lemma_view_array(values);
                    assert(view_values(values@) =~= JsonView::to_values(views));
                }
                Value::Array(values)
            },
            Json::Object(members) => {
                let ghost views = view_members(members@);
                proof {
                    lemma_view_members(members);
                }
                let mut map = index_map_new();
                let ghost mut pairs: Seq<(Seq<char>, ValueView)> = Seq::empty();
                for member in it: members
                    invariant
                        it.seq() == members@,
                        views == view_members(members@),
                        self is Object && self->Object_0 == members,
                        pairs.len() == it.index(),
                        forall|j: int|
                            0 <= j < it.index() ==> (#[trigger] pairs[j]) == (
                                views[j].0,
                                views[j].1.to_value(),
                            ),
                        index_map_entries(map) == dict_collect(pairs),
                        forall|j: int| 0 <= j < pairs.len() ==> (#[trigger] pairs[j]).1.wf(),
                {
                    let (name, item) = member;
                    let value = item.into_value();
                    proof {
                        let next = pairs.push((name@, value@));
                        assert(next.drop_last() =~= pairs);
                        pairs = next;
                    }
                    index_map_insert(&mut map, name, value);
                }
                let collected = index_map_into_entries(map);
                proof {
                    lemma_view_dict(collected);
                    lemma_collect_wf(pairs);
                    assert(pairs =~= JsonView::to_pairs(views));
                }
                Value::Dict(collected)
            },
        }
    }

    /// Converts the intermediate value into a JSON value.
    pub fn from_value(value: Value) -> (r: Result<Json, ConvertError>)
        ensures
            viewed(r) == JsonView::of_value(value@),
        decreases value,
    {
        match value {
            Value::Null => Ok(Json::Null),
            Value::Bool(b) => Ok(Json::Bool(b)),
            Value::Integer(integer) => match integer.as_i64() {
                Some(signed) => Ok(Json::Number(Number::from(signed))),
                None => {
                    let unsigned = integer.as_u64();
                    Ok(Json::Number(Number::from(unsigned.unwrap())))
                },
            },
            Value::Float(float) => match Number::from_f64(float) {
                Some(number) => Ok(Json::Number(number)),
                None => {
                    let kind = float.non_finite();
                    Err(ConvertError::NonFiniteFloat(kind.unwrap()))
                },
            },
            Value::String(string) => Ok(Json::String(string)),
            Value::Array(items) => {
                let ghost views = view_values(items@);
                let ghost results = JsonView::item_results(views);
                proof {
                    lemma_view_array(items);
                }
                let mut out: Vec<Json> = Vec::new();
                for item in it: items
                    invariant
                        it.seq() == items@,
                        views == view_values(items@),
                        results == JsonView::item_results(views),
                        value is Array && value->Array_0 == items,
                        value@ == ValueView::Array(views),
                        out@.len() == it.index(),
                        forall|j: int|
                            0 <= j < it.index() ==> (#[trigger] results[j]) == Ok::<
                                JsonView,
                                ConvertError,
                            >(out@[j]@),
                {
                    match Json::from_value(item) {
                        Ok(converted) => {
                            out.push(converted);
                        },
                        Err(error) => {
                            proof {
                                lemma_collect_first_error(results, it.index() as int);
                            }
                            return Err(error);
                        },
                    }
                }
                proof {
                    lemma_view_items(out);
                    lemma_collect_values(results, view_items(out@));
                }
                Ok(Json::Array(out))
            },
            Value::Dict(entries) => {
                let ghost views = view_entries(entries@);
                let ghost results = JsonView::entry_results(views);
                proof {
                    lemma_view_dict(entries);
                }
                let mut out: Vec<(String, Json)> = Vec::new();
                for entry in it: entries
                    invariant
                        it.seq() == entries@,
                        views == view_entries(entries@),
                        results == JsonView::entry_results(views),
                        value is Dict && value->Dict_0 == entries,
                        value@ == ValueView::Dict(views),
                        out@.len() == it.index(),
                        forall|j: int|
                            0 <= j < it.index() ==> (#[trigger] results[j]) == Ok::<
                                (Seq<char>, JsonView),
                                ConvertError,
                            >((out@[j].0@, out@[j].1@)),
                {
                    let (key, item) = entry;
                    match Json::from_value(item) {
                        Ok(converted) => {
                            out.push((key, converted));
                        },
                        Err(error) => {
                            proof {
                                lemma_collect_first_error(results, it.index() as int);
                            }
                            return Err(error);
                        },
                    }
                }
                proof {
                    lemma_view_members(out);
                    lemma_collect_values(results, view_members(out@));
                }
                Ok(Json::Object(out))
            },
        }
    }
}

/// A JSON value is what its counterpart is converted into.
pub proof fn lemma_json_through_value(json: JsonView)
    requires
        json.wf(),
    ensures
        JsonView::of_value(json.to_value()) == Ok::<JsonView, ConvertError>(json),
    decreases json,
{
    match json {
        JsonView::Array(items) => {
            let results = JsonView::item_results(JsonView::to_values(items));
            assert forall|i: int| 0 <= i < results.len() implies (#[trigger] results[i]) == Ok::<
                JsonView,
                ConvertError,
            >(items[i]) by {
                assert(items[i].wf());
                lemma_json_through_value(items[i]);
            }
            lemma_collect_values(results, items);
        },
        JsonView::Object(members) => {
            let pairs = JsonView::to_pairs(members);
            assert(keys_unique(pairs));
            lemma_collect_of_unique(pairs);
            let results = JsonView::entry_results(pairs);
            assert forall|i: int| 0 <= i < results.len() implies (#[trigger] results[i]) == Ok::<
                (Seq<char>, JsonView),
                ConvertError,
            >(members[i]) by {
                assert(members[i].1.wf());
                lemma_json_through_value(members[i].1);
            }
            lemma_collect_values(results, members);
        },
        _ => {},
    }
}

/// A value that was converted into JSON is converted back into itself.
pub proof fn lemma_value_through_json(value: ValueView)
    requires
        value.wf(),
        JsonView::of_value(value) is Ok,
    ensures
        JsonView::of_value(value)->Ok_0.to_value() == value,
    decreases value,
{
    match value {
        ValueView::Array(items) => {
            let results = JsonView::item_results(items);
            lemma_collected(results);
            let converted = collect_results(results)->Ok_0;
            assert forall|i: int| 0 <= i < items.len() implies converted[i].to_value()
                == items[i] by {
                assert(results[i] == Ok::<JsonView, ConvertError>(converted[i]));
                assert(items[i].wf());
                lemma_value_through_json(items[i]);
            }
            assert(JsonView::to_values(converted) =~= items);
        },
        ValueView::Dict(entries) => {
            let results = JsonView::entry_results(entries);
            lemma_collected(results);
            let members = collect_results(results)->Ok_0;
            assert forall|i: int| 0 <= i < entries.len() implies members[i].0 == entries[i].0
                && members[i].1.to_value() == entries[i].1 by {
                assert(results[i] == Ok::<(Seq<char>, JsonView), ConvertError>(members[i]));
                assert(entries[i].1.wf());
                lemma_value_through_json(entries[i].1);
            }
            assert(JsonView::to_pairs(members) =~= entries);
            lemma_collect_of_unique(entries);
        },
        _ => {},
    }
}

/// JSON takes a value exactly where none of its floats is an infinity or a
/// NaN, and refuses another for such a float.
pub proof fn lemma_json_takes_finite(value: ValueView)
    ensures
        JsonView::of_value(value) is Ok <==> value.floats_finite(),
        JsonView::of_value(value) matches Err(error) ==> error is NonFiniteFloat,
    decreases value,
{
    match value {
        ValueView::Array(items) => {
            let results = JsonView::item_results(items);
            assert forall|i: int| 0 <= i < items.len() implies ((#[trigger] results[i]) is Ok
                <==> items[i].floats_finite()) && (results[i] matches Err(error)
                ==> error is NonFiniteFloat) by {
                lemma_json_takes_finite(items[i]);
            }
            if collect_results(results) is Err {
                let index = lemma_collected_error(results);
                assert(!items[index].floats_finite());
            } else {
                lemma_collected(results);
                assert forall|i: int| 0 <= i < items.len() implies (
                #[trigger] items[i]).floats_finite() by {
                    assert(results[i] is Ok);
                }
            }
        },
        ValueView::Dict(entries) => {
            let results = JsonView::entry_results(entries);
            assert forall|i: int| 0 <= i < entries.len() implies ((#[trigger] results[i]) is Ok
                <==> entries[i].1.floats_finite()) && (results[i] matches Err(error)
                ==> error is NonFiniteFloat) by {
                lemma_json_takes_finite(entries[i].1);
            }
            if collect_results(results) is Err {
                let index = lemma_collected_error(results);
                assert(!entries[index].1.floats_finite());
            } else {
                lemma_collected(results);
                assert forall|i: int| 0 <= i < entries.len() implies (
                #[trigger] entries[i]).1.floats_finite() by {
                    assert(results[i] is Ok);
                }
            }
        },
        _ => {},
    }
}

/// The value that a JSON value is converted into is well-formed.
pub proof fn lemma_json_value_wf(json: JsonView)
    requires
        json.wf(),
    ensures
        json.to_value().wf(),
    decreases json,
{
    match json {
        JsonView::Array(items) => {
            let values = JsonView::to_values(items);
            assert forall|i: int| 0 <= i < values.len() implies (#[trigger] values[i]).wf() by {
                assert(items[i].wf());
                lemma_json_value_wf(items[i]);
            }
        },
        JsonView::Object(entries) => {
            let pairs = JsonView::to_pairs(entries);
            assert forall|i: int| 0 <= i < pairs.len() implies (#[trigger] pairs[i]).1.wf() by {
                assert(entries[i].1.wf());
                lemma_json_value_wf(entries[i].1);
            }
            lemma_collect_wf(pairs);
        },
        _ => {},
    }
}

/// The JSON value that a well-formed value is converted into is
/// well-formed.
pub proof fn lemma_json_of_value_wf(value: ValueView)
    requires
        value.wf(),
    ensures
        JsonView::of_value(value) matches Ok(json) ==> json.wf(),
    decreases value,
{
    match value {
        ValueView::Array(items) => {
            let results = JsonView::item_results(items);
            if collect_results(results) is Ok {
                lemma_collected(results);
                let converted = collect_results(results)->Ok_0;
                assert forall|i: int| 0 <= i < converted.len() implies (
                #[trigger] converted[i]).wf() by {
                    assert(results[i] == Ok::<JsonView, ConvertError>(converted[i]));
                    assert(items[i].wf());
                    lemma_json_of_value_wf(items[i]);
                }
            }
        },
        ValueView::Dict(entries) => {
            let results = JsonView::entry_results(entries);
            if collect_results(results) is Ok {
                lemma_collected(results);
                let converted = collect_results(results)->Ok_0;
                assert forall|i: int| 0 <= i < converted.len() implies (
                #[trigger] converted[i]).1.wf()
                    && converted[i].0 == entries[i].0 by {
                    assert(results[i] == Ok::<(Seq<char>, JsonView), ConvertError>(converted[i]));
                    assert(entries[i].1.wf());
                    lemma_json_of_value_wf(entries[i].1);
                }
                assert(keys_unique(converted)) by {
                    assert forall|i: int, j: int|
                        0 <= i < j < converted.len() implies converted[i].0
                        != converted[j].0 by {
                        assert(entries[i].0 != entries[j].0);
                    }
                }
            }
        },
        _ => {},
    }
}

} // verus!
