//! TOML.

use crate::convert::{
    collect_results, lemma_collect_first_error, lemma_collect_values, lemma_collected,
    lemma_collected_error, viewed,
};
use crate::dict::{index_map_entries, index_map_insert, index_map_into_entries, index_map_new};
use crate::error::ConvertError;
use crate::value::{
    dict_collect, keys_unique, lemma_collect_of_unique, lemma_collect_wf, lemma_view_array,
    lemma_view_dict, view_entries, view_values, Float, Integer, Value, ValueView,
};
use vstd::prelude::*;

verus! {

/// A calendar date.
#[derive(Clone, Copy, Debug, PartialEq, Eq)]
pub struct Date {
    pub year: u16,
    pub month: u8,
    pub day: u8,
}

/// A time of day.
#[derive(Clone, Copy, Debug, PartialEq, Eq)]
pub struct Time {
    pub hour: u8,
    pub minute: u8,
    pub second: u8,
    pub nanosecond: u32,
}

/// The distance of a local time from UTC.
#[derive(Clone, Copy, Debug, PartialEq, Eq)]
pub enum Offset {
    Z,
    Custom { hours: i8, minutes: u8 },
}

/// A TOML date-time: a date, a time, or both, the two together with or
/// without an offset.
#[derive(Clone, Copy, Debug, PartialEq, Eq)]
pub struct Datetime {
    pub date: Option<Date>,
    pub time: Option<Time>,
    pub offset: Option<Offset>,
}

/// The date-time that a text is read as, where it is read as one.
pub uninterp spec fn datetime_parsed(text: Seq<char>) -> Option<Datetime>;

/// The text that a date-time is written as.
pub uninterp spec fn datetime_text(datetime: Datetime) -> Seq<char>;

/// `FromStr` of `toml::value::Datetime`: the date-time that the text is read
/// as, and none where it is not read as one.
#[verifier::external_body]
fn parse_datetime(text: &str) -> (r: Option<Datetime>)
    ensures
        r == datetime_parsed(text@),
{
    let parsed = text.parse::<::toml::value::Datetime>().ok()?;
    Some(Datetime {
        date: parsed.date.map(|d| Date { year: d.year, month: d.month, day: d.day }),
        time: parsed.time.map(|t| Time { hour: t.hour, minute: t.minute, second: t.second, nanosecond: t.nanosecond }),
        offset: parsed.offset.map(|o| match o {
            ::toml::value::Offset::Z => Offset::Z,
            ::toml::value::Offset::Custom { hours, minutes } => Offset::Custom { hours, minutes },
        }),
    })
}

/// `Display` of `toml::value::Datetime`: the text that the date-time is
/// written as.
#[verifier::external_body]
fn datetime_to_string(datetime: &Datetime) -> (r: String)
    ensures
        r@ == datetime_text(*datetime),
{
    let native = ::toml::value::Datetime {
        date: datetime.date.map(|d| ::toml::value::Date { year: d.year, month: d.month, day: d.day }),
        time: datetime.time.map(|t| ::toml::value::Time { hour: t.hour, minute: t.minute, second: t.second, nanosecond: t.nanosecond }),
        offset: datetime.offset.map(|o| match o {
            Offset::Z => ::toml::value::Offset::Z,
            Offset::Custom { hours, minutes } => ::toml::value::Offset::Custom { hours, minutes },
        }),
    };
    native.to_string()
}

impl Datetime {
    /// Reads a text as a date-time.
    pub fn parse(text: &str) -> (r: Option<Datetime>)
        ensures
            r == datetime_parsed(text@),
    {
        parse_datetime(text)
    }

    /// Writes the date-time as a text.
    pub fn to_text(&self) -> (r: String)
        ensures
            r@ == datetime_text(*self),
    {
        datetime_to_string(self)
    }
}

/// A TOML value.
///
/// A table keeps its entries in the order in which they were inserted.
#[derive(Debug, PartialEq)]
pub enum Toml {
    String(String),
    Integer(i64),
    Float(Float),
    Boolean(bool),
    Datetime(Datetime),
    Array(Vec<Toml>),
    Table(Vec<(String, Toml)>),
}

/// The mathematical content of a [`Toml`].
pub ghost enum TomlView {
    String(Seq<char>),
    Integer(i64),
    Float(Float),
    Boolean(bool),
    Datetime(Datetime),
    Array(Seq<TomlView>),
    Table(Seq<(Seq<char>, TomlView)>),
}

impl Toml {
    /// The content of the value.
    pub open spec fn model(self) -> TomlView
        decreases self,
    {
        match self {
            Toml::String(string) => TomlView::String(string@),
            Toml::Integer(integer) => TomlView::Integer(integer),
            Toml::Float(float) => TomlView::Float(float),
            Toml::Boolean(b) => TomlView::Boolean(b),
            Toml::Datetime(datetime) => TomlView::Datetime(datetime),
            Toml::Array(items) => TomlView::Array(
                Seq::new(
                    items@.len(),
                    |i: int|
                        if 0 <= i < items@.len() {
                            items@[i].model()
                        } else {
                            TomlView::Boolean(false)
                        },
                ),
            ),
            Toml::Table(entries) => TomlView::Table(
                Seq::new(
                    entries@.len(),
                    |i: int|
                        if 0 <= i < entries@.len() {
                            (entries@[i].0@, entries@[i].1.model())
                        } else {
                            (Seq::empty(), TomlView::Boolean(false))
                        },
                ),
            ),
        }
    }
}

impl View for Toml {
    type V = TomlView;

    open spec fn view(&self) -> TomlView {
        self.model()
    }
}

impl Clone for Toml {
    fn clone(&self) -> (r: Toml)
        ensures
            r@ == self@,
        decreases self,
    {
        match self {
            Toml::String(string) => Toml::String(string.clone()),
            Toml::Integer(integer) => Toml::Integer(*integer),
            Toml::Float(float) => Toml::Float(*float),
            Toml::Boolean(b) => Toml::Boolean(*b),
            Toml::Datetime(datetime) => Toml::Datetime(*datetime),
            Toml::Array(items) => {
                let mut copies: Vec<Toml> = Vec::new();
                let mut i: usize = 0;
                while i < items.len()
                    invariant
                        i <= items.len(),
                        self is Array && self->Array_0 == *items,
                        copies@.len() == i,
                        forall|j: int| 0 <= j < i ==> (#[trigger] copies@[j])@ == items@[j]@,
                    decreases items.len() - i,
                {
                    copies.push(items[i].clone());
                    i += 1;
                }
                proof {
                    lemma_view_items(*items);
                    lemma_view_items(copies);
                    assert(view_items(copies@) =~= view_items(items@));
                }
                Toml::Array(copies)
            },
            Toml::Table(entries) => {
                let mut copies: Vec<(String, Toml)> = Vec::new();
                let mut i: usize = 0;
                while i < entries.len()
                    invariant
                        i <= entries.len(),
                        self is Table && self->Table_0 == *entries,
                        copies@.len() == i,
                        forall|j: int|
                            0 <= j < i ==> (#[trigger] copies@[j]).0@ == entries@[j].0@
                                && copies@[j].1@ == entries@[j].1@,
                    decreases entries.len() - i,
                {
                    copies.push((entries[i].0.clone(), entries[i].1.clone()));
                    i += 1;
                }
                proof {
                    lemma_view_table(*entries);
                    lemma_view_table(copies);
                    assert(view_table(copies@) =~= view_table(entries@));
                }
                Toml::Table(copies)
            },
        }
    }
}

/// The contents of a sequence of TOML values.
pub open spec fn view_items(items: Seq<Toml>) -> Seq<TomlView> {
    Seq::new(items.len(), |i: int| items[i]@)
}

/// The contents of the entries of a table.
pub open spec fn view_table(entries: Seq<(String, Toml)>) -> Seq<(Seq<char>, TomlView)> {
    Seq::new(entries.len(), |i: int| (entries[i].0@, entries[i].1@))
}

proof fn lemma_view_items(items: Vec<Toml>)
    ensures
        Toml::Array(items)@ == TomlView::Array(view_items(items@)),
{
    assert(Toml::Array(items)@->Array_0 =~= view_items(items@));
}

proof fn lemma_view_table(entries: Vec<(String, Toml)>)
    ensures
        Toml::Table(entries)@ == TomlView::Table(view_table(entries@)),
{
    assert(Toml::Table(entries)@->Table_0 =~= view_table(entries@));
}

impl TomlView {
    /// The intermediate value that a TOML value stands for: each value its
    /// like, a date-time the string that it is written as, and a table the
    /// dictionary that its entries make, in their order.
    pub open spec fn to_value(self) -> ValueView
        decreases self,
    {
        match self {
            TomlView::String(string) => ValueView::String(string),
            TomlView::Integer(integer) => ValueView::Integer(integer as int),
            TomlView::Float(float) => ValueView::Float(float),
            TomlView::Boolean(b) => ValueView::Bool(b),
            TomlView::Datetime(datetime) => ValueView::String(datetime_text(datetime)),
            TomlView::Array(items) => ValueView::Array(TomlView::to_values(items)),
            TomlView::Table(entries) => ValueView::Dict(dict_collect(TomlView::to_pairs(entries))),
        }
    }

    /// The counterparts of the items of an array.
    pub open spec fn to_values(items: Seq<TomlView>) -> Seq<ValueView>
        decreases items,
    {
        Seq::new(
            items.len(),
            |i: int|
                if 0 <= i < items.len() {
                    items[i].to_value()
                } else {
                    ValueView::Null
                },
        )
    }

    /// The entries of a table, each with the counterpart of its value.
    pub open spec fn to_pairs(entries: Seq<(Seq<char>, TomlView)>) -> Seq<(Seq<char>, ValueView)>
        decreases entries,
    {
        Seq::new(
            entries.len(),
            |i: int|
                if 0 <= i < entries.len() {
                    (entries[i].0, entries[i].1.to_value())
                } else {
                    (Seq::empty(), ValueView::Null)
                },
        )
    }

    /// The TOML value that stands for a string, given what the string is
    /// read as: a string that is read as a date-time is that date-time, and
    /// no string.
    pub open spec fn of_string(string: Seq<char>, parsed: Option<Datetime>) -> TomlView {
        match parsed {
            Some(datetime) => TomlView::Datetime(datetime),
            None => TomlView::String(string),
        }
    }

    /// The TOML value that stands for an intermediate value.
    ///
    /// The null has none, nor has an integer above the signed 64-bit range.
    /// Of an array's items and of a dictionary's values, the first that has
    /// no counterpart decides.
    pub open spec fn of_value(value: ValueView) -> Result<TomlView, ConvertError>
        decreases value,
    {
        match value {
            ValueView::Null => Err(ConvertError::NullValue),
            ValueView::Bool(b) => Ok(TomlView::Boolean(b)),
            ValueView::Integer(integer) => if integer <= i64::MAX {
                Ok(TomlView::Integer(integer as i64))
            } else {
                Err(ConvertError::IntegerOutOfRange(integer as u64))
            },
            ValueView::Float(float) => Ok(TomlView::Float(float)),
            ValueView::String(string) => Ok(TomlView::of_string(string, datetime_parsed(string))),
            ValueView::Array(items) => match collect_results(TomlView::item_results(items)) {
                Ok(converted) => Ok(TomlView::Array(converted)),
                Err(error) => Err(error),
            },
            ValueView::Dict(entries) => match collect_results(TomlView::entry_results(entries)) {
                Ok(converted) => Ok(TomlView::Table(converted)),
                Err(error) => Err(error),
            },
        }
    }

    /// What each item of an array is converted to.
    pub open spec fn item_results(items: Seq<ValueView>) -> Seq<Result<TomlView, ConvertError>>
        decreases items,
    {
        Seq::new(
            items.len(),
            |i: int|
                if 0 <= i < items.len() {
                    TomlView::of_value(items[i])
                } else {
                    Err(ConvertError::NullValue)
                },
        )
    }

    /// What each entry of a dictionary is converted to: its key with the
    /// counterpart of its value.
    pub open spec fn entry_results(entries: Seq<(Seq<char>, ValueView)>) -> Seq<
        Result<(Seq<char>, TomlView), ConvertError>,
    >
        decreases entries,
    {
        Seq::new(
            entries.len(),
            |i: int|
                if 0 <= i < entries.len() {
                    match TomlView::of_value(entries[i].1) {
                        Ok(converted) => Ok((entries[i].0, converted)),
                        Err(error) => Err(error),
                    }
                } else {
                    Err(ConvertError::NullValue)
                },
        )
    }

    /// No table holds a key twice.
    pub open spec fn wf(self) -> bool
        decreases self,
    {
        match self {
            TomlView::Array(items) => forall|i: int|
                0 <= i < items.len() ==> (#[trigger] items[i]).wf(),
            TomlView::Table(entries) => keys_unique(entries) && forall|i: int|
                0 <= i < entries.len() ==> (#[trigger] entries[i]).1.wf(),
            _ => true,
        }
    }

    /// No table holds a key twice, no string is read as a date-time, and
    /// every date-time is read back from the text that it is written as.
    pub open spec fn stable(self) -> bool
        decreases self,
    {
        match self {
            TomlView::String(string) => datetime_parsed(string) is None,
            TomlView::Datetime(datetime) => datetime_parsed(datetime_text(datetime)) == Some(
                datetime,
            ),
            TomlView::Array(items) => forall|i: int|
                0 <= i < items.len() ==> (#[trigger] items[i]).stable(),
            TomlView::Table(entries) => keys_unique(entries) && forall|i: int|
                0 <= i < entries.len() ==> (#[trigger] entries[i]).1.stable(),
            _ => true,
        }
    }

    /// Every string of the value either is not read as a date-time, or is
    /// the text that the date-time it is read as is written as.
    pub open spec fn keeps_strings(value: ValueView) -> bool
        decreases value,
    {
        match value {
            ValueView::String(string) => datetime_parsed(string) matches Some(datetime)
                ==> datetime_text(datetime) == string,
            ValueView::Array(items) => forall|i: int|
                0 <= i < items.len() ==> TomlView::keeps_strings(#[trigger] items[i]),
            ValueView::Dict(entries) => forall|i: int|
                0 <= i < entries.len() ==> TomlView::keeps_strings((#[trigger] entries[i]).1),
            _ => true,
        }
    }

    /// The value holds no null, and no integer above the signed 64-bit
    /// range.
    pub open spec fn representable(value: ValueView) -> bool
        decreases value,
    {
        match value {
            ValueView::Null => false,
            ValueView::Integer(integer) => integer <= i64::MAX,
            ValueView::Array(items) => forall|i: int|
                0 <= i < items.len() ==> TomlView::representable(#[trigger] items[i]),
            ValueView::Dict(entries) => forall|i: int|
                0 <= i < entries.len() ==> TomlView::representable((#[trigger] entries[i]).1),
            _ => true,
        }
    }
}

impl Toml {
    /// Converts a TOML value into the intermediate value.
    pub fn into_value(self) -> (r: Value)
        ensures
            r@ == self@.to_value(),
            r@.wf(),
        decreases self,
    {
        match self {
            Toml::String(string) => Value::String(string),
            Toml::Integer(integer) => Value::Integer(Integer::from(integer)),
            Toml::Float(float) => Value::Float(float),
            Toml::Boolean(b) => Value::Bool(b),
            Toml::Datetime(datetime) => Value::String(datetime.to_text()),
            Toml::Array(items) => {
                let ghost views = view_items(items@);
                proof {
                    lemma_view_items(items);
                }
                let mut values: Vec<Value> = Vec::new();
                for item in it: items
                    invariant
                        it.seq() == items@,
                        views == view_items(items@),
                        self is Array && self->Array_0 == items,
                        values@.len() == it.index(),
                        forall|j: int|
                            0 <= j < it.index() ==> (#[trigger] values@[j])@
                                == views[j].to_value(),
                        forall|j: int| 0 <= j < it.index() ==> (#[trigger] values@[j])@.wf(),
                {
                    values.push(item.into_value());
                }
                proof {
                    lemma_view_array(values);
                    assert(view_values(values@) =~= TomlView::to_values(views));
                }
                Value::Array(values)
            },
            Toml::Table(entries) => {
                let ghost views = view_table(entries@);
                proof {
                    lemma_view_table(entries);
                }
                let mut map = index_map_new();
                let ghost mut pairs: Seq<(Seq<char>, ValueView)> = Seq::empty();
                for entry in it: entries
                    invariant
                        it.seq() == entries@,
                        views == view_table(entries@),
                        self is Table && self->Table_0 == entries,
                        pairs.len() == it.index(),
                        forall|j: int|
                            0 <= j < it.index() ==> (#[trigger] pairs[j]) == (
                                views[j].0,
                                views[j].1.to_value(),
                            ),
                        index_map_entries(map) == dict_collect(pairs),
                        forall|j: int| 0 <= j < pairs.len() ==> (#[trigger] pairs[j]).1.wf(),
                {
                    let (key, item) = entry;
                    let value = item.into_value();
                    proof {
                        let next = pairs.push((key@, value@));
                        assert(next.drop_last() =~= pairs);
                        pairs = next;
                    }
                    index_map_insert(&mut map, key, value);
                }
                let collected = index_map_into_entries(map);
                proof {
                    lemma_view_dict(collected);
                    lemma_collect_wf(pairs);
                    assert(pairs =~= TomlView::to_pairs(views));
                }
                Value::Dict(collected)
            },
        }
    }

    /// The TOML value that stands for a string, given what the string is
    /// read as.
    pub fn from_string(string: String, parsed: Option<Datetime>) -> (r: Toml)
        ensures
            r@ == TomlView::of_string(string@, parsed),
    {
        match parsed {
            Some(datetime) => Toml::Datetime(datetime),
            None => Toml::String(string),
        }
    }

    /// Converts the intermediate value into a TOML value.
    pub fn from_value(value: Value) -> (r: Result<Toml, ConvertError>)
        ensures
            viewed(r) == TomlView::of_value(value@),
        decreases value,
    {
        match value {
            Value::Null => Err(ConvertError::NullValue),
            Value::Bool(b) => Ok(Toml::Boolean(b)),
            Value::Integer(integer) => match integer.as_i64() {
                Some(signed) => Ok(Toml::Integer(signed)),
                None => {
                    let unsigned = integer.as_u64();
                    Err(ConvertError::IntegerOutOfRange(unsigned.unwrap()))
                },
            },
            Value::Float(float) => Ok(Toml::Float(float)),
            Value::String(string) => {
                let parsed = Datetime::parse(string.as_str());
                Ok(Toml::from_string(string, parsed))
            },
            Value::Array(items) => {
                let ghost views = view_values(items@);
                let ghost results = TomlView::item_results(views);
                proof {
                    lemma_view_array(items);
                }
                let mut out: Vec<Toml> = Vec::new();
                for item in it: items
                    invariant
                        it.seq() == items@,
                        views == view_values(items@),
                        results == TomlView::item_results(views),
                        value is Array && value->Array_0 == items,
                        value@ == ValueView::Array(views),
                        out@.len() == it.index(),
                        forall|j: int|
                            0 <= j < it.index() ==> (#[trigger] results[j]) == Ok::<
                                TomlView,
                                ConvertError,
                            >(out@[j]@),
                {
                    match Toml::from_value(item) {
                        Ok(converted) => {
                            out.push(converted);
                        },
                        Err(error) => {
                            proof {
                                lemma_collect_first_error(results, it.index() as int);
                            }
                            return Err(error);
                        },
                    }
                }
                proof {
                    lemma_view_items(out);
                    lemma_collect_values(results, view_items(out@));
                }
                Ok(Toml::Array(out))
            },
            Value::Dict(entries) => {
                let ghost views = view_entries(entries@);
                let ghost results = TomlView::entry_results(views);
                proof {
                    lemma_view_dict(entries);
                }
                let mut out: Vec<(String, Toml)> = Vec::new();
                for entry in it: entries
                    invariant
                        it.seq() == entries@,
                        views == view_entries(entries@),
                        results == TomlView::entry_results(views),
                        value is Dict && value->Dict_0 == entries,
                        value@ == ValueView::Dict(views),
                        out@.len() == it.index(),
                        forall|j: int|
                            0 <= j < it.index() ==> (#[trigger] results[j]) == Ok::<
                                (Seq<char>, TomlView),
                                ConvertError,
                            >((out@[j].0@, out@[j].1@)),
                {
                    let (key, item) = entry;
                    match Toml::from_value(item) {
                        Ok(converted) => {
                            out.push((key, converted));
                        },
                        Err(error) => {
                            proof {
                                lemma_collect_first_error(results, it.index() as int);
                            }
                            return Err(error);
                        },
                    }
                }
                proof {
                    lemma_view_table(out);
                    lemma_collect_values(results, view_table(out@));
                }
                Ok(Toml::Table(out))
            },
        }
    }
}

/// A TOML value is what its counterpart is converted into, where none of
/// its strings is read as a date-time and each of its date-times is read
/// back from its text.
pub proof fn lemma_toml_through_value(toml: TomlView)
    requires
        toml.stable(),
    ensures
        TomlView::of_value(toml.to_value()) == Ok::<TomlView, ConvertError>(toml),
    decreases toml,
{
    match toml {
        TomlView::Array(items) => {
            let results = TomlView::item_results(TomlView::to_values(items));
            assert forall|i: int| 0 <= i < results.len() implies (#[trigger] results[i]) == Ok::<
                TomlView,
                ConvertError,
            >(items[i]) by {
                assert(items[i].stable());
                lemma_toml_through_value(items[i]);
            }
            lemma_collect_values(results, items);
        },
        TomlView::Table(entries) => {
            let pairs = TomlView::to_pairs(entries);
            assert(keys_unique(pairs));
            lemma_collect_of_unique(pairs);
            let results = TomlView::entry_results(pairs);
            assert forall|i: int| 0 <= i < results.len() implies (#[trigger] results[i]) == Ok::<
                (Seq<char>, TomlView),
                ConvertError,
            >(entries[i]) by {
                assert(entries[i].1.stable());
                lemma_toml_through_value(entries[i].1);
            }
            lemma_collect_values(results, entries);
        },
        _ => {},
    }
}

/// A value that was converted into TOML is converted back into itself,
/// where each of its strings that is read as a date-time is the text of
/// that date-time.
pub proof fn lemma_value_through_toml(value: ValueView)
    requires
        value.wf(),
        TomlView::keeps_strings(value),
        TomlView::of_value(value) is Ok,
    ensures
        TomlView::of_value(value)->Ok_0.to_value() == value,
    decreases value,
{
    match value {
        ValueView::Array(items) => {
            let results = TomlView::item_results(items);
            lemma_collected(results);
            let converted = collect_results(results)->Ok_0;
            assert forall|i: int| 0 <= i < items.len() implies converted[i].to_value()
                == items[i] by {
                assert(results[i] == Ok::<TomlView, ConvertError>(converted[i]));
                assert(items[i].wf());
                assert(TomlView::keeps_strings(items[i]));
                lemma_value_through_toml(items[i]);
            }
            assert(TomlView::to_values(converted) =~= items);
        },
        ValueView::Dict(entries) => {
            let results = TomlView::entry_results(entries);
            lemma_collected(results);
            let converted = collect_results(results)->Ok_0;
            assert forall|i: int| 0 <= i < entries.len() implies converted[i].0 == entries[i].0
                && converted[i].1.to_value() == entries[i].1 by {
                assert(results[i] == Ok::<(Seq<char>, TomlView), ConvertError>(converted[i]));
                assert(entries[i].1.wf());
                assert(TomlView::keeps_strings(entries[i].1));
                lemma_value_through_toml(entries[i].1);
            }
            assert(TomlView::to_pairs(converted) =~= entries);
            lemma_collect_of_unique(entries);
        },
        _ => {},
    }
}

/// TOML takes a value exactly where it holds no null and no integer above
/// the signed 64-bit range, and what it refuses is one of the two.
pub proof fn lemma_toml_takes_representable(value: ValueView)
    ensures
        TomlView::of_value(value) is Ok <==> TomlView::representable(value),
        TomlView::of_value(value) matches Err(error) ==> error is NullValue
            || error is IntegerOutOfRange,
    decreases value,
{
    match value {
        ValueView::Array(items) => {
            let results = TomlView::item_results(items);
            assert forall|i: int| 0 <= i < items.len() implies ((#[trigger] results[i]) is Ok
                <==> TomlView::representable(items[i])) && (results[i] matches Err(error)
                ==> error is NullValue || error is IntegerOutOfRange) by {
                lemma_toml_takes_representable(items[i]);
            }
            if collect_results(results) is Err {
                let index = lemma_collected_error(results);
                assert(!TomlView::representable(items[index]));
            } else {
                lemma_collected(results);
                assert forall|i: int| 0 <= i < items.len() implies TomlView::representable(
                    #[trigger] items[i],
                ) by {
                    assert(results[i] is Ok);
                }
            }
        },
        ValueView::Dict(entries) => {
            let results = TomlView::entry_results(entries);
            assert forall|i: int| 0 <= i < entries.len() implies ((#[trigger] results[i]) is Ok
                <==> TomlView::representable(entries[i].1)) && (results[i] matches Err(error)
                ==> error is NullValue || error is IntegerOutOfRange) by {
                lemma_toml_takes_representable(entries[i].1);
            }
            if collect_results(results) is Err {
                let index = lemma_collected_error(results);
                assert(!TomlView::representable(entries[index].1));
            } else {
                lemma_collected(results);
                assert forall|i: int| 0 <= i < entries.len() implies TomlView::representable(
                    (#[trigger] entries[i]).1,
                ) by {
                    assert(results[i] is Ok);
                }
            }
        },
        _ => {},
    }
}

/// The value that a TOML value is converted into is well-formed.
pub proof fn lemma_toml_value_wf(toml: TomlView)
    ensures
        toml.to_value().wf(),
    decreases toml,
{
    match toml {
        TomlView::Array(items) => {
            let values = TomlView::to_values(items);
            assert forall|i: int| 0 <= i < values.len() implies (#[trigger] values[i]).wf() by {
                lemma_toml_value_wf(items[i]);
            }
        },
        TomlView::Table(entries) => {
            let pairs = TomlView::to_pairs(entries);
            assert forall|i: int| 0 <= i < pairs.len() implies (#[trigger] pairs[i]).1.wf() by {
                lemma_toml_value_wf(entries[i].1);
            }
            lemma_collect_wf(pairs);
        },
        _ => {},
    }
}

/// The TOML value that a well-formed value is converted into holds no key
/// twice.
pub proof fn lemma_toml_of_value_wf(value: ValueView)
    requires
        value.wf(),
    ensures
        TomlView::of_value(value) matches Ok(toml) ==> toml.wf(),
    decreases value,
{
    match value {
        ValueView::Array(items) => {
            let results = TomlView::item_results(items);
            if collect_results(results) is Ok {
                lemma_collected(results);
                let converted = collect_results(results)->Ok_0;
                assert forall|i: int| 0 <= i < converted.len() implies (
                #[trigger] converted[i]).wf() by {
                    assert(results[i] == Ok::<TomlView, ConvertError>(converted[i]));
                    assert(items[i].wf());
                    lemma_toml_of_value_wf(items[i]);
                }
            }
        },
        ValueView::Dict(entries) => {
            let results = TomlView::entry_results(entries);
            if collect_results(results) is Ok {
                lemma_collected(results);
                let converted = collect_results(results)->Ok_0;
                assert forall|i: int| 0 <= i < converted.len() implies (
                #[trigger] converted[i]).1.wf()
                    && converted[i].0 == entries[i].0 by {
                    assert(results[i] == Ok::<(Seq<char>, TomlView), ConvertError>(converted[i]));
                    assert(entries[i].1.wf());
                    lemma_toml_of_value_wf(entries[i].1);
                }
                assert(keys_unique(converted)) by {
                    assert forall|i: int, j: int|
                        0 <= i < j < converted.len() implies converted[i].0
                        != converted[j].0 by {
                        assert(entries[i].0 != entries[j].0);
                    }
                }
            }
        },
        _ => {},
    }
}

} // verus!
