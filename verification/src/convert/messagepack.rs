//! MessagePack.

use crate::convert::{
    collect_results, lemma_collect_first_error, lemma_collect_values, lemma_collected, viewed,
};
use crate::dict::{index_map_entries, index_map_insert, index_map_into_entries, index_map_new};
use crate::error::ConvertError;
use crate::format::Format;
use crate::text::string_from_utf8;
use crate::value::{
    dict_collect, keys_unique, lemma_collect_of_unique, lemma_collect_wf, lemma_view_array,
    lemma_view_dict, view_entries, view_values, Float, Integer, Value, ValueView,
};
use vstd::prelude::*;
use vstd::std_specs::convert::FromSpecImpl;
use vstd::utf8::{decode_utf8, valid_utf8};

verus! {

/// A MessagePack string: text, or the bytes of a string that is not valid
/// UTF-8.
#[derive(Debug, PartialEq)]
pub struct Utf8String {
    s: Result<String, Vec<u8>>,
}

impl View for Utf8String {
    type V = Result<Seq<char>, Seq<u8>>;

    closed spec fn view(&self) -> Result<Seq<char>, Seq<u8>> {
        match self.s {
            Ok(string) => Ok(string@),
            Err(bytes) => Err(bytes@),
        }
    }
}

impl Utf8String {
    /// The string that the bytes encode, where they are valid UTF-8; else the
    /// bytes are kept.
    pub fn from_bytes(bytes: Vec<u8>) -> (r: Utf8String)
        ensures
            r@ == (if valid_utf8(bytes@) {
                Ok::<Seq<char>, Seq<u8>>(decode_utf8(bytes@))
            } else {
                Err::<Seq<char>, Seq<u8>>(bytes@)
            }),
    {
        Utf8String { s: string_from_utf8(bytes) }
    }

    /// Whether the string is text.
    pub fn is_str(&self) -> (r: bool)
        ensures
            r == self@ is Ok,
    {
        self.s.is_ok()
    }

    /// The text, where the string is valid UTF-8.
    pub fn as_str(&self) -> (r: Option<&str>)
        ensures
            match r {
                Some(text) => self@ == Ok::<Seq<char>, Seq<u8>>(text@),
                None => self@ is Err,
            },
    {
        match &self.s {
            Ok(string) => Some(string.as_str()),
            Err(_) => None,
        }
    }

    /// The text, where the string is valid UTF-8.
    pub fn into_str(self) -> (r: Option<String>)
        ensures
            match r {
                Some(text) => self@ == Ok::<Seq<char>, Seq<u8>>(text@),
                None => self@ is Err,
            },
    {
        match self.s {
            Ok(string) => Some(string),
            Err(_) => None,
        }
    }
}

impl Clone for Utf8String {
    fn clone(&self) -> (r: Utf8String)
        ensures
            r@ == self@,
    {
        match &self.s {
            Ok(string) => Utf8String { s: Ok(string.clone()) },
            Err(bytes) => Utf8String { s: Err(bytes.clone()) },
        }
    }
}

impl From<String> for Utf8String {
    fn from(string: String) -> (r: Utf8String)
        ensures
            r@ == Ok::<Seq<char>, Seq<u8>>(string@),
    {
        Utf8String { s: Ok(string) }
    }
}

impl FromSpecImpl<String> for Utf8String {
    open spec fn obeys_from_spec() -> bool {
        true
    }

    closed spec fn from_spec(string: String) -> Utf8String {
        Utf8String { s: Ok(string) }
    }
}

/// A MessagePack value.
///
/// A 32-bit float is held by the 64-bit float of the same value. A
/// dictionary takes any value as a key, and may hold a key more than once.
#[derive(Debug, PartialEq)]
pub enum MessagePack {
    Nil,
    Boolean(bool),
    Integer(Integer),
    F32(Float),
    F64(Float),
    String(Utf8String),
    Binary(Vec<u8>),
    Array(Vec<MessagePack>),
    Dict(Vec<(MessagePack, MessagePack)>),
    Ext(i8, Vec<u8>),
}

/// The mathematical content of a [`MessagePack`].
pub ghost enum MessagePackView {
    Nil,
    Boolean(bool),
    Integer(int),
    F32(Float),
    F64(Float),
    String(Result<Seq<char>, Seq<u8>>),
    Binary(Seq<u8>),
    Array(Seq<MessagePackView>),
    Dict(Seq<(MessagePackView, MessagePackView)>),
    Ext(i8, Seq<u8>),
}

impl MessagePack {
    /// The content of the value.
    pub open spec fn model(self) -> MessagePackView
        decreases self,
    {
        match self {
            MessagePack::Nil => MessagePackView::Nil,
            MessagePack::Boolean(b) => MessagePackView::Boolean(b),
            MessagePack::Integer(integer) => MessagePackView::Integer(integer@),
            MessagePack::F32(float) => MessagePackView::F32(float),
            MessagePack::F64(float) => MessagePackView::F64(float),
            MessagePack::String(string) => MessagePackView::String(string@),
            MessagePack::Binary(bytes) => MessagePackView::Binary(bytes@),
            MessagePack::Array(items) => MessagePackView::Array(
                Seq::new(
                    items@.len(),
                    |i: int|
                        if 0 <= i < items@.len() {
                            items@[i].model()
                        } else {
                            MessagePackView::Nil
                        },
                ),
            ),
            MessagePack::Dict(entries) => MessagePackView::Dict(
                Seq::new(
                    entries@.len(),
                    |i: int|
                        if 0 <= i < entries@.len() {
                            (entries@[i].0.model(), entries@[i].1.model())
                        } else {
                            (MessagePackView::Nil, MessagePackView::Nil)
                        },
                ),
            ),
            MessagePack::Ext(kind, bytes) => MessagePackView::Ext(kind, bytes@),
        }
    }
}

impl View for MessagePack {
    type V = MessagePackView;

    open spec fn view(&self) -> MessagePackView {
        self.model()
    }
}

impl Clone for MessagePack {
    fn clone(&self) -> (r: MessagePack)
        ensures
            r@ == self@,
        decreases self,
    {
        match self {
            MessagePack::Nil => MessagePack::Nil,
            MessagePack::Boolean(b) => MessagePack::Boolean(*b),
            MessagePack::Integer(integer) => MessagePack::Integer(*integer),
            MessagePack::F32(float) => MessagePack::F32(*float),
            MessagePack::F64(float) => MessagePack::F64(*float),
            MessagePack::String(string) => MessagePack::String(string.clone()),
            MessagePack::Binary(bytes) => MessagePack::Binary(bytes.clone()),
            MessagePack::Ext(kind, bytes) => MessagePack::Ext(*kind, bytes.clone()),
            MessagePack::Array(items) => {
                let mut copies: Vec<MessagePack> = Vec::new();
                let mut i: usize = 0;
                while i < items.len()
                    invariant
                        i <= items.len(),
                        self is Array && self->Array_0 == *items,
                        copies@.len() == i,
                        forall|j: int| 0 <= j < i ==> (#[trigger] copies@[j])@ == items@[j]@,
                    decreases items.len() - i,
                {
                    copies.push(items[i].clone());
                    i += 1;
                }
                proof {
                    lemma_view_items(*items);
                    lemma_view_items(copies);
                    assert(view_items(copies@) =~= view_items(items@));
                }
                MessagePack::Array(copies)
            },
            MessagePack::Dict(entries) => {
                let mut copies: Vec<(MessagePack, MessagePack)> = Vec::new();
                let mut i: usize = 0;
                while i < entries.len()
                    invariant
                        i <= entries.len(),
                        self is Dict && self->Dict_0 == *entries,
                        copies@.len() == i,
                        forall|j: int|
                            0 <= j < i ==> (#[trigger] copies@[j]).0@ == entries@[j].0@
                                && copies@[j].1@ == entries@[j].1@,
                    decreases entries.len() - i,
                {
                    copies.push((entries[i].0.clone(), entries[i].1.clone()));
                    i += 1;
                }
                proof {
                    lemma_view_pairs(*entries);
                    lemma_view_pairs(copies);
                    assert(view_pairs(copies@) =~= view_pairs(entries@));
                }
                MessagePack::Dict(copies)
            },
        }
    }
}

/// The contents of a sequence of MessagePack values.
pub open spec fn view_items(items: Seq<MessagePack>) -> Seq<MessagePackView> {
    Seq::new(items.len(), |i: int| items[i]@)
}

/// The contents of a sequence of MessagePack entries.
pub open spec fn view_pairs(entries: Seq<(MessagePack, MessagePack)>) -> Seq<
    (MessagePackView, MessagePackView),
> {
    Seq::new(entries.len(), |i: int| (entries[i].0@, entries[i].1@))
}

proof fn lemma_view_items(items: Vec<MessagePack>)
    ensures
        MessagePack::Array(items)@ == MessagePackView::Array(view_items(items@)),
{
    assert(MessagePack::Array(items)@->Array_0 =~= view_items(items@));
}

proof fn lemma_view_pairs(entries: Vec<(MessagePack, MessagePack)>)
    ensures
        MessagePack::Dict(entries)@ == MessagePackView::Dict(view_pairs(entries@)),
{
    assert(MessagePack::Dict(entries)@->Dict_0 =~= view_pairs(entries@));
}

impl MessagePackView {
    /// The value is a string of valid UTF-8.
    pub open spec fn is_text(self) -> bool {
        self matches MessagePackView::String(Ok(_))
    }

    /// The text of a string of valid UTF-8.
    pub open spec fn text(self) -> Seq<char> {
        self->String_0->Ok_0
    }

    /// The intermediate value that a MessagePack value stands for.
    ///
    /// A byte array, an extension and a string that is not valid UTF-8 have
    /// none. A dictionary must have strings of valid UTF-8 for its keys,
    /// which is looked at before any of its values. Of an array's items and
    /// of a dictionary's values, the first that has no counterpart decides.
    pub open spec fn to_value(self) -> Result<ValueView, ConvertError>
        decreases self,
    {
        match self {
            MessagePackView::Nil => Ok(ValueView::Null),
            MessagePackView::Boolean(b) => Ok(ValueView::Bool(b)),
            MessagePackView::Integer(integer) => Ok(ValueView::Integer(integer)),
            MessagePackView::F32(float) => Ok(ValueView::Float(float)),
            MessagePackView::F64(float) => Ok(ValueView::Float(float)),
            MessagePackView::String(Ok(text)) => Ok(ValueView::String(text)),
            MessagePackView::String(Err(_)) => Err(ConvertError::InvalidUtf8),
            MessagePackView::Binary(_) => Err(ConvertError::ByteArray),
            MessagePackView::Array(items) => match collect_results(
                MessagePackView::item_results(items),
            ) {
                Ok(values) => Ok(ValueView::Array(values)),
                Err(error) => Err(error),
            },
            MessagePackView::Dict(entries) => if !MessagePackView::keys_are_text(entries) {
                Err(ConvertError::KeyNotString(Format::MessagePack))
            } else {
                match collect_results(MessagePackView::entry_results(entries)) {
                    Ok(pairs) => Ok(ValueView::Dict(dict_collect(pairs))),
                    Err(error) => Err(error),
                }
            },
            MessagePackView::Ext(_, _) => Err(ConvertError::Extension),
        }
    }

    /// Every key is a string of valid UTF-8.
    pub open spec fn keys_are_text(entries: Seq<(MessagePackView, MessagePackView)>) -> bool {
        forall|i: int| 0 <= i < entries.len() ==> (#[trigger] entries[i]).0.is_text()
    }

    /// What each item is converted to.
    pub open spec fn item_results(items: Seq<MessagePackView>) -> Seq<
        Result<ValueView, ConvertError>,
    >
        decreases items,
    {
        Seq::new(
            items.len(),
            |i: int|
                if 0 <= i < items.len() {
                    items[i].to_value()
                } else {
                    Ok(ValueView::Null)
                },
        )
    }

    /// What each entry is converted to: the text of its key with the
    /// counterpart of its value.
    pub open spec fn entry_results(entries: Seq<(MessagePackView, MessagePackView)>) -> Seq<
        Result<(Seq<char>, ValueView), ConvertError>,
    >
        decreases entries,
    {
        Seq::new(
            entries.len(),
            |i: int|
                if 0 <= i < entries.len() {
                    match entries[i].1.to_value() {
                        Ok(value) => Ok((entries[i].0.text(), value)),
                        Err(error) => Err(error),
                    }
                } else {
                    Err(ConvertError::KeyNotString(Format::MessagePack))
                },
        )
    }

    /// The MessagePack value that stands for an intermediate value: a float
    /// becomes a 64-bit float.
    pub open spec fn of_value(value: ValueView) -> MessagePackView
        decreases value,
    {
        match value {
            ValueView::Null => MessagePackView::Nil,
            ValueView::Bool(b) => MessagePackView::Boolean(b),
            ValueView::Integer(integer) => MessagePackView::Integer(integer),
            ValueView::Float(float) => MessagePackView::F64(float),
            ValueView::String(string) => MessagePackView::String(Ok(string)),
            ValueView::Array(items) => MessagePackView::Array(MessagePackView::of_values(items)),
            ValueView::Dict(entries) => MessagePackView::Dict(MessagePackView::of_entries(entries)),
        }
    }

    /// The counterparts of the items of an array.
    pub open spec fn of_values(items: Seq<ValueView>) -> Seq<MessagePackView>
        decreases items,
    {
        Seq::new(
            items.len(),
            |i: int|
                if 0 <= i < items.len() {
                    MessagePackView::of_value(items[i])
                } else {
                    MessagePackView::Nil
                },
        )
    }

    /// The counterparts of the entries of a dictionary: each key as a
    /// string.
    pub open spec fn of_entries(entries: Seq<(Seq<char>, ValueView)>) -> Seq<
        (MessagePackView, MessagePackView),
    >
        decreases entries,
    {
        Seq::new(
            entries.len(),
            |i: int|
                if 0 <= i < entries.len() {
                    (MessagePackView::String(Ok(entries[i].0)), MessagePackView::of_value(entries[i].1))
                } else {
                    (MessagePackView::Nil, MessagePackView::Nil)
                },
        )
    }

    /// Every integer lies in the integers' range.
    pub open spec fn wf(self) -> bool
        decreases self,
    {
        match self {
            MessagePackView::Integer(integer) => Integer::in_range(integer),
            MessagePackView::Array(items) => forall|i: int|
                0 <= i < items.len() ==> (#[trigger] items[i]).wf(),
            MessagePackView::Dict(entries) => forall|i: int|
                0 <= i < entries.len() ==> (#[trigger] entries[i]).0.wf() && entries[i].1.wf(),
            _ => true,
        }
    }

    /// The value holds no 32-bit float, and no dictionary in it holds a key
    /// twice.
    pub open spec fn canonical(self) -> bool
        decreases self,
    {
        match self {
            MessagePackView::F32(_) => false,
            MessagePackView::Array(items) => forall|i: int|
                0 <= i < items.len() ==> (#[trigger] items[i]).canonical(),
            MessagePackView::Dict(entries) => {
                &&& forall|i: int, j: int|
                    0 <= i < j < entries.len() ==> (#[trigger] entries[i]).0 != (
                    #[trigger] entries[j]).0
                &&& forall|i: int|
                    0 <= i < entries.len() ==> (#[trigger] entries[i]).1.canonical()
            },
            _ => true,
        }
    }
}

impl MessagePack {
    /// Converts a MessagePack value into the intermediate value.
    pub fn into_value(self) -> (r: Result<Value, ConvertError>)
        ensures
            viewed(r) == self@.to_value(),
            r matches Ok(value) ==> value@.wf(),
        decreases self,
    {
        match self {
            MessagePack::Nil => Ok(Value::Null),
            MessagePack::Boolean(b) => Ok(Value::Bool(b)),
            MessagePack::Integer(integer) => match integer.as_i64() {
                Some(signed) => Ok(Value::Integer(Integer::from(signed))),
                None => {
                    let unsigned = integer.as_u64();
                    Ok(Value::Integer(Integer::from(unsigned.unwrap())))
                },
            },
            MessagePack::F32(float) => Ok(Value::Float(float)),
            MessagePack::F64(float) => Ok(Value::Float(float)),
            MessagePack::String(string) => match string.into_str() {
                Some(text) => Ok(Value::String(text)),
                None => Err(ConvertError::InvalidUtf8),
            },
            MessagePack::Binary(_) => Err(ConvertError::ByteArray),
            MessagePack::Array(items) => {
                let ghost views = view_items(items@);
                let ghost results = MessagePackView::item_results(views);
                proof {
                    lemma_view_items(items);
                }
                let mut values: Vec<Value> = Vec::new();
                for item in it: items
                    invariant
                        it.seq() == items@,
                        views == view_items(items@),
                        results == MessagePackView::item_results(views),
                        self is Array && self->Array_0 == items,
                        self@ == MessagePackView::Array(views),
                        values@.len() == it.index(),
                        forall|j: int|
                            0 <= j < it.index() ==> (#[trigger] results[j]) == Ok::<
                                ValueView,
                                ConvertError,
                            >(values@[j]@),
                        forall|j: int| 0 <= j < it.index() ==> (#[trigger] values@[j])@.wf(),
                {
                    match item.into_value() {
                        Ok(value) => {
                            values.push(value);
                        },
                        Err(error) => {
                            proof {
                                lemma_collect_first_error(results, it.index() as int);
                            }
                            return Err(error);
                        },
                    }
                }
                proof {
                    lemma_view_array(values);
                    lemma_collect_values(results, view_values(values@));
                }
                Ok(Value::Array(values))
            },
            MessagePack::Dict(entries) => {
                let ghost views = view_pairs(entries@);
                let ghost results = MessagePackView::entry_results(views);
                proof {
                    lemma_view_pairs(entries);
                }
                let mut i: usize = 0;
                while i < entries.len()
                    invariant
                        i <= entries.len(),
                        views == view_pairs(entries@),
                        self@ == MessagePackView::Dict(views),
                        forall|j: int| 0 <= j < i ==> (#[trigger] views[j]).0.is_text(),
                    decreases entries.len() - i,
                {
                    let is_text = match &entries[i].0 {
                        MessagePack::String(string) => string.is_str(),
                        _ => false,
                    };
                    if !is_text {
                        assert(!views[i as int].0.is_text());
                        return Err(ConvertError::KeyNotString(Format::MessagePack));
                    }
                    i += 1;
                }
                let mut map = index_map_new();
                let ghost mut pairs: Seq<(Seq<char>, ValueView)> = Seq::empty();
                for entry in it: entries
                    invariant
                        it.seq() == entries@,
                        views == view_pairs(entries@),
                        results == MessagePackView::entry_results(views),
                        self is Dict && self->Dict_0 == entries,
                        self@ == MessagePackView::Dict(views),
                        MessagePackView::keys_are_text(views),
                        pairs.len() == it.index(),
                        forall|j: int|
                            0 <= j < it.index() ==> (#[trigger] results[j]) == Ok::<
                                (Seq<char>, ValueView),
                                ConvertError,
                            >(pairs[j]),
                        index_map_entries(map) == dict_collect(pairs),
                        forall|j: int| 0 <= j < pairs.len() ==> (#[trigger] pairs[j]).1.wf(),
                {
                    assert(views[it.index()].0.is_text());
                    let (key, value) = entry;
                    let text = match key {
                        MessagePack::String(string) => string.into_str(),
                        _ => None,
                    };
                    match text {
                        Some(text) => match value.into_value() {
                            Ok(value) => {
                                proof {
                                    let next = pairs.push((text@, value@));
                                    assert(next.drop_last() =~= pairs);
                                    pairs = next;
                                }
                                index_map_insert(&mut map, text, value);
                            },
                            Err(error) => {
                                proof {
                                    lemma_collect_first_error(results, it.index() as int);
                                }
                                return Err(error);
                            },
                        },
                        None => {
                            return Err(ConvertError::KeyNotString(Format::MessagePack));
                        },
                    }
                }
                let collected = index_map_into_entries(map);
                proof {
                    lemma_view_dict(collected);
                    lemma_collect_wf(pairs);
                    lemma_collect_values(results, pairs);
                }
                Ok(Value::Dict(collected))
            },
            MessagePack::Ext(_, _) => Err(ConvertError::Extension),
        }
    }

    /// Converts the intermediate value into a MessagePack value.
    pub fn from_value(value: Value) -> (r: MessagePack)
        ensures
            r@ == MessagePackView::of_value(value@),
        decreases value,
    {
        match value {
            Value::Null => MessagePack::Nil,
            Value::Bool(b) => MessagePack::Boolean(b),
            Value::Integer(integer) => match integer.as_i64() {
                Some(signed) => MessagePack::Integer(Integer::from(signed)),
                None => {
                    let unsigned = integer.as_u64();
                    MessagePack::Integer(Integer::from(unsigned.unwrap()))
                },
            },
            Value::Float(float) => MessagePack::F64(float),
            Value::String(string) => MessagePack::String(Utf8String::from(string)),
            Value::Array(items) => {
                let ghost views = view_values(items@);
                proof {
                    lemma_view_array(items);
                }
                let mut out: Vec<MessagePack> = Vec::new();
                for item in it: items
                    invariant
                        it.seq() == items@,
                        views == view_values(items@),
                        value is Array && value->Array_0 == items,
                        out@.len() == it.index(),
                        forall|j: int|
                            0 <= j < it.index() ==> (#[trigger] out@[j])@
                                == MessagePackView::of_value(views[j]),
                {
                    out.push(MessagePack::from_value(item));
                }
                proof {
                    lemma_view_items(out);
                    assert(view_items(out@) =~= MessagePackView::of_values(views));
                }
                MessagePack::Array(out)
            },
            Value::Dict(entries) => {
                let ghost views = view_entries(entries@);
                proof {
                    lemma_view_dict(entries);
                }
                let mut out: Vec<(MessagePack, MessagePack)> = Vec::new();
                for entry in it: entries
                    invariant
                        it.seq() == entries@,
                        views == view_entries(entries@),
                        value is Dict && value->Dict_0 == entries,
                        out@.len() == it.index(),
                        forall|j: int|
                            0 <= j < it.index() ==> (#[trigger] out@[j]).0@
                                == MessagePackView::String(Ok(views[j].0)) && out@[j].1@
                                == MessagePackView::of_value(views[j].1),
                {
                    let (key, item) = entry;
                    out.push(
                        (MessagePack::String(Utf8String::from(key)), MessagePack::from_value(item)),
                    );
                }
                proof {
                    lemma_view_pairs(out);
                    assert(view_pairs(out@) =~= MessagePackView::of_entries(views));
                }
                MessagePack::Dict(out)
            },
        }
    }
}

/// A value that was converted into MessagePack is converted back into
/// itself.
pub proof fn lemma_value_through_messagepack(value: ValueView)
    requires
        value.wf(),
    ensures
        MessagePackView::of_value(value).to_value() == Ok::<ValueView, ConvertError>(value),
    decreases value,
{
    match value {
        ValueView::Array(items) => {
            let results = MessagePackView::item_results(MessagePackView::of_values(items));
            assert forall|i: int| 0 <= i < results.len() implies (#[trigger] results[i]) == Ok::<
                ValueView,
                ConvertError,
            >(items[i]) by {
                assert(items[i].wf());
                lemma_value_through_messagepack(items[i]);
            }
            lemma_collect_values(results, items);
        },
        ValueView::Dict(entries) => {
            let encoded = MessagePackView::of_entries(entries);
            let results = MessagePackView::entry_results(encoded);
            assert forall|i: int| 0 <= i < results.len() implies (#[trigger] results[i]) == Ok::<
                (Seq<char>, ValueView),
                ConvertError,
            >(entries[i]) by {
                assert(entries[i].1.wf());
                lemma_value_through_messagepack(entries[i].1);
            }
            lemma_collect_values(results, entries);
            lemma_collect_of_unique(entries);
        },
        _ => {},
    }
}

/// A MessagePack value that has a counterpart, and holds neither a 32-bit
/// float nor a key twice, is what its counterpart is converted into.
pub proof fn lemma_messagepack_through_value(messagepack: MessagePackView)
    requires
        messagepack.canonical(),
        messagepack.to_value() is Ok,
    ensures
        MessagePackView::of_value(messagepack.to_value()->Ok_0) == messagepack,
    decreases messagepack,
{
    match messagepack {
        MessagePackView::Array(items) => {
            let results = MessagePackView::item_results(items);
            lemma_collected(results);
            let values = collect_results(results)->Ok_0;
            assert forall|i: int| 0 <= i < items.len() implies MessagePackView::of_value(values[i])
                == items[i] by {
                assert(results[i] == Ok::<ValueView, ConvertError>(values[i]));
                assert(items[i].canonical());
                lemma_messagepack_through_value(items[i]);
            }
            assert(MessagePackView::of_values(values) =~= items);
        },
        MessagePackView::Dict(entries) => {
            let results = MessagePackView::entry_results(entries);
            lemma_collected(results);
            let pairs = collect_results(results)->Ok_0;
            assert forall|i: int| 0 <= i < entries.len() implies pairs[i].0
                == entries[i].0.text() && MessagePackView::of_value(pairs[i].1)
                == entries[i].1 by {
                assert(results[i] == Ok::<(Seq<char>, ValueView), ConvertError>(pairs[i]));
                assert(entries[i].1.canonical());
                lemma_messagepack_through_value(entries[i].1);
            }
            assert(keys_unique(pairs)) by {
                assert forall|i: int, j: int| 0 <= i < j < pairs.len() implies pairs[i].0
                    != pairs[j].0 by {
                    assert(entries[i].0.is_text() && entries[j].0.is_text());
                    assert(entries[i].0 != entries[j].0);
                }
            }
            lemma_collect_of_unique(pairs);
            assert(MessagePackView::of_entries(pairs) =~= entries) by {
                assert forall|i: int| 0 <= i < entries.len() implies MessagePackView::of_entries(
                    pairs,
                )[i] == entries[i] by {
                    assert(entries[i].0.is_text());
                }
            }
        },
        _ => {},
    }
}

/// The value that a MessagePack value is converted into is well-formed.
pub proof fn lemma_messagepack_value_wf(messagepack: MessagePackView)
    requires
        messagepack.wf(),
    ensures
        messagepack.to_value() matches Ok(value) ==> value.wf(),
    decreases messagepack,
{
    match messagepack {
        MessagePackView::Array(items) => {
            let results = MessagePackView::item_results(items);
            if collect_results(results) is Ok {
                lemma_collected(results);
                let values = collect_results(results)->Ok_0;
                assert forall|i: int| 0 <= i < values.len() implies (#[trigger] values[i]).wf() by {
                    assert(results[i] == Ok::<ValueView, ConvertError>(values[i]));
                    assert(items[i].wf());
                    lemma_messagepack_value_wf(items[i]);
                }
            }
        },
        MessagePackView::Dict(entries) => {
            let results = MessagePackView::entry_results(entries);
            if MessagePackView::keys_are_text(entries) && collect_results(results) is Ok {
                lemma_collected(results);
                let pairs = collect_results(results)->Ok_0;
                assert forall|i: int| 0 <= i < pairs.len() implies (#[trigger] pairs[i]).1.wf() by {
                    assert(results[i] == Ok::<(Seq<char>, ValueView), ConvertError>(pairs[i]));
                    assert(entries[i].1.wf());
                    lemma_messagepack_value_wf(entries[i].1);
                }
                lemma_collect_wf(pairs);
            }
        },
        _ => {},
    }
}

/// The MessagePack value that a well-formed value is converted into holds
/// neither a 32-bit float nor a key twice, and its integers lie in the
/// integers' range.
pub proof fn lemma_messagepack_of_value_wf(value: ValueView)
    requires
        value.wf(),
    ensures
        MessagePackView::of_value(value).canonical(),
        MessagePackView::of_value(value).wf(),
    decreases value,
{
    match value {
        ValueView::Array(items) => {
            let converted = MessagePackView::of_values(items);
            assert forall|i: int| 0 <= i < converted.len() implies (
            #[trigger] converted[i]).canonical()
                && converted[i].wf() by {
                assert(items[i].wf());
                lemma_messagepack_of_value_wf(items[i]);
            }
        },
        ValueView::Dict(entries) => {
            let converted = MessagePackView::of_entries(entries);
            assert forall|i: int| 0 <= i < converted.len() implies (
            #[trigger] converted[i]).1.canonical()
                && converted[i].0.wf() && converted[i].1.wf() by {
                assert(entries[i].1.wf());
                lemma_messagepack_of_value_wf(entries[i].1);
            }
            assert forall|i: int, j: int| 0 <= i < j < converted.len() implies (
            #[trigger] converted[i]).0 != (#[trigger] converted[j]).0 by {
                assert(entries[i].0 != entries[j].0);
            }
        },
        _ => {},
    }
}

} // verus!
