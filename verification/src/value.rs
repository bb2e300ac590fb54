//! The intermediate value that every conversion passes through, and the
//! integer and float types it is made of.

use crate::text::{decimal, decimal_text};
use vstd::prelude::*;
use vstd::std_specs::cmp::PartialEqSpecImpl;
use vstd::std_specs::convert::FromSpecImpl;

verus! {

/// A 64-bit IEEE 754 number, held as its bit pattern.
///
/// Two floats are equal when their bit patterns are: a NaN equals itself, and
/// the two zeros differ.
#[derive(Clone, Copy, Debug, PartialEq, Eq, Structural)]
pub struct Float {
    pub bits: u64,
}

impl Float {
    /// The eleven exponent bits.
    pub open spec fn exponent(self) -> u64 {
        (self.bits >> 52) & 0x7ff
    }

    /// The fifty-two fraction bits.
    pub open spec fn fraction(self) -> u64 {
        self.bits & 0xf_ffff_ffff_ffff
    }

    /// Neither an infinity nor a NaN.
    pub open spec fn spec_is_finite(self) -> bool {
        self.exponent() != 0x7ff
    }

    /// A NaN: all exponent bits are set, and some fraction bit is.
    pub open spec fn spec_is_nan(self) -> bool {
        self.exponent() == 0x7ff && self.fraction() != 0
    }

    /// The sign bit is set.
    pub open spec fn spec_is_sign_negative(self) -> bool {
        self.bits >> 63 == 1
    }

    /// The float with the given bit pattern.
    pub fn from_bits(bits: u64) -> (r: Float)
        ensures
            r.bits == bits,
    {
        Float { bits }
    }

    /// The bit pattern of the float.
    pub fn to_bits(self) -> (r: u64)
        ensures
            r == self.bits,
    {
        self.bits
    }

    /// Whether the float is neither an infinity nor a NaN.
    #[verifier::when_used_as_spec(spec_is_finite)]
    pub fn is_finite(self) -> (r: bool)
        ensures
            r == self.spec_is_finite(),
    {
        (self.bits >> 52) & 0x7ff != 0x7ff
    }

    /// Whether the float is a NaN.
    #[verifier::when_used_as_spec(spec_is_nan)]
    pub fn is_nan(self) -> (r: bool)
        ensures
            r == self.spec_is_nan(),
    {
        (self.bits >> 52) & 0x7ff == 0x7ff && self.bits & 0xf_ffff_ffff_ffff != 0
    }

    /// Whether the sign bit of the float is set.
    #[verifier::when_used_as_spec(spec_is_sign_negative)]
    pub fn is_sign_negative(self) -> (r: bool)
        ensures
            r == self.spec_is_sign_negative(),
    {
        self.bits >> 63 == 1
    }

    /// Which of the floats that are not finite the float is, if it is one.
    pub open spec fn spec_non_finite(self) -> Option<NonFinite> {
        if self.is_finite() {
            None
        } else if self.is_nan() {
            Some(NonFinite::Nan)
        } else if self.is_sign_negative() {
            Some(NonFinite::NegativeInfinity)
        } else {
            Some(NonFinite::Infinity)
        }
    }

    /// Which of the floats that are not finite the float is, if it is one.
    #[verifier::when_used_as_spec(spec_non_finite)]
    pub fn non_finite(self) -> (r: Option<NonFinite>)
        ensures
            r == self.spec_non_finite(),
    {
        if self.is_finite() {
            None
        } else if self.is_nan() {
            Some(NonFinite::Nan)
        } else if self.is_sign_negative() {
            Some(NonFinite::NegativeInfinity)
        } else {
            Some(NonFinite::Infinity)
        }
    }
}

/// A float that is not finite: a NaN or one of the two infinities.
#[derive(Clone, Copy, Debug, PartialEq, Eq, Structural)]
pub enum NonFinite {
    Nan,
    Infinity,
    NegativeInfinity,
}

impl NonFinite {
    /// How the float is written.
    pub open spec fn spec_text(self) -> Seq<char> {
        match self {
            NonFinite::Nan => "NaN"@,
            NonFinite::Infinity => "inf"@,
            NonFinite::NegativeInfinity => "-inf"@,
        }
    }

    /// How the float is written.
    pub fn text(self) -> (r: &'static str)
        ensures
            r@ == self.spec_text(),
    {
        match self {
            NonFinite::Nan => "NaN",
            NonFinite::Infinity => "inf",
            NonFinite::NegativeInfinity => "-inf",
        }
    }
}

#[derive(Clone, Copy, Debug)]
enum Int {
    Pos(u64),
    Neg(i64),
}

/// An integer of the signed or of the unsigned 64-bit range.
///
/// A value below zero is held in signed form and any other in unsigned form,
/// so each number has one representation.
#[derive(Clone, Copy, Debug)]
pub struct Integer {
    int: Int,
}

impl PartialEq for Integer {
    fn eq(&self, other: &Integer) -> (r: bool) {
        proof {
            use_type_invariant(self);
            use_type_invariant(other);
        }
        match (self.int, other.int) {
            (Int::Pos(a), Int::Pos(b)) => a == b,
            (Int::Neg(a), Int::Neg(b)) => a == b,
            _ => false,
        }
    }
}

impl PartialEqSpecImpl for Integer {
    open spec fn obeys_eq_spec() -> bool {
        true
    }

    open spec fn eq_spec(&self, other: &Integer) -> bool {
        self@ == other@
    }
}

impl View for Integer {
    type V = int;

    closed spec fn view(&self) -> int {
        match self.int {
            Int::Pos(magnitude) => magnitude as int,
            Int::Neg(number) => number as int,
        }
    }
}

impl Integer {
    #[verifier::type_invariant]
    spec fn normalized(self) -> bool {
        match self.int {
            Int::Pos(_) => true,
            Int::Neg(number) => number < 0,
        }
    }

    /// The number lies in the union of the two 64-bit ranges.
    pub open spec fn in_range(number: int) -> bool {
        i64::MIN <= number <= u64::MAX
    }

    /// The integer that stands for `number`.
    pub closed spec fn of(number: int) -> Integer {
        if number < 0 {
            Integer { int: Int::Neg(number as i64) }
        } else {
            Integer { int: Int::Pos(number as u64) }
        }
    }

    /// The signed value, where the number fits the signed 64-bit range.
    pub open spec fn spec_as_i64(&self) -> Option<i64> {
        if self@ <= i64::MAX {
            Some(self@ as i64)
        } else {
            None
        }
    }

    /// The unsigned value, where the number is not below zero.
    pub open spec fn spec_as_u64(&self) -> Option<u64> {
        if 0 <= self@ {
            Some(self@ as u64)
        } else {
            None
        }
    }

    /// The integer that stands for a number of the integers' range holds
    /// that number.
    pub proof fn lemma_of_view(number: int)
        requires
            Integer::in_range(number),
        ensures
            Integer::of(number)@ == number,
    {
    }

    /// A signed number and an unsigned number that are equal make the same
    /// integer. An integer made from a signed number has that number for its
    /// signed value, and an unsigned value where the number is not below
    /// zero; one made from an unsigned number has that number for its
    /// unsigned value, and a signed value where the number fits.
    pub proof fn lemma_from(signed: i64, unsigned: u64)
        ensures
            signed == unsigned ==> Integer::of(signed as int) == Integer::of(unsigned as int),
            Integer::of(signed as int).spec_as_i64() == Some(signed),
            Integer::of(signed as int).spec_as_u64() is Some <==> signed >= 0,
            Integer::of(unsigned as int).spec_as_u64() == Some(unsigned),
            Integer::of(unsigned as int).spec_as_i64() is Some <==> unsigned <= i64::MAX,
    {
    }

    /// The number in decimal notation.
    pub fn to_text(&self) -> (r: String)
        ensures
            r@ == decimal(self@),
    {
        match self.as_i64() {
            Some(signed) => decimal_text(signed as i128),
            None => {
                let unsigned = self.as_u64();
                decimal_text(unsigned.unwrap() as i128)
            },
        }
    }

    /// The signed value, where the number fits the signed 64-bit range.
    #[verifier::when_used_as_spec(spec_as_i64)]
    pub fn as_i64(&self) -> (r: Option<i64>)
        ensures
            Integer::in_range(self@),
            r == self.spec_as_i64(),
    {
        proof {
            use_type_invariant(self);
        }
        match self.int {
            Int::Pos(magnitude) => if magnitude <= 0x7fff_ffff_ffff_ffff {
                Some(magnitude as i64)
            } else {
                None
            },
            Int::Neg(number) => Some(number),
        }
    }

    /// The unsigned value, where the number is not below zero.
    #[verifier::when_used_as_spec(spec_as_u64)]
    pub fn as_u64(&self) -> (r: Option<u64>)
        ensures
            Integer::in_range(self@),
            r == self.spec_as_u64(),
    {
        proof {
            use_type_invariant(self);
        }
        match self.int {
            Int::Pos(magnitude) => Some(magnitude),
            Int::Neg(_) => None,
        }
    }
}

impl From<i64> for Integer {
    fn from(integer: i64) -> (r: Integer)
        ensures
            r@ == integer,
    {
        if integer < 0 {
            Integer { int: Int::Neg(integer) }
        } else {
            Integer { int: Int::Pos(integer as u64) }
        }
    }
}

impl FromSpecImpl<i64> for Integer {
    open spec fn obeys_from_spec() -> bool {
        true
    }

    open spec fn from_spec(integer: i64) -> Integer {
        Integer::of(integer as int)
    }
}

impl From<u64> for Integer {
    fn from(integer: u64) -> (r: Integer)
        ensures
            r@ == integer,
    {
        Integer { int: Int::Pos(integer) }
    }
}

impl FromSpecImpl<u64> for Integer {
    open spec fn obeys_from_spec() -> bool {
        true
    }

    open spec fn from_spec(integer: u64) -> Integer {
        Integer::of(integer as int)
    }
}

/// The intermediate value: what a document of any format is converted to,
/// and from.
///
/// A dictionary keeps its entries in the order in which they were inserted.
/// Two values are equal when their contents are: dictionaries with the same
/// entries in another order differ.
#[derive(Debug)]
pub enum Value {
    Null,
    Bool(bool),
    Integer(Integer),
    Float(Float),
    String(String),
    Array(Vec<Value>),
    Dict(Vec<(String, Value)>),
}

/// The mathematical content of a [`Value`].
pub ghost enum ValueView {
    Null,
    Bool(bool),
    Integer(int),
    Float(Float),
    String(Seq<char>),
    Array(Seq<ValueView>),
    Dict(Seq<(Seq<char>, ValueView)>),
}

impl Value {
    /// The content of the value.
    pub open spec fn model(self) -> ValueView
        decreases self,
    {
        match self {
            Value::Null => ValueView::Null,
            Value::Bool(b) => ValueView::Bool(b),
            Value::Integer(integer) => ValueView::Integer(integer@),
            Value::Float(float) => ValueView::Float(float),
            Value::String(string) => ValueView::String(string@),
            Value::Array(items) => ValueView::Array(
                Seq::new(
                    items@.len(),
                    |i: int|
                        if 0 <= i < items@.len() {
                            items@[i].model()
                        } else {
                            ValueView::Null
                        },
                ),
            ),
            Value::Dict(entries) => ValueView::Dict(
                Seq::new(
                    entries@.len(),
                    |i: int|
                        if 0 <= i < entries@.len() {
                            (entries@[i].0@, entries@[i].1.model())
                        } else {
                            (Seq::empty(), ValueView::Null)
                        },
                ),
            ),
        }
    }
}

impl View for Value {
    type V = ValueView;

    open spec fn view(&self) -> ValueView {
        self.model()
    }
}

impl PartialEq for Value {
    fn eq(&self, other: &Value) -> (r: bool)
        decreases self,
    {
        match (self, other) {
            (Value::Null, Value::Null) => true,
            (Value::Bool(a), Value::Bool(b)) => *a == *b,
            (Value::Integer(a), Value::Integer(b)) => *a == *b,
            (Value::Float(a), Value::Float(b)) => a.bits == b.bits,
            (Value::String(a), Value::String(b)) => *a == *b,
            (Value::Array(a), Value::Array(b)) => {
                proof {
                    lemma_view_array(*a);
                    lemma_view_array(*b);
                }
                if a.len() != b.len() {
                    assert(view_values(a@).len() != view_values(b@).len());
                    return false;
                }
                let mut i: usize = 0;
                while i < a.len()
                    invariant
                        i <= a.len(),
                        a.len() == b.len(),
                        self is Array && self->Array_0 == *a,
                        self@ == ValueView::Array(view_values(a@)),
                        other@ == ValueView::Array(view_values(b@)),
                        forall|j: int| 0 <= j < i ==> (#[trigger] a@[j])@ == b@[j]@,
                    decreases a.len() - i,
                {
                    if !a[i].eq(&b[i]) {
                        assert(view_values(a@)[i as int] != view_values(b@)[i as int]);
                        return false;
                    }
                    i += 1;
                }
                assert(view_values(a@) =~= view_values(b@));
                true
            },
            (Value::Dict(a), Value::Dict(b)) => {
                proof {
                    lemma_view_dict(*a);
                    lemma_view_dict(*b);
                }
                if a.len() != b.len() {
                    assert(view_entries(a@).len() != view_entries(b@).len());
                    return false;
                }
                let mut i: usize = 0;
                while i < a.len()
                    invariant
                        i <= a.len(),
                        a.len() == b.len(),
                        self is Dict && self->Dict_0 == *a,
                        self@ == ValueView::Dict(view_entries(a@)),
                        other@ == ValueView::Dict(view_entries(b@)),
                        forall|j: int|
                            0 <= j < i ==> (#[trigger] a@[j]).0@ == b@[j].0@ && a@[j].1@
                                == b@[j].1@,
                    decreases a.len() - i,
                {
                    if !(a[i].0 == b[i].0 && a[i].1.eq(&b[i].1)) {
                        assert(view_entries(a@)[i as int] != view_entries(b@)[i as int]);
                        return false;
                    }
                    i += 1;
                }
                assert(view_entries(a@) =~= view_entries(b@));
                true
            },
            _ => false,
        }
    }
}

impl PartialEqSpecImpl for Value {
    open spec fn obeys_eq_spec() -> bool {
        true
    }

    open spec fn eq_spec(&self, other: &Value) -> bool {
        self@ == other@
    }
}

impl Clone for Value {
    fn clone(&self) -> (r: Value)
        ensures
            r@ == self@,
        decreases self,
    {
        match self {
            Value::Null => Value::Null,
            Value::Bool(b) => Value::Bool(*b),
            Value::Integer(integer) => Value::Integer(*integer),
            Value::Float(float) => Value::Float(*float),
            Value::String(string) => Value::String(string.clone()),
            Value::Array(items) => {
                let mut copies: Vec<Value> = Vec::new();
                let mut i: usize = 0;
                while i < items.len()
                    invariant
                        i <= items.len(),
                        self is Array && self->Array_0 == *items,
                        copies@.len() == i,
                        forall|j: int| 0 <= j < i ==> (#[trigger] copies@[j])@ == items@[j]@,
                    decreases items.len() - i,
                {
                    copies.push(items[i].clone());
                    i += 1;
                }
                proof {
                    lemma_view_array(*items);
                    lemma_view_array(copies);
                    assert(view_values(copies@) =~= view_values(items@));
                }
                Value::Array(copies)
            },
            Value::Dict(entries) => {
                let mut copies: Vec<(String, Value)> = Vec::new();
                let mut i: usize = 0;
                while i < entries.len()
                    invariant
                        i <= entries.len(),
                        self is Dict && self->Dict_0 == *entries,
                        copies@.len() == i,
                        forall|j: int|
                            0 <= j < i ==> (#[trigger] copies@[j]).0@ == entries@[j].0@
                                && copies@[j].1@ == entries@[j].1@,
                    decreases entries.len() - i,
                {
                    copies.push((entries[i].0.clone(), entries[i].1.clone()));
                    i += 1;
                }
                proof {
                    lemma_view_dict(*entries);
                    lemma_view_dict(copies);
                    assert(view_entries(copies@) =~= view_entries(entries@));
                }
                Value::Dict(copies)
            },
        }
    }
}

/// The contents of a sequence of values.
pub open spec fn view_values(items: Seq<Value>) -> Seq<ValueView> {
    Seq::new(items.len(), |i: int| items[i]@)
}

/// The contents of a sequence of dictionary entries.
pub open spec fn view_entries(entries: Seq<(String, Value)>) -> Seq<(Seq<char>, ValueView)> {
    Seq::new(entries.len(), |i: int| (entries[i].0@, entries[i].1@))
}

/// The content of an array is the contents of its items.
pub proof fn lemma_view_array(items: Vec<Value>)
    ensures
        Value::Array(items)@ == ValueView::Array(view_values(items@)),
{
    assert(Value::Array(items)@->Array_0 =~= view_values(items@));
}

/// The content of a dictionary is the contents of its entries.
pub proof fn lemma_view_dict(entries: Vec<(String, Value)>)
    ensures
        Value::Dict(entries)@ == ValueView::Dict(view_entries(entries@)),
{
    assert(Value::Dict(entries)@->Dict_0 =~= view_entries(entries@));
}

/// No key occurs twice.
pub open spec fn keys_unique<V>(entries: Seq<(Seq<char>, V)>) -> bool {
    forall|i: int, j: int| 0 <= i < j < entries.len() ==> entries[i].0 != entries[j].0
}

/// The index of the first entry with the given key.
pub open spec fn key_position<V>(entries: Seq<(Seq<char>, V)>, key: Seq<char>) -> Option<int>
    decreases entries.len(),
{
    if entries.len() == 0 {
        None
    } else if key_position(entries.drop_last(), key) is Some {
        key_position(entries.drop_last(), key)
    } else if entries.last().0 == key {
        Some(entries.len() - 1)
    } else {
        None
    }
}

/// The entries after `key` was given `value`: an entry that holds the key
/// keeps its place and gets the value, and a new key goes to the end.
pub open spec fn dict_insert<V>(entries: Seq<(Seq<char>, V)>, key: Seq<char>, value: V) -> Seq<
    (Seq<char>, V),
> {
    match key_position(entries, key) {
        Some(i) => entries.update(i, (entries[i].0, value)),
        None => entries.push((key, value)),
    }
}

/// The entries of the dictionary that the pairs make when they are inserted
/// one after the other.
pub open spec fn dict_collect<V>(pairs: Seq<(Seq<char>, V)>) -> Seq<(Seq<char>, V)>
    decreases pairs.len(),
{
    if pairs.len() == 0 {
        Seq::empty()
    } else {
        dict_insert(dict_collect(pairs.drop_last()), pairs.last().0, pairs.last().1)
    }
}

/// The position of a key is that of the first entry that holds it, and
/// there is none where no entry holds it.
pub proof fn lemma_key_position<V>(entries: Seq<(Seq<char>, V)>, key: Seq<char>)
    ensures
        match key_position(entries, key) {
            Some(i) => 0 <= i < entries.len() && entries[i].0 == key && forall|j: int|
                0 <= j < i ==> entries[j].0 != key,
            None => forall|j: int| 0 <= j < entries.len() ==> entries[j].0 != key,
        },
    decreases entries.len(),
{
    if entries.len() > 0 {
        let front = entries.drop_last();
        lemma_key_position(front, key);
        assert(forall|j: int| 0 <= j < front.len() ==> front[j] == entries[j]);
    }
}

/// Inserting into entries with unique keys leaves the keys unique.
pub proof fn lemma_insert_unique<V>(entries: Seq<(Seq<char>, V)>, key: Seq<char>, value: V)
    requires
        keys_unique(entries),
    ensures
        keys_unique(dict_insert(entries, key, value)),
{
    lemma_key_position(entries, key);
}

/// A collected dictionary holds no key twice.
pub proof fn lemma_collect_unique<V>(pairs: Seq<(Seq<char>, V)>)
    ensures
        keys_unique(dict_collect(pairs)),
    decreases pairs.len(),
{
    if pairs.len() > 0 {
        lemma_collect_unique(pairs.drop_last());
        lemma_insert_unique(dict_collect(pairs.drop_last()), pairs.last().0, pairs.last().1);
    }
}

/// What holds of the value of every pair holds of the value of every entry
/// of the dictionary that the pairs make.
pub proof fn lemma_collect_keeps<V>(pairs: Seq<(Seq<char>, V)>, holds: spec_fn(V) -> bool)
    requires
        forall|i: int| 0 <= i < pairs.len() ==> holds((#[trigger] pairs[i]).1),
    ensures
        forall|i: int|
            0 <= i < dict_collect(pairs).len() ==> holds((#[trigger] dict_collect(pairs)[i]).1),
    decreases pairs.len(),
{
    if pairs.len() > 0 {
        let front = pairs.drop_last();
        assert forall|i: int| 0 <= i < front.len() implies holds((#[trigger] front[i]).1) by {
            assert(front[i] == pairs[i]);
        }
        lemma_collect_keeps(front, holds);
        lemma_key_position(dict_collect(front), pairs.last().0);
        assert(holds(pairs.last().1)) by {
            assert(pairs.last() == pairs[pairs.len() - 1]);
        }
    }
}

/// The dictionary that pairs with well-formed values make is well-formed.
pub proof fn lemma_collect_wf(pairs: Seq<(Seq<char>, ValueView)>)
    requires
        forall|i: int| 0 <= i < pairs.len() ==> (#[trigger] pairs[i]).1.wf(),
    ensures
        ValueView::Dict(dict_collect(pairs)).wf(),
{
    lemma_collect_unique(pairs);
    lemma_collect_keeps(pairs, |value: ValueView| value.wf());
}

/// Pairs whose keys are unique are collected as they stand.
pub proof fn lemma_collect_of_unique<V>(pairs: Seq<(Seq<char>, V)>)
    requires
        keys_unique(pairs),
    ensures
        dict_collect(pairs) == pairs,
    decreases pairs.len(),
{
    if pairs.len() > 0 {
        let front = pairs.drop_last();
        lemma_collect_of_unique(front);
        lemma_key_position(front, pairs.last().0);
        assert(front.push(pairs.last()) =~= pairs);
    }
}

impl ValueView {
    /// Every integer lies in the integers' range, and no dictionary holds a
    /// key twice.
    pub open spec fn wf(self) -> bool
        decreases self,
    {
        match self {
            ValueView::Integer(number) => Integer::in_range(number),
            ValueView::Array(items) => forall|i: int|
                0 <= i < items.len() ==> (#[trigger] items[i]).wf(),
            ValueView::Dict(entries) => keys_unique(entries) && forall|i: int|
                0 <= i < entries.len() ==> (#[trigger] entries[i]).1.wf(),
            _ => true,
        }
    }

    /// No float is an infinity or a NaN.
    pub open spec fn floats_finite(self) -> bool
        decreases self,
    {
        match self {
            ValueView::Float(float) => float.is_finite(),
            ValueView::Array(items) => forall|i: int|
                0 <= i < items.len() ==> (#[trigger] items[i]).floats_finite(),
            ValueView::Dict(entries) => forall|i: int|
                0 <= i < entries.len() ==> (#[trigger] entries[i]).1.floats_finite(),
            _ => true,
        }
    }
}

} // verus!
