use vstd::prelude::*;
use smol_str::SmolStr;
use std::borrow::Cow;
use crate::text::{smol_new, smol_text};
use crate::value::{ScalarValue, ScalarView};

verus! {

/// What a mark says: its name and its value. A value of `Null` takes the mark
/// of that name away.
#[derive(Debug)]
pub struct MarkData {
    pub name: SmolStr,
    pub value: ScalarValue,
}

/// What a `MarkData` holds.
pub ghost struct MarkDataView {
    pub name: Seq<char>,
    pub value: ScalarView,
}

impl View for MarkData {
    type V = MarkDataView;

    open spec fn view(&self) -> MarkDataView {
        MarkDataView { name: smol_text(self.name), value: self.value@ }
    }
}

impl Clone for MarkData {
    fn clone(&self) -> (r: Self)
        ensures
            r@ == self@,
    {
        MarkData { name: self.name.clone(), value: self.value.clone() }
    }
}

impl PartialEq for MarkData {
    fn eq(&self, other: &MarkData) -> (r: bool) {
        self.name.eq(&other.name) && self.value.same(&other.value)
    }
}

impl vstd::std_specs::cmp::PartialEqSpecImpl for MarkData {
    open spec fn obeys_eq_spec() -> bool {
        true
    }

    open spec fn eq_spec(&self, other: &MarkData) -> bool {
        self@ == other@
    }
}

/// A named value over the half-open range `[start, end)` of a sequence.
///
/// A mark either borrows its name and value or owns them: `into_owned` turns
/// the first into the second.
#[derive(Debug)]
pub struct Mark<'a> {
    pub start: usize,
    pub end: usize,
    pub data: Cow<'a, MarkData>,
}

/// What a `Mark` holds, whoever owns the name and the value.
pub ghost struct MarkView {
    pub start: nat,
    pub end: nat,
    pub name: Seq<char>,
    pub value: ScalarView,
}

impl<'a> View for Mark<'a> {
    type V = MarkView;

    open spec fn view(&self) -> MarkView {
        MarkView {
            start: self.start as nat,
            end: self.end as nat,
            name: self.payload()@.name,
            value: self.payload()@.value,
        }
    }
}

impl<'a> Mark<'a> {
    /// The name and value of the mark, borrowed or owned.
    pub open spec fn payload(&self) -> MarkData {
        match self.data {
            Cow::Borrowed(d) => *d,
            Cow::Owned(d) => d,
        }
    }

    /// Whether the mark owns its name and value.
    pub open spec fn is_owned(&self) -> bool {
        self.data is Owned
    }

    /// An owned mark. Its value is what `value` converts into.
    pub fn new<V: Into<ScalarValue>>(name: String, value: V, start: usize, end: usize) -> (r: Mark<
        'static,
    >)
        ensures
            r.start == start,
            r.end == end,
            r@.name == name@,
            r.is_owned(),
            call_ensures(V::into, (value,), r.payload().value),
    {
        Mark {
            data: Cow::Owned(MarkData { name: smol_new(name.as_str()), value: value.into() }),
            start,
            end,
        }
    }

    pub(crate) fn is_null(&self) -> (r: bool)
        ensures
            r == (self@.value is Null),
    {
        self.value().is_null()
    }

    /// A mark over `[start, end)` that borrows `data`.
    pub(crate) fn from_data(start: usize, end: usize, data: &MarkData) -> (r: Mark<'_>)
        ensures
            r.start == start,
            r.end == end,
            r.payload() == *data,
            !r.is_owned(),
    {
        Mark { data: Cow::Borrowed(data), start, end }
    }

    /// The same mark, owning a copy of its name and value.
    pub fn into_owned(self) -> (r: Mark<'static>)
        ensures
            r@ == self@,
            r.is_owned(),
    {
        let data = match self.data {
            Cow::Borrowed(d) => d.clone(),
            Cow::Owned(d) => d,
        };
        Mark { data: Cow::Owned(data), start: self.start, end: self.end }
    }

    fn data(&self) -> (r: &MarkData)
        ensures
            *r == self.payload(),
    {
        match &self.data {
            Cow::Borrowed(d) => d,
            Cow::Owned(d) => d,
        }
    }

    /// Whether the two marks have the same name.
    pub(crate) fn same_name(&self, other: &Mark<'_>) -> (r: bool)
        ensures
            r == (self@.name == other@.name),
    {
        self.data().name.eq(&other.data().name)
    }

    /// Whether the two marks have the same value.
    pub(crate) fn same_value(&self, other: &Mark<'_>) -> (r: bool)
        ensures
            r == (self@.value == other@.value),
    {
        self.value().same(other.value())
    }

    pub fn name(&self) -> (r: &str)
        ensures
            r@ == self@.name,
    {
        self.data().name.as_str()
    }

    pub fn value(&self) -> (r: &ScalarValue)
        ensures
            r@ == self@.value,
            *r == self.payload().value,
    {
        &self.data().value
    }
}

impl<'a> Clone for Mark<'a> {
    fn clone(&self) -> (r: Self)
        ensures
            r@ == self@,
            r.is_owned() == self.is_owned(),
    {
        let data = match &self.data {
            Cow::Borrowed(d) => Cow::Borrowed(*d),
            Cow::Owned(d) => Cow::Owned(d.clone()),
        };
        Mark { data, start: self.start, end: self.end }
    }
}

impl<'a> PartialEq for Mark<'a> {
    fn eq(&self, other: &Mark<'a>) -> (r: bool) {
        self.start == other.start && self.end == other.end && self.data().eq(other.data())
    }
}

impl<'a> vstd::std_specs::cmp::PartialEqSpecImpl for Mark<'a> {
    open spec fn obeys_eq_spec() -> bool {
        true
    }

    open spec fn eq_spec(&self, other: &Mark<'a>) -> bool {
        self@ == other@
    }
}

/// Whether text inserted exactly at a boundary of a mark inherits the mark.
#[derive(PartialEq, Eq, Structural, Debug, Clone, Copy)]
pub enum ExpandMark {
    Before,
    After,
    Both,
    /// Expands at neither boundary.
    Neither,
}

impl Default for ExpandMark {
    fn default() -> (r: Self)
        ensures
            r == ExpandMark::After,
    {
        ExpandMark::After
    }
}

impl ExpandMark {
    /// The policy that expands at exactly the given boundaries.
    pub open spec fn of(before: bool, after: bool) -> ExpandMark {
        if before && after {
            ExpandMark::Both
        } else if after {
            ExpandMark::After
        } else if before {
            ExpandMark::Before
        } else {
            ExpandMark::Neither
        }
    }

    pub fn from(before: bool, after: bool) -> (r: Self)
        ensures
            r == Self::of(before, after),
            r.before() == before,
            r.after() == after,
    {
        match (before, after) {
            (true, true) => ExpandMark::Both,
            (false, true) => ExpandMark::After,
            (true, false) => ExpandMark::Before,
            (false, false) => ExpandMark::Neither,
        }
    }

    pub open spec fn spec_before(&self) -> bool {
        *self == ExpandMark::Before || *self == ExpandMark::Both
    }

    pub open spec fn spec_after(&self) -> bool {
        *self == ExpandMark::After || *self == ExpandMark::Both
    }

    /// Text inserted at the start of the mark joins it.
    #[verifier::when_used_as_spec(spec_before)]
    pub fn before(&self) -> (r: bool)
        ensures
            r == self.spec_before(),
    {
        matches!(self, ExpandMark::Before | ExpandMark::Both)
    }

    /// Text inserted at the end of the mark joins it.
    #[verifier::when_used_as_spec(spec_after)]
    pub fn after(&self) -> (r: bool)
        ensures
            r == self.spec_after(),
    {
        matches!(self, ExpandMark::After | ExpandMark::Both)
    }
}

} // verus!
