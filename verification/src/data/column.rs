//! A named, ordered column of values with an optional dictionary that maps
//! an encoded key back to the label it was parsed from.

use std::collections::HashMap;
use crate::text::{chars_of, string_of};
use std::fmt::Debug;
use vstd::prelude::*;

verus! {

/// The largest number of values that `to_lines` shows of a column.
pub const DISPLAY_MAX: usize = 10;

/// Calls `format!` with the debug form of `value`: how the value is shown.
#[verifier::external_body]
fn debug_line<T: Debug>(value: &T) -> String {
    format!("{:?}", value)
}

/// The width of the heading of a column in characters.
pub const HEADING_WIDTH: usize = 16;

/// A run of `count` dashes.
pub open spec fn dashes(count: int) -> Seq<char> {
    Seq::new(
        if count < 0 {
            0
        } else {
            count as nat
        },
        |i: int| '-',
    )
}

/// `name` set in the middle of a line as wide as a heading, with dashes to
/// both sides of it and the odd dash to its right; a name that is as wide
/// or wider stands alone.
pub open spec fn centered(name: Seq<char>) -> Seq<char> {
    if name.len() >= HEADING_WIDTH {
        name
    } else {
        let padding = HEADING_WIDTH - name.len();
        dashes(padding / 2) + name + dashes((padding + 1) / 2)
    }
}

/// Sets `name` in the middle of a heading.
fn heading_line(name: &str) -> (line: String)
    ensures
        line@ == centered(name@),
{
    let chars = chars_of(name);
    let count = chars.len();
    if count >= HEADING_WIDTH {
        return string_of(&chars);
    }
    let padding = HEADING_WIDTH - count;
    let front = padding / 2;
    let back = (padding + 1) / 2;
    let mut line: Vec<char> = Vec::new();
    let mut at: usize = 0;
    while at < front
        invariant
            at <= front,
            line@ == dashes(at as int),
        decreases front - at,
    {
        line.push('-');
        at = at + 1;
        assert(line@ =~= dashes(at as int));
    }
    let mut at: usize = 0;
    while at < count
        invariant
            at <= count,
            count == chars@.len(),
            line@ == dashes(front as int) + chars@.take(at as int),
        decreases count - at,
    {
        line.push(chars[at]);
        at = at + 1;
        assert(line@ =~= dashes(front as int) + chars@.take(at as int));
    }
    assert(chars@.take(count as int) == chars@);
    let mut at: usize = 0;
    while at < back
        invariant
            at <= back,
            line@ == dashes(front as int) + chars@ + dashes(at as int),
        decreases back - at,
    {
        line.push('-');
        at = at + 1;
        assert(line@ =~= dashes(front as int) + chars@ + dashes(at as int));
    }
    string_of(&line)
}

/// A column of a table: values in their order, with or without a header
/// and a dictionary.
pub struct Column<T> {
    name: Option<String>,
    metadata: Option<HashMap<u32, String>>,
    values: Vec<T>,
}

impl<T> View for Column<T> {
    type V = Seq<T>;

    /// The values of the column, in order.
    closed spec fn view(&self) -> Seq<T> {
        self.values@
    }
}

impl<T> Default for Column<T> {
    fn default() -> (column: Self)
        ensures
            column@ == Seq::<T>::empty(),
            column.name_view() is None,
            column.metadata_view() is None,
    {
        Column::new()
    }
}

impl<T> Column<T> {
    /// The header of the column, if it has one.
    pub closed spec fn name_view(&self) -> Option<Seq<char>> {
        match self.name {
            Some(name) => Some(name@),
            None => None,
        }
    }

    /// The dictionary from encoded key back to the text it stands for, if one was attached.
    pub closed spec fn metadata_view(&self) -> Option<Map<u32, String>> {
        match self.metadata {
            Some(metadata) => Some(metadata@),
            None => None,
        }
    }

    /// Whether `other` differs from `self` in its values at most.
    pub open spec fn same_labels(&self, other: &Self) -> bool {
        &&& self.name_view() == other.name_view()
        &&& self.metadata_view() == other.metadata_view()
    }

    pub fn new() -> (column: Self)
        ensures
            column@ == Seq::<T>::empty(),
            column.name_view() is None,
            column.metadata_view() is None,
    {
        Self { name: None, metadata: None, values: Vec::new() }
    }

    pub fn set_name(&mut self, name: String)
        ensures
            final(self).name_view() == Some(name@),
            final(self)@ == old(self)@,
            final(self).metadata_view() == old(self).metadata_view(),
    {
        self.name = Some(name);
    }

    pub fn get_name(&self) -> (name: Option<&str>)
        ensures
            name is Some <==> self.name_view() is Some,
            name is Some ==> name.unwrap()@ == self.name_view().unwrap(),
    {
        match &self.name {
            Some(name) => Some(name.as_str()),
            None => None,
        }
    }

    /// Adds `values` behind the values the column already holds.
    pub fn append(&mut self, values: Vec<T>)
        ensures
            final(self)@ == old(self)@ + values@,
            final(self).same_labels(old(self)),
    {
        let mut values = values;
        self.values.append(&mut values);
    }

    pub fn push(&mut self, value: T)
        ensures
            final(self)@ == old(self)@.push(value),
            final(self).same_labels(old(self)),
    {
        self.values.push(value);
    }

    /// Takes out the value at `idx`; a column that has no such index stays as it is.
    pub fn remove(&mut self, idx: usize)
        ensures
            idx < old(self)@.len() ==> final(self)@ == old(self)@.remove(idx as int),
            idx >= old(self)@.len() ==> final(self)@ == old(self)@,
            final(self).same_labels(old(self)),
    {
        if idx >= self.values.len() {
            return ;
        }
        self.values.remove(idx);
    }

    pub fn set_metadata(&mut self, metadata: HashMap<u32, String>)
        ensures
            final(self).metadata_view() == Some(metadata@),
            final(self)@ == old(self)@,
            final(self).name_view() == old(self).name_view(),
    {
        self.metadata = Some(metadata);
    }

    pub fn get_metadata(&self) -> (metadata: Option<&HashMap<u32, String>>)
        ensures
            metadata is Some <==> self.metadata_view() is Some,
            metadata is Some ==> metadata.unwrap()@ == self.metadata_view().unwrap(),
    {
        match &self.metadata {
            Some(metadata) => Some(metadata),
            None => None,
        }
    }

    pub fn get(&self, index: usize) -> (value: Option<&T>)
        ensures
            index < self@.len() ==> value == Some(&self@[index as int]),
            index >= self@.len() ==> value is None,
    {
        if index < self.values.len() {
            Some(&self.values[index])
        } else {
            None
        }
    }

    /// A handle on the value at `index`; what is written through it is the
    /// only change to the column.
    pub fn get_mut(&mut self, index: usize) -> (value: Option<&mut T>)
        ensures
            index >= old(self)@.len() ==> value is None && final(self)@ == old(self)@,
            index < old(self)@.len() ==> value is Some && *value.unwrap() == old(self)@[index as int]
                && final(self)@ == old(self)@.update(index as int, *final(value.unwrap())),
            final(self).same_labels(old(self)),
    {
        if index < self.values.len() {
            Some(&mut self.values[index])
        } else {
            None
        }
    }

    /// Whether the column goes by `name`.
    pub fn has_name(&self, name: &str) -> (named: bool)
        ensures
            named == (self.name_view() == Some(name@)),
    {
        match &self.name {
            Some(own) => {
                let wanted = name.to_owned();
                *own == wanted
            },
            None => false,
        }
    }

    /// The number of values.
    pub fn len(&self) -> (len: usize)
        ensures
            len == self@.len(),
    {
        self.values.len()
    }

    /// All values, in order.
    pub fn values(&self) -> (values: &[T])
        ensures
            values@ == self@,
    {
        self.values.as_slice()
    }

    /// All values, open to change in place; the column keeps its length.
    pub fn values_mut(&mut self) -> (values: &mut [T])
        ensures
            values@ == old(self)@,
            final(self)@ == final(values)@,
            final(self).same_labels(old(self)),
    {
        self.values.as_mut_slice()
    }

    pub fn clear(&mut self)
        ensures
            final(self)@ == Seq::<T>::empty(),
            final(self).same_labels(old(self)),
    {
        self.values.clear();
    }
}

impl<T: Debug> Column<T> {
    /// How many lines `to_lines` makes of a column of `len` values: the
    /// heading, and then a line for each value, or for a long column the
    /// first nine values, a line of dots and the last value.
    pub open spec fn line_count(len: nat) -> nat {
        if len <= DISPLAY_MAX {
            len + 1
        } else {
            (DISPLAY_MAX + 2) as nat
        }
    }

    /// The column as lines of text: its header, or `N/A` where it has
    /// none, and its values; of more than ten values only the first nine and
    /// the last are shown, with a line of dots between them.
    pub fn to_lines(&self) -> (lines: Vec<String>)
        ensures
            lines@.len() == Self::line_count(self@.len()),
            lines@[0]@ == match self.name_view() {
                Some(name) => centered(name),
                None => centered("N/A"@),
            },
            self@.len() > DISPLAY_MAX ==> lines@[DISPLAY_MAX as int]@ == "..."@,
    {
        let mut lines: Vec<String> = Vec::new();
        match &self.name {
            Some(name) => lines.push(heading_line(name.as_str())),
            None => lines.push(heading_line("N/A")),
        }
        let ghost heading = lines@[0]@;
        let count = self.values.len();
        let shown = if count <= DISPLAY_MAX {
            count
        } else {
            DISPLAY_MAX - 1
        };
        let mut at: usize = 0;
        while at < shown
            invariant
                at <= shown <= count,
                count == self.values@.len(),
                lines@.len() == at + 1,
                lines@[0]@ == heading,
            decreases shown - at,
        {
            lines.push(debug_line(&self.values[at]));
            at = at + 1;
        }
        if count > DISPLAY_MAX {
            lines.push("...".to_owned());
            lines.push(debug_line(&self.values[count - 1]));
        }
        lines
    }
}

} // verus!
