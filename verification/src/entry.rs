use vstd::prelude::*;
use crate::text::{all_number_chars, json_number};

verus! {

/// The mathematical content of an [`Entry`]: its fields as sequences and
/// unbounded integers.
pub struct EntryV {
    pub path: Seq<char>,
    pub sys: int,
    pub dia: int,
    pub pulse: int,
    pub temp_c: Seq<char>,
    pub timestamp_nanos: int,
}

/// One persisted vital-signs reading: the web-relative path of its composite
/// photo, the three integer readings, the temperature as the decimal text it
/// was submitted with, and the nanosecond-epoch identity.
pub struct Entry {
    pub path: String,
    pub sys: i64,
    pub dia: i64,
    pub pulse: i64,
    pub temp_c: String,
    pub timestamp_nanos: i128,
}

impl View for Entry {
    type V = EntryV;

    open spec fn view(&self) -> EntryV {
        EntryV {
            path: self.path@,
            sys: self.sys as int,
            dia: self.dia as int,
            pulse: self.pulse as int,
            temp_c: self.temp_c@,
            timestamp_nanos: self.timestamp_nanos as int,
        }
    }
}

/// A character that may stand in a stored path: printable ASCII, and neither
/// a quote nor a backslash, so the path needs no escaping inside JSON text.
pub open spec fn is_path_char(c: char) -> bool {
    ' ' <= c && c <= '~' && c != '"' && c != '\\'
}

pub open spec fn wf_path(s: Seq<char>) -> bool {
    forall|i: int| 0 <= i < s.len() ==> is_path_char(#[trigger] s[i])
}

/// A temperature text: a decimal number made of number characters only.
pub open spec fn wf_temp(s: Seq<char>) -> bool {
    json_number(s) && all_number_chars(s)
}

/// Well-formedness of an entry: the path needs no JSON escaping, the
/// temperature text is a decimal number, and the integer fields lie in the
/// ranges of the executable types.
pub open spec fn wf_entry(e: EntryV) -> bool {
    &&& wf_path(e.path)
    &&& wf_temp(e.temp_c)
    &&& i64::MIN <= e.sys <= i64::MAX
    &&& i64::MIN <= e.dia <= i64::MAX
    &&& i64::MIN <= e.pulse <= i64::MAX
    &&& i128::MIN <= e.timestamp_nanos <= i128::MAX
}

impl Entry {
    /// Structural copy; the copy denotes the same entry.
    pub fn duplicate(&self) -> (r: Entry)
        ensures
            r@ == self@,
    {
        Entry {
            path: self.path.clone(),
            sys: self.sys,
            dia: self.dia,
            pulse: self.pulse,
            temp_c: self.temp_c.clone(),
            timestamp_nanos: self.timestamp_nanos,
        }
    }
}

} // verus!
