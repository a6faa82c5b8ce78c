//! The records that the analysis produces.

use crate::text::text_model;
use crate::text::texts;
use vstd::prelude::*;

verus! {

/// The text that `chrono` displays for the date and time of day that lie
/// `seconds` after the start of 1970 in UTC, in the form
/// `YYYY-MM-DD HH:MM:SS`, or `None` where
/// `chrono::DateTime::from_timestamp` holds the number of seconds to be out
/// of range.
pub uninterp spec fn timestamp_text(seconds: int) -> Option<Seq<char>>;

/// Calls `chrono::DateTime::from_timestamp` with `seconds` and no
/// nanoseconds, and hands back what the date and time of day it gives
/// display as.
#[verifier::external_body]
pub(crate) fn date_time_text(seconds: i64) -> (text: Option<String>)
    ensures
        text_model(text) == timestamp_text(seconds as int),
{
    chrono::DateTime::from_timestamp(seconds, 0).map(|moment| moment.naive_utc().to_string())
}

/// A date and time with the mark that follows it where it is written out.
pub open spec fn marked(seconds: int, mark: Seq<char>) -> Option<Seq<char>> {
    match timestamp_text(seconds) {
        Some(text) => Some(text + mark),
        None => None,
    }
}

/// A date and time in UTC, held as the seconds since the start of 1970.
#[derive(Debug, Clone, Copy)]
pub struct NativeDateTimeWrapper(pub i64);

impl NativeDateTimeWrapper {
    /// Whether the date and time can be written out.
    pub open spec fn representable(self) -> bool {
        timestamp_text(self.0 as int).is_some()
    }

    /// The date and time `seconds` after the start of 1970, where it can be
    /// written out.
    pub fn from_timestamp(seconds: i64) -> (date: Option<NativeDateTimeWrapper>)
        ensures
            date == if NativeDateTimeWrapper(seconds).representable() {
                Some(NativeDateTimeWrapper(seconds))
            } else {
                None
            },
    {
        match date_time_text(seconds) {
            Some(_) => Some(NativeDateTimeWrapper(seconds)),
            None => None,
        }
    }

    /// The date and time in the form `YYYY-MM-DD HH:MM:SS UTC`, as the
    /// records are written out, or `None` where it cannot be written out.
    pub fn format(&self) -> (text: Option<String>)
        ensures
            text_model(text) == marked(self.0 as int, " UTC"@),
    {
        self.format_with(" UTC")
    }

    /// The date and time in the form `YYYY-MM-DD HH:MM:SS` with `mark`
    /// behind it, or `None` where it cannot be written out.
    pub fn format_with(&self, mark: &str) -> (text: Option<String>)
        ensures
            text_model(text) == marked(self.0 as int, mark@),
    {
        match date_time_text(self.0) {
            Some(text) => Some(text.concat(mark)),
            None => None,
        }
    }
}

/// What one commit added: the files that match the rule and, where they are
/// kept, those that do not.
#[derive(Debug)]
pub struct CommitData {
    /// The commit's id, in hexadecimal.
    pub commit: String,
    /// The commit's time.
    pub date: NativeDateTimeWrapper,
    /// The lines that the commit inserted and deleted.
    pub size: usize,
    /// The added files that match.
    pub test_files: Vec<String>,
    /// The added files that do not match, where they are kept.
    pub non_test_files: Option<Vec<String>>,
}

impl CommitData {
    /// The list of the files that do not match as it is written out: there is
    /// none where those files are not kept, and none where no such file is
    /// there.
    pub fn written_non_test_files(&self) -> (files: Option<&Vec<String>>)
        ensures
            match files {
                Some(list) => self.non_test_files == Some(*list) && list.len() > 0,
                None => self.non_test_files matches Some(list) ==> list.len() == 0,
            },
    {
        match &self.non_test_files {
            Some(list) => if list.len() > 0 {
                Some(list)
            } else {
                None
            },
            None => None,
        }
    }
}

/// The mathematical model of a `CommitData`.
pub struct CommitRecord {
    pub commit: Seq<char>,
    pub seconds: int,
    pub size: nat,
    pub test_files: Seq<Seq<char>>,
    pub non_test_files: Option<Seq<Seq<char>>>,
}

impl View for CommitData {
    type V = CommitRecord;

    open spec fn view(&self) -> CommitRecord {
        CommitRecord {
            commit: self.commit@,
            seconds: self.date.0 as int,
            size: self.size as nat,
            test_files: texts(self.test_files@),
            non_test_files: match self.non_test_files {
                Some(files) => Some(texts(files@)),
                None => None,
            },
        }
    }
}

/// The models of a list of records, in order.
pub open spec fn records(list: Seq<CommitData>) -> Seq<CommitRecord> {
    list.map_values(|data: CommitData| data@)
}

} // verus!
