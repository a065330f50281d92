//! Named arguments.
use crate::text::{decimal, decimal_text, texts};
use vstd::prelude::*;

verus! {

// ---------------------------------------------------------------------------------------
// Timestamps
// ---------------------------------------------------------------------------------------
/// What `chrono::DateTime::parse_from_rfc3339` reads a text as, in microseconds since 1970;
/// nothing where it returns an error.
pub uninterp spec fn rfc3339_micros(text: Seq<char>) -> Option<i64>;

/// What `chrono::NaiveDateTime::parse_from_str` reads a text as, taken as UTC and in
/// microseconds since 1970; nothing where it returns an error.
pub uninterp spec fn datetime_micros(text: Seq<char>, format: Seq<char>) -> Option<i64>;

/// What `chrono::NaiveDate::parse_from_str` reads a text as, taken as the start of that day in
/// UTC and in microseconds since 1970; nothing where it returns an error.
pub uninterp spec fn date_micros(text: Seq<char>, format: Seq<char>) -> Option<i64>;

/// Calls `chrono::DateTime::parse_from_rfc3339` and hands the moment out by its
/// `timestamp_micros`. Claimed of it: the result depends on the text alone.
#[verifier::external_body]
fn read_rfc3339(text: &str) -> (micros: Option<i64>)
    ensures
        micros == rfc3339_micros(text@),
{
    match chrono::DateTime::parse_from_rfc3339(text) {
        Ok(moment) => Some(moment.timestamp_micros()),
        Err(_) => None,
    }
}

/// Calls `chrono::NaiveDateTime::parse_from_str` and hands the moment out by `and_utc` and
/// `timestamp_micros`. Claimed of it: the result depends on the text and the format alone.
/// With this one format the call does not panic on any text.
#[verifier::external_body]
fn read_datetime(text: &str, format: &str) -> (micros: Option<i64>)
    requires
        format@ == "%Y-%m-%d %H:%M:%S%.f"@,
    ensures
        micros == datetime_micros(text@, format@),
{
    match chrono::NaiveDateTime::parse_from_str(text, format) {
        Ok(moment) => Some(moment.and_utc().timestamp_micros()),
        Err(_) => None,
    }
}

/// Calls `chrono::NaiveDate::parse_from_str` and hands the start of the day out by `and_time`,
/// `and_utc` and `timestamp_micros`. Claimed of it: the result depends on the text and the
/// format alone. With this one format the call does not panic on any text.
#[verifier::external_body]
fn read_date(text: &str, format: &str) -> (micros: Option<i64>)
    requires
        format@ == "%Y-%m-%d"@,
    ensures
        micros == date_micros(text@, format@),
{
    match chrono::NaiveDate::parse_from_str(text, format) {
        Ok(day) => Some(day.and_time(chrono::NaiveTime::MIN).and_utc().timestamp_micros()),
        Err(_) => None,
    }
}

/// The first of three readings that is one.
pub open spec fn first_reading(
    rfc3339: Option<i64>,
    datetime: Option<i64>,
    date: Option<i64>,
) -> Option<i64> {
    if rfc3339 is Some {
        rfc3339
    } else if datetime is Some {
        datetime
    } else {
        date
    }
}

/// The moment that a text stands for, given what it was read as in each notation.
pub fn choose_timestamp(
    name: &str,
    text: &str,
    rfc3339: Option<i64>,
    datetime: Option<i64>,
    date: Option<i64>,
) -> (micros: Result<i64, String>)
    ensures
        match micros {
            Ok(micros) => first_reading(rfc3339, datetime, date) == Some(micros),
            Err(message) => first_reading(rfc3339, datetime, date) is None && message@
                == "invalid "@ + name@ + " timestamp: "@ + text@,
        },
{
    if let Some(micros) = rfc3339 {
        return Ok(micros);
    }
    if let Some(micros) = datetime {
        return Ok(micros);
    }
    if let Some(micros) = date {
        return Ok(micros);
    }
    let mut message = "invalid ".to_owned();
    message.append(name);
    message.append(" timestamp: ");
    message.append(text);
    Err(message)
}

/// The moment that an argument stands for, if it is there: an RFC 3339 timestamp, a date with a
/// time, or a date.
pub fn named_timestamp(name: &str, value: Option<&str>) -> (micros: Result<Option<i64>, String>)
    ensures
        match value {
            None => micros == Ok::<Option<i64>, String>(None),
            Some(text) => {
                let read = first_reading(
                    rfc3339_micros(text@),
                    datetime_micros(text@, "%Y-%m-%d %H:%M:%S%.f"@),
                    date_micros(text@, "%Y-%m-%d"@),
                );
                match micros {
                    Ok(micros) => micros is Some && micros == read,
                    Err(message) => read is None && message@ == "invalid "@ + name@
                        + " timestamp: "@ + text@,
                }
            },
        },
{
    match value {
        None => Ok(None),
        Some(text) => {
            let rfc3339 = read_rfc3339(text);
            let datetime = read_datetime(text, "%Y-%m-%d %H:%M:%S%.f");
            let date = read_date(text, "%Y-%m-%d");
            match choose_timestamp(name, text, rfc3339, datetime, date) {
                Ok(micros) => Ok(Some(micros)),
                Err(message) => Err(message),
            }
        },
    }
}

// ---------------------------------------------------------------------------------------
// Lists
// ---------------------------------------------------------------------------------------
/// An argument that should be a list of strings.
#[derive(Debug)]
pub enum ListArgument {
    Absent,
    NotAList,
    Items(Vec<String>),
}

/// An argument that should be a list of lists of strings; a row that is no list is `None`.
#[derive(Debug)]
pub enum RowsArgument {
    Absent,
    NotAList,
    Rows(Vec<Option<Vec<String>>>),
}

/// What is wrong with a row, if anything is.
pub open spec fn row_error(
    name: Seq<char>,
    row: Option<Vec<String>>,
    number: nat,
    width: nat,
) -> Option<Seq<char>> {
    match row {
        None => Some(name + " row "@ + decimal(number) + " must be a list"@),
        Some(cells) => if cells@.len() == width {
            None
        } else {
            Some(
                name + " row "@ + decimal(number) + " must contain "@ + decimal(width)
                    + " strings, got "@ + decimal(cells@.len()),
            )
        },
    }
}

/// What is wrong with the first wrong row from the `i`-th on.
pub open spec fn rows_error(
    name: Seq<char>,
    rows: Seq<Option<Vec<String>>>,
    width: nat,
    i: int,
) -> Option<Seq<char>>
    decreases rows.len() - i,
{
    if i < 0 || i >= rows.len() {
        None
    } else if row_error(name, rows[i], (i + 1) as nat, width) is Some {
        row_error(name, rows[i], (i + 1) as nat, width)
    } else {
        rows_error(name, rows, width, i + 1)
    }
}

/// Copies of strings.
fn copy_texts(list: &Vec<String>) -> (copy: Vec<String>)
    ensures
        texts(copy@) == texts(list@),
        copy@.len() == list@.len(),
{
    let mut copy: Vec<String> = Vec::new();
    let mut i: usize = 0;
    while i < list.len()
        invariant
            i <= list@.len(),
            copy@.len() == i,
            forall|k: int| 0 <= k < i ==> (#[trigger] copy@[k])@ == list@[k]@,
        decreases list@.len() - i,
    {
        copy.push(list[i].clone());
        i = i + 1;
    }
    assert(texts(copy@) =~= texts(list@));
    copy
}

/// The strings of a list, none where it is absent.
pub fn named_string_list(name: &str, value: ListArgument) -> (items: Result<Vec<String>, String>)
    ensures
        match value {
            ListArgument::Absent => items matches Ok(items) && items@.len() == 0,
            ListArgument::NotAList => items matches Err(message) && message@ == name@
                + " must be a list of strings"@,
            ListArgument::Items(list) => items == Ok::<Vec<String>, String>(list),
        },
{
    match value {
        ListArgument::Absent => Ok(Vec::new()),
        ListArgument::NotAList => {
            let mut message = name.to_owned();
            message.append(" must be a list of strings");
            Err(message)
        },
        ListArgument::Items(list) => Ok(list),
    }
}

/// The rows of a list of lists, each with `width` strings; none where it is absent.
pub fn named_string_rows(name: &str, width: usize, value: &RowsArgument) -> (read: Result<
    Vec<Vec<String>>,
    String,
>)
    ensures
        match *value {
            RowsArgument::Absent => read matches Ok(read) && read@.len() == 0,
            RowsArgument::NotAList => read matches Err(message) && message@ == name@
                + " must be a list of lists"@,
            RowsArgument::Rows(rows) => match read {
                Ok(read) => rows_error(name@, rows@, width as nat, 0) is None && read@.len()
                    == rows@.len() && forall|i: int|
                    0 <= i < rows@.len() ==> (#[trigger] read@[i])@.len() == width && texts(
                        read@[i]@,
                    ) == texts((rows@[i]->0)@),
                Err(message) => rows_error(name@, rows@, width as nat, 0) == Some(message@),
            },
        },
{
    match value {
        RowsArgument::Absent => Ok(Vec::new()),
        RowsArgument::NotAList => {
            let mut message = name.to_owned();
            message.append(" must be a list of lists");
            Err(message)
        },
        RowsArgument::Rows(rows) => {
            let mut read: Vec<Vec<String>> = Vec::new();
            let total: usize = rows.len();
            let mut i: usize = 0;
            while i < rows.len()
                invariant
                    i <= rows@.len(),
                    total == rows@.len(),
                    read@.len() == i,
                    *value == RowsArgument::Rows(*rows),
                    rows_error(name@, rows@, width as nat, 0) == rows_error(
                        name@,
                        rows@,
                        width as nat,
                        i as int,
                    ),
                    forall|k: int|
                        0 <= k < i ==> (#[trigger] read@[k])@.len() == width && texts(read@[k]@)
                            == texts((rows@[k]->0)@),
                decreases rows@.len() - i,
            {
                let mut message = name.to_owned();
                message.append(" row ");
                let number = decimal_text((i + 1) as u64);
                message.append(number.as_str());
                match &rows[i] {
                    None => {
                        message.append(" must be a list");
                        return Err(message);
                    },
                    Some(cells) => {
                        if cells.len() != width {
                            message.append(" must contain ");
                            let wanted = decimal_text(width as u64);
                            message.append(wanted.as_str());
                            message.append(" strings, got ");
                            let got = decimal_text(cells.len() as u64);
                            message.append(got.as_str());
                            return Err(message);
                        }
                        read.push(copy_texts(cells));
                    },
                }
                i = i + 1;
            }
            Ok(read)
        },
    }
}

} // verus!
