//! Comma-separated values: every line is a row, and the commas of a line
//! part its fields.

use crate::data::column::Column;
use crate::data::data_frame::DataFrame;
use crate::types::PipelineError;
use vstd::prelude::*;

verus! {

/// The reader of comma-separated values.
pub struct CsvReader;

/// The place of the first comma in `line` at or behind `from`, or the
/// length of `line` where there is none.
pub open spec fn comma_place(line: Seq<char>, from: int) -> int
    decreases line.len() - from,
{
    if from >= line.len() {
        line.len() as int
    } else if line[from] == ',' {
        from
    } else {
        comma_place(line, from + 1)
    }
}

/// The fields of `line`: what stands before its first comma, and then the
/// fields of what stands behind it. A line without a comma is one field.
pub open spec fn comma_fields(line: Seq<char>) -> Seq<Seq<char>>
    decreases line.len(),
{
    let place = comma_place(line, 0);
    if 0 <= place < line.len() {
        seq![line.take(place)] + comma_fields(line.skip(place + 1))
    } else {
        seq![line]
    }
}

/// Whether `c` is white space as Unicode defines it: the characters with
/// the property `White_Space`.
pub open spec fn is_white_space(c: char) -> bool {
    let code = c as u32;
    ||| 0x09 <= code <= 0x0d
    ||| code == 0x20
    ||| code == 0x85
    ||| code == 0xa0
    ||| code == 0x1680
    ||| 0x2000 <= code <= 0x200a
    ||| code == 0x2028
    ||| code == 0x2029
    ||| code == 0x202f
    ||| code == 0x205f
    ||| code == 0x3000
}

/// `text` without the white space at its start.
pub open spec fn trimmed_start(text: Seq<char>) -> Seq<char>
    decreases text.len(),
{
    if text.len() > 0 && is_white_space(text[0]) {
        trimmed_start(text.drop_first())
    } else {
        text
    }
}

/// `text` without the white space at its end.
pub open spec fn trimmed_end(text: Seq<char>) -> Seq<char>
    decreases text.len(),
{
    if text.len() > 0 && is_white_space(text.last()) {
        trimmed_end(text.drop_last())
    } else {
        text
    }
}

/// `text` without the white space at its start and at its end.
pub open spec fn trimmed(text: Seq<char>) -> Seq<char> {
    trimmed_end(trimmed_start(text))
}

/// The texts as sequences of characters.
pub open spec fn texts_view(texts: Seq<String>) -> Seq<Seq<char>> {
    texts.map_values(|text: String| text@)
}

/// Calls `str::split` with a comma and collects the parts as owned texts:
/// the parts are the fields of the line, in order.
#[verifier::external_body]
fn split_commas(line: &str) -> (fields: Vec<String>)
    ensures
        texts_view(fields@) == comma_fields(line@),
{
    line.split(',').map(String::from).collect()
}

/// Calls `str::trim`, which returns the text without the white space, as
/// Unicode defines it, at its start and at its end.
#[verifier::external_body]
fn trim(text: &str) -> (rest: String)
    ensures
        rest@ == trimmed(text@),
{
    text.trim().to_owned()
}

/// What a field is read as: the field without the white space around it,
/// or nothing where that is one of the texts that stand for a missing value.
pub open spec fn entry_of(field: Seq<char>, missing_values: Seq<Seq<char>>) -> Option<Seq<char>> {
    if missing_values.contains(trimmed(field)) {
        None
    } else {
        Some(trimmed(field))
    }
}

/// The entries of column `c` in the lines from `from` up to `upto`: of
/// every line that has a field `c`, what that field is read as.
pub open spec fn column_entries(
    lines: Seq<Seq<char>>,
    missing_values: Seq<Seq<char>>,
    c: int,
    from: int,
    upto: int,
) -> Seq<Option<Seq<char>>>
    decreases upto - from,
{
    if upto <= from {
        Seq::empty()
    } else if c < comma_fields(lines[upto - 1]).len() {
        column_entries(lines, missing_values, c, from, upto - 1).push(
            entry_of(comma_fields(lines[upto - 1])[c], missing_values),
        )
    } else {
        column_entries(lines, missing_values, c, from, upto - 1)
    }
}

/// The values of a column as sequences of characters.
pub open spec fn entries_view(values: Seq<Option<String>>) -> Seq<Option<Seq<char>>> {
    values.map_values(
        |value: Option<String>|
            match value {
                Some(text) => Some(text@),
                None => None,
            },
    )
}

/// Whether `table` is what the lines are read as: one column for every
/// field of the first line; with headers, the fields of the first line,
/// without the white space around them, head the columns and the rows start
/// with the second line; without, the rows start with the first.
pub open spec fn is_table_of(
    table: Seq<Column<Option<String>>>,
    lines: Seq<Seq<char>>,
    missing_values: Seq<Seq<char>>,
    headers: bool,
) -> bool {
    let first = comma_fields(lines[0]);
    let start = if headers {
        1int
    } else {
        0int
    };
    &&& table.len() == first.len()
    &&& forall|c: int|
        0 <= c < table.len() ==> entries_view((#[trigger] table[c])@) == column_entries(
            lines,
            missing_values,
            c,
            start,
            lines.len() as int,
        ) && table[c].metadata_view() is None && table[c].name_view() == if headers {
            Some(trimmed(first[c]))
        } else {
            None
        }
}

/// Whether `text` is one of `texts`.
pub fn is_among(texts: &[String], text: &String) -> (found: bool)
    ensures
        found == texts_view(texts@).contains(text@),
{
    let mut at: usize = 0;
    while at < texts.len()
        invariant
            at <= texts@.len(),
            forall|j: int| 0 <= j < at ==> texts_view(texts@)[j] != text@,
        decreases texts@.len() - at,
    {
        assert(texts_view(texts@)[at as int] == texts@[at as int]@);
        if texts[at] == *text {
            return true;
        }
        at = at + 1;
    }
    false
}

impl CsvReader {
    /// Reads the lines of a file of comma-separated values as a table.
    ///
    /// Without a first line there is nothing to read (`EmptyInput`).
    pub fn parse(lines: &Vec<String>, missing_values: &[String], headers: bool) -> (table: Result<
        DataFrame<Option<String>>,
        PipelineError,
    >)
        ensures
            lines@.len() == 0 ==> (table matches Err(error) && error == PipelineError::EmptyInput),
            lines@.len() > 0 ==> table is Ok && is_table_of(
                table.unwrap()@,
                texts_view(lines@),
                texts_view(missing_values@),
                headers,
            ),
    {
        if lines.len() == 0 {
            return Err(PipelineError::EmptyInput);
        }
        let ghost all = texts_view(lines@);
        let ghost missing = texts_view(missing_values@);
        let first_fields = split_commas(lines[0].as_str());
        proof {
            assert(all[0] == lines@[0]@);
            assert(texts_view(first_fields@).len() == first_fields@.len());
        }
        let start: usize = if headers {
            1
        } else {
            0
        };
        let mut columns: Vec<Column<Option<String>>> = Vec::new();
        let mut c: usize = 0;
        while c < first_fields.len()
            invariant
                c <= first_fields@.len(),
                texts_view(first_fields@) == comma_fields(all[0]),
                columns@.len() == c,
                forall|b: int|
                    0 <= b < c ==> (#[trigger] columns@[b])@.len() == 0 && columns@[b].metadata_view() is None
                        && columns@[b].name_view() == if headers {
                        Some(trimmed(comma_fields(all[0])[b]))
                    } else {
                        None
                    },
            decreases first_fields@.len() - c,
        {
            let mut column: Column<Option<String>> = Column::new();
            if headers {
                assert(texts_view(first_fields@)[c as int] == first_fields@[c as int]@);
                column.set_name(trim(first_fields[c].as_str()));
            }
            columns.push(column);
            c = c + 1;
        }
        let mut row: usize = start;
        proof {
            assert forall|b: int| 0 <= b < columns@.len() implies entries_view((#[trigger] columns@[b])@)
                == column_entries(all, missing, b, start as int, row as int) by {
                assert(entries_view(columns@[b]@) =~= Seq::empty());
            }
        }
        while row < lines.len()
            invariant
                start <= row <= lines@.len(),
                all == texts_view(lines@),
                missing == texts_view(missing_values@),
                columns@.len() == comma_fields(all[0]).len(),
                forall|b: int|
                    0 <= b < columns@.len() ==> entries_view((#[trigger] columns@[b])@) == column_entries(
                        all,
                        missing,
                        b,
                        start as int,
                        row as int,
                    ) && columns@[b].metadata_view() is None && columns@[b].name_view() == if headers {
                        Some(trimmed(comma_fields(all[0])[b]))
                    } else {
                        None
                    },
            decreases lines@.len() - row,
        {
            let fields = split_commas(lines[row].as_str());
            proof {
                assert(all[row as int] == lines@[row as int]@);
                assert(texts_view(fields@).len() == fields@.len());
            }
            let ghost before = columns@;
            let mut b: usize = 0;
            while b < columns.len() && b < fields.len()
                invariant
                    b <= columns@.len(),
                    b <= fields@.len(),
                    columns@.len() == before.len(),
                    texts_view(fields@) == comma_fields(all[row as int]),
                    missing == texts_view(missing_values@),
                    forall|a: int|
                        0 <= a < b ==> entries_view((#[trigger] columns@[a])@) == entries_view(before[a]@).push(
                            entry_of(comma_fields(all[row as int])[a], missing),
                        ) && columns@[a].same_labels(&before[a]),
                    forall|a: int| b <= a < columns@.len() ==> columns@[a] == before[a],
                decreases columns@.len() - b,
            {
                let entry = trim(fields[b].as_str());
                proof {
                    assert(texts_view(fields@)[b as int] == fields@[b as int]@);
                }
                let ghost held = columns@[b as int]@;
                if is_among(missing_values, &entry) {
                    columns[b].push(None);
                    proof {
                        assert(entries_view(columns@[b as int]@) =~= entries_view(held).push(None));
                    }
                } else {
                    columns[b].push(Some(entry));
                    proof {
                        assert(entries_view(columns@[b as int]@) =~= entries_view(held).push(Some(entry@)));
                    }
                }
                b = b + 1;
            }
            proof {
                assert forall|a: int| 0 <= a < columns@.len() implies entries_view((#[trigger] columns@[a])@)
                    == column_entries(all, missing, a, start as int, row + 1) && columns@[a].metadata_view() is None
                    && columns@[a].name_view() == if headers {
                    Some(trimmed(comma_fields(all[0])[a]))
                } else {
                    None
                } by {
                    assert(entries_view(before[a]@) == column_entries(all, missing, a, start as int, row as int));
                    if a < b {
                        assert(columns@[a].same_labels(&before[a]));
                    } else {
                        assert(columns@[a] == before[a]);
                    }
                }
            }
            row = row + 1;
        }
        let mut ret: DataFrame<Option<String>> = DataFrame::new();
        let mut columns = columns;
        let ghost filled = columns@;
        let width = columns.len();
        let mut taken: usize = 0;
        while taken < width
            invariant
                taken <= width,
                width == filled.len(),
                columns@ == filled.skip(taken as int),
                ret@ == filled.take(taken as int),
            decreases width - taken,
        {
            let column = columns.remove(0);
            ret.add_column(column);
            taken = taken + 1;
            proof {
                assert(columns@ =~= filled.skip(taken as int));
                assert(ret@ =~= filled.take(taken as int));
            }
        }
        proof {
            assert(filled.take(width as int) == filled);
        }
        Ok(ret)
    }
}

} // verus!
