//! The rules a row must meet to enter a table.
use vstd::prelude::*;
use crate::text::chars_of;

verus! {

/// Why a row does not fit its table.
#[derive(Debug)]
pub enum ValidationError {
    ExpectedString(String),
    ExpectedBoolean(String),
    ExpectedInteger(String),
    ExpectedFloat(String),
    MissingColumn(String),
}

impl ValidationError {
    /// The message of the error, naming the column.
    pub fn message(&self) -> (r: String)
        ensures
            r@ == validation_message(self),
    {
        let (head, column): (&str, &String) = match self {
            ValidationError::ExpectedString(c) => ("Expected a string for column '", c),
            ValidationError::ExpectedBoolean(c) => ("Expected a boolean for column '", c),
            ValidationError::ExpectedInteger(c) => ("Expected an integer for column '", c),
            ValidationError::ExpectedFloat(c) => ("Expected a float for column '", c),
            ValidationError::MissingColumn(c) => ("Missing column '", c),
        };
        let mut out = String::new();
        crate::text::push_text(&mut out, chars_of(head).as_slice());
        crate::text::push_text(&mut out, chars_of(column.as_str()).as_slice());
        crate::text::string_push(&mut out, '\'');
        proof {
            reveal_strlit("Expected a string for column '");
            reveal_strlit("Expected a boolean for column '");
            reveal_strlit("Expected an integer for column '");
            reveal_strlit("Expected a float for column '");
            reveal_strlit("Missing column '");
        }
        out
    }
}

/// The message of a validation error.
pub open spec fn validation_message(e: &ValidationError) -> Seq<char> {
    let (head, column) = match e {
        ValidationError::ExpectedString(c) => ("Expected a string for column '"@, c@),
        ValidationError::ExpectedBoolean(c) => ("Expected a boolean for column '"@, c@),
        ValidationError::ExpectedInteger(c) => ("Expected an integer for column '"@, c@),
        ValidationError::ExpectedFloat(c) => ("Expected a float for column '"@, c@),
        ValidationError::MissingColumn(c) => ("Missing column '"@, c@),
    };
    head + column + seq!['\'']
}

/// The types of a table column, as far as a row check tells them apart.
#[derive(Debug, Clone, Copy, PartialEq, Eq, Structural)]
pub enum ColumnType {
    String,
    Boolean,
    /// Any other type, whose values the check lets through.
    Other,
}

/// A column of a table, as a row check reads it.
#[derive(Debug, Clone)]
pub struct TableColumn {
    pub name: String,
    pub data_type: ColumnType,
    pub required: bool,
}

/// The kinds of JSON value, as far as a row check tells them apart.
#[derive(Debug, Clone, Copy, PartialEq, Eq, Structural)]
pub enum JsonKind {
    String,
    Boolean,
    /// A number, an array, an object or null.
    Other,
}

/// What the row holds under the name of column `k`: `values[k]`, and nothing
/// past the end of `values`.
pub open spec fn value_at(values: Seq<Option<JsonKind>>, k: int) -> Option<JsonKind> {
    if 0 <= k < values.len() {
        values[k]
    } else {
        None
    }
}

/// What checking a row finds from column `i` on, the columns taken in the
/// order given and `value_at(values, k)` being the kind of what the row holds
/// under the name of column `k`. The first
/// column without a value ends the check: with `MissingColumn` if it is
/// required, and with success if not.
pub open spec fn row_check(columns: Seq<TableColumn>, values: Seq<Option<JsonKind>>, i: int) -> Result<(), ValidationError>
    decreases columns.len() - i,
{
    if i < 0 || i >= columns.len() {
        Ok(())
    } else {
        let c = columns[i];
        match value_at(values, i) {
            None => if c.required {
                Err(ValidationError::MissingColumn(c.name))
            } else {
                Ok(())
            },
            Some(kind) => if c.data_type is String && !(kind is String) {
                Err(ValidationError::ExpectedString(c.name))
            } else if c.data_type is Boolean && !(kind is Boolean) {
                Err(ValidationError::ExpectedBoolean(c.name))
            } else {
                row_check(columns, values, i + 1)
            },
        }
    }
}

/// Where every column before `i` holds a value that fits its type, the
/// check of the row comes down to the check from column `i` on.
proof fn lemma_row_check_from(columns: Seq<TableColumn>, values: Seq<Option<JsonKind>>, i: int)
    requires
        0 <= i <= columns.len(),
        forall|j: int|
            0 <= j < i ==> {
                &&& #[trigger] value_at(values, j) is Some
                &&& columns[j].data_type is String ==> value_at(values, j) == Some(JsonKind::String)
                &&& columns[j].data_type is Boolean ==> value_at(values, j) == Some(JsonKind::Boolean)
            },
    ensures
        row_check(columns, values, 0) == row_check(columns, values, i),
    decreases i,
{
    if i > 0 {
        lemma_row_check_from(columns, values, i - 1);
        assert(value_at(values, i - 1) is Some);
    }
}

/// The check of a row stops at the first column whose value does not fit:
/// where every earlier column holds a value of its type, a string column
/// holding anything but a string gives `ExpectedString` with its name, a
/// boolean column holding anything but a boolean gives `ExpectedBoolean`
/// with its name, and a column without a value gives `MissingColumn` with
/// its name if it is required and success if not.
pub proof fn lemma_row_check_first_failure(columns: Seq<TableColumn>, values: Seq<Option<JsonKind>>, i: int)
    requires
        0 <= i < columns.len(),
        forall|j: int|
            0 <= j < i ==> {
                &&& #[trigger] value_at(values, j) is Some
                &&& columns[j].data_type is String ==> value_at(values, j) == Some(JsonKind::String)
                &&& columns[j].data_type is Boolean ==> value_at(values, j) == Some(JsonKind::Boolean)
            },
    ensures
        columns[i].data_type == ColumnType::String && i < values.len() && values[i] is Some && values[i]
            != Some(JsonKind::String) ==> row_check(columns, values, 0) == Err::<(), ValidationError>(
            ValidationError::ExpectedString(columns[i].name),
        ),
        columns[i].data_type == ColumnType::Boolean && i < values.len() && values[i] is Some && values[i]
            != Some(JsonKind::Boolean) ==> row_check(columns, values, 0) == Err::<(), ValidationError>(
            ValidationError::ExpectedBoolean(columns[i].name),
        ),
        (i >= values.len() || values[i] is None) && columns[i].required ==> row_check(columns, values, 0) == Err::<
            (),
            ValidationError,
        >(ValidationError::MissingColumn(columns[i].name)),
        (i >= values.len() || values[i] is None) && !columns[i].required ==> row_check(columns, values, 0) == Ok::<
            (),
            ValidationError,
        >(()),
{
    lemma_row_check_from(columns, values, i);
}

/// A row that passes holds, in every column up to the first one without a
/// value, a value of the column's type: strings in string columns and
/// booleans in boolean columns; and no required column is left without a
/// value before that.
pub proof fn lemma_row_check_passed(columns: Seq<TableColumn>, values: Seq<Option<JsonKind>>, j: int)
    requires
        row_check(columns, values, 0) is Ok,
        0 <= j < columns.len(),
        forall|k: int| 0 <= k < j ==> #[trigger] value_at(values, k) is Some,
    ensures
        columns[j].data_type == ColumnType::String && j < values.len() && values[j] is Some ==> values[j]
            == Some(JsonKind::String),
        columns[j].data_type == ColumnType::Boolean && j < values.len() && values[j] is Some ==> values[j]
            == Some(JsonKind::Boolean),
        columns[j].required ==> j < values.len() && values[j] is Some,
    decreases j,
{
    if j > 0 {
        assert forall|k: int| 0 <= k < j - 1 implies #[trigger] value_at(values, k) is Some by {}
        lemma_row_check_passed(columns, values, j - 1);
    }
    assert forall|k: int|
        0 <= k < j implies {
            &&& #[trigger] value_at(values, k) is Some
            &&& columns[k].data_type is String ==> value_at(values, k) == Some(JsonKind::String)
            &&& columns[k].data_type is Boolean ==> value_at(values, k) == Some(JsonKind::Boolean)
        } by {
        lemma_row_check_passed(columns, values, k);
    }
    lemma_row_check_first_failure(columns, values, j);
}

/// Checks a row against the columns of its table, taken in the order given,
/// where `values[k]` is the kind of what the row holds under the name of
/// column `k`, if it holds anything there (nothing past the end of `values`).
pub fn validate_row_value(columns: &Vec<TableColumn>, values: &Vec<Option<JsonKind>>) -> (r: Result<(), ValidationError>)
    ensures
        r == row_check(columns@, values@, 0),
{
    let mut i: usize = 0;
    while i < columns.len()
        invariant
            i <= columns@.len(),
            row_check(columns@, values@, 0) == row_check(columns@, values@, i as int),
        decreases columns@.len() - i,
    {
        let column = &columns[i];
        let value = if i < values.len() { values[i] } else { None };
        match value {
            None => {
                if column.required {
                    return Err(ValidationError::MissingColumn(column.name.clone()));
                } else {
                    return Ok(());
                }
            },
            Some(kind) => {
                match column.data_type {
                    ColumnType::String => {
                        if kind != JsonKind::String {
                            return Err(ValidationError::ExpectedString(column.name.clone()));
                        }
                    },
                    ColumnType::Boolean => {
                        if kind != JsonKind::Boolean {
                            return Err(ValidationError::ExpectedBoolean(column.name.clone()));
                        }
                    },
                    ColumnType::Other => {},
                }
            },
        }
        i = i + 1;
    }
    Ok(())
}

} // verus!
