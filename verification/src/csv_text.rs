//! CSV lines, written by the `csv` crate.

use vstd::prelude::*;

verus! {

/// `csv::Error` is carried through without being looked into.
#[verifier::external_type_specification]
#[verifier::external_body]
pub struct ExCsvError(csv::Error);

/// Whether a field has to be quoted: it holds a comma, a quote or a line break.
pub open spec fn needs_quotes(field: Seq<char>) -> bool {
    exists|i: int|
        0 <= i < field.len() && (#[trigger] field[i] == ',' || field[i] == '"' || field[i] == '\n'
            || field[i] == '\r')
}

/// A text with every quote written twice.
pub open spec fn doubled_quotes(field: Seq<char>) -> Seq<char>
    decreases field.len(),
{
    if field.len() == 0 {
        Seq::empty()
    } else if field.last() == '"' {
        doubled_quotes(field.drop_last()).push('"').push('"')
    } else {
        doubled_quotes(field.drop_last()).push(field.last())
    }
}

/// A field as it stands in a line.
pub open spec fn field_text(field: Seq<char>) -> Seq<char> {
    if needs_quotes(field) {
        seq!['"'] + doubled_quotes(field) + seq!['"']
    } else {
        field
    }
}

/// Fields with commas between them.
pub open spec fn joined(fields: Seq<Seq<char>>) -> Seq<char>
    decreases fields.len(),
{
    if fields.len() == 0 {
        Seq::empty()
    } else if fields.len() == 1 {
        field_text(fields[0])
    } else {
        joined(fields.drop_last()).push(',') + field_text(fields.last())
    }
}

/// The line of a record.
pub open spec fn csv_line(fields: Seq<Seq<char>>) -> Seq<char> {
    joined(fields).push('\n')
}

/// The views of a list of texts.
pub open spec fn views(texts: Seq<String>) -> Seq<Seq<char>> {
    texts.map_values(|text: String| text@)
}

/// Writes one record with `csv::Writer::write_record` of a default `csv::WriterBuilder` and
/// gives its line back.
///
/// Claimed of the writer: a record of two or more fields becomes its fields with commas
/// between them and a line feed at the end, where a field that holds a comma, a quote or a
/// line break is put in quotes and its own quotes are doubled. Into memory, and as the
/// first record of a writer, this does not fail.
#[verifier::external_body]
pub(crate) fn csv_record(fields: &Vec<String>) -> (result: Result<String, csv::Error>)
    requires
        fields@.len() >= 2,
    ensures
        result is Ok,
        result->Ok_0@ == csv_line(views(fields@)),
{
    let mut writer = csv::WriterBuilder::new().from_writer(Vec::new());
    writer.write_record(fields)?;
    let bytes = writer.into_inner().map_err(|error| csv::Error::from(error.into_error()))?;
    Ok(String::from_utf8(bytes).expect("a CSV line of texts is a text"))
}

/// The text of a `csv::Error`, as its `Display` gives it. Nothing is claimed of the text.
#[verifier::external_body]
pub(crate) fn csv_error_text(error: &csv::Error) -> String {
    error.to_string()
}

} // verus!
