//! Comma-separated values: how a record is written, and what a file reads as.

use vstd::prelude::*;
use vstd::utf8::encode_utf8;

verus! {

/// Whether a character makes a field stand in quotes.
pub open spec fn is_special(c: char) -> bool {
    c == ',' || c == '"' || c == '\r' || c == '\n'
}

/// Whether a field stands in quotes.
pub open spec fn needs_quotes(field: Seq<char>) -> bool {
    exists|i: int| 0 <= i < field.len() && is_special(#[trigger] field[i])
}

/// A text with each quote doubled.
pub open spec fn with_quotes_doubled(field: Seq<char>) -> Seq<char>
    decreases field.len(),
{
    if field.len() == 0 {
        seq![]
    } else {
        let rest = with_quotes_doubled(field.drop_last());
        if field.last() == '"' {
            rest + seq!['"', '"']
        } else {
            rest.push(field.last())
        }
    }
}

/// A field as it is written: in quotes where it holds a comma, a quote or a line end, with
/// its own quotes doubled.
pub open spec fn csv_field(field: Seq<char>) -> Seq<char> {
    if needs_quotes(field) {
        seq!['"'] + with_quotes_doubled(field) + seq!['"']
    } else {
        field
    }
}

/// Fields with commas between them.
pub open spec fn csv_fields(fields: Seq<Seq<char>>) -> Seq<char>
    decreases fields.len(),
{
    if fields.len() == 0 {
        seq![]
    } else if fields.len() == 1 {
        csv_field(fields[0])
    } else {
        csv_fields(fields.drop_last()).push(',') + csv_field(fields.last())
    }
}

/// A record of several fields as it is written.
pub open spec fn csv_line(fields: Seq<Seq<char>>) -> Seq<char> {
    csv_fields(fields).push('\n')
}

/// Records as they are written.
pub open spec fn csv_text(records: Seq<Seq<Seq<char>>>) -> Seq<char>
    decreases records.len(),
{
    if records.len() == 0 {
        seq![]
    } else {
        csv_text(records.drop_last()) + csv_line(records.last())
    }
}

/// The fields of a record, by value.
pub open spec fn fields_view(fields: Seq<String>) -> Seq<Seq<char>> {
    Seq::new(fields.len(), |i: int| fields[i]@)
}

/// `csv::Writer::write_record` of a writer with the default settings: the fields with
/// commas between them and a line feed behind them. A field stands in quotes where it
/// holds a comma, a quote, a carriage return or a line feed, and its quotes are doubled.
/// Records of fewer than two fields are left out.
#[verifier::external_body]
pub(crate) fn write_record(fields: &Vec<String>) -> (r: String)
    requires
        fields@.len() >= 2,
    ensures
        r@ == csv_line(fields_view(fields@)),
{
    let mut writer = csv::Writer::from_writer(Vec::new());
    writer.write_record(fields).expect("a first record has no other length to differ from");
    let bytes = writer.into_inner().expect("a vector takes all bytes");
    String::from_utf8(bytes).expect("text between ASCII marks is text")
}

/// Whether records make up a table: a header and rows with as many fields, two or more.
pub open spec fn is_table(records: Seq<Seq<Seq<char>>>) -> bool {
    &&& records.len() > 0
    &&& forall|i: int|
        0 <= i < records.len() ==> (#[trigger] records[i]).len() == records[0].len()
            && records[i].len() >= 2
}

/// Records as they are read, by value.
pub open spec fn records_view(records: Seq<Option<Vec<String>>>) -> Seq<Option<Seq<Seq<char>>>> {
    Seq::new(
        records.len(),
        |i: int|
            match records[i] {
                Some(fields) => Some(fields_view(fields@)),
                None => None,
            },
    )
}

/// What a reader makes of a file: its records behind the header, with none in the place of
/// one that cannot be read.
pub uninterp spec fn csv_records(content: Seq<u8>) -> Seq<Option<Seq<Seq<char>>>>;

/// `csv::Reader::records` of a reader with the default settings: the records behind the
/// header, with none in the place of one that is not text or has another number of fields
/// than the header. What it gives depends on the content alone and is named. It is also
/// said that a table is read as it was written, where it does not start with a byte order
/// mark.
#[verifier::external_body]
pub(crate) fn read_records(content: &[u8]) -> (r: Vec<Option<Vec<String>>>)
    ensures
        records_view(r@) == csv_records(content@),
        forall|table: Seq<Seq<Seq<char>>>|
            is_table(table) && !starts_with_mark(table) && content@ == encode_utf8(
                #[trigger] csv_text(table),
            ) ==> records_view(r@) == rows_read(table),
{
    let mut reader = csv::Reader::from_reader(content);
    reader
        .records()
        .map(|record| record.ok().map(|fields| fields.iter().map(|f| f.to_owned()).collect()))
        .collect()
}

/// Whether a table starts with a byte order mark.
pub open spec fn starts_with_mark(table: Seq<Seq<Seq<char>>>) -> bool {
    table[0][0].len() > 0 && table[0][0][0] == '\u{feff}'
}

/// The rows of a table behind its header, as they are read.
pub open spec fn rows_read(table: Seq<Seq<Seq<char>>>) -> Seq<Option<Seq<Seq<char>>>> {
    Seq::new((table.len() - 1) as nat, |i: int| Some(table[i + 1]))
}

} // verus!
