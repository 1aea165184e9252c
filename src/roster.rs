//! The record loaders: a roster text read as keyed rows (against a header
//! row) or as positional rows (after a fixed header line).

use vstd::prelude::*;
use crate::record::Record;
use crate::text::{chars_of, string_of};

verus! {

#[verifier::external_type_specification]
#[verifier::external_body]
pub struct ExCsvError(csv::Error);

/// Why a roster could not be read.
#[derive(Debug, PartialEq, Eq, Structural)]
pub enum RosterError {
    /// The fixed header line of the positional form is absent or differs.
    InvalidHeader,
    /// Data record `record` (0-based, after the header) has another number
    /// of fields than the header.
    MalformedInput { record: usize },
    /// The delimited text could not be split into rows.
    Unparsable,
}

/// The rows and fields of a delimited text, as the CSV reader splits them.
pub uninterp spec fn csv_rows_of(text: Seq<char>) -> Option<Seq<Seq<Seq<char>>>>;

/// Rows of fields, viewed.
pub open spec fn rows_view(rows: Seq<Vec<String>>) -> Seq<Seq<Seq<char>>> {
    rows.map_values(|r: Vec<String>| r@.map_values(|f: String| f@))
}

/// Relies on csv's `ReaderBuilder` (with `has_headers(false)` and
/// `flexible(true)`), `Reader::records` and `StringRecord::iter`: the text is
/// split into rows of fields, and whether that fails depends on the text alone.
#[verifier::external_body]
fn read_csv_rows(text: &str) -> (r: Result<Vec<Vec<String>>, csv::Error>)
    ensures
        match r {
            Ok(rows) => csv_rows_of(text@) == Some(rows_view(rows@)),
            Err(_) => csv_rows_of(text@) is None,
        },
{
    let mut reader = csv::ReaderBuilder::new().has_headers(false).flexible(true).from_reader(
        text.as_bytes(),
    );
    let mut rows = Vec::new();
    for record in reader.records() {
        rows.push(record?.iter().map(|f| f.to_string()).collect());
    }
    Ok(rows)
}

/// A keyed record's fields, viewed.
pub open spec fn fields_view(fields: Seq<(String, String)>) -> Seq<(Seq<char>, Seq<char>)> {
    fields.map_values(|f: (String, String)| (f.0@, f.1@))
}

/// The fields of a data row paired with the header's names.
pub open spec fn keyed_fields(header: Seq<Seq<char>>, row: Seq<Seq<char>>) -> Seq<
    (Seq<char>, Seq<char>),
> {
    Seq::new(header.len(), |c: int| (header[c], row[c]))
}

/// Data row `j` (1-based among all rows) has as many fields as the header.
pub open spec fn row_fits(rows: Seq<Seq<Seq<char>>>, j: int) -> bool {
    rows[j].len() == rows[0].len()
}

/// `r` is the keyed record of data row `row` under `header`.
pub open spec fn is_keyed_row(r: Record, header: Seq<Seq<char>>, row: Seq<Seq<char>>) -> bool {
    r matches Record::Keyed { fields } && fields_view(fields@) == keyed_fields(header, row)
}

fn pair_with_header(header: &Vec<String>, row: &Vec<String>) -> (fields: Vec<(String, String)>)
    requires
        row@.len() == header@.len(),
    ensures
        fields_view(fields@) == keyed_fields(
            header@.map_values(|f: String| f@),
            row@.map_values(|f: String| f@),
        ),
{
    let mut fields: Vec<(String, String)> = Vec::new();
    let mut c: usize = 0;
    while c < header.len()
        invariant
            c <= header@.len(),
            row@.len() == header@.len(),
            fields@.len() == c,
            forall|m: int|
                0 <= m < c ==> (#[trigger] fields@[m]).0@ == header@[m]@ && fields@[m].1@
                    == row@[m]@,
        decreases header@.len() - c,
    {
        let ghost before = fields@;
        let h = header[c].clone();
        let v = row[c].clone();
        fields.push((h, v));
        assert(fields@ == before.push((h, v)));
        c = c + 1;
    }
    assert(fields_view(fields@) =~= keyed_fields(
        header@.map_values(|f: String| f@),
        row@.map_values(|f: String| f@),
    ));
    fields
}

/// A loader's result, viewed.
pub open spec fn records_result(r: Result<Vec<Record>, RosterError>) -> Result<
    Seq<Record>,
    RosterError,
> {
    match r {
        Ok(v) => Ok(v@),
        Err(e) => Err(e),
    }
}

/// `res` is what pairing delimited rows with their header row gives: an
/// error at the first data row whose number of fields differs from the
/// header's, else one keyed record per data row. No rows give no records.
pub open spec fn rows_outcome(rows: Seq<Seq<Seq<char>>>, res: Result<Seq<Record>, RosterError>) -> bool {
    &&& res is Ok <==> forall|j: int| 1 <= j < rows.len() ==> row_fits(rows, j)
    &&& res is Err ==> (res matches Err(RosterError::MalformedInput { .. }))
    &&& (res matches Err(RosterError::MalformedInput { record }) ==> {
        &&& record + 1 < rows.len()
        &&& !row_fits(rows, record + 1)
        &&& forall|j: int| 1 <= j <= record ==> row_fits(rows, j)
    })
    &&& (res matches Ok(recs) ==> {
        &&& recs.len() == if rows.len() == 0 {
            0
        } else {
            rows.len() - 1
        }
        &&& forall|i: int|
            0 <= i < recs.len() ==> is_keyed_row(#[trigger] recs[i], rows[0], rows[i + 1])
    })
}

/// `res` is what reading `text` as a keyed roster gives: an error when the
/// text cannot be split into rows, else what its rows give.
pub open spec fn keyed_outcome(text: Seq<char>, res: Result<Seq<Record>, RosterError>) -> bool {
    match csv_rows_of(text) {
        None => res == Err::<Seq<Record>, RosterError>(RosterError::Unparsable),
        Some(rows) => rows_outcome(rows, res),
    }
}

/// The text begins with the positional header line.
pub open spec fn has_positional_header(text: Seq<char>) -> bool {
    lines_of(text).len() > 0 && lines_of(text)[0] == positional_header()
}

/// `res` is what reading `text` as a positional roster gives: an error when
/// the header line is absent or differs, else one positional record per
/// later line.
pub open spec fn positional_outcome(text: Seq<char>, res: Result<Seq<Record>, RosterError>) -> bool {
    &&& !has_positional_header(text) <==> res is Err
    &&& res is Err ==> res == Err::<Seq<Record>, RosterError>(RosterError::InvalidHeader)
    &&& res matches Ok(recs) ==> {
        &&& recs.len() == lines_of(text).len() - 1
        &&& forall|i: int|
            0 <= i < recs.len() ==> is_positional_line(#[trigger] recs[i], lines_of(text)[i + 1])
    }
}

/// The two forms a roster can take.
#[derive(Debug, Clone, Copy, PartialEq, Eq, Structural)]
pub enum RosterForm {
    /// A header row names the fields (`Player1` .. `Player4`, `Pair No1`, `Pair No2`).
    Keyed,
    /// A fixed header line, then four names by position on each line.
    Positional,
}

/// The form of a roster: positional when its first line is the positional
/// header, keyed otherwise.
pub fn detect_form(text: &str) -> (f: RosterForm)
    ensures
        f == (if has_positional_header(text@) {
            RosterForm::Positional
        } else {
            RosterForm::Keyed
        }),
{
    let t = chars_of(text);
    let ls = lines(&t);
    let header = chars_of("player1,player2,player3,player4");
    if ls.len() > 0 && same_chars(&ls[0], &header) {
        RosterForm::Positional
    } else {
        RosterForm::Keyed
    }
}

/// Reads a delimited roster whose first row names the fields: each later
/// row becomes a keyed record pairing the header's names with its values.
/// A row with another number of fields than the header is refused; a text
/// without rows gives no records.
pub fn load_keyed(text: &str) -> (r: Result<Vec<Record>, RosterError>)
    ensures
        keyed_outcome(text@, records_result(r)),
{
    match read_csv_rows(text) {
        Ok(rows) => keyed_records(&rows),
        Err(_) => Err(RosterError::Unparsable),
    }
}

/// Pairs delimited rows with their first row, the header: each later row
/// becomes a keyed record. A row with another number of fields than the
/// header is refused; no rows give no records.
pub fn keyed_records(rows: &Vec<Vec<String>>) -> (r: Result<Vec<Record>, RosterError>)
    ensures
        rows_outcome(rows_view(rows@), records_result(r)),
{
    let ghost rv = rows_view(rows@);
    let mut recs: Vec<Record> = Vec::new();
    if rows.len() == 0 {
        return Ok(recs);
    }
    let header = &rows[0];
    let mut j: usize = 1;
    while j < rows.len()
        invariant
            1 <= j <= rows@.len(),
            rv == rows_view(rows@),
            *header == rows@[0],
            recs@.len() == j - 1,
            forall|k: int| 1 <= k < j ==> row_fits(rv, k),
            forall|i: int| 0 <= i < recs@.len() ==> is_keyed_row(#[trigger] recs@[i], rv[0], rv[i + 1]),
        decreases rows@.len() - j,
    {
        if rows[j].len() != header.len() {
            assert(!row_fits(rv, j as int));
            return Err(RosterError::MalformedInput { record: j - 1 });
        }
        let fields = pair_with_header(header, &rows[j]);
        assert(rv[j as int] == rows@[j as int]@.map_values(|f: String| f@));
        assert(rv[0] == header@.map_values(|f: String| f@));
        recs.push(Record::Keyed { fields });
        j = j + 1;
    }
    Ok(recs)
}

/// `s` cut at every `d`; `d` itself is dropped. There is always at least one piece.
pub open spec fn split_on(s: Seq<char>, d: char) -> Seq<Seq<char>>
    decreases s.len(),
{
    if s.len() == 0 {
        seq![Seq::empty()]
    } else {
        let rest = split_on(s.drop_last(), d);
        if s.last() == d {
            rest.push(Seq::empty())
        } else {
            rest.update(rest.len() - 1, rest.last().push(s.last()))
        }
    }
}

proof fn lemma_split_nonempty(s: Seq<char>, d: char)
    ensures
        split_on(s, d).len() >= 1,
    decreases s.len(),
{
    if s.len() > 0 {
        lemma_split_nonempty(s.drop_last(), d);
    }
}

/// Pieces of characters, viewed.
pub open spec fn pieces_view(ps: Seq<Vec<char>>) -> Seq<Seq<char>> {
    ps.map_values(|p: Vec<char>| p@)
}

/// Cuts `s` at every `d`.
pub fn split_chars(s: &Vec<char>, d: char) -> (r: Vec<Vec<char>>)
    ensures
        pieces_view(r@) == split_on(s@, d),
{
    let mut parts: Vec<Vec<char>> = Vec::new();
    let mut cur: Vec<char> = Vec::new();
    let mut i: usize = 0;
    assert(s@.subrange(0, 0) =~= Seq::<char>::empty());
    assert(pieces_view(parts@).push(cur@) =~= seq![Seq::<char>::empty()]);
    while i < s.len()
        invariant
            i <= s@.len(),
            pieces_view(parts@).push(cur@) == split_on(s@.subrange(0, i as int), d),
        decreases s@.len() - i,
    {
        let ghost before = pieces_view(parts@);
        let ghost cur0 = cur@;
        assert(s@.subrange(0, i + 1).drop_last() =~= s@.subrange(0, i as int));
        if s[i] == d {
            parts.push(cur);
            cur = Vec::new();
            assert(pieces_view(parts@) =~= before.push(cur0));
            assert(pieces_view(parts@).push(cur@) =~= before.push(cur0).push(Seq::empty()));
        } else {
            cur.push(s[i]);
            assert(pieces_view(parts@).push(cur@) =~= before.push(cur0).update(
                before.len() as int,
                cur0.push(s@[i as int]),
            ));
        }
        i = i + 1;
    }
    assert(s@.subrange(0, i as int) =~= s@);
    parts.push(cur);
    parts
}

/// A line without its trailing carriage return, if it has one.
pub open spec fn strip_cr(l: Seq<char>) -> Seq<char> {
    if l.len() > 0 && l.last() == '\r' {
        l.drop_last()
    } else {
        l
    }
}

/// The lines of `s`: cut at each newline, a trailing carriage return
/// dropped from each, and no empty last line after a final newline.
pub open spec fn lines_of(s: Seq<char>) -> Seq<Seq<char>> {
    let parts = split_on(s, '\n');
    let kept = if parts.last().len() == 0 {
        parts.drop_last()
    } else {
        parts
    };
    kept.map_values(|l: Seq<char>| strip_cr(l))
}

/// The header line that the positional form must begin with.
pub open spec fn positional_header() -> Seq<char> {
    "player1,player2,player3,player4"@
}

/// `r` is the positional record of `line`: its fields cut at each comma.
pub open spec fn is_positional_line(r: Record, line: Seq<char>) -> bool {
    r matches Record::Positional { names } && names@.map_values(|n: String| n@) == split_on(
        line,
        ',',
    )
}

fn lines(s: &Vec<char>) -> (r: Vec<Vec<char>>)
    ensures
        pieces_view(r@) == lines_of(s@),
{
    let mut parts = split_chars(s, '\n');
    proof {
        lemma_split_nonempty(s@, '\n');
    }
    let ghost all = split_on(s@, '\n');
    if parts[parts.len() - 1].len() == 0 {
        parts.pop();
        assert(pieces_view(parts@) =~= all.drop_last());
    }
    let ghost kept = pieces_view(parts@);
    let mut out: Vec<Vec<char>> = Vec::new();
    let mut i: usize = 0;
    while i < parts.len()
        invariant
            i <= parts@.len(),
            kept == pieces_view(parts@),
            out@.len() == i,
            forall|m: int| 0 <= m < i ==> (#[trigger] out@[m])@ == strip_cr(kept[m]),
        decreases parts@.len() - i,
    {
        let mut l = parts[i].clone();
        assert(l@ == parts@[i as int]@);
        let n = l.len();
        if n > 0 && l[n - 1] == '\r' {
            l.pop();
        }
        assert(l@ =~= strip_cr(kept[i as int]));
        let ghost before = out@;
        out.push(l);
        assert(out@ == before.push(l));
        i = i + 1;
    }
    assert(pieces_view(out@) =~= kept.map_values(|l: Seq<char>| strip_cr(l)));
    out
}

fn same_chars(a: &Vec<char>, b: &Vec<char>) -> (r: bool)
    ensures
        r == (a@ == b@),
{
    if a.len() != b.len() {
        return false;
    }
    let mut i: usize = 0;
    while i < a.len()
        invariant
            i <= a@.len(),
            a@.len() == b@.len(),
            forall|k: int| 0 <= k < i ==> a@[k] == b@[k],
        decreases a@.len() - i,
    {
        if a[i] != b[i] {
            return false;
        }
        i = i + 1;
    }
    assert(a@ =~= b@);
    true
}

fn positional_record(line: &Vec<char>) -> (r: Record)
    ensures
        is_positional_line(r, line@),
{
    let pieces = split_chars(line, ',');
    let mut names: Vec<String> = Vec::new();
    let mut k: usize = 0;
    while k < pieces.len()
        invariant
            k <= pieces@.len(),
            names@.len() == k,
            forall|m: int| 0 <= m < k ==> (#[trigger] names@[m])@ == pieces@[m]@,
        decreases pieces@.len() - k,
    {
        let ghost before = names@;
        let name = string_of(&pieces[k]);
        names.push(name);
        assert(names@ == before.push(name));
        k = k + 1;
    }
    assert(names@.map_values(|n: String| n@) =~= pieces_view(pieces@));
    Record::Positional { names }
}

/// Reads a roster whose first line is exactly `player1,player2,player3,player4`:
/// each later line becomes a positional record of its comma-separated
/// fields, whatever their number.
pub fn load_positional(text: &str) -> (r: Result<Vec<Record>, RosterError>)
    ensures
        positional_outcome(text@, records_result(r)),
{
    let t = chars_of(text);
    let ls = lines(&t);
    let header = chars_of("player1,player2,player3,player4");
    if ls.len() == 0 || !same_chars(&ls[0], &header) {
        return Err(RosterError::InvalidHeader);
    }
    let mut recs: Vec<Record> = Vec::new();
    let mut i: usize = 1;
    while i < ls.len()
        invariant
            1 <= i <= ls@.len(),
            pieces_view(ls@) == lines_of(text@),
            recs@.len() == i - 1,
            forall|k: int|
                0 <= k < recs@.len() ==> is_positional_line(#[trigger] recs@[k], lines_of(text@)[k + 1]),
        decreases ls@.len() - i,
    {
        recs.push(positional_record(&ls[i]));
        i = i + 1;
    }
    Ok(recs)
}

} // verus!
