use vstd::prelude::*;
use vstd::utf8::encode_utf8;
use crate::board::{Grid, UNKNOWN};

verus! {

/// The cell that a field of the input stands for, by its first byte: a digit
/// from 1 to 9 stands for itself; anything else, `?` among it, for `UNKNOWN`.
pub open spec fn cell_from_byte(b: u8) -> u8 {
    if b == ('?' as u8) || b < ('1' as u8) || b > ('9' as u8) {
        UNKNOWN
    } else {
        (b - ('0' as u8)) as u8
    }
}

/// The first byte of the UTF-8 text of `s`.
pub open spec fn first_byte(s: Seq<char>) -> u8 {
    encode_utf8(s)[0]
}

/// A character with the Unicode property White_Space, as `char::is_whitespace`
/// documents it.
pub open spec fn is_white_space(c: char) -> bool {
    let v = c as u32;
    ||| 0x09 <= v <= 0x0D
    ||| v == 0x20
    ||| v == 0x85
    ||| v == 0xA0
    ||| v == 0x1680
    ||| 0x2000 <= v <= 0x200A
    ||| v == 0x2028
    ||| v == 0x2029
    ||| v == 0x202F
    ||| v == 0x205F
    ||| v == 0x3000
}

/// The pieces of `s` that whitespace separates, in order: its maximal runs of
/// characters that are not whitespace.
pub open spec fn whitespace_split(s: Seq<char>) -> Seq<Seq<char>>
    decreases s.len(),
{
    if s.len() == 0 {
        Seq::empty()
    } else {
        let prev = whitespace_split(s.drop_last());
        let c = s.last();
        if is_white_space(c) {
            prev
        } else if s.len() >= 2 && !is_white_space(s[s.len() - 2]) {
            prev.update(prev.len() - 1, prev.last().push(c))
        } else {
            prev.push(seq![c])
        }
    }
}

/// No piece is empty, and a text that ends in a character other than
/// whitespace has a piece.
pub proof fn lemma_whitespace_pieces_nonempty(s: Seq<char>)
    ensures
        forall|i: int| 0 <= i < whitespace_split(s).len() ==> (#[trigger] whitespace_split(s)[i]).len() > 0,
        s.len() > 0 && !is_white_space(s.last()) ==> whitespace_split(s).len() > 0,
    decreases s.len(),
{
    if s.len() > 0 {
        let p = s.drop_last();
        lemma_whitespace_pieces_nonempty(p);
        let prev = whitespace_split(p);
        let c = s.last();
        if s.len() >= 2 {
            assert(p.last() == s[s.len() - 2]);
        }
        if !is_white_space(c) {
            if s.len() >= 2 && !is_white_space(s[s.len() - 2]) {
                assert(prev.len() > 0);
                let w = prev.update(prev.len() - 1, prev.last().push(c));
                assert(whitespace_split(s) == w);
                assert forall|i: int| 0 <= i < w.len() implies (#[trigger] w[i]).len() > 0 by {
                    if i < prev.len() - 1 {
                        assert(w[i] == prev[i]);
                    }
                }
            } else {
                let w = prev.push(seq![c]);
                assert(whitespace_split(s) == w);
                assert forall|i: int| 0 <= i < w.len() implies (#[trigger] w[i]).len() > 0 by {
                    if i < prev.len() {
                        assert(w[i] == prev[i]);
                    }
                }
            }
        }
    }
}

/// The texts of `v`.
pub open spec fn texts(v: Seq<String>) -> Seq<Seq<char>> {
    v.map_values(|t: String| t@)
}

/// The cell texts of one input line given as its fields: the nine fields of a
/// comma-separated line, else the whitespace-separated pieces of its first field.
pub open spec fn record_token_texts(rec: Seq<Seq<char>>) -> Seq<Seq<char>> {
    if rec.len() == 9 {
        rec
    } else {
        whitespace_split(rec[0])
    }
}

/// The row of cells that one input line stands for, one cell per cell text.
pub open spec fn record_cells(rec: Seq<Seq<char>>) -> Seq<u8> {
    let toks = record_token_texts(rec);
    Seq::new(toks.len(), |i: int| cell_from_byte(first_byte(toks[i])))
}

/// An input line that the reader accepts: it has a field, and if it has nine,
/// none of them is empty.
pub open spec fn record_ok(rec: Seq<Seq<char>>) -> bool {
    &&& rec.len() >= 1
    &&& rec.len() == 9 ==> forall|i: int| 0 <= i < 9 ==> (#[trigger] rec[i]).len() > 0
}

/// The records of a CSV text, each a sequence of fields, as the `csv` crate
/// reads them with no header line, `#` starting a comment line, and the
/// whitespace around each field trimmed; `None` where the reader fails (such as
/// on two lines with different numbers of fields, or on text that is not UTF-8).
pub uninterp spec fn csv_records(text: Seq<u8>) -> Option<Seq<Seq<Seq<char>>>>;

/// Reads the records of `text` with `csv::ReaderBuilder` (no header line,
/// comment byte `#`, `Trim::All`) and keeps each field as an owned string. Its
/// contract names what the reader gives `csv_records` of the bytes: `None`
/// exactly when reading a record fails, else the fields of every record.
#[verifier::external_body]
fn read_csv_records(text: &[u8]) -> (records: Option<Vec<Vec<String>>>)
    ensures
        records is Some <==> csv_records(text@) is Some,
        records matches Some(rs) ==> rs@.len() == csv_records(text@)->0.len() && forall|i: int|
            0 <= i < rs@.len() ==> texts((#[trigger] rs@[i])@) == csv_records(text@)->0[i],
{
    let mut reader = csv::ReaderBuilder::new()
        .has_headers(false)
        .comment(Some(b'#'))
        .trim(csv::Trim::All)
        .from_reader(text);
    reader
        .records()
        .map(|r| r.map(|rec| rec.iter().map(|f| f.to_string()).collect()))
        .collect::<Result<Vec<Vec<String>>, csv::Error>>()
        .ok()
}

/// Calls `str::split_whitespace` and keeps the pieces as owned strings. Its
/// contract states what the documentation of `split_whitespace` says: the
/// pieces are the parts of the text separated by any amount of whitespace,
/// whitespace being the Unicode White_Space property.
#[verifier::external_body]
fn split_whitespace_owned(s: &str) -> (pieces: Vec<String>)
    ensures
        texts(pieces@) == whitespace_split(s@),
{
    s.split_whitespace().map(|t| t.to_string()).collect()
}

/// The UTF-8 text of a non-empty string is not empty.
proof fn lemma_nonempty_bytes(s: Seq<char>)
    requires
        s.len() > 0,
    ensures
        encode_utf8(s).len() > 0,
{
    reveal_with_fuel(encode_utf8, 1);
}

/// The cell that one field of the input stands for.
pub fn cell_from_text(token: &str) -> (d: u8)
    requires
        token@.len() > 0,
    ensures
        d == cell_from_byte(first_byte(token@)),
        d <= 9,
{
    proof {
        lemma_nonempty_bytes(token@);
    }
    let bytes = token.as_bytes();
    let b = bytes[0];
    if b == ('?' as u8) || b < ('1' as u8) || b > ('9' as u8) {
        UNKNOWN
    } else {
        b - ('0' as u8)
    }
}

/// The fields of one input line that hold its cells: the nine fields of a
/// comma-separated line, else the whitespace-separated pieces of its first field.
pub fn record_tokens(fields: &Vec<String>) -> (tokens: Vec<String>)
    requires
        fields@.len() >= 1,
    ensures
        fields@.len() == 9 ==> texts(tokens@) == texts(fields@),
        fields@.len() != 9 ==> texts(tokens@) == whitespace_split(fields@[0]@),
        fields@.len() != 9 ==> forall|i: int| 0 <= i < tokens@.len() ==> (#[trigger] tokens@[i])@.len() > 0,
        texts(tokens@) == record_token_texts(texts(fields@)),
{
    assert(texts(fields@).len() == fields@.len());
    assert(fields@.len() >= 1 ==> texts(fields@)[0] == fields@[0]@);
    if fields.len() == 9 {
        let mut tokens: Vec<String> = Vec::new();
        let mut i: usize = 0;
        while i < 9
            invariant
                i <= 9,
                fields@.len() == 9,
                tokens@.len() == i,
                forall|j: int| 0 <= j < i ==> (#[trigger] tokens@[j])@ == fields@[j]@,
            decreases 9 - i,
        {
            tokens.push(fields[i].clone());
            i = i + 1;
        }
        assert(texts(tokens@) =~= texts(fields@));
        tokens
    } else {
        let pieces = split_whitespace_owned(fields[0].as_str());
        proof {
            lemma_whitespace_pieces_nonempty(fields@[0]@);
            assert forall|i: int| 0 <= i < pieces@.len() implies (#[trigger] pieces@[i])@.len() > 0 by {
                assert(texts(pieces@)[i] == pieces@[i]@);
            }
        }
        pieces
    }
}

/// The row of cells that the given fields stand for, one cell per field.
pub fn row_from_tokens(tokens: &Vec<String>) -> (row: Vec<u8>)
    requires
        forall|i: int| 0 <= i < tokens@.len() ==> (#[trigger] tokens@[i])@.len() > 0,
    ensures
        row@.len() == tokens@.len(),
        forall|i: int| 0 <= i < row@.len() ==> #[trigger] row@[i] == cell_from_byte(first_byte(tokens@[i]@)),
{
    let mut row: Vec<u8> = Vec::new();
    let mut i: usize = 0;
    while i < tokens.len()
        invariant
            i <= tokens@.len(),
            row@.len() == i,
            forall|j: int| 0 <= j < tokens@.len() ==> (#[trigger] tokens@[j])@.len() > 0,
            forall|j: int| 0 <= j < i ==> #[trigger] row@[j] == cell_from_byte(first_byte(tokens@[j]@)),
        decreases tokens@.len() - i,
    {
        let d = cell_from_text(tokens[i].as_str());
        row.push(d);
        i = i + 1;
    }
    row
}

/// The row of cells that one input line stands for.
pub fn record_row(fields: &Vec<String>) -> (row: Vec<u8>)
    requires
        fields@.len() >= 1,
        fields@.len() == 9 ==> forall|i: int| 0 <= i < 9 ==> (#[trigger] fields@[i])@.len() > 0,
    ensures
        fields@.len() == 9 ==> row@.len() == 9 && forall|i: int|
            0 <= i < 9 ==> #[trigger] row@[i] == cell_from_byte(first_byte(fields@[i]@)),
        fields@.len() != 9 ==> row@.len() == whitespace_split(fields@[0]@).len() && forall|i: int|
            0 <= i < row@.len() ==> #[trigger] row@[i] == cell_from_byte(
                first_byte(whitespace_split(fields@[0]@)[i]),
            ),
        row@ == record_cells(texts(fields@)),
{
    let tokens = record_tokens(fields);
    proof {
        if fields@.len() == 9 {
            assert forall|i: int| 0 <= i < tokens@.len() implies (#[trigger] tokens@[i])@.len() > 0 by {
                assert(texts(tokens@).len() == tokens@.len());
                assert(texts(tokens@)[i] == tokens@[i]@);
                assert(texts(fields@)[i] == fields@[i]@);
            }
        }
    }
    let row = row_from_tokens(&tokens);
    proof {
        assert forall|i: int| 0 <= i < row@.len() implies #[trigger] row@[i] == cell_from_byte(
            first_byte(texts(tokens@)[i]),
        ) by {
            assert(texts(tokens@)[i] == tokens@[i]@);
        }
        if fields@.len() == 9 {
            assert(texts(tokens@).len() == tokens@.len());
            assert forall|i: int| 0 <= i < 9 implies #[trigger] row@[i] == cell_from_byte(first_byte(fields@[i]@)) by {
                assert(texts(tokens@)[i] == tokens@[i]@);
                assert(texts(fields@)[i] == fields@[i]@);
            }
        }
        assert(row@ =~= record_cells(texts(fields@)));
    }
    row
}

/// A puzzle read from a CSV text: its rows, and the cell texts of each row.
pub struct ParsedGrid {
    pub grid: Grid,
    pub tokens: Vec<Vec<String>>,
}

/// The CSV text can be read and each of its lines is accepted.
pub open spec fn csv_grid_ok(text: Seq<u8>) -> bool {
    &&& csv_records(text) is Some
    &&& forall|i: int| 0 <= i < csv_records(text)->0.len() ==> record_ok(#[trigger] csv_records(text)->0[i])
}

/// Reads a puzzle from the bytes of a CSV file, one row per line: nine
/// comma-separated fields, or one field of whitespace-separated cells. A cell is
/// its first byte's digit from 1 to 9, else `UNKNOWN`. `None` when the reader
/// fails, or a line has no field, or one of nine fields is empty.
pub fn grid_from_csv(text: &[u8]) -> (parsed: Option<ParsedGrid>)
    ensures
        parsed is Some <==> csv_grid_ok(text@),
        parsed matches Some(p) ==> {
            let recs = csv_records(text@)->0;
            &&& p.grid@.len() == recs.len()
            &&& p.tokens@.len() == recs.len()
            &&& forall|i: int| 0 <= i < recs.len() ==> (#[trigger] p.grid@[i])@ == record_cells(recs[i])
            &&& forall|i: int, j: int|
                0 <= i < p.grid@.len() && 0 <= j < p.grid@[i]@.len() ==> #[trigger] p.grid@[i]@[j] <= 9
            &&& forall|i: int| 0 <= i < recs.len() ==> texts((#[trigger] p.tokens@[i])@) == record_token_texts(recs[i])
        },
{
    let records = read_csv_records(text);
    match records {
        None => None,
        Some(rs) => {
            let ghost recs = csv_records(text@)->0;
            let mut grid: Grid = Vec::new();
            let mut tokens: Vec<Vec<String>> = Vec::new();
            let mut i: usize = 0;
            while i < rs.len()
                invariant
                    i <= rs@.len(),
                    rs@.len() == recs.len(),
                    csv_records(text@) is Some,
                    recs == csv_records(text@)->0,
                    forall|j: int| 0 <= j < rs@.len() ==> texts((#[trigger] rs@[j])@) == recs[j],
                    forall|j: int| 0 <= j < i ==> record_ok(#[trigger] recs[j]),
                    grid@.len() == i,
                    tokens@.len() == i,
                    forall|j: int| 0 <= j < i ==> (#[trigger] grid@[j])@ == record_cells(recs[j]),
                    forall|j: int, t: int|
                        0 <= j < i && 0 <= t < grid@[j]@.len() ==> #[trigger] grid@[j]@[t] <= 9,
                    forall|j: int| 0 <= j < i ==> texts((#[trigger] tokens@[j])@) == record_token_texts(recs[j]),
                decreases rs@.len() - i,
            {
                let rec = &rs[i];
                assert(texts(rec@) == recs[i as int]);
                assert(texts(rec@).len() == rec@.len());
                if rec.len() == 0 {
                    assert(!record_ok(csv_records(text@)->0[i as int]));
                    return None;
                }
                if rec.len() == 9 {
                    let mut j: usize = 0;
                    while j < 9
                        invariant
                            j <= 9,
                            rec@.len() == 9,
                            i < recs.len(),
                            texts(rec@) == recs[i as int],
                            csv_records(text@) is Some,
                            recs == csv_records(text@)->0,
                            forall|t: int| 0 <= t < j ==> (#[trigger] rec@[t])@.len() > 0,
                        decreases 9 - j,
                    {
                        if rec[j].as_str().is_empty() {
                            proof {
                                assert(texts(rec@)[j as int] == rec@[j as int]@);
                                assert(recs[i as int][j as int].len() == 0);
                                assert(!record_ok(recs[i as int]));
                                assert(!record_ok(csv_records(text@)->0[i as int]));
                            }
                            return None;
                        }
                        j = j + 1;
                    }
                }
                proof {
                    assert forall|t: int| 0 <= t < recs[i as int].len() && recs[i as int].len() == 9 implies (
                    #[trigger] recs[i as int][t]).len() > 0 by {
                        assert(texts(rec@)[t] == rec@[t]@);
                    }
                }
                let row_tokens = record_tokens(rec);
                let row = record_row(rec);
                proof {
                    lemma_record_cells_in_range(recs[i as int]);
                }
                grid.push(row);
                tokens.push(row_tokens);
                i = i + 1;
            }
            Some(ParsedGrid { grid, tokens })
        },
    }
}

/// What a field stands for: `UNKNOWN` or a digit from 1 to 9, never anything
/// else; a digit exactly when the field's first byte is one of `1` to `9`, and
/// then that digit.
pub proof fn lemma_cell_is_unknown_or_its_digit(b: u8)
    ensures
        cell_from_byte(b) <= 9,
        (cell_from_byte(b) != UNKNOWN) <==> (('1' as u8) <= b <= ('9' as u8)),
        ('1' as u8) <= b <= ('9' as u8) ==> cell_from_byte(b) == b - ('0' as u8),
{
}

/// Every cell of a row read from an input line is `UNKNOWN` or a digit from 1
/// to 9, so a grid read from a file holds only such cells.
pub proof fn lemma_record_cells_in_range(rec: Seq<Seq<char>>)
    ensures
        forall|i: int| 0 <= i < record_cells(rec).len() ==> #[trigger] record_cells(rec)[i] <= 9,
{
    assert forall|i: int| 0 <= i < record_cells(rec).len() implies #[trigger] record_cells(rec)[i] <= 9 by {
        lemma_cell_is_unknown_or_its_digit(first_byte(record_token_texts(rec)[i]));
    }
}

} // verus!
