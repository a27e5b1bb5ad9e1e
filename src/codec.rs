//! The encoder and the decoder.
use vstd::prelude::*;
use vstd::utf8::*;

use crate::format::{
    cell_of, decode_document, encode_cells, encode_document, lemma_scan_fault_persists, scan,
    scan_step, CellModel, DecodeFault, DocumentModel, RowModel, ScanState, NULL_VALUE,
    ROW_TERMINATOR, VALUE_TERMINATOR,
};

verus! {

/// Declares std's `FromUtf8Error`, which the decoder's error carries through
/// unread.
#[verifier::external_type_specification]
#[verifier::external_body]
pub struct ExFromUtf8Error(std::string::FromUtf8Error);

/// Why a buffer could not be decoded.
#[derive(Debug)]
pub enum DecodeRSVErrors {
    /// The buffer is not empty and does not end with the row terminator.
    IncompleteRSVDocument,
    /// A row terminator, at this 1-based byte position, ends a row in the
    /// middle of a value.
    IncompleteRSVRow(usize),
    /// The bytes of a value are not UTF-8; holds what the UTF-8 check reported.
    InvalidStringValue(std::string::FromUtf8Error),
}

impl DecodeRSVErrors {
    /// The fault that this error reports.
    pub open spec fn fault(&self) -> DecodeFault {
        match self {
            DecodeRSVErrors::IncompleteRSVDocument => DecodeFault::IncompleteDocument,
            DecodeRSVErrors::IncompleteRSVRow(n) => DecodeFault::IncompleteRow(*n as int),
            DecodeRSVErrors::InvalidStringValue(_) => DecodeFault::InvalidStringValue,
        }
    }
}

/// Relies on `String::from_utf8`: it returns the text that the bytes encode
/// when they are UTF-8, and an error when they are not.
#[verifier::external_body]
fn string_from_utf8(bytes: Vec<u8>) -> (r: Result<String, std::string::FromUtf8Error>)
    ensures
        match r {
            Ok(s) => valid_utf8(bytes@) && s@ == decode_utf8(bytes@),
            Err(_) => !valid_utf8(bytes@),
        },
{
    String::from_utf8(bytes)
}

/// Appends `bytes[from..to]` to `out`.
fn push_range(out: &mut Vec<u8>, bytes: &[u8], from: usize, to: usize)
    requires
        from <= to <= bytes@.len(),
    ensures
        final(out)@ == old(out)@ + bytes@.subrange(from as int, to as int),
{
    let mut k: usize = from;
    while k < to
        invariant
            from <= k <= to <= bytes@.len(),
            out@ == old(out)@ + bytes@.subrange(from as int, k as int),
        decreases to - k,
    {
        out.push(bytes[k]);
        k = k + 1;
        assert(bytes@.subrange(from as int, k as int) == bytes@.subrange(from as int, k - 1).push(
            bytes@[k - 1],
        ));
    }
}

/// Encodes a document: each cell as its text (or the null marker) and a value
/// terminator, each row as its cells and a row terminator.
pub fn encode_rsv(rows: &[Vec<Option<String>>]) -> (r: Vec<u8>)
    ensures
        r@ == encode_document(rows.deep_view()),
{
    let ghost d = rows.deep_view();
    let mut result: Vec<u8> = Vec::new();
    for i in 0..rows.len()
        invariant
            d == rows.deep_view(),
            result@ == encode_document(d.subrange(0, i as int)),
    {
        let row = &rows[i];
        let ghost before = result@;
        let ghost cells = row.deep_view();
        for j in 0..row.len()
            invariant
                cells == row.deep_view(),
                result@ == before + encode_cells(cells.subrange(0, j as int)),
        {
            match &row[j] {
                Some(text) => {
                    let b = text.as_str().as_bytes();
                    push_range(&mut result, b, 0, b.len());
                    assert(b@.subrange(0, b@.len() as int) == b@);
                },
                None => {
                    result.push(NULL_VALUE);
                },
            }
            result.push(VALUE_TERMINATOR);
            assert(cells.subrange(0, j + 1).drop_last() == cells.subrange(0, j as int));
        }
        result.push(ROW_TERMINATOR);
        assert(cells.subrange(0, row@.len() as int) == cells);
        assert(d.subrange(0, i + 1).drop_last() == d.subrange(0, i as int));
    }
    assert(d.subrange(0, rows@.len() as int) == d);
    result
}

/// Decodes a buffer into its rows, or reports the first place where it breaks
/// the format.
pub fn decode_rsv(bytes: &[u8]) -> (r: Result<Vec<Vec<Option<String>>>, DecodeRSVErrors>)
    ensures
        match r {
            Ok(d) => decode_document(bytes@) == Ok::<DocumentModel, DecodeFault>(d.deep_view()),
            Err(e) => decode_document(bytes@) == Err::<DocumentModel, DecodeFault>(e.fault()),
        },
{
    let n = bytes.len();
    if n == 0 {
        let empty: Vec<Vec<Option<String>>> = Vec::new();
        assert(empty.deep_view() == Seq::<RowModel>::empty());
        return Ok(empty);
    }
    if bytes[n - 1] != ROW_TERMINATOR {
        return Err(DecodeRSVErrors::IncompleteRSVDocument);
    }
    let mut result: Vec<Vec<Option<String>>> = Vec::new();
    let mut current_row: Vec<Option<String>> = Vec::new();
    let mut value_start: usize = 0;
    assert(result.deep_view() == Seq::<RowModel>::empty());
    assert(current_row.deep_view() == Seq::<CellModel>::empty());
    for i in 0..n
        invariant
            n == bytes@.len(),
            bytes@[n - 1] == ROW_TERMINATOR,
            value_start <= i,
            scan(bytes@, i as nat) == Ok::<ScanState, DecodeFault>(
                ScanState {
                    rows: result.deep_view(),
                    row: current_row.deep_view(),
                    start: value_start as int,
                },
            ),
    {
        let ghost rows0 = result.deep_view();
        let ghost row0 = current_row.deep_view();
        let byte = bytes[i];
        assert(scan(bytes@, (i + 1) as nat) == scan_step(scan(bytes@, i as nat), bytes@, i as int));
        if byte == VALUE_TERMINATOR {
            let ghost v = bytes@.subrange(value_start as int, i as int);
            let length = i - value_start;
            if length == 0 {
                current_row.push(Some(String::new()));
            } else if length == 1 && bytes[value_start] == NULL_VALUE {
                current_row.push(None);
            } else {
                let mut value_bytes: Vec<u8> = Vec::new();
                push_range(&mut value_bytes, bytes, value_start, i);
                match string_from_utf8(value_bytes) {
                    Ok(text) => {
                        current_row.push(Some(text));
                    },
                    Err(err) => {
                        proof {
                            lemma_scan_fault_persists(bytes@, (i + 1) as nat, n as nat);
                        }
                        return Err(DecodeRSVErrors::InvalidStringValue(err));
                    },
                }
            }
            assert(current_row.deep_view() == row0.push(cell_of(v)->Some_0));
            value_start = i + 1;
        } else if byte == ROW_TERMINATOR {
            if value_start != i {
                proof {
                    lemma_scan_fault_persists(bytes@, (i + 1) as nat, n as nat);
                }
                return Err(DecodeRSVErrors::IncompleteRSVRow(i + 1));
            }
            result.push(current_row);
            current_row = Vec::new();
            value_start = i + 1;
            assert(result.deep_view() == rows0.push(row0));
            assert(current_row.deep_view() == Seq::<CellModel>::empty());
        }
    }
    Ok(result)
}

} // verus!
