//! The byte layout of an RSV document, stated over mathematical values.
use vstd::prelude::*;
use vstd::utf8::*;

verus! {

/// Ends the bytes of every value.
pub const VALUE_TERMINATOR: u8 = 0xFF;

/// Ends the bytes of every row.
pub const ROW_TERMINATOR: u8 = 0xFD;

/// The whole byte run of a null value.
pub const NULL_VALUE: u8 = 0xFE;

/// A cell as a mathematical value: `None` is null, `Some(s)` holds the text `s`.
pub type CellModel = Option<Seq<char>>;

/// A row as a mathematical value.
pub type RowModel = Seq<CellModel>;

/// A document as a mathematical value.
pub type DocumentModel = Seq<RowModel>;

/// One of the three reserved byte values.
pub open spec fn is_reserved(b: u8) -> bool {
    b == VALUE_TERMINATOR || b == ROW_TERMINATOR || b == NULL_VALUE
}

/// The bytes of one cell, its value terminator included.
pub open spec fn encode_cell(c: CellModel) -> Seq<u8> {
    match c {
        Some(s) => encode_utf8(s).push(VALUE_TERMINATOR),
        None => seq![NULL_VALUE, VALUE_TERMINATOR],
    }
}

/// The bytes of a row's cells, one after the other.
pub open spec fn encode_cells(r: RowModel) -> Seq<u8>
    decreases r.len(),
{
    if r.len() == 0 {
        seq![]
    } else {
        encode_cells(r.drop_last()) + encode_cell(r.last())
    }
}

/// The bytes of one row, its row terminator included.
pub open spec fn encode_row(r: RowModel) -> Seq<u8> {
    encode_cells(r).push(ROW_TERMINATOR)
}

/// The bytes of a whole document.
pub open spec fn encode_document(d: DocumentModel) -> Seq<u8>
    decreases d.len(),
{
    if d.len() == 0 {
        seq![]
    } else {
        encode_document(d.drop_last()) + encode_row(d.last())
    }
}

/// Why a buffer is not a document.
pub enum DecodeFault {
    /// The buffer is not empty and does not end with the row terminator.
    IncompleteDocument,
    /// A row terminator, at this 1-based position, ends a row in the middle of a value.
    IncompleteRow(int),
    /// The bytes of a value are neither empty, nor the null marker, nor UTF-8.
    InvalidStringValue,
}

/// Where a left-to-right scan stands: the rows it has finished, the cells of
/// the row it is in, and the index at which the current value's bytes begin.
pub struct ScanState {
    pub rows: DocumentModel,
    pub row: RowModel,
    pub start: int,
}

/// The cell that the bytes of one value stand for, or `None` where they stand
/// for none.
pub open spec fn cell_of(v: Seq<u8>) -> Option<CellModel> {
    if v.len() == 0 {
        Some(Some(Seq::<char>::empty()))
    } else if v.len() == 1 && v[0] == NULL_VALUE {
        Some(None)
    } else if valid_utf8(v) {
        Some(Some(decode_utf8(v)))
    } else {
        None
    }
}

/// The scan after it has read byte `i` of `b`.
pub open spec fn scan_step(st: Result<ScanState, DecodeFault>, b: Seq<u8>, i: int) -> Result<
    ScanState,
    DecodeFault,
> {
    match st {
        Err(f) => Err(f),
        Ok(s) => if b[i] == VALUE_TERMINATOR {
            match cell_of(b.subrange(s.start, i)) {
                Some(c) => Ok(ScanState { rows: s.rows, row: s.row.push(c), start: i + 1 }),
                None => Err(DecodeFault::InvalidStringValue),
            }
        } else if b[i] == ROW_TERMINATOR {
            if s.start != i {
                Err(DecodeFault::IncompleteRow(i + 1))
            } else {
                Ok(ScanState { rows: s.rows.push(s.row), row: Seq::empty(), start: i + 1 })
            }
        } else {
            Ok(s)
        },
    }
}

/// The scan after it has read the first `n` bytes of `b`: it stops at the
/// first fault.
pub open spec fn scan(b: Seq<u8>, n: nat) -> Result<ScanState, DecodeFault>
    decreases n,
{
    if n == 0 {
        Ok(ScanState { rows: Seq::empty(), row: Seq::empty(), start: 0 })
    } else {
        scan_step(scan(b, (n - 1) as nat), b, n - 1)
    }
}

/// The document that the bytes `b` hold, or the first fault in them.
pub open spec fn decode_document(b: Seq<u8>) -> Result<DocumentModel, DecodeFault> {
    if b.len() == 0 {
        Ok(Seq::empty())
    } else if b.last() != ROW_TERMINATOR {
        Err(DecodeFault::IncompleteDocument)
    } else {
        match scan(b, b.len()) {
            Ok(s) => Ok(s.rows),
            Err(f) => Err(f),
        }
    }
}

/// Once the scan has failed, reading more bytes keeps its fault.
pub proof fn lemma_scan_fault_persists(b: Seq<u8>, m: nat, n: nat)
    requires
        m <= n,
        scan(b, m) is Err,
    ensures
        scan(b, n) == scan(b, m),
    decreases n - m,
{
    if m < n {
        lemma_scan_fault_persists(b, m, (n - 1) as nat);
    }
}

proof fn lemma_scalar_bytes_below_reserved(v: u32)
    by (bit_vector)
    ensures
        ((v & 0x7F) as u8) < 0xF8,
        (0xC0u8 | ((v >> 6) & 0x1F) as u8) < 0xF8,
        (0xE0u8 | ((v >> 12) & 0x0F) as u8) < 0xF8,
        (0xF0u8 | ((v >> 18) & 0x7) as u8) < 0xF8,
        (0x80u8 | (v & 0x3F) as u8) < 0xF8,
        (0x80u8 | ((v >> 6) & 0x3F) as u8) < 0xF8,
        (0x80u8 | ((v >> 12) & 0x3F) as u8) < 0xF8,
{
}

/// No byte of the UTF-8 encoding of a text is reserved.
pub proof fn lemma_text_has_no_reserved_byte(s: Seq<char>)
    ensures
        forall|k: int| 0 <= k < encode_utf8(s).len() ==> !is_reserved(#[trigger] encode_utf8(s)[k]),
    decreases s.len(),
{
    if s.len() > 0 {
        let v = s[0] as u32;
        lemma_scalar_bytes_below_reserved(v);
        let head = encode_scalar(v);
        assert forall|k: int| 0 <= k < head.len() implies head[k] < 0xF8 by {}
        lemma_text_has_no_reserved_byte(s.drop_first());
        let tail = encode_utf8(s.drop_first());
        assert(encode_utf8(s) == head + tail);
        assert forall|k: int| 0 <= k < encode_utf8(s).len() implies !is_reserved(
            #[trigger] encode_utf8(s)[k],
        ) by {
            if k < head.len() {
                assert(encode_utf8(s)[k] == head[k]);
            } else {
                assert(encode_utf8(s)[k] == tail[k - head.len()]);
            }
        }
    }
}

} // verus!
