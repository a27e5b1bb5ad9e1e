//! What holds of the encoder and the decoder together.
use vstd::prelude::*;
use vstd::utf8::*;

use crate::format::{
    cell_of, decode_document, encode_cell, encode_cells, encode_document, encode_row,
    lemma_scan_fault_persists, lemma_text_has_no_reserved_byte, scan, scan_step,
    CellModel, DecodeFault, DocumentModel, RowModel, ScanState, NULL_VALUE, ROW_TERMINATOR,
    VALUE_TERMINATOR,
};

verus! {

/// `b` holds `x` at index `p`.
pub open spec fn holds_at(b: Seq<u8>, p: int, x: Seq<u8>) -> bool {
    0 <= p && p + x.len() <= b.len() && b.subrange(p, p + x.len()) == x
}

proof fn lemma_holds_at_split(b: Seq<u8>, p: int, x: Seq<u8>, y: Seq<u8>)
    requires
        holds_at(b, p, x + y),
    ensures
        holds_at(b, p, x),
        holds_at(b, p + x.len(), y),
{
    assert(b.subrange(p, p + x.len()) == (x + y).subrange(0, x.len() as int));
    assert((x + y).subrange(0, x.len() as int) == x);
    assert(b.subrange(p + x.len(), p + x.len() + y.len()) == (x + y).subrange(
        x.len() as int,
        (x.len() + y.len()) as int,
    ));
    assert((x + y).subrange(x.len() as int, (x.len() + y.len()) as int) == y);
}

/// Bytes that end neither a value nor a row leave the scan where it was.
proof fn lemma_scan_over_value_bytes(b: Seq<u8>, p: nat, q: nat, st: ScanState)
    requires
        p <= q <= b.len(),
        scan(b, p) == Ok::<ScanState, DecodeFault>(st),
        forall|k: int| p <= k < q ==> b[k] != VALUE_TERMINATOR && b[k] != ROW_TERMINATOR,
    ensures
        scan(b, q) == Ok::<ScanState, DecodeFault>(st),
    decreases q - p,
{
    if p < q {
        lemma_scan_over_value_bytes(b, p, (q - 1) as nat, st);
    }
}

/// The scan reads the bytes of one cell into that cell.
proof fn lemma_scan_cell(b: Seq<u8>, p: nat, rows: DocumentModel, row: RowModel, c: CellModel)
    requires
        holds_at(b, p as int, encode_cell(c)),
        scan(b, p) == Ok::<ScanState, DecodeFault>(ScanState { rows, row, start: p as int }),
    ensures
        scan(b, p + encode_cell(c).len()) == Ok::<ScanState, DecodeFault>(
            ScanState {
                rows,
                row: row.push(c),
                start: (p + encode_cell(c).len()) as int,
            },
        ),
{
    let v: Seq<u8> = match c {
        Some(s) => encode_utf8(s),
        None => seq![NULL_VALUE],
    };
    assert(encode_cell(c) == v + seq![VALUE_TERMINATOR]);
    lemma_holds_at_split(b, p as int, v, seq![VALUE_TERMINATOR]);
    let q = p + v.len();
    match c {
        Some(s) => {
            lemma_text_has_no_reserved_byte(s);
            encode_utf8_valid_utf8(s);
            encode_utf8_decode_utf8(s);
            if s.len() > 0 {
                assert(encode_utf8(s).len() > 0);
            } else {
                assert(s == Seq::<char>::empty());
            }
        },
        None => {},
    }
    assert forall|k: int| p <= k < q implies b[k] != VALUE_TERMINATOR && b[k]
        != ROW_TERMINATOR by {
        assert(b[k] == b.subrange(p as int, q as int)[k - p]);
    }
    lemma_scan_over_value_bytes(b, p, q, ScanState { rows, row, start: p as int });
    assert(b[q as int] == b.subrange(q as int, q as int + 1)[0]);
    assert(cell_of(v) == Some(c));
    assert(scan(b, q + 1) == scan_step(scan(b, q), b, q as int));
}

/// The scan reads the bytes of a row's cells into those cells.
proof fn lemma_scan_cells(b: Seq<u8>, p: nat, rows: DocumentModel, row: RowModel, cs: RowModel)
    requires
        holds_at(b, p as int, encode_cells(cs)),
        scan(b, p) == Ok::<ScanState, DecodeFault>(ScanState { rows, row, start: p as int }),
    ensures
        scan(b, p + encode_cells(cs).len()) == Ok::<ScanState, DecodeFault>(
            ScanState {
                rows,
                row: row + cs,
                start: (p + encode_cells(cs).len()) as int,
            },
        ),
    decreases cs.len(),
{
    if cs.len() == 0 {
        assert(row + cs == row);
    } else {
        let init = cs.drop_last();
        lemma_holds_at_split(b, p as int, encode_cells(init), encode_cell(cs.last()));
        lemma_scan_cells(b, p, rows, row, init);
        let m = p + encode_cells(init).len();
        lemma_scan_cell(b, m, rows, row + init, cs.last());
        assert((row + init).push(cs.last()) == row + cs);
    }
}

/// The scan reads the bytes of a row into that row.
proof fn lemma_scan_row(b: Seq<u8>, p: nat, rows: DocumentModel, r: RowModel)
    requires
        holds_at(b, p as int, encode_row(r)),
        scan(b, p) == Ok::<ScanState, DecodeFault>(
            ScanState { rows, row: Seq::empty(), start: p as int },
        ),
    ensures
        scan(b, p + encode_row(r).len()) == Ok::<ScanState, DecodeFault>(
            ScanState { rows: rows.push(r), row: Seq::empty(), start: (p + encode_row(r).len()) as int },
        ),
{
    assert(encode_row(r) == encode_cells(r) + seq![ROW_TERMINATOR]);
    lemma_holds_at_split(b, p as int, encode_cells(r), seq![ROW_TERMINATOR]);
    lemma_scan_cells(b, p, rows, Seq::empty(), r);
    assert(Seq::<CellModel>::empty() + r == r);
    let q = p + encode_cells(r).len();
    assert(b[q as int] == b.subrange(q as int, q as int + 1)[0]);
    assert(scan(b, q + 1) == scan_step(scan(b, q), b, q as int));
}

/// The scan reads the bytes of a document, at the start of a buffer, into
/// that document.
proof fn lemma_scan_document(b: Seq<u8>, d: DocumentModel)
    requires
        holds_at(b, 0, encode_document(d)),
    ensures
        scan(b, encode_document(d).len()) == Ok::<ScanState, DecodeFault>(
            ScanState { rows: d, row: Seq::empty(), start: encode_document(d).len() as int },
        ),
    decreases d.len(),
{
    if d.len() == 0 {
        assert(d == Seq::<RowModel>::empty());
    } else {
        let init = d.drop_last();
        lemma_holds_at_split(b, 0, encode_document(init), encode_row(d.last()));
        lemma_scan_document(b, init);
        lemma_scan_row(b, encode_document(init).len(), init, d.last());
        assert(init.push(d.last()) == d);
    }
}

proof fn lemma_document_ends_with_row_terminator(d: DocumentModel)
    requires
        d.len() > 0,
    ensures
        encode_document(d).len() > 0,
        encode_document(d).last() == ROW_TERMINATOR,
{
    let x = encode_document(d.drop_last());
    let y = encode_row(d.last());
    assert((x + y).last() == y.last());
}

/// Decoding the encoding of any document gives that document back.
pub proof fn lemma_round_trip(d: DocumentModel)
    ensures
        decode_document(encode_document(d)) == Ok::<DocumentModel, DecodeFault>(d),
{
    let b = encode_document(d);
    if d.len() == 0 {
        assert(d == Seq::<RowModel>::empty());
    } else {
        lemma_document_ends_with_row_terminator(d);
        assert(b.subrange(0, b.len() as int) == b);
        lemma_scan_document(b, d);
    }
}

/// What a successful scan has read: the encoding of the finished rows, then
/// the cells of the current row, then bytes of the current value.
proof fn lemma_scan_reads_encoding(b: Seq<u8>, n: nat)
    requires
        n <= b.len(),
        scan(b, n) is Ok,
    ensures
        ({
            let st = scan(b, n)->Ok_0;
            &&& 0 <= st.start <= n
            &&& b.subrange(0, st.start) == encode_document(st.rows) + encode_cells(st.row)
            &&& forall|k: int|
                st.start <= k < n ==> b[k] != VALUE_TERMINATOR && b[k] != ROW_TERMINATOR
        }),
    decreases n,
{
    if n == 0 {
        assert(b.subrange(0, 0) == encode_document(Seq::empty()) + encode_cells(Seq::empty()));
    } else {
        let i = n - 1;
        lemma_scan_reads_encoding(b, i as nat);
        let s = scan(b, i as nat)->Ok_0;
        let pre = encode_document(s.rows) + encode_cells(s.row);
        let v = b.subrange(s.start, i);
        if b[i] == VALUE_TERMINATOR {
            let c = cell_of(v)->Some_0;
            if v.len() == 0 {
                assert(encode_utf8(Seq::<char>::empty()) == Seq::<u8>::empty());
                assert(encode_cell(c) == v + seq![VALUE_TERMINATOR]);
            } else if v.len() == 1 && v[0] == NULL_VALUE {
                assert(encode_cell(c) == v + seq![VALUE_TERMINATOR]);
            } else {
                decode_utf8_encode_utf8(v);
                assert(encode_cell(c) == v + seq![VALUE_TERMINATOR]);
            }
            assert(s.row.push(c).drop_last() == s.row);
            assert(encode_cells(s.row.push(c)) == encode_cells(s.row) + encode_cell(c));
            assert(b.subrange(0, n as int) == pre + v + seq![VALUE_TERMINATOR]);
            assert(pre + v + seq![VALUE_TERMINATOR] == encode_document(s.rows) + encode_cells(
                s.row.push(c),
            ));
        } else if b[i] == ROW_TERMINATOR {
            assert(s.rows.push(s.row).drop_last() == s.rows);
            assert(encode_row(s.row) == encode_cells(s.row) + seq![ROW_TERMINATOR]);
            assert(b.subrange(0, n as int) == pre + seq![ROW_TERMINATOR]);
            assert(encode_document(s.rows.push(s.row)) + encode_cells(Seq::empty())
                == pre + seq![ROW_TERMINATOR]);
        }
    }
}

/// A buffer decodes to a document only if it is that document's encoding: no
/// two buffers decode to the same document.
pub proof fn lemma_decoded_buffer_is_encoding(b: Seq<u8>, d: DocumentModel)
    requires
        decode_document(b) == Ok::<DocumentModel, DecodeFault>(d),
    ensures
        encode_document(d) == b,
{
    if b.len() == 0 {
        assert(d == Seq::<RowModel>::empty());
    } else {
        lemma_scan_reads_encoding(b, b.len());
        let i = b.len() - 1;
        let st = scan(b, b.len())->Ok_0;
        let s = scan(b, i as nat)->Ok_0;
        assert(scan(b, b.len()) == scan_step(scan(b, i as nat), b, i));
        assert(st.start == b.len());
        assert(st.row == Seq::<CellModel>::empty());
        assert(encode_document(d) + encode_cells(Seq::empty()) == encode_document(d));
        assert(b.subrange(0, b.len() as int) == b);
    }
}

/// A non-empty buffer whose last byte is not the row terminator is an
/// incomplete document.
pub proof fn lemma_unterminated_buffer(b: Seq<u8>)
    requires
        b.len() > 0,
        b.last() != ROW_TERMINATOR,
    ensures
        decode_document(b) == Err::<DocumentModel, DecodeFault>(DecodeFault::IncompleteDocument),
{
}

/// Dropping the last byte of the encoding of a document whose last row has
/// cells leaves an incomplete document.
pub proof fn lemma_truncated_encoding(d: DocumentModel)
    requires
        d.len() > 0,
        d.last().len() > 0,
    ensures
        decode_document(encode_document(d).drop_last()) == Err::<DocumentModel, DecodeFault>(
            DecodeFault::IncompleteDocument,
        ),
{
    let r = d.last();
    let x = encode_document(d.drop_last());
    let cells = encode_cells(r);
    let y = encode_cells(r.drop_last());
    let z = encode_cell(r.last());
    assert(cells == y + z);
    assert(z.last() == VALUE_TERMINATOR);
    assert(encode_document(d) == x + cells.push(ROW_TERMINATOR));
    assert(encode_document(d).drop_last() == x + (y + z));
    assert((x + (y + z)).last() == z.last());
}

/// The scan reads the encoding of a document followed by the cells of an
/// unfinished row into those rows and cells.
proof fn lemma_scan_document_then_cells(b: Seq<u8>, d: DocumentModel, cs: RowModel)
    requires
        holds_at(b, 0, encode_document(d) + encode_cells(cs)),
    ensures
        scan(b, (encode_document(d) + encode_cells(cs)).len()) == Ok::<ScanState, DecodeFault>(
            ScanState {
                rows: d,
                row: cs,
                start: (encode_document(d) + encode_cells(cs)).len() as int,
            },
        ),
{
    lemma_holds_at_split(b, 0, encode_document(d), encode_cells(cs));
    lemma_scan_document(b, d);
    lemma_scan_cells(b, encode_document(d).len(), d, Seq::empty(), cs);
    assert(Seq::<CellModel>::empty() + cs == cs);
}

/// Where the rows and cells before it are well formed, a row terminator that
/// follows value bytes with no value terminator between them is an incomplete
/// row, reported at the terminator's 1-based position.
pub proof fn lemma_row_ends_mid_value(
    d: DocumentModel,
    cs: RowModel,
    t: Seq<u8>,
    rest: Seq<u8>,
)
    requires
        t.len() > 0,
        forall|k: int| 0 <= k < t.len() ==> t[k] != VALUE_TERMINATOR && t[k] != ROW_TERMINATOR,
        rest.len() == 0 || rest.last() == ROW_TERMINATOR,
    ensures
        decode_document(
            encode_document(d) + encode_cells(cs) + t + seq![ROW_TERMINATOR] + rest,
        ) == Err::<DocumentModel, DecodeFault>(
            DecodeFault::IncompleteRow(
                ((encode_document(d) + encode_cells(cs)).len() + t.len() + 1) as int,
            ),
        ),
{
    let pre = encode_document(d) + encode_cells(cs);
    let b = pre + t + seq![ROW_TERMINATOR] + rest;
    let p = pre.len();
    let q = p + t.len();
    assert(b.subrange(0, p as int) == pre);
    lemma_scan_document_then_cells(b, d, cs);
    assert forall|k: int| p <= k < q implies b[k] != VALUE_TERMINATOR && b[k]
        != ROW_TERMINATOR by {
        assert(b[k] == t[k - p]);
    }
    lemma_scan_over_value_bytes(b, p, q, ScanState { rows: d, row: cs, start: p as int });
    assert(b[q as int] == ROW_TERMINATOR);
    assert(scan(b, q + 1) == scan_step(scan(b, q), b, q as int));
    lemma_scan_fault_persists(b, q + 1, b.len());
    if rest.len() > 0 {
        assert(b.last() == rest.last());
    }
}

/// Where the rows and cells before it are well formed, a value whose bytes
/// are not UTF-8 and not the lone null marker makes the buffer invalid.
pub proof fn lemma_value_not_utf8(d: DocumentModel, cs: RowModel, v: Seq<u8>, rest: Seq<u8>)
    requires
        forall|k: int| 0 <= k < v.len() ==> v[k] != VALUE_TERMINATOR && v[k] != ROW_TERMINATOR,
        !valid_utf8(v),
        v != seq![NULL_VALUE],
        rest.len() > 0,
        rest.last() == ROW_TERMINATOR,
    ensures
        decode_document(
            encode_document(d) + encode_cells(cs) + v + seq![VALUE_TERMINATOR] + rest,
        ) == Err::<DocumentModel, DecodeFault>(DecodeFault::InvalidStringValue),
{
    let pre = encode_document(d) + encode_cells(cs);
    let b = pre + v + seq![VALUE_TERMINATOR] + rest;
    let p = pre.len();
    let q = p + v.len();
    assert(b.subrange(0, p as int) == pre);
    lemma_scan_document_then_cells(b, d, cs);
    assert forall|k: int| p <= k < q implies b[k] != VALUE_TERMINATOR && b[k]
        != ROW_TERMINATOR by {
        assert(b[k] == v[k - p]);
    }
    lemma_scan_over_value_bytes(b, p, q, ScanState { rows: d, row: cs, start: p as int });
    assert(b[q as int] == VALUE_TERMINATOR);
    assert(b.subrange(p as int, q as int) == v);
    if v.len() == 1 {
        assert(v[0] != NULL_VALUE) by {
            if v[0] == NULL_VALUE {
                assert(v == seq![NULL_VALUE]);
            }
        }
    }
    assert(cell_of(v) is None);
    assert(scan(b, q + 1) == scan_step(scan(b, q), b, q as int));
    lemma_scan_fault_persists(b, q + 1, b.len());
    assert(b.last() == rest.last());
}

} // verus!
