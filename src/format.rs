//! The wire format: what a row code and a stream mean.
use vstd::prelude::*;

verus! {

/// Number of bytes in one raw row.
pub const ROW_WIDTH: usize = 20;

/// First byte of a back-reference to an earlier row's code.
pub const BACKREF_MARKER: u8 = 0xDB;

/// Smallest opcode that starts a run; every smaller byte is a literal.
pub const FIRST_RUN_OPCODE: u8 = 0xDC;

/// Why encoding or decoding failed.
#[derive(Clone, Copy, Debug, PartialEq, Eq, Structural)]
pub enum CodecError {
    /// The raw input is not a whole number of rows.
    InputSize,
    /// A back-reference would need an address above 0xFFFF.
    AddressOverflow,
    /// The stream ends in the middle of a token or marker.
    StreamBounds,
    /// A run expands past the end of its row.
    RowOverflow,
    /// A back-reference points below the origin.
    AddressUnderflow,
    /// A back-reference points at another back-reference.
    NestedReference,
}

/// Opcode of a run of `repeat` copies of a `unit`-byte sequence is `run_base(unit) + repeat`.
pub open spec fn run_base(unit: nat) -> int {
    if unit == 1 {
        0xEB
    } else if unit == 2 {
        0xE3
    } else if unit == 3 {
        0xDE
    } else {
        0xDA
    }
}

pub open spec fn min_repeat(unit: nat) -> nat {
    if unit == 1 {
        3
    } else {
        2
    }
}

pub open spec fn max_repeat(unit: nat) -> nat {
    if unit == 1 {
        20
    } else if unit == 2 {
        10
    } else if unit == 3 {
        6
    } else {
        5
    }
}

/// Unit length of the run an opcode starts (0 for a literal).
pub open spec fn opcode_unit(b: u8) -> nat {
    if b < 0xDC {
        0
    } else if b <= 0xDF {
        4
    } else if b <= 0xE4 {
        3
    } else if b <= 0xED {
        2
    } else {
        1
    }
}

/// Repeat count of the run an opcode starts.
pub open spec fn opcode_repeat(b: u8) -> nat {
    (b - run_base(opcode_unit(b))) as nat
}

/// Number of cells the run an opcode starts expands to.
pub open spec fn opcode_cells(b: u8) -> nat {
    if b <= 0xDF {
        (4 * (b - 0xDA)) as nat
    } else if b <= 0xE4 {
        (3 * (b - 0xDE)) as nat
    } else if b <= 0xED {
        (2 * (b - 0xE3)) as nat
    } else {
        (b - 0xEB) as nat
    }
}

/// `n` copies of `s`, one after another.
pub open spec fn repeat_seq(s: Seq<u8>, n: nat) -> Seq<u8>
    decreases n,
{
    if n == 0 {
        Seq::empty()
    } else {
        repeat_seq(s, (n - 1) as nat) + s
    }
}

/// Decodes the cells of a row from `off`, `count` cells of the row being
/// already there; gives the remaining cells and the offset after them.
pub open spec fn decode_cells(buf: Seq<u8>, off: int, count: nat) -> Result<(Seq<u8>, int), CodecError>
    decreases 20 - count,
{
    if count >= 20 {
        Ok((Seq::empty(), off))
    } else if off < 0 || off >= buf.len() {
        Err(CodecError::StreamBounds)
    } else {
        let b = buf[off];
        if b < 0xDC {
            match decode_cells(buf, off + 1, count + 1) {
                Ok((c, e)) => Ok((seq![b] + c, e)),
                Err(x) => Err(x),
            }
        } else {
            let unit = opcode_unit(b);
            if off + 1 + unit > buf.len() {
                Err(CodecError::StreamBounds)
            } else if count + opcode_cells(b) > 20 {
                Err(CodecError::RowOverflow)
            } else {
                let s = buf.subrange(off + 1, off + 1 + unit);
                match decode_cells(buf, off + 1 + unit, count + opcode_cells(b)) {
                    Ok((c, e)) => Ok((repeat_seq(s, opcode_repeat(b)) + c, e)),
                    Err(x) => Err(x),
                }
            }
        }
    }
}

/// The little-endian 16-bit address stored after a marker at `off`.
pub open spec fn stored_addr(buf: Seq<u8>, off: int) -> int {
    buf[off + 1] + 256 * buf[off + 2]
}

/// Decodes the row that starts at `off`, itself or through its
/// back-reference; gives its cells and the offset of the next row.
pub open spec fn decode_row_at(buf: Seq<u8>, origin: int, off: int) -> Result<(Seq<u8>, int), CodecError> {
    if 0 <= off < buf.len() && buf[off] == 0xDB {
        if off + 3 > buf.len() {
            Err(CodecError::StreamBounds)
        } else if stored_addr(buf, off) < origin {
            Err(CodecError::AddressUnderflow)
        } else {
            let local = stored_addr(buf, off) - origin;
            if local < buf.len() && buf[local] == 0xDB {
                Err(CodecError::NestedReference)
            } else {
                match decode_cells(buf, local, 0) {
                    Err(x) => Err(x),
                    Ok((row, _)) => Ok((row, off + 3)),
                }
            }
        }
    } else {
        decode_cells(buf, off, 0)
    }
}

/// Decodes the stream from the row that starts at `off`.
pub open spec fn decode_from(buf: Seq<u8>, origin: int, off: int) -> Result<Seq<u8>, CodecError>
    decreases buf.len() - off,
    via decode_from_decreases
{
    if off < 0 || off >= buf.len() {
        Ok(Seq::empty())
    } else {
        match decode_row_at(buf, origin, off) {
            Err(x) => Err(x),
            Ok((row, next)) => match decode_from(buf, origin, next) {
                Ok(rest) => Ok(row + rest),
                Err(x) => Err(x),
            },
        }
    }
}

/// Decoding a row that is not yet complete moves forward.
pub proof fn lemma_decode_cells_advances(buf: Seq<u8>, off: int, count: nat)
    requires
        decode_cells(buf, off, count) is Ok,
    ensures
        count < 20 ==> decode_cells(buf, off, count)->Ok_0.1 > off,
        count < 20 ==> decode_cells(buf, off, count)->Ok_0.1 <= buf.len(),
        count >= 20 ==> decode_cells(buf, off, count)->Ok_0.1 == off,
    decreases 20 - count,
{
    if count < 20 {
        let b = buf[off];
        if b < 0xDC {
            lemma_decode_cells_advances(buf, off + 1, count + 1);
        } else {
            lemma_decode_cells_advances(buf, off + 1 + opcode_unit(b), count + opcode_cells(b));
        }
    }
}

/// A row that decodes moves the stream forward, and not past its end.
pub proof fn lemma_decode_row_advances(buf: Seq<u8>, origin: int, off: int)
    requires
        0 <= off < buf.len(),
        decode_row_at(buf, origin, off) is Ok,
    ensures
        off < decode_row_at(buf, origin, off)->Ok_0.1 <= buf.len(),
{
    if buf[off] != 0xDB {
        lemma_decode_cells_advances(buf, off, 0);
    }
}

#[via_fn]
proof fn decode_from_decreases(buf: Seq<u8>, origin: int, off: int) {
    if 0 <= off < buf.len() && decode_row_at(buf, origin, off) is Ok {
        lemma_decode_row_advances(buf, origin, off);
    }
}

} // verus!
