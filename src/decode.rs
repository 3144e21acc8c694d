//! The stream decoder: expands codes back into raw rows.
use vstd::prelude::*;
use crate::format::{
    decode_cells, decode_from, decode_row_at, lemma_decode_row_advances, opcode_cells, opcode_repeat, opcode_unit, repeat_seq, stored_addr,
    CodecError, BACKREF_MARKER, FIRST_RUN_OPCODE, ROW_WIDTH,
};

verus! {

/// `p` put in front of the cells of a row decoding result.
pub open spec fn prefixed(p: Seq<u8>, r: Result<(Seq<u8>, int), CodecError>) -> Result<(Seq<u8>, int), CodecError> {
    match r {
        Ok((c, e)) => Ok((p + c, e)),
        Err(x) => Err(x),
    }
}

/// Decodes a whole stream whose back-references hold addresses counted from `origin`.
pub fn decode(buf: &[u8], origin: usize) -> (r: Result<Vec<u8>, CodecError>)
    ensures
        match decode_from(buf@, origin as int, 0) {
            Ok(raw) => r is Ok && r->Ok_0@ == raw,
            Err(x) => r == Err::<Vec<u8>, CodecError>(x),
        },
{
    let mut decoded: Vec<u8> = Vec::new();
    let mut offset: usize = 0;
    while offset < buf.len()
        invariant
            offset <= buf@.len(),
            decode_from(buf@, origin as int, 0) == match decode_from(buf@, origin as int, offset as int) {
                Ok(rest) => Ok(decoded@ + rest),
                Err(x) => Err(x),
            },
        decreases buf@.len() - offset,
    {
        let ghost before = decoded@;
        let ghost off0 = offset as int;
        let res = decode_row(buf, origin, &mut offset, &mut decoded);
        if let Err(x) = res {
            return Err(x);
        }
        proof {
            lemma_decode_row_advances(buf@, origin as int, off0);
            let row = decode_row_at(buf@, origin as int, off0)->Ok_0.0;
            match decode_from(buf@, origin as int, offset as int) {
                Ok(s) => {
                    assert(before + (row + s) =~= decoded@ + s);
                },
                Err(_) => {},
            }
        }
    }
    proof {
        assert(decoded@ + Seq::<u8>::empty() =~= decoded@);
    }
    Ok(decoded)
}

/// Decodes the row that starts at `*offset`, itself or through its
/// back-reference, leaving `*offset` at the next row.
fn decode_row(buf: &[u8], origin: usize, offset: &mut usize, decoded: &mut Vec<u8>) -> (r: Result<(), CodecError>)
    requires
        *old(offset) < buf@.len(),
    ensures
        match decode_row_at(buf@, origin as int, *old(offset) as int) {
            Ok((row, next)) => r is Ok && final(decoded)@ == old(decoded)@ + row && *final(offset) == next,
            Err(x) => r == Err::<(), CodecError>(x),
        },
{
    let ghost off0 = *offset as int;
    let start: usize = *offset;
    let first = match peek(buf, &start) {
        Ok(v) => v,
        Err(x) => return Err(x),
    };
    if first == BACKREF_MARKER {
        if let Err(x) = read(buf, offset) {
            return Err(x);
        }
        let addr = match read_addr(buf, offset) {
            Ok(v) => v,
            Err(x) => return Err(x),
        };
        if addr < origin {
            return Err(CodecError::AddressUnderflow);
        }
        let mut offset_ref = addr - origin;
        if offset_ref < buf.len() && buf[offset_ref] == BACKREF_MARKER {
            return Err(CodecError::NestedReference);
        }
        if let Err(x) = decode_row_rle(buf, &mut offset_ref, decoded) {
            return Err(x);
        }
        proof {
            assert(stored_addr(buf@, off0) == addr);
        }
    } else {
        if let Err(x) = decode_row_rle(buf, offset, decoded) {
            return Err(x);
        }
    }
    Ok(())
}

/// Decodes the cells of one row from `*offset`, leaving `*offset` after them.
fn decode_row_rle(buf: &[u8], offset: &mut usize, decoded: &mut Vec<u8>) -> (r: Result<(), CodecError>)
    ensures
        match decode_cells(buf@, *old(offset) as int, 0) {
            Ok((cells, end)) => r is Ok && final(decoded)@ == old(decoded)@ + cells && *final(offset) == end,
            Err(x) => r == Err::<(), CodecError>(x),
        },
{
    let ghost off0 = *offset as int;
    let ghost d0 = decoded@;
    let mut cell_count: usize = 0;
    while cell_count < ROW_WIDTH
        invariant
            off0 == *old(offset) as int,
            d0 == old(decoded)@,
            cell_count <= ROW_WIDTH,
            decoded@.len() >= d0.len(),
            decoded@.subrange(0, d0.len() as int) == d0,
            decode_cells(buf@, off0, 0) == prefixed(
                decoded@.subrange(d0.len() as int, decoded@.len() as int),
                decode_cells(buf@, *offset as int, cell_count as nat),
            ),
        decreases ROW_WIDTH - cell_count,
    {
        let ghost p = decoded@.subrange(d0.len() as int, decoded@.len() as int);
        let ghost o = *offset as int;
        let first = match read(buf, offset) {
            Ok(v) => v,
            Err(x) => {
                assert(decode_cells(buf@, o, cell_count as nat) == Err::<(Seq<u8>, int), CodecError>(x));
                return Err(x);
            },
        };
        if first < FIRST_RUN_OPCODE {
            decoded.push(first);
            cell_count = cell_count + 1;
            proof {
                assert(decoded@.subrange(d0.len() as int, decoded@.len() as int) =~= p + seq![first]);
                match decode_cells(buf@, *offset as int, cell_count as nat) {
                    Ok((c, e)) => {
                        assert(p + (seq![first] + c) =~= p + seq![first] + c);
                    },
                    Err(_) => {},
                }
            }
        } else {
            let (rep, unit, cells): (usize, usize, usize) = if first >= 0xEE {
                ((first - 0xEB) as usize, 1, (first - 0xEB) as usize)
            } else if first >= 0xE5 {
                ((first - 0xE3) as usize, 2, 2 * (first - 0xE3) as usize)
            } else if first >= 0xE0 {
                ((first - 0xDE) as usize, 3, 3 * (first - 0xDE) as usize)
            } else {
                ((first - 0xDA) as usize, 4, 4 * (first - 0xDA) as usize)
            };
            assert(unit == opcode_unit(first) && rep == opcode_repeat(first));
            let seq = match read_slice(buf, offset, unit) {
                Ok(v) => v,
                Err(x) => return Err(x),
            };
            if cell_count + cells > ROW_WIDTH {
                return Err(CodecError::RowOverflow);
            }
            assert(cells == opcode_cells(first));
            let mut t: usize = 0;
            while t < rep
                invariant
                    t <= rep,
                    seq@.len() == unit,
                    decoded@.len() >= d0.len(),
                    decoded@.subrange(0, d0.len() as int) == d0,
                    decoded@.subrange(d0.len() as int, decoded@.len() as int) == p + repeat_seq(seq@, t as nat),
                decreases rep - t,
            {
                let ghost before = decoded@;
                decoded.extend_from_slice(seq);
                t = t + 1;
                proof {
                    assert(decoded@ =~= before + seq@);
                    assert(decoded@.subrange(0, d0.len() as int) =~= before.subrange(0, d0.len() as int));
                    assert(decoded@.subrange(d0.len() as int, decoded@.len() as int)
                        =~= before.subrange(d0.len() as int, before.len() as int) + seq@);
                }
            }
            cell_count = cell_count + cells;
            proof {
                assert(seq@ == buf@.subrange(o + 1, o + 1 + unit));
                match decode_cells(buf@, *offset as int, cell_count as nat) {
                    Ok((c, e)) => {
                        assert(p + (repeat_seq(seq@, rep as nat) + c) =~= p + repeat_seq(seq@, rep as nat) + c);
                    },
                    Err(_) => {},
                }
            }
        }
    }
    proof {
        assert(decoded@ =~= d0 + decoded@.subrange(d0.len() as int, decoded@.len() as int));
        assert(decoded@.subrange(d0.len() as int, decoded@.len() as int) + Seq::<u8>::empty()
            =~= decoded@.subrange(d0.len() as int, decoded@.len() as int));
    }
    Ok(())
}

/// Takes the `len` bytes at `*offset`, moving `*offset` past them.
fn read_slice<'a>(buf: &'a [u8], offset: &mut usize, len: usize) -> (r: Result<&'a [u8], CodecError>)
    ensures
        *old(offset) + len <= buf@.len() ==> r is Ok && r->Ok_0@ == buf@.subrange(
            *old(offset) as int,
            *old(offset) + len,
        ) && *final(offset) == *old(offset) + len,
        *old(offset) + len > buf@.len() ==> r == Err::<&[u8], CodecError>(CodecError::StreamBounds),
{
    if len > buf.len() || *offset > buf.len() - len {
        return Err(CodecError::StreamBounds);
    }
    let res = vstd::slice::slice_subrange(buf, *offset, *offset + len);
    *offset = *offset + len;
    Ok(res)
}

/// Reads the little-endian 16-bit address at `*offset`, moving `*offset` past it.
fn read_addr(buf: &[u8], offset: &mut usize) -> (r: Result<usize, CodecError>)
    ensures
        *old(offset) + 2 <= buf@.len() ==> r is Ok && r->Ok_0 == buf@[*old(offset) as int] + 256
            * buf@[*old(offset) + 1] && *final(offset) == *old(offset) + 2,
        *old(offset) + 2 > buf@.len() ==> r == Err::<usize, CodecError>(CodecError::StreamBounds),
{
    let lo = match read(buf, offset) {
        Ok(v) => v,
        Err(x) => return Err(x),
    };
    let hi = match read(buf, offset) {
        Ok(v) => v,
        Err(x) => return Err(x),
    };
    Ok(lo as usize + 256 * (hi as usize))
}

/// Reads the byte at `*offset`, moving `*offset` past it.
fn read(buf: &[u8], offset: &mut usize) -> (r: Result<u8, CodecError>)
    ensures
        *old(offset) < buf@.len() ==> r == Ok::<u8, CodecError>(buf@[*old(offset) as int]) && *final(offset)
            == *old(offset) + 1,
        *old(offset) >= buf@.len() ==> r == Err::<u8, CodecError>(CodecError::StreamBounds),
{
    if *offset < buf.len() {
        let res = buf[*offset];
        *offset = *offset + 1;
        Ok(res)
    } else {
        Err(CodecError::StreamBounds)
    }
}

/// The byte at `*offset`, which stays where it is.
fn peek(buf: &[u8], offset: &usize) -> (r: Result<u8, CodecError>)
    ensures
        *offset < buf@.len() ==> r == Ok::<u8, CodecError>(buf@[*offset as int]),
        *offset >= buf@.len() ==> r == Err::<u8, CodecError>(CodecError::StreamBounds),
{
    if *offset < buf.len() {
        Ok(buf[*offset])
    } else {
        Err(CodecError::StreamBounds)
    }
}

} // verus!
