//! The stream encoder: row codes, with back-references to repeated rows.
use vstd::prelude::*;
use crate::format::{CodecError, BACKREF_MARKER, ROW_WIDTH};
use crate::row::encode_row;
use crate::tokens::{is_minimal_code, tokens_cells, tokens_code};

verus! {

/// Row `n` of a raw buffer.
pub open spec fn row_at(buf: Seq<u8>, n: int) -> Seq<u8> {
    buf.subrange(20 * n, 20 * n + 20)
}

/// The first of the rows before row `n` that equals `row`.
pub open spec fn first_occurrence(buf: Seq<u8>, row: Seq<u8>, n: nat) -> Option<nat>
    decreases n,
{
    if n == 0 {
        None
    } else {
        match first_occurrence(buf, row, (n - 1) as nat) {
            Some(m) => Some(m),
            None => if row_at(buf, n - 1) == row {
                Some((n - 1) as nat)
            } else {
                None
            },
        }
    }
}

/// The address recorded for a row whose code starts `len` bytes into the stream.
pub open spec fn row_address(origin: int, len: int) -> int {
    origin + len
}

/// The three bytes of a back-reference to `addr`.
pub open spec fn backref(addr: int) -> Seq<u8> {
    seq![0xDBu8, (addr % 256) as u8, (addr / 256) as u8]
}

/// The stream written for the first `codes.len()` rows of `buf`, row `i`
/// having the code `codes[i]`.
pub open spec fn encode_rows(buf: Seq<u8>, origin: int, codes: Seq<Seq<u8>>) -> Result<Seq<u8>, CodecError>
    decreases codes.len(),
    via encode_rows_decreases
{
    if codes.len() == 0 {
        Ok(Seq::empty())
    } else {
        let n = codes.len() - 1;
        match encode_rows(buf, origin, codes.drop_last()) {
            Err(x) => Err(x),
            Ok(prev) => {
                let c = codes.last();
                if c.len() <= 3 {
                    Ok(prev + c)
                } else {
                    match first_occurrence(buf, row_at(buf, n), n as nat) {
                        None => Ok(prev + c),
                        Some(m) => {
                            let addr = row_address(origin, encode_rows(buf, origin, codes.subrange(0, m as int))->Ok_0.len() as int);
                            if addr > 0xFFFF {
                                Err(CodecError::AddressOverflow)
                            } else {
                                Ok(prev + backref(addr))
                            }
                        },
                    }
                }
            },
        }
    }
}

#[via_fn]
proof fn encode_rows_decreases(buf: Seq<u8>, origin: int, codes: Seq<Seq<u8>>) {
    if codes.len() > 0 {
        let n = codes.len() - 1;
        lemma_first_occurrence(buf, row_at(buf, n), n as nat);
    }
}

/// Each of the codes is a shortest code of its row.
pub open spec fn minimal_codes(buf: Seq<u8>, codes: Seq<Seq<u8>>) -> bool {
    &&& codes.len() <= buf.len() / 20
    &&& forall|i: int| 0 <= i < codes.len() ==> is_minimal_code(#[trigger] codes[i], row_at(buf, i))
}

/// `out` is what encoding `buf` from `origin` gives: an error, or the stream
/// for all its rows, each written with a shortest code.
pub open spec fn encodes_stream(buf: Seq<u8>, origin: int, out: Result<Seq<u8>, CodecError>) -> bool {
    if buf.len() % 20 != 0 {
        out == Err::<Seq<u8>, CodecError>(CodecError::InputSize)
    } else {
        exists|codes: Seq<Seq<u8>>|
            #[trigger] minimal_codes(buf, codes) && encode_rows(buf, origin, codes) == out && (out is Ok
                ==> codes.len() == buf.len() / 20)
    }
}

pub open spec fn result_view(r: Result<Vec<u8>, CodecError>) -> Result<Seq<u8>, CodecError> {
    match r {
        Ok(v) => Ok(v@),
        Err(x) => Err(x),
    }
}

pub proof fn lemma_first_occurrence(buf: Seq<u8>, row: Seq<u8>, n: nat)
    ensures
        match first_occurrence(buf, row, n) {
            Some(m) => m < n && row_at(buf, m as int) == row && forall|k: int|
                0 <= k < m ==> row_at(buf, k) != row,
            None => forall|k: int| 0 <= k < n ==> row_at(buf, k) != row,
        },
    decreases n,
{
    if n > 0 {
        lemma_first_occurrence(buf, row, (n - 1) as nat);
    }
}

/// Two shortest codes of one row have the same length.
pub proof fn lemma_minimal_len(c1: Seq<u8>, c2: Seq<u8>, row: Seq<u8>)
    requires
        is_minimal_code(c1, row),
        is_minimal_code(c2, row),
    ensures
        c1.len() == c2.len(),
{
    let t1 = choose|ts| #[trigger] tokens_code(ts) == c1 && crate::tokens::tokens_legal(ts) && tokens_cells(ts) == row;
    let t2 = choose|ts| #[trigger] tokens_code(ts) == c2 && crate::tokens::tokens_legal(ts) && tokens_cells(ts) == row;
    assert(tokens_cells(t1) == row);
    assert(tokens_cells(t2) == row);
}

/// Whether the rows of twenty bytes at `s1` and `s2` are equal.
fn rows_equal(buf: &[u8], s1: usize, s2: usize) -> (r: bool)
    requires
        s1 + 20 <= buf@.len(),
        s2 + 20 <= buf@.len(),
    ensures
        r == (buf@.subrange(s1 as int, s1 + 20) == buf@.subrange(s2 as int, s2 + 20)),
{
    let len: usize = buf.len();
    let mut q: usize = 0;
    while q < ROW_WIDTH
        invariant
            len == buf@.len(),
            s1 + 20 <= buf@.len(),
            s2 + 20 <= buf@.len(),
            q <= 20,
            buf@.subrange(s1 as int, s1 + q) == buf@.subrange(s2 as int, s2 + q),
        decreases 20 - q,
    {
        if buf[s1 + q] != buf[s2 + q] {
            proof {
                assert(buf@.subrange(s1 as int, s1 + 20)[q as int] != buf@.subrange(s2 as int, s2 + 20)[q as int]);
            }
            return false;
        }
        proof {
            assert(buf@.subrange(s1 as int, s1 + q + 1) =~= buf@.subrange(s1 as int, s1 + q).push(buf@[s1 + q]));
            assert(buf@.subrange(s2 as int, s2 + q + 1) =~= buf@.subrange(s2 as int, s2 + q).push(buf@[s2 + q]));
        }
        q = q + 1;
    }
    true
}

/// The first entry of the table whose row equals the row at `start`.
fn find_row(buf: &[u8], table: &Vec<(usize, usize)>, start: usize) -> (r: Option<usize>)
    requires
        start + 20 <= buf@.len(),
        forall|t: int| 0 <= t < table@.len() ==> (#[trigger] table@[t]).0 + 20 <= buf@.len(),
    ensures
        r matches Some(t) ==> t < table@.len() && buf@.subrange(table@[t as int].0 as int, table@[t as int].0 + 20)
            == buf@.subrange(start as int, start + 20),
        r is None ==> forall|t: int|
            0 <= t < table@.len() ==> buf@.subrange((#[trigger] table@[t]).0 as int, table@[t].0 + 20)
                != buf@.subrange(start as int, start + 20),
{
    let mut t: usize = 0;
    while t < table.len()
        invariant
            start + 20 <= buf@.len(),
            forall|t: int| 0 <= t < table@.len() ==> (#[trigger] table@[t]).0 + 20 <= buf@.len(),
            t <= table@.len(),
            forall|u: int|
                0 <= u < t ==> buf@.subrange((#[trigger] table@[u]).0 as int, table@[u].0 + 20) != buf@.subrange(
                    start as int,
                    start + 20,
                ),
        decreases table@.len() - t,
    {
        if rows_equal(buf, table[t].0, start) {
            return Some(t);
        }
        t = t + 1;
    }
    None
}

/// An address as the table keeps it: any address past 16 bits as 0x10000.
pub open spec fn clamp_addr(addr: int) -> int {
    if addr > 0xFFFF {
        0x10000
    } else {
        addr
    }
}

/// A table entry: the offset of a row's first occurrence whose code is
/// longer than a back-reference, and the address of that code.
spec fn entry_ok(buf: Seq<u8>, origin: int, codes: Seq<Seq<u8>>, e: (usize, usize)) -> bool {
    let m = e.0 as int / 20;
    &&& e.0 as int % 20 == 0
    &&& 0 <= m < codes.len()
    &&& codes[m].len() > 3
    &&& first_occurrence(buf, row_at(buf, m), m as nat) is None
    &&& e.1 == clamp_addr(
        row_address(origin, encode_rows(buf, origin, codes.subrange(0, m))->Ok_0.len() as int),
    )
}

/// What the encoder holds after the rows that `codes` writes.
spec fn encoder_state(
    buf: Seq<u8>,
    origin: int,
    codes: Seq<Seq<u8>>,
    encoded: Seq<u8>,
    table: Seq<(usize, usize)>,
) -> bool {
    &&& minimal_codes(buf, codes)
    &&& encode_rows(buf, origin, codes) == Ok::<Seq<u8>, CodecError>(encoded)
    &&& forall|t: int| 0 <= t < table.len() ==> entry_ok(buf, origin, codes, #[trigger] table[t])
    &&& forall|m: int|
        0 <= m < codes.len() && #[trigger] codes[m].len() > 3 && first_occurrence(buf, row_at(buf, m), m as nat)
            is None ==> exists|t: int| 0 <= t < table.len() && #[trigger] table[t].0 == 20 * m
}

/// Writes row `n`, whose shortest code is `rle`: as itself, or as a
/// back-reference to its first occurrence.
fn push_row(
    buf: &[u8],
    origin: usize,
    start: usize,
    rle: &Vec<u8>,
    encoded: &mut Vec<u8>,
    table: &mut Vec<(usize, usize)>,
    Ghost(codes): Ghost<Seq<Seq<u8>>>,
) -> (r: Result<(), CodecError>)
    requires
        buf@.len() % 20 == 0,
        start == 20 * codes.len(),
        start + 20 <= buf@.len(),
        encoder_state(buf@, origin as int, codes, old(encoded)@, old(table)@),
        is_minimal_code(rle@, row_at(buf@, codes.len() as int)),
    ensures
        r is Ok ==> encoder_state(buf@, origin as int, codes.push(rle@), final(encoded)@, final(table)@),
        r matches Err(x) ==> encode_rows(buf@, origin as int, codes.push(rle@)) == Err::<Seq<u8>, CodecError>(x),
{
    let ghost n = codes.len() as int;
    let ghost new_codes = codes.push(rle@);
    let ghost row = row_at(buf@, n);
    proof {
        assert(new_codes.drop_last() =~= codes);
        assert(new_codes.last() == rle@);
        assert(minimal_codes(buf@, new_codes)) by {
            assert forall|i: int| 0 <= i < new_codes.len() implies is_minimal_code(#[trigger] new_codes[i], row_at(buf@, i)) by {
                if i < n {
                    assert(new_codes[i] == codes[i]);
                }
            }
            assert(buf@.len() / 20 >= n + 1);
        }
        assert forall|m: int| 0 <= m < n implies #[trigger] new_codes.subrange(0, m) == codes.subrange(0, m) by {
            assert(new_codes.subrange(0, m) =~= codes.subrange(0, m));
        }
        assert(new_codes.subrange(0, n) =~= codes);
        assert forall|t: int| 0 <= t < table@.len() implies entry_ok(buf@, origin as int, new_codes, #[trigger] table@[t]) by {
            let m = table@[t].0 as int / 20;
            assert(entry_ok(buf@, origin as int, codes, table@[t]));
            assert(new_codes.subrange(0, m) == codes.subrange(0, m));
            assert(new_codes[m] == codes[m]);
        }
    }
    if rle.len() <= 3 {
        encoded.extend_from_slice(rle.as_slice());
        proof {
            assert(encoded@ =~= old(encoded)@ + rle@);
            assert forall|m: int|
                0 <= m < new_codes.len() && #[trigger] new_codes[m].len() > 3 && first_occurrence(buf@, row_at(buf@, m), m as nat)
                    is None implies exists|t: int| 0 <= t < table@.len() && #[trigger] table@[t].0 == 20 * m by {
                assert(new_codes[m] == codes[m]);
            }
        }
        return Ok(());
    }
    match find_row(buf, table, start) {
        Some(t) => {
            let (s, a) = table[t];
            let ghost m = s as int / 20;
            proof {
                assert(entry_ok(buf@, origin as int, codes, table@[t as int]));
                lemma_first_occurrence(buf@, row_at(buf@, m), m as nat);
                lemma_first_occurrence(buf@, row, n as nat);
                assert(row_at(buf@, m) == buf@.subrange(s as int, s + 20));
                assert(first_occurrence(buf@, row, n as nat) == Some(m as nat));
            }
            if a > 0xFFFF {
                return Err(CodecError::AddressOverflow);
            }
            encoded.push(BACKREF_MARKER);
            encoded.push((a % 256) as u8);
            encoded.push((a / 256) as u8);
            proof {
                assert(encoded@ =~= old(encoded)@ + backref(a as int));
                assert forall|k: int|
                    0 <= k < new_codes.len() && #[trigger] new_codes[k].len() > 3 && first_occurrence(buf@, row_at(buf@, k), k as nat)
                        is None implies exists|u: int| 0 <= u < table@.len() && #[trigger] table@[u].0 == 20 * k by {
                    if k == n {
                        assert(first_occurrence(buf@, row, n as nat) is Some);
                    } else {
                        assert(new_codes[k] == codes[k]);
                    }
                }
            }
            Ok(())
        },
        None => {
            let a: usize = if origin <= 0xFFFF && encoded.len() <= 0xFFFF - origin {
                origin + encoded.len()
            } else {
                0x10000
            };
            proof {
                lemma_first_occurrence(buf@, row, n as nat);
                if first_occurrence(buf@, row, n as nat) is Some {
                    let m = first_occurrence(buf@, row, n as nat)->Some_0 as int;
                    lemma_first_occurrence(buf@, row_at(buf@, m), m as nat);
                    assert(first_occurrence(buf@, row_at(buf@, m), m as nat) is None);
                    lemma_minimal_len(codes[m], rle@, row);
                    assert(codes[m].len() > 3);
                    let u = choose|u: int| 0 <= u < table@.len() && #[trigger] table@[u].0 == 20 * m;
                    assert(buf@.subrange(table@[u].0 as int, table@[u].0 + 20) == row_at(buf@, m));
                    assert(false);
                }
            }
            let ghost old_table = table@;
            table.push((start, a));
            encoded.extend_from_slice(rle.as_slice());
            proof {
                assert(encoded@ =~= old(encoded)@ + rle@);
                assert(entry_ok(buf@, origin as int, new_codes, (start, a)));
                assert forall|t: int| 0 <= t < table@.len() implies entry_ok(buf@, origin as int, new_codes, #[trigger] table@[t]) by {
                    if t < old_table.len() {
                        assert(table@[t] == old_table[t]);
                    }
                }
                assert forall|k: int|
                    0 <= k < new_codes.len() && #[trigger] new_codes[k].len() > 3 && first_occurrence(buf@, row_at(buf@, k), k as nat)
                        is None implies exists|u: int| 0 <= u < table@.len() && #[trigger] table@[u].0 == 20 * k by {
                    if k == n {
                        assert(table@[old_table.len() as int].0 == 20 * k);
                    } else {
                        assert(new_codes[k] == codes[k]);
                        let u = choose|u: int| 0 <= u < old_table.len() && #[trigger] old_table[u].0 == 20 * k;
                        assert(table@[u] == old_table[u]);
                    }
                }
            }
            Ok(())
        },
    }
}

/// Encodes raw rows of twenty bytes; a back-reference holds `origin` plus
/// the offset in the stream of the row's first code.
pub fn encode(buf: &[u8], origin: usize) -> (r: Result<Vec<u8>, CodecError>)
    ensures
        encodes_stream(buf@, origin as int, result_view(r)),
{
    if buf.len() % ROW_WIDTH != 0 {
        return Err(CodecError::InputSize);
    }
    let blen: usize = buf.len();
    let rows: usize = buf.len() / ROW_WIDTH;
    let mut encoded: Vec<u8> = Vec::new();
    // Each entry: the offset in `buf` of a row's first occurrence, and its address.
    let mut table: Vec<(usize, usize)> = Vec::new();
    let ghost mut codes: Seq<Seq<u8>> = Seq::empty();
    let mut start: usize = 0;
    let mut n: usize = 0;
    proof {
        vstd::arithmetic::div_mod::lemma_fundamental_div_mod(buf@.len() as int, 20);
    }
    while n < rows
        invariant
            blen == buf@.len(),
            rows == buf@.len() / 20,
            buf@.len() == 20 * rows,
            buf@.len() % 20 == 0,
            n <= rows,
            start == 20 * n,
            codes.len() == n,
            encoder_state(buf@, origin as int, codes, encoded@, table@),
        decreases rows - n,
    {
        let row = vstd::slice::slice_subrange(buf, start, start + ROW_WIDTH);
        let rle = encode_row(row);
        let res = push_row(buf, origin, start, &rle, &mut encoded, &mut table, Ghost(codes));
        if let Err(x) = res {
            proof {
                codes = codes.push(rle@);
                assert(minimal_codes(buf@, codes)) by {
                    assert forall|i: int| 0 <= i < codes.len() implies is_minimal_code(#[trigger] codes[i], row_at(buf@, i)) by {
                        if i < n {
                            assert(codes[i] == codes.drop_last()[i]);
                        }
                    }
                }
            }
            return Err(x);
        }
        proof {
            codes = codes.push(rle@);
        }
        n = n + 1;
        start = start + ROW_WIDTH;
    }
    Ok(encoded)
}

} // verus!
