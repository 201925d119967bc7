//! Error detection and correction codes of data sectors.
//!
//! A data sector ends in a checksum (EDC) over its content and, except in
//! Mode 2 Form 2, in the parity bytes (ECC) of two interleaved Reed-Solomon
//! codes over the field with 256 elements: 86 columns of 24 bytes (P), then 52
//! diagonals of 43 bytes (Q).

use vstd::prelude::*;
use crate::disc::SectorType;

verus! {

/// Byte position of the bytes that the parity codes protect.
pub const ECC_START: usize = 12;

/// Byte position of the P parity.
pub const P_START: usize = 2076;

/// Byte position of the Q parity.
pub const Q_START: usize = 2248;

/// Number of P columns.
pub const P_COLUMNS: usize = 86;

/// Number of data bytes in a P column.
pub const P_ROWS: usize = 24;

/// Number of Q diagonals.
pub const Q_DIAGONALS: usize = 52;

/// Number of data bytes in a Q diagonal.
pub const Q_LENGTH: usize = 43;

/// Number of bytes that the Q diagonals run over.
pub const Q_SPAN: usize = 2236;

// ---------------------------------------------------------------------------
// Checksum
// ---------------------------------------------------------------------------

/// One step of the checksum's shift register.
pub open spec fn edc_shift(crc: u32) -> u32 {
    if crc & 1 == 1 {
        (crc >> 1) ^ 0xD801_8001u32
    } else {
        crc >> 1
    }
}

/// The shift register after `steps` steps.
pub open spec fn edc_shifts(crc: u32, steps: nat) -> u32
    decreases steps,
{
    if steps == 0 {
        crc
    } else {
        edc_shift(edc_shifts(crc, (steps - 1) as nat))
    }
}

/// The checksum of a byte sequence: the remainder of a 32-bit cyclic code,
/// least significant bit first, starting from zero.
pub open spec fn edc(bytes: Seq<u8>) -> u32
    decreases bytes.len(),
{
    if bytes.len() == 0 {
        0
    } else {
        edc_shifts(edc(bytes.drop_last()) ^ (bytes.last() as u32), 8)
    }
}

/// A 32-bit word as four bytes, least significant first.
pub open spec fn word_bytes(word: u32) -> Seq<u8> {
    seq![
        (word & 0xff) as u8,
        ((word >> 8) & 0xff) as u8,
        ((word >> 16) & 0xff) as u8,
        ((word >> 24) & 0xff) as u8,
    ]
}

/// First byte that the checksum of a sector covers.
pub open spec fn edc_from(sector_type: SectorType) -> int {
    match sector_type {
        SectorType::Mode1 => 0,
        _ => 16,
    }
}

/// First byte behind those that the checksum of a sector covers; the checksum
/// itself is stored there.
pub open spec fn edc_to(sector_type: SectorType) -> int {
    match sector_type {
        SectorType::Mode1 => 2064,
        SectorType::Mode2Form1 => 2072,
        _ => 2348,
    }
}

/// The checksum bytes that belong into a sector of the given type.
pub open spec fn edc_bytes(sector: Seq<u8>, sector_type: SectorType) -> Seq<u8> {
    word_bytes(edc(sector.subrange(edc_from(sector_type), edc_to(sector_type))))
}

/// Computes the checksum of a byte sequence.
pub fn edc_of(bytes: &[u8]) -> (crc: u32)
    ensures
        crc == edc(bytes@),
{
    let mut crc: u32 = 0;
    let mut i: usize = 0;
    assert(bytes@.take(0) =~= Seq::<u8>::empty());
    while i < bytes.len()
        invariant
            i <= bytes@.len(),
            crc == edc(bytes@.take(i as int)),
        decreases bytes@.len() - i,
    {
        proof {
            let next = bytes@.take(i + 1);
            assert(next.drop_last() =~= bytes@.take(i as int));
            assert(next.last() == bytes@[i as int]);
        }
        let start: u32 = crc ^ (bytes[i] as u32);
        crc = start;
        let mut step: u32 = 0;
        while step < 8
            invariant
                step <= 8,
                crc == edc_shifts(start, step as nat),
            decreases 8 - step,
        {
            crc = if crc & 1 == 1 {
                (crc >> 1) ^ 0xD801_8001u32
            } else {
                crc >> 1
            };
            step += 1;
        }
        i += 1;
    }
    assert(bytes@.take(i as int) =~= bytes@);
    crc
}

/// Computes the checksum bytes of a sector of type Mode 1, Mode 2 Form 1 or
/// Mode 2 Form 2.
pub fn calculate_edc(sector: &[u8; 2352], sector_type: SectorType) -> (bytes: [u8; 4])
    ensures
        bytes@ == edc_bytes(sector@, sector_type),
{
    let from: usize = match sector_type {
        SectorType::Mode1 => 0,
        _ => 16,
    };
    let to: usize = match sector_type {
        SectorType::Mode1 => 2064,
        SectorType::Mode2Form1 => 2072,
        _ => 2348,
    };
    let crc = edc_of(&sector[from..to]);
    let bytes = [
        (crc & 0xff) as u8,
        ((crc >> 8) & 0xff) as u8,
        ((crc >> 16) & 0xff) as u8,
        ((crc >> 24) & 0xff) as u8,
    ];
    assert(bytes@ =~= word_bytes(crc));
    bytes
}

// ---------------------------------------------------------------------------
// Parity
// ---------------------------------------------------------------------------

/// Multiplication by the generator of the field, whose elements are bytes
/// modulo the polynomial `0x11D`.
pub open spec fn gf_double(x: u8) -> u8 {
    if x & 0x80 == 0x80 {
        (x << 1) ^ 0x1d
    } else {
        x << 1
    }
}

/// The sum of a codeword's symbols.
pub open spec fn symbol_sum(symbols: Seq<u8>) -> u8
    decreases symbols.len(),
{
    if symbols.len() == 0 {
        0
    } else {
        symbol_sum(symbols.drop_last()) ^ symbols.last()
    }
}

/// The value at the generator of the polynomial whose coefficients are the
/// symbols, highest power first.
pub open spec fn symbol_value(symbols: Seq<u8>) -> u8
    decreases symbols.len(),
{
    if symbols.len() == 0 {
        0
    } else {
        gf_double(symbol_value(symbols.drop_last())) ^ symbols.last()
    }
}

/// Whether a sequence of symbols is a word of the code: as a polynomial it
/// vanishes at one and at the generator.
pub open spec fn is_codeword(symbols: Seq<u8>) -> bool {
    symbol_sum(symbols) == 0 && symbol_value(symbols) == 0
}

/// The symbols of a P column, the last two of which are parity.
pub open spec fn p_column(sector: Seq<u8>, column: int) -> Seq<u8> {
    Seq::new(26, |row: int| sector[12 + column + 86 * row])
}

/// Byte position of a data symbol of a Q diagonal.
pub open spec fn q_position(diagonal: int, step: int) -> int {
    12 + ((diagonal / 2) * 86 + diagonal % 2 + 88 * step) % 2236
}

/// The symbols of a Q diagonal, the last two of which are parity.
pub open spec fn q_diagonal(sector: Seq<u8>, diagonal: int) -> Seq<u8> {
    Seq::new(
        45,
        |step: int|
            if step < 43 {
                sector[q_position(diagonal, step)]
            } else {
                sector[2248 + diagonal + 52 * (step - 43)]
            },
    )
}

/// Whether the parity bytes of a sector fit its content.
pub open spec fn ecc_valid(sector: Seq<u8>) -> bool {
    &&& forall|column: int|
        0 <= column < 86 ==> is_codeword(#[trigger] p_column(sector, column))
    &&& forall|diagonal: int|
        0 <= diagonal < 52 ==> is_codeword(#[trigger] q_diagonal(sector, diagonal))
}

fn double(x: u8) -> (y: u8)
    ensures
        y == gf_double(x),
{
    if x & 0x80 == 0x80 {
        (x << 1) ^ 0x1d
    } else {
        x << 1
    }
}

/// The two parity symbols that complete data symbols with the given sum and
/// value to a codeword.
fn parity(sum: u8, value: u8) -> (pair: (u8, u8))
    ensures
        sum ^ pair.0 ^ pair.1 == 0,
        gf_double(gf_double(value) ^ pair.0) ^ pair.1 == 0,
{
    let shifted = double(double(value));
    let s = shifted ^ sum;
    // Division by the generator plus one.
    let s2 = double(double(s));
    let s4 = double(double(s2));
    let s5 = double(s4);
    let s6 = double(s5);
    let s7 = double(s6);
    let first = s2 ^ s4 ^ s5 ^ s6 ^ s7;
    let second = first ^ sum;
    proof {
        lemma_division(s);
        lemma_parity(sum, value, first);
    }
    (first, second)
}

/// Dividing by the generator plus one.
pub open spec fn gf_third(s: u8) -> u8 {
    let s2 = gf_double(gf_double(s));
    let s4 = gf_double(gf_double(s2));
    let s5 = gf_double(s4);
    let s6 = gf_double(s5);
    let s7 = gf_double(s6);
    s2 ^ s4 ^ s5 ^ s6 ^ s7
}

proof fn lemma_division(s: u8)
    ensures
        gf_double(gf_third(s)) ^ gf_third(s) == s,
{
    assert(gf_double(gf_third(s)) ^ gf_third(s) == s) by (bit_vector);
}

proof fn lemma_parity(sum: u8, value: u8, first: u8)
    requires
        gf_double(first) ^ first == gf_double(gf_double(value)) ^ sum,
    ensures
        sum ^ first ^ (first ^ sum) == 0,
        gf_double(gf_double(value) ^ first) ^ (first ^ sum) == 0,
{
    assert(sum ^ first ^ (first ^ sum) == 0) by (bit_vector);
    assert(gf_double(gf_double(value) ^ first) ^ (first ^ sum) == 0) by (bit_vector)
        requires
            gf_double(first) ^ first == gf_double(gf_double(value)) ^ sum,
    ;
}

/// The parity symbols of a codeword follow from its data symbols.
proof fn lemma_parity_unique(sum: u8, value: u8, p: (u8, u8), q: (u8, u8))
    requires
        sum ^ p.0 ^ p.1 == 0,
        gf_double(gf_double(value) ^ p.0) ^ p.1 == 0,
        sum ^ q.0 ^ q.1 == 0,
        gf_double(gf_double(value) ^ q.0) ^ q.1 == 0,
    ensures
        p == q,
{
    let (p0, p1) = p;
    let (q0, q1) = q;
    assert(p0 == q0 && p1 == q1) by (bit_vector)
        requires
            sum ^ p0 ^ p1 == 0,
            gf_double(gf_double(value) ^ p0) ^ p1 == 0,
            sum ^ q0 ^ q1 == 0,
            gf_double(gf_double(value) ^ q0) ^ q1 == 0,
    ;
}

/// A word is a codeword once its last two symbols cancel what its data symbols
/// amount to.
proof fn lemma_completed(symbols: Seq<u8>)
    requires
        symbols.len() >= 2,
        ({
            let n = symbols.len() - 2;
            let data = symbols.take(n);
            &&& symbol_sum(data) ^ symbols[n] ^ symbols[n + 1] == 0
            &&& gf_double(gf_double(symbol_value(data)) ^ symbols[n]) ^ symbols[n + 1] == 0
        }),
    ensures
        is_codeword(symbols),
{
    lemma_last_two(symbols);
}

/// The sum and the value of a word in terms of its data and its last two
/// symbols.
proof fn lemma_last_two(symbols: Seq<u8>)
    requires
        symbols.len() >= 2,
    ensures
        ({
            let n = symbols.len() - 2;
            let data = symbols.take(n);
            &&& symbol_sum(symbols) == symbol_sum(data) ^ symbols[n] ^ symbols[n + 1]
            &&& symbol_value(symbols) == gf_double(
                gf_double(symbol_value(data)) ^ symbols[n],
            ) ^ symbols[n + 1]
        }),
{
    let n = symbols.len() - 2;
    assert(symbols.drop_last().drop_last() =~= symbols.take(n));
    reveal_with_fuel(symbol_sum, 3);
    reveal_with_fuel(symbol_value, 3);
}

/// Taking one more symbol into account.
proof fn lemma_next_symbol(symbols: Seq<u8>, n: int)
    requires
        0 <= n < symbols.len(),
    ensures
        symbol_sum(symbols.take(n + 1)) == symbol_sum(symbols.take(n)) ^ symbols[n],
        symbol_value(symbols.take(n + 1)) == gf_double(symbol_value(symbols.take(n))) ^ symbols[n],
{
    assert(symbols.take(n + 1).drop_last() =~= symbols.take(n));
}

/// The parity symbols of a P column.
fn p_parity(sector: &[u8; 2352], column: usize) -> (pair: (u8, u8))
    requires
        column < 86,
    ensures
        ({
            let data = p_column(sector@, column as int).take(24);
            &&& symbol_sum(data) ^ pair.0 ^ pair.1 == 0
            &&& gf_double(gf_double(symbol_value(data)) ^ pair.0) ^ pair.1 == 0
        }),
{
    let ghost symbols = p_column(sector@, column as int);
    let mut sum: u8 = 0;
    let mut value: u8 = 0;
    let mut row: usize = 0;
    assert(symbols.take(0) =~= Seq::<u8>::empty());
    while row < P_ROWS
        invariant
            row <= 24,
            column < 86,
            symbols == p_column(sector@, column as int),
            sum == symbol_sum(symbols.take(row as int)),
            value == symbol_value(symbols.take(row as int)),
        decreases 24 - row,
    {
        let symbol: u8 = sector[ECC_START + column + P_COLUMNS * row];
        proof {
            lemma_next_symbol(symbols, row as int);
        }
        sum = sum ^ symbol;
        value = double(value) ^ symbol;
        row += 1;
    }
    parity(sum, value)
}

/// The parity symbols of a Q diagonal.
fn q_parity(sector: &[u8; 2352], diagonal: usize) -> (pair: (u8, u8))
    requires
        diagonal < 52,
    ensures
        ({
            let data = q_diagonal(sector@, diagonal as int).take(43);
            &&& symbol_sum(data) ^ pair.0 ^ pair.1 == 0
            &&& gf_double(gf_double(symbol_value(data)) ^ pair.0) ^ pair.1 == 0
        }),
{
    let ghost symbols = q_diagonal(sector@, diagonal as int);
    let mut sum: u8 = 0;
    let mut value: u8 = 0;
    let mut step: usize = 0;
    assert(symbols.take(0) =~= Seq::<u8>::empty());
    while step < Q_LENGTH
        invariant
            step <= 43,
            diagonal < 52,
            symbols == q_diagonal(sector@, diagonal as int),
            sum == symbol_sum(symbols.take(step as int)),
            value == symbol_value(symbols.take(step as int)),
        decreases 43 - step,
    {
        let at: usize = ECC_START + (diagonal / 2 * 86 + diagonal % 2 + 88 * step) % Q_SPAN;
        let symbol: u8 = sector[at];
        proof {
            assert(at == q_position(diagonal as int, step as int));
            lemma_next_symbol(symbols, step as int);
        }
        sum = sum ^ symbol;
        value = double(value) ^ symbol;
        step += 1;
    }
    parity(sum, value)
}

/// Writing a P column's parity completes that column and leaves the others.
proof fn lemma_p_written(before: Seq<u8>, after: Seq<u8>, column: int, pair: (u8, u8))
    requires
        before.len() == 2352,
        0 <= column < 86,
        after == before.update(2076 + column, pair.0).update(2162 + column, pair.1),
        ({
            let data = p_column(before, column).take(24);
            &&& symbol_sum(data) ^ pair.0 ^ pair.1 == 0
            &&& gf_double(gf_double(symbol_value(data)) ^ pair.0) ^ pair.1 == 0
        }),
    ensures
        is_codeword(p_column(after, column)),
        forall|other: int|
            0 <= other < 86 && other != column ==> #[trigger] p_column(after, other) == p_column(
                before,
                other,
            ),
{
    let symbols = p_column(after, column);
    assert(symbols.take(24) =~= p_column(before, column).take(24));
    lemma_completed(symbols);
    assert forall|other: int| 0 <= other < 86 && other != column implies #[trigger] p_column(
        after,
        other,
    ) == p_column(before, other) by {
        assert(p_column(after, other) =~= p_column(before, other));
    }
}

/// Writing a Q diagonal's parity completes that diagonal and leaves the others
/// and all P columns.
proof fn lemma_q_written(before: Seq<u8>, after: Seq<u8>, diagonal: int, pair: (u8, u8))
    requires
        before.len() == 2352,
        0 <= diagonal < 52,
        after == before.update(2248 + diagonal, pair.0).update(2300 + diagonal, pair.1),
        ({
            let data = q_diagonal(before, diagonal).take(43);
            &&& symbol_sum(data) ^ pair.0 ^ pair.1 == 0
            &&& gf_double(gf_double(symbol_value(data)) ^ pair.0) ^ pair.1 == 0
        }),
    ensures
        is_codeword(q_diagonal(after, diagonal)),
        forall|other: int|
            0 <= other < 52 && other != diagonal ==> #[trigger] q_diagonal(after, other)
                == q_diagonal(before, other),
        forall|column: int|
            0 <= column < 86 ==> #[trigger] p_column(after, column) == p_column(before, column),
{
    let symbols = q_diagonal(after, diagonal);
    assert(symbols.take(43) =~= q_diagonal(before, diagonal).take(43));
    lemma_completed(symbols);
    assert forall|other: int| 0 <= other < 52 && other != diagonal implies #[trigger] q_diagonal(
        after,
        other,
    ) == q_diagonal(before, other) by {
        assert(q_diagonal(after, other) =~= q_diagonal(before, other));
    }
    assert forall|column: int| 0 <= column < 86 implies #[trigger] p_column(after, column)
        == p_column(before, column) by {
        assert(p_column(after, column) =~= p_column(before, column));
    }
}

/// Fills in the parity bytes of a sector, one codeword after the other.
pub fn calc_ecc_bitwise(sector: &mut [u8; 2352])
    ensures
        ecc_valid(final(sector)@),
        final(sector)@.take(2076) == old(sector)@.take(2076),
{
    let mut column: usize = 0;
    while column < P_COLUMNS
        invariant
            column <= 86,
            sector@.take(2076) == old(sector)@.take(2076),
            forall|c: int| 0 <= c < column ==> is_codeword(#[trigger] p_column(sector@, c)),
        decreases 86 - column,
    {
        let pair = p_parity(sector, column);
        let ghost before = sector@;
        sector[P_START + column] = pair.0;
        sector[P_START + P_COLUMNS + column] = pair.1;
        proof {
            lemma_p_written(before, sector@, column as int, pair);
            assert(sector@.take(2076) =~= before.take(2076));
        }
        column += 1;
    }
    let mut diagonal: usize = 0;
    while diagonal < Q_DIAGONALS
        invariant
            diagonal <= 52,
            sector@.take(2076) == old(sector)@.take(2076),
            forall|c: int| 0 <= c < 86 ==> is_codeword(#[trigger] p_column(sector@, c)),
            forall|d: int| 0 <= d < diagonal ==> is_codeword(#[trigger] q_diagonal(sector@, d)),
        decreases 52 - diagonal,
    {
        let pair = q_parity(sector, diagonal);
        let ghost before = sector@;
        sector[Q_START + diagonal] = pair.0;
        sector[Q_START + Q_DIAGONALS + diagonal] = pair.1;
        proof {
            lemma_q_written(before, sector@, diagonal as int, pair);
            assert(sector@.take(2076) =~= before.take(2076));
        }
        diagonal += 1;
    }
}

/// The sums and values of all P columns, gathered row by row so that the
/// columns of one row are handled side by side.
fn p_lanes(sector: &[u8; 2352]) -> (lanes: ([u8; 86], [u8; 86]))
    ensures
        forall|c: int|
            0 <= c < 86 ==> lanes.0@[c] == symbol_sum((#[trigger] p_column(sector@, c)).take(24))
                && lanes.1@[c] == symbol_value(p_column(sector@, c).take(24)),
{
    let mut sums = [0u8; 86];
    let mut values = [0u8; 86];
    let mut row: usize = 0;
    assert forall|c: int| 0 <= c < 86 implies sums@[c] == symbol_sum(
        (#[trigger] p_column(sector@, c)).take(0),
    ) && values@[c] == symbol_value(p_column(sector@, c).take(0)) by {
        assert(p_column(sector@, c).take(0) =~= Seq::<u8>::empty());
    }
    while row < P_ROWS
        invariant
            row <= 24,
            forall|c: int|
                0 <= c < 86 ==> sums@[c] == symbol_sum(
                    (#[trigger] p_column(sector@, c)).take(row as int),
                ) && values@[c] == symbol_value(p_column(sector@, c).take(row as int)),
        decreases 24 - row,
    {
        let mut column: usize = 0;
        while column < P_COLUMNS
            invariant
                row < 24,
                column <= 86,
                forall|c: int|
                    column <= c < 86 ==> sums@[c] == symbol_sum(
                        (#[trigger] p_column(sector@, c)).take(row as int),
                    ) && values@[c] == symbol_value(p_column(sector@, c).take(row as int)),
                forall|c: int|
                    0 <= c < column ==> sums@[c] == symbol_sum(
                        (#[trigger] p_column(sector@, c)).take(row + 1),
                    ) && values@[c] == symbol_value(p_column(sector@, c).take(row + 1)),
            decreases 86 - column,
        {
            let symbol: u8 = sector[ECC_START + column + P_COLUMNS * row];
            proof {
                lemma_next_symbol(p_column(sector@, column as int), row as int);
            }
            sums[column] = sums[column] ^ symbol;
            values[column] = double(values[column]) ^ symbol;
            column += 1;
        }
        row += 1;
    }
    (sums, values)
}

/// The sums and values of all Q diagonals, gathered step by step so that the
/// diagonals are handled side by side.
fn q_lanes(sector: &[u8; 2352]) -> (lanes: ([u8; 52], [u8; 52]))
    ensures
        forall|d: int|
            0 <= d < 52 ==> lanes.0@[d] == symbol_sum((#[trigger] q_diagonal(sector@, d)).take(43))
                && lanes.1@[d] == symbol_value(q_diagonal(sector@, d).take(43)),
{
    let mut sums = [0u8; 52];
    let mut values = [0u8; 52];
    let mut step: usize = 0;
    assert forall|d: int| 0 <= d < 52 implies sums@[d] == symbol_sum(
        (#[trigger] q_diagonal(sector@, d)).take(0),
    ) && values@[d] == symbol_value(q_diagonal(sector@, d).take(0)) by {
        assert(q_diagonal(sector@, d).take(0) =~= Seq::<u8>::empty());
    }
    while step < Q_LENGTH
        invariant
            step <= 43,
            forall|d: int|
                0 <= d < 52 ==> sums@[d] == symbol_sum(
                    (#[trigger] q_diagonal(sector@, d)).take(step as int),
                ) && values@[d] == symbol_value(q_diagonal(sector@, d).take(step as int)),
        decreases 43 - step,
    {
        let mut diagonal: usize = 0;
        while diagonal < Q_DIAGONALS
            invariant
                step < 43,
                diagonal <= 52,
                forall|d: int|
                    diagonal <= d < 52 ==> sums@[d] == symbol_sum(
                        (#[trigger] q_diagonal(sector@, d)).take(step as int),
                    ) && values@[d] == symbol_value(q_diagonal(sector@, d).take(step as int)),
                forall|d: int|
                    0 <= d < diagonal ==> sums@[d] == symbol_sum(
                        (#[trigger] q_diagonal(sector@, d)).take(step + 1),
                    ) && values@[d] == symbol_value(q_diagonal(sector@, d).take(step + 1)),
            decreases 52 - diagonal,
        {
            let at: usize = ECC_START + (diagonal / 2 * 86 + diagonal % 2 + 88 * step) % Q_SPAN;
            let symbol: u8 = sector[at];
            proof {
                assert(at == q_position(diagonal as int, step as int));
                lemma_next_symbol(q_diagonal(sector@, diagonal as int), step as int);
            }
            sums[diagonal] = sums[diagonal] ^ symbol;
            values[diagonal] = double(values[diagonal]) ^ symbol;
            diagonal += 1;
        }
        step += 1;
    }
    (sums, values)
}

/// Fills in the parity bytes of a sector with all codewords of a kind advancing
/// in step, a layout that compiles to vector instructions.
pub fn calc_ecc_simd_inplace(sector: &mut [u8; 2352])
    ensures
        ecc_valid(final(sector)@),
        final(sector)@.take(2076) == old(sector)@.take(2076),
{
    let ghost start = sector@;
    let (p_sums, p_values) = p_lanes(sector);
    let mut column: usize = 0;
    while column < P_COLUMNS
        invariant
            column <= 86,
            sector@.take(2076) == old(sector)@.take(2076),
            forall|c: int| 0 <= c < column ==> is_codeword(#[trigger] p_column(sector@, c)),
            forall|c: int|
                column <= c < 86 ==> #[trigger] p_column(sector@, c) == p_column(start, c),
            forall|c: int|
                0 <= c < 86 ==> p_sums@[c] == symbol_sum((#[trigger] p_column(start, c)).take(24))
                    && p_values@[c] == symbol_value(p_column(start, c).take(24)),
        decreases 86 - column,
    {
        assert(p_column(sector@, column as int) == p_column(start, column as int));
        let pair = parity(p_sums[column], p_values[column]);
        let ghost before = sector@;
        sector[P_START + column] = pair.0;
        sector[P_START + P_COLUMNS + column] = pair.1;
        proof {
            lemma_p_written(before, sector@, column as int, pair);
            assert(sector@.take(2076) =~= before.take(2076));
        }
        column += 1;
    }
    let ghost middle = sector@;
    let (q_sums, q_values) = q_lanes(sector);
    let mut diagonal: usize = 0;
    while diagonal < Q_DIAGONALS
        invariant
            diagonal <= 52,
            sector@.take(2076) == old(sector)@.take(2076),
            forall|c: int| 0 <= c < 86 ==> is_codeword(#[trigger] p_column(sector@, c)),
            forall|d: int| 0 <= d < diagonal ==> is_codeword(#[trigger] q_diagonal(sector@, d)),
            forall|d: int|
                diagonal <= d < 52 ==> #[trigger] q_diagonal(sector@, d) == q_diagonal(middle, d),
            forall|d: int|
                0 <= d < 52 ==> q_sums@[d] == symbol_sum(
                    (#[trigger] q_diagonal(middle, d)).take(43),
                ) && q_values@[d] == symbol_value(q_diagonal(middle, d).take(43)),
        decreases 52 - diagonal,
    {
        assert(q_diagonal(sector@, diagonal as int) == q_diagonal(middle, diagonal as int));
        let pair = parity(q_sums[diagonal], q_values[diagonal]);
        let ghost before = sector@;
        sector[Q_START + diagonal] = pair.0;
        sector[Q_START + Q_DIAGONALS + diagonal] = pair.1;
        proof {
            lemma_q_written(before, sector@, diagonal as int, pair);
            assert(sector@.take(2076) =~= before.take(2076));
        }
        diagonal += 1;
    }
}

/// Two codewords with the same data symbols are the same.
proof fn lemma_codeword_unique(a: Seq<u8>, b: Seq<u8>)
    requires
        a.len() == b.len() >= 2,
        a.take(a.len() - 2) == b.take(b.len() - 2),
        is_codeword(a),
        is_codeword(b),
    ensures
        a == b,
{
    let n = a.len() - 2;
    lemma_last_two(a);
    lemma_last_two(b);
    lemma_parity_unique(
        symbol_sum(a.take(n)),
        symbol_value(a.take(n)),
        (a[n], a[n + 1]),
        (b[n], b[n + 1]),
    );
    assert forall|i: int| 0 <= i < a.len() implies a[i] == b[i] by {
        if i < n {
            assert(a[i] == a.take(n)[i]);
            assert(b[i] == b.take(n)[i]);
        }
    }
    assert(a =~= b);
}

/// The parity bytes are determined by the bytes they protect: two sectors with
/// valid parity that agree before the parity agree everywhere.
pub proof fn law_parity_is_determined(a: Seq<u8>, b: Seq<u8>)
    requires
        a.len() == 2352,
        b.len() == 2352,
        a.take(2076) == b.take(2076),
        ecc_valid(a),
        ecc_valid(b),
    ensures
        a == b,
{
    assert forall|i: int| 0 <= i < 2076 implies a[i] == b[i] by {
        assert(a[i] == a.take(2076)[i]);
        assert(b[i] == b.take(2076)[i]);
    }
    assert forall|c: int| 0 <= c < 86 implies #[trigger] p_column(a, c) == p_column(b, c) by {
        let x = p_column(a, c);
        let y = p_column(b, c);
        assert(x.take(24) =~= y.take(24));
        lemma_codeword_unique(x, y);
    }
    assert forall|i: int| 2076 <= i < 2248 implies a[i] == b[i] by {
        let c = (i - 2076) % 86;
        let row = 24 + (i - 2076) / 86;
        assert(p_column(a, c)[row] == p_column(b, c)[row]);
    }
    assert forall|d: int| 0 <= d < 52 implies #[trigger] q_diagonal(a, d) == q_diagonal(b, d) by {
        let x = q_diagonal(a, d);
        let y = q_diagonal(b, d);
        assert(x.take(43) =~= y.take(43));
        lemma_codeword_unique(x, y);
    }
    assert forall|i: int| 2248 <= i < 2352 implies a[i] == b[i] by {
        let d = (i - 2248) % 52;
        let step = 43 + (i - 2248) / 52;
        assert(q_diagonal(a, d)[step] == q_diagonal(b, d)[step]);
    }
    assert(a =~= b);
}

} // verus!
