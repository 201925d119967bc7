//! Putting a disc together again: expanding the maps of a manifest, rebuilding
//! raw sectors from user data and checking the outcome.

use std::collections::VecDeque;
use vstd::prelude::*;
use crate::disc;
use crate::disc::{
    DecodedSectorInfo, MsfTime, RleSectorMap, SectorType, SubHeaderEntry,
};
use crate::ecc;
use crate::ecc::{calc_ecc_bitwise, calc_ecc_simd_inplace, calculate_edc};

verus! {

/// Why a disc could not be put together.
#[derive(Debug)]
pub enum ReconstructionError {
    EccError { sector_idx: u32, source: String },
    HashMismatchError { orig_hash: String, calc_hash: String },
    InternalError(String),
    ThreadPanic(String),
    UnsupportedType(SectorType),
    DataLengthMismatch { sector_type: String, expected: usize, actual: usize },
    MissingSubheader(usize),
    MissingExceptionData,
    ReconstructionFailure,
}

/// The bytes that open every data sector.
pub const SYNC_PATTERN: [u8; 12] = [
    0x00, 0xff, 0xff, 0xff, 0xff, 0xff, 0xff, 0xff, 0xff, 0xff, 0xff, 0x00,
];

/// A number below 160 with its decimal digits in the two halves of a byte; the
/// tens wrap around beyond that.
pub open spec fn bcd(v: u8) -> u8 {
    (((v / 10) % 16) * 16 + v % 10) as u8
}

/// Encodes a number as binary coded decimal.
pub fn to_bcd(v: u8) -> (coded: u8)
    ensures
        coded == bcd(v),
{
    assert(((v / 10) << 4) | (v % 10) == ((v / 10) % 16) * 16 + v % 10) by (bit_vector);
    ((v / 10) << 4) | (v % 10)
}

/// The four header bytes of the sector with the given number.
pub open spec fn header(sector_num: u32, mode: u8) -> Seq<u8> {
    let time = MsfTime::at(sector_num as int);
    seq![bcd(time.minute), bcd(time.second), bcd(time.frame), mode]
}

fn header_bytes(sector_num: u32, mode: u8) -> (bytes: [u8; 4])
    ensures
        bytes@ == header(sector_num, mode),
{
    let time = MsfTime::from_total_frames(sector_num);
    let bytes = [to_bcd(time.minute), to_bcd(time.second), to_bcd(time.frame), mode];
    assert(bytes@ =~= header(sector_num, mode));
    bytes
}

/// `s` with the bytes of `src` laid over it from position `at` on.
pub open spec fn overlaid(s: Seq<u8>, at: int, src: Seq<u8>) -> Seq<u8> {
    Seq::new(
        s.len(),
        |i: int|
            if at <= i < at + src.len() {
                src[i - at]
            } else {
                s[i]
            },
    )
}

fn put(sector: &mut [u8; 2352], at: usize, src: &[u8])
    requires
        at + src@.len() <= 2352,
    ensures
        final(sector)@ == overlaid(old(sector)@, at as int, src@),
{
    let mut i: usize = 0;
    while i < src.len()
        invariant
            i <= src@.len(),
            at + src@.len() <= 2352,
            forall|k: int|
                0 <= k < 2352 ==> sector@[k] == (if at <= k < at + i {
                    src@[k - at]
                } else {
                    old(sector)@[k]
                }),
        decreases src@.len() - i,
    {
        sector[at + i] = src[i];
        i += 1;
    }
    assert(sector@ =~= overlaid(old(sector)@, at as int, src@));
}

// ---------------------------------------------------------------------------
// What a rebuilt sector is
// ---------------------------------------------------------------------------

/// The bytes behind an optional slice.
pub open spec fn bytes_of(data: Option<&[u8]>) -> Option<Seq<u8>> {
    match data {
        Some(d) => Some(d@),
        None => None,
    }
}

/// A Mode 1 sector up to its parity: sync pattern, header, user data, checksum
/// and the reserved bytes.
pub open spec fn mode1_fields(s: Seq<u8>, user: Seq<u8>, reserved: Seq<u8>, num: u32) -> bool {
    &&& s.len() == 2352
    &&& s.subrange(0, 12) == SYNC_PATTERN@
    &&& s.subrange(12, 16) == header(num, 1)
    &&& s.subrange(16, 2064) == user
    &&& s.subrange(2064, 2068) == ecc::edc_bytes(s, SectorType::Mode1)
    &&& s.subrange(2068, 2076) == reserved
}

/// A Mode 1 sector whose recomputable bytes were stored instead.
pub open spec fn mode1_stored(
    s: Seq<u8>,
    user: Seq<u8>,
    reserved: Seq<u8>,
    stored: Seq<u8>,
) -> bool {
    &&& s.len() == 2352
    &&& s.subrange(0, 16) == stored.subrange(0, 16)
    &&& s.subrange(16, 2064) == user
    &&& s.subrange(2064, 2068) == stored.subrange(16, 20)
    &&& s.subrange(2068, 2076) == reserved
    &&& s.subrange(2076, 2352) == stored.subrange(20, 296)
}

/// A Mode 2 Form 1 sector up to its parity, apart from its header.
pub open spec fn form1_fields(s: Seq<u8>, user: Seq<u8>, subheader: Seq<u8>) -> bool {
    &&& s.len() == 2352
    &&& s.subrange(0, 12) == SYNC_PATTERN@
    &&& s.subrange(16, 24) == subheader
    &&& s.subrange(24, 2072) == user
    &&& s.subrange(2072, 2076) == ecc::edc_bytes(s, SectorType::Mode2Form1)
}

/// A sector with its four header bytes taken to be zero, which is how the
/// parity of Mode 2 sectors sees it.
pub open spec fn without_header(s: Seq<u8>) -> Seq<u8> {
    overlaid(s, 12, seq![0u8, 0u8, 0u8, 0u8])
}

/// A Mode 2 Form 1 sector whose recomputable bytes were stored instead.
pub open spec fn form1_stored(
    s: Seq<u8>,
    user: Seq<u8>,
    subheader: Seq<u8>,
    stored: Seq<u8>,
) -> bool {
    &&& s.len() == 2352
    &&& s.subrange(0, 16) == stored.subrange(0, 16)
    &&& s.subrange(16, 24) == subheader
    &&& s.subrange(24, 2072) == user
    &&& s.subrange(2072, 2352) == stored.subrange(16, 296)
}

/// A Mode 2 Form 2 sector.
pub open spec fn form2_fields(s: Seq<u8>, user: Seq<u8>, subheader: Seq<u8>, num: u32) -> bool {
    &&& s.len() == 2352
    &&& s.subrange(0, 12) == SYNC_PATTERN@
    &&& s.subrange(12, 16) == header(num, 2)
    &&& s.subrange(16, 24) == subheader
    &&& s.subrange(24, 2348) == user
    &&& s.subrange(2348, 2352) == ecc::edc_bytes(s, SectorType::Mode2Form2)
}

/// A Mode 2 Form 2 sector whose recomputable bytes were stored instead.
pub open spec fn form2_stored(
    s: Seq<u8>,
    user: Seq<u8>,
    subheader: Seq<u8>,
    stored: Seq<u8>,
) -> bool {
    &&& s.len() == 2352
    &&& s.subrange(0, 16) == stored.subrange(0, 16)
    &&& s.subrange(16, 24) == subheader
    &&& s.subrange(24, 2348) == user
    &&& s.subrange(2348, 2352) == stored.subrange(16, 20)
}

/// Whether `s` is the raw sector of the given type and number that carries the
/// given user data and subheader (or reserved) bytes. `stored` holds the bytes
/// kept for a sector that deviates from what can be recomputed.
pub open spec fn is_sector(
    s: Seq<u8>,
    user: Seq<u8>,
    meta: Seq<u8>,
    sector_type: SectorType,
    num: u32,
    stored: Option<Seq<u8>>,
) -> bool {
    match sector_type {
        SectorType::Mode1 | SectorType::PregapMode1 => {
            mode1_fields(s, user, meta, num) && ecc::ecc_valid(s)
        },
        SectorType::Mode1Exception | SectorType::PregapMode1Exception => mode1_stored(
            s,
            user,
            meta,
            stored->0,
        ),
        SectorType::Mode2Form1 | SectorType::PregapMode2 => {
            form1_fields(s, user, meta) && s.subrange(12, 16) == header(num, 2) && ecc::ecc_valid(
                without_header(s),
            )
        },
        SectorType::Mode2Form1Exception | SectorType::PregapMode2Exception => form1_stored(
            s,
            user,
            meta,
            stored->0,
        ),
        SectorType::Mode2Form2 => form2_fields(s, user, meta, num),
        SectorType::Mode2Form2Exception => form2_stored(s, user, meta, stored->0),
        _ => s == user,
    }
}

/// The name of a sector type in a report of a length mismatch.
pub open spec fn type_label(sector_type: SectorType) -> Seq<char> {
    match sector_type {
        SectorType::Mode1 | SectorType::PregapMode1 => "Mode1"@,
        SectorType::Mode1Exception | SectorType::PregapMode1Exception => "Mode1Exception"@,
        SectorType::Mode2Form1 | SectorType::PregapMode2 => "Mode2Form1"@,
        SectorType::Mode2Form1Exception | SectorType::PregapMode2Exception => {
            "Mode2Form1Exception"@
        },
        SectorType::Mode2Form2 => "Mode2Form2"@,
        SectorType::Mode2Form2Exception => "Mode2Form2Exception"@,
        _ => "ZeroedData"@,
    }
}

/// The name used where the stored bytes of a sector have the wrong length.
pub open spec fn stored_label(sector_type: SectorType) -> Seq<char> {
    match sector_type {
        SectorType::Mode1Exception | SectorType::PregapMode1Exception => "Mode1"@,
        _ => type_label(sector_type),
    }
}

/// Whether `e` reports a length mismatch with the given particulars.
pub open spec fn is_length_error(
    e: ReconstructionError,
    label: Seq<char>,
    expected: int,
    actual: int,
) -> bool {
    e matches ReconstructionError::DataLengthMismatch {
        sector_type: l,
        expected: x,
        actual: a,
    } && l@ == label && x == expected && a == actual
}

/// What rebuilding a sector yields: the sector, or the first complaint about
/// the pieces that it is to be made of.
pub open spec fn rebuild_outcome(
    r: Result<[u8; 2352], ReconstructionError>,
    user: Seq<u8>,
    meta: Seq<u8>,
    sector_type: SectorType,
    num: u32,
    stored: Option<Seq<u8>>,
) -> bool {
    if sector_type.user_len() == 0 {
        r matches Err(e) && e == ReconstructionError::UnsupportedType(sector_type)
    } else if user.len() != sector_type.user_len() {
        r matches Err(e) && is_length_error(
            e,
            type_label(sector_type),
            sector_type.user_len(),
            user.len() as int,
        )
    } else if sector_type.exception_len() > 0 && stored is None {
        r matches Err(e) && e is MissingExceptionData
    } else if sector_type.exception_len() > 0 && stored->0.len() != sector_type.exception_len() {
        r matches Err(e) && is_length_error(
            e,
            stored_label(sector_type),
            sector_type.exception_len(),
            stored->0.len() as int,
        )
    } else {
        r matches Ok(s) && is_sector(s@, user, meta, sector_type, num, stored)
    }
}

// ---------------------------------------------------------------------------
// Rebuilding sectors
// ---------------------------------------------------------------------------

fn length_mismatch(label: &str, expected: usize, actual: usize) -> (e: ReconstructionError)
    ensures
        is_length_error(e, label@, expected as int, actual as int),
{
    ReconstructionError::DataLengthMismatch { sector_type: label.to_string(), expected, actual }
}

/// Fills a buffer with a Mode 1 sector, leaving out the parity.
fn rebuild_mode1_sec(
    sector_buf: &mut [u8; 2352],
    user_data: &[u8],
    metadata_bytes: &[u8; 8],
    sector_num: u32,
) -> (r: Result<(), ReconstructionError>)
    ensures
        user_data@.len() == 2048 ==> r is Ok,
        user_data@.len() != 2048 ==> (r matches Err(e) && is_length_error(
            e,
            "Mode1"@,
            2048,
            user_data@.len() as int,
        )),
        r is Ok ==> mode1_fields(final(sector_buf)@, user_data@, metadata_bytes@, sector_num),
{
    if user_data.len() != 2048 {
        return Err(length_mismatch("Mode1", 2048, user_data.len()));
    }
    put(sector_buf, 0, SYNC_PATTERN.as_slice());
    let head = header_bytes(sector_num, 0x01);
    put(sector_buf, 12, head.as_slice());
    put(sector_buf, 16, user_data);
    let ghost covered = sector_buf@;
    let edc = calculate_edc(sector_buf, SectorType::Mode1);
    put(sector_buf, 2064, edc.as_slice());
    put(sector_buf, 2068, metadata_bytes.as_slice());
    proof {
        let s = sector_buf@;
        assert(s.subrange(0, 2064) =~= covered.subrange(0, 2064));
        assert(s.subrange(0, 12) =~= SYNC_PATTERN@);
        assert(s.subrange(12, 16) =~= head@);
        assert(s.subrange(16, 2064) =~= user_data@);
        assert(s.subrange(2064, 2068) =~= edc@);
        assert(s.subrange(2068, 2076) =~= metadata_bytes@);
    }
    Ok(())
}

/// Fills a buffer with a Mode 1 sector whose recomputable bytes were stored.
fn rebuild_mode1_sec_excep(
    sector_buf: &mut [u8; 2352],
    user_data: &[u8],
    metadata_bytes: &[u8; 8],
    exception_data: Option<&[u8]>,
) -> (r: Result<(), ReconstructionError>)
    ensures
        user_data@.len() != 2048 ==> (r matches Err(e) && is_length_error(
            e,
            "Mode1Exception"@,
            2048,
            user_data@.len() as int,
        )),
        user_data@.len() == 2048 && exception_data is None ==> (r matches Err(e)
            && e is MissingExceptionData),
        user_data@.len() == 2048 && exception_data is Some && exception_data->0@.len() != 296 ==> (
        r matches Err(e) && is_length_error(e, "Mode1"@, 296, exception_data->0@.len() as int)),
        user_data@.len() == 2048 && exception_data is Some && exception_data->0@.len() == 296 ==> r
            is Ok && mode1_stored(
            final(sector_buf)@,
            user_data@,
            metadata_bytes@,
            exception_data->0@,
        ),
{
    if user_data.len() != 2048 {
        return Err(length_mismatch("Mode1Exception", 2048, user_data.len()));
    }
    let stored = match exception_data {
        Some(stored) => stored,
        None => return Err(ReconstructionError::MissingExceptionData),
    };
    if stored.len() != 296 {
        return Err(length_mismatch("Mode1", 296, stored.len()));
    }
    // Sync pattern and header.
    put(sector_buf, 0, &stored[0..16]);
    put(sector_buf, 16, user_data);
    // Checksum.
    put(sector_buf, 2064, &stored[16..20]);
    // Reserved bytes.
    put(sector_buf, 2068, metadata_bytes.as_slice());
    // Parity.
    put(sector_buf, 2076, &stored[20..296]);
    proof {
        let s = sector_buf@;
        assert(s.subrange(0, 16) =~= stored@.subrange(0, 16));
        assert(s.subrange(16, 2064) =~= user_data@);
        assert(s.subrange(2064, 2068) =~= stored@.subrange(16, 20));
        assert(s.subrange(2068, 2076) =~= metadata_bytes@);
        assert(s.subrange(2076, 2352) =~= stored@.subrange(20, 296));
    }
    Ok(())
}

/// Fills a zeroed buffer with a Mode 2 Form 1 sector, leaving out the header
/// and the parity.
fn rebuild_mode2form1_sec(
    sector_buf: &mut [u8; 2352],
    user_data: &[u8],
    metadata_bytes: &[u8; 8],
) -> (r: Result<(), ReconstructionError>)
    ensures
        user_data@.len() == 2048 ==> r is Ok,
        user_data@.len() != 2048 ==> (r matches Err(e) && is_length_error(
            e,
            "Mode2Form1"@,
            2048,
            user_data@.len() as int,
        )),
        r is Ok ==> form1_fields(final(sector_buf)@, user_data@, metadata_bytes@)
            && final(sector_buf)@.subrange(12, 16) == old(sector_buf)@.subrange(12, 16),
{
    if user_data.len() != 2048 {
        return Err(length_mismatch("Mode2Form1", 2048, user_data.len()));
    }
    put(sector_buf, 0, SYNC_PATTERN.as_slice());
    put(sector_buf, 16, metadata_bytes.as_slice());
    put(sector_buf, 24, user_data);
    let ghost covered = sector_buf@;
    let edc = calculate_edc(sector_buf, SectorType::Mode2Form1);
    put(sector_buf, 2072, edc.as_slice());
    proof {
        let s = sector_buf@;
        assert(s.subrange(16, 2072) =~= covered.subrange(16, 2072));
        assert(s.subrange(0, 12) =~= SYNC_PATTERN@);
        assert(s.subrange(12, 16) =~= old(sector_buf)@.subrange(12, 16));
        assert(s.subrange(16, 24) =~= metadata_bytes@);
        assert(s.subrange(24, 2072) =~= user_data@);
        assert(s.subrange(2072, 2076) =~= edc@);
    }
    Ok(())
}

/// Fills a buffer with a Mode 2 Form 1 sector whose recomputable bytes were
/// stored.
fn rebuild_mode2form1_sec_excep(
    sector_buf: &mut [u8; 2352],
    user_data: &[u8],
    metadata_bytes: &[u8; 8],
    exception_data: Option<&[u8]>,
) -> (r: Result<(), ReconstructionError>)
    ensures
        user_data@.len() != 2048 ==> (r matches Err(e) && is_length_error(
            e,
            "Mode2Form1Exception"@,
            2048,
            user_data@.len() as int,
        )),
        user_data@.len() == 2048 && exception_data is None ==> (r matches Err(e)
            && e is MissingExceptionData),
        user_data@.len() == 2048 && exception_data is Some && exception_data->0@.len() != 296 ==> (
        r matches Err(e) && is_length_error(
            e,
            "Mode2Form1Exception"@,
            296,
            exception_data->0@.len() as int,
        )),
        user_data@.len() == 2048 && exception_data is Some && exception_data->0@.len() == 296 ==> r
            is Ok && form1_stored(
            final(sector_buf)@,
            user_data@,
            metadata_bytes@,
            exception_data->0@,
        ),
{
    if user_data.len() != 2048 {
        return Err(length_mismatch("Mode2Form1Exception", 2048, user_data.len()));
    }
    let stored = match exception_data {
        Some(stored) => stored,
        None => return Err(ReconstructionError::MissingExceptionData),
    };
    if stored.len() != 296 {
        return Err(length_mismatch("Mode2Form1Exception", 296, stored.len()));
    }
    // Sync pattern and header.
    put(sector_buf, 0, &stored[0..16]);
    // Subheader.
    put(sector_buf, 16, metadata_bytes.as_slice());
    put(sector_buf, 24, user_data);
    // Checksum and parity.
    put(sector_buf, 2072, &stored[16..296]);
    proof {
        let s = sector_buf@;
        assert(s.subrange(0, 16) =~= stored@.subrange(0, 16));
        assert(s.subrange(16, 24) =~= metadata_bytes@);
        assert(s.subrange(24, 2072) =~= user_data@);
        assert(s.subrange(2072, 2352) =~= stored@.subrange(16, 296));
    }
    Ok(())
}

/// Fills a buffer with a Mode 2 Form 2 sector.
fn rebuild_mode2form2_sec(
    sector_buf: &mut [u8; 2352],
    user_data: &[u8],
    metadata_bytes: &[u8; 8],
    sector_num: u32,
) -> (r: Result<(), ReconstructionError>)
    ensures
        user_data@.len() == 2324 ==> r is Ok,
        user_data@.len() != 2324 ==> (r matches Err(e) && is_length_error(
            e,
            "Mode2Form2"@,
            2324,
            user_data@.len() as int,
        )),
        r is Ok ==> form2_fields(final(sector_buf)@, user_data@, metadata_bytes@, sector_num),
{
    if user_data.len() != 2324 {
        return Err(length_mismatch("Mode2Form2", 2324, user_data.len()));
    }
    put(sector_buf, 0, SYNC_PATTERN.as_slice());
    let head = header_bytes(sector_num, 0x02);
    put(sector_buf, 12, head.as_slice());
    // Subheader.
    put(sector_buf, 16, metadata_bytes.as_slice());
    put(sector_buf, 24, user_data);
    let ghost covered = sector_buf@;
    let edc = calculate_edc(sector_buf, SectorType::Mode2Form2);
    put(sector_buf, 2348, edc.as_slice());
    proof {
        let s = sector_buf@;
        assert(s.subrange(16, 2348) =~= covered.subrange(16, 2348));
        assert(s.subrange(0, 12) =~= SYNC_PATTERN@);
        assert(s.subrange(12, 16) =~= head@);
        assert(s.subrange(16, 24) =~= metadata_bytes@);
        assert(s.subrange(24, 2348) =~= user_data@);
        assert(s.subrange(2348, 2352) =~= edc@);
    }
    Ok(())
}

/// Fills a buffer with a Mode 2 Form 2 sector whose recomputable bytes were
/// stored.
fn rebuild_mode2form2_sec_excep(
    sector_buf: &mut [u8; 2352],
    user_data: &[u8],
    metadata_bytes: &[u8; 8],
    exception_data: Option<&[u8]>,
) -> (r: Result<(), ReconstructionError>)
    ensures
        user_data@.len() != 2324 ==> (r matches Err(e) && is_length_error(
            e,
            "Mode2Form2Exception"@,
            2324,
            user_data@.len() as int,
        )),
        user_data@.len() == 2324 && exception_data is None ==> (r matches Err(e)
            && e is MissingExceptionData),
        user_data@.len() == 2324 && exception_data is Some && exception_data->0@.len() != 20 ==> (
        r matches Err(e) && is_length_error(
            e,
            "Mode2Form2Exception"@,
            20,
            exception_data->0@.len() as int,
        )),
        user_data@.len() == 2324 && exception_data is Some && exception_data->0@.len() == 20 ==> r
            is Ok && form2_stored(
            final(sector_buf)@,
            user_data@,
            metadata_bytes@,
            exception_data->0@,
        ),
{
    if user_data.len() != 2324 {
        return Err(length_mismatch("Mode2Form2Exception", 2324, user_data.len()));
    }
    let stored = match exception_data {
        Some(stored) => stored,
        None => return Err(ReconstructionError::MissingExceptionData),
    };
    if stored.len() != 20 {
        return Err(length_mismatch("Mode2Form2Exception", 20, stored.len()));
    }
    // Sync pattern and header.
    put(sector_buf, 0, &stored[0..16]);
    // Subheader.
    put(sector_buf, 16, metadata_bytes.as_slice());
    put(sector_buf, 24, user_data);
    // Checksum.
    put(sector_buf, 2348, &stored[16..20]);
    proof {
        let s = sector_buf@;
        assert(s.subrange(0, 16) =~= stored@.subrange(0, 16));
        assert(s.subrange(16, 24) =~= metadata_bytes@);
        assert(s.subrange(24, 2348) =~= user_data@);
        assert(s.subrange(2348, 2352) =~= stored@.subrange(16, 20));
    }
    Ok(())
}

/// Filling in the parity of a Mode 1 sector keeps its other fields.
proof fn lemma_mode1_with_parity(
    a: Seq<u8>,
    b: Seq<u8>,
    user: Seq<u8>,
    meta: Seq<u8>,
    num: u32,
)
    requires
        mode1_fields(a, user, meta, num),
        b.len() == 2352,
        b.take(2076) == a.take(2076),
    ensures
        mode1_fields(b, user, meta, num),
{
    lemma_same_prefix(a, b);
    assert(b.subrange(0, 12) =~= a.subrange(0, 12));
    assert(b.subrange(12, 16) =~= a.subrange(12, 16));
    assert(b.subrange(16, 2064) =~= a.subrange(16, 2064));
    assert(b.subrange(0, 2064) =~= a.subrange(0, 2064));
    assert(b.subrange(2064, 2068) =~= a.subrange(2064, 2068));
    assert(b.subrange(2068, 2076) =~= a.subrange(2068, 2076));
}

proof fn lemma_same_prefix(a: Seq<u8>, b: Seq<u8>)
    requires
        a.len() == 2352,
        b.len() == 2352,
        b.take(2076) == a.take(2076),
    ensures
        forall|i: int| 0 <= i < 2076 ==> a[i] == b[i],
{
    assert forall|i: int| 0 <= i < 2076 implies a[i] == b[i] by {
        assert(a[i] == a.take(2076)[i]);
        assert(b[i] == b.take(2076)[i]);
    }
}

/// Filling in the parity and then the header of a Mode 2 Form 1 sector.
proof fn lemma_form1_with_header(
    a: Seq<u8>,
    b: Seq<u8>,
    c: Seq<u8>,
    user: Seq<u8>,
    meta: Seq<u8>,
    num: u32,
)
    requires
        form1_fields(a, user, meta),
        a.subrange(12, 16) == seq![0u8, 0u8, 0u8, 0u8],
        b.len() == 2352,
        b.take(2076) == a.take(2076),
        ecc::ecc_valid(b),
        c == overlaid(b, 12, header(num, 2)),
    ensures
        is_sector(c, user, meta, SectorType::Mode2Form1, num, None),
{
    lemma_same_prefix(a, b);
    assert(c.subrange(0, 12) =~= a.subrange(0, 12));
    assert(c.subrange(12, 16) =~= header(num, 2));
    assert(c.subrange(16, 24) =~= a.subrange(16, 24));
    assert(c.subrange(24, 2072) =~= a.subrange(24, 2072));
    assert(c.subrange(16, 2072) =~= a.subrange(16, 2072));
    assert(c.subrange(2072, 2076) =~= a.subrange(2072, 2076));
    assert(without_header(c) =~= b) by {
        assert forall|i: int| 12 <= i < 16 implies b[i] == 0 by {
            assert(a.subrange(12, 16)[i - 12] == 0);
        }
    }
}

/// Fills in the parity bytes of a sector in one of the two ways.
fn fill_parity(side_by_side: bool, sector: &mut [u8; 2352])
    ensures
        ecc::ecc_valid(final(sector)@),
        final(sector)@.take(2076) == old(sector)@.take(2076),
{
    if side_by_side {
        calc_ecc_simd_inplace(sector);
    } else {
        calc_ecc_bitwise(sector);
    }
}

/// Rebuilds a raw sector, with parity computed side by side or one codeword at
/// a time.
fn rebuild_sector(
    side_by_side: bool,
    user_data: &[u8],
    metadata_bytes: &[u8; 8],
    sector_type: SectorType,
    sector_num: u32,
    exception_data: Option<&[u8]>,
) -> (r: Result<[u8; 2352], ReconstructionError>)
    ensures
        rebuild_outcome(
            r,
            user_data@,
            metadata_bytes@,
            sector_type,
            sector_num,
            bytes_of(exception_data),
        ),
{
    let mut sector_buf = [0u8; 2352];
    match sector_type {
        SectorType::Mode1 | SectorType::PregapMode1 => {
            match rebuild_mode1_sec(&mut sector_buf, user_data, metadata_bytes, sector_num) {
                Ok(()) => {},
                Err(e) => return Err(e),
            }
            let ghost a = sector_buf@;
            fill_parity(side_by_side, &mut sector_buf);
            proof {
                lemma_mode1_with_parity(a, sector_buf@, user_data@, metadata_bytes@, sector_num);
            }
        },
        SectorType::Mode1Exception | SectorType::PregapMode1Exception => {
            match rebuild_mode1_sec_excep(
                &mut sector_buf,
                user_data,
                metadata_bytes,
                exception_data,
            ) {
                Ok(()) => {},
                Err(e) => return Err(e),
            }
        },
        SectorType::Mode2Form1 | SectorType::PregapMode2 => {
            assert(sector_buf@.subrange(12, 16) =~= seq![0u8, 0u8, 0u8, 0u8]);
            match rebuild_mode2form1_sec(&mut sector_buf, user_data, metadata_bytes) {
                Ok(()) => {},
                Err(e) => return Err(e),
            }
            let ghost a = sector_buf@;
            fill_parity(side_by_side, &mut sector_buf);
            let ghost b = sector_buf@;
            let head = header_bytes(sector_num, 0x02);
            put(&mut sector_buf, 12, head.as_slice());
            proof {
                lemma_form1_with_header(
                    a,
                    b,
                    sector_buf@,
                    user_data@,
                    metadata_bytes@,
                    sector_num,
                );
            }
        },
        SectorType::Mode2Form1Exception | SectorType::PregapMode2Exception => {
            match rebuild_mode2form1_sec_excep(
                &mut sector_buf,
                user_data,
                metadata_bytes,
                exception_data,
            ) {
                Ok(()) => {},
                Err(e) => return Err(e),
            }
        },
        SectorType::Mode2Form2 => {
            match rebuild_mode2form2_sec(&mut sector_buf, user_data, metadata_bytes, sector_num) {
                Ok(()) => {},
                Err(e) => return Err(e),
            }
        },
        SectorType::Mode2Form2Exception => {
            match rebuild_mode2form2_sec_excep(
                &mut sector_buf,
                user_data,
                metadata_bytes,
                exception_data,
            ) {
                Ok(()) => {},
                Err(e) => return Err(e),
            }
        },
        SectorType::ZeroedMode1Data | SectorType::ZeroedMode2Data => {
            if user_data.len() != 2352 {
                return Err(length_mismatch("ZeroedData", 2352, user_data.len()));
            }
            put(&mut sector_buf, 0, user_data);
            assert(sector_buf@ =~= user_data@);
        },
        _ => return Err(ReconstructionError::UnsupportedType(sector_type)),
    }
    Ok(sector_buf)
}

/// Rebuilds a raw sector, computing parity one codeword at a time.
pub fn rebuild_sector_bitwise(
    user_data: &[u8],
    metadata_bytes: &[u8; 8],
    sector_type: SectorType,
    sector_num: u32,
    exception_data: Option<&[u8]>,
) -> (r: Result<[u8; 2352], ReconstructionError>)
    ensures
        rebuild_outcome(
            r,
            user_data@,
            metadata_bytes@,
            sector_type,
            sector_num,
            bytes_of(exception_data),
        ),
{
    rebuild_sector(false, user_data, metadata_bytes, sector_type, sector_num, exception_data)
}

/// Rebuilds a raw sector, computing parity for all codewords
/// side by side.
pub fn rebuild_sector_simd(
    user_data: &[u8],
    metadata_bytes: &[u8; 8],
    sector_type: SectorType,
    sector_num: u32,
    exception_data: Option<&[u8]>,
) -> (r: Result<[u8; 2352], ReconstructionError>)
    ensures
        rebuild_outcome(
            r,
            user_data@,
            metadata_bytes@,
            sector_type,
            sector_num,
            bytes_of(exception_data),
        ),
{
    rebuild_sector(true, user_data, metadata_bytes, sector_type, sector_num, exception_data)
}

/// A raw sector is determined by its pieces: whichever way it was rebuilt, the
/// bytes are the same.
pub proof fn law_sector_is_determined(
    a: Seq<u8>,
    b: Seq<u8>,
    user: Seq<u8>,
    meta: Seq<u8>,
    sector_type: SectorType,
    num: u32,
    stored: Option<Seq<u8>>,
)
    requires
        sector_type.user_len() > 0,
        is_sector(a, user, meta, sector_type, num, stored),
        is_sector(b, user, meta, sector_type, num, stored),
    ensures
        a == b,
{
    match sector_type {
        SectorType::Mode1 | SectorType::PregapMode1 => {
            assert(a.subrange(0, 2064) =~= SYNC_PATTERN@ + header(num, 1) + user) by {
                assert(a.subrange(0, 2064) =~= a.subrange(0, 12) + a.subrange(12, 16) + a.subrange(
                    16,
                    2064,
                ));
            }
            assert(b.subrange(0, 2064) =~= SYNC_PATTERN@ + header(num, 1) + user) by {
                assert(b.subrange(0, 2064) =~= b.subrange(0, 12) + b.subrange(12, 16) + b.subrange(
                    16,
                    2064,
                ));
            }
            assert(a.take(2076) =~= a.subrange(0, 2064) + a.subrange(2064, 2068) + a.subrange(
                2068,
                2076,
            ));
            assert(b.take(2076) =~= b.subrange(0, 2064) + b.subrange(2064, 2068) + b.subrange(
                2068,
                2076,
            ));
            ecc::law_parity_is_determined(a, b);
        },
        SectorType::Mode1Exception | SectorType::PregapMode1Exception => {
            assert(a =~= a.subrange(0, 16) + a.subrange(16, 2064) + a.subrange(2064, 2068)
                + a.subrange(2068, 2076) + a.subrange(2076, 2352));
            assert(b =~= b.subrange(0, 16) + b.subrange(16, 2064) + b.subrange(2064, 2068)
                + b.subrange(2068, 2076) + b.subrange(2076, 2352));
        },
        SectorType::Mode2Form1 | SectorType::PregapMode2 => {
            assert(a.subrange(16, 2072) =~= a.subrange(16, 24) + a.subrange(24, 2072));
            assert(b.subrange(16, 2072) =~= b.subrange(16, 24) + b.subrange(24, 2072));
            assert(a.take(2076) =~= a.subrange(0, 12) + a.subrange(12, 16) + a.subrange(16, 2072)
                + a.subrange(2072, 2076));
            assert(b.take(2076) =~= b.subrange(0, 12) + b.subrange(12, 16) + b.subrange(16, 2072)
                + b.subrange(2072, 2076));
            lemma_same_prefix(a, b);
            let x = without_header(a);
            let y = without_header(b);
            assert(x.take(2076) =~= y.take(2076));
            ecc::law_parity_is_determined(x, y);
            assert forall|i: int| 0 <= i < 2352 implies a[i] == b[i] by {
                if i >= 2076 {
                    assert(a[i] == x[i]);
                    assert(b[i] == y[i]);
                }
            }
            assert(a =~= b);
        },
        SectorType::Mode2Form1Exception | SectorType::PregapMode2Exception => {
            assert(a =~= a.subrange(0, 16) + a.subrange(16, 24) + a.subrange(24, 2072)
                + a.subrange(2072, 2352));
            assert(b =~= b.subrange(0, 16) + b.subrange(16, 24) + b.subrange(24, 2072)
                + b.subrange(2072, 2352));
        },
        SectorType::Mode2Form2 => {
            assert(a.subrange(16, 2348) =~= a.subrange(16, 24) + a.subrange(24, 2348));
            assert(b.subrange(16, 2348) =~= b.subrange(16, 24) + b.subrange(24, 2348));
            assert(a =~= a.subrange(0, 12) + a.subrange(12, 16) + a.subrange(16, 2348)
                + a.subrange(2348, 2352));
            assert(b =~= b.subrange(0, 12) + b.subrange(12, 16) + b.subrange(16, 2348)
                + b.subrange(2348, 2352));
        },
        SectorType::Mode2Form2Exception => {
            assert(a =~= a.subrange(0, 16) + a.subrange(16, 24) + a.subrange(24, 2348)
                + a.subrange(2348, 2352));
            assert(b =~= b.subrange(0, 16) + b.subrange(16, 24) + b.subrange(24, 2348)
                + b.subrange(2348, 2352));
        },
        _ => {},
    }
}

/// The user data of a rebuilt sector stands where a reader of the data stream
/// looks for it.
pub proof fn law_user_data_is_read_back(
    s: Seq<u8>,
    user: Seq<u8>,
    meta: Seq<u8>,
    sector_type: SectorType,
    num: u32,
    stored: Option<Seq<u8>>,
)
    requires
        sector_type.user_len() > 0,
        user.len() == sector_type.user_len(),
        is_sector(s, user, meta, sector_type, num, stored),
    ensures
        s.len() == 2352,
        s.subrange(
            sector_type.user_start(),
            sector_type.user_start() + sector_type.user_len(),
        ) == user,
{
    if sector_type is ZeroedMode1Data || sector_type is ZeroedMode2Data {
        assert(s.subrange(0, 2352) =~= s);
    }
}

/// A Mode 1 sector comes back whatever its header, checksum and parity hold:
/// taken apart into user data (bytes 16 to 2063), reserved bytes (2068 to 2075)
/// and all other bytes in order, it is rebuilt to the same 2352 bytes.
pub proof fn law_deviating_mode1_sector_comes_back(
    raw: Seq<u8>,
    sector_type: SectorType,
    num: u32,
    r: Result<[u8; 2352], ReconstructionError>,
)
    requires
        raw.len() == 2352,
        sector_type is Mode1Exception || sector_type is PregapMode1Exception,
        rebuild_outcome(
            r,
            raw.subrange(16, 2064),
            raw.subrange(2068, 2076),
            sector_type,
            num,
            Some(raw.subrange(0, 16) + raw.subrange(2064, 2068) + raw.subrange(2076, 2352)),
        ),
    ensures
        r matches Ok(s) && s@ == raw,
{
    let kept = raw.subrange(0, 16) + raw.subrange(2064, 2068) + raw.subrange(2076, 2352);
    assert(kept.subrange(0, 16) =~= raw.subrange(0, 16));
    assert(kept.subrange(16, 20) =~= raw.subrange(2064, 2068));
    assert(kept.subrange(20, 296) =~= raw.subrange(2076, 2352));
    let s = r->Ok_0@;
    assert(s =~= s.subrange(0, 16) + s.subrange(16, 2064) + s.subrange(2064, 2068) + s.subrange(
        2068,
        2076,
    ) + s.subrange(2076, 2352));
    assert(raw =~= raw.subrange(0, 16) + raw.subrange(16, 2064) + raw.subrange(2064, 2068)
        + raw.subrange(2068, 2076) + raw.subrange(2076, 2352));
}

/// A Mode 2 Form 1 sector comes back whatever its header, checksum and parity
/// hold: taken apart into subheader (bytes 16 to 23), user data (24 to 2071) and
/// all other bytes in order, it is rebuilt to the same 2352 bytes.
pub proof fn law_deviating_form1_sector_comes_back(
    raw: Seq<u8>,
    sector_type: SectorType,
    num: u32,
    r: Result<[u8; 2352], ReconstructionError>,
)
    requires
        raw.len() == 2352,
        sector_type is Mode2Form1Exception || sector_type is PregapMode2Exception,
        rebuild_outcome(
            r,
            raw.subrange(24, 2072),
            raw.subrange(16, 24),
            sector_type,
            num,
            Some(raw.subrange(0, 16) + raw.subrange(2072, 2352)),
        ),
    ensures
        r matches Ok(s) && s@ == raw,
{
    let kept = raw.subrange(0, 16) + raw.subrange(2072, 2352);
    assert(kept.subrange(0, 16) =~= raw.subrange(0, 16));
    assert(kept.subrange(16, 296) =~= raw.subrange(2072, 2352));
    let s = r->Ok_0@;
    assert(s =~= s.subrange(0, 16) + s.subrange(16, 24) + s.subrange(24, 2072) + s.subrange(
        2072,
        2352,
    ));
    assert(raw =~= raw.subrange(0, 16) + raw.subrange(16, 24) + raw.subrange(24, 2072)
        + raw.subrange(2072, 2352));
}

/// A Mode 2 Form 2 sector comes back whatever its header and checksum hold:
/// taken apart into subheader (bytes 16 to 23), user data (24 to 2347) and all
/// other bytes in order, it is rebuilt to the same 2352 bytes.
pub proof fn law_deviating_form2_sector_comes_back(
    raw: Seq<u8>,
    num: u32,
    r: Result<[u8; 2352], ReconstructionError>,
)
    requires
        raw.len() == 2352,
        rebuild_outcome(
            r,
            raw.subrange(24, 2348),
            raw.subrange(16, 24),
            SectorType::Mode2Form2Exception,
            num,
            Some(raw.subrange(0, 16) + raw.subrange(2348, 2352)),
        ),
    ensures
        r matches Ok(s) && s@ == raw,
{
    let kept = raw.subrange(0, 16) + raw.subrange(2348, 2352);
    assert(kept.subrange(0, 16) =~= raw.subrange(0, 16));
    assert(kept.subrange(16, 20) =~= raw.subrange(2348, 2352));
    let s = r->Ok_0@;
    assert(s =~= s.subrange(0, 16) + s.subrange(16, 24) + s.subrange(24, 2348) + s.subrange(
        2348,
        2352,
    ));
    assert(raw =~= raw.subrange(0, 16) + raw.subrange(16, 24) + raw.subrange(24, 2348)
        + raw.subrange(2348, 2352));
}

/// A data sector that was classified as zeroed is handed over whole and comes
/// back whole, whatever it holds.
pub proof fn law_zeroed_sector_comes_back(
    raw: Seq<u8>,
    meta: Seq<u8>,
    sector_type: SectorType,
    num: u32,
    stored: Option<Seq<u8>>,
    r: Result<[u8; 2352], ReconstructionError>,
)
    requires
        raw.len() == 2352,
        sector_type is ZeroedMode1Data || sector_type is ZeroedMode2Data,
        rebuild_outcome(r, raw, meta, sector_type, num, stored),
    ensures
        r matches Ok(s) && s@ == raw,
{
}

/// Whether the first sixteen bytes of a sector are the sync pattern and the
/// header of a sector of the given mode and number: a zero, ten bytes of all ones
/// and a zero, then minute, second and frame in decimal digits, then the mode.
pub open spec fn opens_sector(raw: Seq<u8>, mode: u8, num: u32) -> bool {
    &&& raw[0] == 0 && raw[11] == 0
    &&& forall|i: int| 1 <= i < 11 ==> #[trigger] raw[i] == 255
    &&& forall|i: int| 12 <= i < 15 ==> (#[trigger] raw[i]) % 16 < 10
    &&& raw[12] / 16 < 10 && raw[13] / 16 < 6 && raw[14] / 16 < 8
    &&& raw[14] / 16 == 7 ==> raw[14] % 16 < 5
    &&& num == (raw[12] / 16 * 10 + raw[12] % 16) * 4500 + (raw[13] / 16 * 10 + raw[13] % 16) * 75
        + (raw[14] / 16 * 10 + raw[14] % 16)
    &&& raw[15] == mode
}

/// The first sixteen bytes of a sector follow from its mode and its number.
pub proof fn lemma_opening_is_determined(raw: Seq<u8>, mode: u8, num: u32)
    requires
        raw.len() == 2352,
        opens_sector(raw, mode, num),
    ensures
        raw.subrange(0, 12) == SYNC_PATTERN@,
        raw.subrange(12, 16) == header(num, mode),
{
    let time = MsfTime {
        minute: (raw[12] / 16 * 10 + raw[12] % 16) as u8,
        second: (raw[13] / 16 * 10 + raw[13] % 16) as u8,
        frame: (raw[14] / 16 * 10 + raw[14] % 16) as u8,
    };
    assert(raw[12] % 16 < 10 && raw[13] % 16 < 10 && raw[14] % 16 < 10);
    assert(time.frames() == num);
    disc::law_position_to_frames_and_back(time);
    assert(bcd(time.minute) == raw[12]);
    assert(bcd(time.second) == raw[13]);
    assert(bcd(time.frame) == raw[14]);
    assert(raw.subrange(12, 16) =~= header(num, mode));
    assert(raw.subrange(0, 12) =~= SYNC_PATTERN@);
}

/// The decimal digits of a coded number are the halves of its byte.
proof fn lemma_coded_digits(v: u8)
    requires
        v < 100,
    ensures
        bcd(v) / 16 == v / 10,
        bcd(v) % 16 == v % 10,
        bcd(v) / 16 * 10 + bcd(v) % 16 == v,
{
}

proof fn lemma_opening(s: Seq<u8>, mode: u8, num: u32)
    requires
        s.len() == 2352,
        num < 100 * 60 * 75,
        s.subrange(0, 12) == SYNC_PATTERN@,
        s.subrange(12, 16) == header(num, mode),
    ensures
        opens_sector(s, mode, num),
{
    let time = MsfTime::at(num as int);
    let sync = s.subrange(0, 12);
    let head = s.subrange(12, 16);
    assert forall|i: int| 1 <= i < 11 implies #[trigger] s[i] == 255 by {
        assert(s[i] == sync[i]);
    }
    assert(s[0] == sync[0] && s[11] == sync[11]);
    assert(s[12] == head[0] && s[13] == head[1] && s[14] == head[2] && s[15] == head[3]);
    disc::law_frames_to_position_and_back(num as int);
    assert(time.minute < 100 && time.second < 60 && time.frame < 75);
    lemma_coded_digits(time.minute);
    lemma_coded_digits(time.second);
    lemma_coded_digits(time.frame);
    assert forall|i: int| 12 <= i < 15 implies (#[trigger] s[i]) % 16 < 10 by {
        assert(i == 12 || i == 13 || i == 14);
    }
}

/// A rebuilt data sector opens like one on a disc: below a hundred minutes, its
/// header states the mode of the sector and the number it was given.
pub proof fn law_rebuilt_sector_states_its_number(
    s: Seq<u8>,
    user: Seq<u8>,
    meta: Seq<u8>,
    sector_type: SectorType,
    num: u32,
    stored: Option<Seq<u8>>,
)
    requires
        num < 100 * 60 * 75,
        is_sector(s, user, meta, sector_type, num, stored),
    ensures
        sector_type is Mode1 || sector_type is PregapMode1 ==> opens_sector(s, 1, num),
        sector_type is Mode2Form1 || sector_type is PregapMode2 || sector_type is Mode2Form2
            ==> opens_sector(s, 2, num),
{
    if sector_type is Mode1 || sector_type is PregapMode1 {
        lemma_opening(s, 1, num);
    } else if sector_type is Mode2Form1 || sector_type is PregapMode2 || sector_type
        is Mode2Form2 {
        lemma_opening(s, 2, num);
    }
}

/// Every rebuilt sector carries the eight bytes handed in where its mode has
/// them: behind the header in Mode 2, behind the checksum in Mode 1.
pub proof fn law_metadata_is_read_back(
    s: Seq<u8>,
    user: Seq<u8>,
    meta: Seq<u8>,
    sector_type: SectorType,
    num: u32,
    stored: Option<Seq<u8>>,
)
    requires
        is_sector(s, user, meta, sector_type, num, stored),
    ensures
        sector_type is Mode1 || sector_type is Mode1Exception || sector_type is PregapMode1
            || sector_type is PregapMode1Exception ==> s.subrange(2068, 2076) == meta,
        sector_type is Mode2Form1 || sector_type is Mode2Form1Exception || sector_type
            is PregapMode2 || sector_type is PregapMode2Exception || sector_type is Mode2Form2
            || sector_type is Mode2Form2Exception ==> s.subrange(16, 24) == meta,
{
}

/// A Mode 1 sector as it stands on a disc comes back from its user data and its
/// reserved bytes alone.
pub proof fn law_plain_mode1_sector_comes_back(
    raw: Seq<u8>,
    sector_type: SectorType,
    num: u32,
    stored: Option<Seq<u8>>,
    r: Result<[u8; 2352], ReconstructionError>,
)
    requires
        raw.len() == 2352,
        sector_type is Mode1 || sector_type is PregapMode1,
        opens_sector(raw, 1, num),
        raw.subrange(2064, 2068) == ecc::word_bytes(ecc::edc(raw.subrange(0, 2064))),
        ecc::ecc_valid(raw),
        rebuild_outcome(
            r,
            raw.subrange(16, 2064),
            raw.subrange(2068, 2076),
            sector_type,
            num,
            stored,
        ),
    ensures
        r matches Ok(s) && s@ == raw,
{
    lemma_opening_is_determined(raw, 1, num);
    law_sector_is_determined(
        raw,
        r->Ok_0@,
        raw.subrange(16, 2064),
        raw.subrange(2068, 2076),
        sector_type,
        num,
        stored,
    );
}

/// A Mode 2 Form 1 sector as it stands on a disc comes back from its user data
/// and its subheader alone. Its parity counts the header as zeros.
pub proof fn law_plain_form1_sector_comes_back(
    raw: Seq<u8>,
    sector_type: SectorType,
    num: u32,
    stored: Option<Seq<u8>>,
    r: Result<[u8; 2352], ReconstructionError>,
)
    requires
        raw.len() == 2352,
        sector_type is Mode2Form1 || sector_type is PregapMode2,
        opens_sector(raw, 2, num),
        raw.subrange(2072, 2076) == ecc::word_bytes(ecc::edc(raw.subrange(16, 2072))),
        ecc::ecc_valid(raw.subrange(0, 12) + seq![0u8, 0u8, 0u8, 0u8] + raw.subrange(16, 2352)),
        rebuild_outcome(
            r,
            raw.subrange(24, 2072),
            raw.subrange(16, 24),
            sector_type,
            num,
            stored,
        ),
    ensures
        r matches Ok(s) && s@ == raw,
{
    lemma_opening_is_determined(raw, 2, num);
    assert(raw.subrange(0, 12) + seq![0u8, 0u8, 0u8, 0u8] + raw.subrange(16, 2352)
        =~= without_header(raw));
    law_sector_is_determined(
        raw,
        r->Ok_0@,
        raw.subrange(24, 2072),
        raw.subrange(16, 24),
        sector_type,
        num,
        stored,
    );
}

/// A Mode 2 Form 2 sector as it stands on a disc comes back from its user data
/// and its subheader alone.
pub proof fn law_plain_form2_sector_comes_back(
    raw: Seq<u8>,
    num: u32,
    stored: Option<Seq<u8>>,
    r: Result<[u8; 2352], ReconstructionError>,
)
    requires
        raw.len() == 2352,
        opens_sector(raw, 2, num),
        raw.subrange(2348, 2352) == ecc::word_bytes(ecc::edc(raw.subrange(16, 2348))),
        rebuild_outcome(
            r,
            raw.subrange(24, 2348),
            raw.subrange(16, 24),
            SectorType::Mode2Form2,
            num,
            stored,
        ),
    ensures
        r matches Ok(s) && s@ == raw,
{
    lemma_opening_is_determined(raw, 2, num);
    law_sector_is_determined(
        raw,
        r->Ok_0@,
        raw.subrange(24, 2348),
        raw.subrange(16, 24),
        SectorType::Mode2Form2,
        num,
        stored,
    );
}

// ---------------------------------------------------------------------------
// Expanding the maps of a manifest
// ---------------------------------------------------------------------------

/// Appends `count` copies of a sector type.
pub(crate) fn push_run(sectors: &mut Vec<SectorType>, count: u32, sector_type: SectorType)
    ensures
        final(sectors)@ == old(sectors)@ + Seq::new(count as nat, |i: int| sector_type),
{
    let mut i: u32 = 0;
    while i < count
        invariant
            i <= count,
            sectors@ =~= old(sectors)@ + Seq::new(i as nat, |k: int| sector_type),
        decreases count - i,
    {
        sectors.push(sector_type);
        i += 1;
    }
}

/// One run more, and the expansion grows by the run's copies.
pub proof fn lemma_expanded_step(runs: Seq<(u32, SectorType)>, n: int)
    requires
        0 <= n < runs.len(),
    ensures
        disc::expanded(runs.take(n + 1)) == disc::expanded(runs.take(n)) + Seq::new(
            runs[n].0 as nat,
            |i: int| runs[n].1,
        ),
{
    assert(runs.take(n + 1).drop_last() =~= runs.take(n));
}

/// The types of all sectors of a disc, in order.
pub fn expand_sector_map(rle_map: &RleSectorMap) -> (sectors: Vec<SectorType>)
    ensures
        sectors@ == disc::expanded(rle_map.runs@),
{
    let mut sectors: Vec<SectorType> = Vec::new();
    let mut n: usize = 0;
    assert(rle_map.runs@.take(0) =~= Seq::empty());
    while n < rle_map.runs.len()
        invariant
            n <= rle_map.runs@.len(),
            sectors@ == disc::expanded(rle_map.runs@.take(n as int)),
        decreases rle_map.runs@.len() - n,
    {
        let run = rle_map.runs[n];
        proof {
            lemma_expanded_step(rle_map.runs@, n as int);
        }
        push_run(&mut sectors, run.0, run.1);
        n += 1;
    }
    assert(rle_map.runs@.take(n as int) =~= rle_map.runs@);
    sectors
}

/// The sectors of a disc, each with the position of its user data in the data
/// stream.
pub fn build_decoded_map(rle_map: &RleSectorMap) -> (map: Vec<DecodedSectorInfo>)
    requires
        disc::stream_len(
            disc::expanded(rle_map.runs@),
            disc::expanded(rle_map.runs@).len() as int,
        ) <= u64::MAX,
    ensures
        map@.len() == disc::expanded(rle_map.runs@).len(),
        forall|i: int|
            0 <= i < map@.len() ==> (#[trigger] map@[i]).sector_type == disc::expanded(
                rle_map.runs@,
            )[i] && map@[i].stream_offset == disc::stream_len(disc::expanded(rle_map.runs@), i),
{
    let sectors = expand_sector_map(rle_map);
    let mut map: Vec<DecodedSectorInfo> = Vec::with_capacity(sectors.len());
    let mut offset: u64 = 0;
    let mut i: usize = 0;
    while i < sectors.len()
        invariant
            i <= sectors@.len(),
            sectors@ == disc::expanded(rle_map.runs@),
            disc::stream_len(sectors@, sectors@.len() as int) <= u64::MAX,
            map@.len() == i,
            offset == disc::stream_len(sectors@, i as int),
            forall|k: int|
                0 <= k < i ==> (#[trigger] map@[k]).sector_type == sectors@[k]
                    && map@[k].stream_offset == disc::stream_len(sectors@, k),
        decreases sectors@.len() - i,
    {
        let sector_type = sectors[i];
        map.push(DecodedSectorInfo { sector_type, stream_offset: offset });
        proof {
            disc::lemma_stream_len_monotonic(sectors@, i + 1, sectors@.len() as int);
        }
        offset = offset + sector_type.data_size() as u64;
        i += 1;
    }
    map
}

/// The id that the last entry for a sector assigns to it.
pub open spec fn exception_at(index: Seq<(u32, u32)>, sector: int) -> Option<u32>
    decreases index.len(),
{
    if index.len() == 0 {
        None
    } else if index.last().0 == sector {
        Some(index.last().1)
    } else {
        exception_at(index.drop_last(), sector)
    }
}

/// Spreads an index of exceptions over all sectors of a disc.
pub fn expand_exception_index(excep_idx: &[(u32, u32)], total_sectors: usize) -> (lookup: Vec<
    Option<u32>,
>)
    requires
        forall|k: int| 0 <= k < excep_idx@.len() ==> (#[trigger] excep_idx@[k]).0 < total_sectors,
    ensures
        lookup@ == Seq::new(total_sectors as nat, |i: int| exception_at(excep_idx@, i)),
{
    let mut lookup: Vec<Option<u32>> = vec![None; total_sectors];
    let mut n: usize = 0;
    assert(excep_idx@.take(0) =~= Seq::empty());
    while n < excep_idx.len()
        invariant
            n <= excep_idx@.len(),
            lookup@.len() == total_sectors,
            forall|k: int|
                0 <= k < excep_idx@.len() ==> (#[trigger] excep_idx@[k]).0 < total_sectors,
            forall|i: int|
                0 <= i < total_sectors ==> #[trigger] lookup@[i] == exception_at(
                    excep_idx@.take(n as int),
                    i,
                ),
        decreases excep_idx@.len() - n,
    {
        let entry = excep_idx[n];
        assert(excep_idx@.take(n + 1).drop_last() =~= excep_idx@.take(n as int));
        lookup[entry.0 as usize] = Some(entry.1);
        n += 1;
    }
    assert(excep_idx@.take(n as int) =~= excep_idx@);
    assert(lookup@ =~= Seq::new(total_sectors as nat, |i: int| exception_at(excep_idx@, i)));
    lookup
}

/// Whether a run of sectors with a common subheader takes in a sector.
pub open spec fn entry_covers(entry: SubHeaderEntry, sector: int) -> bool {
    entry.start_lba <= sector < entry.start_lba + entry.count
}

/// The id of the last run that takes in a sector.
pub open spec fn subheader_at(index: Seq<SubHeaderEntry>, sector: int) -> Option<u16>
    decreases index.len(),
{
    if index.len() == 0 {
        None
    } else if entry_covers(index.last(), sector) {
        Some(index.last().data_id)
    } else {
        subheader_at(index.drop_last(), sector)
    }
}

/// Spreads an index of subheader runs over all sectors of a disc. What lies
/// beyond the last sector is dropped.
pub fn expand_subheader_map(index: &[SubHeaderEntry], total_sectors: usize) -> (map: Vec<
    Option<u16>,
>)
    requires
        forall|k: int|
            0 <= k < index@.len() ==> (#[trigger] index@[k]).start_lba + index@[k].count
                <= u32::MAX + 1,
    ensures
        map@ == Seq::new(total_sectors as nat, |i: int| subheader_at(index@, i)),
{
    let mut map: Vec<Option<u16>> = vec![None; total_sectors];
    let mut n: usize = 0;
    assert(index@.take(0) =~= Seq::empty());
    while n < index.len()
        invariant
            n <= index@.len(),
            map@.len() == total_sectors,
            forall|k: int|
                0 <= k < index@.len() ==> (#[trigger] index@[k]).start_lba + index@[k].count
                    <= u32::MAX + 1,
            forall|i: int|
                0 <= i < total_sectors ==> #[trigger] map@[i] == subheader_at(
                    index@.take(n as int),
                    i,
                ),
        decreases index@.len() - n,
    {
        let entry = index[n];
        let ghost before = map@;
        assert(index@.take(n + 1).drop_last() =~= index@.take(n as int));
        let mut offset: u32 = 0;
        while offset < entry.count
            invariant
                offset <= entry.count,
                entry.start_lba + entry.count <= u32::MAX + 1,
                map@.len() == total_sectors == before.len(),
                forall|i: int|
                    0 <= i < total_sectors ==> #[trigger] map@[i] == (if entry.start_lba <= i
                        < entry.start_lba + offset {
                        Some(entry.data_id)
                    } else {
                        before[i]
                    }),
            decreases entry.count - offset,
        {
            let at: usize = (entry.start_lba + offset) as usize;
            if at < total_sectors {
                map[at] = Some(entry.data_id);
            }
            offset += 1;
        }
        n += 1;
    }
    assert(index@.take(n as int) =~= index@);
    assert(map@ =~= Seq::new(total_sectors as nat, |i: int| subheader_at(index@, i)));
    map
}

// ---------------------------------------------------------------------------
// Buffered chunks
// ---------------------------------------------------------------------------

/// The bytes of a list of chunks, end to end.
pub open spec fn joined(chunks: Seq<Vec<u8>>) -> Seq<u8>
    decreases chunks.len(),
{
    if chunks.len() == 0 {
        Seq::empty()
    } else {
        chunks[0]@ + joined(chunks.drop_first())
    }
}

/// Joining two lists of chunks.
pub proof fn lemma_joined_concat(a: Seq<Vec<u8>>, b: Seq<Vec<u8>>)
    ensures
        joined(a + b) == joined(a) + joined(b),
    decreases a.len(),
{
    if a.len() == 0 {
        assert(a + b =~= b);
        assert(joined(a) + joined(b) =~= joined(b));
    } else {
        lemma_joined_concat(a.drop_first(), b);
        assert((a + b).drop_first() =~= a.drop_first() + b);
        assert(joined(a + b) =~= joined(a) + joined(b));
    }
}

/// A chunk at the end adds its bytes at the end.
pub proof fn lemma_joined_push(chunks: Seq<Vec<u8>>, chunk: Vec<u8>)
    ensures
        joined(chunks.push(chunk)) == joined(chunks) + chunk@,
{
    lemma_joined_concat(chunks, seq![chunk]);
    assert(chunks + seq![chunk] =~= chunks.push(chunk));
    let one = seq![chunk];
    assert(one.drop_first() =~= Seq::<Vec<u8>>::empty());
    assert(joined(one) =~= one[0]@ + joined(one.drop_first()));
    assert(joined(one) =~= chunk@);
}

/// Takes the first `n` bytes out of a queue of chunks.
pub fn drain_buffer(buf: &mut VecDeque<Vec<u8>>, n: usize) -> (bytes: Vec<u8>)
    requires
        n <= joined(old(buf)@).len(),
    ensures
        bytes@ == joined(old(buf)@).take(n as int),
        joined(final(buf)@) == joined(old(buf)@).skip(n as int),
{
    let ghost all = joined(buf@);
    let mut result: Vec<u8> = Vec::with_capacity(n);
    assert(result@ =~= all.take(0));
    assert(all.skip(0) =~= all);
    while result.len() < n
        invariant
            n <= all.len(),
            result@.len() <= n,
            result@ == all.take(result@.len() as int),
            joined(buf@) == all.skip(result@.len() as int),
        decreases n - result@.len(), buf@.len(),
    {
        let ghost chunks = buf@;
        let ghost got = result@.len() as int;
        assert(chunks.len() > 0) by {
            if chunks.len() == 0 {
                assert(all.skip(got).len() == 0);
            }
        }
        if let Some(mut head) = buf.pop_front() {
            assert(buf@ =~= chunks.drop_first());
            let ghost piece = head@;
            assert(all.skip(got) == piece + joined(buf@));
            assert(piece =~= (piece + joined(buf@)).take(piece.len() as int));
            assert(joined(buf@) =~= (piece + joined(buf@)).skip(piece.len() as int));
            let needed: usize = n - result.len();
            if head.len() <= needed {
                result.append(&mut head);
                assert(all.skip(got).skip(piece.len() as int) =~= all.skip(got + piece.len()));
                assert(result@ =~= all.take(got + piece.len()));
            } else {
                let tail = head.split_off(needed);
                let ghost front = head@;
                let ghost rest = tail@;
                assert(piece =~= front + rest);
                result.append(&mut head);
                buf.push_front(tail);
                assert(buf@.drop_first() =~= chunks.drop_first());
                assert(joined(buf@) =~= rest + joined(chunks.drop_first()));
                assert(all.skip(got) =~= front + joined(buf@));
                assert(all.skip(got).skip(needed as int) =~= all.skip(got + needed));
                assert(joined(buf@) =~= all.skip(got).skip(needed as int));
                assert(result@ =~= all.take(got + needed));
            }
        }
    }
    result
}

/// A list of deviations says for each sector what its last entry for the sector
/// says, and nothing for a sector without an entry.
pub proof fn law_last_deviation_counts(index: Seq<(u32, u32)>, sector: int, k: int)
    requires
        -1 <= k < index.len(),
        k >= 0 ==> index[k].0 == sector,
        forall|j: int| k < j < index.len() ==> (#[trigger] index[j]).0 != sector,
    ensures
        exception_at(index, sector) == if k >= 0 {
            Some(index[k].1)
        } else {
            None
        },
    decreases index.len(),
{
    if index.len() > 0 && k < index.len() - 1 {
        let front = index.drop_last();
        assert forall|j: int| k < j < front.len() implies (#[trigger] front[j]).0 != sector by {
            assert(front[j] == index[j]);
        }
        assert(index[index.len() - 1].0 != sector);
        law_last_deviation_counts(front, sector, k);
    }
}

/// Runs of subheaders say for each sector what the last run says that takes in the
/// sector, from its first sector on for as many as it counts, and nothing for a
/// sector that no run takes in.
pub proof fn law_last_subheader_run_counts(index: Seq<SubHeaderEntry>, sector: int, k: int)
    requires
        -1 <= k < index.len(),
        k >= 0 ==> index[k].start_lba <= sector < index[k].start_lba + index[k].count,
        forall|j: int|
            k < j < index.len() ==> !((#[trigger] index[j]).start_lba <= sector
                < index[j].start_lba + index[j].count),
    ensures
        subheader_at(index, sector) == if k >= 0 {
            Some(index[k].data_id)
        } else {
            None
        },
    decreases index.len(),
{
    if index.len() > 0 && k < index.len() - 1 {
        let front = index.drop_last();
        let last = index[index.len() - 1];
        assert forall|j: int| k < j < front.len() implies !((#[trigger] front[j]).start_lba
            <= sector < front[j].start_lba + front[j].count) by {
            assert(front[j] == index[j]);
        }
        assert(!(last.start_lba <= sector < last.start_lba + last.count));
        law_last_subheader_run_counts(front, sector, k);
    }
}

/// User data of a wrong length is reported with the name of the sector's mode and
/// form, with the number of bytes it should have and with the number it has.
pub proof fn law_wrong_lengths_are_reported(
    r: Result<[u8; 2352], ReconstructionError>,
    user: Seq<u8>,
    meta: Seq<u8>,
    sector_type: SectorType,
    num: u32,
    stored: Option<Seq<u8>>,
)
    requires
        rebuild_outcome(r, user, meta, sector_type, num, stored),
    ensures
        (sector_type is Mode1 || sector_type is PregapMode1) && user.len() != 2048 ==> r is Err
            && is_length_error(r->Err_0, "Mode1"@, 2048, user.len() as int),
        (sector_type is Mode1Exception || sector_type is PregapMode1Exception) && user.len() != 2048
            ==> r is Err && is_length_error(
            r->Err_0,
            "Mode1Exception"@,
            2048,
            user.len() as int,
        ),
        (sector_type is Mode2Form1 || sector_type is PregapMode2) && user.len() != 2048 ==> r is Err
            && is_length_error(r->Err_0, "Mode2Form1"@, 2048, user.len() as int),
        (sector_type is Mode2Form1Exception || sector_type is PregapMode2Exception) && user.len()
            != 2048 ==> r is Err && is_length_error(
            r->Err_0,
            "Mode2Form1Exception"@,
            2048,
            user.len() as int,
        ),
        sector_type is Mode2Form2 && user.len() != 2324 ==> r is Err && is_length_error(
            r->Err_0,
            "Mode2Form2"@,
            2324,
            user.len() as int,
        ),
        sector_type is Mode2Form2Exception && user.len() != 2324 ==> r is Err && is_length_error(
            r->Err_0,
            "Mode2Form2Exception"@,
            2324,
            user.len() as int,
        ),
        (sector_type is ZeroedMode1Data || sector_type is ZeroedMode2Data) && user.len() != 2352
            ==> r is Err && is_length_error(r->Err_0, "ZeroedData"@, 2352, user.len() as int),
        sector_type is Audio || sector_type is PregapAudio || sector_type is ZeroedAudio
            || sector_type is Unmapped ==> r is Err && r->Err_0
            == ReconstructionError::UnsupportedType(sector_type),
{
}

/// A deviating sector needs the bytes kept for it, all of them: without any, and
/// with another number of them than its mode and form ask for, it is not rebuilt.
pub proof fn law_deviating_sectors_need_their_bytes(
    r: Result<[u8; 2352], ReconstructionError>,
    user: Seq<u8>,
    meta: Seq<u8>,
    sector_type: SectorType,
    num: u32,
    stored: Option<Seq<u8>>,
)
    requires
        user.len() == sector_type.user_len(),
        rebuild_outcome(r, user, meta, sector_type, num, stored),
    ensures
        (sector_type is Mode1Exception || sector_type is PregapMode1Exception || sector_type
            is Mode2Form1Exception || sector_type is PregapMode2Exception || sector_type
            is Mode2Form2Exception) && stored is None ==> r is Err && r->Err_0
            is MissingExceptionData,
        (sector_type is Mode1Exception || sector_type is PregapMode1Exception) && stored is Some
            && stored->0.len() != 296 ==> r is Err && is_length_error(
            r->Err_0,
            "Mode1"@,
            296,
            stored->0.len() as int,
        ),
        (sector_type is Mode2Form1Exception || sector_type is PregapMode2Exception) && stored is Some
            && stored->0.len() != 296 ==> r is Err && is_length_error(
            r->Err_0,
            "Mode2Form1Exception"@,
            296,
            stored->0.len() as int,
        ),
        sector_type is Mode2Form2Exception && stored is Some && stored->0.len() != 20 ==> r is Err
            && is_length_error(
            r->Err_0,
            "Mode2Form2Exception"@,
            20,
            stored->0.len() as int,
        ),
{
}

} // verus!
