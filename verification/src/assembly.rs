//! Assembling a disc sector by sector from its data and audio streams.

use std::collections::VecDeque;
use vstd::prelude::*;
use crate::disc;
use crate::disc::{ContentBlock, DataChunkLayout, DiscManifest, SectorType};
use crate::error::SpriteShrinkCDError;
use crate::fetch;
use crate::hashing;
use crate::hashing::{
    sha512_finish, sha512_start, sha512_update, xxh3_digest, xxh3_start, xxh3_update,
};
use crate::mapper::same_bytes;
use crate::reconstruction;
use crate::reconstruction::{
    drain_buffer, expand_exception_index, expand_sector_map, expand_subheader_map,
    rebuild_sector_simd, ReconstructionError,
};
use crate::stream;
use crate::text;
use crate::text::{decimal_text, hex_bytes_text, hex_text};

verus! {

// ---------------------------------------------------------------------------
// Sector numbers
// ---------------------------------------------------------------------------

/// The entry of the offset map in force and the offset it gives, on to sector
/// `i`. The next entry takes over once the sector number reaches it.
pub open spec fn advance(
    lba_map: Seq<(u32, u32)>,
    state: (int, int),
    i: int,
) -> (int, int) {
    if state.0 + 1 < lba_map.len() && state.1 + i >= lba_map[state.0 + 1].0 {
        (state.0 + 1, lba_map[state.0 + 1].1 as int)
    } else {
        state
    }
}

/// The entry of the offset map in force and the offset it gives before sector
/// `i` is looked at. Only data sectors move on.
pub open spec fn offset_state(
    types: Seq<SectorType>,
    lba_map: Seq<(u32, u32)>,
    i: int,
) -> (int, int)
    decreases i,
{
    if i <= 0 {
        (0, lba_map[0].1 as int)
    } else if types[i - 1].audio() {
        offset_state(types, lba_map, i - 1)
    } else {
        advance(lba_map, offset_state(types, lba_map, i - 1), i - 1)
    }
}

/// The number that data sector `i` carries in its header.
pub open spec fn sector_number(
    types: Seq<SectorType>,
    lba_map: Seq<(u32, u32)>,
    i: int,
) -> int {
    i + advance(lba_map, offset_state(types, lba_map, i), i).1
}

/// Whether all sector numbers of a disc fit into 32 bits.
pub open spec fn numbers_fit(types: Seq<SectorType>, lba_map: Seq<(u32, u32)>) -> bool {
    &&& types.len() <= 4294967296
    &&& forall|i: int|
        0 <= i < types.len() && !(#[trigger] types[i]).audio() ==> {
            let state = offset_state(types, lba_map, i);
            &&& state.0 + 1 < lba_map.len() ==> state.1 + i <= u32::MAX
            &&& sector_number(types, lba_map, i) <= u32::MAX
        }
}

// ---------------------------------------------------------------------------
// The tables that sectors are rebuilt from
// ---------------------------------------------------------------------------

/// The subheaders and deviating bytes of a disc.
pub struct DiscTables<'a> {
    /// Where each deviating byte string starts in the store.
    pub exception_index: &'a [u64],
    /// The deviating byte strings, end to end.
    pub exception_blob: &'a [u8],
    /// The distinct subheaders.
    pub subheaders: &'a [[u8; 8]],
}

/// The bytes that a table of deviations holds for a sector of the given type.
pub open spec fn stored_bytes(
    tables: DiscTables,
    id: Option<u32>,
    sector_type: SectorType,
) -> Option<Seq<u8>> {
    match id {
        None => None,
        Some(id) => {
            let start = tables.exception_index@[id as int] as int;
            Some(tables.exception_blob@.subrange(start, start + sector_type.exception_len()))
        },
    }
}

/// Whether the tables hold what the sectors of a disc refer to.
pub open spec fn tables_fit(
    types: Seq<SectorType>,
    subheaders: Seq<Option<u16>>,
    exceptions: Seq<Option<u32>>,
    tables: DiscTables,
) -> bool {
    forall|i: int|
        0 <= i < types.len() && !(#[trigger] types[i]).audio() ==> {
            &&& exceptions[i] matches Some(id) ==> id < tables.exception_index@.len()
                && tables.exception_index@[id as int] + types[i].exception_len()
                <= tables.exception_blob@.len()
            &&& subheaders[i] matches Some(id) ==> id < tables.subheaders@.len()
        }
}

// ---------------------------------------------------------------------------
// Sector by sector
// ---------------------------------------------------------------------------

/// What a disc is assembled by: the type, subheader and deviation of every
/// sector, and the offsets of sector numbers.
pub struct DiscPlan {
    pub types: Seq<SectorType>,
    pub subheaders: Seq<Option<u16>>,
    pub exceptions: Seq<Option<u32>>,
    pub lba_map: Seq<(u32, u32)>,
}

/// The plan that a manifest gives.
pub open spec fn plan_of<H>(manifest: DiscManifest<H>) -> DiscPlan {
    let types = disc::expanded(manifest.rle_sector_map.runs@);
    DiscPlan {
        types,
        subheaders: Seq::new(
            types.len(),
            |i: int| reconstruction::subheader_at(manifest.subheader_index@, i),
        ),
        exceptions: Seq::new(
            types.len(),
            |i: int| reconstruction::exception_at(manifest.disc_exception_index@, i),
        ),
        lba_map: manifest.lba_map@,
    }
}

/// Whether a disc can be assembled by a manifest and the tables that belong to
/// it: there is a first offset, indices and numbers stay in range.
pub open spec fn manifest_fits<H>(manifest: DiscManifest<H>, tables: DiscTables) -> bool {
    let plan = plan_of(manifest);
    &&& manifest.lba_map@.len() > 0
    &&& forall|k: int|
        0 <= k < manifest.subheader_index@.len() ==> (
        #[trigger] manifest.subheader_index@[k]).start_lba + manifest.subheader_index@[k].count
            <= u32::MAX + 1
    &&& forall|k: int|
        0 <= k < manifest.disc_exception_index@.len() ==> (
        #[trigger] manifest.disc_exception_index@[k]).0 < plan.types.len()
    &&& numbers_fit(plan.types, plan.lba_map)
    &&& tables_fit(plan.types, plan.subheaders, plan.exceptions, tables)
}

/// Whether the number and the table entries of data sector `i` are in range.
pub open spec fn sector_fits(plan: DiscPlan, tables: DiscTables, i: int) -> bool {
    let state = offset_state(plan.types, plan.lba_map, i);
    &&& state.0 + 1 < plan.lba_map.len() ==> state.1 + i <= u32::MAX
    &&& sector_number(plan.types, plan.lba_map, i) <= u32::MAX
    &&& plan.exceptions[i] matches Some(id) ==> id < tables.exception_index@.len()
        && tables.exception_index@[id as int] + plan.types[i].exception_len()
        <= tables.exception_blob@.len()
    &&& plan.subheaders[i] matches Some(id) ==> id < tables.subheaders@.len()
}

/// Whether what is looked up for data sector `i` is there: its deviation and its
/// subheader, and where it has a subheader, its number.
pub open spec fn sector_ready(plan: DiscPlan, tables: DiscTables, i: int) -> bool {
    let state = offset_state(plan.types, plan.lba_map, i);
    &&& plan.exceptions[i] matches Some(id) ==> id < tables.exception_index@.len()
        && tables.exception_index@[id as int] + plan.types[i].exception_len()
        <= tables.exception_blob@.len()
    &&& plan.subheaders[i] matches Some(id) ==> {
        &&& id < tables.subheaders@.len()
        &&& state.0 + 1 < plan.lba_map.len() ==> state.1 + i <= u32::MAX
        &&& sector_number(plan.types, plan.lba_map, i) <= u32::MAX
    }
}

/// Whether all data sectors of a disc can be assembled.
pub open spec fn all_sectors_fit(plan: DiscPlan, tables: DiscTables) -> bool {
    forall|i: int|
        0 <= i < plan.types.len() && !(#[trigger] plan.types[i]).audio() ==> sector_fits(
            plan,
            tables,
            i,
        )
}

/// Whether the tables hold the deviation and the subheader of a data sector.
fn entries_fit(
    sector_type: SectorType,
    exception: Option<u32>,
    subheader: Option<u16>,
    tables: &DiscTables,
) -> (fit: bool)
    ensures
        fit == {
            &&& exception matches Some(id) ==> id < tables.exception_index@.len()
                && tables.exception_index@[id as int] + sector_type.exception_len()
                <= tables.exception_blob@.len()
            &&& subheader matches Some(id) ==> id < tables.subheaders@.len()
        },
{
    if let Some(id) = exception {
        if id as usize >= tables.exception_index.len() {
            return false;
        }
        let start: u64 = tables.exception_index[id as usize];
        let length: u64 = tables.exception_blob.len() as u64;
        if start > length || length - start < sector_type.excep_size() as u64 {
            return false;
        }
    }
    match subheader {
        Some(id) => (id as usize) < tables.subheaders.len(),
        None => true,
    }
}

/// Whether a disc can be assembled by a manifest and the tables that belong to
/// it.
pub fn can_assemble<H>(manifest: &DiscManifest<H>, tables: &DiscTables) -> (fits: bool)
    ensures
        fits == manifest_fits(*manifest, *tables),
{
    if manifest.lba_map.len() == 0 {
        return false;
    }
    let mut n: usize = 0;
    while n < manifest.subheader_index.len()
        invariant
            n <= manifest.subheader_index@.len(),
            forall|k: int|
                0 <= k < n ==> (#[trigger] manifest.subheader_index@[k]).start_lba
                    + manifest.subheader_index@[k].count <= u32::MAX + 1,
        decreases manifest.subheader_index@.len() - n,
    {
        let run = manifest.subheader_index[n];
        if run.start_lba as u64 + run.count as u64 > 4294967296 {
            return false;
        }
        n += 1;
    }
    let total: usize = expand_sector_map(&manifest.rle_sector_map).len();
    if total as u64 > 4294967296 {
        return false;
    }
    n = 0;
    while n < manifest.disc_exception_index.len()
        invariant
            n <= manifest.disc_exception_index@.len(),
            total == plan_of(*manifest).types.len(),
            forall|k: int|
                0 <= k < n ==> (#[trigger] manifest.disc_exception_index@[k]).0 < total,
        decreases manifest.disc_exception_index@.len() - n,
    {
        if manifest.disc_exception_index[n].0 as usize >= total {
            return false;
        }
        n += 1;
    }
    let mut assembler = SectorAssembler::new(manifest);
    proof {
        lemma_sectors_fit(plan_of(*manifest), *tables);
    }
    assembler.skip_all(tables)
}

/// Numbers and table entries are in range where those of every data sector are.
proof fn lemma_sectors_fit(plan: DiscPlan, tables: DiscTables)
    requires
        plan.types.len() <= 4294967296,
    ensures
        all_sectors_fit(plan, tables) == (numbers_fit(plan.types, plan.lba_map) && tables_fit(
            plan.types,
            plan.subheaders,
            plan.exceptions,
            tables,
        )),
{
    if numbers_fit(plan.types, plan.lba_map) && tables_fit(
        plan.types,
        plan.subheaders,
        plan.exceptions,
        tables,
    ) {
        assert forall|i: int|
            0 <= i < plan.types.len() && !(#[trigger] plan.types[i]).audio() implies sector_fits(
            plan,
            tables,
            i,
        ) by {}
    }
    if all_sectors_fit(plan, tables) {
        assert forall|i: int|
            0 <= i < plan.types.len() && !(#[trigger] plan.types[i]).audio() implies {
            let state = offset_state(plan.types, plan.lba_map, i);
            &&& state.0 + 1 < plan.lba_map.len() ==> state.1 + i <= u32::MAX
            &&& sector_number(plan.types, plan.lba_map, i) <= u32::MAX
        } by {
            assert(sector_fits(plan, tables, i));
        }
        assert forall|i: int|
            0 <= i < plan.types.len() && !(#[trigger] plan.types[i]).audio() implies {
            &&& plan.exceptions[i] matches Some(id) ==> id < tables.exception_index@.len()
                && tables.exception_index@[id as int] + plan.types[i].exception_len()
                <= tables.exception_blob@.len()
            &&& plan.subheaders[i] matches Some(id) ==> id < tables.subheaders@.len()
        } by {
            assert(sector_fits(plan, tables, i));
        }
    }
}

/// Number of stream bytes that a sector takes.
pub open spec fn payload_len(sector_type: SectorType) -> int {
    if sector_type.audio() {
        2352
    } else {
        sector_type.user_len()
    }
}

/// Text of the complaint that a stream ended too early.
pub open spec fn ended_early(audio: bool, expected: int, actual: int) -> Seq<char> {
    (if audio {
        "Audio stream ended prematurely. Expected "@
    } else {
        "Data stream ended prematurely. Expected "@
    }) + text::decimal(expected as nat) + " bytes, got "@ + text::decimal(actual as nat)
}

/// What assembling sector `i` from its stream bytes yields.
pub open spec fn sector_outcome(
    r: Result<[u8; 2352], ReconstructionError>,
    plan: DiscPlan,
    tables: DiscTables,
    i: int,
    payload: Seq<u8>,
) -> bool {
    let sector_type = plan.types[i];
    if payload.len() != payload_len(sector_type) {
        r matches Err(ReconstructionError::InternalError(m)) && m@ == ended_early(
            sector_type.audio(),
            payload_len(sector_type),
            payload.len() as int,
        )
    } else if sector_type.audio() {
        r matches Ok(s) && s@ == payload
    } else if plan.subheaders[i] is None {
        r matches Err(ReconstructionError::MissingSubheader(k)) && k == i
    } else {
        reconstruction::rebuild_outcome(
            r,
            payload,
            tables.subheaders@[plan.subheaders[i]->0 as int]@,
            sector_type,
            sector_number(plan.types, plan.lba_map, i) as u32,
            stored_bytes(tables, plan.exceptions[i], sector_type),
        )
    }
}

/// Steps through the sectors of a disc.
pub struct SectorAssembler {
    types: Vec<SectorType>,
    subheaders: Vec<Option<u16>>,
    exceptions: Vec<Option<u32>>,
    lba_map: Vec<(u32, u32)>,
    lba_index: usize,
    offset: u32,
    next: usize,
}

fn early_end(audio: bool, expected: usize, actual: usize) -> (e: ReconstructionError)
    ensures
        e matches ReconstructionError::InternalError(m) && m@ == ended_early(
            audio,
            expected as int,
            actual as int,
        ),
{
    let mut m = String::new();
    if audio {
        m.push_str("Audio stream ended prematurely. Expected ");
    } else {
        m.push_str("Data stream ended prematurely. Expected ");
    }
    m.push_str(decimal_text(expected as u128).as_str());
    m.push_str(" bytes, got ");
    m.push_str(decimal_text(actual as u128).as_str());
    assert(m@ =~= ended_early(audio, expected as int, actual as int));
    ReconstructionError::InternalError(m)
}

impl SectorAssembler {
    /// What the disc is assembled by.
    pub closed spec fn plan(&self) -> DiscPlan {
        DiscPlan {
            types: self.types@,
            subheaders: self.subheaders@,
            exceptions: self.exceptions@,
            lba_map: self.lba_map@,
        }
    }

    /// The next sector.
    pub closed spec fn position(&self) -> int {
        self.next as int
    }

    /// The maps cover all sectors, and the offset in force is that before the
    /// next sector.
    pub closed spec fn wf(&self) -> bool {
        &&& self.next <= self.types@.len()
        &&& self.subheaders@.len() == self.types@.len()
        &&& self.exceptions@.len() == self.types@.len()
        &&& self.lba_map@.len() > 0
        &&& (self.lba_index as int, self.offset as int) == offset_state(
            self.types@,
            self.lba_map@,
            self.next as int,
        )
        &&& self.lba_index < self.lba_map@.len()
    }

    /// Prepares to assemble the disc of a manifest.
    pub fn new<H>(manifest: &DiscManifest<H>) -> (a: SectorAssembler)
        requires
            manifest.lba_map@.len() > 0,
            forall|k: int|
                0 <= k < manifest.subheader_index@.len() ==> (
                #[trigger] manifest.subheader_index@[k]).start_lba
                    + manifest.subheader_index@[k].count <= u32::MAX + 1,
            forall|k: int|
                0 <= k < manifest.disc_exception_index@.len() ==> (
                #[trigger] manifest.disc_exception_index@[k]).0 < plan_of(
                    *manifest,
                ).types.len(),
        ensures
            a.wf(),
            a.plan() == plan_of(*manifest),
            a.position() == 0,
    {
        let types = expand_sector_map(&manifest.rle_sector_map);
        let total: usize = types.len();
        let subheaders = expand_subheader_map(manifest.subheader_index.as_slice(), total);
        let exceptions = expand_exception_index(manifest.disc_exception_index.as_slice(), total);
        let lba_map = vstd::slice::slice_to_vec(manifest.lba_map.as_slice());
        let offset: u32 = lba_map[0].1;
        SectorAssembler { types, subheaders, exceptions, lba_map, lba_index: 0, offset, next: 0 }
    }

    /// Whether all sectors are done.
    pub fn is_done(&self) -> (done: bool)
        requires
            self.wf(),
        ensures
            done == (self.position() == self.plan().types.len()),
            self.position() <= self.plan().types.len(),
    {
        self.next == self.types.len()
    }

    /// The type of the next sector.
    pub fn next_type(&self) -> (sector_type: SectorType)
        requires
            self.wf(),
            self.position() < self.plan().types.len(),
        ensures
            sector_type == self.plan().types[self.position()],
            0 <= self.position(),
    {
        self.types[self.next]
    }

    /// Number of stream bytes that the next sector takes.
    pub fn needed(&self) -> (n: usize)
        requires
            self.wf(),
            self.position() < self.plan().types.len(),
        ensures
            n == payload_len(self.plan().types[self.position()]),
    {
        let sector_type = self.types[self.next];
        if sector_type.is_audio() {
            2352
        } else {
            sector_type.data_size() as usize
        }
    }

    /// Assembles the next sector from its stream bytes and steps on where that
    /// succeeds.
    pub fn rebuild_next(&mut self, payload: &[u8], tables: &DiscTables) -> (r: Result<
        [u8; 2352],
        ReconstructionError,
    >)
        requires
            old(self).wf(),
            old(self).position() < old(self).plan().types.len(),
            ({
                let sector_type = old(self).plan().types[old(self).position()];
                !sector_type.audio() && payload@.len() == payload_len(sector_type) ==> sector_ready(
                    old(self).plan(),
                    *tables,
                    old(self).position(),
                )
            }),
        ensures
            sector_outcome(r, old(self).plan(), *tables, old(self).position(), payload@),
            final(self).plan() == old(self).plan(),
            r is Ok ==> final(self).wf() && final(self).position() == old(self).position() + 1,
    {
        let i: usize = self.next;
        assert(i < self.types.len());
        let sector_type = self.types[i];
        let needed = self.needed();
        if payload.len() != needed {
            return Err(early_end(sector_type.is_audio(), needed, payload.len()));
        }
        if sector_type.is_audio() {
            let sector = copy_sector(payload);
            self.next = i + 1;
            return Ok(sector);
        }
        assert(!self.types@[i as int].audio());
        let exception = self.stored(i, tables);
        let subheader = match self.subheaders[i] {
            None => return Err(ReconstructionError::MissingSubheader(i)),
            Some(id) => &tables.subheaders[id as usize],
        };
        let (lba_index, offset) = self.offset_for(i);
        let r = rebuild_sector_simd(
            payload,
            subheader,
            sector_type,
            i as u32 + offset,
            exception,
        );
        if r.is_ok() {
            self.lba_index = lba_index;
            self.offset = offset;
            self.next = i + 1;
        }
        r
    }

    /// Steps over the next sector, unless it is one that cannot be assembled.
    fn skip(&mut self, tables: &DiscTables) -> (fits: bool)
        requires
            old(self).wf(),
            old(self).position() < old(self).plan().types.len(),
            old(self).plan().types.len() <= 4294967296,
        ensures
            fits == (old(self).plan().types[old(self).position()].audio() || sector_fits(
                old(self).plan(),
                *tables,
                old(self).position(),
            )),
            final(self).plan() == old(self).plan(),
            fits ==> final(self).wf() && final(self).position() == old(self).position() + 1,
            !fits ==> final(self).position() == old(self).position(),
    {
        let i: usize = self.next;
        assert(i < self.types.len());
        let sector_type = self.types[i];
        if !sector_type.is_audio() {
            let k: usize = self.lba_index;
            let number: u64 = self.offset as u64 + i as u64;
            let more = self.lba_map.len() - 1 > k;
            if more && number > 4294967295 {
                return false;
            }
            let (lba_index, offset) = if more && number >= self.lba_map[k + 1].0 as u64 {
                (k + 1, self.lba_map[k + 1].1)
            } else {
                (k, self.offset)
            };
            if offset as u64 + i as u64 > 4294967295 || !entries_fit(
                sector_type,
                self.exceptions[i],
                self.subheaders[i],
                tables,
            ) {
                return false;
            }
            self.lba_index = lba_index;
            self.offset = offset;
        }
        self.next = i + 1;
        true
    }

    /// Steps over all sectors, up to one that cannot be assembled.
    fn skip_all(&mut self, tables: &DiscTables) -> (fits: bool)
        requires
            old(self).wf(),
            old(self).position() == 0,
            old(self).plan().types.len() <= 4294967296,
        ensures
            fits == all_sectors_fit(old(self).plan(), *tables),
    {
        let ghost plan = self.plan();
        while !self.is_done()
            invariant
                self.wf(),
                self.plan() == plan,
                plan == old(self).plan(),
                plan.types.len() <= 4294967296,
                0 <= self.position(),
                forall|j: int|
                    0 <= j < self.position() && !(#[trigger] plan.types[j]).audio()
                        ==> sector_fits(plan, *tables, j),
            decreases plan.types.len() - self.position(),
        {
            let ghost i = self.position();
            if !self.skip(tables) {
                assert(!plan.types[i].audio() && !sector_fits(plan, *tables, i));
                return false;
            }
        }
        true
    }

    /// The deviating bytes kept for data sector `i`.
    fn stored<'a>(&self, i: usize, tables: &DiscTables<'a>) -> (bytes: Option<&'a [u8]>)
        requires
            self.wf(),
            i < self.types@.len(),
            sector_ready(self.plan(), *tables, i as int),
        ensures
            reconstruction::bytes_of(bytes) == stored_bytes(
                *tables,
                self.exceptions@[i as int],
                self.types@[i as int],
            ),
    {
        let sector_type = self.types[i];
        match self.exceptions[i] {
            None => None,
            Some(id) => {
                let size: usize = sector_type.excep_size();
                let blob = tables.exception_blob;
                let length: usize = blob.len();
                let start: usize = tables.exception_index[id as usize] as usize;
                assert(start + size <= length);
                Some(&blob[start..start + size])
            },
        }
    }

    /// The offset entry and the offset for data sector `i`, the next one.
    fn offset_for(&self, i: usize) -> (state: (usize, u32))
        requires
            self.wf(),
            i == self.next,
            i < self.types@.len(),
            self.lba_index + 1 < self.lba_map@.len() ==> self.offset + i <= u32::MAX,
            sector_number(self.types@, self.lba_map@, i as int) <= u32::MAX,
        ensures
            (state.0 as int, state.1 as int) == advance(
                self.lba_map@,
                offset_state(self.types@, self.lba_map@, i as int),
                i as int,
            ),
            state.0 < self.lba_map@.len(),
            i + state.1 <= u32::MAX,
            i <= u32::MAX,
            sector_number(self.types@, self.lba_map@, i as int) == i + state.1,
    {
        if self.lba_map.len() - 1 > self.lba_index && self.offset + i as u32 >= self.lba_map[
        self.lba_index + 1].0 {
            (self.lba_index + 1, self.lba_map[self.lba_index + 1].1)
        } else {
            (self.lba_index, self.offset)
        }
    }
}

fn copy_sector(bytes: &[u8]) -> (sector: [u8; 2352])
    requires
        bytes@.len() == 2352,
    ensures
        sector@ == bytes@,
{
    let mut sector = [0u8; 2352];
    let mut i: usize = 0;
    while i < 2352
        invariant
            i <= 2352,
            bytes@.len() == 2352,
            forall|k: int| 0 <= k < i ==> sector@[k] == bytes@[k],
        decreases 2352 - i,
    {
        sector[i] = bytes[i];
        i += 1;
    }
    assert(sector@ =~= bytes@);
    sector
}

// ---------------------------------------------------------------------------
// Streams of chunks
// ---------------------------------------------------------------------------

/// Number of chunks asked for at a time.
pub const FEED_BATCH: usize = 64;

/// A byte stream whose chunks are asked for as they are needed.
pub struct ByteFeed<H> {
    hashes: Vec<H>,
    cursor: usize,
    buffer: VecDeque<Vec<u8>>,
    replies: Ghost<Seq<Vec<Vec<u8>>>>,
    taken: Ghost<int>,
}

/// Whether a queue of chunks holds at least `n` bytes.
fn holds(buffer: &VecDeque<Vec<u8>>, n: usize) -> (yes: bool)
    ensures
        yes == (reconstruction::joined(buffer@).len() >= n),
{
    let ghost chunks = buffer@;
    let mut missing: usize = n;
    let mut i: usize = 0;
    assert(chunks.skip(0) =~= chunks);
    while i < buffer.len()
        invariant
            chunks == buffer@,
            i <= chunks.len(),
            reconstruction::joined(chunks).len() - reconstruction::joined(
                chunks.skip(i as int),
            ).len() == n - missing,
            missing <= n,
        decreases chunks.len() - i,
    {
        assert(chunks.skip(i as int).drop_first() =~= chunks.skip(i + 1));
        assert(chunks.skip(i as int)[0] == chunks[i as int]);
        let size: usize = buffer[i].len();
        if size >= missing {
            return true;
        }
        missing = missing - size;
        i += 1;
    }
    assert(chunks.skip(i as int) =~= Seq::empty());
    missing == 0
}

/// Content that has come in stays.
pub proof fn lemma_content_push(replies: Seq<Vec<Vec<u8>>>, reply: Vec<Vec<u8>>)
    ensures
        fetch::content(replies.push(reply)) == fetch::content(replies) + reconstruction::joined(
            reply@,
        ),
{
    assert(replies.push(reply).drop_last() =~= replies);
}

/// Whether one stream starts with another.
pub open spec fn starts_with(longer: Seq<u8>, shorter: Seq<u8>) -> bool {
    shorter.len() <= longer.len() && longer.take(shorter.len() as int) == shorter
}

impl<H> ByteFeed<H> {
    /// The hashes of the stream's chunks.
    pub closed spec fn hashes(&self) -> Seq<H> {
        self.hashes@
    }

    /// The replies that have come in.
    pub closed spec fn replies(&self) -> Seq<Vec<Vec<u8>>> {
        self.replies@
    }

    /// The bytes that have come in.
    pub open spec fn content(&self) -> Seq<u8> {
        fetch::content(self.replies())
    }

    /// Number of bytes handed out.
    pub closed spec fn taken(&self) -> int {
        self.taken@
    }

    /// What has come in answers the requests made, and what was not handed out
    /// is kept.
    pub closed spec fn wf<E, D: Fn(&[H]) -> Result<Vec<Vec<u8>>, E>>(&self, get: &D) -> bool {
        &&& self.cursor <= self.hashes@.len()
        &&& self.cursor < self.hashes@.len() ==> self.cursor == 64 * self.replies@.len()
        &&& self.cursor == self.hashes@.len() ==> 64 * self.replies@.len() >= self.cursor
        &&& self.replies@.len() > 0 ==> 64 * (self.replies@.len() - 1) < self.hashes@.len()
        &&& fetch::answered(get, self.hashes@, 64, self.replies@)
        &&& 0 <= self.taken@ <= fetch::content(self.replies@).len()
        &&& reconstruction::joined(self.buffer@) == fetch::content(self.replies@).skip(self.taken@)
    }

    /// The stream of the chunks with the given hashes.
    pub fn new<E, D: Fn(&[H]) -> Result<Vec<Vec<u8>>, E>>(hashes: Vec<H>, get: &D) -> (feed:
        ByteFeed<H>)
        ensures
            feed.wf(get),
            feed.hashes() == hashes@,
            feed.replies().len() == 0,
            feed.taken() == 0,
    {
        let feed = ByteFeed {
            hashes,
            cursor: 0,
            buffer: VecDeque::new(),
            replies: Ghost(Seq::empty()),
            taken: Ghost(0),
        };
        assert(reconstruction::joined(feed.buffer@) =~= fetch::content(feed.replies@).skip(0));
        feed
    }

    /// Takes the next `n` bytes off the stream, or what is left of it.
    pub fn pull<E, D: Fn(&[H]) -> Result<Vec<Vec<u8>>, E>>(&mut self, get: &D, n: usize) -> (r:
        Result<Vec<u8>, E>)
        requires
            old(self).wf(get),
            fetch::can_ask(get),
        ensures
            final(self).hashes() == old(self).hashes(),
            match r {
                Ok(bytes) => {
                    &&& final(self).wf(get)
                    &&& starts_with(final(self).content(), old(self).content())
                    &&& final(self).taken() == old(self).taken() + bytes@.len()
                    &&& final(self).taken() <= final(self).content().len()
                    &&& 0 <= old(self).taken()
                    &&& bytes@ == final(self).content().subrange(
                        old(self).taken(),
                        final(self).taken(),
                    )
                    &&& bytes@.len() <= n
                    &&& bytes@.len() < n ==> final(self).taken() == final(self).content().len()
                        && fetch::all_answered(
                        get,
                        old(self).hashes(),
                        64,
                        final(self).replies(),
                    )
                },
                Err(e) => {
                    &&& fetch::refused_after(
                        get,
                        old(self).hashes(),
                        64,
                        final(self).replies(),
                        e,
                    )
                    &&& starts_with(final(self).content(), old(self).content())
                    &&& 0 <= old(self).taken() <= final(self).content().len() < old(self).taken()
                        + n
                },
            },
    {
        let ghost hashes = self.hashes@;
        let ghost start = fetch::content(self.replies@);
        assert(start.take(start.len() as int) =~= start);
        while !holds(&self.buffer, n) && self.cursor < self.hashes.len()
            invariant
                self.wf(get),
                self.hashes@ == hashes,
                hashes == old(self).hashes(),
                start == old(self).content(),
                self.taken@ == old(self).taken@,
                fetch::can_ask(get),
                starts_with(fetch::content(self.replies@), start),
            decreases hashes.len() - self.cursor,
        {
            let ghost old_replies = self.replies@;
            let ghost i = old_replies.len() as int;
            assert(fetch::content(old_replies).skip(self.taken@).len() < n);
            let to: usize = if self.hashes.len() - self.cursor > FEED_BATCH {
                self.cursor + FEED_BATCH
            } else {
                self.hashes.len()
            };
            assert(hashes.subrange(self.cursor as int, to as int) == fetch::batch(hashes, 64, i));
            let reply = match fetch::ask(get, self.hashes.as_slice(), self.cursor, to) {
                Ok(reply) => reply,
                Err(e) => {
                    proof {
                        assert(fetch::refuses(get, fetch::batch(hashes, 64, i), e));
                        assert(fetch::refused_after(get, hashes, 64, self.replies@, e));
                        assert(self.content() == fetch::content(old_replies));
                    }
                    return Err(e);
                },
            };
            let ghost before = reconstruction::joined(self.buffer@);
            let ghost came = reply;
            self.cursor = to;
            let ghost mut done: int = 0;
            assert(reply@.take(0) =~= Seq::empty());
            assert(before + reconstruction::joined(reply@.take(0)) =~= before);
            for chunk in it: reply
                invariant
                    it.seq() == came@,
                    done == it.index(),
                    reconstruction::joined(self.buffer@) == before + reconstruction::joined(
                        came@.take(done),
                    ),
                    self.hashes@ == hashes,
                    self.cursor == to,
                    self.replies@ == old_replies,
                    self.taken@ == old(self).taken@,
            {
                let ghost queue = self.buffer@;
                self.buffer.push_back(chunk);
                proof {
                    reconstruction::lemma_joined_push(queue, chunk);
                    reconstruction::lemma_joined_push(came@.take(done), chunk);
                    assert(came@.take(done + 1) =~= came@.take(done).push(chunk));
                    done = done + 1;
                    assert(reconstruction::joined(self.buffer@) =~= before + reconstruction::joined(
                        came@.take(done),
                    ));
                }
            }
            proof {
                assert(came@.take(done) =~= came@);
                self.replies@ = old_replies.push(came);
                lemma_content_push(old_replies, came);
                let was = fetch::content(old_replies);
                let now = fetch::content(self.replies@);
                assert(now.skip(self.taken@) =~= was.skip(self.taken@) + reconstruction::joined(
                    came@,
                ));
                assert(now.take(start.len() as int) =~= was.take(start.len() as int));
                assert forall|j: int| 0 <= j < self.replies@.len() implies fetch::answers(
                    get,
                    fetch::batch(hashes, 64, j),
                    #[trigger] self.replies@[j],
                ) by {
                    if j < i {
                        assert(self.replies@[j] == old_replies[j]);
                    }
                }
            }
        }
        let ghost all = fetch::content(self.replies@);
        let ghost from = self.taken@;
        if holds(&self.buffer, n) {
            let bytes = drain_buffer(&mut self.buffer, n);
            proof {
                self.taken@ = from + n;
                assert(bytes@ =~= all.subrange(from, from + n));
                assert(all.skip(from).skip(n as int) =~= all.skip(from + n));
            }
            Ok(bytes)
        } else {
            let bytes = drain_all(&mut self.buffer);
            proof {
                self.taken@ = from + bytes@.len();
                assert(bytes@ =~= all.subrange(from, all.len() as int));
                assert(all.skip(all.len() as int) =~= Seq::empty());
            }
            Ok(bytes)
        }
    }
}

/// Takes all bytes out of a queue of chunks.
fn drain_all(buffer: &mut VecDeque<Vec<u8>>) -> (bytes: Vec<u8>)
    ensures
        bytes@ == reconstruction::joined(old(buffer)@),
        reconstruction::joined(final(buffer)@) == Seq::<u8>::empty(),
{
    let ghost all = reconstruction::joined(buffer@);
    let mut bytes: Vec<u8> = Vec::new();
    assert(bytes@ + all =~= all);
    while buffer.len() > 0
        invariant
            bytes@ + reconstruction::joined(buffer@) == all,
        decreases buffer@.len(),
    {
        let ghost chunks = buffer@;
        if let Some(mut head) = buffer.pop_front() {
            let ghost got = bytes@;
            let ghost piece = head@;
            assert(buffer@ =~= chunks.drop_first());
            bytes.append(&mut head);
            assert(bytes@ + reconstruction::joined(buffer@) =~= got + (piece
                + reconstruction::joined(buffer@)));
        }
    }
    assert(bytes@ + reconstruction::joined(buffer@) =~= bytes@);
    bytes
}

// ---------------------------------------------------------------------------
// The whole disc
// ---------------------------------------------------------------------------

/// Number of audio stream bytes that the first `n` sectors take.
pub open spec fn audio_len(types: Seq<SectorType>, n: int) -> int
    decreases n,
{
    if n <= 0 {
        0
    } else {
        audio_len(types, n - 1) + if types[n - 1].audio() {
            2352int
        } else {
            0
        }
    }
}

proof fn lemma_audio_len_grows(types: Seq<SectorType>, m: int, n: int)
    requires
        0 <= m <= n,
    ensures
        0 <= audio_len(types, m) <= audio_len(types, n),
    decreases n,
{
    if m < n {
        lemma_audio_len_grows(types, m, n - 1);
    } else if m > 0 {
        lemma_audio_len_grows(types, m - 1, n - 1);
    }
}

/// The stream bytes that sector `i` is assembled from.
pub open spec fn payload_at(
    types: Seq<SectorType>,
    data: Seq<u8>,
    audio: Seq<u8>,
    i: int,
) -> Seq<u8> {
    if types[i].audio() {
        audio.subrange(audio_len(types, i), audio_len(types, i) + 2352)
    } else {
        data.subrange(disc::stream_len(types, i), disc::stream_len(types, i + 1))
    }
}

/// Whether sectors are the first ones of a disc that is assembled from the given
/// streams.
pub open spec fn assembled(
    plan: DiscPlan,
    tables: DiscTables,
    data: Seq<u8>,
    audio: Seq<u8>,
    sectors: Seq<[u8; 2352]>,
) -> bool {
    &&& sectors.len() <= plan.types.len()
    &&& disc::stream_len(plan.types, sectors.len() as int) <= data.len()
    &&& audio_len(plan.types, sectors.len() as int) <= audio.len()
    &&& forall|i: int|
        0 <= i < sectors.len() ==> sector_outcome(
            Ok(#[trigger] sectors[i]),
            plan,
            tables,
            i,
            payload_at(plan.types, data, audio, i),
        )
}

/// Longer streams give the same sectors.
proof fn lemma_assembled_longer(
    plan: DiscPlan,
    tables: DiscTables,
    data: Seq<u8>,
    audio: Seq<u8>,
    more_data: Seq<u8>,
    more_audio: Seq<u8>,
    sectors: Seq<[u8; 2352]>,
)
    requires
        assembled(plan, tables, data, audio, sectors),
        starts_with(more_data, data),
        starts_with(more_audio, audio),
    ensures
        assembled(plan, tables, more_data, more_audio, sectors),
{
    let types = plan.types;
    assert forall|i: int| 0 <= i < sectors.len() implies payload_at(types, data, audio, i)
        == #[trigger] payload_at(types, more_data, more_audio, i) by {
        lemma_audio_len_grows(types, i, i + 1);
        lemma_audio_len_grows(types, i + 1, sectors.len() as int);
        disc::lemma_stream_len_monotonic(types, i, i + 1);
        disc::lemma_stream_len_monotonic(types, i + 1, sectors.len() as int);
        assert forall|k: int| 0 <= k < data.len() implies data[k] == more_data[k] by {
            assert(data[k] == more_data.take(data.len() as int)[k]);
        }
        assert forall|k: int| 0 <= k < audio.len() implies audio[k] == more_audio[k] by {
            assert(audio[k] == more_audio.take(audio.len() as int)[k]);
        }
        assert(payload_at(types, data, audio, i) =~= payload_at(types, more_data, more_audio, i));
    }
    assert forall|i: int| 0 <= i < sectors.len() implies sector_outcome(
        Ok(#[trigger] sectors[i]),
        plan,
        tables,
        i,
        payload_at(plan.types, more_data, more_audio, i),
    ) by {
        assert(payload_at(types, data, audio, i) == payload_at(types, more_data, more_audio, i));
    }
}

/// The bytes of sectors, end to end.
pub open spec fn image(sectors: Seq<[u8; 2352]>) -> Seq<u8>
    decreases sectors.len(),
{
    if sectors.len() == 0 {
        Seq::empty()
    } else {
        image(sectors.drop_last()) + sectors.last()@
    }
}

/// The hashes of the chunks of a disc's data stream.
pub open spec fn data_hashes<H>(manifest: DiscManifest<H>) -> Seq<H> {
    manifest.data_stream_layout@.map_values(|c: DataChunkLayout<H>| c.hash)
}

/// The hashes of the chunks of a disc's audio stream.
pub open spec fn audio_hashes<H>(manifest: DiscManifest<H>) -> Seq<H> {
    manifest.audio_block_map@.map_values(|b: ContentBlock<H>| b.content_hash)
}

fn collect_data_hashes<H: Copy>(manifest: &DiscManifest<H>) -> (hashes: Vec<H>)
    ensures
        hashes@ == data_hashes(*manifest),
{
    let mut hashes: Vec<H> = Vec::new();
    let mut i: usize = 0;
    while i < manifest.data_stream_layout.len()
        invariant
            i <= manifest.data_stream_layout@.len(),
            hashes@ =~= data_hashes(*manifest).take(i as int),
        decreases manifest.data_stream_layout@.len() - i,
    {
        hashes.push(manifest.data_stream_layout[i].hash);
        i += 1;
    }
    assert(hashes@ =~= data_hashes(*manifest));
    hashes
}

fn collect_audio_hashes<H: Copy>(manifest: &DiscManifest<H>) -> (hashes: Vec<H>)
    ensures
        hashes@ == audio_hashes(*manifest),
{
    let mut hashes: Vec<H> = Vec::new();
    let mut i: usize = 0;
    while i < manifest.audio_block_map.len()
        invariant
            i <= manifest.audio_block_map@.len(),
            hashes@ =~= audio_hashes(*manifest).take(i as int),
        decreases manifest.audio_block_map@.len() - i,
    {
        hashes.push(manifest.audio_block_map[i].content_hash);
        i += 1;
    }
    assert(hashes@ =~= audio_hashes(*manifest));
    hashes
}

/// Whether sectors are the first ones of a manifest's disc, assembled from what
/// the callbacks answered.
pub open spec fn disc_assembled<
    H,
    E,
    D: Fn(&[H]) -> Result<Vec<Vec<u8>>, E>,
    A: Fn(&[H]) -> Result<Vec<Vec<u8>>, E>,
>(
    manifest: DiscManifest<H>,
    tables: DiscTables,
    get_data: &D,
    get_audio: &A,
    sectors: Seq<[u8; 2352]>,
) -> bool {
    exists|data: Seq<Vec<Vec<u8>>>, audio: Seq<Vec<Vec<u8>>>| #[trigger]
        fetch::answered(get_data, data_hashes(manifest), 64, data) && #[trigger] fetch::answered(
            get_audio,
            audio_hashes(manifest),
            64,
            audio,
        ) && assembled(
            plan_of(manifest),
            tables,
            fetch::content(data),
            fetch::content(audio),
            sectors,
        )
}

/// The stream bytes that are there for sector `i`: all that it takes, or what is
/// left of the stream.
pub open spec fn payload_left(
    types: Seq<SectorType>,
    data: Seq<u8>,
    audio: Seq<u8>,
    i: int,
) -> Seq<u8> {
    let at = if types[i].audio() {
        audio_len(types, i)
    } else {
        disc::stream_len(types, i)
    };
    let stream = if types[i].audio() {
        audio
    } else {
        data
    };
    if at + payload_len(types[i]) <= stream.len() {
        stream.subrange(at, at + payload_len(types[i]))
    } else {
        stream.skip(at)
    }
}

/// Whether the sector behind the given ones may fail to be assembled, with the
/// given error, from what the callbacks answered: its stream bytes are not good
/// for a sector, or all of the stream was handed out and too little is left. The
/// latter is reported with the number of bytes where `counts` is set.
pub open spec fn next_failed<
    H,
    E,
    D: Fn(&[H]) -> Result<Vec<Vec<u8>>, E>,
    A: Fn(&[H]) -> Result<Vec<Vec<u8>>, E>,
>(
    manifest: DiscManifest<H>,
    tables: DiscTables,
    get_data: &D,
    get_audio: &A,
    counts: bool,
    data: Seq<Vec<Vec<u8>>>,
    audio: Seq<Vec<Vec<u8>>>,
    sectors: Seq<[u8; 2352]>,
    e: ReconstructionError,
) -> bool {
    let plan = plan_of(manifest);
    let i = sectors.len() as int;
    let payload = payload_left(plan.types, fetch::content(data), fetch::content(audio), i);
    let short = payload.len() < payload_len(plan.types[i]);
    &&& i < plan.types.len()
    &&& fetch::answered(get_data, data_hashes(manifest), 64, data)
    &&& fetch::answered(get_audio, audio_hashes(manifest), 64, audio)
    &&& assembled(plan, tables, fetch::content(data), fetch::content(audio), sectors)
    &&& short && plan.types[i].audio() ==> fetch::all_answered(
        get_audio,
        audio_hashes(manifest),
        64,
        audio,
    )
    &&& short && !plan.types[i].audio() ==> fetch::all_answered(
        get_data,
        data_hashes(manifest),
        64,
        data,
    )
    &&& if short && !counts {
        e matches ReconstructionError::InternalError(m) && m@ == (if plan.types[i].audio() {
            "Audio fetcher failed"@
        } else {
            "Data fetcher failed"@
        })
    } else {
        sector_outcome(Err(e), plan, tables, i, payload)
    }
}

/// Whether the sector behind the given ones may fail to be assembled, with the
/// given error.
pub open spec fn sector_failed_at<
    H,
    E,
    D: Fn(&[H]) -> Result<Vec<Vec<u8>>, E>,
    A: Fn(&[H]) -> Result<Vec<Vec<u8>>, E>,
>(
    manifest: DiscManifest<H>,
    tables: DiscTables,
    get_data: &D,
    get_audio: &A,
    counts: bool,
    sectors: Seq<[u8; 2352]>,
    e: ReconstructionError,
) -> bool {
    exists|data: Seq<Vec<Vec<u8>>>, audio: Seq<Vec<Vec<u8>>>| #[trigger]
        next_failed(manifest, tables, get_data, get_audio, counts, data, audio, sectors, e)
}

/// Whether the stream bytes for the sector behind the given ones may have to be
/// asked for, and the request be refused with the given error.
pub open spec fn refused_at<
    H,
    E,
    D: Fn(&[H]) -> Result<Vec<Vec<u8>>, E>,
    A: Fn(&[H]) -> Result<Vec<Vec<u8>>, E>,
>(
    manifest: DiscManifest<H>,
    tables: DiscTables,
    get_data: &D,
    get_audio: &A,
    data: Seq<Vec<Vec<u8>>>,
    audio: Seq<Vec<Vec<u8>>>,
    sectors: Seq<[u8; 2352]>,
    e: E,
) -> bool {
    let plan = plan_of(manifest);
    let i = sectors.len() as int;
    &&& i < plan.types.len()
    &&& assembled(plan, tables, fetch::content(data), fetch::content(audio), sectors)
    &&& payload_left(plan.types, fetch::content(data), fetch::content(audio), i).len()
        < payload_len(plan.types[i])
    &&& if plan.types[i].audio() {
        fetch::answered(get_data, data_hashes(manifest), 64, data) && fetch::refused_after(
            get_audio,
            audio_hashes(manifest),
            64,
            audio,
            e,
        )
    } else {
        fetch::answered(get_audio, audio_hashes(manifest), 64, audio) && fetch::refused_after(
            get_data,
            data_hashes(manifest),
            64,
            data,
            e,
        )
    }
}

/// Whether a request for the stream bytes of the sector behind the given ones may
/// be refused with an error of the given text.
pub open spec fn stream_refused_at<
    H,
    E: std::fmt::Display,
    D: Fn(&[H]) -> Result<Vec<Vec<u8>>, E>,
    A: Fn(&[H]) -> Result<Vec<Vec<u8>>, E>,
>(
    manifest: DiscManifest<H>,
    tables: DiscTables,
    get_data: &D,
    get_audio: &A,
    sectors: Seq<[u8; 2352]>,
    m: String,
) -> bool {
    exists|data: Seq<Vec<Vec<u8>>>, audio: Seq<Vec<Vec<u8>>>, e: E| #[trigger]
        refused_at(manifest, tables, get_data, get_audio, data, audio, sectors, e)
            && fetch::has_text(e, m)
}

/// Whether an error may end the assembly of a disc behind the given sectors: a
/// callback refused chunks, or the next sector could not be assembled.
pub open spec fn stopped_at<
    H,
    E: std::fmt::Display,
    D: Fn(&[H]) -> Result<Vec<Vec<u8>>, E>,
    A: Fn(&[H]) -> Result<Vec<Vec<u8>>, E>,
>(
    manifest: DiscManifest<H>,
    tables: DiscTables,
    get_data: &D,
    get_audio: &A,
    counts: bool,
    sectors: Seq<[u8; 2352]>,
    e: SpriteShrinkCDError,
) -> bool {
    match e {
        SpriteShrinkCDError::External(m) => stream_refused_at(
            manifest,
            tables,
            get_data,
            get_audio,
            sectors,
            m,
        ),
        SpriteShrinkCDError::Reconstruction(cause) => sector_failed_at(
            manifest,
            tables,
            get_data,
            get_audio,
            counts,
            sectors,
            cause,
        ),
        _ => false,
    }
}

/// Whether the given sectors may have been assembled from what the callbacks
/// answered, and the stream bytes of the data sector behind them be there.
pub open spec fn reaches<
    H,
    E,
    D: Fn(&[H]) -> Result<Vec<Vec<u8>>, E>,
    A: Fn(&[H]) -> Result<Vec<Vec<u8>>, E>,
>(
    manifest: DiscManifest<H>,
    tables: DiscTables,
    get_data: &D,
    get_audio: &A,
    data: Seq<Vec<Vec<u8>>>,
    audio: Seq<Vec<Vec<u8>>>,
    sectors: Seq<[u8; 2352]>,
) -> bool {
    let plan = plan_of(manifest);
    let i = sectors.len() as int;
    &&& i < plan.types.len()
    &&& !plan.types[i].audio()
    &&& fetch::answered(get_data, data_hashes(manifest), 64, data)
    &&& fetch::answered(get_audio, audio_hashes(manifest), 64, audio)
    &&& assembled(plan, tables, fetch::content(data), fetch::content(audio), sectors)
    &&& disc::stream_len(plan.types, i + 1) <= fetch::content(data).len()
}

/// Whether the maps of a manifest can be spread over the sectors: there is a first
/// offset, and entries stay in range.
pub open spec fn maps_fit<H>(manifest: DiscManifest<H>) -> bool {
    &&& manifest.lba_map@.len() > 0
    &&& forall|k: int|
        0 <= k < manifest.subheader_index@.len() ==> (
        #[trigger] manifest.subheader_index@[k]).start_lba + manifest.subheader_index@[k].count
            <= u32::MAX + 1
    &&& forall|k: int|
        0 <= k < manifest.disc_exception_index@.len() ==> (
        #[trigger] manifest.disc_exception_index@[k]).0 < plan_of(manifest).types.len()
}

/// Whether what is looked up for a sector is there for every data sector that may
/// be reached with what the callbacks answer.
pub open spec fn reached_sectors_fit<
    H,
    E,
    D: Fn(&[H]) -> Result<Vec<Vec<u8>>, E>,
    A: Fn(&[H]) -> Result<Vec<Vec<u8>>, E>,
>(manifest: DiscManifest<H>, tables: DiscTables, get_data: &D, get_audio: &A) -> bool {
    forall|
        data: Seq<Vec<Vec<u8>>>,
        audio: Seq<Vec<Vec<u8>>>,
        sectors: Seq<[u8; 2352]>,
    | #[trigger]
        reaches(manifest, tables, get_data, get_audio, data, audio, sectors) ==> sector_ready(
            plan_of(manifest),
            tables,
            sectors.len() as int,
        )
}

/// Where a manifest and its tables fit, so do all sectors that may be reached,
/// whatever the callbacks answer.
pub proof fn law_fitting_manifest_can_be_assembled<
    H,
    E,
    D: Fn(&[H]) -> Result<Vec<Vec<u8>>, E>,
    A: Fn(&[H]) -> Result<Vec<Vec<u8>>, E>,
>(manifest: DiscManifest<H>, tables: DiscTables, get_data: &D, get_audio: &A)
    requires
        manifest_fits(manifest, tables),
    ensures
        maps_fit(manifest),
        reached_sectors_fit(manifest, tables, get_data, get_audio),
{
    let plan = plan_of(manifest);
    assert forall|
        data: Seq<Vec<Vec<u8>>>,
        audio: Seq<Vec<Vec<u8>>>,
        sectors: Seq<[u8; 2352]>,
    | #[trigger]
        reaches(manifest, tables, get_data, get_audio, data, audio, sectors) implies sector_ready(
        plan,
        tables,
        sectors.len() as int,
    ) by {
        assert(!plan.types[sectors.len() as int].audio());
    }
}

/// Whether the assembly of a disc has come as far as the given sectors.
spec fn under_way<
    H,
    E,
    D: Fn(&[H]) -> Result<Vec<Vec<u8>>, E>,
    A: Fn(&[H]) -> Result<Vec<Vec<u8>>, E>,
>(
    manifest: DiscManifest<H>,
    tables: DiscTables,
    get_data: &D,
    get_audio: &A,
    assembler: SectorAssembler,
    data: ByteFeed<H>,
    audio: ByteFeed<H>,
    sectors: Seq<[u8; 2352]>,
) -> bool {
    let plan = plan_of(manifest);
    &&& assembler.wf()
    &&& assembler.plan() == plan
    &&& assembler.position() == sectors.len()
    &&& data.wf(get_data)
    &&& data.hashes() == data_hashes(manifest)
    &&& data.taken() == disc::stream_len(plan.types, sectors.len() as int)
    &&& audio.wf(get_audio)
    &&& audio.hashes() == audio_hashes(manifest)
    &&& audio.taken() == audio_len(plan.types, sectors.len() as int)
    &&& assembled(plan, tables, data.content(), audio.content(), sectors)
}

/// What has been assembled so far is made of what the callbacks answered.
proof fn lemma_under_way<
    H,
    E,
    D: Fn(&[H]) -> Result<Vec<Vec<u8>>, E>,
    A: Fn(&[H]) -> Result<Vec<Vec<u8>>, E>,
>(
    manifest: DiscManifest<H>,
    tables: DiscTables,
    get_data: &D,
    get_audio: &A,
    assembler: SectorAssembler,
    data: ByteFeed<H>,
    audio: ByteFeed<H>,
    sectors: Seq<[u8; 2352]>,
)
    requires
        under_way(manifest, tables, get_data, get_audio, assembler, data, audio, sectors),
    ensures
        disc_assembled(manifest, tables, get_data, get_audio, sectors),
{
    lemma_answered(data, get_data);
    lemma_answered(audio, get_audio);
}

/// Assembles the next sector of a disc. A stream that ends too early is reported
/// with the number of bytes that were left where `count_missing` is set.
fn next_sector<H, E, D, A>(
    manifest: &DiscManifest<H>,
    tables: &DiscTables,
    get_data: &D,
    get_audio: &A,
    count_missing: bool,
    assembler: &mut SectorAssembler,
    data: &mut ByteFeed<H>,
    audio: &mut ByteFeed<H>,
    Ghost(sectors): Ghost<Seq<[u8; 2352]>>,
) -> (r: Result<[u8; 2352], SpriteShrinkCDError>) where
    H: Copy,
    E: std::fmt::Display,
    D: Fn(&[H]) -> Result<Vec<Vec<u8>>, E>,
    A: Fn(&[H]) -> Result<Vec<Vec<u8>>, E>,

    requires
        reached_sectors_fit(*manifest, *tables, get_data, get_audio),
        fetch::can_ask(get_data),
        fetch::can_ask(get_audio),
        under_way(
            *manifest,
            *tables,
            get_data,
            get_audio,
            *old(assembler),
            *old(data),
            *old(audio),
            sectors,
        ),
        sectors.len() < plan_of(*manifest).types.len(),
    ensures
        match r {
            Ok(sector) => under_way(
                *manifest,
                *tables,
                get_data,
                get_audio,
                *final(assembler),
                *final(data),
                *final(audio),
                sectors.push(sector),
            ),
            Err(e) => stopped_at(
                *manifest,
                *tables,
                get_data,
                get_audio,
                count_missing,
                sectors,
                e,
            ),
        },
{
    let ghost plan = plan_of(*manifest);
    let sector_type = assembler.next_type();
    let needed = assembler.needed();
    let is_audio = sector_type.is_audio();
    let ghost i = sectors.len() as int;
    let ghost old_data = *data;
    let ghost old_audio = *audio;
    proof {
        assert(data.content().take(data.content().len() as int) =~= data.content());
        assert(audio.content().take(audio.content().len() as int) =~= audio.content());
        lemma_answered(*data, get_data);
        lemma_answered(*audio, get_audio);
    }
    let pulled = if is_audio {
        audio.pull(get_audio, needed)
    } else {
        data.pull(get_data, needed)
    };
    let payload = match pulled {
        Ok(payload) => payload,
        Err(e) => {
            let m = e.to_string();
            proof {
                assert(fetch::has_text(e, m));
                lemma_assembled_longer(
                    plan,
                    *tables,
                    old_data.content(),
                    old_audio.content(),
                    data.content(),
                    audio.content(),
                    sectors,
                );
                assert(refused_at(
                    *manifest,
                    *tables,
                    get_data,
                    get_audio,
                    data.replies(),
                    audio.replies(),
                    sectors,
                    e,
                ));
            }
            return Err(SpriteShrinkCDError::External(m));
        },
    };
    proof {
        lemma_assembled_longer(
            plan,
            *tables,
            old_data.content(),
            old_audio.content(),
            data.content(),
            audio.content(),
            sectors,
        );
        lemma_answered(*data, get_data);
        lemma_answered(*audio, get_audio);
        assert(payload@ =~= payload_left(plan.types, data.content(), audio.content(), i));
        if payload@.len() == needed && !is_audio {
            assert(reaches(
                *manifest,
                *tables,
                get_data,
                get_audio,
                data.replies(),
                audio.replies(),
                sectors,
            ));
        }
    }
    if payload.len() < needed && !count_missing {
        let e = ReconstructionError::InternalError(
            if is_audio {
                "Audio fetcher failed".to_string()
            } else {
                "Data fetcher failed".to_string()
            },
        );
        assert(next_failed(
            *manifest,
            *tables,
            get_data,
            get_audio,
            count_missing,
            data.replies(),
            audio.replies(),
            sectors,
            e,
        ));
        return Err(SpriteShrinkCDError::Reconstruction(e));
    }
    let sector = match assembler.rebuild_next(payload.as_slice(), tables) {
        Ok(sector) => sector,
        Err(e) => {
            assert(next_failed(
                *manifest,
                *tables,
                get_data,
                get_audio,
                count_missing,
                data.replies(),
                audio.replies(),
                sectors,
                e,
            ));
            return Err(SpriteShrinkCDError::Reconstruction(e));
        },
    };
    proof {
        let more = sectors.push(sector);
        assert(payload@ =~= payload_at(plan.types, data.content(), audio.content(), i));
        assert forall|k: int| 0 <= k < more.len() implies sector_outcome(
            Ok(#[trigger] more[k]),
            plan,
            *tables,
            k,
            payload_at(plan.types, data.content(), audio.content(), k),
        ) by {
            if k < i {
                assert(more[k] == sectors[k]);
            }
        }
    }
    Ok(sector)
}

/// What has come in on a stream answers the requests made.
proof fn lemma_answered<H, E, D: Fn(&[H]) -> Result<Vec<Vec<u8>>, E>>(feed: ByteFeed<H>, get: &D)
    requires
        feed.wf(get),
    ensures
        fetch::answered(get, feed.hashes(), 64, feed.replies()),
{
}

/// Whether a whole disc, assembled from what the callbacks answered, has the
/// given bytes.
pub open spec fn is_image<
    H,
    E,
    D: Fn(&[H]) -> Result<Vec<Vec<u8>>, E>,
    A: Fn(&[H]) -> Result<Vec<Vec<u8>>, E>,
>(
    manifest: DiscManifest<H>,
    tables: DiscTables,
    get_data: &D,
    get_audio: &A,
    bytes: Seq<u8>,
) -> bool {
    exists|sectors: Seq<[u8; 2352]>| #[trigger]
        disc_assembled(manifest, tables, get_data, get_audio, sectors) && sectors.len() == plan_of(
            manifest,
        ).types.len() && bytes == image(sectors)
}

/// What checking a disc yields: the digest of the assembled disc decides.
pub open spec fn integrity_outcome<
    H,
    E: std::fmt::Display,
    D: Fn(&[H]) -> Result<Vec<Vec<u8>>, E>,
    A: Fn(&[H]) -> Result<Vec<Vec<u8>>, E>,
>(
    r: Result<(), SpriteShrinkCDError>,
    manifest: DiscManifest<H>,
    tables: DiscTables,
    veri_hash: Seq<u8>,
    get_data: &D,
    get_audio: &A,
) -> bool {
    match r {
        Ok(()) => digest_matches(manifest, tables, veri_hash, get_data, get_audio),
        Err(e) => digest_differs(manifest, tables, veri_hash, get_data, get_audio, e)
            || stopped_early(manifest, tables, get_data, get_audio, false, e),
    }
}

/// Whether the digest of the assembled disc is the given one.
pub open spec fn digest_matches<
    H,
    E: std::fmt::Display,
    D: Fn(&[H]) -> Result<Vec<Vec<u8>>, E>,
    A: Fn(&[H]) -> Result<Vec<Vec<u8>>, E>,
>(
    manifest: DiscManifest<H>,
    tables: DiscTables,
    veri_hash: Seq<u8>,
    get_data: &D,
    get_audio: &A,
) -> bool {
    exists|bytes: Seq<u8>| #[trigger]
        is_image(manifest, tables, get_data, get_audio, bytes) && hashing::sha512(bytes)
            == veri_hash
}

/// Whether an error states that the digest of the assembled disc is not the
/// given one.
pub open spec fn digest_differs<
    H,
    E: std::fmt::Display,
    D: Fn(&[H]) -> Result<Vec<Vec<u8>>, E>,
    A: Fn(&[H]) -> Result<Vec<Vec<u8>>, E>,
>(
    manifest: DiscManifest<H>,
    tables: DiscTables,
    veri_hash: Seq<u8>,
    get_data: &D,
    get_audio: &A,
    e: SpriteShrinkCDError,
) -> bool {
    exists|bytes: Seq<u8>| #[trigger]
        is_image(manifest, tables, get_data, get_audio, bytes) && hashing::sha512(bytes)
            != veri_hash && is_mismatch(
            e,
            text::hex_bytes(veri_hash),
            text::hex_bytes(hashing::sha512(bytes)),
        )
}

/// Whether an error reports two hashes that should have been the same.
pub open spec fn is_mismatch(
    e: SpriteShrinkCDError,
    original: Seq<char>,
    calculated: Seq<char>,
) -> bool {
    e matches SpriteShrinkCDError::Reconstruction(
        ReconstructionError::HashMismatchError { orig_hash, calc_hash },
    ) && orig_hash@ == original && calc_hash@ == calculated
}

/// Whether an error ended the assembly of a disc before its end: a callback
/// refused chunks, or a sector could not be assembled.
pub open spec fn stopped_early<
    H,
    E: std::fmt::Display,
    D: Fn(&[H]) -> Result<Vec<Vec<u8>>, E>,
    A: Fn(&[H]) -> Result<Vec<Vec<u8>>, E>,
>(
    manifest: DiscManifest<H>,
    tables: DiscTables,
    get_data: &D,
    get_audio: &A,
    counts: bool,
    e: SpriteShrinkCDError,
) -> bool {
    exists|sectors: Seq<[u8; 2352]>| #[trigger]
        stopped_at(manifest, tables, get_data, get_audio, counts, sectors, e)
}

/// Checks a disc: assembles it from the chunks that the callbacks hand out and
/// compares its digest with the one taken when the disc was archived.
pub fn verify_disc_integrity<A, D, E, H>(
    manifest: &DiscManifest<H>,
    exception_index: &[u64],
    exception_blob: &[u8],
    subheader_data: &[[u8; 8]],
    veri_hash: &[u8; 64],
    get_data_chunks: D,
    get_audio_blocks: A,
) -> (r: Result<(), SpriteShrinkCDError>) where
    A: Fn(&[H]) -> Result<Vec<Vec<u8>>, E>,
    D: Fn(&[H]) -> Result<Vec<Vec<u8>>, E>,
    E: std::fmt::Display,
    H: Copy,

    requires
        maps_fit(*manifest),
        reached_sectors_fit(
            *manifest,
            (DiscTables { exception_index, exception_blob, subheaders: subheader_data }),
            &get_data_chunks,
            &get_audio_blocks,
        ),
        fetch::can_ask(&get_data_chunks),
        fetch::can_ask(&get_audio_blocks),
    ensures
        integrity_outcome(
            r,
            *manifest,
            (DiscTables { exception_index, exception_blob, subheaders: subheader_data }),
            veri_hash@,
            &get_data_chunks,
            &get_audio_blocks,
        ),
{
    let tables = DiscTables { exception_index, exception_blob, subheaders: subheader_data };
    let get_data = &get_data_chunks;
    let get_audio = &get_audio_blocks;
    let mut hasher = sha512_start();
    let mut assembler = SectorAssembler::new(manifest);
    let mut data = ByteFeed::new(collect_data_hashes(manifest), get_data);
    let mut audio = ByteFeed::new(collect_audio_hashes(manifest), get_audio);
    let ghost mut sectors: Seq<[u8; 2352]> = Seq::empty();
    while !assembler.is_done()
        invariant
            tables == (DiscTables { exception_index, exception_blob, subheaders: subheader_data }),
            get_data == &get_data_chunks,
            get_audio == &get_audio_blocks,
            reached_sectors_fit(*manifest, tables, get_data, get_audio),
            fetch::can_ask(get_data),
            fetch::can_ask(get_audio),
            under_way(*manifest, tables, get_data, get_audio, assembler, data, audio, sectors),
            hashing::sha512_input(hasher) == image(sectors),
        decreases plan_of(*manifest).types.len() - sectors.len(),
    {
        let sector = match next_sector(
            manifest,
            &tables,
            get_data,
            get_audio,
            false,
            &mut assembler,
            &mut data,
            &mut audio,
            Ghost(sectors),
        ) {
            Ok(sector) => sector,
            Err(e) => {
                assert(stopped_early(*manifest, tables, get_data, get_audio, false, e));
                return Err(e);
            },
        };
        sha512_update(&mut hasher, sector.as_slice());
        proof {
            assert(sectors.push(sector).drop_last() =~= sectors);
            sectors = sectors.push(sector);
        }
    }
    let ghost bytes = image(sectors);
    let calculated = sha512_finish(hasher);
    proof {
        lemma_under_way(*manifest, tables, get_data, get_audio, assembler, data, audio, sectors);
        assert(is_image(*manifest, tables, get_data, get_audio, bytes));
    }
    if same_bytes(calculated.as_slice(), veri_hash.as_slice()) {
        Ok(())
    } else {
        let e = SpriteShrinkCDError::Reconstruction(
            ReconstructionError::HashMismatchError {
                orig_hash: hex_bytes_text(veri_hash.as_slice()),
                calc_hash: hex_bytes_text(calculated.as_slice()),
            },
        );
        assert(digest_differs(*manifest, tables, veri_hash@, get_data, get_audio, e));
        Err(e)
    }
}

/// Where the sectors of a restored disc are written to.
pub trait SectorWriter: Sized {
    /// Writes a sector behind those written before.
    fn write_sector(&mut self, sector: &[u8; 2352]) -> Result<(), std::io::Error>;
}

/// Whether sector `i` is among those written.
pub open spec fn was_written(sectors: Seq<[u8; 2352]>, i: int) -> bool {
    0 <= i < sectors.len()
}

/// What writing a disc yields, with the sectors that were written and the states
/// that they took the writer through. Once all sectors are written, the hash of the
/// disc decides. Before that, a callback may refuse chunks, a sector may fail to be
/// assembled, or `next`, the sector behind those written, to be written.
pub open spec fn write_outcome<
    H,
    E: std::fmt::Display,
    D: Fn(&[H]) -> Result<Vec<Vec<u8>>, E>,
    A: Fn(&[H]) -> Result<Vec<Vec<u8>>, E>,
    W,
>(
    r: Result<(), SpriteShrinkCDError>,
    manifest: DiscManifest<H>,
    tables: DiscTables,
    get_data: &D,
    get_audio: &A,
    sectors: Seq<[u8; 2352]>,
    next: [u8; 2352],
    states: Seq<W>,
) -> bool {
    let whole = sectors.len() == plan_of(manifest).types.len();
    let hash = hashing::xxh3_64(image(sectors), 0);
    &&& states.len() == sectors.len() + 1
    &&& disc_assembled(manifest, tables, get_data, get_audio, sectors)
    &&& match r {
        Ok(()) => whole && hash == manifest.integrity_hash,
        Err(SpriteShrinkCDError::Io(_)) => disc_assembled(
            manifest,
            tables,
            get_data,
            get_audio,
            sectors.push(next),
        ),
        Err(e) => (whole && hash != manifest.integrity_hash && is_mismatch(
            e,
            text::hex(manifest.integrity_hash as nat),
            text::hex(hash as nat),
        )) || stopped_at(manifest, tables, get_data, get_audio, true, sectors, e),
    }
}

/// Writes a disc: assembles it from the chunks that the callbacks hand out, writes
/// its sectors in order and compares its hash with the one of the manifest.
pub fn write_disc<A, D, E, H, W>(
    manifest: &DiscManifest<H>,
    exception_index: &[u64],
    exception_blob: &[u8],
    subheader_table: &[[u8; 8]],
    get_data_chunks: D,
    get_audio_blocks: A,
    writer: &mut W,
) -> (r: Result<(), SpriteShrinkCDError>) where
    A: Fn(&[H]) -> Result<Vec<Vec<u8>>, E>,
    D: Fn(&[H]) -> Result<Vec<Vec<u8>>, E>,
    E: std::fmt::Display,
    H: Copy,
    W: SectorWriter,

    requires
        maps_fit(*manifest),
        reached_sectors_fit(
            *manifest,
            (DiscTables { exception_index, exception_blob, subheaders: subheader_table }),
            &get_data_chunks,
            &get_audio_blocks,
        ),
        fetch::can_ask(&get_data_chunks),
        fetch::can_ask(&get_audio_blocks),
    ensures
        exists|sectors: Seq<[u8; 2352]>, next: [u8; 2352], states: Seq<W>| #[trigger]
            write_outcome(
                r,
                *manifest,
                (DiscTables { exception_index, exception_blob, subheaders: subheader_table }),
                &get_data_chunks,
                &get_audio_blocks,
                sectors,
                next,
                states,
            ) && states[0] == *old(writer) && (match r {
                Err(SpriteShrinkCDError::Io(e)) => exists|w: &mut W|
                    *w == states.last() && *final(w) == *final(writer) && #[trigger] call_ensures(
                        W::write_sector,
                        (w, &next),
                        Err(e),
                    ),
                _ => states.last() == *final(writer),
            }) && forall|i: int| #[trigger]
                was_written(sectors, i) ==> exists|w: &mut W|
                    *w == states[i] && *final(w) == states[i + 1] && #[trigger] call_ensures(
                        W::write_sector,
                        (w, &sectors[i]),
                        Ok(()),
                    ),
{
    let tables = DiscTables { exception_index, exception_blob, subheaders: subheader_table };
    let get_data = &get_data_chunks;
    let get_audio = &get_audio_blocks;
    let mut hasher = xxh3_start();
    let mut assembler = SectorAssembler::new(manifest);
    let mut data = ByteFeed::new(collect_data_hashes(manifest), get_data);
    let mut audio = ByteFeed::new(collect_audio_hashes(manifest), get_audio);
    let ghost mut sectors: Seq<[u8; 2352]> = Seq::empty();
    let ghost mut states: Seq<W> = seq![*writer];
    while !assembler.is_done()
        invariant
            tables == (DiscTables { exception_index, exception_blob, subheaders: subheader_table }),
            get_data == &get_data_chunks,
            get_audio == &get_audio_blocks,
            reached_sectors_fit(*manifest, tables, get_data, get_audio),
            fetch::can_ask(get_data),
            fetch::can_ask(get_audio),
            under_way(*manifest, tables, get_data, get_audio, assembler, data, audio, sectors),
            hashing::xxh3_input(hasher) == image(sectors),
            states.len() == sectors.len() + 1,
            states[0] == *old(writer),
            states[sectors.len() as int] == *writer,
            forall|i: int| #[trigger]
                was_written(sectors, i) ==> exists|w: &mut W|
                    *w == states[i] && *final(w) == states[i + 1] && #[trigger] call_ensures(
                        W::write_sector,
                        (w, &sectors[i]),
                        Ok(()),
                    ),
        decreases plan_of(*manifest).types.len() - sectors.len(),
    {
        let ghost n = sectors.len() as int;
        let ghost before = sectors;
        let ghost old_states = states;
        proof {
            lemma_under_way(
                *manifest,
                tables,
                get_data,
                get_audio,
                assembler,
                data,
                audio,
                sectors,
            );
        }
        let sector = match next_sector(
            manifest,
            &tables,
            get_data,
            get_audio,
            true,
            &mut assembler,
            &mut data,
            &mut audio,
            Ghost(sectors),
        ) {
            Ok(sector) => sector,
            Err(e) => {
                let out: Result<(), SpriteShrinkCDError> = Err(e);
                proof {
                    let next: [u8; 2352] = vstd::pervasive::arbitrary();
                    assert(states.last() == states[n]);
                    assert(write_outcome(
                        out,
                        *manifest,
                        tables,
                        get_data,
                        get_audio,
                        sectors,
                        next,
                        states,
                    ));
                }
                return out;
            },
        };
        proof {
            lemma_under_way(
                *manifest,
                tables,
                get_data,
                get_audio,
                assembler,
                data,
                audio,
                sectors.push(sector),
            );
        }
        xxh3_update(&mut hasher, sector.as_slice());
        let written = writer.write_sector(&sector);
        match written {
            Ok(done) => {
                assert(done == ());
                assert(written == Ok::<(), std::io::Error>(()));
            },
            Err(e) => {
                let out: Result<(), SpriteShrinkCDError> = Err(SpriteShrinkCDError::Io(e));
                proof {
                    assert(out->Err_0->Io_0 == e);
                    assert(states.last() == states[n]);
                    assert(write_outcome(
                        out,
                        *manifest,
                        tables,
                        get_data,
                        get_audio,
                        sectors,
                        sector,
                        states,
                    ));
                    assert(exists|w: &mut W|
                        *w == states.last() && *final(w) == *writer && #[trigger] call_ensures(
                            W::write_sector,
                            (w, &sector),
                            Err(e),
                        ));
                }
                return out;
            },
        }
        assert(exists|w: &mut W|
            *w == old_states[n] && *final(w) == *writer && #[trigger] call_ensures(
                W::write_sector,
                (w, &sector),
                Ok(()),
            ));
        proof {
            assert(sectors.push(sector).drop_last() =~= sectors);
            sectors = sectors.push(sector);
            states = states.push(*writer);
            assert forall|i: int| #[trigger] was_written(sectors, i) implies exists|w: &mut W|
                *w == states[i] && *final(w) == states[i + 1] && #[trigger] call_ensures(
                    W::write_sector,
                    (w, &sectors[i]),
                    Ok(()),
                ) by {
                if i < n {
                    assert(was_written(before, i));
                    assert(sectors[i] == before[i]);
                    assert(states[i] == old_states[i]);
                    assert(states[i + 1] == old_states[i + 1]);
                } else {
                    assert(sectors[i] == sector);
                    assert(states[i] == old_states[n]);
                    assert(states[i + 1] == *writer);
                }
            }
        }
    }
    let calculated = xxh3_digest(&hasher);
    proof {
        lemma_under_way(*manifest, tables, get_data, get_audio, assembler, data, audio, sectors);
        assert(states.last() == states[sectors.len() as int]);
    }
    let out: Result<(), SpriteShrinkCDError> = if calculated == manifest.integrity_hash {
        Ok(())
    } else {
        Err(
            SpriteShrinkCDError::Reconstruction(
                ReconstructionError::HashMismatchError {
                    orig_hash: hex_text(manifest.integrity_hash),
                    calc_hash: hex_text(calculated),
                },
            ),
        )
    };
    proof {
        let next: [u8; 2352] = vstd::pervasive::arbitrary();
        assert(write_outcome(
            out,
            *manifest,
            tables,
            get_data,
            get_audio,
            sectors,
            next,
            states,
        ));
    }
    out
}

// ---------------------------------------------------------------------------
// From a disc and back
// ---------------------------------------------------------------------------

/// The bytes of raw sectors, each on its own.
pub open spec fn sector_bytes(sectors: Seq<[u8; 2352]>) -> Seq<Seq<u8>> {
    sectors.map_values(|s: [u8; 2352]| s@)
}

/// The audio sectors among the first `n` sectors, end to end.
pub open spec fn audio_before(
    types: Seq<SectorType>,
    sectors: Seq<[u8; 2352]>,
    n: int,
) -> Seq<u8>
    decreases n,
{
    if n <= 0 {
        Seq::empty()
    } else if types[n - 1].audio() {
        audio_before(types, sectors, n - 1) + sectors[n - 1]@
    } else {
        audio_before(types, sectors, n - 1)
    }
}

/// Whether a plan and its tables record a disc: each data sector is what its
/// type, its subheader, its number and the bytes kept for it make of its user
/// data.
pub open spec fn is_recorded(
    sectors: Seq<[u8; 2352]>,
    plan: DiscPlan,
    tables: DiscTables,
) -> bool {
    &&& sectors.len() == plan.types.len()
    &&& forall|i: int|
        0 <= i < sectors.len() && !(#[trigger] plan.types[i]).audio() ==> {
            &&& plan.types[i].user_len() > 0
            &&& plan.subheaders[i] is Some
            &&& plan.types[i].exception_len() > 0 ==> plan.exceptions[i] is Some
            &&& reconstruction::is_sector(
                sectors[i]@,
                stream::user_bytes(plan.types[i], sectors[i]@),
                tables.subheaders@[plan.subheaders[i]->0 as int]@,
                plan.types[i],
                sector_number(plan.types, plan.lba_map, i) as u32,
                stored_bytes(tables, plan.exceptions[i], plan.types[i]),
            )
        }
}

proof fn lemma_audio_by_sector(
    types: Seq<SectorType>,
    sectors: Seq<[u8; 2352]>,
    i: int,
    n: int,
)
    requires
        0 <= i < n <= types.len(),
        sectors.len() == types.len(),
        types[i].audio(),
    ensures
        audio_before(types, sectors, n).len() == audio_len(types, n),
        0 <= audio_len(types, i),
        audio_len(types, i) + 2352 <= audio_len(types, n),
        audio_before(types, sectors, n).subrange(
            audio_len(types, i),
            audio_len(types, i) + 2352,
        ) == sectors[i]@,
    decreases n,
{
    lemma_audio_before_len(types, sectors, n);
    lemma_audio_before_len(types, sectors, n - 1);
    lemma_audio_len_grows(types, 0, i);
    let from = audio_len(types, i);
    let front = audio_before(types, sectors, n - 1);
    if i == n - 1 {
        assert(audio_before(types, sectors, n).subrange(from, from + 2352) =~= sectors[i]@);
    } else {
        lemma_audio_by_sector(types, sectors, i, n - 1);
        assert(audio_before(types, sectors, n).subrange(from, from + 2352) =~= front.subrange(
            from,
            from + 2352,
        ));
    }
}

proof fn lemma_audio_before_len(types: Seq<SectorType>, sectors: Seq<[u8; 2352]>, n: int)
    requires
        0 <= n <= types.len(),
        sectors.len() == types.len(),
    ensures
        audio_before(types, sectors, n).len() == audio_len(types, n),
    decreases n,
{
    if n > 0 {
        lemma_audio_before_len(types, sectors, n - 1);
    }
}

/// Assembling a sector of a recorded disc from the disc's user data and audio
/// succeeds and gives that sector.
pub proof fn law_sector_is_restored(
    original: Seq<[u8; 2352]>,
    plan: DiscPlan,
    tables: DiscTables,
    i: int,
    r: Result<[u8; 2352], ReconstructionError>,
)
    requires
        is_recorded(original, plan, tables),
        tables_fit(plan.types, plan.subheaders, plan.exceptions, tables),
        0 <= i < original.len(),
        sector_outcome(
            r,
            plan,
            tables,
            i,
            payload_at(
                plan.types,
                stream::user_data_from(plan.types, sector_bytes(original), 0),
                audio_before(plan.types, original, original.len() as int),
                i,
            ),
        ),
    ensures
        r matches Ok(sector) && sector@ == original[i]@,
{
    let types = plan.types;
    let raw = sector_bytes(original);
    if types[i].audio() {
        lemma_audio_by_sector(types, original, i, original.len() as int);
    } else {
        stream::law_user_data_by_sector(types, raw, i);
        assert(raw[i] == original[i]@);
        let sector = r->Ok_0;
        reconstruction::law_sector_is_determined(
            sector@,
            original[i]@,
            stream::user_bytes(types[i], original[i]@),
            tables.subheaders@[plan.subheaders[i]->0 as int]@,
            types[i],
            sector_number(types, plan.lba_map, i) as u32,
            stored_bytes(tables, plan.exceptions[i], types[i]),
        );
    }
}

/// The sectors that are assembled from the user data and the audio of a recorded
/// disc are the sectors of that disc.
pub proof fn law_disc_is_restored(
    original: Seq<[u8; 2352]>,
    plan: DiscPlan,
    tables: DiscTables,
    rebuilt: Seq<[u8; 2352]>,
)
    requires
        is_recorded(original, plan, tables),
        tables_fit(plan.types, plan.subheaders, plan.exceptions, tables),
        rebuilt.len() == original.len(),
        assembled(
            plan,
            tables,
            stream::user_data_from(plan.types, sector_bytes(original), 0),
            audio_before(plan.types, original, original.len() as int),
            rebuilt,
        ),
    ensures
        forall|i: int| 0 <= i < original.len() ==> (#[trigger] rebuilt[i])@ == original[i]@,
        image(rebuilt) == image(original),
{
    assert forall|i: int| 0 <= i < original.len() implies (#[trigger] rebuilt[i])@
        == original[i]@ by {
        law_sector_is_restored(original, plan, tables, i, Ok(rebuilt[i]));
    }
    lemma_same_image(rebuilt, original);
}

proof fn lemma_same_image(a: Seq<[u8; 2352]>, b: Seq<[u8; 2352]>)
    requires
        a.len() == b.len(),
        forall|i: int| 0 <= i < a.len() ==> (#[trigger] a[i])@ == b[i]@,
    ensures
        image(a) == image(b),
    decreases a.len(),
{
    if a.len() > 0 {
        assert forall|i: int| 0 <= i < a.drop_last().len() implies (#[trigger] a.drop_last()[i])@
            == b.drop_last()[i]@ by {
            assert(a[i]@ == b[i]@);
        }
        lemma_same_image(a.drop_last(), b.drop_last());
        assert(a.last()@ == b.last()@);
    }
}

/// The chunks of a disc are asked for in the order of its manifest, those of the
/// data stream and those of the audio each for themselves.
pub proof fn law_chunks_are_asked_for_in_order<H>(manifest: DiscManifest<H>, i: int)
    ensures
        data_hashes(manifest).len() == manifest.data_stream_layout@.len(),
        audio_hashes(manifest).len() == manifest.audio_block_map@.len(),
        0 <= i < manifest.data_stream_layout@.len() ==> data_hashes(manifest)[i]
            == manifest.data_stream_layout@[i].hash,
        0 <= i < manifest.audio_block_map@.len() ==> audio_hashes(manifest)[i]
            == manifest.audio_block_map@[i].content_hash,
{
}

/// The sectors of a disc take their streams whole and in order: each sector starts
/// in its stream where the one before it that takes of the same stream ends.
pub proof fn law_sectors_share_out_the_streams(types: Seq<SectorType>, i: int)
    requires
        0 <= i < types.len(),
    ensures
        audio_len(types, 0) == 0,
        disc::stream_len(types, 0) == 0,
        types[i] is Audio || types[i] is PregapAudio || types[i] is ZeroedAudio ==> audio_len(
            types,
            i + 1,
        ) == audio_len(types, i) + 2352 && disc::stream_len(types, i + 1) == disc::stream_len(
            types,
            i,
        ) && payload_len(types[i]) == 2352,
        types[i] is Mode1 || types[i] is Mode1Exception || types[i] is PregapMode1 || types[i]
            is PregapMode1Exception || types[i] is Mode2Form1 || types[i] is Mode2Form1Exception
            || types[i] is PregapMode2 || types[i] is PregapMode2Exception ==> audio_len(
            types,
            i + 1,
        ) == audio_len(types, i) && disc::stream_len(types, i + 1) == disc::stream_len(types, i)
            + 2048 && payload_len(types[i]) == 2048,
        types[i] is Mode2Form2 || types[i] is Mode2Form2Exception ==> audio_len(types, i + 1)
            == audio_len(types, i) && disc::stream_len(types, i + 1) == disc::stream_len(types, i)
            + 2324 && payload_len(types[i]) == 2324,
        types[i] is ZeroedMode1Data || types[i] is ZeroedMode2Data ==> audio_len(types, i + 1)
            == audio_len(types, i) && disc::stream_len(types, i + 1) == disc::stream_len(types, i)
            + 2352 && payload_len(types[i]) == 2352,
{
}

/// No sector fails with a complaint about hashes.
proof fn lemma_sectors_do_not_mismatch<
    H,
    E: std::fmt::Display,
    D: Fn(&[H]) -> Result<Vec<Vec<u8>>, E>,
    A: Fn(&[H]) -> Result<Vec<Vec<u8>>, E>,
>(
    manifest: DiscManifest<H>,
    tables: DiscTables,
    get_data: &D,
    get_audio: &A,
    counts: bool,
    sectors: Seq<[u8; 2352]>,
    e: SpriteShrinkCDError,
)
    requires
        stopped_at(manifest, tables, get_data, get_audio, counts, sectors, e),
    ensures
        !(e matches SpriteShrinkCDError::Reconstruction(
            ReconstructionError::HashMismatchError { .. },
        )),
        sectors.len() < plan_of(manifest).types.len(),
{
    match e {
        SpriteShrinkCDError::Reconstruction(cause) => {
            let (data, audio) = choose|data: Seq<Vec<Vec<u8>>>, audio: Seq<Vec<Vec<u8>>>| #[trigger]
                next_failed(
                    manifest,
                    tables,
                    get_data,
                    get_audio,
                    counts,
                    data,
                    audio,
                    sectors,
                    cause,
                );
        },
        _ => {},
    }
}

/// The digest decides whether a disc checks out: where what is handed out can only
/// make one disc, that disc is never reported as damaged under its own digest, and
/// does not pass under any other. A report of damage states the digest that was
/// asked for, then that of the disc.
pub proof fn law_disc_digest_decides<
    H,
    E: std::fmt::Display,
    D: Fn(&[H]) -> Result<Vec<Vec<u8>>, E>,
    A: Fn(&[H]) -> Result<Vec<Vec<u8>>, E>,
>(
    r: Result<(), SpriteShrinkCDError>,
    manifest: DiscManifest<H>,
    tables: DiscTables,
    veri_hash: Seq<u8>,
    get_data: &D,
    get_audio: &A,
    disc: Seq<u8>,
)
    requires
        forall|bytes: Seq<u8>| #[trigger]
            is_image(manifest, tables, get_data, get_audio, bytes) ==> bytes == disc,
    ensures
        integrity_outcome(r, manifest, tables, veri_hash, get_data, get_audio) ==> {
            &&& r is Ok ==> is_image(manifest, tables, get_data, get_audio, disc) && veri_hash
                == hashing::sha512(disc)
            &&& r matches Err(
                SpriteShrinkCDError::Reconstruction(
                    ReconstructionError::HashMismatchError { orig_hash, calc_hash },
                ),
            ) ==> veri_hash != hashing::sha512(disc) && orig_hash@ == text::hex_bytes(veri_hash)
                && calc_hash@ == text::hex_bytes(hashing::sha512(disc))
        },
{
    if integrity_outcome(r, manifest, tables, veri_hash, get_data, get_audio) {
        if let Err(e) = r {
            if stopped_early(manifest, tables, get_data, get_audio, false, e) {
                let sectors = choose|sectors: Seq<[u8; 2352]>| #[trigger]
                    stopped_at(manifest, tables, get_data, get_audio, false, sectors, e);
                lemma_sectors_do_not_mismatch(
                    manifest,
                    tables,
                    get_data,
                    get_audio,
                    false,
                    sectors,
                    e,
                );
            }
        }
    }
}

/// A disc that was written is whole and has the hash of its manifest. One that was
/// written whole and has another hash is reported with the hash of the manifest and
/// its own, and whatever else is reported left sectors unwritten.
pub proof fn law_written_disc_is_whole<
    H,
    E: std::fmt::Display,
    D: Fn(&[H]) -> Result<Vec<Vec<u8>>, E>,
    A: Fn(&[H]) -> Result<Vec<Vec<u8>>, E>,
    W,
>(
    r: Result<(), SpriteShrinkCDError>,
    manifest: DiscManifest<H>,
    tables: DiscTables,
    get_data: &D,
    get_audio: &A,
    sectors: Seq<[u8; 2352]>,
    next: [u8; 2352],
    states: Seq<W>,
)
    ensures
        write_outcome(r, manifest, tables, get_data, get_audio, sectors, next, states) ==> {
            let total = disc::expanded(manifest.rle_sector_map.runs@).len();
            let hash = hashing::xxh3_64(image(sectors), 0);
            &&& r is Ok ==> sectors.len() == total && hash == manifest.integrity_hash
            &&& r matches Err(
                SpriteShrinkCDError::Reconstruction(
                    ReconstructionError::HashMismatchError { orig_hash, calc_hash },
                ),
            ) ==> sectors.len() == total && hash != manifest.integrity_hash && orig_hash@
                == text::hex(manifest.integrity_hash as nat) && calc_hash@ == text::hex(
                hash as nat,
            )
            &&& (r is Err && !(r->Err_0 matches SpriteShrinkCDError::Reconstruction(
                ReconstructionError::HashMismatchError { .. },
            ))) ==> sectors.len() < total
        },
{
    if write_outcome(r, manifest, tables, get_data, get_audio, sectors, next, states) {
        if let Err(e) = r {
            if stopped_at(manifest, tables, get_data, get_audio, true, sectors, e) {
                lemma_sectors_do_not_mismatch(
                    manifest,
                    tables,
                    get_data,
                    get_audio,
                    true,
                    sectors,
                    e,
                );
            }
        }
    }
}

} // verus!
