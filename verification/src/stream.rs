//! Reading disc images as byte streams. The streams keep track of positions and
//! say what to read next; the reading itself is left to the caller.

use vstd::prelude::*;
use crate::disc;
use crate::disc::{SectorMap, SectorType};

verus! {

/// A position asked for.
#[derive(Clone, Copy, Debug, PartialEq, Eq, Structural)]
pub enum StreamSeek {
    Start(u64),
    End(i64),
    Current(i64),
}

/// A position before the start of a stream or out of reach was asked for.
#[derive(Clone, Copy, Debug, PartialEq, Eq, Structural)]
pub struct InvalidSeek;

/// The position that a request stands for.
pub open spec fn seek_target(seek: StreamSeek, current: int, end: int) -> int {
    match seek {
        StreamSeek::Start(p) => p as int,
        StreamSeek::End(p) => end + p,
        StreamSeek::Current(p) => current + p,
    }
}

/// Whether a position can be sought.
pub open spec fn is_position(target: int) -> bool {
    0 <= target <= i64::MAX
}

fn resolve_seek(seek: StreamSeek, current: u64, end: u64) -> (r: Result<u64, InvalidSeek>)
    ensures
        match r {
            Ok(p) => is_position(seek_target(seek, current as int, end as int)) && p
                == seek_target(seek, current as int, end as int),
            Err(_) => !is_position(seek_target(seek, current as int, end as int)),
        },
{
    let target: i128 = match seek {
        StreamSeek::Start(p) => p as i128,
        StreamSeek::End(p) => end as i128 + p as i128,
        StreamSeek::Current(p) => current as i128 + p as i128,
    };
    if target < 0 || target > i64::MAX as i128 {
        Err(InvalidSeek)
    } else {
        Ok(target as u64)
    }
}

// ---------------------------------------------------------------------------
// An image in several files
// ---------------------------------------------------------------------------

/// Number of bytes in the first `n` files.
pub open spec fn bytes_before(lengths: Seq<u64>, n: int) -> int
    decreases n,
{
    if n <= 0 {
        0
    } else {
        bytes_before(lengths, n - 1) + lengths[n - 1]
    }
}

proof fn lemma_bytes_before_grow(lengths: Seq<u64>, m: int, n: int)
    requires
        0 <= m <= n <= lengths.len(),
    ensures
        0 <= bytes_before(lengths, m) <= bytes_before(lengths, n),
    decreases n,
{
    if m < n {
        lemma_bytes_before_grow(lengths, m, n - 1);
    } else if m > 0 {
        lemma_bytes_before_grow(lengths, m - 1, n - 1);
    }
}

/// A stretch of one file.
#[derive(Clone, Copy, Debug, PartialEq, Eq, Structural)]
pub struct FileStretch {
    pub file: usize,
    pub offset: u64,
    pub length: usize,
}

/// Several files that are read as one.
pub struct MultiBinStream {
    file_boundaries: Vec<u64>,
    virtual_pos: u64,
    total_len: u64,
    lengths: Ghost<Seq<u64>>,
}

impl MultiBinStream {
    /// The lengths of the files.
    pub closed spec fn lengths(&self) -> Seq<u64> {
        self.lengths@
    }

    /// The position in the files taken as one.
    pub closed spec fn position(&self) -> int {
        self.virtual_pos as int
    }

    /// Boundaries are where files end.
    pub closed spec fn wf(&self) -> bool {
        &&& self.file_boundaries@.len() == self.lengths@.len()
        &&& forall|i: int|
            0 <= i < self.lengths@.len() ==> #[trigger] self.file_boundaries@[i] == bytes_before(
                self.lengths@,
                i + 1,
            )
        &&& self.total_len == bytes_before(self.lengths@, self.lengths@.len() as int)
    }

    /// A stream over files of the given lengths.
    pub fn new(lengths: &[u64]) -> (s: MultiBinStream)
        requires
            bytes_before(lengths@, lengths@.len() as int) <= u64::MAX,
        ensures
            s.wf(),
            s.lengths() == lengths@,
            s.position() == 0,
    {
        let mut file_boundaries: Vec<u64> = Vec::with_capacity(lengths.len());
        let mut total_len: u64 = 0;
        let mut n: usize = 0;
        while n < lengths.len()
            invariant
                n <= lengths@.len(),
                bytes_before(lengths@, lengths@.len() as int) <= u64::MAX,
                total_len == bytes_before(lengths@, n as int),
                file_boundaries@.len() == n,
                forall|i: int|
                    0 <= i < n ==> #[trigger] file_boundaries@[i] == bytes_before(lengths@, i + 1),
            decreases lengths@.len() - n,
        {
            proof {
                lemma_bytes_before_grow(lengths@, n + 1, lengths@.len() as int);
            }
            total_len = total_len + lengths[n];
            file_boundaries.push(total_len);
            n += 1;
        }
        MultiBinStream { file_boundaries, virtual_pos: 0, total_len, lengths: Ghost(lengths@) }
    }

    /// Moves to another position. Positions behind the end are fine.
    pub fn seek(&mut self, seek: StreamSeek) -> (r: Result<u64, InvalidSeek>)
        requires
            old(self).wf(),
        ensures
            final(self).wf(),
            final(self).lengths() == old(self).lengths(),
            ({
                let target = seek_target(
                    seek,
                    old(self).position(),
                    bytes_before(old(self).lengths(), old(self).lengths().len() as int),
                );
                if is_position(target) {
                    r == Ok::<u64, InvalidSeek>(target as u64) && final(self).position() == target
                } else {
                    r is Err && final(self).position() == old(self).position()
                }
            }),
    {
        match resolve_seek(seek, self.virtual_pos, self.total_len) {
            Ok(p) => {
                self.virtual_pos = p;
                Ok(p)
            },
            Err(e) => Err(e),
        }
    }

    /// What to read next when up to `wanted` bytes are asked for: as much as the
    /// file at the current position holds, or nothing at the end.
    pub fn next_read(&self, wanted: usize) -> (r: Option<FileStretch>)
        requires
            self.wf(),
        ensures
            r is Some <==> wanted > 0 && self.position() < bytes_before(
                self.lengths(),
                self.lengths().len() as int,
            ),
            r matches Some(s) ==> {
                &&& s.file < self.lengths().len()
                &&& self.position() == bytes_before(self.lengths(), s.file as int) + s.offset
                &&& 0 < s.length <= wanted
                &&& s.offset + s.length <= self.lengths()[s.file as int]
                &&& s.length == wanted || s.offset + s.length == self.lengths()[s.file as int]
            },
    {
        if wanted == 0 || self.virtual_pos >= self.total_len {
            return None;
        }
        let count: usize = self.file_boundaries.len();
        let mut file: usize = 0;
        while self.virtual_pos >= self.file_boundaries[file]
            invariant
                self.wf(),
                count == self.file_boundaries@.len(),
                self.virtual_pos < self.total_len,
                file < self.file_boundaries@.len(),
                file > 0 ==> self.virtual_pos >= self.file_boundaries@[file - 1],
            decreases self.file_boundaries@.len() - file,
        {
            assert(file + 1 < self.file_boundaries@.len()) by {
                if file + 1 == self.file_boundaries@.len() {
                    assert(self.file_boundaries@[file as int] == self.total_len);
                }
            }
            file += 1;
        }
        let base: u64 = if file > 0 {
            self.file_boundaries[file - 1]
        } else {
            0
        };
        let offset: u64 = self.virtual_pos - base;
        let left: u64 = self.file_boundaries[file] - self.virtual_pos;
        let length: usize = if left < wanted as u64 {
            left as usize
        } else {
            wanted
        };
        proof {
            let lengths = self.lengths@;
            assert(self.file_boundaries@[file as int] == bytes_before(lengths, file + 1));
            if file > 0 {
                assert(self.file_boundaries@[file - 1] == bytes_before(lengths, file as int));
            }
            assert(base == bytes_before(lengths, file as int));
            assert(bytes_before(lengths, file + 1) == base + lengths[file as int]);
            assert(0 < length <= wanted);
            assert(length == wanted || offset + length == lengths[file as int]);
        }
        Some(FileStretch { file, offset, length })
    }

    /// Moves on behind what was read.
    pub fn advance(&mut self, bytes_read: usize)
        requires
            old(self).wf(),
            old(self).position() + bytes_read <= u64::MAX,
        ensures
            final(self).wf(),
            final(self).lengths() == old(self).lengths(),
            final(self).position() == old(self).position() + bytes_read,
    {
        self.virtual_pos = self.virtual_pos + bytes_read as u64;
    }
}

/// The contents of files, end to end.
pub open spec fn joined_files(files: Seq<Seq<u8>>, n: int) -> Seq<u8>
    decreases n,
{
    if n <= 0 {
        Seq::empty()
    } else {
        joined_files(files, n - 1) + files[n - 1]
    }
}

/// Reading a stretch of one file is reading that part of all files taken as
/// one.
pub proof fn law_stretches_are_the_image(
    files: Seq<Seq<u8>>,
    lengths: Seq<u64>,
    file: int,
    offset: int,
    length: int,
)
    requires
        lengths.len() == files.len(),
        forall|i: int| 0 <= i < files.len() ==> (#[trigger] files[i]).len() == lengths[i],
        0 <= file < files.len(),
        0 <= offset,
        0 <= length,
        offset + length <= lengths[file],
    ensures
        files[file].subrange(offset, offset + length) == joined_files(
            files,
            files.len() as int,
        ).subrange(
            bytes_before(lengths, file) + offset,
            bytes_before(lengths, file) + offset + length,
        ),
{
    lemma_joined_files(files, lengths, file, files.len() as int);
    let all = joined_files(files, files.len() as int);
    let from = bytes_before(lengths, file);
    assert(files[file] == all.subrange(from, from + lengths[file]));
    assert(all.subrange(from + offset, from + offset + length) =~= all.subrange(
        from,
        from + lengths[file],
    ).subrange(offset, offset + length));
}

proof fn lemma_joined_files(files: Seq<Seq<u8>>, lengths: Seq<u64>, file: int, n: int)
    requires
        lengths.len() == files.len(),
        forall|i: int| 0 <= i < files.len() ==> (#[trigger] files[i]).len() == lengths[i],
        0 <= file < n <= files.len(),
    ensures
        joined_files(files, n).len() == bytes_before(lengths, n),
        0 <= bytes_before(lengths, file),
        bytes_before(lengths, file) + lengths[file] <= bytes_before(lengths, n),
        joined_files(files, n).subrange(
            bytes_before(lengths, file),
            bytes_before(lengths, file) + lengths[file],
        ) == files[file],
    decreases n,
{
    lemma_joined_len(files, lengths, n);
    lemma_joined_len(files, lengths, n - 1);
    lemma_bytes_before_grow(lengths, 0, file);
    let front = joined_files(files, n - 1);
    if file == n - 1 {
        assert(joined_files(files, n).subrange(
            front.len() as int,
            front.len() + lengths[file],
        ) =~= files[file]);
    } else {
        lemma_joined_files(files, lengths, file, n - 1);
        let from = bytes_before(lengths, file);
        assert(joined_files(files, n).subrange(from, from + lengths[file]) =~= front.subrange(
            from,
            from + lengths[file],
        ));
    }
}

proof fn lemma_joined_len(files: Seq<Seq<u8>>, lengths: Seq<u64>, n: int)
    requires
        lengths.len() == files.len(),
        forall|i: int| 0 <= i < files.len() ==> (#[trigger] files[i]).len() == lengths[i],
        0 <= n <= files.len(),
    ensures
        joined_files(files, n).len() == bytes_before(lengths, n),
    decreases n,
{
    if n > 0 {
        lemma_joined_len(files, lengths, n - 1);
        assert(files[n - 1].len() == lengths[n - 1]);
    }
}

// ---------------------------------------------------------------------------
// A range of sectors
// ---------------------------------------------------------------------------

/// A stretch of one sector, and whether the sector has to be loaded first.
#[derive(Clone, Copy, Debug, PartialEq, Eq, Structural)]
pub struct SectorStretch {
    pub sector: u32,
    pub must_load: bool,
    pub offset: usize,
    pub length: usize,
}

/// A range of sectors that is read as a stream of its own.
#[derive(Debug)]
pub struct SectorRegionStream {
    start_sector: u32,
    end_sector: u32,
    virtual_pos: u64,
    loaded_sector_idx: Option<u32>,
}

impl SectorRegionStream {
    /// The first sector.
    pub closed spec fn start(&self) -> int {
        self.start_sector as int
    }

    /// The sector behind the last one.
    pub closed spec fn end(&self) -> int {
        self.end_sector as int
    }

    /// Number of bytes in the range.
    pub open spec fn size(&self) -> int {
        (self.end() - self.start()) * 2352
    }

    /// The position in the range.
    pub closed spec fn position(&self) -> int {
        self.virtual_pos as int
    }

    /// The sector that the caller has at hand.
    pub closed spec fn loaded(&self) -> Option<u32> {
        self.loaded_sector_idx
    }

    /// The range does not end before it starts.
    pub closed spec fn wf(&self) -> bool {
        self.start_sector <= self.end_sector
    }

    /// A stream over `sector_count` sectors; fewer where sector numbers end.
    pub fn new(start_absolute_sector: u32, sector_count: u32) -> (s: SectorRegionStream)
        ensures
            s.wf(),
            s.start() == start_absolute_sector,
            s.end() == if start_absolute_sector + sector_count <= u32::MAX {
                start_absolute_sector + sector_count
            } else {
                u32::MAX as int
            },
            s.position() == 0,
            s.loaded() is None,
    {
        SectorRegionStream {
            start_sector: start_absolute_sector,
            end_sector: start_absolute_sector.saturating_add(sector_count),
            virtual_pos: 0,
            loaded_sector_idx: None,
        }
    }

    /// Moves to another position. Positions behind the end are fine.
    pub fn seek(&mut self, seek: StreamSeek) -> (r: Result<u64, InvalidSeek>)
        requires
            old(self).wf(),
        ensures
            final(self).wf(),
            final(self).start() == old(self).start(),
            final(self).end() == old(self).end(),
            final(self).loaded() == old(self).loaded(),
            ({
                let target = seek_target(seek, old(self).position(), old(self).size());
                if is_position(target) {
                    r == Ok::<u64, InvalidSeek>(target as u64) && final(self).position() == target
                } else {
                    r is Err && final(self).position() == old(self).position()
                }
            }),
    {
        let size: u64 = (self.end_sector - self.start_sector) as u64 * 2352;
        match resolve_seek(seek, self.virtual_pos, size) {
            Ok(p) => {
                self.virtual_pos = p;
                Ok(p)
            },
            Err(e) => Err(e),
        }
    }

    /// What to read next when up to `wanted` bytes are asked for: as much as the
    /// sector at the current position holds, or nothing at the end.
    pub fn next_read(&self, wanted: usize) -> (r: Option<SectorStretch>)
        requires
            self.wf(),
        ensures
            r is Some <==> wanted > 0 && self.position() < self.size(),
            r matches Some(s) ==> {
                &&& self.start() <= s.sector < self.end()
                &&& s.must_load == (self.loaded() != Some(s.sector))
                &&& self.position() == (s.sector - self.start()) * 2352 + s.offset
                &&& 0 < s.length <= wanted
                &&& s.offset + s.length <= 2352
                &&& s.length == wanted || s.offset + s.length == 2352
            },
    {
        let size: u64 = (self.end_sector - self.start_sector) as u64 * 2352;
        if wanted == 0 || self.virtual_pos >= size {
            return None;
        }
        let sector: u32 = self.start_sector + (self.virtual_pos / 2352) as u32;
        let offset: usize = (self.virtual_pos % 2352) as usize;
        let left: usize = 2352 - offset;
        let length: usize = if left < wanted {
            left
        } else {
            wanted
        };
        let must_load = match self.loaded_sector_idx {
            Some(loaded) => loaded != sector,
            None => true,
        };
        Some(SectorStretch { sector, must_load, offset, length })
    }

    /// Moves on behind what was read of a sector.
    pub fn advance(&mut self, sector: u32, bytes_read: usize)
        requires
            old(self).wf(),
            old(self).position() + bytes_read <= u64::MAX,
        ensures
            final(self).wf(),
            final(self).start() == old(self).start(),
            final(self).end() == old(self).end(),
            final(self).loaded() == Some(sector),
            final(self).position() == old(self).position() + bytes_read,
    {
        self.loaded_sector_idx = Some(sector);
        self.virtual_pos = self.virtual_pos + bytes_read as u64;
    }
}

/// Reading a stretch of one sector is reading that part of the range.
pub proof fn law_region_is_part_of_the_image(
    image: Seq<u8>,
    start: int,
    sector: int,
    offset: int,
    length: int,
)
    requires
        0 <= start <= sector,
        0 <= offset,
        0 <= length,
        offset + length <= 2352,
        (sector + 1) * 2352 <= image.len(),
    ensures
        image.subrange(sector * 2352, (sector + 1) * 2352).subrange(offset, offset + length)
            == image.skip(start * 2352).subrange(
            (sector - start) * 2352 + offset,
            (sector - start) * 2352 + offset + length,
        ),
{
    assert(image.subrange(sector * 2352, (sector + 1) * 2352).subrange(offset, offset + length)
        =~= image.skip(start * 2352).subrange(
        (sector - start) * 2352 + offset,
        (sector - start) * 2352 + offset + length,
    ));
}

// ---------------------------------------------------------------------------
// User data
// ---------------------------------------------------------------------------

/// The user data of a raw sector.
pub open spec fn user_bytes(sector_type: SectorType, sector: Seq<u8>) -> Seq<u8> {
    sector.subrange(
        sector_type.user_start(),
        sector_type.user_start() + sector_type.user_len(),
    )
}

/// The user data of the sectors from `i` on, end to end.
pub open spec fn user_data_from(
    types: Seq<SectorType>,
    sectors: Seq<Seq<u8>>,
    i: int,
) -> Seq<u8>
    decreases types.len() - i,
{
    if i < 0 || i >= types.len() {
        Seq::empty()
    } else {
        user_bytes(types[i], sectors[i]) + user_data_from(types, sectors, i + 1)
    }
}

/// Whether there is a raw sector for each sector type.
pub open spec fn are_sectors_of(sectors: Seq<Seq<u8>>, types: Seq<SectorType>) -> bool {
    &&& sectors.len() == types.len()
    &&& forall|i: int| 0 <= i < sectors.len() ==> (#[trigger] sectors[i]).len() == 2352
}

/// What to do next to read user data.
#[derive(Clone, Copy, Debug, PartialEq, Eq, Structural)]
pub enum UserStep {
    /// Load a sector.
    Load { sector: u32 },
    /// Copy a stretch of the sector loaded last.
    Copy { offset: usize, length: usize },
    /// There is nothing left, or nothing was asked for.
    End,
}

/// The user data of a disc, read sector by sector.
#[derive(Debug)]
pub struct UserDataStream {
    cur_sec_idx: u32,
    pos_in_user_data: usize,
    len_of_user_data: usize,
}

/// Whether a step for up to `wanted` bytes took a stream from one state to the
/// next on a disc of the given sectors: a copy hands out the first bytes of the
/// user data to come, a load or an end leaves it as it is, and while bytes are
/// wanted the end comes only when there are none left.
pub open spec fn stepped(
    before: UserDataStream,
    step: UserStep,
    after: UserDataStream,
    types: Seq<SectorType>,
    sectors: Seq<Seq<u8>>,
    wanted: int,
) -> bool {
    let there = before.remaining(types, sectors);
    let left = after.remaining(types, sectors);
    match step {
        UserStep::Load { .. } => wanted > 0 && there == left && left.len() > 0,
        UserStep::Copy { offset, length } => {
            &&& 0 < length <= wanted
            &&& 1 <= before.next_sector() <= types.len()
            &&& offset + length <= 2352
            &&& there == sectors[before.next_sector() - 1].subrange(offset as int, offset + length)
                + left
        },
        UserStep::End => there == left && (wanted > 0 ==> there.len() == 0),
    }
}

/// Whether noting that a sector was loaded took a stream from one state to the
/// next: the user data to come is the same.
pub open spec fn loaded(
    before: UserDataStream,
    after: UserDataStream,
    types: Seq<SectorType>,
    sectors: Seq<Seq<u8>>,
) -> bool {
    after.remaining(types, sectors) == before.remaining(types, sectors)
}

impl UserDataStream {
    /// The sector to look at next.
    pub closed spec fn next_sector(&self) -> int {
        self.cur_sec_idx as int
    }

    /// The bytes of the sector loaded last that were not handed out.
    pub closed spec fn rest(&self) -> (int, int) {
        if self.pos_in_user_data < self.len_of_user_data {
            (self.pos_in_user_data as int, self.len_of_user_data as int)
        } else {
            (0, 0)
        }
    }

    /// What is left lies in the sector loaded last, which is a sector of the
    /// disc.
    pub closed spec fn wf(&self, types: Seq<SectorType>) -> bool {
        &&& self.cur_sec_idx <= types.len()
        &&& self.len_of_user_data <= 2352
        &&& self.pos_in_user_data < self.len_of_user_data ==> self.cur_sec_idx >= 1
    }

    /// The user data still to come.
    pub open spec fn remaining(&self, types: Seq<SectorType>, sectors: Seq<Seq<u8>>) -> Seq<u8> {
        (if self.rest().0 < self.rest().1 {
            sectors[self.next_sector() - 1].subrange(self.rest().0, self.rest().1)
        } else {
            Seq::empty()
        }) + user_data_from(types, sectors, self.next_sector())
    }

    /// A stream at the first sector.
    pub fn new() -> (s: UserDataStream)
        ensures
            forall|types: Seq<SectorType>| #[trigger] s.wf(types),
            s.next_sector() == 0,
            s.rest() == (0int, 0int),
            forall|types: Seq<SectorType>, sectors: Seq<Seq<u8>>| #[trigger]
                s.remaining(types, sectors) == user_data_from(types, sectors, 0),
    {
        let s = UserDataStream { cur_sec_idx: 0, pos_in_user_data: 1, len_of_user_data: 0 };
        assert forall|types: Seq<SectorType>, sectors: Seq<Seq<u8>>| #[trigger]
            s.remaining(types, sectors) == user_data_from(types, sectors, 0) by {
            assert(s.remaining(types, sectors) =~= user_data_from(types, sectors, 0));
        }
        s
    }

    /// Goes on to the next sector that has user data and returns its number, or
    /// nothing at the end of the disc.
    fn process_next_sector(&mut self, map: &SectorMap) -> (r: Option<u32>)
        requires
            old(self).wf(map.sectors@),
            old(self).rest() == (0int, 0int),
            map.sectors@.len() <= u32::MAX,
        ensures
            final(self).wf(map.sectors@),
            final(self).rest() == (0int, 0int),
            old(self).next_sector() <= final(self).next_sector() <= map.sectors@.len(),
            forall|i: int|
                old(self).next_sector() <= i < final(self).next_sector() ==> (
                #[trigger] map.sectors@[i]).user_len() == 0,
            match r {
                Some(sector) => {
                    &&& sector == final(self).next_sector()
                    &&& sector < map.sectors@.len()
                    &&& map.sectors@[sector as int].user_len() > 0
                },
                None => final(self).next_sector() == map.sectors@.len(),
            },
    {
        let total: usize = map.sectors.len();
        while (self.cur_sec_idx as usize) < total
            invariant
                total == map.sectors@.len(),
                map.sectors@.len() <= u32::MAX,
                self.wf(map.sectors@),
                self.rest() == (0int, 0int),
                old(self).cur_sec_idx <= self.cur_sec_idx,
                forall|i: int|
                    old(self).cur_sec_idx <= i < self.cur_sec_idx ==> (
                    #[trigger] map.sectors@[i]).user_len() == 0,
            decreases total - self.cur_sec_idx,
        {
            let sector: u32 = self.cur_sec_idx;
            if map.sectors[sector as usize].user_data_range().is_some() {
                return Some(sector);
            }
            self.cur_sec_idx = sector + 1;
        }
        None
    }

    /// What to do next when up to `wanted` bytes are asked for. A copy takes the
    /// stream on by as many bytes; a load does so only once it has succeeded and
    /// `sector_loaded` is called.
    pub fn step(&mut self, map: &SectorMap, wanted: usize) -> (step: UserStep)
        requires
            old(self).wf(map.sectors@),
            map.sectors@.len() <= u32::MAX,
        ensures
            final(self).wf(map.sectors@),
            wanted == 0 ==> step is End && *final(self) == *old(self),
            step matches UserStep::Load { sector } ==> {
                &&& sector == final(self).next_sector()
                &&& sector < map.sectors@.len()
                &&& map.sectors@[sector as int].user_len() > 0
                &&& old(self).rest() == (0int, 0int)
                &&& final(self).rest() == (0int, 0int)
            },
            step matches UserStep::Copy { offset, length } ==> {
                &&& 0 < length <= wanted
                &&& offset == old(self).rest().0
                &&& offset + length <= old(self).rest().1 <= 2352
                &&& length == wanted || offset + length == old(self).rest().1
                &&& 1 <= old(self).next_sector() == final(self).next_sector()
            },
            forall|sectors: Seq<Seq<u8>>|
                are_sectors_of(sectors, map.sectors@) ==> #[trigger] stepped(
                    *old(self),
                    step,
                    *final(self),
                    map.sectors@,
                    sectors,
                    wanted as int,
                ),
    {
        if wanted == 0 {
            return UserStep::End;
        }
        if self.pos_in_user_data >= self.len_of_user_data {
            let next = self.process_next_sector(map);
            let step = match next {
                Some(sector) => UserStep::Load { sector },
                None => UserStep::End,
            };
            proof {
                assert forall|sectors: Seq<Seq<u8>>|
                    are_sectors_of(sectors, map.sectors@) implies #[trigger] stepped(
                    *old(self),
                    step,
                    *self,
                    map.sectors@,
                    sectors,
                    wanted as int,
                ) by {
                    let types = map.sectors@;
                    let from = old(self).next_sector();
                    let to = self.next_sector();
                    lemma_skip_empty(types, sectors, from, to);
                    assert(old(self).remaining(types, sectors) =~= user_data_from(
                        types,
                        sectors,
                        from,
                    ));
                    assert(self.remaining(types, sectors) =~= user_data_from(types, sectors, to));
                    if next is Some {
                        assert(sectors[to].len() == 2352);
                    }
                }
            }
            return step;
        }
        let offset: usize = self.pos_in_user_data;
        let left: usize = self.len_of_user_data - offset;
        let length: usize = if left < wanted {
            left
        } else {
            wanted
        };
        self.pos_in_user_data = offset + length;
        proof {
            assert forall|sectors: Seq<Seq<u8>>|
                are_sectors_of(sectors, map.sectors@) implies #[trigger] stepped(
                *old(self),
                UserStep::Copy { offset, length },
                *self,
                map.sectors@,
                sectors,
                wanted as int,
            ) by {
                let current = sectors[old(self).next_sector() - 1];
                assert(current.len() == 2352);
                assert(old(self).remaining(map.sectors@, sectors) =~= current.subrange(
                    offset as int,
                    offset + length,
                ) + self.remaining(map.sectors@, sectors));
            }
        }
        UserStep::Copy { offset, length }
    }

    /// Notes that the sector asked for was loaded.
    pub fn sector_loaded(&mut self, map: &SectorMap)
        requires
            old(self).wf(map.sectors@),
            old(self).rest() == (0int, 0int),
            old(self).next_sector() < map.sectors@.len() <= u32::MAX,
            map.sectors@[old(self).next_sector()].user_len() > 0,
        ensures
            final(self).wf(map.sectors@),
            final(self).next_sector() == old(self).next_sector() + 1,
            final(self).rest() == (
                map.sectors@[old(self).next_sector()].user_start(),
                map.sectors@[old(self).next_sector()].user_start()
                    + map.sectors@[old(self).next_sector()].user_len(),
            ),
            forall|sectors: Seq<Seq<u8>>|
                are_sectors_of(sectors, map.sectors@) ==> #[trigger] loaded(
                    *old(self),
                    *final(self),
                    map.sectors@,
                    sectors,
                ),
    {
        let sector: usize = self.cur_sec_idx as usize;
        if let Some((start, end)) = map.sectors[sector].user_data_range() {
            self.pos_in_user_data = start;
            self.len_of_user_data = end;
        }
        self.cur_sec_idx = self.cur_sec_idx + 1;
        proof {
            assert forall|sectors: Seq<Seq<u8>>|
                are_sectors_of(sectors, map.sectors@) implies #[trigger] loaded(
                *old(self),
                *self,
                map.sectors@,
                sectors,
            ) by {
                assert(sectors[sector as int].len() == 2352);
                assert(self.remaining(map.sectors@, sectors) =~= old(self).remaining(
                    map.sectors@,
                    sectors,
                ));
            }
        }
    }
}

/// The number of bytes that the first `n` steps copy.
pub open spec fn copied_len(steps: Seq<UserStep>, n: int) -> int
    decreases n,
{
    if n <= 0 {
        0
    } else {
        copied_len(steps, n - 1) + match steps[n - 1] {
            UserStep::Copy { length, .. } => length as int,
            _ => 0,
        }
    }
}

/// What the first `n` steps copy from the sectors loaded, one piece behind the
/// other.
pub open spec fn copied(
    states: Seq<UserDataStream>,
    steps: Seq<UserStep>,
    sectors: Seq<Seq<u8>>,
    n: int,
) -> Seq<u8>
    decreases n,
{
    if n <= 0 {
        Seq::empty()
    } else {
        copied(states, steps, sectors, n - 1) + match steps[n - 1] {
            UserStep::Copy { offset, length } => sectors[states[n - 1].next_sector() - 1].subrange(
                offset as int,
                offset + length,
            ),
            _ => Seq::empty(),
        }
    }
}

/// Whether a read of up to `wanted` bytes took a stream through the given states:
/// each step is asked for with what is still wanted, and after each load, which
/// succeeded, the stream is told so.
pub open spec fn read_steps(
    states: Seq<UserDataStream>,
    steps: Seq<UserStep>,
    types: Seq<SectorType>,
    sectors: Seq<Seq<u8>>,
    wanted: int,
) -> bool {
    &&& states.len() == steps.len() + 1
    &&& forall|i: int|
        0 <= i < steps.len() ==> match #[trigger] steps[i] {
            UserStep::Load { .. } => exists|asked: UserDataStream| #[trigger]
                stepped(
                    states[i],
                    steps[i],
                    asked,
                    types,
                    sectors,
                    wanted - copied_len(steps, i),
                ) && loaded(asked, states[i + 1], types, sectors),
            _ => stepped(
                states[i],
                steps[i],
                states[i + 1],
                types,
                sectors,
                wanted - copied_len(steps, i),
            ),
        }
}

/// What a read has copied so far and what is still to come make up what was to
/// come before, and no more is copied than was asked for.
pub proof fn law_copies_are_the_user_data(
    states: Seq<UserDataStream>,
    steps: Seq<UserStep>,
    types: Seq<SectorType>,
    sectors: Seq<Seq<u8>>,
    wanted: int,
    n: int,
)
    requires
        are_sectors_of(sectors, types),
        read_steps(states, steps, types, sectors, wanted),
        0 <= wanted,
        0 <= n <= steps.len(),
    ensures
        copied(states, steps, sectors, n) + states[n].remaining(types, sectors)
            == states[0].remaining(types, sectors),
        copied(states, steps, sectors, n).len() == copied_len(steps, n) <= wanted,
    decreases n,
{
    if n > 0 {
        law_copies_are_the_user_data(states, steps, types, sectors, wanted, n - 1);
        let front = copied(states, steps, sectors, n - 1);
        let all = copied(states, steps, sectors, n);
        match steps[n - 1] {
            UserStep::Copy { offset, length } => {
                let from = states[n - 1].next_sector() - 1;
                assert(sectors[from].len() == 2352);
                assert(all + states[n].remaining(types, sectors) =~= front + states[n
                    - 1].remaining(types, sectors));
            },
            _ => {
                assert(all =~= front);
            },
        }
    } else {
        assert(copied(states, steps, sectors, 0) + states[0].remaining(types, sectors)
            =~= states[0].remaining(types, sectors));
    }
}

/// A read that has come to its end has copied the first bytes of the user data to
/// come: as many as were asked for, or all of it where there is less.
pub proof fn law_read_gives_the_next_bytes(
    states: Seq<UserDataStream>,
    steps: Seq<UserStep>,
    types: Seq<SectorType>,
    sectors: Seq<Seq<u8>>,
    wanted: int,
)
    requires
        are_sectors_of(sectors, types),
        read_steps(states, steps, types, sectors, wanted),
        0 <= wanted,
        steps.len() > 0,
        steps.last() is End,
    ensures
        ({
            let there = states[0].remaining(types, sectors);
            let length = if wanted <= there.len() {
                wanted
            } else {
                there.len() as int
            };
            &&& copied(states, steps, sectors, steps.len() as int) == there.take(length)
            &&& states.last().remaining(types, sectors) == there.skip(length)
        }),
{
    let n = steps.len() as int;
    let there = states[0].remaining(types, sectors);
    law_copies_are_the_user_data(states, steps, types, sectors, wanted, n - 1);
    law_copies_are_the_user_data(states, steps, types, sectors, wanted, n);
    assert(steps[n - 1] is End);
    let all = copied(states, steps, sectors, n);
    assert(all =~= there.take(all.len() as int));
    assert(states.last().remaining(types, sectors) =~= there.skip(all.len() as int));
}

/// Sectors without user data add nothing.
proof fn lemma_skip_empty(
    types: Seq<SectorType>,
    sectors: Seq<Seq<u8>>,
    from: int,
    to: int,
)
    requires
        0 <= from <= to <= types.len(),
        are_sectors_of(sectors, types),
        forall|i: int| from <= i < to ==> (#[trigger] types[i]).user_len() == 0,
    ensures
        user_data_from(types, sectors, from) == user_data_from(types, sectors, to),
    decreases to - from,
{
    if from < to {
        lemma_skip_empty(types, sectors, from + 1, to);
        assert(types[from].user_len() == 0);
        assert(user_data_from(types, sectors, from) =~= user_data_from(types, sectors, from + 1));
    }
}

/// The user data stream of a disc holds, for each sector, its user data at the
/// place where the sector's turn comes.
pub proof fn law_user_data_by_sector(types: Seq<SectorType>, sectors: Seq<Seq<u8>>, i: int)
    requires
        are_sectors_of(sectors, types),
        0 <= i < types.len(),
    ensures
        user_data_from(types, sectors, 0).len() == disc::stream_len(types, types.len() as int),
        user_data_from(types, sectors, 0).subrange(
            disc::stream_len(types, i),
            disc::stream_len(types, i + 1),
        ) == user_bytes(types[i], sectors[i]),
{
    lemma_user_data_split(types, sectors, i);
    lemma_user_data_split(types, sectors, types.len() as int);
    let all = user_data_from(types, sectors, 0);
    let at = disc::stream_len(types, i);
    disc::lemma_stream_len_monotonic(types, i, i + 1);
    disc::lemma_stream_len_monotonic(types, i + 1, types.len() as int);
    assert(sectors[i].len() == 2352);
    assert(all.skip(at) == user_bytes(types[i], sectors[i]) + user_data_from(
        types,
        sectors,
        i + 1,
    ));
    assert(all.subrange(at, disc::stream_len(types, i + 1)) =~= all.skip(at).take(
        types[i].user_len(),
    ));
    assert(all.skip(at).take(types[i].user_len()) =~= user_bytes(types[i], sectors[i]));
}

proof fn lemma_user_data_split(types: Seq<SectorType>, sectors: Seq<Seq<u8>>, i: int)
    requires
        are_sectors_of(sectors, types),
        0 <= i <= types.len(),
    ensures
        disc::stream_len(types, i) <= user_data_from(types, sectors, 0).len(),
        user_data_from(types, sectors, 0).skip(disc::stream_len(types, i)) == user_data_from(
            types,
            sectors,
            i,
        ),
        user_data_from(types, sectors, 0).len() == disc::stream_len(types, i) + user_data_from(
            types,
            sectors,
            i,
        ).len(),
    decreases i,
{
    let all = user_data_from(types, sectors, 0);
    if i == 0 {
        assert(all.skip(0) =~= all);
    } else {
        lemma_user_data_split(types, sectors, i - 1);
        disc::lemma_stream_len_monotonic(types, 0, i - 1);
        let here = user_bytes(types[i - 1], sectors[i - 1]);
        let rest = user_data_from(types, sectors, i);
        assert(sectors[i - 1].len() == 2352);
        assert(here.len() == types[i - 1].user_len());
        let at = disc::stream_len(types, i - 1);
        assert(all.skip(at) == here + rest);
        assert(all.skip(at).skip(here.len() as int) =~= rest);
        assert(all.skip(at).skip(here.len() as int) =~= all.skip(at + here.len()));
    }
}

/// Positions can be asked for in three ways that agree: counted from the start,
/// from where the stream stands, or from its end.
pub proof fn law_seeks_agree(offset: i64, current: u64, end: u64)
    ensures
        seek_target(StreamSeek::Start(current), end as int, end as int) == current,
        seek_target(StreamSeek::Current(0), current as int, end as int) == current,
        seek_target(StreamSeek::End(0), current as int, end as int) == end,
        0 <= current + offset <= u64::MAX ==> seek_target(
            StreamSeek::Current(offset),
            current as int,
            end as int,
        ) == seek_target(StreamSeek::Start((current + offset) as u64), current as int, end as int),
        seek_target(StreamSeek::End(offset), current as int, end as int) - seek_target(
            StreamSeek::Current(offset),
            current as int,
            end as int,
        ) == end - current,
{
}

/// The user data of a disc is what each sector carries, by its mode and form: 2048
/// bytes from byte 16 on in Mode 1, as many from byte 24 on in Mode 2 Form 1, and
/// 2324 from byte 24 on in Form 2.
pub proof fn law_user_data_of_a_sector(sector_type: SectorType, sector: Seq<u8>)
    requires
        sector.len() == 2352,
    ensures
        sector_type is Mode1 || sector_type is Mode1Exception || sector_type is PregapMode1
            || sector_type is PregapMode1Exception ==> user_bytes(sector_type, sector)
            == sector.subrange(16, 2064),
        sector_type is Mode2Form1 || sector_type is Mode2Form1Exception || sector_type
            is PregapMode2 || sector_type is PregapMode2Exception ==> user_bytes(
            sector_type,
            sector,
        ) == sector.subrange(24, 2072),
        sector_type is Mode2Form2 || sector_type is Mode2Form2Exception ==> user_bytes(
            sector_type,
            sector,
        ) == sector.subrange(24, 2348),
        sector_type is ZeroedMode1Data || sector_type is ZeroedMode2Data ==> user_bytes(
            sector_type,
            sector,
        ) == sector,
        sector_type is Audio || sector_type is PregapAudio || sector_type is ZeroedAudio
            || sector_type is Unmapped ==> user_bytes(sector_type, sector).len() == 0,
{
    if sector_type is ZeroedMode1Data || sector_type is ZeroedMode2Data {
        assert(sector.subrange(0, 2352) =~= sector);
    }
}

} // verus!
