//! From a file or a disc to its archive and back.

use vstd::prelude::*;
use crate::archive;
use crate::archive::ChunkSource;
use crate::assembly;
use crate::assembly::{DiscPlan, DiscTables};
use crate::blocks;
use crate::disc;
use crate::disc::{DiscManifest, SectorMapResult, SectorType, TrackView};
use crate::ecc;
use crate::hashing::Hashable;
use crate::mapper;
use crate::mapper::{MapState, SectorAnalysis};
use crate::parsing;
use crate::processing;
use crate::reconstruction;
use crate::serialization;
use crate::stream;
use crate::structs::{Chunk, ChunkLocation};

verus! {

/// Whether a sector was classified rightly: it is what its type, the bytes kept
/// as its subheader, the number in its header and, where it deviates, the bytes
/// kept for it make of its user data.
pub open spec fn well_classified(data: Seq<u8>, found: SectorAnalysis) -> bool {
    let sector_type = found.sector_type;
    &&& !sector_type.audio()
    &&& sector_type.user_len() > 0
    &&& sector_type.exception_len() > 0 ==> mapper::keeps_exception(sector_type)
        && found.exception_data is Some && found.exception_data->0@.len()
        == sector_type.exception_len()
    &&& reconstruction::is_sector(
        data,
        stream::user_bytes(sector_type, data),
        mapper::subheader_of(sector_type, data),
        sector_type,
        mapper::header_frames(data) as u32,
        if sector_type.exception_len() > 0 {
            Some(found.exception_data->0@)
        } else {
            None
        },
    )
}

/// Whether all data sectors of a disc were classified rightly.
pub open spec fn disc_well_classified(
    coarse: Seq<SectorType>,
    reads: Seq<[u8; 2352]>,
    found: Seq<SectorAnalysis>,
) -> bool {
    forall|i: int|
        0 <= i < coarse.len() && mapper::is_data(#[trigger] coarse[i]) ==> well_classified(
            reads[i]@,
            found[i],
        )
}

/// Whether the header of a sector is made up from the sector's number when the
/// sector is rebuilt.
pub open spec fn bears_number(sector_type: SectorType) -> bool {
    match sector_type {
        SectorType::Mode1 | SectorType::PregapMode1 | SectorType::Mode2Form1
        | SectorType::PregapMode2 | SectorType::Mode2Form2 => true,
        _ => false,
    }
}

/// Whether the numbers that a plan gives the sectors of a disc fit, and are those
/// that the headers of the sectors state.
pub open spec fn numbers_come_back(plan: DiscPlan, reads: Seq<[u8; 2352]>) -> bool {
    &&& assembly::numbers_fit(plan.types, plan.lba_map)
    &&& forall|i: int|
        0 <= i < plan.types.len() && bears_number(#[trigger] plan.types[i])
            ==> assembly::sector_number(plan.types, plan.lba_map, i) == mapper::header_frames(
            reads[i]@,
        )
}

/// Whether tables hold what a mapping collected.
pub open spec fn tables_hold(
    tables: DiscTables,
    subheaders: Seq<Seq<u8>>,
    stored: Seq<Seq<u8>>,
) -> bool {
    &&& tables.subheaders@.len() == subheaders.len()
    &&& forall|k: int|
        0 <= k < subheaders.len() ==> (#[trigger] tables.subheaders@[k])@ == subheaders[k]
    &&& tables.exception_index@.len() == stored.len()
    &&& forall|k: int|
        0 <= k < stored.len() ==> {
            let from = #[trigger] tables.exception_index@[k] as int;
            &&& from + stored[k].len() <= tables.exception_blob@.len()
            &&& tables.exception_blob@.subrange(from, from + stored[k].len()) == stored[k]
        }
}

/// Whether a manifest says of a disc's sectors what its mapping found.
pub open spec fn describes<H>(manifest: DiscManifest<H>, result: SectorMapResult) -> bool {
    &&& disc::expanded(manifest.rle_sector_map.runs@) == result.sector_map.sectors@
    &&& manifest.subheader_index@ == result.subheader_index@
    &&& manifest.disc_exception_index@ == result.exception_index@
    &&& manifest.lba_map@ == result.lba_map@
}

/// The types of the sectors that were looked at are those that were found, and
/// the others stay.
proof fn lemma_mapped_types(
    start: MapState,
    reads: Seq<[u8; 2352]>,
    found: Seq<SectorAnalysis>,
    n: int,
)
    requires
        0 <= n <= start.sectors.len(),
        start.sectors.len() <= u32::MAX,
    ensures
        mapper::mapped(start, reads, found, n).sectors.len() == start.sectors.len(),
        forall|i: int|
            0 <= i < start.sectors.len() ==> #[trigger] mapper::mapped(
                start,
                reads,
                found,
                n,
            ).sectors[i] == if i < n && mapper::is_data(start.sectors[i]) {
                found[i].sector_type
            } else {
                start.sectors[i]
            },
    decreases n,
{
    if n > 0 {
        lemma_mapped_types(start, reads, found, n - 1);
    }
}

/// The last data sector before sector `n`, or -1.
pub open spec fn last_data(coarse: Seq<SectorType>, n: int) -> int
    decreases n,
{
    if n <= 0 {
        -1
    } else if mapper::is_data(coarse[n - 1]) {
        n - 1
    } else {
        last_data(coarse, n - 1)
    }
}

/// How far the header of sector `i` is ahead of where the sector stands.
pub open spec fn distance(reads: Seq<[u8; 2352]>, i: int) -> int {
    mapper::header_frames(reads[i]@) - i
}

/// Whether the headers of data sector `i` and of the data sector before it can be
/// told apart by where the sectors stand: they are ahead, and where they are not
/// equally far ahead, the earlier one does not reach up to sector `i`.
pub open spec fn headers_in_order(
    coarse: Seq<SectorType>,
    reads: Seq<[u8; 2352]>,
    i: int,
) -> bool {
    let before = last_data(coarse, i);
    &&& 0 <= distance(reads, i)
    &&& before >= 0 && distance(reads, before) != distance(reads, i) ==> mapper::header_frames(
        reads[before]@,
    ) < i
}

/// Whether the headers of all data sectors of a disc are in order.
pub open spec fn disc_in_order(coarse: Seq<SectorType>, reads: Seq<[u8; 2352]>) -> bool {
    forall|i: int|
        0 <= i < coarse.len() && mapper::is_data(#[trigger] coarse[i]) ==> headers_in_order(
            coarse,
            reads,
            i,
        )
}

/// What is in the map of distances stays there, the distance of a data sector is
/// in force right after it, and the next entry belongs to a sector that the
/// header does not reach up to.
proof fn lemma_distances(
    start: MapState,
    reads: Seq<[u8; 2352]>,
    found: Seq<SectorAnalysis>,
    n: int,
    m: int,
)
    requires
        0 <= n < m <= start.sectors.len(),
        start.sectors.len() <= u32::MAX,
        mapper::is_data(start.sectors[n]),
        disc_in_order(start.sectors, reads),
    ensures
        ({
            let a = mapper::mapped(start, reads, found, n + 1);
            let b = mapper::mapped(start, reads, found, m);
            let p = last_data(start.sectors, m);
            &&& a.offset == Some(distance(reads, n) as u32)
            &&& a.lba_map.len() <= b.lba_map.len()
            &&& b.lba_map.take(a.lba_map.len() as int) == a.lba_map
            &&& n <= p < m
            &&& b.lba_map.len() == a.lba_map.len() ==> b.offset == a.offset && distance(reads, p)
                == distance(reads, n)
            &&& b.lba_map.len() > a.lba_map.len() ==> mapper::header_frames(reads[n]@)
                < b.lba_map[a.lba_map.len() as int].0
        }),
    decreases m,
{
    let a = mapper::mapped(start, reads, found, n + 1);
    assert(headers_in_order(start.sectors, reads, n));
    if m == n + 1 {
        assert(a.lba_map.take(a.lba_map.len() as int) =~= a.lba_map);
    } else {
        lemma_distances(start, reads, found, n, m - 1);
        let before = mapper::mapped(start, reads, found, m - 1);
        let b = mapper::mapped(start, reads, found, m);
        if mapper::is_data(start.sectors[m - 1]) {
            assert(headers_in_order(start.sectors, reads, m - 1));
        }
        assert(b.lba_map.take(a.lba_map.len() as int) =~= before.lba_map.take(
            a.lba_map.len() as int,
        ));
    }
}

/// Before the first data sector there are no distances.
proof fn lemma_no_distances(
    start: MapState,
    reads: Seq<[u8; 2352]>,
    found: Seq<SectorAnalysis>,
    n: int,
)
    requires
        0 <= n <= start.sectors.len(),
        last_data(start.sectors, n) < 0,
    ensures
        mapper::mapped(start, reads, found, n) == start,
    decreases n,
{
    if n > 0 {
        lemma_no_distances(start, reads, found, n - 1);
    }
}

proof fn lemma_last_data(coarse: Seq<SectorType>, n: int)
    requires
        0 <= n,
    ensures
        -1 <= last_data(coarse, n) < n,
        last_data(coarse, n) >= 0 ==> mapper::is_data(coarse[last_data(coarse, n)]),
    decreases n,
{
    if n > 0 {
        lemma_last_data(coarse, n - 1);
    }
}

/// Before each sector, the entry of the map of distances in force is the last one
/// that the mapping had made by then.
proof fn lemma_entry_in_force(
    start: MapState,
    reads: Seq<[u8; 2352]>,
    found: Seq<SectorAnalysis>,
    types: Seq<SectorType>,
    n: int,
)
    requires
        0 <= n <= start.sectors.len(),
        start.sectors.len() <= u32::MAX,
        start.lba_map.len() == 0,
        start.offset is None,
        disc_in_order(start.sectors, reads),
        types.len() == start.sectors.len(),
        forall|i: int|
            0 <= i < types.len() ==> (#[trigger] types[i]).audio() == !mapper::is_data(
                start.sectors[i],
            ),
    ensures
        ({
            let all = mapper::mapped(start, reads, found, start.sectors.len() as int).lba_map;
            let now = mapper::mapped(start, reads, found, n);
            let state = assembly::offset_state(types, all, n);
            if last_data(start.sectors, n) < 0 {
                &&& state == (0int, all[0].1 as int)
                &&& now.lba_map.len() == 0
                &&& now.offset is None
            } else {
                &&& 0 < now.lba_map.len() <= all.len()
                &&& state == (now.lba_map.len() - 1, distance(reads, last_data(start.sectors, n)))
                &&& now.offset == Some(distance(reads, last_data(start.sectors, n)) as u32)
                &&& 0 <= distance(reads, last_data(start.sectors, n))
            }
        }),
    decreases n,
{
    let total = start.sectors.len() as int;
    let all = mapper::mapped(start, reads, found, total).lba_map;
    if n > 0 {
        lemma_entry_in_force(start, reads, found, types, n - 1);
        lemma_last_data(start.sectors, n - 1);
        if last_data(start.sectors, n - 1) < 0 {
            lemma_no_distances(start, reads, found, n - 1);
        }
        if mapper::is_data(start.sectors[n - 1]) {
            lemma_step_of_entry(start, reads, found, types, n - 1);
        }
    }
}

/// How data sector `n` moves the entry in force.
proof fn lemma_step_of_entry(
    start: MapState,
    reads: Seq<[u8; 2352]>,
    found: Seq<SectorAnalysis>,
    types: Seq<SectorType>,
    n: int,
)
    requires
        0 <= n < start.sectors.len(),
        start.sectors.len() <= u32::MAX,
        start.lba_map.len() == 0,
        start.offset is None,
        disc_in_order(start.sectors, reads),
        mapper::is_data(start.sectors[n]),
        ({
            let all = mapper::mapped(start, reads, found, start.sectors.len() as int).lba_map;
            let now = mapper::mapped(start, reads, found, n);
            let state = assembly::offset_state(types, all, n);
            if last_data(start.sectors, n) < 0 {
                &&& state == (0int, all[0].1 as int)
                &&& now.lba_map.len() == 0
                &&& now.offset is None
            } else {
                &&& 0 < now.lba_map.len() <= all.len()
                &&& state == (now.lba_map.len() - 1, distance(reads, last_data(start.sectors, n)))
                &&& now.offset == Some(distance(reads, last_data(start.sectors, n)) as u32)
                &&& 0 <= distance(reads, last_data(start.sectors, n))
            }
        }),
    ensures
        ({
            let all = mapper::mapped(start, reads, found, start.sectors.len() as int).lba_map;
            let next = mapper::mapped(start, reads, found, n + 1);
            let state = assembly::offset_state(types, all, n);
            &&& 0 < next.lba_map.len() <= all.len()
            &&& assembly::advance(all, state, n) == (
                next.lba_map.len() - 1,
                distance(reads, n),
            )
            &&& next.offset == Some(distance(reads, n) as u32)
            &&& 0 <= distance(reads, n)
            &&& 0 <= state.1
            &&& state.0 + 1 < all.len() ==> state.1 + n <= u32::MAX
            &&& assembly::sector_number(types, all, n) == mapper::header_frames(reads[n]@)
            &&& mapper::header_frames(reads[n]@) <= u32::MAX
        }),
{
    let total = start.sectors.len() as int;
    let all = mapper::mapped(start, reads, found, total).lba_map;
    let now = mapper::mapped(start, reads, found, n);
    let next = mapper::mapped(start, reads, found, n + 1);
    let p = last_data(start.sectors, n);
    assert(headers_in_order(start.sectors, reads, n));
    lemma_last_data(start.sectors, n);
    lemma_distances(start, reads, found, n, total);
    let k = next.lba_map.len() as int;
    assert forall|i: int| 0 <= i < k implies all[i] == next.lba_map[i] by {
        assert(all.take(k)[i] == next.lba_map[i]);
    }
    if p >= 0 {
        assert(headers_in_order(start.sectors, reads, p));
    }
}

/// The numbers of a disc come back: where the headers of its data sectors are in
/// order, the distances that a mapping notes down give every sector the number
/// that its header states.
pub proof fn law_numbers_come_back<H>(
    coarse: Seq<SectorType>,
    subheaders: Seq<Seq<u8>>,
    stored: Seq<Seq<u8>>,
    reads: Seq<[u8; 2352]>,
    found: Seq<SectorAnalysis>,
    result: SectorMapResult,
    manifest: DiscManifest<H>,
)
    requires
        coarse.len() <= u32::MAX,
        disc_well_classified(coarse, reads, found),
        disc_coarse(coarse),
        disc_in_order(coarse, reads),
        describes(manifest, result),
        mapper::is_result_of(
            result,
            mapper::mapped(
                mapper::start_state(coarse, subheaders, stored),
                reads,
                found,
                coarse.len() as int,
            ),
        ),
    ensures
        numbers_come_back(assembly::plan_of(manifest), reads),
{
    let start = mapper::start_state(coarse, subheaders, stored);
    let plan = assembly::plan_of(manifest);
    let types = plan.types;
    lemma_planned_types(coarse, subheaders, stored, reads, found, result, manifest);
    assert forall|i: int| 0 <= i < types.len() && !(#[trigger] types[i]).audio() implies {
        let state = assembly::offset_state(types, plan.lba_map, i);
        &&& state.0 + 1 < plan.lba_map.len() ==> state.1 + i <= u32::MAX
        &&& assembly::sector_number(types, plan.lba_map, i) <= u32::MAX
        &&& assembly::sector_number(types, plan.lba_map, i) == mapper::header_frames(reads[i]@)
    } by {
        assert(mapper::is_data(start.sectors[i]));
        lemma_entry_in_force(start, reads, found, types, i);
        lemma_step_of_entry(start, reads, found, types, i);
    }
}

/// Whether the sectors of a disc that carry no data are of the types that tracks
/// give them.
pub open spec fn disc_coarse(coarse: Seq<SectorType>) -> bool {
    forall|i: int|
        0 <= i < coarse.len() ==> mapper::is_data(#[trigger] coarse[i]) || coarse[i] is Audio
            || coarse[i] is PregapAudio || coarse[i] is Unmapped
}

/// Tracks give sectors no other types.
pub proof fn law_tracks_give_coarse_types(tracks: Seq<TrackView>, total: int)
    ensures
        disc_coarse(mapper::coarse_map(tracks, total)),
{
    assert forall|i: int| 0 <= i < mapper::coarse_map(tracks, total).len() implies mapper::is_data(
        #[trigger] mapper::coarse_map(tracks, total)[i],
    ) || mapper::coarse_map(tracks, total)[i] is Audio || mapper::coarse_map(tracks, total)[i]
        is PregapAudio || mapper::coarse_map(tracks, total)[i] is Unmapped by {
        lemma_coarse_type(tracks, tracks.len() as int, total, i);
    }
}

proof fn lemma_coarse_type(tracks: Seq<TrackView>, n: int, total: int, i: int)
    ensures
        ({
            let t = mapper::coarse_type(tracks, n, total, i);
            mapper::is_data(t) || t is Audio || t is PregapAudio || t is Unmapped
        }),
    decreases n,
{
    if n > 0 {
        lemma_coarse_type(tracks, n - 1, total, i);
    }
}

/// The types of the sectors of a mapped disc.
proof fn lemma_planned_types<H>(
    coarse: Seq<SectorType>,
    subheaders: Seq<Seq<u8>>,
    stored: Seq<Seq<u8>>,
    reads: Seq<[u8; 2352]>,
    found: Seq<SectorAnalysis>,
    result: SectorMapResult,
    manifest: DiscManifest<H>,
)
    requires
        coarse.len() <= u32::MAX,
        disc_well_classified(coarse, reads, found),
        disc_coarse(coarse),
        describes(manifest, result),
        mapper::is_result_of(
            result,
            mapper::mapped(
                mapper::start_state(coarse, subheaders, stored),
                reads,
                found,
                coarse.len() as int,
            ),
        ),
    ensures
        ({
            let types = assembly::plan_of(manifest).types;
            &&& types.len() == coarse.len()
            &&& forall|i: int|
                0 <= i < types.len() ==> (#[trigger] types[i]) == (if mapper::is_data(coarse[i]) {
                    found[i].sector_type
                } else {
                    mapper::settled(coarse[i])
                })
            &&& forall|i: int|
                0 <= i < types.len() ==> (#[trigger] types[i]).audio() == !mapper::is_data(
                    coarse[i],
                )
            &&& forall|i: int| 0 <= i < types.len() ==> (#[trigger] types[i]) !is ZeroedAudio
        }),
{
    let start = mapper::start_state(coarse, subheaders, stored);
    let n = coarse.len() as int;
    let end = mapper::mapped(start, reads, found, n);
    let types = assembly::plan_of(manifest).types;
    lemma_mapped_types(start, reads, found, n);
    assert forall|i: int| 0 <= i < n implies (#[trigger] types[i]) == (if mapper::is_data(
        coarse[i],
    ) {
        found[i].sector_type
    } else {
        mapper::settled(coarse[i])
    }) && types[i].audio() == !mapper::is_data(coarse[i]) && types[i] !is ZeroedAudio by {
        assert(end.sectors[i] == if mapper::is_data(start.sectors[i]) {
            found[i].sector_type
        } else {
            start.sectors[i]
        });
        if mapper::is_data(coarse[i]) {
            assert(well_classified(reads[i]@, found[i]));
        }
    }
}

/// The manifest and the tables that come out of mapping a disc record that
/// disc, so that it can be put together again from its user data and its audio.
/// It takes a disc whose data sectors were classified rightly and whose sector
/// numbers come back, and no more distinct subheaders and deviations than there
/// are numbers for them.
pub proof fn law_mapped_disc_is_recorded<H>(
    coarse: Seq<SectorType>,
    subheaders: Seq<Seq<u8>>,
    stored: Seq<Seq<u8>>,
    reads: Seq<[u8; 2352]>,
    found: Seq<SectorAnalysis>,
    result: SectorMapResult,
    manifest: DiscManifest<H>,
    tables: DiscTables,
)
    requires
        reads.len() == coarse.len(),
        coarse.len() <= u32::MAX,
        disc_well_classified(coarse, reads, found),
        disc_coarse(coarse),
        describes(manifest, result),
        numbers_come_back(assembly::plan_of(manifest), reads),
        ({
            let end = mapper::mapped(
                mapper::start_state(coarse, subheaders, stored),
                reads,
                found,
                coarse.len() as int,
            );
            &&& mapper::is_result_of(result, end)
            &&& tables_hold(tables, end.subheaders, end.stored)
            &&& end.subheaders.len() <= 65536
            &&& end.stored.len() <= 4294967296
        }),
    ensures
        assembly::is_recorded(reads, assembly::plan_of(manifest), tables),
        ({
            let plan = assembly::plan_of(manifest);
            &&& assembly::tables_fit(plan.types, plan.subheaders, plan.exceptions, tables)
            &&& assembly::numbers_fit(plan.types, plan.lba_map)
        }),
{
    let start = mapper::start_state(coarse, subheaders, stored);
    let n = coarse.len() as int;
    let end = mapper::mapped(start, reads, found, n);
    let plan = assembly::plan_of(manifest);
    lemma_planned_types(coarse, subheaders, stored, reads, found, result, manifest);
    assert forall|i: int| 0 <= i < n && !(#[trigger] plan.types[i]).audio() implies {
        &&& mapper::is_data(coarse[i])
        &&& plan.types[i] == found[i].sector_type
        &&& well_classified(reads[i]@, found[i])
        &&& plan.subheaders[i] is Some
        &&& plan.subheaders[i]->0 < tables.subheaders@.len()
        &&& tables.subheaders@[plan.subheaders[i]->0 as int]@ == mapper::subheader_of(
            plan.types[i],
            reads[i]@,
        )
        &&& plan.types[i].exception_len() > 0 ==> plan.exceptions[i] is Some
            && plan.exceptions[i]->0 < tables.exception_index@.len() && tables.exception_index@[
        plan.exceptions[i]->0 as int] + plan.types[i].exception_len()
            <= tables.exception_blob@.len() && assembly::stored_bytes(
            tables,
            plan.exceptions[i],
            plan.types[i],
        ) == Some(found[i].exception_data->0@)
        &&& plan.types[i].exception_len() == 0 ==> plan.exceptions[i] is None
    } by {
        assert(mapper::is_data(coarse[i]));
        assert(well_classified(reads[i]@, found[i]));
        mapper::law_subheaders_are_found_again(
            coarse,
            subheaders,
            stored,
            reads,
            found,
            result,
            i,
        );
        mapper::law_exceptions_are_found_again(
            coarse,
            subheaders,
            stored,
            reads,
            found,
            result,
            i,
        );
        assert(plan.subheaders[i] == reconstruction::subheader_at(result.subheader_index@, i));
        assert(plan.exceptions[i] == reconstruction::exception_at(result.exception_index@, i));
        assert(tables.subheaders@[plan.subheaders[i]->0 as int]@
            == end.subheaders[plan.subheaders[i]->0 as int]);
        assert(mapper::is_data(start.sectors[i]));
        if plan.types[i].exception_len() > 0 {
            let id = plan.exceptions[i]->0 as int;
            let from = tables.exception_index@[id] as int;
            assert(end.stored[id] == found[i].exception_data->0@);
            assert(from + end.stored[id].len() <= tables.exception_blob@.len());
        }
    }
}

/// A mapped disc comes back: put together by the manifest that its mapping
/// gave, from its user data and from its audio as the block map cuts it, it has
/// the bytes that it had. It takes what recording a mapped disc takes.
pub proof fn law_archived_disc_comes_back<H>(
    coarse: Seq<SectorType>,
    subheaders: Seq<Seq<u8>>,
    stored: Seq<Seq<u8>>,
    reads: Seq<[u8; 2352]>,
    found: Seq<SectorAnalysis>,
    result: SectorMapResult,
    manifest: DiscManifest<H>,
    tables: DiscTables,
    rebuilt: Seq<[u8; 2352]>,
)
    requires
        reads.len() == coarse.len(),
        coarse.len() <= u32::MAX,
        disc_well_classified(coarse, reads, found),
        disc_coarse(coarse),
        describes(manifest, result),
        numbers_come_back(assembly::plan_of(manifest), reads),
        ({
            let end = mapper::mapped(
                mapper::start_state(coarse, subheaders, stored),
                reads,
                found,
                coarse.len() as int,
            );
            &&& mapper::is_result_of(result, end)
            &&& tables_hold(tables, end.subheaders, end.stored)
            &&& end.subheaders.len() <= 65536
            &&& end.stored.len() <= 4294967296
        }),
        rebuilt.len() == reads.len(),
        ({
            let runs = manifest.rle_sector_map.runs@;
            assembly::assembled(
                assembly::plan_of(manifest),
                tables,
                stream::user_data_from(disc::expanded(runs), assembly::sector_bytes(reads), 0),
                blocks::segment_bytes(reads, blocks::segments(runs, runs.len() as int)),
                rebuilt,
            )
        }),
    ensures
        assembly::image(rebuilt) == assembly::image(reads),
{
    law_mapped_disc_is_recorded(
        coarse,
        subheaders,
        stored,
        reads,
        found,
        result,
        manifest,
        tables,
    );
    let runs = manifest.rle_sector_map.runs@;
    lemma_planned_types(coarse, subheaders, stored, reads, found, result, manifest);
    blocks::lemma_expanded_len(runs);
    assert forall|n: int| 0 <= n < runs.len() && (#[trigger] runs[n]).0 > 0 implies runs[n].1
        !is ZeroedAudio by {
        blocks::lemma_expanded_runs(runs, n, blocks::sectors_before(runs, n));
    }
    blocks::law_segments_hold_the_audio(runs, reads);
    assembly::law_disc_is_restored(reads, assembly::plan_of(manifest), tables, rebuilt);
}

/// Any sector can be recorded as a deviating one of its mode and form, whatever it
/// holds: it is classified rightly if the bytes kept for it are those outside its
/// user data and its subheader or reserved bytes, in order.
pub proof fn law_any_sector_can_be_kept_as_deviating(raw: Seq<u8>, found: SectorAnalysis)
    requires
        raw.len() == 2352,
        found.exception_data is Some,
        found.sector_type is Mode1Exception ==> found.exception_data->0@ == raw.subrange(0, 16)
            + raw.subrange(2064, 2068) + raw.subrange(2076, 2352),
        found.sector_type is Mode2Form1Exception ==> found.exception_data->0@ == raw.subrange(0, 16)
            + raw.subrange(2072, 2352),
        found.sector_type is Mode2Form2Exception ==> found.exception_data->0@ == raw.subrange(0, 16)
            + raw.subrange(2348, 2352),
    ensures
        found.sector_type is Mode1Exception || found.sector_type is Mode2Form1Exception
            || found.sector_type is Mode2Form2Exception ==> well_classified(raw, found),
{
    let kept = found.exception_data->0@;
    let user = stream::user_bytes(found.sector_type, raw);
    if found.sector_type is Mode1Exception {
        assert(kept.subrange(0, 16) =~= raw.subrange(0, 16));
        assert(kept.subrange(16, 20) =~= raw.subrange(2064, 2068));
        assert(kept.subrange(20, 296) =~= raw.subrange(2076, 2352));
        assert(user =~= raw.subrange(16, 2064));
    } else if found.sector_type is Mode2Form1Exception {
        assert(kept.subrange(0, 16) =~= raw.subrange(0, 16));
        assert(kept.subrange(16, 296) =~= raw.subrange(2072, 2352));
        assert(user =~= raw.subrange(24, 2072));
    } else if found.sector_type is Mode2Form2Exception {
        assert(kept.subrange(0, 16) =~= raw.subrange(0, 16));
        assert(kept.subrange(16, 20) =~= raw.subrange(2348, 2352));
        assert(user =~= raw.subrange(24, 2348));
    }
}

/// A sector as it stands on a disc can be recorded as a plain one of its mode and
/// form: sync pattern and header, checksum and parity are in order, so that nothing
/// but its user data and its subheader or reserved bytes has to be kept.
pub proof fn law_plain_sectors_need_no_more(raw: Seq<u8>, num: u32, found: SectorAnalysis)
    requires
        raw.len() == 2352,
    ensures
        (found.sector_type is Mode1 || found.sector_type is PregapMode1)
            && reconstruction::opens_sector(raw, 1, num) && raw.subrange(2064, 2068)
            == ecc::word_bytes(ecc::edc(raw.subrange(0, 2064))) && ecc::ecc_valid(raw)
            ==> well_classified(raw, found),
        found.sector_type is Mode2Form1 && reconstruction::opens_sector(raw, 2, num)
            && raw.subrange(2072, 2076) == ecc::word_bytes(ecc::edc(raw.subrange(16, 2072)))
            && ecc::ecc_valid(
            raw.subrange(0, 12) + seq![0u8, 0u8, 0u8, 0u8] + raw.subrange(16, 2352),
        ) ==> well_classified(raw, found),
        found.sector_type is Mode2Form2 && reconstruction::opens_sector(raw, 2, num)
            && raw.subrange(2348, 2352) == ecc::word_bytes(ecc::edc(raw.subrange(16, 2348)))
            ==> well_classified(raw, found),
        found.sector_type is ZeroedMode1Data || found.sector_type is ZeroedMode2Data
            ==> well_classified(raw, found),
{
    let user = stream::user_bytes(found.sector_type, raw);
    if found.sector_type is Mode1 || found.sector_type is PregapMode1 {
        if reconstruction::opens_sector(raw, 1, num) {
            reconstruction::lemma_opening_is_determined(raw, 1, num);
            mapper::law_header_gives_the_number(raw, 1, num);
            assert(user =~= raw.subrange(16, 2064));
        }
    } else if found.sector_type is Mode2Form1 || found.sector_type is Mode2Form2 {
        if reconstruction::opens_sector(raw, 2, num) {
            reconstruction::lemma_opening_is_determined(raw, 2, num);
            mapper::law_header_gives_the_number(raw, 2, num);
            assert(raw.subrange(0, 12) + seq![0u8, 0u8, 0u8, 0u8] + raw.subrange(16, 2352)
                =~= reconstruction::without_header(raw));
            if found.sector_type is Mode2Form1 {
                assert(user =~= raw.subrange(24, 2072));
            } else {
                assert(user =~= raw.subrange(24, 2348));
            }
        }
    } else if found.sector_type is ZeroedMode1Data || found.sector_type is ZeroedMode2Data {
        assert(user =~= raw);
    }
}

/// What a mapping makes of the types that tracks give: sectors of data tracks get
/// the type that they were found to have, audio stays audio, and what belongs to no
/// track counts as silence before a track.
pub proof fn law_mapped_types(
    coarse: Seq<SectorType>,
    subheaders: Seq<Seq<u8>>,
    stored: Seq<Seq<u8>>,
    reads: Seq<[u8; 2352]>,
    found: Seq<SectorAnalysis>,
    result: SectorMapResult,
    sector: int,
)
    requires
        coarse.len() <= u32::MAX,
        0 <= sector < coarse.len(),
        mapper::is_result_of(
            result,
            mapper::mapped(
                mapper::start_state(coarse, subheaders, stored),
                reads,
                found,
                coarse.len() as int,
            ),
        ),
    ensures
        result.sector_map.sectors@.len() == coarse.len(),
        coarse[sector] is Mode1 || coarse[sector] is Mode2Form1 || coarse[sector] is PregapMode1
            || coarse[sector] is PregapMode2 ==> result.sector_map.sectors@[sector] == (
        if found[sector].sector_type is Unmapped {
            SectorType::PregapAudio
        } else {
            found[sector].sector_type
        }),
        coarse[sector] is Audio ==> result.sector_map.sectors@[sector] is Audio,
        coarse[sector] is PregapAudio || coarse[sector] is Unmapped
            ==> result.sector_map.sectors@[sector] is PregapAudio,
{
    let start = mapper::start_state(coarse, subheaders, stored);
    let end = mapper::mapped(start, reads, found, coarse.len() as int);
    lemma_mapped_types(start, reads, found, coarse.len() as int);
    assert(end.sectors[sector] == if mapper::is_data(start.sectors[sector]) {
        found[sector].sector_type
    } else {
        start.sectors[sector]
    });
}

// ---------------------------------------------------------------------------
// Files
// ---------------------------------------------------------------------------

/// What the chunk with the given hash is read back as: the index gives its
/// place, and what stands there is decompressed.
pub open spec fn read_back<H>(
    index: Map<H, ChunkLocation>,
    data: Seq<u8>,
    dict: Seq<u8>,
    hash: H,
) -> Option<Seq<u8>> {
    let place = index[hash];
    if index.contains_key(hash) && place.offset + place.compressed_length <= data.len() {
        archive::zstd_content(
            data.subrange(place.offset as int, place.offset + place.compressed_length),
            dict,
        )
    } else {
        None
    }
}

/// What the first `n` chunks of a manifest are read back as, end to end.
pub open spec fn file_read_back<H>(
    index: Map<H, ChunkLocation>,
    data: Seq<u8>,
    dict: Seq<u8>,
    hashes: Seq<H>,
    n: int,
) -> Option<Seq<u8>>
    decreases n,
{
    if n <= 0 {
        Some(Seq::empty())
    } else {
        match (
            file_read_back(index, data, dict, hashes, n - 1),
            read_back(index, data, dict, hashes[n - 1]),
        ) {
            (Some(front), Some(chunk)) => Some(front + chunk),
            _ => None,
        }
    }
}

/// Whether a source hands out the chunks of a file, and no others, under their
/// hashes.
pub open spec fn hands_out_file<H: Hashable, S: ChunkSource<H>>(
    source: &S,
    stored: Seq<H>,
    file: Seq<u8>,
    chunks: Seq<Chunk>,
) -> bool {
    forall|i: int, bytes: Seq<u8>|
        0 <= i < chunks.len() && #[trigger] archive::chunk_delivered(
            source,
            stored,
            H::hash_of(processing::chunk_bytes(file, #[trigger] chunks[i])),
            bytes,
        ) ==> bytes == processing::chunk_bytes(file, chunks[i])
}

/// An archived file comes back: when the chunks that a file was cut into are
/// among those compressed into an archive, then the chunks that its manifest
/// lists, looked up in the index, decompressed and put end to end, are the file.
/// It takes hashes that tell the chunks apart, places that fit into 64 bits and
/// frames whose lengths fit into 32 bits.
pub proof fn law_archived_file_comes_back<H: Hashable, S: ChunkSource<H>>(
    file: Seq<u8>,
    chunks: Seq<Chunk>,
    max_size: int,
    source: &S,
    dict: Seq<u8>,
    level: i32,
    stored: Seq<H>,
    frames: Seq<Seq<u8>>,
)
    requires
        processing::tiles(chunks, file.len() as int, max_size),
        archive::all_frames(source, dict, level, stored, frames),
        archive::frames_len(frames, frames.len() as int) <= u64::MAX,
        forall|i: int| 0 <= i < frames.len() ==> (#[trigger] frames[i]).len() <= u32::MAX,
        stored.no_duplicates(),
        hands_out_file(source, stored, file, chunks),
        forall|i: int|
            0 <= i < chunks.len() ==> stored.contains(
                H::hash_of(processing::chunk_bytes(file, #[trigger] chunks[i])),
            ),
    ensures
        file_read_back(
            parsing::map_of(archive::layout(stored, frames)),
            archive::frame_bytes(frames, frames.len() as int),
            dict,
            processing::manifest_hashes(
                chunks.map_values(|c: Chunk| processing::chunk_meta::<H>(file, c)),
            ),
            chunks.len() as int,
        ) == Some(file),
{
    lemma_file_read_back(
        file,
        chunks,
        source,
        dict,
        level,
        stored,
        frames,
        chunks.len() as int,
    );
    processing::law_chunks_reassemble(file, chunks, max_size);
}

proof fn lemma_file_read_back<H: Hashable, S: ChunkSource<H>>(
    file: Seq<u8>,
    chunks: Seq<Chunk>,
    source: &S,
    dict: Seq<u8>,
    level: i32,
    stored: Seq<H>,
    frames: Seq<Seq<u8>>,
    n: int,
)
    requires
        0 <= n <= chunks.len(),
        archive::all_frames(source, dict, level, stored, frames),
        archive::frames_len(frames, frames.len() as int) <= u64::MAX,
        forall|i: int| 0 <= i < frames.len() ==> (#[trigger] frames[i]).len() <= u32::MAX,
        stored.no_duplicates(),
        hands_out_file(source, stored, file, chunks),
        forall|i: int|
            0 <= i < chunks.len() ==> stored.contains(
                H::hash_of(processing::chunk_bytes(file, #[trigger] chunks[i])),
            ),
    ensures
        file_read_back(
            parsing::map_of(archive::layout(stored, frames)),
            archive::frame_bytes(frames, frames.len() as int),
            dict,
            processing::manifest_hashes(
                chunks.map_values(|c: Chunk| processing::chunk_meta::<H>(file, c)),
            ),
            n,
        ) == Some(processing::first_chunks(file, chunks, n)),
    decreases n,
{
    if n > 0 {
        lemma_file_read_back(file, chunks, source, dict, level, stored, frames, n - 1);
        let hash = H::hash_of(processing::chunk_bytes(file, chunks[n - 1]));
        assert(stored.contains(hash));
        let i = choose|i: int| 0 <= i < stored.len() && stored[i] == hash;
        serialization::law_index_gives_places(stored, frames, i);
        archive::law_chunks_are_found_again(source, dict, level, stored, frames, i);
        let place = archive::layout(stored, frames)[i].1;
        let data = archive::frame_bytes(frames, frames.len() as int);
        let frame = data.subrange(place.offset as int, place.offset + place.compressed_length);
        assert(archive::chunk_delivered(
            source,
            stored,
            H::hash_of(processing::chunk_bytes(file, chunks[n - 1])),
            archive::zstd_content(frame, dict)->0,
        ));
        let hashes = processing::manifest_hashes(
            chunks.map_values(|c: Chunk| processing::chunk_meta::<H>(file, c)),
        );
        assert(hashes[n - 1] == hash);
    }
}

} // verus!
