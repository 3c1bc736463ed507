//! Quantised storage-arc block math.
//!
//! An agent's arc is always an aligned power-of-two block of sectors that
//! contains its home sector. Level `L` is a block of `2^L` sectors, and level
//! [`MAX_LEVEL`] is the full ring. Ranges of sectors are half-open; they turn
//! into a [`DhtArc`] with inclusive bounds only at the edge.

use crate::dht_arc;
use crate::dht_arc::DhtArc;
use vstd::prelude::*;

verus! {

/// The number of locations in one sector.
pub const SECTOR_SIZE: u32 = 8_388_608;

/// The number of sectors in the full ring.
pub const NUM_SECTORS: u32 = 512;

/// The block level that covers the full ring.
pub const MAX_LEVEL: u8 = 9;

/// Whether a sector lies in a half-open range.
pub open spec fn in_range(range: (u32, u32), sector: int) -> bool {
    range.0 <= sector < range.1
}

/// The number of sectors in a block of the given level.
pub open spec fn width(level: int) -> int {
    vstd::arithmetic::power2::pow2(level as nat) as int
}

/// The first sector of the aligned block that contains `home`.
pub open spec fn block_start(home: int, level: int) -> int {
    home - home % width(level)
}

/// The aligned block of `2^level` sectors that contains `home`.
pub open spec fn block_at(home: int, level: int) -> (int, int) {
    if level >= MAX_LEVEL {
        (0, NUM_SECTORS as int)
    } else {
        (block_start(home, level), block_start(home, level) + width(level))
    }
}

/// Both ends of the block are machine integers.
pub open spec fn block_fits(home: int, level: int) -> bool {
    block_at(home, level).1 <= u32::MAX
}

/// What the block of the next level has beyond the block of this one.
pub open spec fn sibling_at(home: int, level: int) -> (int, int) {
    let parent = block_at(home, level + 1);
    let cur = block_at(home, level);
    if parent.0 == cur.0 {
        (cur.1, parent.1)
    } else {
        (parent.0, cur.0)
    }
}

/// What the block of this level has beyond the block of the level below.
pub open spec fn vacate_at(home: int, level: int) -> (int, int) {
    sibling_at(home, level - 1)
}

/// The locations of a range of sectors.
pub open spec fn arc_of(start: int, end: int) -> DhtArc {
    DhtArc::Arc((start * SECTOR_SIZE) as u32, (end * SECTOR_SIZE - 1) as u32)
}

/// The arc of an agent's block.
pub open spec fn block_arc_at(home: int, level: int) -> DhtArc {
    arc_of(block_at(home, level).0, block_at(home, level).1)
}

/// Whether a whole sector lies in an arc: every location of it does.
pub open spec fn covers(arc: DhtArc, sector: int) -> bool {
    forall|loc: int|
        sector * SECTOR_SIZE <= loc < (sector + 1) * SECTOR_SIZE ==> #[trigger] dht_arc::arc_has(
            arc,
            loc,
        )
}

/// Whether an arc starts and ends with whole sectors.
pub open spec fn sector_aligned(arc: DhtArc) -> bool {
    match arc {
        DhtArc::Empty => true,
        DhtArc::Arc(start, end) => start % SECTOR_SIZE == 0 && (end + 1) % SECTOR_SIZE as int == 0,
    }
}

pub proof fn lemma_widths()
    ensures
        width(0) == 1,
        width(1) == 2,
        width(2) == 4,
        width(3) == 8,
        width(4) == 16,
        width(5) == 32,
        width(6) == 64,
        width(7) == 128,
        width(8) == 256,
        width(9) == 512,
{
    vstd::arithmetic::power2::lemma2_to64();
}

/// A block is as wide as its level says, is aligned to its width, and
/// contains the home sector.
pub proof fn law_block_is_aligned_around_home(home: int, level: int)
    requires
        0 <= home < NUM_SECTORS,
        0 <= level <= MAX_LEVEL,
    ensures
        block_at(home, level).0 <= home < block_at(home, level).1,
        block_at(home, level).1 - block_at(home, level).0 == width(level),
        block_at(home, level).0 % width(level) == 0,
        0 <= block_at(home, level).0,
        block_at(home, level).1 <= NUM_SECTORS,
        block_fits(home, level),
{
    lemma_widths();
    assert(level == 0 || level == 1 || level == 2 || level == 3 || level == 4 || level == 5
        || level == 6 || level == 7 || level == 8 || level == 9);
}

/// Growing by one level adds the sibling half and keeps the block: the two
/// tile the next block without overlap, and each is half of it.
pub proof fn law_sibling_completes_parent(home: int, level: int)
    requires
        0 <= home < NUM_SECTORS,
        0 <= level < MAX_LEVEL,
    ensures
        ({
            let cur = block_at(home, level);
            let sib = sibling_at(home, level);
            let parent = block_at(home, level + 1);
            &&& sib.1 - sib.0 == cur.1 - cur.0
            &&& parent.1 - parent.0 == (cur.1 - cur.0) + (sib.1 - sib.0)
            &&& (sib == (cur.1, parent.1) && parent.0 == cur.0) || (sib == (parent.0, cur.0)
                && parent.1 == cur.1)
            &&& 0 <= sib.0 < sib.1 <= NUM_SECTORS
        }),
        forall|s: int|
            #![trigger in_sectors(block_at(home, level + 1), s)]
            in_sectors(block_at(home, level + 1), s) <==> (in_sectors(block_at(home, level), s)
                != in_sectors(sibling_at(home, level), s)),
{
    lemma_widths();
    law_block_is_aligned_around_home(home, level);
    law_block_is_aligned_around_home(home, level + 1);
    let w = width(level);
    assert(level == 0 || level == 1 || level == 2 || level == 3 || level == 4 || level == 5
        || level == 6 || level == 7 || level == 8);
    assert(width(level + 1) == w * 2);
    vstd::arithmetic::div_mod::lemma_mod_breakdown(home, w, 2);
    assert((home / w) % 2 == 0 || (home / w) % 2 == 1);
    if (home / w) % 2 == 0 {
        assert(home % (w * 2) == home % w) by (nonlinear_arith)
            requires
                home % (w * 2) == w * ((home / w) % 2) + home % w,
                (home / w) % 2 == 0,
        ;
    } else {
        assert(home % (w * 2) == w + home % w) by (nonlinear_arith)
            requires
                home % (w * 2) == w * ((home / w) % 2) + home % w,
                (home / w) % 2 == 1,
        ;
    }
    assert(level < 8 ==> block_start(home, level + 1) == home - home % (w * 2));
}

/// Whether a sector lies in a half-open range.
pub open spec fn in_sectors(range: (int, int), sector: int) -> bool {
    range.0 <= sector < range.1
}

/// The sector that contains a location.
pub fn home_sector(loc: u32) -> (sector: u32)
    ensures
        sector == loc as int / SECTOR_SIZE as int,
        sector < NUM_SECTORS,
{
    loc / SECTOR_SIZE
}

/// The aligned block `[start, end)` of `2^level` sectors containing `home`.
pub fn block(home: u32, level: u8) -> (range: (u32, u32))
    requires
        block_fits(home as int, level as int),
    ensures
        range.0 == block_at(home as int, level as int).0,
        range.1 == block_at(home as int, level as int).1,
{
    if level >= MAX_LEVEL {
        return (0, NUM_SECTORS);
    }
    let shift: u32 = level as u32;
    proof {
        lemma_widths();
        assert(level == 0 || level == 1 || level == 2 || level == 3 || level == 4 || level == 5
            || level == 6 || level == 7 || level == 8);
        vstd::bits::lemma_u32_shr_is_div(home, shift);
        vstd::arithmetic::div_mod::lemma_fundamental_div_mod(home as int, width(level as int));
        assert((home / width(level as int) as u32) * width(level as int) == block_start(
            home as int,
            level as int,
        ));
        vstd::bits::lemma_u32_shl_is_mul(home >> shift, shift);
        vstd::bits::lemma_u32_shl_is_mul(1, shift);
    }
    let size: u32 = 1u32 << shift;
    let start: u32 = (home >> shift) << shift;
    (start, start + size)
}

/// The sectors gained by growing `level -> level + 1`: the sibling half of
/// the parent block.
pub fn sibling_half(home: u32, level: u8) -> (range: (u32, u32))
    requires
        level < u8::MAX,
        block_fits(home as int, level as int),
        block_fits(home as int, level + 1),
    ensures
        range.0 == sibling_at(home as int, level as int).0,
        range.1 == sibling_at(home as int, level as int).1,
{
    let (parent_start, parent_end) = block(home, level + 1);
    let (cur_start, cur_end) = block(home, level);
    if parent_start == cur_start {
        (cur_end, parent_end)
    } else {
        (parent_start, cur_start)
    }
}

/// The sectors dropped by shrinking `level -> level - 1`: the half of the
/// current block not containing `home`.
pub fn vacate_half(home: u32, level: u8) -> (range: (u32, u32))
    requires
        level > 0,
        block_fits(home as int, level as int),
        block_fits(home as int, level - 1),
    ensures
        range.0 == vacate_at(home as int, level as int).0,
        range.1 == vacate_at(home as int, level as int).1,
{
    let (cur_start, cur_end) = block(home, level);
    let (keep_start, keep_end) = block(home, level - 1);
    if cur_start == keep_start {
        (keep_end, cur_end)
    } else {
        (cur_start, keep_start)
    }
}

/// Converts a half-open sector range to a [`DhtArc`] with inclusive location
/// bounds.
pub fn sectors_to_arc(start: u32, end: u32) -> (arc: DhtArc)
    requires
        start < end <= NUM_SECTORS,
    ensures
        arc == arc_of(start as int, end as int),
{
    if start == 0 && end == NUM_SECTORS {
        return DhtArc::full();
    }
    DhtArc::Arc(start * SECTOR_SIZE, (end - 1) * SECTOR_SIZE + (SECTOR_SIZE - 1))
}

/// The [`DhtArc`] for an agent's block at the given level.
pub fn block_arc(home: u32, level: u8) -> (arc: DhtArc)
    requires
        home < NUM_SECTORS || level >= MAX_LEVEL,
    ensures
        arc == block_arc_at(home as int, level as int),
{
    proof {
        if level < MAX_LEVEL {
            law_block_is_aligned_around_home(home as int, level as int);
        }
    }
    let (start, end) = block(home, level);
    sectors_to_arc(start, end)
}

/// Two agents' blocks of one level are the same block or have no sector in
/// common.
pub proof fn law_overlap_is_total_or_none(a: int, b: int, level: int)
    requires
        0 <= a < NUM_SECTORS,
        0 <= b < NUM_SECTORS,
        0 <= level <= MAX_LEVEL,
    ensures
        block_at(a, level) == block_at(b, level) || block_at(a, level).1 <= block_at(b, level).0
            || block_at(b, level).1 <= block_at(a, level).0,
{
    if level < MAX_LEVEL {
        let w = width(level);
        vstd::arithmetic::power2::lemma_pow2_pos(level as nat);
        vstd::arithmetic::div_mod::lemma_fundamental_div_mod(a, w);
        vstd::arithmetic::div_mod::lemma_fundamental_div_mod(b, w);
        let (i, j) = (a / w, b / w);
        assert(i < j ==> w * i + w <= w * j) by (nonlinear_arith)
            requires
                w > 0,
        ;
        assert(j < i ==> w * j + w <= w * i) by (nonlinear_arith)
            requires
                w > 0,
        ;
    }
}

/// What a shrink drops is what growing back would regain.
pub proof fn law_growing_undoes_shrinking(home: int, level: int)
    requires
        0 <= home < NUM_SECTORS,
        0 < level <= MAX_LEVEL,
    ensures
        vacate_at(home, level) == sibling_at(home, level - 1),
        forall|s: int|
            #![trigger in_sectors(vacate_at(home, level), s)]
            in_sectors(vacate_at(home, level), s) <==> in_sectors(block_at(home, level), s)
                && !in_sectors(block_at(home, level - 1), s),
        !in_sectors(vacate_at(home, level), home),
{
    law_sibling_completes_parent(home, level - 1);
    law_block_is_aligned_around_home(home, level - 1);
    assert forall|s: int| #[trigger]
        in_sectors(vacate_at(home, level), s) <==> in_sectors(block_at(home, level), s)
            && !in_sectors(block_at(home, level - 1), s) by {
        assert(in_sectors(block_at(home, level - 1 + 1), s) <==> (in_sectors(
            block_at(home, level - 1),
            s,
        ) != in_sectors(sibling_at(home, level - 1), s)));
    }
}

/// The vacated half never spans more than half the ring.
pub proof fn law_vacate_is_at_most_half_the_ring(home: int, level: int)
    requires
        0 <= home < NUM_SECTORS,
        0 < level <= MAX_LEVEL,
    ensures
        0 <= vacate_at(home, level).0 < vacate_at(home, level).1 <= NUM_SECTORS,
        vacate_at(home, level).1 - vacate_at(home, level).0 <= NUM_SECTORS / 2,
{
    law_sibling_completes_parent(home, level - 1);
    law_block_is_aligned_around_home(home, level - 1);
    lemma_widths();
    assert(level == 1 || level == 2 || level == 3 || level == 4 || level == 5 || level == 6
        || level == 7 || level == 8 || level == 9);
}

/// The arc of a range of sectors covers those sectors and no others.
pub proof fn law_arc_covers_exactly_its_sectors(start: int, end: int, sector: int)
    requires
        0 <= start < end <= NUM_SECTORS,
        0 <= sector < NUM_SECTORS,
    ensures
        covers(arc_of(start, end), sector) <==> start <= sector < end,
{
    let first = sector * SECTOR_SIZE;
    if covers(arc_of(start, end), sector) {
        assert(dht_arc::arc_has(arc_of(start, end), first));
    }
}

/// Whether a whole sector lies in an arc. Where both ends of the sector do, it
/// is still missed in part by an arc that wraps around and whose gap lies inside
/// the sector.
pub fn covers_sector(arc: &DhtArc, sector: u32) -> (covered: bool)
    requires
        sector < NUM_SECTORS,
    ensures
        covered == covers(*arc, sector as int),
{
    let lo: u32 = sector * SECTOR_SIZE;
    let hi: u32 = lo + (SECTOR_SIZE - 1);
    if !arc.contains(lo) || !arc.contains(hi) {
        assert(!dht_arc::arc_has(*arc, lo as int) || !dht_arc::arc_has(*arc, hi as int));
        return false;
    }
    match arc {
        DhtArc::Empty => false,
        DhtArc::Arc(start, end) => {
            let (start, end) = (*start, *end);
            if end < start && start - end > 1 && lo <= end && start <= hi {
                assert(!dht_arc::arc_has(*arc, end + 1));
                false
            } else {
                true
            }
        },
    }
}

/// The arc of a block holds every location whose sector is the block's home.
pub proof fn law_block_arc_holds_home(loc: u32, level: int)
    requires
        0 <= level <= MAX_LEVEL,
    ensures
        dht_arc::arc_has(block_arc_at(loc as int / SECTOR_SIZE as int, level), loc as int),
{
    law_block_is_aligned_around_home(loc as int / SECTOR_SIZE as int, level);
}

/// The arc of a range of sectors starts and ends with whole sectors.
pub proof fn law_sector_ranges_make_aligned_arcs(start: int, end: int)
    requires
        0 <= start < end <= NUM_SECTORS,
    ensures
        sector_aligned(arc_of(start, end)),
{
}

/// For an arc that starts and ends with whole sectors, looking at the bounds of
/// a sector is exact, and so is looking at any of its locations.
pub proof fn law_aligned_arcs_hold_whole_sectors(arc: DhtArc, sector: int, loc: int)
    requires
        sector_aligned(arc),
        0 <= sector < NUM_SECTORS,
        sector * SECTOR_SIZE <= loc < (sector + 1) * SECTOR_SIZE,
    ensures
        covers(arc, sector) <==> dht_arc::arc_has(arc, loc),
        covers(arc, sector) <==> dht_arc::arc_has(arc, sector * SECTOR_SIZE) && dht_arc::arc_has(
            arc,
            (sector + 1) * SECTOR_SIZE - 1,
        ),
{
    let lo = sector * SECTOR_SIZE;
    if let DhtArc::Arc(start, end) = arc {
        let first = start as int / SECTOR_SIZE as int;
        let behind = (end + 1) / SECTOR_SIZE as int;
        assert(start == first * SECTOR_SIZE);
        assert(end + 1 == behind * SECTOR_SIZE);
    }
    if covers(arc, sector) {
        assert(dht_arc::arc_has(arc, loc));
        assert(dht_arc::arc_has(arc, lo));
        assert(dht_arc::arc_has(arc, lo + SECTOR_SIZE - 1));
    }
}

} // verus!
