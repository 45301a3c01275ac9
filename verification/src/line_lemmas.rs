//! What holds of every line after it has been slid, merged or shifted.

use crate::grid::{is_cell, is_full, is_tile, total};
use crate::line::{
    doubled, gain, lemma_lengths, lemma_tiles_len, merge_overflows, merged, merges_at_front,
    shift_overflows, shifted, slid, tiles, zeros,
};
use vstd::arithmetic::power::pow;
use vstd::arithmetic::power2::{
    is_pow2, is_pow2_equiv, is_pow2_exists, lemma2_to64, lemma_pow2_strictly_increases, pow2,
};
use vstd::prelude::*;

verus! {

/// Every cell of the line is empty or a tile.
pub open spec fn all_cells(line: Seq<u32>) -> bool {
    forall|i: int| 0 <= i < line.len() ==> is_cell(#[trigger] line[i])
}

/// Every value of the line is small enough for 32 bits to hold twice as much.
pub open spec fn all_small(line: Seq<u32>) -> bool {
    forall|i: int| 0 <= i < line.len() ==> #[trigger] line[i] < 0x8000_0000
}

/// No cell of the line holds the same value as the cell behind it.
pub open spec fn no_equal_neighbours(line: Seq<u32>) -> bool {
    forall|i: int| 0 <= i < line.len() - 1 ==> #[trigger] line[i] != line[i + 1]
}

/// `out` arises from `tiles` where each tile either stays as it is or is
/// fused with the tile behind it, which holds the same value, into one tile of
/// twice that value. Every tile of `tiles` goes into exactly one tile of
/// `out`, in order, so every tile of `out` is made of one or two.
pub open spec fn fused_once(tiles: Seq<u32>, out: Seq<u32>) -> bool
    decreases tiles.len(),
{
    if tiles.len() == 0 {
        out.len() == 0
    } else {
        ||| out.len() >= 1 && out[0] == tiles[0] && fused_once(tiles.skip(1), out.skip(1))
        ||| out.len() >= 1 && tiles.len() >= 2 && tiles[0] == tiles[1] && out[0] == 2 * tiles[0]
            && fused_once(tiles.skip(2), out.skip(1))
    }
}

// The tiles of a line.

/// The tiles of two lines put end to end are the tiles of the first, then
/// those of the second.
pub proof fn lemma_tiles_concat(front: Seq<u32>, back: Seq<u32>)
    ensures
        tiles(front + back) == tiles(front) + tiles(back),
    decreases back.len(),
{
    if back.len() == 0 {
        assert(front + back =~= front);
        assert(tiles(front) + tiles(back) =~= tiles(front));
    } else {
        lemma_tiles_concat(front, back.drop_last());
        assert((front + back).drop_last() =~= front + back.drop_last());
        assert((front + back).last() == back.last());
        if back.last() != 0 {
            assert(tiles(front + back) =~= tiles(front) + tiles(back));
        }
    }
}

/// A line of one cell has that cell as its tile, unless the cell is empty.
pub proof fn lemma_tiles_single(value: u32)
    ensures
        tiles(seq![value]) == if value != 0 {
            seq![value]
        } else {
            Seq::<u32>::empty()
        },
{
    let line = seq![value];
    assert(line.drop_last() =~= Seq::<u32>::empty());
    assert(tiles(line.drop_last()) =~= Seq::<u32>::empty());
    if value != 0 {
        assert(tiles(line) =~= seq![value]);
    }
}

/// The tiles of a line, told from its first cell.
pub proof fn lemma_tiles_front(value: u32, rest: Seq<u32>)
    ensures
        tiles(seq![value] + rest) == if value != 0 {
            seq![value] + tiles(rest)
        } else {
            tiles(rest)
        },
{
    lemma_tiles_concat(seq![value], rest);
    lemma_tiles_single(value);
    if value == 0 {
        assert(Seq::<u32>::empty() + tiles(rest) =~= tiles(rest));
    }
}

/// Empty cells hold no tile.
pub proof fn lemma_tiles_zeros(n: nat)
    ensures
        tiles(zeros(n)) == Seq::<u32>::empty(),
    decreases n,
{
    if n > 0 {
        lemma_tiles_zeros((n - 1) as nat);
        assert(zeros(n).drop_last() =~= zeros((n - 1) as nat));
    }
}

/// No tile is zero, and a line without an empty cell is its own tiles.
pub proof fn lemma_tiles_full(line: Seq<u32>)
    ensures
        forall|i: int| 0 <= i < tiles(line).len() ==> #[trigger] tiles(line)[i] != 0,
        is_full(line) ==> tiles(line) == line,
        tiles(line).len() == line.len() ==> is_full(line),
    decreases line.len(),
{
    if line.len() > 0 {
        let shorter = line.drop_last();
        lemma_tiles_full(shorter);
        lemma_tiles_len(shorter);
        if is_full(line) {
            assert forall|i: int| 0 <= i < shorter.len() implies #[trigger] shorter[i] != 0 by {
                assert(shorter[i] == line[i]);
            }
            assert(tiles(line) =~= line);
        }
        if tiles(line).len() == line.len() {
            assert forall|i: int| 0 <= i < line.len() implies #[trigger] line[i] != 0 by {
                if i < shorter.len() {
                    assert(shorter[i] == line[i]);
                }
            }
        }
    } else {
        assert(tiles(line) =~= line);
    }
}

// Sliding.

/// Sliding keeps the tiles, and a line that has no empty cell after sliding
/// had none before and was left as it was.
pub proof fn lemma_slid(line: Seq<u32>)
    ensures
        tiles(slid(line)) == tiles(line),
        slid(slid(line)) == slid(line),
        is_full(slid(line)) ==> slid(line) == line && is_full(line),
{
    lemma_tiles_len(line);
    lemma_tiles_full(line);
    let kept = tiles(line);
    let gap = (line.len() - kept.len()) as nat;
    lemma_tiles_concat(kept, zeros(gap));
    lemma_tiles_zeros(gap);
    lemma_tiles_full(kept);
    assert(tiles(kept) + Seq::<u32>::empty() =~= kept);
    assert(slid(slid(line)) =~= slid(line));
    if is_full(slid(line)) {
        if gap > 0 {
            assert(slid(line)[kept.len() as int] == 0);
        }
        assert(slid(line) =~= kept);
    }
}

/// After sliding no tile lies behind an empty cell.
pub proof fn lemma_slid_packed(line: Seq<u32>, gap: int, tile: int)
    requires
        0 <= gap < tile < line.len(),
        slid(line)[gap] == 0,
    ensures
        slid(line)[tile] == 0,
{
    lemma_tiles_len(line);
    lemma_tiles_full(line);
    if gap < tiles(line).len() {
        assert(slid(line)[gap] == tiles(line)[gap]);
    }
}

// Lines that a move leaves as they are.

/// A line that has no empty cell after merging was left as it was.
pub proof fn lemma_merged_full(line: Seq<u32>)
    requires
        is_full(merged(line)),
    ensures
        merged(line) == line,
    decreases line.len(),
{
    if line.len() >= 2 {
        if merges_at_front(line) {
            assert(merged(line)[1] == 0);
        } else {
            let rest = merged(line.skip(1));
            assert forall|i: int| 0 <= i < rest.len() implies #[trigger] rest[i] != 0 by {
                assert(merged(line)[i + 1] == rest[i]);
            }
            lemma_merged_full(line.skip(1));
            assert(merged(line) =~= line);
        }
    }
}

/// A line that has no empty cell after a move was left as it was.
pub proof fn lemma_shifted_full(line: Seq<u32>)
    requires
        is_full(shifted(line)),
    ensures
        shifted(line) == line,
{
    let packed = slid(line);
    lemma_slid(merged(packed));
    lemma_merged_full(packed);
    lemma_slid(line);
}

/// The merging pass leaves a line without equal neighbours as it is.
pub proof fn lemma_merged_stuck(line: Seq<u32>)
    requires
        no_equal_neighbours(line),
    ensures
        merged(line) == line,
        gain(line) == 0,
    decreases line.len(),
{
    if line.len() >= 2 {
        let rest = line.skip(1);
        assert(line[0] != line[1]);
        assert forall|i: int| 0 <= i < rest.len() - 1 implies #[trigger] rest[i] != rest[i
            + 1] by {
            assert(line[i + 1] != line[i + 2]);
        }
        lemma_merged_stuck(rest);
        assert(merged(line) =~= line);
    }
}

/// A move leaves a line as it is that has neither an empty cell nor equal
/// neighbours.
pub proof fn lemma_shifted_stuck(line: Seq<u32>)
    requires
        is_full(line),
        no_equal_neighbours(line),
    ensures
        shifted(line) == line,
        gain(slid(line)) == 0,
{
    lemma_tiles_full(line);
    assert(slid(line) =~= line);
    lemma_merged_stuck(line);
}

// Lines that a move changes.

/// A move changes a line in which a tile lies behind an empty cell.
pub proof fn lemma_shifted_closes_gap(line: Seq<u32>, gap: int, tile: int)
    requires
        0 <= gap < tile < line.len(),
        line[gap] == 0,
        line[tile] != 0,
    ensures
        shifted(line) != line,
{
    let fused = merged(slid(line));
    lemma_lengths(line);
    lemma_lengths(fused);
    if shifted(line) == line {
        lemma_slid_packed(fused, gap, tile);
    }
}

/// Whether two neighbours of the line hold equal tiles.
pub open spec fn has_equal_tiles(line: Seq<u32>) -> bool {
    exists|i: int| 0 <= i < line.len() - 1 && #[trigger] line[i] != 0 && line[i] == line[i + 1]
}

/// The merging pass leaves no more tiles than there were, and fewer where
/// two neighbours hold equal tiles.
pub proof fn lemma_merged_tile_count(line: Seq<u32>)
    ensures
        tiles(merged(line)).len() <= tiles(line).len(),
        has_equal_tiles(line) ==> tiles(merged(line)).len() < tiles(line).len(),
    decreases line.len(),
{
    if line.len() >= 2 {
        let value = line[0];
        if merges_at_front(line) {
            let rest = line.skip(2);
            lemma_merged_tile_count(rest);
            assert(line =~= seq![value] + (seq![value] + rest));
            lemma_tiles_front(value, rest);
            lemma_tiles_front(value, seq![value] + rest);
            assert(merged(line) =~= seq![doubled(value)] + (seq![0u32] + merged(rest)));
            lemma_tiles_front(0u32, merged(rest));
            lemma_tiles_front(doubled(value), seq![0u32] + merged(rest));
        } else {
            let rest = line.skip(1);
            lemma_merged_tile_count(rest);
            assert(line =~= seq![value] + rest);
            lemma_tiles_front(value, rest);
            lemma_tiles_front(value, merged(rest));
            if has_equal_tiles(line) {
                let at = choose|i: int|
                    0 <= i < line.len() - 1 && #[trigger] line[i] != 0 && line[i] == line[i + 1];
                assert(at >= 1);
                assert(rest[at - 1] != 0 && rest[at - 1] == rest[at - 1 + 1]);
            }
        }
    }
}

/// A move changes a line without an empty cell in which two neighbours are
/// equal.
pub proof fn lemma_shifted_merges_pair(line: Seq<u32>, at: int)
    requires
        is_full(line),
        0 <= at < line.len() - 1,
        line[at] == line[at + 1],
    ensures
        shifted(line) != line,
{
    lemma_tiles_full(line);
    assert(slid(line) =~= line);
    assert(line[at] != 0 && line[at] == line[at + 1]);
    lemma_merged_tile_count(line);
    lemma_slid(merged(line));
}

// Empty cells and tiles stay what they are.

/// Twice a tile is a tile again, or zero where 32 bits cannot hold it.
pub proof fn lemma_doubled_tile(value: u32)
    requires
        is_tile(value),
    ensures
        is_cell(doubled(value)),
        value < 0x8000_0000 ==> is_tile(doubled(value)) && doubled(value) == 2 * value,
        value >= 0x8000_0000 ==> doubled(value) == 0,
{
    if value < 0x8000_0000 {
        reveal(is_pow2);
        assert(is_pow2(2 * value as int));
    } else {
        is_pow2_equiv(value as int);
        assert(is_pow2_exists(value as int));
        let k = choose|k: nat| pow(2, k) == value as int;
        assert(pow2(k) == value);
        lemma2_to64();
        if k < 31 {
            lemma_pow2_strictly_increases(k, 31);
        } else if k > 32 {
            lemma_pow2_strictly_increases(32, k);
        }
    }
}

/// The cells behind the first `n` of a line of empty cells and tiles.
proof fn lemma_cells_skip(line: Seq<u32>, n: int)
    requires
        all_cells(line),
        0 <= n <= line.len(),
    ensures
        all_cells(line.skip(n)),
{
    assert forall|i: int| 0 <= i < line.skip(n).len() implies is_cell(
        #[trigger] line.skip(n)[i],
    ) by {
        assert(line.skip(n)[i] == line[i + n]);
    }
}

/// Sliding keeps a line of empty cells and tiles what it is.
proof fn lemma_slid_cells(line: Seq<u32>)
    requires
        all_cells(line),
    ensures
        all_cells(tiles(line)),
        all_cells(slid(line)),
    decreases line.len(),
{
    if line.len() > 0 {
        let shorter = line.drop_last();
        assert forall|i: int| 0 <= i < shorter.len() implies is_cell(#[trigger] shorter[i]) by {
            assert(shorter[i] == line[i]);
        }
        lemma_slid_cells(shorter);
        assert(is_cell(line[line.len() - 1]));
    }
    lemma_tiles_len(line);
}

/// Merging keeps a line of empty cells and tiles what it is.
proof fn lemma_merged_cells(line: Seq<u32>)
    requires
        all_cells(line),
    ensures
        all_cells(merged(line)),
    decreases line.len(),
{
    if line.len() >= 2 {
        assert(is_cell(line[0]));
        let out = merged(line);
        if merges_at_front(line) {
            let rest = line.skip(2);
            lemma_cells_skip(line, 2);
            lemma_merged_cells(rest);
            lemma_doubled_tile(line[0]);
            assert forall|i: int| 0 <= i < out.len() implies is_cell(#[trigger] out[i]) by {
                if i >= 2 {
                    assert(out[i] == merged(rest)[i - 2]);
                }
            }
        } else {
            let rest = line.skip(1);
            lemma_cells_skip(line, 1);
            lemma_merged_cells(rest);
            assert forall|i: int| 0 <= i < out.len() implies is_cell(#[trigger] out[i]) by {
                if i >= 1 {
                    assert(out[i] == merged(rest)[i - 1]);
                }
            }
        }
    }
}

/// Sliding, merging and a whole move keep a line of empty cells and tiles
/// what it is.
pub proof fn lemma_cells_kept(line: Seq<u32>)
    requires
        all_cells(line),
    ensures
        all_cells(tiles(line)),
        all_cells(slid(line)),
        all_cells(merged(line)),
        all_cells(shifted(line)),
{
    lemma_slid_cells(line);
    lemma_merged_cells(line);
    lemma_merged_cells(slid(line));
    lemma_slid_cells(merged(slid(line)));
}

// Values too large to double.

/// The values behind the first `n` of a line are small where all are.
proof fn lemma_small_skip(line: Seq<u32>, n: int)
    requires
        all_small(line),
        0 <= n <= line.len(),
    ensures
        all_small(line.skip(n)),
{
    assert forall|i: int| 0 <= i < line.skip(n).len() implies #[trigger] line.skip(n)[i]
        < 0x8000_0000 by {
        assert(line.skip(n)[i] == line[i + n]);
    }
}

/// Small values stay small under sliding.
proof fn lemma_small_slid(line: Seq<u32>)
    requires
        all_small(line),
    ensures
        all_small(tiles(line)),
        all_small(slid(line)),
    decreases line.len(),
{
    if line.len() > 0 {
        let shorter = line.drop_last();
        assert forall|i: int| 0 <= i < shorter.len() implies #[trigger] shorter[i]
            < 0x8000_0000 by {
            assert(shorter[i] == line[i]);
        }
        lemma_small_slid(shorter);
        assert(line[line.len() - 1] < 0x8000_0000);
    }
    lemma_tiles_len(line);
}

/// The merging pass does not overflow on small values.
proof fn lemma_small_merges(line: Seq<u32>)
    requires
        all_small(line),
    ensures
        !merge_overflows(line),
    decreases line.len(),
{
    if line.len() >= 2 {
        assert(line[0] < 0x8000_0000);
        if merges_at_front(line) {
            lemma_small_skip(line, 2);
            lemma_small_merges(line.skip(2));
        } else {
            lemma_small_skip(line, 1);
            lemma_small_merges(line.skip(1));
        }
    }
}

/// A move does not overflow on a line of which every value is small enough
/// for 32 bits to hold twice as much.
pub proof fn lemma_small_never_overflows(line: Seq<u32>)
    requires
        all_small(line),
    ensures
        !merge_overflows(line),
        !shift_overflows(line),
{
    lemma_small_merges(line);
    lemma_small_slid(line);
    lemma_small_merges(slid(line));
}

// Sums.

/// The sum over two lines put end to end is the sum of their sums.
pub proof fn lemma_total_concat(front: Seq<u32>, back: Seq<u32>)
    ensures
        total(front + back) == total(front) + total(back),
    decreases back.len(),
{
    if back.len() == 0 {
        assert(front + back =~= front);
    } else {
        lemma_total_concat(front, back.drop_last());
        assert((front + back).drop_last() =~= front + back.drop_last());
    }
}

/// Empty cells add up to nothing.
pub proof fn lemma_total_zeros(n: nat)
    ensures
        total(zeros(n)) == 0,
    decreases n,
{
    if n > 0 {
        lemma_total_zeros((n - 1) as nat);
        assert(zeros(n).drop_last() =~= zeros((n - 1) as nat));
    }
}

/// No sum of cells is negative.
pub proof fn lemma_total_bounds(line: Seq<u32>)
    ensures
        0 <= total(line),
    decreases line.len(),
{
    if line.len() > 0 {
        lemma_total_bounds(line.drop_last());
    }
}

/// Sum of a line of one or two cells.
proof fn lemma_total_short(first: u32, second: u32)
    ensures
        total(seq![first]) == first,
        total(seq![first, second]) == first + second,
{
    reveal_with_fuel(total, 3);
    assert(seq![first].drop_last() =~= Seq::<u32>::empty());
    assert(seq![first, second].drop_last() =~= seq![first]);
}

/// The tiles of a line add up to what its cells add up to, and so does the
/// line after sliding.
pub proof fn lemma_total_slid(line: Seq<u32>)
    ensures
        total(tiles(line)) == total(line),
        total(slid(line)) == total(line),
    decreases line.len(),
{
    if line.len() > 0 {
        lemma_total_slid(line.drop_last());
        if line.last() != 0 {
            assert(tiles(line).drop_last() =~= tiles(line.drop_last()));
        }
    }
    lemma_tiles_len(line);
    lemma_total_concat(tiles(line), zeros((line.len() - tiles(line).len()) as nat));
    lemma_total_zeros((line.len() - tiles(line).len()) as nat);
}

/// Merging keeps the sum of a line, and the values it creates add up to no
/// more than the line holds, unless it overflows.
pub proof fn lemma_total_merged(line: Seq<u32>)
    requires
        !merge_overflows(line),
    ensures
        total(merged(line)) == total(line),
        0 <= gain(line) <= total(line),
    decreases line.len(),
{
    lemma_total_bounds(line);
    if line.len() >= 2 {
        if merges_at_front(line) {
            let rest = line.skip(2);
            lemma_total_merged(rest);
            lemma_total_short(doubled(line[0]), 0u32);
            lemma_total_short(line[0], line[1]);
            lemma_total_concat(seq![doubled(line[0]), 0u32], merged(rest));
            lemma_total_concat(seq![line[0], line[1]], rest);
            assert(line =~= seq![line[0], line[1]] + rest);
        } else {
            let rest = line.skip(1);
            lemma_total_merged(rest);
            lemma_total_short(line[0], 0u32);
            lemma_total_concat(seq![line[0]], merged(rest));
            lemma_total_concat(seq![line[0]], rest);
            assert(line =~= seq![line[0]] + rest);
        }
    }
}

/// A whole move keeps the sum of a line, and the values that its merges
/// create add up to no more than the line holds, unless it overflows.
pub proof fn lemma_total_shifted(line: Seq<u32>)
    requires
        !shift_overflows(line),
    ensures
        total(shifted(line)) == total(line),
        0 <= gain(slid(line)) <= total(line),
{
    lemma_total_slid(line);
    lemma_total_merged(slid(line));
    lemma_total_slid(merged(slid(line)));
}

/// A move never adds to the sum of a line, and takes from it where it
/// overflows.
pub proof fn lemma_total_overflow(line: Seq<u32>)
    ensures
        total(merged(line)) <= total(line),
        merge_overflows(line) ==> total(merged(line)) < total(line),
        total(shifted(line)) <= total(line),
        shift_overflows(line) ==> total(shifted(line)) < total(line),
{
    lemma_total_merged_overflow(line);
    lemma_total_slid(line);
    lemma_total_merged_overflow(slid(line));
    lemma_total_slid(merged(slid(line)));
}

/// The merging pass never adds to the sum of a line, and takes from it where
/// it overflows.
proof fn lemma_total_merged_overflow(line: Seq<u32>)
    ensures
        total(merged(line)) <= total(line),
        merge_overflows(line) ==> total(merged(line)) < total(line),
    decreases line.len(),
{
    if line.len() >= 2 {
        if merges_at_front(line) {
            let rest = line.skip(2);
            lemma_total_merged_overflow(rest);
            lemma_total_short(doubled(line[0]), 0u32);
            lemma_total_short(line[0], line[1]);
            lemma_total_concat(seq![doubled(line[0]), 0u32], merged(rest));
            lemma_total_concat(seq![line[0], line[1]], rest);
            assert(line =~= seq![line[0], line[1]] + rest);
        } else {
            let rest = line.skip(1);
            lemma_total_merged_overflow(rest);
            lemma_total_short(line[0], 0u32);
            lemma_total_concat(seq![line[0]], merged(rest));
            lemma_total_concat(seq![line[0]], rest);
            assert(line =~= seq![line[0]] + rest);
        }
    }
}

// No tile merges twice.

/// Tiles that all stay as they are make up a line that arose from them.
pub proof fn lemma_fused_once_same(tiles: Seq<u32>)
    ensures
        fused_once(tiles, tiles),
    decreases tiles.len(),
{
    if tiles.len() > 0 {
        lemma_fused_once_same(tiles.skip(1));
    }
}

/// A tile that stays as it is, in front of tiles that were fused once.
proof fn lemma_fused_once_keep(value: u32, tiles: Seq<u32>, out: Seq<u32>)
    requires
        fused_once(tiles, out),
    ensures
        fused_once(seq![value] + tiles, seq![value] + out),
{
    let before = seq![value] + tiles;
    let after = seq![value] + out;
    assert(before.skip(1) =~= tiles);
    assert(after.skip(1) =~= out);
}

/// Two equal tiles that are fused, in front of tiles that were fused once.
proof fn lemma_fused_once_pair(value: u32, tiles: Seq<u32>, out: Seq<u32>)
    requires
        fused_once(tiles, out),
        value < 0x8000_0000,
    ensures
        fused_once(seq![value, value] + tiles, seq![doubled(value)] + out),
{
    let before = seq![value, value] + tiles;
    let after = seq![doubled(value)] + out;
    assert(before.skip(2) =~= tiles);
    assert(after.skip(1) =~= out);
    assert(after[0] == 2 * before[0]);
}

/// In the merging pass every tile stays as it is or is fused with one equal
/// neighbour, unless the pass overflows.
pub proof fn lemma_merged_fuses_once(line: Seq<u32>)
    requires
        !merge_overflows(line),
    ensures
        fused_once(tiles(line), tiles(merged(line))),
    decreases line.len(),
{
    if line.len() < 2 {
        lemma_fused_once_same(tiles(line));
    } else if merges_at_front(line) {
        let rest = line.skip(2);
        let value = line[0];
        lemma_merged_fuses_once(rest);
        assert(line =~= seq![value] + (seq![value] + rest));
        lemma_tiles_front(value, rest);
        lemma_tiles_front(value, seq![value] + rest);
        assert(merged(line) =~= seq![doubled(value)] + (seq![0u32] + merged(rest)));
        lemma_tiles_front(0u32, merged(rest));
        lemma_tiles_front(doubled(value), seq![0u32] + merged(rest));
        lemma_fused_once_pair(value, tiles(rest), tiles(merged(rest)));
        assert(seq![value] + (seq![value] + tiles(rest)) =~= seq![value, value] + tiles(rest));
    } else {
        let rest = line.skip(1);
        let value = line[0];
        lemma_merged_fuses_once(rest);
        assert(line =~= seq![value] + rest);
        lemma_tiles_front(value, rest);
        lemma_tiles_front(value, merged(rest));
        if value != 0 {
            lemma_fused_once_keep(value, tiles(rest), tiles(merged(rest)));
        }
    }
}

/// In a whole move every tile of a line stays as it is or is fused with one
/// equal neighbour, so no tile of the outcome is made of more than two,
/// unless the move overflows.
pub proof fn lemma_shifted_fuses_once(line: Seq<u32>)
    requires
        !shift_overflows(line),
    ensures
        fused_once(tiles(line), tiles(shifted(line))),
{
    lemma_merged_fuses_once(slid(line));
    lemma_slid(line);
    lemma_slid(merged(slid(line)));
}

} // verus!
