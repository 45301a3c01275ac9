//! One line of the board, read from the edge toward which the tiles move.
//!
//! A move treats each of the four lines alike: the tiles slide to the front,
//! equal neighbours merge once, and the tiles slide again to close the gaps.

use vstd::prelude::*;

verus! {

/// Twice `value`, reduced to 32 bits as a left shift by one does.
pub open spec fn doubled(value: u32) -> u32 {
    ((2 * value) % 0x1_0000_0000) as u32
}

/// `n` empty cells.
pub open spec fn zeros(n: nat) -> Seq<u32> {
    Seq::new(n, |i: int| 0u32)
}

/// The tiles of a line: its non-zero cells, in their order.
pub open spec fn tiles(line: Seq<u32>) -> Seq<u32>
    decreases line.len(),
{
    if line.len() == 0 {
        Seq::empty()
    } else if line.last() != 0 {
        tiles(line.drop_last()).push(line.last())
    } else {
        tiles(line.drop_last())
    }
}

/// The line after its tiles have slid to the front: the tiles in their order,
/// then as many empty cells as it takes to keep the length.
pub open spec fn slid(line: Seq<u32>) -> Seq<u32> {
    tiles(line) + zeros((line.len() - tiles(line).len()) as nat)
}

/// Whether the first two cells of the line merge: they hold equal tiles.
pub open spec fn merges_at_front(line: Seq<u32>) -> bool {
    line.len() >= 2 && line[0] != 0 && line[0] == line[1]
}

/// The line after one pass of merging, front to back: where a cell and its
/// successor hold equal tiles, the first takes twice the value and the second
/// is emptied; the pass goes on behind the pair, so no cell merges twice.
pub open spec fn merged(line: Seq<u32>) -> Seq<u32>
    decreases line.len(),
{
    if line.len() < 2 {
        line
    } else if merges_at_front(line) {
        seq![doubled(line[0]), 0u32] + merged(line.skip(2))
    } else {
        seq![line[0]] + merged(line.skip(1))
    }
}

/// Sum of the values that the merging pass creates.
pub open spec fn gain(line: Seq<u32>) -> int
    decreases line.len(),
{
    if line.len() < 2 {
        0
    } else if merges_at_front(line) {
        doubled(line[0]) + gain(line.skip(2))
    } else {
        gain(line.skip(1))
    }
}

/// Whether the merging pass doubles a value of which 32 bits cannot hold
/// twice as much, so that the new tile does not hold twice the value.
pub open spec fn merge_overflows(line: Seq<u32>) -> bool
    decreases line.len(),
{
    if line.len() < 2 {
        false
    } else if merges_at_front(line) {
        line[0] >= 0x8000_0000 || merge_overflows(line.skip(2))
    } else {
        merge_overflows(line.skip(1))
    }
}

/// The line after a whole move: slide, merge, slide.
pub open spec fn shifted(line: Seq<u32>) -> Seq<u32> {
    slid(merged(slid(line)))
}

/// Sum of the values that the merges of a whole move create.
pub open spec fn shift_gain(line: Seq<u32>) -> int {
    gain(slid(line))
}

/// Whether a whole move doubles a value of which 32 bits cannot hold twice
/// as much.
pub open spec fn shift_overflows(line: Seq<u32>) -> bool {
    merge_overflows(slid(line))
}

/// `n` as a `u32`, capped at the largest one.
pub open spec fn capped(n: int) -> u32 {
    if n >= u32::MAX {
        u32::MAX
    } else if n <= 0 {
        0
    } else {
        n as u32
    }
}

/// A line has no more tiles than cells.
pub proof fn lemma_tiles_len(line: Seq<u32>)
    ensures
        tiles(line).len() <= line.len(),
    decreases line.len(),
{
    if line.len() > 0 {
        lemma_tiles_len(line.drop_last());
    }
}

/// Sliding and merging keep the length of a line.
pub proof fn lemma_lengths(line: Seq<u32>)
    ensures
        slid(line).len() == line.len(),
        merged(line).len() == line.len(),
        shifted(line).len() == line.len(),
    decreases line.len(),
{
    lemma_tiles_len(line);
    lemma_merged_len(line);
    lemma_tiles_len(merged(slid(line)));
    lemma_merged_len(slid(line));
}

proof fn lemma_merged_len(line: Seq<u32>)
    ensures
        merged(line).len() == line.len(),
    decreases line.len(),
{
    if line.len() >= 2 {
        if merges_at_front(line) {
            lemma_merged_len(line.skip(2));
        } else {
            lemma_merged_len(line.skip(1));
        }
    }
}

/// The merging pass creates no negative values.
pub proof fn lemma_gain_bounds(line: Seq<u32>)
    ensures
        0 <= gain(line) <= line.len() * 0xffff_ffff,
    decreases line.len(),
{
    if line.len() >= 2 {
        if merges_at_front(line) {
            lemma_gain_bounds(line.skip(2));
        } else {
            lemma_gain_bounds(line.skip(1));
        }
    }
}

/// One more cell at the end of a line adds its tile, if it holds one.
proof fn lemma_tiles_take(line: Seq<u32>, n: int)
    requires
        0 <= n < line.len(),
    ensures
        tiles(line.take(n + 1)) == if line[n] != 0 {
            tiles(line.take(n)).push(line[n])
        } else {
            tiles(line.take(n))
        },
{
    assert(line.take(n + 1).drop_last() =~= line.take(n));
}

/// Slides the tiles of a line to its front.
pub fn slide_line(line: [u32; 4]) -> (out: [u32; 4])
    ensures
        out@ == slid(line@),
{
    let mut out = [0u32; 4];
    let mut filled: usize = 0;
    let mut next: usize = 0;
    while next < 4
        invariant
            filled <= next <= 4,
            out@.take(filled as int) == tiles(line@.take(next as int)),
            forall|k: int| filled <= k < 4 ==> out@[k] == 0,
        decreases 4 - next,
    {
        proof {
            lemma_tiles_take(line@, next as int);
        }
        if line[next] != 0 {
            out[filled] = line[next];
            assert(out@.take(filled + 1) =~= tiles(line@.take(next as int)).push(
                line@[next as int],
            ));
            filled += 1;
        } else {
            assert(out@.take(filled as int) =~= tiles(line@.take(next as int)));
        }
        next += 1;
    }
    assert(line@.take(4) =~= line@);
    assert(out@ =~= slid(line@));
    out
}

/// An empty cell at the front is passed over by the merging pass.
proof fn lemma_merged_empty_front(line: Seq<u32>)
    requires
        line.len() >= 1,
        line[0] == 0,
    ensures
        merged(line) == seq![0u32] + merged(line.skip(1)),
        gain(line) == gain(line.skip(1)),
{
    if line.len() == 1 {
        assert(line.skip(1) =~= Seq::<u32>::empty());
        assert(line =~= seq![0u32] + merged(line.skip(1)));
    }
}

/// Merges equal neighbours once, front to back, and adds up the values that
/// the merges create, capped at the largest `u32`.
pub fn merge_line(line: [u32; 4]) -> (out: ([u32; 4], u32))
    ensures
        out.0@ == merged(line@),
        out.1 == capped(gain(line@)),
{
    let mut cells = line;
    let mut points: u32 = 0;
    let ghost mut exact: int = 0;
    let mut at: usize = 0;
    assert(cells@.skip(0) =~= line@);
    assert(cells@.take(0) + merged(line@) =~= merged(line@));
    while at < 3
        invariant
            at <= 3,
            merged(line@) == cells@.take(at as int) + merged(cells@.skip(at as int)),
            gain(line@) == exact + gain(cells@.skip(at as int)),
            0 <= exact,
            points == capped(exact),
        decreases 3 - at,
    {
        let ghost before = cells@;
        let ghost rest = before.skip(at as int);
        let value = cells[at];
        assert(rest.skip(1) =~= before.skip(at + 1));
        assert(rest.skip(2) =~= before.skip(at + 2));
        if value != 0 && value == cells[at + 1] {
            let twice = value.wrapping_add(value);
            assert(twice == doubled(value));
            cells[at] = twice;
            cells[at + 1] = 0;
            points = points.saturating_add(twice);
            proof {
                exact = exact + twice;
                let after = cells@.skip(at + 1);
                lemma_merged_empty_front(after);
                assert(after.skip(1) =~= before.skip(at + 2));
                assert(cells@.take(at + 1) + (seq![0u32] + merged(before.skip(at + 2)))
                    =~= before.take(at as int) + (seq![twice, 0u32] + merged(
                    before.skip(at + 2),
                )));
            }
        } else {
            assert(!merges_at_front(rest));
            assert(cells@.take(at + 1) + merged(before.skip(at + 1)) =~= before.take(at as int)
                + (seq![value] + merged(before.skip(at + 1))));
        }
        at += 1;
    }
    assert(cells@.take(3) + cells@.skip(3) =~= cells@);
    (cells, points)
}

/// Carries out a whole move on one line: slide, merge, slide.
pub fn shift_line(line: [u32; 4]) -> (out: ([u32; 4], u32))
    ensures
        out.0@ == shifted(line@),
        out.1 == capped(shift_gain(line@)),
{
    let packed = slide_line(line);
    let (fused, points) = merge_line(packed);
    (slide_line(fused), points)
}

} // verus!
