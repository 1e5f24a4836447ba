//! What the console grid shows: which cells of the beat grid hold a note,
//! how far the grid extends, and how labels are cut to fit their column.
//!
//! Positions are in microbeats.
use vstd::prelude::*;
use vstd::string::{StringExecFns, StringSliceAdditionalSpecFns};
use vstd::utf8::encode_utf8;
use crate::domain::midi::MidiSource;
use crate::domain::time::{tick_microbeats, ticks_to_microbeats, TimeSignature, MICROBEATS_PER_BEAT};
use crate::pipeline::diagnostics::{bar_index, cell_in_bar, position_ok};

verus! {

/// Label used for the audio onset row in the combined grid.
pub const AUDIO_ROW_LABEL: &'static str = "audio";

/// Configuration for the console onset grid renderer.
#[derive(Debug, Clone, Copy, PartialEq, Eq)]
pub struct ConsoleRendererConfig {
    /// Beat subdivision used for columns, in microbeats:
    /// a quarter beat for 16th notes, half a beat for 8th notes.
    pub subdivision: i128,
    /// Maximum number of bars to print per visual row before wrapping.
    pub bars_per_row: usize,
    /// Whether to show the onset strength alongside the marker.
    pub show_strength: bool,
}

impl Default for ConsoleRendererConfig {
    /// 16th-note columns, four bars per row, no strengths.
    fn default() -> (r: Self)
        ensures
            r.subdivision == MICROBEATS_PER_BEAT / 4,
            r.bars_per_row == 4,
            !r.show_strength,
    {
        Self { subdivision: 250_000, bars_per_row: 4, show_strength: false }
    }
}

/// Cuts a label to fit a column of `max_len`: a label of at most `max_len`
/// bytes is kept whole; a longer one keeps its first `max_len - 1` bytes,
/// followed by an ellipsis.
pub fn truncate_label(s: &str, max_len: usize) -> (r: String)
    requires
        s.spec_bytes().len() <= usize::MAX,
        s.spec_bytes().len() > max_len ==> max_len >= 1 && vstd::utf8::is_char_boundary(
            s.spec_bytes(),
            max_len - 1,
        ),
    ensures
        s.spec_bytes().len() <= max_len ==> r@ == s@,
        s.spec_bytes().len() > max_len ==> {
            &&& r@.len() > 0
            &&& r@.last() == '\u{2026}'
            &&& encode_utf8(r@.drop_last()) == s.spec_bytes().subrange(0, max_len - 1)
        },
{
    if s.len() <= max_len {
        s.to_owned()
    } else {
        let (head, _) = s.split_at(max_len - 1);
        let mut r = head.to_owned();
        proof {
            reveal_strlit("\u{2026}");
        }
        r.append("\u{2026}");
        assert(r@.drop_last() =~= head@);
        r
    }
}

/// The grid cells, as (bar, column), of the positions that fall on the grid
/// (non-negative ones), in order; bar numbers are held at `usize::MAX`.
pub open spec fn grid_cells(positions: Seq<int>, bar: int, subdivision: int) -> Seq<(int, int)>
    decreases positions.len(),
{
    if positions.len() == 0 {
        seq![]
    } else {
        let before = grid_cells(positions.drop_last(), bar, subdivision);
        let p = positions.last();
        if p < 0 {
            before
        } else {
            before.push((bar_index(p, bar), cell_in_bar(p, bar, subdivision)))
        }
    }
}

/// Global positions of the events of a source placed at `offset`.
pub open spec fn placed_positions(source: MidiSource, offset: int) -> Seq<int> {
    Seq::new(
        source.events@.len(),
        |e: int| tick_microbeats(source.events@[e].tick as int, source.ppq as int) + offset,
    )
}

/// Integer view of grid cells.
pub open spec fn cells_view(cells: Seq<(i128, i128)>) -> Seq<(int, int)> {
    Seq::new(cells.len(), |i: int| (cells[i].0 as int, cells[i].1 as int))
}

fn cell_of(position: i128, bar: i128, subdivision: i128) -> (r: (i128, i128))
    requires
        0 < bar <= 255 * MICROBEATS_PER_BEAT,
        0 < subdivision <= 0x1000_0000_0000_0000,
        0 <= position <= 0x4_0000_0000_0000_0000_0000_0000,
    ensures
        r.0 == bar_index(position as int, bar as int),
        r.1 == cell_in_bar(position as int, bar as int, subdivision as int),
{
    let cells = (2 * bar + subdivision) / (2 * subdivision);
    let radix: i128 = if cells > 0 { cells } else { 1 };
    let within = position % bar;
    let raw = (2 * within + subdivision) / (2 * subdivision);
    let sub = if raw < radix - 1 { raw } else { radix - 1 };
    let quotient = position / bar;
    let index: i128 = if quotient < usize::MAX as i128 { quotient } else { usize::MAX as i128 };
    (index, sub)
}

/// The grid cells, as (bar, column), in which the notes of a source placed
/// at `offset` start. Notes before the start of the timeline are left out.
pub fn source_grid_cells(source: &MidiSource, offset: i128, time_signature: TimeSignature, subdivision: i128) -> (r: Vec<(i128, i128)>)
    requires
        source.ppq > 0,
        position_ok(offset as int),
        time_signature.numerator > 0,
        0 < subdivision <= 0x1000_0000_0000_0000,
    ensures
        cells_view(r@) == grid_cells(
            placed_positions(*source, offset as int),
            time_signature.numerator * MICROBEATS_PER_BEAT,
            subdivision as int,
        ),
{
    let bar = time_signature.bar_microbeats();
    let ghost positions = placed_positions(*source, offset as int);
    let mut cells: Vec<(i128, i128)> = Vec::new();
    let mut e: usize = 0;
    while e < source.events.len()
        invariant
            e <= source.events@.len(),
            source.ppq > 0,
            position_ok(offset as int),
            bar == time_signature.numerator * MICROBEATS_PER_BEAT,
            0 < bar <= 255 * MICROBEATS_PER_BEAT,
            0 < subdivision <= 0x1000_0000_0000_0000,
            positions == placed_positions(*source, offset as int),
            cells_view(cells@) == grid_cells(positions.take(e as int), bar as int, subdivision as int),
        decreases source.events@.len() - e,
    {
        let local = ticks_to_microbeats(source.events[e].tick, source.ppq);
        assert(local <= 0x1_0000_0000_0000_0000 * 1_000_000 + 1) by (nonlinear_arith)
            requires
                local == tick_microbeats(source.events@[e as int].tick as int, source.ppq as int),
                source.ppq > 0,
                source.events@[e as int].tick <= 0xffff_ffff_ffff_ffff,
        ;
        let p = local + offset;
        assert(positions.take(e + 1).drop_last() =~= positions.take(e as int));
        assert(positions.take(e + 1).last() == p);
        if p >= 0 {
            let c = cell_of(p, bar, subdivision);
            let ghost before = cells@;
            cells.push(c);
            assert(cells_view(cells@) =~= cells_view(before).push((c.0 as int, c.1 as int)));
        }
        e = e + 1;
    }
    assert(positions.take(source.events@.len() as int) =~= positions);
    cells
}

/// The offset of the source at `i`: its entry in `offsets`, or 0 where the
/// list has none.
pub open spec fn offset_or_zero(offsets: Seq<i128>, i: int) -> int {
    if 0 <= i < offsets.len() {
        offsets[i] as int
    } else {
        0
    }
}

/// The grid cells of each source, the source at `i` placed at its offset
/// (at 0 where `offsets` has no entry for it).
pub fn sources_grid_cells(
    sources: &[MidiSource],
    offsets: &[i128],
    time_signature: TimeSignature,
    subdivision: i128,
) -> (r: Vec<Vec<(i128, i128)>>)
    requires
        forall|i: int| 0 <= i < sources@.len() ==> #[trigger] sources@[i].ppq > 0,
        forall|i: int| 0 <= i < offsets@.len() ==> position_ok(#[trigger] offsets@[i] as int),
        time_signature.numerator > 0,
        0 < subdivision <= 0x1000_0000_0000_0000,
    ensures
        r@.len() == sources@.len(),
        forall|i: int| 0 <= i < sources@.len() ==> cells_view(#[trigger] r@[i]@) == grid_cells(
            placed_positions(sources@[i], offset_or_zero(offsets@, i)),
            time_signature.numerator * MICROBEATS_PER_BEAT,
            subdivision as int,
        ),
{
    let mut rows: Vec<Vec<(i128, i128)>> = Vec::new();
    let mut i: usize = 0;
    while i < sources.len()
        invariant
            i <= sources@.len(),
            rows@.len() == i,
            forall|q: int| 0 <= q < sources@.len() ==> #[trigger] sources@[q].ppq > 0,
            forall|q: int| 0 <= q < offsets@.len() ==> position_ok(#[trigger] offsets@[q] as int),
            time_signature.numerator > 0,
            0 < subdivision <= 0x1000_0000_0000_0000,
            forall|q: int| 0 <= q < i ==> cells_view(#[trigger] rows@[q]@) == grid_cells(
                placed_positions(sources@[q], offset_or_zero(offsets@, q)),
                time_signature.numerator * MICROBEATS_PER_BEAT,
                subdivision as int,
            ),
        decreases sources@.len() - i,
    {
        let offset: i128 = if i < offsets.len() { offsets[i] } else { 0 };
        proof {
            assert(sources@[i as int].ppq > 0);
            if i < offsets@.len() {
                assert(position_ok(offsets@[i as int] as int));
            }
        }
        let row = source_grid_cells(&sources[i], offset, time_signature, subdivision);
        rows.push(row);
        i = i + 1;
    }
    rows
}

/// Offsets padded with zeros: `offsets` followed by `n` entries of 0.
pub open spec fn zero_padded(offsets: Seq<i128>, n: nat) -> Seq<i128> {
    offsets + Seq::new(n, |k: int| 0i128)
}

/// A source without an offset is drawn as one at offset 0: giving the
/// missing offsets as zeros changes neither where the placed sources end nor
/// any source's grid cells.
pub proof fn lemma_missing_offsets_are_zero(
    sources: Seq<MidiSource>,
    offsets: Seq<i128>,
    n: nat,
    bar: int,
    subdivision: int,
)
    ensures
        placed_end(sources, zero_padded(offsets, n)) == placed_end(sources, offsets),
        forall|i: int| 0 <= i < sources.len() ==> grid_cells(
            placed_positions(sources[i], #[trigger] offset_or_zero(zero_padded(offsets, n), i)),
            bar,
            subdivision,
        ) == grid_cells(placed_positions(sources[i], offset_or_zero(offsets, i)), bar, subdivision),
    decreases sources.len(),
{
    let padded = zero_padded(offsets, n);
    assert forall|i: int| 0 <= i implies #[trigger] offset_or_zero(padded, i) == offset_or_zero(offsets, i) by {
        if i < offsets.len() {
            assert(padded[i] == offsets[i]);
        } else if i < padded.len() {
            assert(padded[i] == 0i128);
        }
    }
    if sources.len() > 0 {
        lemma_missing_offsets_are_zero(sources.drop_last(), offsets, n, bar, subdivision);
        assert(offset_or_zero(padded, sources.len() - 1) == offset_or_zero(offsets, sources.len() - 1));
    }
}

/// Where the placed sources end: the latest end of a source placed at its
/// offset, and at least 0.
pub open spec fn placed_end(sources: Seq<MidiSource>, offsets: Seq<i128>) -> int
    decreases sources.len(),
{
    if sources.len() == 0 {
        0
    } else {
        let before = placed_end(sources.drop_last(), offsets);
        let offset = offset_or_zero(offsets, sources.len() - 1);
        let end = tick_microbeats(sources.last().length_ticks as int, sources.last().ppq as int) + offset;
        if end > before { end } else { before }
    }
}

/// Where the placed sources end on the timeline (a source without an offset
/// is placed at 0); never before 0.
pub fn sources_end(sources: &[MidiSource], offsets: &[i128]) -> (r: i128)
    requires
        forall|i: int| 0 <= i < sources@.len() ==> #[trigger] sources@[i].ppq > 0,
        forall|i: int| 0 <= i < offsets@.len() ==> position_ok(#[trigger] offsets@[i] as int),
    ensures
        r == placed_end(sources@, offsets@),
{
    let mut end: i128 = 0;
    let mut i: usize = 0;
    while i < sources.len()
        invariant
            i <= sources@.len(),
            forall|q: int| 0 <= q < sources@.len() ==> #[trigger] sources@[q].ppq > 0,
            forall|q: int| 0 <= q < offsets@.len() ==> position_ok(#[trigger] offsets@[q] as int),
            end == placed_end(sources@.take(i as int), offsets@),
            0 <= end <= 0x2_0000_0000_0000_0000_0000_0000,
        decreases sources@.len() - i,
    {
        let source = &sources[i];
        assert(sources@[i as int].ppq > 0);
        let offset: i128 = if i < offsets.len() { offsets[i] } else { 0 };
        proof {
            if i < offsets@.len() {
                assert(position_ok(offsets@[i as int] as int));
            }
        }
        let length = source.length_microbeats();
        assert(length <= 0x1_0000_0000_0000_0000 * 1_000_000 + 1) by (nonlinear_arith)
            requires
                length == tick_microbeats(source.length_ticks as int, source.ppq as int),
                source.ppq > 0,
                source.length_ticks <= 0xffff_ffff_ffff_ffff,
        ;
        let e = length + offset;
        assert(sources@.take(i + 1).drop_last() =~= sources@.take(i as int));
        if e > end {
            end = e;
        }
        i = i + 1;
    }
    assert(sources@.take(sources@.len() as int) =~= sources@);
    end
}

/// Number of whole bars needed to show `span` microbeats: `span / bar`
/// rounded up.
pub fn bars_to_show(span: i128, time_signature: TimeSignature) -> (r: i128)
    requires
        time_signature.numerator > 0,
        0 <= span <= 0x2_0000_0000_0000_0000_0000_0000,
    ensures
        r == (span + time_signature.numerator * MICROBEATS_PER_BEAT - 1) / (time_signature.numerator
            * MICROBEATS_PER_BEAT),
{
    let bar = time_signature.bar_microbeats();
    (span + bar - 1) / bar
}

/// The bar ranges `(first, end)` of the printed rows: rows of
/// `bars_per_row` bars, the last one possibly shorter, covering bars
/// `0..total_bars` in order.
pub fn grid_rows(total_bars: usize, bars_per_row: usize) -> (r: Vec<(usize, usize)>)
    requires
        bars_per_row > 0,
        total_bars + bars_per_row <= usize::MAX,
    ensures
        r@.len() == (total_bars + bars_per_row - 1) / (bars_per_row as int),
        forall|k: int|
            0 <= k < r@.len() ==> #[trigger] r@[k] == (
                (k * bars_per_row) as usize,
                if (k + 1) * bars_per_row < total_bars { ((k + 1) * bars_per_row) as usize } else { total_bars },
            ),
{
    let rows = (total_bars + bars_per_row - 1) / bars_per_row;
    let mut r: Vec<(usize, usize)> = Vec::new();
    let mut k: usize = 0;
    while k < rows
        invariant
            bars_per_row > 0,
            total_bars + bars_per_row <= usize::MAX,
            rows == (total_bars + bars_per_row - 1) / (bars_per_row as int),
            k <= rows,
            r@.len() == k,
            forall|q: int|
                0 <= q < k ==> #[trigger] r@[q] == (
                    (q * bars_per_row) as usize,
                    if (q + 1) * bars_per_row < total_bars { ((q + 1) * bars_per_row) as usize } else { total_bars },
                ),
        decreases rows - k,
    {
        assert((k + 1) * bars_per_row <= total_bars + bars_per_row - 1) by (nonlinear_arith)
            requires
                k < rows,
                rows == (total_bars + bars_per_row - 1) / (bars_per_row as int),
                bars_per_row > 0,
        ;
        assert(k * bars_per_row + bars_per_row == (k + 1) * bars_per_row) by (nonlinear_arith);
        let start = k * bars_per_row;
        let next = start + bars_per_row;
        let end = if next < total_bars { next } else { total_bars };
        r.push((start, end));
        assert((k + 1) * bars_per_row == k * bars_per_row + bars_per_row) by (nonlinear_arith);
        k = k + 1;
    }
    r
}

/// The rows cover the bars in order without gaps or overlaps: each row
/// starts where the previous one ended, holds between one and
/// `bars_per_row` bars, and the last one ends at the last bar.
pub proof fn lemma_grid_rows_partition(total_bars: int, bars_per_row: int, rows: Seq<(usize, usize)>)
    requires
        bars_per_row > 0,
        total_bars >= 0,
        rows.len() == (total_bars + bars_per_row - 1) / bars_per_row,
        forall|k: int|
            0 <= k < rows.len() ==> #[trigger] rows[k] == (
                (k * bars_per_row) as usize,
                if (k + 1) * bars_per_row < total_bars { ((k + 1) * bars_per_row) as usize } else { total_bars as usize },
            ),
        total_bars + bars_per_row <= usize::MAX,
    ensures
        rows.len() > 0 ==> rows[0].0 == 0 && rows.last().1 == total_bars,
        rows.len() == 0 <==> total_bars == 0,
        forall|k: int| 0 < k < rows.len() ==> #[trigger] rows[k].0 == rows[k - 1].1,
        forall|k: int| 0 <= k < rows.len() ==> rows[k].0 < #[trigger] rows[k].1 <= rows[k].0 + bars_per_row,
{
    let n = rows.len() as int;
    assert(n * bars_per_row <= total_bars + bars_per_row - 1 < (n + 1) * bars_per_row) by (nonlinear_arith)
        requires
            n == (total_bars + bars_per_row - 1) / bars_per_row,
            bars_per_row > 0,
            total_bars >= 0,
    ;
    assert forall|k: int| 0 <= k < n implies rows[k].0 < #[trigger] rows[k].1 <= rows[k].0 + bars_per_row by {
        assert(k * bars_per_row < total_bars) by (nonlinear_arith)
            requires
                0 <= k < n,
                n * bars_per_row <= total_bars + bars_per_row - 1,
                bars_per_row > 0,
        ;
        assert((k + 1) * bars_per_row == k * bars_per_row + bars_per_row) by (nonlinear_arith);
        assert(0 <= k * bars_per_row) by (nonlinear_arith)
            requires 0 <= k, bars_per_row > 0;
    }
    assert forall|k: int| 0 < k < n implies #[trigger] rows[k].0 == rows[k - 1].1 by {
        assert(k * bars_per_row < total_bars) by (nonlinear_arith)
            requires
                0 <= k < n,
                n * bars_per_row <= total_bars + bars_per_row - 1,
                bars_per_row > 0,
        ;
        assert((k - 1 + 1) * bars_per_row == k * bars_per_row) by (nonlinear_arith);
        assert(0 <= k * bars_per_row) by (nonlinear_arith)
            requires 0 <= k, bars_per_row > 0;
    }
    if n > 0 {
        assert((n - 1 + 1) * bars_per_row >= total_bars) by (nonlinear_arith)
            requires
                total_bars + bars_per_row - 1 < (n + 1) * bars_per_row,
                bars_per_row > 0,
        ;
        assert(0 * bars_per_row == 0);
    } else {
        assert(total_bars + bars_per_row - 1 < bars_per_row) by (nonlinear_arith)
            requires
                total_bars + bars_per_row - 1 < (n + 1) * bars_per_row,
                n == 0,
        ;
    }
    if total_bars == 0 {
        assert((bars_per_row - 1) / bars_per_row == 0) by (nonlinear_arith)
            requires bars_per_row > 0;
    }
}

} // verus!
