//! Conway's Game of Life on a fixed-size grid.
//!
//! The grid lives on either a bounded (`Finite`) or wrapping (`Torus`)
//! surface, advances by whole generations (a full-scan `tick` or an
//! incremental `next_tick` driven by the recorded change set), and can
//! exchange patterns through the run-length-encoded (RLE) text format.

use vstd::assert_seqs_equal;
use vstd::prelude::*;

pub mod number_hashset;
pub mod parser;

verus! {

/// The state of one grid cell.
#[derive(Clone, Copy, Debug, PartialEq, Eq, Structural)]
pub enum Cell {
    Dead,
    Alive,
}

/// Edge topology: `Finite` treats off-grid neighbors as dead,
/// `Torus` wraps every coordinate around the opposite edge.
#[derive(Clone, Copy, Debug, PartialEq, Eq, Structural)]
pub enum Mode {
    Finite,
    Torus,
}

/// Rejected grid construction: the dimensions are not positive,
/// or the cell count does not fit the index type.
#[derive(Clone, Copy, Debug, PartialEq, Eq, Structural)]
pub enum ConstructionError {
    InvalidDimensions,
}

/// Mathematical model of a [`World`]: dimensions, topology, the cell
/// buffer as a sequence of alive-flags in row-major order, the
/// generation counter, and the recorded changed-cell indices.
#[verifier::ext_equal]
pub ghost struct WorldView {
    pub width: int,
    pub height: int,
    pub mode: Mode,
    pub cells: Seq<bool>,
    pub generation: nat,
    pub changed: Seq<int>,
}

/// Dimensions a grid can be built with: positive, and with a total
/// cell count that fits an `i32` index.
pub open spec fn valid_dims(w: int, h: int) -> bool {
    0 < w && 0 < h && w * h <= i32::MAX as int
}

/// Well-formedness of a grid model: valid dimensions, a buffer of
/// exactly `width * height` cells, and recorded indices in range.
pub open spec fn wf_view(v: WorldView) -> bool {
    &&& valid_dims(v.width, v.height)
    &&& v.cells.len() == v.width * v.height
    &&& forall|k: int|
        0 <= k < v.changed.len() ==> 0 <= #[trigger] v.changed[k] < v.width * v.height
}

/// The freshly constructed grid: all cells dead, `Finite` mode,
/// generation zero, nothing recorded as changed.
pub open spec fn blank(w: int, h: int) -> WorldView {
    WorldView {
        width: w,
        height: h,
        mode: Mode::Finite,
        cells: Seq::new((w * h) as nat, |i: int| false),
        generation: 0,
        changed: Seq::empty(),
    }
}

/// Row-major linear index of `(r, c)` after wrapping each coordinate
/// into range. `%` on `int` is Euclidean, so this is total wraparound;
/// the executable `get_index` realizes it for coordinates no more than
/// one grid-length below zero.
pub open spec fn spec_index(v: WorldView, r: int, c: int) -> int {
    (r % v.height) * v.width + (c % v.width)
}

/// A sequence of `i32` indices as mathematical integers.
pub open spec fn int_seq(s: Seq<i32>) -> Seq<int> {
    s.map(|_i: int, x: i32| x as int)
}

/// A sequence of cells as alive-flags.
pub open spec fn alive_seq(s: Seq<Cell>) -> Seq<bool> {
    s.map(|_i: int, c: Cell| c is Alive)
}

pub open spec fn in_grid(v: WorldView, r: int, c: int) -> bool {
    0 <= r < v.height && 0 <= c < v.width
}

/// Whether the Moore neighbor at offset `(dr, dc)` of `(r, c)` is
/// alive: under `Torus` the coordinate wraps, under `Finite` an
/// off-grid neighbor counts as dead.
pub open spec fn neighbor_alive(v: WorldView, r: int, c: int, dr: int, dc: int) -> bool {
    match v.mode {
        Mode::Torus => v.cells[spec_index(v, r + dr, c + dc)],
        Mode::Finite => in_grid(v, r + dr, c + dc) && v.cells[(r + dr) * v.width + (c + dc)],
    }
}

pub open spec fn b2i(b: bool) -> int {
    if b {
        1
    } else {
        0
    }
}

/// Number of live cells among the 8 Moore neighbors of `(r, c)`.
pub open spec fn live_neighbors(v: WorldView, r: int, c: int) -> int {
    b2i(neighbor_alive(v, r, c, -1, -1)) + b2i(neighbor_alive(v, r, c, -1, 0)) + b2i(
        neighbor_alive(v, r, c, -1, 1),
    ) + b2i(neighbor_alive(v, r, c, 0, -1)) + b2i(neighbor_alive(v, r, c, 0, 1)) + b2i(
        neighbor_alive(v, r, c, 1, -1),
    ) + b2i(neighbor_alive(v, r, c, 1, 0)) + b2i(neighbor_alive(v, r, c, 1, 1))
}

/// Conway's rule: a live cell survives with 2 or 3 live neighbors, a
/// dead cell is born with exactly 3; everything else is dead.
pub open spec fn life_rule(alive: bool, n: int) -> bool {
    n == 3 || (alive && n == 2)
}

/// The next state of the cell at linear index `i`.
pub open spec fn next_at(v: WorldView, i: int) -> bool {
    life_rule(v.cells[i], live_neighbors(v, i / v.width, i % v.width))
}

/// The whole next generation of the buffer.
pub open spec fn full_next(v: WorldView) -> Seq<bool> {
    Seq::new(v.cells.len(), |i: int| next_at(v, i))
}

/// `ch` records exactly the indices where `pre` and `post` differ,
/// each at most once, all in range.
pub open spec fn changed_exact(pre: Seq<bool>, post: Seq<bool>, ch: Seq<int>) -> bool {
    &&& forall|j: int| 0 <= j < post.len() ==> ((#[trigger] ch.contains(j)) <==> pre[j] != post[j])
    &&& forall|a: int, b: int| 0 <= a < b < ch.len() ==> ch[a] != ch[b]
    &&& forall|k: int| 0 <= k < ch.len() ==> 0 <= #[trigger] ch[k] < post.len()
}

/// One full generation step: same dimensions and topology, the buffer
/// is the complete next generation, the generation counter advanced by
/// one, and the change list is exactly the set of flipped indices.
pub open spec fn stepped(pre: WorldView, post: WorldView) -> bool {
    &&& post.width == pre.width
    &&& post.height == pre.height
    &&& post.mode == pre.mode
    &&& post.generation == pre.generation + 1
    &&& post.cells == full_next(pre)
    &&& changed_exact(pre.cells, post.cells, post.changed)
}

/// Whether linear index `j` is what the Moore offset `(dr, dc)` from
/// the cell at linear index `i` resolves to under the grid's
/// topology. Under `Finite`, an offset that leaves the grid resolves
/// to nothing.
pub open spec fn resolves(v: WorldView, i: int, dr: int, dc: int, j: int) -> bool {
    match v.mode {
        Mode::Torus => j == spec_index(v, i / v.width + dr, i % v.width + dc),
        Mode::Finite => in_grid(v, i / v.width + dr, i % v.width + dc) && j == (i / v.width + dr)
            * v.width + (i % v.width + dc),
    }
}

/// Whether `j` is `i` itself or one of `i`'s topology-resolved Moore
/// neighbors: the indices a change at `i` can influence.
pub open spec fn in_closure(v: WorldView, i: int, j: int) -> bool {
    ||| resolves(v, i, -1, -1, j)
    ||| resolves(v, i, -1, 0, j)
    ||| resolves(v, i, -1, 1, j)
    ||| resolves(v, i, 0, -1, j)
    ||| resolves(v, i, 0, 0, j)
    ||| resolves(v, i, 0, 1, j)
    ||| resolves(v, i, 1, -1, j)
    ||| resolves(v, i, 1, 0, j)
    ||| resolves(v, i, 1, 1, j)
}

/// Whether `j` lies in the closure of one of the first `m` recorded
/// changed indices.
pub open spec fn candidate_upto(v: WorldView, m: int, j: int) -> bool {
    exists|k: int| 0 <= k < m && in_closure(v, #[trigger] v.changed[k], j)
}

/// Whether `j` lies in the closure of any recorded changed index:
/// the cells the incremental tick recomputes.
pub open spec fn is_candidate(v: WorldView, j: int) -> bool {
    candidate_upto(v, v.changed.len() as int, j)
}

/// Whether the incremental tick recomputes `j`: always, when nothing
/// is recorded as changed (the full-scan fallback), otherwise exactly
/// the candidates.
pub open spec fn is_recomputed(v: WorldView, j: int) -> bool {
    v.changed.len() == 0 || is_candidate(v, j)
}

/// The buffer the incremental tick produces: recomputed cells take
/// their next state, all others are copied unchanged.
pub open spec fn incr_next(v: WorldView) -> Seq<bool> {
    Seq::new(
        v.cells.len(),
        |j: int|
            if is_recomputed(v, j) {
                next_at(v, j)
            } else {
                v.cells[j]
            },
    )
}

/// One incremental generation step, the analogue of [`stepped`].
pub open spec fn incr_stepped(pre: WorldView, post: WorldView) -> bool {
    &&& post.width == pre.width
    &&& post.height == pre.height
    &&& post.mode == pre.mode
    &&& post.generation == pre.generation + 1
    &&& post.cells == incr_next(pre)
    &&& changed_exact(pre.cells, post.cells, post.changed)
}

/// The model after writing one cell: the buffer is updated at linear
/// index `i` and that index is recorded in the change list.
pub open spec fn with_write(v: WorldView, i: int, alive: bool) -> WorldView {
    WorldView { cells: v.cells.update(i, alive), changed: v.changed.push(i), ..v }
}

/// The model after `clear`: every cell dead, and the change list is
/// the whole index range (a renderer must redraw everything).
pub open spec fn cleared(v: WorldView) -> WorldView {
    WorldView {
        cells: Seq::new(v.cells.len(), |i: int| false),
        changed: Seq::new(v.cells.len(), |i: int| i),
        ..v
    }
}

/// The model after `resize(nw, nh)`: a fresh grid of the new shape
/// with the same topology, generation zero, the overlapping top-left
/// region copied, and the copied cells recorded in row-major order.
pub open spec fn resized(v: WorldView, nw: int, nh: int) -> WorldView {
    let cw = if nw < v.width {
        nw
    } else {
        v.width
    };
    let ch = if nh < v.height {
        nh
    } else {
        v.height
    };
    WorldView {
        width: nw,
        height: nh,
        mode: v.mode,
        generation: 0,
        cells: Seq::new(
            (nw * nh) as nat,
            |i: int| i / nw < ch && i % nw < cw && v.cells[(i / nw) * v.width + (i % nw)],
        ),
        changed: Seq::new((ch * cw) as nat, |k: int| (k / cw) * nw + (k % cw)),
    }
}

/// The cell at in-range coordinates, without wrapping.
pub open spec fn alive_at(v: WorldView, r: int, c: int) -> bool {
    v.cells[r * v.width + c]
}

pub open spec fn row_has_alive(v: WorldView, r: int) -> bool {
    exists|c: int| 0 <= c < v.width && #[trigger] alive_at(v, r, c)
}

pub open spec fn col_has_alive(v: WorldView, c: int) -> bool {
    exists|r: int| 0 <= r < v.height && #[trigger] alive_at(v, r, c)
}

/// The first row at or below `r` holding a live cell.
pub open spec fn sp_first_row(v: WorldView, r: int) -> Option<int>
    decreases v.height - r when 0 <= r <= v.height
{
    if r >= v.height {
        None
    } else if row_has_alive(v, r) {
        Some(r)
    } else {
        sp_first_row(v, r + 1)
    }
}

/// The last row at or above `r` holding a live cell.
pub open spec fn sp_last_row(v: WorldView, r: int) -> Option<int>
    decreases r + 1 when r < v.height
{
    if r < 0 {
        None
    } else if row_has_alive(v, r) {
        Some(r)
    } else {
        sp_last_row(v, r - 1)
    }
}

/// The first column at or right of `c` holding a live cell.
pub open spec fn sp_first_col(v: WorldView, c: int) -> Option<int>
    decreases v.width - c when 0 <= c <= v.width
{
    if c >= v.width {
        None
    } else if col_has_alive(v, c) {
        Some(c)
    } else {
        sp_first_col(v, c + 1)
    }
}

/// The last column at or left of `c` holding a live cell.
pub open spec fn sp_last_col(v: WorldView, c: int) -> Option<int>
    decreases c + 1 when c < v.width
{
    if c < 0 {
        None
    } else if col_has_alive(v, c) {
        Some(c)
    } else {
        sp_last_col(v, c - 1)
    }
}

/// Decimal digits of a non-negative number, as ASCII bytes.
pub open spec fn dec_rep(n: int) -> Seq<u8>
    decreases n when n >= 0
{
    if n < 10 {
        seq![(48 + n) as u8]
    } else {
        dec_rep(n / 10).push((48 + n % 10) as u8)
    }
}

/// Decimal digits of a signed number, as ASCII bytes.
pub open spec fn dec_int(x: int) -> Seq<u8> {
    if x < 0 {
        seq![45u8] + dec_rep(-x)
    } else {
        dec_rep(x)
    }
}

/// End of the run of equal cells beginning at `(r, c)`, capped at
/// `hi`.
pub open spec fn run_end(v: WorldView, r: int, c: int, hi: int) -> int
    decreases hi - c when c < hi
{
    if c + 1 >= hi {
        hi
    } else if alive_at(v, r, c + 1) != alive_at(v, r, c) {
        c + 1
    } else {
        run_end(v, r, c + 1, hi)
    }
}

proof fn lemma_run_end_bounds(v: WorldView, r: int, c: int, hi: int)
    requires
        c < hi,
    ensures
        c < run_end(v, r, c, hi) <= hi,
        forall|x: int| c <= x < run_end(v, r, c, hi) ==> alive_at(v, r, x) == alive_at(v, r, c),
    decreases hi - c,
{
    if c + 1 >= hi {
    } else if alive_at(v, r, c + 1) != alive_at(v, r, c) {
    } else {
        lemma_run_end_bounds(v, r, c + 1, hi);
    }
}

/// One exported row: maximal runs of equal cells over the columns
/// `[c, hi)` as `<count><tag>` tokens, with a trailing dead run
/// omitted.
pub open spec fn sp_row_body(v: WorldView, r: int, c: int, hi: int) -> Seq<u8>
    decreases hi - c when c <= hi
{
    if c >= hi {
        Seq::empty()
    } else {
        let e = run_end(v, r, c, hi);
        if !(c < e <= hi) {
            Seq::empty()
        } else if !alive_at(v, r, c) && e == hi {
            Seq::empty()
        } else {
            let tok = dec_rep(e - c) + seq![
                if alive_at(v, r, c) {
                    111u8
                } else {
                    98u8
                },
            ];
            if e >= hi {
                tok
            } else {
                tok + sp_row_body(v, r, e, hi)
            }
        }
    }
}

/// The exported rows `[r_lo, r_hi)`, separated by `$`.
pub open spec fn sp_body(v: WorldView, r_lo: int, r_hi: int, c_lo: int, c_hi: int) -> Seq<u8>
    decreases r_hi - r_lo when r_lo <= r_hi
{
    if r_lo >= r_hi {
        Seq::empty()
    } else if r_lo + 1 >= r_hi {
        sp_row_body(v, r_lo, c_lo, c_hi)
    } else {
        sp_row_body(v, r_lo, c_lo, c_hi) + seq![36u8] + sp_body(v, r_lo + 1, r_hi, c_lo, c_hi)
    }
}

/// The full exported text, as bytes: empty when no cell is alive,
/// otherwise an `#R` origin comment giving the bounding box's offset
/// from the grid center, the header, the body, and the final `!`.
pub open spec fn export_bytes(v: WorldView) -> Seq<u8> {
    match sp_first_row(v, 0) {
        None => Seq::empty(),
        Some(fr) => {
            match (sp_last_row(v, v.height - 1), sp_first_col(v, 0), sp_last_col(v, v.width - 1)) {
                (Some(lr), Some(fc), Some(lc)) => seq![35u8, 82u8, 32u8] + dec_int(
                    fc - v.width / 2,
                ) + seq![32u8] + dec_int(fr - v.height / 2) + seq![10u8, 120u8, 32u8, 61u8, 32u8]
                    + dec_rep(lc - fc + 1) + seq![44u8, 32u8, 121u8, 32u8, 61u8, 32u8] + dec_rep(
                    lr - fr + 1,
                ) + seq![10u8] + sp_body(v, fr, lr + 1, fc, lc + 1) + seq![33u8],
                _ => Seq::empty(),
            }
        },
    }
}

/// The full exported text, as characters.
pub open spec fn export_text(v: WorldView) -> Seq<char> {
    export_bytes(v).map(|_i: int, b: u8| b as char)
}

/// Rejected plaintext pattern input.
#[derive(Clone, Copy, Debug, PartialEq, Eq, Structural)]
pub enum PlaintextError {
    BadCharacter,
    RaggedRows,
}

/// Where a loader cursor saturates: one past the largest addressable
/// coordinate. A cursor at the cap can never write again, so exact
/// positions beyond it do not matter.
pub open spec fn cursor_cap() -> int {
    0x8000_0000
}

pub open spec fn cap_cursor(x: int) -> int {
    if x > cursor_cap() {
        cursor_cap()
    } else {
        x
    }
}

/// Whether a loader cursor names a cell `set_cell` can address.
pub open spec fn loader_writable(v: WorldView, j: int, i: int) -> bool {
    -v.height <= j && j <= i32::MAX as int && -v.width <= i && i <= i32::MAX as int
}

/// Write one run of `count` equal cells starting at cursor `(j, i)`;
/// returns the grid and the advanced column cursor. Cells outside the
/// addressable window are skipped; once the column cursor passes the
/// window it saturates in one step.
pub open spec fn apply_cells(v: WorldView, j: int, i: int, count: nat, alive: bool) -> (
    WorldView,
    int,
)
    decreases count,
{
    if count == 0 {
        (v, i)
    } else if i > i32::MAX as int {
        (v, cap_cursor(i + count))
    } else {
        let v1 = if loader_writable(v, j, i) {
            with_write(v, spec_index(v, j, i), alive)
        } else {
            v
        };
        apply_cells(v1, j, i + 1, (count - 1) as nat, alive)
    }
}

/// Replay a parsed run list onto the grid: `$` runs advance the row
/// cursor and reset the column cursor to `x0`; `b`/`o` runs write
/// dead/alive cells.
pub open spec fn apply_runs(
    v: WorldView,
    runs: Seq<crate::parser::RleTagSequence>,
    x0: int,
    j: int,
    i: int,
) -> WorldView
    decreases runs.len(),
{
    if runs.len() == 0 {
        v
    } else {
        match runs[0].1 {
            crate::parser::RleTag::NextLine => apply_runs(
                v,
                runs.drop_first(),
                x0,
                cap_cursor(j + runs[0].0),
                x0,
            ),
            crate::parser::RleTag::Dead => {
                let p = apply_cells(v, j, i, runs[0].0 as nat, false);
                apply_runs(p.0, runs.drop_first(), x0, j, p.1)
            },
            crate::parser::RleTag::Alive => {
                let p = apply_cells(v, j, i, runs[0].0 as nat, true);
                apply_runs(p.0, runs.drop_first(), x0, j, p.1)
            },
        }
    }
}

/// The first `#P`/`#R` coordinates comment, if any.
pub open spec fn sp_first_coords(cs: Seq<crate::parser::CommentV>) -> Option<(int, int)>
    decreases cs.len(),
{
    if cs.len() == 0 {
        None
    } else {
        match cs[0] {
            crate::parser::CommentV::Coordinates(x, y) => Some((x, y)),
            _ => sp_first_coords(cs.drop_first()),
        }
    }
}

/// The model after loading a parsed pattern. With an explicit
/// coordinates comment the pattern's top-left corner sits at the grid
/// center plus that offset (the exporter's inverse); without one the
/// pattern is centered on the grid.
pub open spec fn loaded(v: WorldView, rv: crate::parser::RleV) -> WorldView {
    let cx = v.width / 2;
    let cy = v.height / 2;
    match sp_first_coords(rv.comments) {
        Some(xy) => apply_runs(v, rv.content, cx + xy.0, cy + xy.1, cx + xy.0),
        None => apply_runs(
            v,
            rv.content,
            cx - rv.size.0 as int / 2,
            cy - rv.size.1 as int / 2,
            cx - rv.size.0 as int / 2,
        ),
    }
}

/// The run structure the exporter encodes for one row: the token
/// list whose text rendering is [`sp_row_body`].
pub open spec fn row_runs(v: WorldView, r: int, c: int, hi: int) -> Seq<
    crate::parser::RleTagSequence,
>
    decreases hi - c when c <= hi
{
    if c >= hi {
        Seq::empty()
    } else {
        let e = run_end(v, r, c, hi);
        if !(c < e <= hi) {
            Seq::empty()
        } else if !alive_at(v, r, c) && e == hi {
            Seq::empty()
        } else {
            let tok = seq![
                crate::parser::RleTagSequence(
                    (e - c) as usize,
                    if alive_at(v, r, c) {
                        crate::parser::RleTag::Alive
                    } else {
                        crate::parser::RleTag::Dead
                    },
                ),
            ];
            if e >= hi {
                tok
            } else {
                tok + row_runs(v, r, e, hi)
            }
        }
    }
}

/// The run structure the exporter encodes for the whole bounding
/// box, rows joined by single `$` runs.
pub open spec fn body_runs(v: WorldView, r_lo: int, r_hi: int, c_lo: int, c_hi: int) -> Seq<
    crate::parser::RleTagSequence,
>
    decreases r_hi - r_lo when r_lo <= r_hi
{
    if r_lo >= r_hi {
        Seq::empty()
    } else if r_lo + 1 >= r_hi {
        row_runs(v, r_lo, c_lo, c_hi)
    } else {
        row_runs(v, r_lo, c_lo, c_hi) + seq![
            crate::parser::RleTagSequence(1, crate::parser::RleTag::NextLine),
        ] + body_runs(v, r_lo + 1, r_hi, c_lo, c_hi)
    }
}

/// One past the last column the exporter's tokens for a row cover:
/// the row's trailing dead run, which is omitted, begins here.
pub open spec fn row_cov(v: WorldView, r: int, c: int, hi: int) -> int
    decreases hi - c when c <= hi
{
    if c >= hi {
        c
    } else {
        let e = run_end(v, r, c, hi);
        if !(c < e <= hi) {
            c
        } else if !alive_at(v, r, c) && e == hi {
            c
        } else if e >= hi {
            e
        } else {
            row_cov(v, r, e, hi)
        }
    }
}

proof fn lemma_row_cov_bounds(v: WorldView, r: int, c: int, hi: int)
    requires
        c <= hi,
    ensures
        c <= row_cov(v, r, c, hi) <= hi,
        forall|x: int| row_cov(v, r, c, hi) <= x < hi ==> !alive_at(v, r, x),
    decreases hi - c,
{
    if c < hi {
        let e = run_end(v, r, c, hi);
        lemma_run_end_bounds(v, r, c, hi);
        if !alive_at(v, r, c) && e == hi {
        } else if e < hi {
            lemma_row_cov_bounds(v, r, e, hi);
        }
    }
}

/// [`apply_runs`], also yielding the final cursor position.
pub open spec fn apply_runs_at(
    v: WorldView,
    runs: Seq<crate::parser::RleTagSequence>,
    x0: int,
    j: int,
    i: int,
) -> (WorldView, int, int)
    decreases runs.len(),
{
    if runs.len() == 0 {
        (v, j, i)
    } else {
        match runs[0].1 {
            crate::parser::RleTag::NextLine => apply_runs_at(
                v,
                runs.drop_first(),
                x0,
                cap_cursor(j + runs[0].0),
                x0,
            ),
            crate::parser::RleTag::Dead => {
                let p = apply_cells(v, j, i, runs[0].0 as nat, false);
                apply_runs_at(p.0, runs.drop_first(), x0, j, p.1)
            },
            crate::parser::RleTag::Alive => {
                let p = apply_cells(v, j, i, runs[0].0 as nat, true);
                apply_runs_at(p.0, runs.drop_first(), x0, j, p.1)
            },
        }
    }
}

proof fn lemma_apply_runs_at_eq(
    v: WorldView,
    runs: Seq<crate::parser::RleTagSequence>,
    x0: int,
    j: int,
    i: int,
)
    ensures
        apply_runs(v, runs, x0, j, i) == apply_runs_at(v, runs, x0, j, i).0,
    decreases runs.len(),
{
    if runs.len() > 0 {
        match runs[0].1 {
            crate::parser::RleTag::NextLine => {
                lemma_apply_runs_at_eq(v, runs.drop_first(), x0, cap_cursor(j + runs[0].0), x0);
            },
            crate::parser::RleTag::Dead => {
                let p = apply_cells(v, j, i, runs[0].0 as nat, false);
                lemma_apply_runs_at_eq(p.0, runs.drop_first(), x0, j, p.1);
            },
            crate::parser::RleTag::Alive => {
                let p = apply_cells(v, j, i, runs[0].0 as nat, true);
                lemma_apply_runs_at_eq(p.0, runs.drop_first(), x0, j, p.1);
            },
        }
    }
}

/// What a run writes depends only on the buffer and dimensions, and
/// it preserves both dimensions and length.
proof fn lemma_apply_cells_congruent(a: WorldView, b: WorldView, j: int, i: int, count: nat, al: bool)
    requires
        a.cells == b.cells,
        a.width == b.width,
        a.height == b.height,
        0 < a.width,
        0 < a.height,
        a.cells.len() == a.width * a.height,
    ensures
        apply_cells(a, j, i, count, al).0.cells == apply_cells(b, j, i, count, al).0.cells,
        apply_cells(a, j, i, count, al).1 == apply_cells(b, j, i, count, al).1,
        apply_cells(a, j, i, count, al).0.width == a.width,
        apply_cells(a, j, i, count, al).0.height == a.height,
        apply_cells(a, j, i, count, al).0.cells.len() == a.cells.len(),
    decreases count,
{
    if count != 0 && !(i > i32::MAX as int) {
        let a1 = if loader_writable(a, j, i) {
            with_write(a, spec_index(a, j, i), al)
        } else {
            a
        };
        let b1 = if loader_writable(b, j, i) {
            with_write(b, spec_index(b, j, i), al)
        } else {
            b
        };
        assert(loader_writable(a, j, i) == loader_writable(b, j, i));
        assert(spec_index(a, j, i) == spec_index(b, j, i));
        lemma_spec_index_range(a, j, i);
        assert(a1.cells.len() == a.cells.len());
        assert(a1.cells == b1.cells);
        assert(apply_cells(a, j, i, count, al) == apply_cells(a1, j, i + 1, (count - 1) as nat, al));
        assert(apply_cells(b, j, i, count, al) == apply_cells(b1, j, i + 1, (count - 1) as nat, al));
        lemma_apply_cells_congruent(a1, b1, j, i + 1, (count - 1) as nat, al);
        lemma_apply_cells_congruent(b1, a1, j, i + 1, (count - 1) as nat, al);
    }
}

/// Replaying runs likewise depends only on the buffer and
/// dimensions.
proof fn lemma_apply_runs_at_congruent(
    a: WorldView,
    b: WorldView,
    runs: Seq<crate::parser::RleTagSequence>,
    x0: int,
    j: int,
    i: int,
)
    requires
        a.cells == b.cells,
        a.width == b.width,
        a.height == b.height,
        0 < a.width,
        0 < a.height,
        a.cells.len() == a.width * a.height,
    ensures
        apply_runs_at(a, runs, x0, j, i).0.cells == apply_runs_at(b, runs, x0, j, i).0.cells,
        apply_runs_at(a, runs, x0, j, i).1 == apply_runs_at(b, runs, x0, j, i).1,
        apply_runs_at(a, runs, x0, j, i).2 == apply_runs_at(b, runs, x0, j, i).2,
        apply_runs_at(a, runs, x0, j, i).0.width == a.width,
        apply_runs_at(a, runs, x0, j, i).0.height == a.height,
        apply_runs_at(a, runs, x0, j, i).0.cells.len() == a.cells.len(),
    decreases runs.len(),
{
    if runs.len() > 0 {
        match runs[0].1 {
            crate::parser::RleTag::NextLine => {
                lemma_apply_runs_at_congruent(
                    a,
                    b,
                    runs.drop_first(),
                    x0,
                    cap_cursor(j + runs[0].0),
                    x0,
                );
            },
            crate::parser::RleTag::Dead => {
                let pa = apply_cells(a, j, i, runs[0].0 as nat, false);
                let pb = apply_cells(b, j, i, runs[0].0 as nat, false);
                lemma_apply_cells_congruent(a, b, j, i, runs[0].0 as nat, false);
                lemma_apply_cells_congruent(b, a, j, i, runs[0].0 as nat, false);
                lemma_apply_runs_at_congruent(pa.0, pb.0, runs.drop_first(), x0, j, pa.1);
            },
            crate::parser::RleTag::Alive => {
                let pa = apply_cells(a, j, i, runs[0].0 as nat, true);
                let pb = apply_cells(b, j, i, runs[0].0 as nat, true);
                lemma_apply_cells_congruent(a, b, j, i, runs[0].0 as nat, true);
                lemma_apply_cells_congruent(b, a, j, i, runs[0].0 as nat, true);
                lemma_apply_runs_at_congruent(pa.0, pb.0, runs.drop_first(), x0, j, pa.1);
            },
        }
    }
}

/// A run that stays inside row `r` writes exactly the contiguous
/// positions it covers and leaves the cursor one past them.
proof fn lemma_apply_cells_writes(v: WorldView, r: int, c: int, count: nat, al: bool)
    requires
        0 < v.width,
        0 < v.height,
        v.width * v.height <= i32::MAX as int,
        v.cells.len() == v.width * v.height,
        0 <= r,
        r < v.height,
        0 <= c,
        c + count <= v.width,
    ensures
        apply_cells(v, r, c, count, al).1 == c + count,
        apply_cells(v, r, c, count, al).0.cells.len() == v.cells.len(),
        apply_cells(v, r, c, count, al).0.width == v.width,
        apply_cells(v, r, c, count, al).0.height == v.height,
        forall|x: int|
            0 <= x < v.cells.len() ==> apply_cells(v, r, c, count, al).0.cells[x] == (if r * v.width
                + c <= x < r * v.width + c + count {
                al
            } else {
                v.cells[x]
            }),
    decreases count,
{
    vstd::arithmetic::mul::lemma_mul_inequality(r, v.height - 1, v.width);
    assert((v.height - 1) * v.width == v.height * v.width - v.width) by (nonlinear_arith);
    vstd::arithmetic::mul::lemma_mul_nonnegative(r, v.width);
    vstd::arithmetic::mul::lemma_mul_is_commutative(v.height, v.width);
    vstd::arithmetic::mul::lemma_mul_inequality(1, v.height, v.width);
    assert(1 * v.width == v.width);
    vstd::arithmetic::mul::lemma_mul_inequality(1, v.width, v.height);
    assert(1 * v.height == v.height);
    vstd::arithmetic::mul::lemma_mul_is_commutative(v.width, v.height);
    if count != 0 {
        assert(v.width <= i32::MAX as int);
        assert(v.height <= i32::MAX as int);
        assert(!(c > i32::MAX as int));
        assert(loader_writable(v, r, c));
        lemma_mod_identity(r, v.height);
        lemma_mod_identity(c, v.width);
        assert(spec_index(v, r, c) == r * v.width + c);
        let v1 = with_write(v, r * v.width + c, al);
        lemma_apply_cells_writes(v1, r, c + 1, (count - 1) as nat, al);
    }
}

/// The merged buffer after one exported row is replayed: positions
/// `[c, row_cov)` of row `r` take `v`'s values, everything else keeps
/// `u`'s.
pub open spec fn merged_row(u: WorldView, v: WorldView, r: int, c: int, hi: int) -> Seq<bool> {
    Seq::new(
        u.cells.len(),
        |x: int|
            if r * u.width + c <= x < r * u.width + row_cov(v, r, c, hi) {
                v.cells[x]
            } else {
                u.cells[x]
            },
    )
}

/// Replaying one exported row, then a continuation, equals writing
/// the row's covered cells and continuing from the covering cursor.
proof fn lemma_row_replay(
    u: WorldView,
    v: WorldView,
    rest: Seq<crate::parser::RleTagSequence>,
    x0: int,
    r: int,
    c: int,
    hi: int,
)
    requires
        0 < u.width,
        0 < u.height,
        u.width * u.height <= i32::MAX as int,
        u.cells.len() == u.width * u.height,
        v.width == u.width,
        v.height == u.height,
        v.cells.len() == u.cells.len(),
        0 <= r,
        r < u.height,
        0 <= c,
        c <= hi,
        hi <= u.width,
    ensures
        ({
            let full = apply_runs_at(u, row_runs(v, r, c, hi) + rest, x0, r, c);
            let after = apply_runs_at(
                WorldView { cells: merged_row(u, v, r, c, hi), ..u },
                rest,
                x0,
                r,
                row_cov(v, r, c, hi),
            );
            full.0.cells == after.0.cells && full.1 == after.1 && full.2 == after.2
        }),
    decreases hi - c,
{
    let cov = row_cov(v, r, c, hi);
    lemma_row_cov_bounds(v, r, c, hi);
    if c >= hi || (!alive_at(v, r, c) && run_end(v, r, c, hi) == hi) {
        assert(row_runs(v, r, c, hi) =~= Seq::<crate::parser::RleTagSequence>::empty());
        assert(row_runs(v, r, c, hi) + rest =~= rest);
        assert(cov == c);
        assert(merged_row(u, v, r, c, hi) =~= u.cells);
        assert((WorldView { cells: merged_row(u, v, r, c, hi), ..u }) =~= u);
    } else {
        let e = run_end(v, r, c, hi);
        lemma_run_end_bounds(v, r, c, hi);
        let al = alive_at(v, r, c);
        let tok = crate::parser::RleTagSequence(
            (e - c) as usize,
            if al {
                crate::parser::RleTag::Alive
            } else {
                crate::parser::RleTag::Dead
            },
        );
        let tail = if e >= hi {
            Seq::<crate::parser::RleTagSequence>::empty()
        } else {
            row_runs(v, r, e, hi)
        };
        assert(row_runs(v, r, c, hi) =~= seq![tok] + tail);
        assert(row_runs(v, r, c, hi) + rest =~= seq![tok] + (tail + rest));
        let whole = seq![tok] + (tail + rest);
        assert(whole[0] == tok);
        assert(whole.drop_first() =~= tail + rest);
        vstd::arithmetic::mul::lemma_mul_inequality(1, u.height, u.width);
        assert(1 * u.width == u.width);
        vstd::arithmetic::mul::lemma_mul_is_commutative(u.height, u.width);
        assert(u.width <= i32::MAX as int);
        assert(tok.0 as nat == (e - c) as nat);
        lemma_apply_cells_writes(u, r, c, (e - c) as nat, al);
        let p = apply_cells(u, r, c, (e - c) as nat, al);
        let u1 = p.0;
        assert(p.1 == e);
        if al {
            assert(whole[0].1 == crate::parser::RleTag::Alive);
            assert(apply_runs_at(u, whole, x0, r, c) == apply_runs_at(
                apply_cells(u, r, c, whole[0].0 as nat, true).0,
                whole.drop_first(),
                x0,
                r,
                apply_cells(u, r, c, whole[0].0 as nat, true).1,
            ));
        } else {
            assert(whole[0].1 == crate::parser::RleTag::Dead);
            assert(apply_runs_at(u, whole, x0, r, c) == apply_runs_at(
                apply_cells(u, r, c, whole[0].0 as nat, false).0,
                whole.drop_first(),
                x0,
                r,
                apply_cells(u, r, c, whole[0].0 as nat, false).1,
            ));
        }
        lemma_apply_runs_at_congruent(u1, u1, tail + rest, x0, r, e);
        assert(apply_runs_at(u, whole, x0, r, c) == apply_runs_at(u1, tail + rest, x0, r, e));
        // The written values are exactly v's own values on [c, e).
        assert forall|x: int| 0 <= x < u.cells.len() implies u1.cells[x] == (if r * u.width + c
            <= x < r * u.width + e {
            v.cells[x]
        } else {
            u.cells[x]
        }) by {
            if r * u.width + c <= x < r * u.width + e {
                let cc = x - r * u.width;
                assert(alive_at(v, r, cc) == alive_at(v, r, c));
                assert(v.cells[x] == al);
            }
        }
        if e >= hi {
            assert(tail + rest =~= rest);
            assert(cov == e);
            assert(u1.cells =~= merged_row(u, v, r, c, hi));
            lemma_apply_runs_at_congruent(
                u1,
                WorldView { cells: merged_row(u, v, r, c, hi), ..u },
                rest,
                x0,
                r,
                e,
            );
        } else {
            assert(cov == row_cov(v, r, e, hi));
            lemma_row_replay(u1, v, rest, x0, r, e, hi);
            lemma_row_cov_bounds(v, r, e, hi);
            assert(merged_row(u1, v, r, e, hi) =~= merged_row(u, v, r, c, hi));
            lemma_apply_runs_at_congruent(
                WorldView { cells: merged_row(u1, v, r, e, hi), ..u1 },
                WorldView { cells: merged_row(u, v, r, c, hi), ..u },
                rest,
                x0,
                r,
                cov,
            );
        }
    }
}

/// The merged buffer after the whole box is replayed.
pub open spec fn merged_box(
    u: WorldView,
    v: WorldView,
    r_lo: int,
    r_hi: int,
    c_lo: int,
    c_hi: int,
) -> Seq<bool> {
    Seq::new(
        u.cells.len(),
        |x: int|
            if r_lo <= x / u.width && x / u.width < r_hi && c_lo <= x % u.width && (x % u.width)
                < row_cov(v, x / u.width, c_lo, c_hi) {
                v.cells[x]
            } else {
                u.cells[x]
            },
    )
}

/// Replaying the exporter's whole run structure writes each row's
/// covered cells with `v`'s values and touches nothing else.
proof fn lemma_body_replay(u: WorldView, v: WorldView, r_lo: int, r_hi: int, c_lo: int, c_hi: int)
    requires
        0 < u.width,
        0 < u.height,
        u.width * u.height <= i32::MAX as int,
        u.cells.len() == u.width * u.height,
        v.width == u.width,
        v.height == u.height,
        v.cells.len() == u.cells.len(),
        0 <= r_lo,
        r_lo <= r_hi,
        r_hi <= u.height,
        0 <= c_lo,
        c_lo < c_hi,
        c_hi <= u.width,
    ensures
        apply_runs_at(u, body_runs(v, r_lo, r_hi, c_lo, c_hi), c_lo, r_lo, c_lo).0.cells
            == merged_box(u, v, r_lo, r_hi, c_lo, c_hi),
    decreases r_hi - r_lo,
{
    if r_lo >= r_hi {
        assert(merged_box(u, v, r_lo, r_hi, c_lo, c_hi) =~= u.cells);
    } else if r_lo + 1 >= r_hi {
        lemma_row_replay(
            u,
            v,
            Seq::<crate::parser::RleTagSequence>::empty(),
            c_lo,
            r_lo,
            c_lo,
            c_hi,
        );
        assert(row_runs(v, r_lo, c_lo, c_hi) + Seq::<crate::parser::RleTagSequence>::empty()
            =~= body_runs(v, r_lo, r_hi, c_lo, c_hi));
        lemma_row_cov_bounds(v, r_lo, c_lo, c_hi);
        assert forall|x: int| 0 <= x < u.cells.len() implies merged_row(u, v, r_lo, c_lo, c_hi)[x]
            == merged_box(u, v, r_lo, r_hi, c_lo, c_hi)[x] by {
            vstd::arithmetic::div_mod::lemma_fundamental_div_mod(x, u.width);
            vstd::arithmetic::mul::lemma_mul_is_commutative(x / u.width, u.width);
            if r_lo * u.width + c_lo <= x < r_lo * u.width + row_cov(v, r_lo, c_lo, c_hi) {
                vstd::arithmetic::div_mod::lemma_fundamental_div_mod_converse(
                    x,
                    u.width,
                    r_lo,
                    x - r_lo * u.width,
                );
            } else {
                if r_lo == x / u.width && c_lo <= x % u.width && (x % u.width) < row_cov(
                    v,
                    r_lo,
                    c_lo,
                    c_hi,
                ) {
                    assert(x == (x / u.width) * u.width + (x % u.width));
                    assert(false);
                }
            }
        }
        assert(merged_row(u, v, r_lo, c_lo, c_hi) =~= merged_box(u, v, r_lo, r_hi, c_lo, c_hi));
    } else {
        let sep = seq![crate::parser::RleTagSequence(1, crate::parser::RleTag::NextLine)];
        let rest = sep + body_runs(v, r_lo + 1, r_hi, c_lo, c_hi);
        assert(body_runs(v, r_lo, r_hi, c_lo, c_hi) =~= row_runs(v, r_lo, c_lo, c_hi) + rest);
        lemma_row_replay(u, v, rest, c_lo, r_lo, c_lo, c_hi);
        let u2 = WorldView { cells: merged_row(u, v, r_lo, c_lo, c_hi), ..u };
        assert(rest[0].1 == crate::parser::RleTag::NextLine);
        assert(rest.len() == 1 + body_runs(v, r_lo + 1, r_hi, c_lo, c_hi).len());
        assert_seqs_equal!(rest.drop_first() == body_runs(v, r_lo + 1, r_hi, c_lo, c_hi), q => {
            assert(rest.drop_first()[q] == rest[q + 1]);
            assert(rest[q + 1] == body_runs(v, r_lo + 1, r_hi, c_lo, c_hi)[q]);
        });
        vstd::arithmetic::mul::lemma_mul_inequality(1, u.width, u.height);
        assert(1 * u.height == u.height);
        vstd::arithmetic::mul::lemma_mul_is_commutative(u.width, u.height);
        assert(u.height <= i32::MAX as int);
        assert(cap_cursor(r_lo + 1) == r_lo + 1);
        lemma_body_replay(u2, v, r_lo + 1, r_hi, c_lo, c_hi);
        lemma_row_cov_bounds(v, r_lo, c_lo, c_hi);
        assert forall|x: int| 0 <= x < u.cells.len() implies merged_box(
            u2,
            v,
            r_lo + 1,
            r_hi,
            c_lo,
            c_hi,
        )[x] == merged_box(u, v, r_lo, r_hi, c_lo, c_hi)[x] by {
            vstd::arithmetic::div_mod::lemma_fundamental_div_mod(x, u.width);
            vstd::arithmetic::mul::lemma_mul_is_commutative(x / u.width, u.width);
            vstd::arithmetic::div_mod::lemma_mod_division_less_than_divisor(x, u.width);
            if r_lo * u.width + c_lo <= x < r_lo * u.width + row_cov(v, r_lo, c_lo, c_hi) {
                vstd::arithmetic::div_mod::lemma_fundamental_div_mod_converse(
                    x,
                    u.width,
                    r_lo,
                    x - r_lo * u.width,
                );
            } else {
                if r_lo == x / u.width && c_lo <= x % u.width && (x % u.width) < row_cov(
                    v,
                    r_lo,
                    c_lo,
                    c_hi,
                ) {
                    assert(x == (x / u.width) * u.width + (x % u.width));
                    assert(false);
                }
            }
        }
        assert(merged_box(u2, v, r_lo + 1, r_hi, c_lo, c_hi) =~= merged_box(
            u,
            v,
            r_lo,
            r_hi,
            c_lo,
            c_hi,
        ));
    }
}

/// The replay leg of the export/load round trip: replaying the run
/// structure the exporter encodes for `v`'s bounding box onto an
/// all-dead grid of the same dimensions, anchored at the box's own
/// corner, reproduces `v`'s buffer exactly.
pub proof fn lemma_export_runs_round_trip(
    v: WorldView,
    u: WorldView,
    fr: int,
    lr: int,
    fc: int,
    lc: int,
)
    requires
        wf_view(v),
        u.width == v.width,
        u.height == v.height,
        u.cells.len() == v.cells.len(),
        forall|x: int| 0 <= x < u.cells.len() ==> !#[trigger] u.cells[x],
        sp_first_row(v, 0) == Some(fr),
        sp_last_row(v, v.height - 1) == Some(lr),
        sp_first_col(v, 0) == Some(fc),
        sp_last_col(v, v.width - 1) == Some(lc),
    ensures
        apply_runs(u, body_runs(v, fr, lr + 1, fc, lc + 1), fc, fr, fc).cells == v.cells,
{
    lemma_first_row_props(v, 0);
    lemma_last_row_props(v, v.height - 1);
    lemma_first_col_props(v, 0);
    lemma_last_col_props(v, v.width - 1);
    assert(fr <= lr);
    assert(fc <= lc);
    lemma_apply_runs_at_eq(u, body_runs(v, fr, lr + 1, fc, lc + 1), fc, fr, fc);
    lemma_body_replay(u, v, fr, lr + 1, fc, lc + 1);
    assert forall|x: int| 0 <= x < u.cells.len() implies merged_box(
        u,
        v,
        fr,
        lr + 1,
        fc,
        lc + 1,
    )[x] == v.cells[x] by {
        vstd::arithmetic::div_mod::lemma_fundamental_div_mod(x, u.width);
        vstd::arithmetic::mul::lemma_mul_is_commutative(x / u.width, u.width);
        vstd::arithmetic::div_mod::lemma_mod_division_less_than_divisor(x, u.width);
        vstd::arithmetic::div_mod::lemma_div_pos_is_pos(x, u.width);
        vstd::arithmetic::div_mod::lemma_multiply_divide_lt(x, u.width, u.height);
        let rr = x / u.width;
        let cc = x % u.width;
        assert(x == rr * u.width + cc);
        lemma_row_cov_bounds(v, rr, fc, lc + 1);
        if fr <= rr && rr < lr + 1 && fc <= cc && cc < row_cov(v, rr, fc, lc + 1) {
        } else {
            assert(!v.cells[x]) by {
                if rr < fr || rr > lr {
                    assert(!row_has_alive(v, rr));
                    if v.cells[x] {
                        assert(alive_at(v, rr, cc));
                        assert(false);
                    }
                } else if cc < fc || cc > lc {
                    assert(!col_has_alive(v, cc));
                    if v.cells[x] {
                        assert(alive_at(v, rr, cc));
                        assert(false);
                    }
                } else {
                    assert(row_cov(v, rr, fc, lc + 1) <= cc < lc + 1);
                    assert(!alive_at(v, rr, cc));
                }
            }
        }
    }
    assert(merged_box(u, v, fr, lr + 1, fc, lc + 1) =~= v.cells);
}

/// The text a single body run is rendered as: a counted `b`/`o`
/// token, or a bare `$` row separator.
pub open spec fn run_text(t: crate::parser::RleTagSequence) -> Seq<u8> {
    match t.1 {
        crate::parser::RleTag::NextLine => seq![36u8],
        crate::parser::RleTag::Dead => dec_rep(t.0 as int) + seq![98u8],
        crate::parser::RleTag::Alive => dec_rep(t.0 as int) + seq![111u8],
    }
}

/// The text a run list is rendered as.
pub open spec fn runs_text(runs: Seq<crate::parser::RleTagSequence>) -> Seq<u8>
    decreases runs.len(),
{
    if runs.len() == 0 {
        Seq::empty()
    } else {
        run_text(runs[0]) + runs_text(runs.drop_first())
    }
}

proof fn lemma_runs_text_concat(a: Seq<crate::parser::RleTagSequence>, b: Seq<
    crate::parser::RleTagSequence,
>)
    ensures
        runs_text(a + b) == runs_text(a) + runs_text(b),
    decreases a.len(),
{
    if a.len() == 0 {
        assert(a + b =~= b);
        assert(runs_text(a) + runs_text(b) =~= runs_text(b));
    } else {
        assert((a + b)[0] == a[0]);
        assert((a + b).drop_first() =~= a.drop_first() + b);
        lemma_runs_text_concat(a.drop_first(), b);
        assert(run_text(a[0]) + (runs_text(a.drop_first()) + runs_text(b)) =~= (run_text(a[0])
            + runs_text(a.drop_first())) + runs_text(b));
    }
}

/// The text leg, per row: the exporter's row text is exactly the
/// rendering of the row's run structure.
proof fn lemma_row_text(v: WorldView, r: int, c: int, hi: int)
    requires
        0 <= c,
        c <= hi,
        hi <= i32::MAX as int,
    ensures
        sp_row_body(v, r, c, hi) == runs_text(row_runs(v, r, c, hi)),
    decreases hi - c,
{
    if c >= hi {
    } else {
        let e = run_end(v, r, c, hi);
        lemma_run_end_bounds(v, r, c, hi);
        if !alive_at(v, r, c) && e == hi {
        } else {
            let al = alive_at(v, r, c);
            let tok = crate::parser::RleTagSequence(
                (e - c) as usize,
                if al {
                    crate::parser::RleTag::Alive
                } else {
                    crate::parser::RleTag::Dead
                },
            );
            assert(run_text(tok) =~= dec_rep(e - c) + seq![
                if al {
                    111u8
                } else {
                    98u8
                },
            ]);
            assert(sp_row_body(v, r, c, hi) == (dec_rep(e - c) + seq![
                if al {
                    111u8
                } else {
                    98u8
                },
            ]) + (if e >= hi {
                Seq::<u8>::empty()
            } else {
                sp_row_body(v, r, e, hi)
            })) by {
                if e >= hi {
                    assert(sp_row_body(v, r, c, hi) + Seq::<u8>::empty() =~= sp_row_body(
                        v,
                        r,
                        c,
                        hi,
                    ));
                    assert((dec_rep(e - c) + seq![
                        if al {
                            111u8
                        } else {
                            98u8
                        },
                    ]) + Seq::<u8>::empty() =~= dec_rep(e - c) + seq![
                        if al {
                            111u8
                        } else {
                            98u8
                        },
                    ]);
                }
            }
            assert(seq![tok].drop_first() =~= Seq::<crate::parser::RleTagSequence>::empty());
            assert(runs_text(seq![tok]) =~= run_text(tok) + runs_text(
                Seq::<crate::parser::RleTagSequence>::empty(),
            ));
            assert(run_text(tok) + Seq::<u8>::empty() =~= run_text(tok));
            if e >= hi {
                assert(row_runs(v, r, c, hi) =~= seq![tok]);
                assert(runs_text(row_runs(v, r, c, hi)) =~= run_text(tok));
            } else {
                lemma_row_text(v, r, e, hi);
                let tail = row_runs(v, r, e, hi);
                assert(row_runs(v, r, c, hi) =~= seq![tok] + tail);
                lemma_runs_text_concat(seq![tok], tail);
                assert(runs_text(row_runs(v, r, c, hi)) =~= run_text(tok) + runs_text(tail));
                assert(sp_row_body(v, r, c, hi) =~= run_text(tok) + runs_text(tail));
            }
        }
    }
}

/// The text leg, whole body: the exporter's body text is exactly the
/// rendering of the bounding box's run structure, so together with
/// the replay law the emitted body is a lossless encoding.
pub proof fn lemma_body_text(v: WorldView, r_lo: int, r_hi: int, c_lo: int, c_hi: int)
    requires
        r_lo <= r_hi,
        0 <= c_lo,
        c_lo <= c_hi,
        c_hi <= i32::MAX as int,
    ensures
        sp_body(v, r_lo, r_hi, c_lo, c_hi) == runs_text(body_runs(v, r_lo, r_hi, c_lo, c_hi)),
    decreases r_hi - r_lo,
{
    if r_lo >= r_hi {
    } else if r_lo + 1 >= r_hi {
        lemma_row_text(v, r_lo, c_lo, c_hi);
    } else {
        lemma_row_text(v, r_lo, c_lo, c_hi);
        lemma_body_text(v, r_lo + 1, r_hi, c_lo, c_hi);
        let sep = seq![crate::parser::RleTagSequence(1, crate::parser::RleTag::NextLine)];
        let row = row_runs(v, r_lo, c_lo, c_hi);
        let rest = body_runs(v, r_lo + 1, r_hi, c_lo, c_hi);
        lemma_runs_text_concat(row, sep + rest);
        lemma_runs_text_concat(sep, rest);
        assert(sep.drop_first() =~= Seq::<crate::parser::RleTagSequence>::empty());
        assert(runs_text(Seq::<crate::parser::RleTagSequence>::empty()) =~= Seq::<u8>::empty());
        assert(run_text(sep[0]) =~= seq![36u8]);
        assert(seq![36u8] + Seq::<u8>::empty() =~= seq![36u8]);
        assert(runs_text(sep) =~= seq![36u8]);
        assert(body_runs(v, r_lo, r_hi, c_lo, c_hi) =~= row + (sep + rest));
        assert(sp_body(v, r_lo, r_hi, c_lo, c_hi) =~= runs_text(row) + (seq![36u8] + runs_text(
            rest,
        )));
        assert(runs_text(row) + (runs_text(sep) + runs_text(rest)) =~= runs_text(row) + (seq![
            36u8,
        ] + runs_text(rest)));
    }
}

/// Run lists the exporter can produce: positive counts that fit the
/// grid, and row separators only as single steps.
pub open spec fn wf_runs(rr: Seq<crate::parser::RleTagSequence>) -> bool {
    forall|k: int|
        0 <= k < rr.len() ==> (1 <= (#[trigger] rr[k]).0 && rr[k].0 as int <= i32::MAX as int && (
        rr[k].1 is NextLine ==> rr[k].0 == 1))
}

proof fn lemma_dec_rep_digits(n: int)
    requires
        n >= 0,
    ensures
        dec_rep(n).len() >= 1,
        forall|k: int|
            0 <= k < dec_rep(n).len() ==> 48 <= #[trigger] dec_rep(n)[k] && dec_rep(n)[k] <= 57,
    decreases n,
{
    if n >= 10 {
        vstd::arithmetic::div_mod::lemma_div_pos_is_pos(n, 10);
        vstd::arithmetic::div_mod::lemma_mod_division_less_than_divisor(n, 10);
        lemma_dec_rep_digits(n / 10);
    }
}

/// Where a maximal digit range ends, the digit scan ends.
proof fn lemma_digits_end_pinned(s: Seq<u8>, p: int, e: int)
    requires
        0 <= p <= e <= s.len(),
        forall|k: int| p <= k < e ==> crate::parser::is_digit_b(#[trigger] s[k]),
        e == s.len() || !crate::parser::is_digit_b(s[e]),
    ensures
        crate::parser::sp_digits_end(s, p) == e,
    decreases e - p,
{
    if p < e {
        lemma_digits_end_pinned(s, p + 1, e);
    }
}

/// Printed digits parse back as the number they came from.
proof fn lemma_num_parses(s: Seq<u8>, p: int, e: int, n: int)
    requires
        0 <= p <= e <= s.len(),
        s.subrange(p, e) == dec_rep(n),
        0 <= n,
        n <= i32::MAX as int,
        e == s.len() || !crate::parser::is_digit_b(s[e]),
    ensures
        crate::parser::sp_num(s, p) == Ok::<(int, usize), int>((e, n as usize)),
{
    lemma_dec_rep_digits(n);
    assert(e - p == dec_rep(n).len());
    assert forall|k: int| p <= k < e implies crate::parser::is_digit_b(#[trigger] s[k]) by {
        assert(s.subrange(p, e)[k - p] == s[k]);
        assert(dec_rep(n)[k - p] >= 48);
    }
    lemma_digits_end_pinned(s, p, e);
    lemma_dec_rep_value(n);
    assert(crate::parser::digit_chars(s, p, e) =~= dec_rep(n).map(|_i: int, b: u8| b as char))
        by {
        assert forall|k: int| 0 <= k < e - p implies crate::parser::digit_chars(s, p, e)[k]
            == dec_rep(n).map(|_i: int, b: u8| b as char)[k] by {
            assert(s.subrange(p, e)[k] == s[p + k]);
        }
    }
    assert(crate::parser::digits_value(crate::parser::digit_chars(s, p, e)) == n);
    assert(n <= usize::MAX as int);
}

proof fn lemma_skip_ws_stops(s: Seq<u8>, p: int)
    requires
        0 <= p <= s.len(),
        p == s.len() || !(crate::parser::is_space_b(s[p]) || s[p] == 10 || s[p] == 13),
    ensures
        crate::parser::sp_skip_ws(s, p) == p,
{
}

/// One rendered run token parses back as itself.
proof fn lemma_tag_seq_parses(s: Seq<u8>, p: int, t: crate::parser::RleTagSequence)
    requires
        0 <= p,
        p + run_text(t).len() <= s.len(),
        s.subrange(p, p + run_text(t).len() as int) == run_text(t),
        1 <= t.0,
        t.0 as int <= i32::MAX as int,
        t.1 is NextLine ==> t.0 == 1,
    ensures
        crate::parser::sp_rle_tag_sequence(s, p) == Ok::<(int, crate::parser::RleTagSequence), int>(
            (p + run_text(t).len() as int, t),
        ),
{
    match t.1 {
        crate::parser::RleTag::NextLine => {
            assert(s.subrange(p, p + 1)[0] == s[p]);
            assert(s[p] == 36);
            lemma_skip_ws_stops(s, p);
            lemma_digits_end_pinned(s, p, p);
        },
        crate::parser::RleTag::Dead => {
            lemma_dec_rep_digits(t.0 as int);
            let ll = dec_rep(t.0 as int).len() as int;
            assert(run_text(t) =~= dec_rep(t.0 as int) + seq![98u8]);
            assert forall|k: int| p <= k < p + ll implies crate::parser::is_digit_b(
                #[trigger] s[k],
            ) by {
                assert(s.subrange(p, p + ll + 1)[k - p] == s[k]);
                assert(run_text(t)[k - p] == dec_rep(t.0 as int)[k - p]);
            }
            assert(s.subrange(p, p + ll + 1)[ll] == s[p + ll]);
            assert(run_text(t)[ll] == 98);
            assert(s[p + ll] == 98);
            assert(s.subrange(p, p + ll) =~= dec_rep(t.0 as int)) by {
                assert forall|k: int| 0 <= k < ll implies s.subrange(p, p + ll)[k] == dec_rep(
                    t.0 as int,
                )[k] by {
                    assert(s.subrange(p, p + ll + 1)[k] == s[p + k]);
                    assert(s.subrange(p, p + ll)[k] == s[p + k]);
                }
            }
            assert(s[p] == s.subrange(p, p + ll)[0]);
            lemma_skip_ws_stops(s, p);
            lemma_num_parses(s, p, p + ll, t.0 as int);
        },
        crate::parser::RleTag::Alive => {
            lemma_dec_rep_digits(t.0 as int);
            let ll = dec_rep(t.0 as int).len() as int;
            assert(run_text(t) =~= dec_rep(t.0 as int) + seq![111u8]);
            assert forall|k: int| p <= k < p + ll implies crate::parser::is_digit_b(
                #[trigger] s[k],
            ) by {
                assert(s.subrange(p, p + ll + 1)[k - p] == s[k]);
                assert(run_text(t)[k - p] == dec_rep(t.0 as int)[k - p]);
            }
            assert(s.subrange(p, p + ll + 1)[ll] == s[p + ll]);
            assert(run_text(t)[ll] == 111);
            assert(s[p + ll] == 111);
            assert(s.subrange(p, p + ll) =~= dec_rep(t.0 as int)) by {
                assert forall|k: int| 0 <= k < ll implies s.subrange(p, p + ll)[k] == dec_rep(
                    t.0 as int,
                )[k] by {
                    assert(s.subrange(p, p + ll + 1)[k] == s[p + k]);
                    assert(s.subrange(p, p + ll)[k] == s[p + k]);
                }
            }
            assert(s[p] == s.subrange(p, p + ll)[0]);
            lemma_skip_ws_stops(s, p);
            lemma_num_parses(s, p, p + ll, t.0 as int);
        },
    }
}

/// A rendered run list followed by `!` (or the input's end) parses
/// back as exactly that run list.
proof fn lemma_parse_runs_text(s: Seq<u8>, p: int, rr: Seq<crate::parser::RleTagSequence>)
    requires
        0 <= p,
        p + runs_text(rr).len() <= s.len(),
        s.subrange(p, p + runs_text(rr).len() as int) == runs_text(rr),
        wf_runs(rr),
        p + runs_text(rr).len() == s.len() || s[p + runs_text(rr).len() as int] == 33,
    ensures
        crate::parser::sp_sequences(s, p) == (p + runs_text(rr).len() as int, rr),
        rr.len() > 0 ==> crate::parser::sp_rle_tag_sequence(s, p) is Ok,
    decreases rr.len(),
{
    let q = p + runs_text(rr).len() as int;
    if rr.len() == 0 {
        assert(q == p);
        lemma_skip_ws_stops(s, p);
        lemma_digits_end_pinned(s, p, p);
        assert(crate::parser::sp_rle_tag_sequence(s, p) is Err);
        assert(crate::parser::sp_sequences(s, p) == (p, Seq::<
            crate::parser::RleTagSequence,
        >::empty()));
        assert(rr =~= Seq::<crate::parser::RleTagSequence>::empty());
    } else {
        let t = rr[0];
        let rest = rr.drop_first();
        assert(runs_text(rr) == run_text(t) + runs_text(rest));
        let p1 = p + run_text(t).len() as int;
        assert(s.subrange(p, p1) =~= run_text(t)) by {
            assert forall|k: int| 0 <= k < run_text(t).len() implies s.subrange(p, p1)[k]
                == run_text(t)[k] by {
                assert(s.subrange(p, q)[k] == s[p + k]);
                assert(s.subrange(p, p1)[k] == s[p + k]);
                assert((run_text(t) + runs_text(rest))[k] == run_text(t)[k]);
            }
        }
        assert(1 <= t.0 && t.0 as int <= i32::MAX as int && (t.1 is NextLine ==> t.0 == 1));
        lemma_tag_seq_parses(s, p, t);
        assert(run_text(t).len() >= 1) by {
            match t.1 {
                crate::parser::RleTag::NextLine => {},
                crate::parser::RleTag::Dead => {
                    lemma_dec_rep_digits(t.0 as int);
                },
                crate::parser::RleTag::Alive => {
                    lemma_dec_rep_digits(t.0 as int);
                },
            }
        }
        assert(s.subrange(p1, q) =~= runs_text(rest)) by {
            assert forall|k: int| 0 <= k < runs_text(rest).len() implies s.subrange(p1, q)[k]
                == runs_text(rest)[k] by {
                assert(s.subrange(p, q)[k + run_text(t).len()] == s[p1 + k]);
                assert(s.subrange(p1, q)[k] == s[p1 + k]);
                assert((run_text(t) + runs_text(rest))[k + run_text(t).len()] == runs_text(
                    rest,
                )[k]);
            }
        }
        assert(wf_runs(rest)) by {
            assert forall|k: int| 0 <= k < rest.len() implies (1 <= (#[trigger] rest[k]).0
                && rest[k].0 as int <= i32::MAX as int && (rest[k].1 is NextLine ==> rest[k].0
                == 1)) by {
                assert(rest[k] == rr[k + 1]);
            }
        }
        lemma_parse_runs_text(s, p1, rest);
        assert(crate::parser::sp_sequences(s, p) == (q, seq![t] + rest));
        assert(seq![t] + rest =~= rr);
    }
}

proof fn lemma_row_runs_wf(v: WorldView, r: int, c: int, hi: int)
    requires
        0 <= c <= hi,
        hi <= i32::MAX as int,
    ensures
        wf_runs(row_runs(v, r, c, hi)),
    decreases hi - c,
{
    if c < hi {
        let e = run_end(v, r, c, hi);
        lemma_run_end_bounds(v, r, c, hi);
        if !alive_at(v, r, c) && e == hi {
        } else if e < hi {
            lemma_row_runs_wf(v, r, e, hi);
            let al = alive_at(v, r, c);
            let tok = crate::parser::RleTagSequence(
                (e - c) as usize,
                if al {
                    crate::parser::RleTag::Alive
                } else {
                    crate::parser::RleTag::Dead
                },
            );
            let rr = row_runs(v, r, c, hi);
            assert(rr == seq![tok] + row_runs(v, r, e, hi));
            assert forall|k: int| 0 <= k < rr.len() implies (1 <= (#[trigger] rr[k]).0
                && rr[k].0 as int <= i32::MAX as int && (rr[k].1 is NextLine ==> rr[k].0
                == 1)) by {
                if k > 0 {
                    assert(rr[k] == row_runs(v, r, e, hi)[k - 1]);
                }
            }
        }
    }
}

proof fn lemma_body_runs_wf(v: WorldView, r_lo: int, r_hi: int, c_lo: int, c_hi: int)
    requires
        r_lo <= r_hi,
        0 <= c_lo <= c_hi,
        c_hi <= i32::MAX as int,
    ensures
        wf_runs(body_runs(v, r_lo, r_hi, c_lo, c_hi)),
    decreases r_hi - r_lo,
{
    if r_lo >= r_hi {
    } else if r_lo + 1 >= r_hi {
        lemma_row_runs_wf(v, r_lo, c_lo, c_hi);
    } else {
        lemma_row_runs_wf(v, r_lo, c_lo, c_hi);
        lemma_body_runs_wf(v, r_lo + 1, r_hi, c_lo, c_hi);
        let row = row_runs(v, r_lo, c_lo, c_hi);
        let sep = seq![crate::parser::RleTagSequence(1, crate::parser::RleTag::NextLine)];
        let rest = body_runs(v, r_lo + 1, r_hi, c_lo, c_hi);
        let bb = body_runs(v, r_lo, r_hi, c_lo, c_hi);
        assert(bb == row + sep + rest);
        assert forall|k: int| 0 <= k < bb.len() implies (1 <= (#[trigger] bb[k]).0
            && bb[k].0 as int <= i32::MAX as int && (bb[k].1 is NextLine ==> bb[k].0 == 1)) by {
            if k < row.len() {
                assert(bb[k] == row[k]);
            } else if k == row.len() {
                assert(bb[k] == sep[0]);
            } else {
                assert(bb[k] == rest[k - row.len() - 1]);
            }
        }
    }
}

/// A row with a live cell in range produces at least one run token.
proof fn lemma_row_runs_nonempty(v: WorldView, r: int, c: int, hi: int, cw: int)
    requires
        c <= cw < hi,
        alive_at(v, r, cw),
    ensures
        row_runs(v, r, c, hi).len() > 0,
{
    let e = run_end(v, r, c, hi);
    lemma_run_end_bounds(v, r, c, hi);
    if !alive_at(v, r, c) && e == hi {
        assert(alive_at(v, r, cw) == alive_at(v, r, c));
        assert(false);
    }
}

proof fn lemma_skip_spaces_stops(s: Seq<u8>, p: int)
    requires
        0 <= p <= s.len(),
        p == s.len() || !crate::parser::is_space_b(s[p]),
    ensures
        crate::parser::sp_skip_spaces(s, p) == p,
{
}

/// Skipping one space lands on the next byte.
proof fn lemma_skip_one_space(s: Seq<u8>, p: int)
    requires
        0 <= p,
        p + 1 <= s.len(),
        crate::parser::is_space_b(s[p]),
        p + 1 == s.len() || !crate::parser::is_space_b(s[p + 1]),
    ensures
        crate::parser::sp_skip_spaces(s, p) == p + 1,
{
    lemma_skip_spaces_stops(s, p + 1);
}

/// Printed signed digits parse back as the number they came from.
proof fn lemma_signed_parses(s: Seq<u8>, p: int, e: int, x: int)
    requires
        0 <= p <= e <= s.len(),
        s.subrange(p, e) == dec_int(x),
        -(i32::MAX as int) <= x,
        x <= i32::MAX as int,
        e == s.len() || !crate::parser::is_digit_b(s[e]),
    ensures
        crate::parser::sp_signed_num(s, p) == Ok::<(int, i32), int>((e, x as i32)),
{
    if x < 0 {
        lemma_dec_rep_digits(-x);
        assert(dec_int(x) == seq![45u8] + dec_rep(-x));
        assert(s.subrange(p, e)[0] == s[p]);
        assert(s[p] == 45);
        assert(s.subrange(p + 1, e) =~= dec_rep(-x)) by {
            assert forall|k: int| 0 <= k < e - p - 1 implies (#[trigger] s.subrange(p + 1, e)[k])
                == dec_rep(-x)[k] by {
                assert(s.subrange(p, e)[k + 1] == s[p + 1 + k]);
                assert(s.subrange(p + 1, e)[k] == s[p + 1 + k]);
            }
        }
        lemma_num_parses(s, p + 1, e, -x);
    } else {
        lemma_dec_rep_digits(x);
        assert(s.subrange(p, e)[0] == s[p]);
        assert(!(s[p] == 45 || s[p] == 43));
        lemma_num_parses(s, p, e, x);
    }
}

/// The header text the exporter writes.
pub open spec fn header_bytes(w: int, h: int) -> Seq<u8> {
    seq![120u8, 32u8, 61u8, 32u8] + dec_rep(w) + seq![44u8, 32u8, 121u8, 32u8, 61u8, 32u8]
        + dec_rep(h) + seq![10u8]
}

/// The coordinates comment the exporter writes.
pub open spec fn coord_bytes(x: int, y: int) -> Seq<u8> {
    seq![35u8, 82u8, 32u8] + dec_int(x) + seq![32u8] + dec_int(y) + seq![10u8]
}

/// The printed header parses back as the size it came from.
proof fn lemma_first_line_parses(s: Seq<u8>, p: int, w: int, h: int)
    requires
        0 <= p,
        p + header_bytes(w, h).len() <= s.len(),
        s.subrange(p, p + header_bytes(w, h).len() as int) == header_bytes(w, h),
        0 <= w,
        w <= i32::MAX as int,
        0 <= h,
        h <= i32::MAX as int,
    ensures
        crate::parser::sp_rle_first_line(s, p) == Ok::<(int, crate::parser::RleFirstLine), int>((
            p + header_bytes(w, h).len() as int,
            crate::parser::RleFirstLine(w as usize, h as usize),
        )),
{
    lemma_dec_rep_digits(w);
    lemma_dec_rep_digits(h);
    let hb = header_bytes(w, h);
    let lw = dec_rep(w).len() as int;
    let lh = dec_rep(h).len() as int;
    let e = p + hb.len() as int;
    assert forall|k: int| 0 <= k < hb.len() implies s[p + k] == hb[k] by {
        assert(s.subrange(p, e)[k] == s[p + k]);
    }
    assert(hb[0] == 120);
    assert(hb[1] == 32);
    assert(hb[2] == 61);
    assert(hb[3] == 32);
    assert forall|k: int| 0 <= k < lw implies hb[4 + k] == dec_rep(w)[k] by {}
    assert(hb[4 + lw] == 44);
    assert(hb[5 + lw] == 32);
    assert(hb[6 + lw] == 121);
    assert(hb[7 + lw] == 32);
    assert(hb[8 + lw] == 61);
    assert(hb[9 + lw] == 32);
    assert forall|k: int| 0 <= k < lh implies hb[10 + lw + k] == dec_rep(h)[k] by {}
    assert(hb[10 + lw + lh] == 10);
    assert(hb.len() == 11 + lw + lh);
    lemma_skip_spaces_stops(s, p);
    lemma_skip_one_space(s, p + 1);
    assert(s[p + 4] == dec_rep(w)[0]);
    assert(48 <= s[p + 4] && s[p + 4] <= 57);
    lemma_skip_one_space(s, p + 3);
    assert(s.subrange(p + 4, p + 4 + lw) =~= dec_rep(w)) by {
        assert forall|k: int| 0 <= k < lw implies s.subrange(p + 4, p + 4 + lw)[k] == dec_rep(
            w,
        )[k] by {
            assert(s.subrange(p + 4, p + 4 + lw)[k] == s[p + 4 + k]);
        }
    }
    lemma_num_parses(s, p + 4, p + 4 + lw, w);
    lemma_skip_spaces_stops(s, p + 4 + lw);
    lemma_skip_one_space(s, p + 5 + lw);
    lemma_skip_one_space(s, p + 7 + lw);
    assert(s[p + 10 + lw] == dec_rep(h)[0]);
    assert(48 <= s[p + 10 + lw] && s[p + 10 + lw] <= 57);
    lemma_skip_one_space(s, p + 9 + lw);
    assert(s.subrange(p + 10 + lw, p + 10 + lw + lh) =~= dec_rep(h)) by {
        assert forall|k: int| 0 <= k < lh implies s.subrange(p + 10 + lw, p + 10 + lw + lh)[k]
            == dec_rep(h)[k] by {
            assert(s.subrange(p + 10 + lw, p + 10 + lw + lh)[k] == s[p + 10 + lw + k]);
        }
    }
    lemma_num_parses(s, p + 10 + lw, p + 10 + lw + lh, h);
    assert(s[p + 10 + lw + lh] == 10);
    assert(crate::parser::sp_find_newline(s, p + 10 + lw + lh) == Some(p + 10 + lw + lh));
}

/// The printed coordinates comment parses back as itself, and it is
/// the first comment form the parser tries.
proof fn lemma_coords_comment_parses(s: Seq<u8>, p: int, x: int, y: int)
    requires
        0 <= p,
        p + coord_bytes(x, y).len() <= s.len(),
        s.subrange(p, p + coord_bytes(x, y).len() as int) == coord_bytes(x, y),
        -(i32::MAX as int) <= x,
        x <= i32::MAX as int,
        -(i32::MAX as int) <= y,
        y <= i32::MAX as int,
    ensures
        crate::parser::sp_rle_comment(s, p) == Ok::<(int, crate::parser::CommentV), int>((
            p + coord_bytes(x, y).len() as int,
            crate::parser::CommentV::Coordinates(x, y),
        )),
{
    let cb = coord_bytes(x, y);
    let lx = dec_int(x).len() as int;
    let ly = dec_int(y).len() as int;
    let e = p + cb.len() as int;
    assert(dec_int(x).len() >= 1 && dec_int(y).len() >= 1) by {
        if x < 0 {
            lemma_dec_rep_digits(-x);
        } else {
            lemma_dec_rep_digits(x);
        }
        if y < 0 {
            lemma_dec_rep_digits(-y);
        } else {
            lemma_dec_rep_digits(y);
        }
    }
    assert forall|k: int| 0 <= k < cb.len() implies s[p + k] == cb[k] by {
        assert(s.subrange(p, e)[k] == s[p + k]);
    }
    assert(cb[0] == 35);
    assert(cb[1] == 82);
    assert(cb[2] == 32);
    assert forall|k: int| 0 <= k < lx implies cb[3 + k] == dec_int(x)[k] by {}
    assert(cb[3 + lx] == 32);
    assert forall|k: int| 0 <= k < ly implies cb[4 + lx + k] == dec_int(y)[k] by {}
    assert(cb[4 + lx + ly] == 10);
    assert(cb.len() == 5 + lx + ly);
    lemma_skip_spaces_stops(s, p);
    assert(s.subrange(p + 3, p + 3 + lx) =~= dec_int(x)) by {
        assert forall|k: int| 0 <= k < lx implies s.subrange(p + 3, p + 3 + lx)[k] == dec_int(
            x,
        )[k] by {
            assert(s.subrange(p + 3, p + 3 + lx)[k] == s[p + 3 + k]);
        }
    }
    lemma_signed_parses(s, p + 3, p + 3 + lx, x);
    assert(s[p + 4 + lx] == dec_int(y)[0]);
    assert(!crate::parser::is_space_b(s[p + 4 + lx])) by {
        if y < 0 {
            assert(dec_int(y)[0] == 45);
        } else {
            lemma_dec_rep_digits(y);
            assert(dec_int(y)[0] == dec_rep(y)[0]);
        }
    }
    lemma_skip_one_space(s, p + 3 + lx);
    assert(s.subrange(p + 4 + lx, p + 4 + lx + ly) =~= dec_int(y)) by {
        assert forall|k: int| 0 <= k < ly implies s.subrange(p + 4 + lx, p + 4 + lx + ly)[k]
            == dec_int(y)[k] by {
            assert(s.subrange(p + 4 + lx, p + 4 + lx + ly)[k] == s[p + 4 + lx + k]);
        }
    }
    lemma_signed_parses(s, p + 4 + lx, p + 4 + lx + ly, y);
    assert(s[p + 4 + lx + ly] == 10);
    assert(crate::parser::sp_line_ending(s, p + 4 + lx + ly) == Ok::<int, int>(e));
    assert(crate::parser::sp_comment_coordinates(s, p) == Ok::<
        (int, crate::parser::CommentV),
        int,
    >((e, crate::parser::CommentV::Coordinates(x, y))));
}

/// No comment form parses where the line starts with anything but
/// spaces and `#`.
proof fn lemma_comment_fails(s: Seq<u8>, p: int)
    requires
        0 <= p,
        p < s.len(),
        !crate::parser::is_space_b(s[p]),
        s[p] != 35,
    ensures
        crate::parser::sp_rle_comment(s, p) is Err,
{
    lemma_skip_spaces_stops(s, p);
}

/// The parser leg of the export/load round trip: the exporter's
/// complete output parses back, consuming every byte, into exactly
/// one coordinates comment (the box offset from the grid center),
/// the box size, and the box's run structure.
#[verifier::spinoff_prover]
#[verifier::rlimit(100)]
pub proof fn lemma_export_parses_back(v: WorldView, fr: int, lr: int, fc: int, lc: int)
    requires
        wf_view(v),
        sp_first_row(v, 0) == Some(fr),
        sp_last_row(v, v.height - 1) == Some(lr),
        sp_first_col(v, 0) == Some(fc),
        sp_last_col(v, v.width - 1) == Some(lc),
    ensures
        crate::parser::sp_parse_rle(export_bytes(v)) == Ok::<(int, crate::parser::RleV), int>((
            export_bytes(v).len() as int,
            crate::parser::RleV {
                comments: seq![
                    crate::parser::CommentV::Coordinates(fc - v.width / 2, fr - v.height / 2),
                ],
                size: crate::parser::RleFirstLine((lc - fc + 1) as usize, (lr - fr + 1) as usize),
                content: body_runs(v, fr, lr + 1, fc, lc + 1),
            },
        )),
{
    lemma_first_row_props(v, 0);
    lemma_last_row_props(v, v.height - 1);
    lemma_first_col_props(v, 0);
    lemma_last_col_props(v, v.width - 1);
    vstd::arithmetic::mul::lemma_mul_inequality(1, v.height, v.width);
    assert(1 * v.width == v.width);
    vstd::arithmetic::mul::lemma_mul_inequality(1, v.width, v.height);
    assert(1 * v.height == v.height);
    vstd::arithmetic::mul::lemma_mul_is_commutative(v.width, v.height);
    assert(v.width <= i32::MAX as int);
    assert(v.height <= i32::MAX as int);
    let s = export_bytes(v);
    let x0 = fc - v.width / 2;
    let y0 = fr - v.height / 2;
    let bw = lc - fc + 1;
    let bh = lr - fr + 1;
    let cb = coord_bytes(x0, y0);
    let hb = header_bytes(bw, bh);
    let bt = sp_body(v, fr, lr + 1, fc, lc + 1);
    vstd::arithmetic::div_mod::lemma_div_pos_is_pos(v.width, 2);
    vstd::arithmetic::div_mod::lemma_div_is_ordered(v.width, i32::MAX as int, 2);
    vstd::arithmetic::div_mod::lemma_div_pos_is_pos(v.height, 2);
    vstd::arithmetic::div_mod::lemma_div_is_ordered(v.height, i32::MAX as int, 2);
    assert(-(i32::MAX as int) <= x0 && x0 <= i32::MAX as int);
    assert(-(i32::MAX as int) <= y0 && y0 <= i32::MAX as int);
    assert(1 <= bw && bw <= i32::MAX as int);
    assert(1 <= bh && bh <= i32::MAX as int);
    assert(s =~= cb + hb + bt + seq![33u8]);
    let hpos = cb.len() as int;
    let j2 = hpos + hb.len() as int;
    let q = j2 + bt.len() as int;
    assert(s.subrange(0, hpos) =~= cb) by {
        assert forall|k: int| 0 <= k < hpos implies s.subrange(0, hpos)[k] == cb[k] by {
            assert(s[k] == (cb + hb + bt + seq![33u8])[k]);
        }
    }
    assert(s.subrange(hpos, j2) =~= hb) by {
        assert forall|k: int| 0 <= k < hb.len() implies s.subrange(hpos, j2)[k] == hb[k] by {
            assert(s.subrange(hpos, j2)[k] == s[hpos + k]);
            assert(s[hpos + k] == (cb + hb + bt + seq![33u8])[hpos + k]);
        }
    }
    assert(s.subrange(j2, q) =~= bt) by {
        assert forall|k: int| 0 <= k < bt.len() implies s.subrange(j2, q)[k] == bt[k] by {
            assert(s.subrange(j2, q)[k] == s[j2 + k]);
            assert(s[j2 + k] == (cb + hb + bt + seq![33u8])[j2 + k]);
        }
    }
    assert(s[q] == (cb + hb + bt + seq![33u8])[q]);
    assert(s[q] == 33);
    assert(s.len() == q + 1);
    // Comments: the one coordinates comment, then the header stops
    // the comment loop.
    lemma_coords_comment_parses(s, 0, x0, y0);
    assert(s[hpos] == (cb + hb + bt + seq![33u8])[hpos]);
    assert(hb[0] == 120);
    assert(s[hpos] == 120);
    lemma_comment_fails(s, hpos);
    let coordv = crate::parser::CommentV::Coordinates(x0, y0);
    assert(crate::parser::sp_comments(s, hpos) == (hpos, Seq::<
        crate::parser::CommentV,
    >::empty()));
    assert(crate::parser::sp_comments(s, 0) == (hpos, seq![coordv] + Seq::<
        crate::parser::CommentV,
    >::empty()));
    assert(seq![coordv] + Seq::<crate::parser::CommentV>::empty() =~= seq![coordv]);
    // Header.
    lemma_first_line_parses(s, hpos, bw, bh);
    // Body.
    lemma_body_text(v, fr, lr + 1, fc, lc + 1);
    lemma_body_runs_wf(v, fr, lr + 1, fc, lc + 1);
    let rr = body_runs(v, fr, lr + 1, fc, lc + 1);
    assert(runs_text(rr) == bt);
    lemma_parse_runs_text(s, j2, rr);
    // The body is non-empty: the first box row holds a live cell.
    assert(rr.len() > 0) by {
        assert(row_has_alive(v, fr));
        let cw = choose|c: int| 0 <= c < v.width && #[trigger] alive_at(v, fr, c);
        assert(col_has_alive(v, cw));
        assert(fc <= cw <= lc);
        lemma_row_runs_nonempty(v, fr, fc, lc + 1, cw);
        if fr + 1 < lr + 1 {
            assert(rr.len() >= row_runs(v, fr, fc, lc + 1).len());
        }
    }
    assert(crate::parser::sp_rle_tag_sequence(s, j2) is Ok);
    let rv = crate::parser::RleV {
        comments: seq![coordv],
        size: crate::parser::RleFirstLine(bw as usize, bh as usize),
        content: rr,
    };
    assert(crate::parser::sp_parse_rle(s) matches Ok(pr) && pr.0 == q + 1 && pr.1 =~= rv);
}

proof fn lemma_dec_int_ascii(x: int)
    requires
        -(i32::MAX as int) <= x,
        x <= i32::MAX as int,
    ensures
        ascii_bytes(dec_int(x)),
{
    if x < 0 {
        lemma_dec_rep_ascii(-x);
        assert forall|k: int| 0 <= k < dec_int(x).len() implies #[trigger] dec_int(x)[k]
            < 128 by {
            if k > 0 {
                assert(dec_int(x)[k] == dec_rep(-x)[k - 1]);
            }
        }
    } else {
        lemma_dec_rep_ascii(x);
    }
}

proof fn lemma_runs_text_ascii(rr: Seq<crate::parser::RleTagSequence>)
    ensures
        ascii_bytes(runs_text(rr)),
    decreases rr.len(),
{
    if rr.len() > 0 {
        lemma_runs_text_ascii(rr.drop_first());
        let t = rr[0];
        assert(ascii_bytes(run_text(t))) by {
            match t.1 {
                crate::parser::RleTag::NextLine => {},
                crate::parser::RleTag::Dead => {
                    lemma_dec_rep_ascii(t.0 as int);
                    assert forall|k: int| 0 <= k < run_text(t).len() implies #[trigger] run_text(
                        t,
                    )[k] < 128 by {
                        if k < dec_rep(t.0 as int).len() {
                            assert(run_text(t)[k] == dec_rep(t.0 as int)[k]);
                        }
                    }
                },
                crate::parser::RleTag::Alive => {
                    lemma_dec_rep_ascii(t.0 as int);
                    assert forall|k: int| 0 <= k < run_text(t).len() implies #[trigger] run_text(
                        t,
                    )[k] < 128 by {
                        if k < dec_rep(t.0 as int).len() {
                            assert(run_text(t)[k] == dec_rep(t.0 as int)[k]);
                        }
                    }
                },
            }
        }
        assert forall|k: int| 0 <= k < runs_text(rr).len() implies #[trigger] runs_text(rr)[k]
            < 128 by {
            if k < run_text(t).len() {
                assert(runs_text(rr)[k] == run_text(t)[k]);
            } else {
                assert(runs_text(rr)[k] == runs_text(rr.drop_first())[k - run_text(t).len()]);
            }
        }
    }
}

/// Everything the exporter emits is ASCII.
proof fn lemma_export_bytes_ascii(v: WorldView, fr: int, lr: int, fc: int, lc: int)
    requires
        wf_view(v),
        sp_first_row(v, 0) == Some(fr),
        sp_last_row(v, v.height - 1) == Some(lr),
        sp_first_col(v, 0) == Some(fc),
        sp_last_col(v, v.width - 1) == Some(lc),
    ensures
        ascii_bytes(export_bytes(v)),
{
    lemma_first_row_props(v, 0);
    lemma_last_row_props(v, v.height - 1);
    lemma_first_col_props(v, 0);
    lemma_last_col_props(v, v.width - 1);
    vstd::arithmetic::mul::lemma_mul_inequality(1, v.height, v.width);
    assert(1 * v.width == v.width);
    vstd::arithmetic::mul::lemma_mul_inequality(1, v.width, v.height);
    assert(1 * v.height == v.height);
    vstd::arithmetic::mul::lemma_mul_is_commutative(v.width, v.height);
    vstd::arithmetic::div_mod::lemma_div_pos_is_pos(v.width, 2);
    vstd::arithmetic::div_mod::lemma_div_is_ordered(v.width, i32::MAX as int, 2);
    vstd::arithmetic::div_mod::lemma_div_pos_is_pos(v.height, 2);
    vstd::arithmetic::div_mod::lemma_div_is_ordered(v.height, i32::MAX as int, 2);
    let s = export_bytes(v);
    let x0 = fc - v.width / 2;
    let y0 = fr - v.height / 2;
    let bw = lc - fc + 1;
    let bh = lr - fr + 1;
    let cb = coord_bytes(x0, y0);
    let hb = header_bytes(bw, bh);
    let bt = sp_body(v, fr, lr + 1, fc, lc + 1);
    assert(s =~= cb + hb + bt + seq![33u8]);
    lemma_dec_int_ascii(x0);
    lemma_dec_int_ascii(y0);
    lemma_dec_rep_ascii(bw);
    lemma_dec_rep_ascii(bh);
    lemma_body_text(v, fr, lr + 1, fc, lc + 1);
    lemma_runs_text_ascii(body_runs(v, fr, lr + 1, fc, lc + 1));
    assert(ascii_bytes(cb)) by {
        let lx = dec_int(x0).len() as int;
        let ly = dec_int(y0).len() as int;
        assert forall|k: int| 0 <= k < cb.len() implies #[trigger] cb[k] < 128 by {
            if 3 <= k < 3 + lx {
                assert(cb[k] == dec_int(x0)[k - 3]);
            } else if 4 + lx <= k < 4 + lx + ly {
                assert(cb[k] == dec_int(y0)[k - 4 - lx]);
            }
        }
    }
    assert(ascii_bytes(hb)) by {
        let lw = dec_rep(bw).len() as int;
        let lh = dec_rep(bh).len() as int;
        assert forall|k: int| 0 <= k < hb.len() implies #[trigger] hb[k] < 128 by {
            if 4 <= k < 4 + lw {
                assert(hb[k] == dec_rep(bw)[k - 4]);
            } else if 10 + lw <= k < 10 + lw + lh {
                assert(hb[k] == dec_rep(bh)[k - 10 - lw]);
            }
        }
    }
    assert forall|k: int| 0 <= k < s.len() implies #[trigger] s[k] < 128 by {
        assert(s[k] == (cb + hb + bt + seq![33u8])[k]);
        if k < cb.len() {
            assert(cb[k] < 128);
        } else if k < cb.len() + hb.len() {
            assert(hb[k - cb.len()] < 128);
        } else if k < cb.len() + hb.len() + bt.len() {
            assert(bt[k - cb.len() - hb.len()] < 128);
        }
    }
}

/// The exporter's character output encodes to exactly its byte
/// output, so a caller feeding `export_rle`'s string to `load_string`
/// hands the parser `export_bytes` verbatim.
pub proof fn lemma_export_text_encodes(v: WorldView, fr: int, lr: int, fc: int, lc: int)
    requires
        wf_view(v),
        sp_first_row(v, 0) == Some(fr),
        sp_last_row(v, v.height - 1) == Some(lr),
        sp_first_col(v, 0) == Some(fc),
        sp_last_col(v, v.width - 1) == Some(lc),
    ensures
        vstd::utf8::encode_utf8(export_text(v)) == export_bytes(v),
{
    lemma_export_bytes_ascii(v, fr, lr, fc, lc);
    let bytes = export_bytes(v);
    let chars = bytes.map(|_i: int, b: u8| b as char);
    assert(vstd::utf8::is_ascii_chars(chars));
    vstd::utf8::is_ascii_chars_encode_utf8(chars);
    assert(vstd::utf8::encode_utf8(chars) =~= bytes);
}

/// The round-trip law: exporting any grid with a live cell and
/// loading the text into an all-dead grid of the same dimensions
/// reproduces the cell buffer exactly.
pub proof fn lemma_export_load_round_trip(
    v: WorldView,
    u: WorldView,
    fr: int,
    lr: int,
    fc: int,
    lc: int,
)
    requires
        wf_view(v),
        u.width == v.width,
        u.height == v.height,
        u.cells.len() == v.cells.len(),
        forall|x: int| 0 <= x < u.cells.len() ==> !#[trigger] u.cells[x],
        sp_first_row(v, 0) == Some(fr),
        sp_last_row(v, v.height - 1) == Some(lr),
        sp_first_col(v, 0) == Some(fc),
        sp_last_col(v, v.width - 1) == Some(lc),
    ensures
        crate::parser::sp_parse_rle(export_bytes(v)) matches Ok(pr) && loaded(u, pr.1).cells
            == v.cells,
{
    lemma_export_parses_back(v, fr, lr, fc, lc);
    let rv = crate::parser::RleV {
        comments: seq![crate::parser::CommentV::Coordinates(fc - v.width / 2, fr - v.height / 2)],
        size: crate::parser::RleFirstLine((lc - fc + 1) as usize, (lr - fr + 1) as usize),
        content: body_runs(v, fr, lr + 1, fc, lc + 1),
    };
    assert(sp_first_coords(rv.comments) == Some((fc - v.width / 2, fr - v.height / 2)));
    lemma_export_anchor_round_trip(u, rv, fr, fc);
    lemma_export_runs_round_trip(v, u, fr, lr, fc, lc);
}

/// The numeral leg of the export/load round trip: the decimal
/// digits the exporter prints for a run length or size read back as
/// exactly the number they came from.
pub proof fn lemma_dec_rep_value(n: int)
    requires
        n >= 0,
    ensures
        crate::parser::digits_value(dec_rep(n).map(|_i: int, b: u8| b as char)) == n,
        crate::parser::all_digit_chars(dec_rep(n).map(|_i: int, b: u8| b as char)),
    decreases n,
{
    let cs = dec_rep(n).map(|_i: int, b: u8| b as char);
    if n < 10 {
        assert(cs =~= seq![(48 + n) as u8 as char]);
        assert(cs.drop_last() =~= Seq::<char>::empty());
        assert((48 + n) as u8 as char as int == 48 + n);
        assert(crate::parser::digits_value(cs.drop_last()) == 0);
        assert(cs.last() as int == 48 + n);
        assert(crate::parser::digits_value(cs) == n);
        assert forall|k: int| 0 <= k < cs.len() implies 48 <= (#[trigger] cs[k]) as int <= 57 by {
            assert(cs[k] == (48 + n) as u8 as char);
        }
    } else {
        lemma_dec_rep_value(n / 10);
        vstd::arithmetic::div_mod::lemma_mod_division_less_than_divisor(n, 10);
        vstd::arithmetic::div_mod::lemma_div_pos_is_pos(n, 10);
        vstd::arithmetic::div_mod::lemma_fundamental_div_mod(n, 10);
        let prev = dec_rep(n / 10).map(|_i: int, b: u8| b as char);
        assert(cs.drop_last() =~= prev);
        assert(cs.last() == (48 + n % 10) as u8 as char);
        assert((48 + n % 10) as u8 as char as int == 48 + n % 10);
        assert(crate::parser::digits_value(cs) == crate::parser::digits_value(prev) * 10 + (n
            % 10));
        assert(crate::parser::digits_value(cs) == n);
        assert forall|k: int| 0 <= k < cs.len() implies 48 <= (#[trigger] cs[k]) as int <= 57 by {
            if k < cs.len() - 1 {
                assert(cs[k] == prev[k]);
                assert(48 <= prev[k] as int <= 57);
            } else {
                assert(cs[k] == (48 + n % 10) as u8 as char);
            }
        }
    }
}

/// One leg of the export/load round trip: the loader's anchor
/// computation inverts the exporter's. A pattern whose first
/// coordinates comment carries the `#R` offset the exporter writes
/// for a bounding box with top-left corner `(fr, fc)` is replayed
/// with its cursor starting exactly at `(fr, fc)` again.
pub proof fn lemma_export_anchor_round_trip(
    v: WorldView,
    rv: crate::parser::RleV,
    fr: int,
    fc: int,
)
    requires
        sp_first_coords(rv.comments) == Some((fc - v.width / 2, fr - v.height / 2)),
    ensures
        loaded(v, rv) == apply_runs(v, rv.content, fc, fr, fc),
{
}

/// Every byte of a plaintext pattern is `.`, `o`, `O` or a newline.
pub open spec fn plain_chars_ok(bytes: Seq<u8>) -> bool {
    forall|k: int|
        0 <= k < bytes.len() ==> ((#[trigger] bytes[k]) == 46 || bytes[k] == 111 || bytes[k] == 79
            || bytes[k] == 10)
}

/// All newline-separated rows from `i` on have length `expect`.
pub open spec fn sp_rows_equal(bytes: Seq<u8>, i: int, expect: int) -> bool
    decreases bytes.len() - i when 0 <= i <= bytes.len()
{
    if i >= bytes.len() {
        true
    } else {
        match crate::parser::sp_find_newline(bytes, i) {
            Some(nl) => nl - i == expect && (if i <= nl < bytes.len() {
                sp_rows_equal(bytes, nl + 1, expect)
            } else {
                true
            }),
            None => bytes.len() - i == expect,
        }
    }
}

/// Length of the first row of a plaintext pattern.
pub open spec fn sp_first_line_len(bytes: Seq<u8>) -> int {
    match crate::parser::sp_find_newline(bytes, 0) {
        Some(nl) => nl,
        None => bytes.len() as int,
    }
}

/// The model after replaying a plaintext pattern from byte `p` with
/// cursor `(j, i)`: a newline moves to the next row and back to
/// column `col0`; any other (valid) byte writes one cell.
pub open spec fn apply_plain(
    v: WorldView,
    bytes: Seq<u8>,
    p: int,
    j: int,
    i: int,
    col0: int,
) -> WorldView
    decreases bytes.len() - p when 0 <= p <= bytes.len()
{
    if p >= bytes.len() {
        v
    } else if bytes[p] == 10 {
        apply_plain(v, bytes, p + 1, cap_cursor(j + 1), col0, col0)
    } else {
        let alive = bytes[p] == 111 || bytes[p] == 79;
        let v1 = if loader_writable(v, j, i) {
            with_write(v, spec_index(v, j, i), alive)
        } else {
            v
        };
        apply_plain(v1, bytes, p + 1, j, cap_cursor(i + 1), col0)
    }
}

/// The soundness condition behind the incremental tick: every cell
/// whose state is about to flip lies in the closure of the recorded
/// change set. Freshly built, cleared, edited and ticked grids all
/// satisfy it; only discarding the change list and then editing can
/// break it.
pub open spec fn changes_covered(v: WorldView) -> bool {
    forall|j: int|
        0 <= j < v.cells.len() && #[trigger] next_at(v, j) != v.cells[j] ==> is_candidate(v, j)
}

/// `x % m` is `x` itself when `x` already lies in `[0, m)`.
proof fn lemma_mod_identity(x: int, m: int)
    requires
        0 < m,
        0 <= x,
        x < m,
    ensures
        x % m == x,
{
    vstd::arithmetic::div_mod::lemma_small_mod(x as nat, m as nat);
}

/// Row and column of an in-range linear index: both are in range and
/// recombine to the index.
proof fn lemma_index_coords(v: WorldView, i: int)
    requires
        wf_view(v),
        0 <= i,
        i < v.width * v.height,
    ensures
        0 <= i / v.width,
        i / v.width < v.height,
        0 <= i % v.width,
        i % v.width < v.width,
        i == (i / v.width) * v.width + (i % v.width),
{
    vstd::arithmetic::div_mod::lemma_mod_division_less_than_divisor(i, v.width);
    vstd::arithmetic::div_mod::lemma_div_pos_is_pos(i, v.width);
    assert(i < v.width * v.height);
    vstd::arithmetic::div_mod::lemma_multiply_divide_lt(i, v.width, v.height);
    vstd::arithmetic::div_mod::lemma_fundamental_div_mod(i, v.width);
    vstd::arithmetic::mul::lemma_mul_is_commutative(i / v.width, v.width);
}

/// Every in-range index lies in its own closure (offset `(0, 0)`).
proof fn lemma_self_in_closure(v: WorldView, i: int)
    requires
        wf_view(v),
        0 <= i,
        i < v.width * v.height,
    ensures
        in_closure(v, i, i),
{
    lemma_index_coords(v, i);
    let r = i / v.width;
    let c = i % v.width;
    lemma_mod_identity(r, v.height);
    lemma_mod_identity(c, v.width);
    assert(resolves(v, i, 0, 0, i));
}

/// How membership in an index list behaves under `push`.
proof fn lemma_int_seq_push_contains(s: Seq<i32>, v: i32, j: int)
    ensures
        int_seq(s.push(v)).contains(j) <==> (int_seq(s).contains(j) || j == v as int),
{
    if int_seq(s).contains(j) {
        let k = choose|k: int| 0 <= k < s.len() && int_seq(s)[k] == j;
        assert(int_seq(s.push(v))[k] == j);
    }
    if j == v as int {
        assert(int_seq(s.push(v))[s.len() as int] == j);
    }
    if int_seq(s.push(v)).contains(j) {
        let k = choose|k: int| 0 <= k < s.push(v).len() && int_seq(s.push(v))[k] == j;
        if k < s.len() {
            assert(int_seq(s)[k] == j);
        }
    }
}

/// A wrapped linear index is always in range.
proof fn lemma_spec_index_range(v: WorldView, r: int, c: int)
    requires
        0 < v.width,
        0 < v.height,
    ensures
        0 <= spec_index(v, r, c),
        spec_index(v, r, c) < v.width * v.height,
{
    vstd::arithmetic::div_mod::lemma_mod_division_less_than_divisor(r, v.height);
    vstd::arithmetic::div_mod::lemma_mod_division_less_than_divisor(c, v.width);
    vstd::arithmetic::mul::lemma_mul_nonnegative(r % v.height, v.width);
    vstd::arithmetic::mul::lemma_mul_inequality(r % v.height, v.height - 1, v.width);
    assert((v.height - 1) * v.width == v.height * v.width - v.width) by (nonlinear_arith);
    vstd::arithmetic::mul::lemma_mul_is_commutative(v.height, v.width);
}

/// What one Moore offset resolves to is always an in-range index.
proof fn lemma_resolve_in_range(v: WorldView, i: int, dr: int, dc: int, x: int)
    requires
        wf_view(v),
        0 <= i,
        i < v.width * v.height,
        resolves(v, i, dr, dc, x),
    ensures
        0 <= x,
        x < v.width * v.height,
{
    lemma_index_coords(v, i);
    let r = i / v.width;
    let c = i % v.width;
    match v.mode {
        Mode::Torus => {
            lemma_spec_index_range(v, r + dr, c + dc);
        },
        Mode::Finite => {
            lemma_mod_identity(r + dr, v.height);
            lemma_mod_identity(c + dc, v.width);
            lemma_spec_index_range(v, r + dr, c + dc);
        },
    }
}

/// Every member of a closure is an in-range index.
proof fn lemma_closure_in_range(v: WorldView, i: int, x: int)
    requires
        wf_view(v),
        0 <= i,
        i < v.width * v.height,
        in_closure(v, i, x),
    ensures
        0 <= x,
        x < v.width * v.height,
{
    if resolves(v, i, -1, -1, x) {
        lemma_resolve_in_range(v, i, -1, -1, x);
    } else if resolves(v, i, -1, 0, x) {
        lemma_resolve_in_range(v, i, -1, 0, x);
    } else if resolves(v, i, -1, 1, x) {
        lemma_resolve_in_range(v, i, -1, 1, x);
    } else if resolves(v, i, 0, -1, x) {
        lemma_resolve_in_range(v, i, 0, -1, x);
    } else if resolves(v, i, 0, 0, x) {
        lemma_resolve_in_range(v, i, 0, 0, x);
    } else if resolves(v, i, 0, 1, x) {
        lemma_resolve_in_range(v, i, 0, 1, x);
    } else if resolves(v, i, 1, -1, x) {
        lemma_resolve_in_range(v, i, 1, -1, x);
    } else if resolves(v, i, 1, 0, x) {
        lemma_resolve_in_range(v, i, 1, 0, x);
    } else {
        lemma_resolve_in_range(v, i, 1, 1, x);
    }
}

/// Stepping a coordinate by one, wrapping, and stepping back lands on
/// the original coordinate.
proof fn lemma_wrap_step(x: int, d: int, m: int)
    requires
        0 < m,
        0 <= x,
        x < m,
        -1 <= d,
        d <= 1,
    ensures
        (((x + d) % m) - d) % m == x,
{
    if 0 <= x + d && x + d < m {
        lemma_mod_identity(x + d, m);
        lemma_mod_identity(x, m);
    } else if x + d == m {
        vstd::arithmetic::div_mod::lemma_mod_self_0(m);
        vstd::arithmetic::div_mod::lemma_mod_add_multiples_vanish(-1, m);
        lemma_mod_identity(m - 1, m);
    } else {
        vstd::arithmetic::div_mod::lemma_mod_add_multiples_vanish(-1, m);
        lemma_mod_identity(m - 1, m);
        vstd::arithmetic::div_mod::lemma_mod_self_0(m);
    }
}

/// The Moore-offset relation is symmetric: if `(dr, dc)` leads from
/// `a` to `b`, then `(-dr, -dc)` leads from `b` back to `a`.
proof fn lemma_resolve_symmetric(v: WorldView, a: int, b: int, dr: int, dc: int)
    requires
        wf_view(v),
        0 <= a,
        a < v.width * v.height,
        0 <= b,
        b < v.width * v.height,
        -1 <= dr,
        dr <= 1,
        -1 <= dc,
        dc <= 1,
        resolves(v, a, dr, dc, b),
    ensures
        resolves(v, b, -dr, -dc, a),
{
    lemma_index_coords(v, a);
    lemma_index_coords(v, b);
    let w = v.width;
    let h = v.height;
    let ra = a / w;
    let ca = a % w;
    match v.mode {
        Mode::Torus => {
            vstd::arithmetic::div_mod::lemma_mod_division_less_than_divisor(ra + dr, h);
            vstd::arithmetic::div_mod::lemma_mod_division_less_than_divisor(ca + dc, w);
            vstd::arithmetic::div_mod::lemma_fundamental_div_mod_converse(
                b,
                w,
                (ra + dr) % h,
                (ca + dc) % w,
            );
            lemma_wrap_step(ra, dr, h);
            lemma_wrap_step(ca, dc, w);
            assert(a == ra * w + ca);
        },
        Mode::Finite => {
            vstd::arithmetic::div_mod::lemma_fundamental_div_mod_converse(b, w, ra + dr, ca + dc);
            assert(a == ra * w + ca);
        },
    }
}

/// Closures are symmetric: a cell is in its neighbor's closure
/// exactly when the neighbor is in its own.
proof fn lemma_closure_symmetric(v: WorldView, a: int, b: int)
    requires
        wf_view(v),
        0 <= a,
        a < v.width * v.height,
        0 <= b,
        b < v.width * v.height,
        in_closure(v, a, b),
    ensures
        in_closure(v, b, a),
{
    if resolves(v, a, -1, -1, b) {
        lemma_resolve_symmetric(v, a, b, -1, -1);
        assert(resolves(v, b, 1, 1, a));
    } else if resolves(v, a, -1, 0, b) {
        lemma_resolve_symmetric(v, a, b, -1, 0);
        assert(resolves(v, b, 1, 0, a));
    } else if resolves(v, a, -1, 1, b) {
        lemma_resolve_symmetric(v, a, b, -1, 1);
        assert(resolves(v, b, 1, -1, a));
    } else if resolves(v, a, 0, -1, b) {
        lemma_resolve_symmetric(v, a, b, 0, -1);
        assert(resolves(v, b, 0, 1, a));
    } else if resolves(v, a, 0, 0, b) {
        lemma_resolve_symmetric(v, a, b, 0, 0);
        assert(resolves(v, b, 0, 0, a));
    } else if resolves(v, a, 0, 1, b) {
        lemma_resolve_symmetric(v, a, b, 0, 1);
        assert(resolves(v, b, 0, -1, a));
    } else if resolves(v, a, 1, -1, b) {
        lemma_resolve_symmetric(v, a, b, 1, -1);
        assert(resolves(v, b, -1, 1, a));
    } else if resolves(v, a, 1, 0, b) {
        lemma_resolve_symmetric(v, a, b, 1, 0);
        assert(resolves(v, b, -1, 0, a));
    } else {
        lemma_resolve_symmetric(v, a, b, 1, 1);
        assert(resolves(v, b, -1, -1, a));
    }
}

/// A cell's next state depends only on the cells in its closure: two
/// grids of the same shape and topology that agree there agree on it.
proof fn lemma_next_local(u: WorldView, t: WorldView, j: int)
    requires
        wf_view(u),
        t.width == u.width,
        t.height == u.height,
        t.mode == u.mode,
        0 <= j,
        j < u.width * u.height,
        forall|x: int| #[trigger] in_closure(u, j, x) ==> u.cells[x] == t.cells[x],
    ensures
        next_at(u, j) == next_at(t, j),
{
    lemma_index_coords(u, j);
    let w = u.width;
    let h = u.height;
    let r = j / w;
    let c = j % w;
    lemma_self_in_closure(u, j);
    assert(u.cells[j] == t.cells[j]);
    match u.mode {
        Mode::Torus => {
            assert(in_closure(u, j, spec_index(u, r - 1, c - 1)));
            assert(in_closure(u, j, spec_index(u, r - 1, c)));
            assert(in_closure(u, j, spec_index(u, r - 1, c + 1)));
            assert(in_closure(u, j, spec_index(u, r, c - 1)));
            assert(in_closure(u, j, spec_index(u, r, c + 1)));
            assert(in_closure(u, j, spec_index(u, r + 1, c - 1)));
            assert(in_closure(u, j, spec_index(u, r + 1, c)));
            assert(in_closure(u, j, spec_index(u, r + 1, c + 1)));
            assert(live_neighbors(u, r, c) == live_neighbors(t, r, c));
        },
        Mode::Finite => {
            if in_grid(u, r - 1, c - 1) {
                assert(in_closure(u, j, (r - 1) * w + (c - 1)));
            }
            if in_grid(u, r - 1, c) {
                assert(in_closure(u, j, (r - 1) * w + c));
            }
            if in_grid(u, r - 1, c + 1) {
                assert(in_closure(u, j, (r - 1) * w + (c + 1)));
            }
            if in_grid(u, r, c - 1) {
                assert(in_closure(u, j, r * w + (c - 1)));
            }
            if in_grid(u, r, c + 1) {
                assert(in_closure(u, j, r * w + (c + 1)));
            }
            if in_grid(u, r + 1, c - 1) {
                assert(in_closure(u, j, (r + 1) * w + (c - 1)));
            }
            if in_grid(u, r + 1, c) {
                assert(in_closure(u, j, (r + 1) * w + c));
            }
            if in_grid(u, r + 1, c + 1) {
                assert(in_closure(u, j, (r + 1) * w + (c + 1)));
            }
            assert(live_neighbors(u, r, c) == live_neighbors(t, r, c));
        },
    }
}

/// The equivalence law between the two tick strategies: on any
/// covered grid (see [`changes_covered`]) the incremental tick's
/// buffer is exactly the full scan's buffer.
pub proof fn lemma_incremental_matches_full(v: WorldView)
    requires
        wf_view(v),
        changes_covered(v),
    ensures
        incr_next(v) == full_next(v),
{
    assert forall|j: int| 0 <= j < v.cells.len() implies incr_next(v)[j] == full_next(v)[j] by {
        if !is_recomputed(v, j) {
            assert(next_at(v, j) == v.cells[j]);
        }
    }
    assert(incr_next(v) =~= full_next(v));
}

/// Under coverage an incremental step is a full-scan step, so the two
/// strategies yield identical buffers, change lists and generation
/// counts.
pub proof fn lemma_incr_step_is_step(pre: WorldView, post: WorldView)
    requires
        wf_view(pre),
        changes_covered(pre),
        incr_stepped(pre, post),
    ensures
        stepped(pre, post),
{
    lemma_incremental_matches_full(pre);
}

/// A full step leaves a covered, well-formed grid behind, so
/// consecutive ticks of either kind stay equivalent indefinitely.
#[verifier::spinoff_prover]
#[verifier::rlimit(50)]
pub proof fn lemma_step_preserves_coverage(pre: WorldView, post: WorldView)
    requires
        wf_view(pre),
        stepped(pre, post),
    ensures
        wf_view(post),
        changes_covered(post),
{
    assert(post.cells.len() == pre.cells.len());
    assert(post.cells.len() == post.width * post.height);
    assert(wf_view(post));
    assert forall|j: int|
        0 <= j < post.cells.len() && #[trigger] next_at(post, j) != post.cells[j] implies is_candidate(
        post,
        j,
    ) by {
        if !is_candidate(post, j) {
            assert forall|x: int| #[trigger] in_closure(post, j, x) implies post.cells[x]
                == pre.cells[x] by {
                lemma_closure_in_range(post, j, x);
                assert(0 <= x);
                assert(x < post.cells.len());
                if pre.cells[x] != post.cells[x] {
                    assert(post.changed.contains(x));
                    let k = choose|k: int|
                        0 <= k < post.changed.len() && post.changed[k] == x;
                    assert(post.changed[k] == x);
                    lemma_closure_symmetric(post, j, x);
                    assert(in_closure(post, x, j));
                    assert(in_closure(post, post.changed[k], j));
                    assert(candidate_upto(post, post.changed.len() as int, j));
                    assert(false);
                }
            }
            assert forall|x: int| #[trigger] in_closure(post, j, x) implies in_closure(
                pre,
                j,
                x,
            ) by {
                assert(forall|r: int, c: int| spec_index(post, r, c) == spec_index(pre, r, c));
            }
            lemma_next_local(post, pre, j);
            lemma_self_in_closure(post, j);
            assert(post.cells[j] == pre.cells[j]);
            assert(post.cells[j] == next_at(pre, j));
            assert(next_at(post, j) == post.cells[j]);
            assert(false);
        }
    }
}

/// Editing one cell through `set_cell` or `toggle` keeps the grid
/// covered: the write is recorded, so the cells it can influence stay
/// candidates.
pub proof fn lemma_edit_preserves_coverage(pre: WorldView, i: int, alive: bool)
    requires
        wf_view(pre),
        changes_covered(pre),
        0 <= i,
        i < pre.cells.len(),
    ensures
        changes_covered(with_write(pre, i, alive)),
{
    let post = with_write(pre, i, alive);
    assert(post.cells.len() == pre.cells.len());
    assert(wf_view(post));
    assert forall|j: int|
        0 <= j < post.cells.len() && #[trigger] next_at(post, j) != post.cells[j] implies is_candidate(
        post,
        j,
    ) by {
        if !is_candidate(post, j) {
            let last = post.changed.len() as int - 1;
            assert(post.changed[last] == i);
            if in_closure(post, j, i) {
                lemma_closure_symmetric(post, j, i);
                assert(in_closure(post, post.changed[last], j));
                assert(candidate_upto(post, post.changed.len() as int, j));
                assert(false);
            }
            assert forall|x: int| #[trigger] in_closure(post, j, x) implies post.cells[x]
                == pre.cells[x] by {
                lemma_closure_in_range(post, j, x);
                assert(0 <= x);
                assert(x < pre.cells.len());
                assert(x != i);
            }
            assert forall|x: int| #[trigger] in_closure(post, j, x) implies in_closure(
                pre,
                j,
                x,
            ) by {
                assert(forall|r: int, c: int| spec_index(post, r, c) == spec_index(pre, r, c));
            }
            lemma_next_local(post, pre, j);
            lemma_self_in_closure(post, j);
            assert(post.cells[j] == pre.cells[j]);
            if !is_candidate(pre, j) {
                assert(next_at(pre, j) == pre.cells[j]);
                assert(false);
            } else {
                let k = choose|k: int|
                    0 <= k < pre.changed.len() && in_closure(pre, #[trigger] pre.changed[k], j);
                assert(post.changed[k] == pre.changed[k]);
                assert forall|x: int| #[trigger] in_closure(pre, pre.changed[k], x) implies in_closure(
                    post,
                    pre.changed[k],
                    x,
                ) by {
                    assert(forall|r: int, c: int| spec_index(post, r, c) == spec_index(pre, r, c));
                }
                assert(in_closure(post, post.changed[k], j));
                assert(candidate_upto(post, post.changed.len() as int, j));
                assert(false);
            }
        }
    }
}

/// A cleared grid is covered: every index is recorded as changed.
pub proof fn lemma_clear_covers(v: WorldView)
    requires
        wf_view(v),
    ensures
        changes_covered(cleared(v)),
{
    let post = cleared(v);
    assert forall|j: int| 0 <= j < post.cells.len() implies is_candidate(post, j) by {
        lemma_self_in_closure(post, j);
        assert(post.changed[j] == j);
        assert(candidate_upto(post, post.changed.len() as int, j));
    }
}

/// No live cell has a live neighbor on an all-dead grid.
proof fn lemma_dead_neighbor(v: WorldView, r: int, c: int, dr: int, dc: int)
    requires
        wf_view(v),
        forall|x: int| 0 <= x < v.cells.len() ==> !#[trigger] v.cells[x],
        0 <= r,
        r < v.height,
        0 <= c,
        c < v.width,
        -1 <= dr,
        dr <= 1,
        -1 <= dc,
        dc <= 1,
    ensures
        !neighbor_alive(v, r, c, dr, dc),
{
    match v.mode {
        Mode::Torus => {
            lemma_spec_index_range(v, r + dr, c + dc);
        },
        Mode::Finite => {
            if in_grid(v, r + dr, c + dc) {
                lemma_mod_identity(r + dr, v.height);
                lemma_mod_identity(c + dc, v.width);
                lemma_spec_index_range(v, r + dr, c + dc);
            }
        },
    }
}

/// A freshly constructed grid is covered: it is entirely dead, and an
/// all-dead grid is a still life, so nothing is about to flip.
pub proof fn lemma_blank_covers(w: int, h: int)
    requires
        valid_dims(w, h),
    ensures
        changes_covered(blank(w, h)),
{
    let v = blank(w, h);
    assert forall|j: int| 0 <= j < v.cells.len() implies next_at(v, j) == v.cells[j] by {
        lemma_index_coords(v, j);
        let r = j / w;
        let c = j % w;
        lemma_dead_neighbor(v, r, c, -1, -1);
        lemma_dead_neighbor(v, r, c, -1, 0);
        lemma_dead_neighbor(v, r, c, -1, 1);
        lemma_dead_neighbor(v, r, c, 0, -1);
        lemma_dead_neighbor(v, r, c, 0, 1);
        lemma_dead_neighbor(v, r, c, 1, -1);
        lemma_dead_neighbor(v, r, c, 1, 0);
        lemma_dead_neighbor(v, r, c, 1, 1);
        assert(live_neighbors(v, r, c) == 0);
    }
}

/// Clearing is idempotent: clearing a just-cleared grid changes
/// nothing, and both times the change list covers the whole range.
pub proof fn lemma_clear_idempotent(v: WorldView)
    ensures
        cleared(cleared(v)) == cleared(v),
{
    assert(cleared(cleared(v)) =~= cleared(v));
}

proof fn lemma_first_row_props(v: WorldView, r: int)
    requires
        0 <= r <= v.height,
    ensures
        sp_first_row(v, r) matches Some(fr) ==> r <= fr < v.height && row_has_alive(v, fr) && (
        forall|rr: int| r <= rr < fr ==> !row_has_alive(v, rr)),
        sp_first_row(v, r) is None ==> forall|rr: int| r <= rr < v.height ==> !row_has_alive(v, rr),
    decreases v.height - r,
{
    if r < v.height && !row_has_alive(v, r) {
        lemma_first_row_props(v, r + 1);
    }
}

proof fn lemma_last_row_props(v: WorldView, r: int)
    requires
        r < v.height,
    ensures
        sp_last_row(v, r) matches Some(lr) ==> 0 <= lr <= r && row_has_alive(v, lr) && (
        forall|rr: int| lr < rr <= r ==> !row_has_alive(v, rr)),
        sp_last_row(v, r) is None ==> forall|rr: int| 0 <= rr <= r ==> !row_has_alive(v, rr),
    decreases r + 1,
{
    if r >= 0 && !row_has_alive(v, r) {
        lemma_last_row_props(v, r - 1);
    }
}

proof fn lemma_first_col_props(v: WorldView, c: int)
    requires
        0 <= c <= v.width,
    ensures
        sp_first_col(v, c) matches Some(fc) ==> c <= fc < v.width && col_has_alive(v, fc) && (
        forall|cc: int| c <= cc < fc ==> !col_has_alive(v, cc)),
        sp_first_col(v, c) is None ==> forall|cc: int| c <= cc < v.width ==> !col_has_alive(v, cc),
    decreases v.width - c,
{
    if c < v.width && !col_has_alive(v, c) {
        lemma_first_col_props(v, c + 1);
    }
}

proof fn lemma_last_col_props(v: WorldView, c: int)
    requires
        c < v.width,
    ensures
        sp_last_col(v, c) matches Some(lc) ==> 0 <= lc <= c && col_has_alive(v, lc) && (
        forall|cc: int| lc < cc <= c ==> !col_has_alive(v, cc)),
        sp_last_col(v, c) is None ==> forall|cc: int| 0 <= cc <= c ==> !col_has_alive(v, cc),
    decreases c + 1,
{
    if c >= 0 && !col_has_alive(v, c) {
        lemma_last_col_props(v, c - 1);
    }
}

/// If the cells `[c, e)` all equal the one at `c` and `e` is the cap
/// or differs, then `e` is exactly the run's end.
proof fn lemma_run_end_exact(v: WorldView, r: int, c: int, hi: int, e: int)
    requires
        c < e <= hi,
        forall|x: int| c <= x < e ==> alive_at(v, r, x) == alive_at(v, r, c),
        e == hi || alive_at(v, r, e) != alive_at(v, r, c),
    ensures
        run_end(v, r, c, hi) == e,
    decreases hi - c,
{
    if c + 1 >= hi {
    } else if alive_at(v, r, c + 1) != alive_at(v, r, c) {
    } else {
        if e == c + 1 {
            assert(false);
        } else {
            lemma_run_end_exact(v, r, c + 1, hi, e);
        }
    }
}

pub open spec fn ascii_bytes(s: Seq<u8>) -> bool {
    forall|k: int| 0 <= k < s.len() ==> #[trigger] s[k] < 128
}

proof fn lemma_dec_rep_ascii(n: int)
    requires
        n >= 0,
    ensures
        ascii_bytes(dec_rep(n)),
        dec_rep(n).len() >= 1,
    decreases n,
{
    if n >= 10 {
        vstd::arithmetic::div_mod::lemma_div_pos_is_pos(n, 10);
        vstd::arithmetic::div_mod::lemma_mod_division_less_than_divisor(n, 10);
        lemma_dec_rep_ascii(n / 10);
    }
}

/// A sequence of ASCII bytes is valid UTF-8 and decodes to the same
/// characters, byte for byte.
proof fn lemma_ascii_decode(s: Seq<u8>)
    requires
        ascii_bytes(s),
    ensures
        vstd::utf8::valid_utf8(s),
        vstd::utf8::decode_utf8(s) == s.map(|_i: int, b: u8| b as char),
{
    let chars = s.map(|_i: int, b: u8| b as char);
    assert(vstd::utf8::is_ascii_chars(chars));
    vstd::utf8::is_ascii_chars_encode_utf8(chars);
    assert(vstd::utf8::encode_utf8(chars) =~= s);
    vstd::utf8::encode_utf8_valid_utf8(chars);
    vstd::utf8::encode_utf8_decode_utf8(chars);
}

/// Append the decimal digits of `n`.
fn push_uint(buf: &mut Vec<u8>, n: usize)
    ensures
        final(buf)@ == old(buf)@ + dec_rep(n as int),
        ascii_bytes(old(buf)@) ==> ascii_bytes(final(buf)@),
    decreases n,
{
    proof {
        lemma_dec_rep_ascii(n as int);
    }
    if n >= 10 {
        push_uint(buf, n / 10);
    }
    let d = (n % 10) as u8 + 48;
    buf.push(d);
    proof {
        assert(buf@ =~= old(buf)@ + dec_rep(n as int));
    }
}

/// Append the decimal digits of a signed `x`.
fn push_int(buf: &mut Vec<u8>, x: i32)
    requires
        x > i32::MIN,
    ensures
        final(buf)@ == old(buf)@ + dec_int(x as int),
        ascii_bytes(old(buf)@) ==> ascii_bytes(final(buf)@),
{
    if x < 0 {
        buf.push(45);
        push_uint(buf, (-x) as usize);
        proof {
            assert(buf@ =~= old(buf)@ + dec_int(x as int));
        }
    } else {
        push_uint(buf, x as usize);
    }
}

/// Bounding box of the live cells: top-left corner and size.
struct Rect {
    x: i32,
    y: i32,
    width: i32,
    height: i32,
}

/// Dimensions, topology, generation and change list of a [`World`].
pub struct World {
    width: i32,
    height: i32,
    mode: Mode,
    cells: Vec<Cell>,
    cache: Vec<Cell>,
    generations: u32,
    changed_cells: Vec<i32>,
}

impl View for World {
    type V = WorldView;

    closed spec fn view(&self) -> WorldView {
        WorldView {
            width: self.width as int,
            height: self.height as int,
            mode: self.mode,
            cells: alive_seq(self.cells@),
            generation: self.generations as nat,
            changed: int_seq(self.changed_cells@),
        }
    }
}

impl World {
    /// The internal invariant every public method preserves: the model
    /// is well formed and the write buffer matches the cell buffer's
    /// length.
    pub closed spec fn wf(&self) -> bool {
        &&& wf_view(self@)
        &&& self.cache@.len() == self.cells@.len()
    }

    /// A fresh all-dead grid in `Finite` mode.
    pub fn new(width: i32, height: i32) -> (w: World)
        requires
            valid_dims(width as int, height as int),
        ensures
            w.wf(),
            w@ == blank(width as int, height as int),
    {
        let n = (width * height) as usize;
        let data: Vec<Cell> = vec![Cell::Dead; n];
        let cache: Vec<Cell> = vec![Cell::Dead; n];
        let w = World {
            width,
            height,
            mode: Mode::Finite,
            cells: data,
            cache,
            generations: 0,
            changed_cells: Vec::new(),
        };
        proof {
            assert(w@.cells =~= blank(width as int, height as int).cells);
            assert(w@.changed =~= blank(width as int, height as int).changed);
            assert(w@ =~= blank(width as int, height as int));
        }
        w
    }

    /// Grid construction that rejects invalid dimensions instead of
    /// requiring them: `Err(InvalidDimensions)` exactly when a
    /// dimension is non-positive or the cell count overflows `i32`.
    pub fn try_new(width: i32, height: i32) -> (r: Result<World, ConstructionError>)
        ensures
            r is Ok <==> valid_dims(width as int, height as int),
            r matches Ok(w) ==> w.wf() && w@ == blank(width as int, height as int),
    {
        if width > 0 && height > 0 {
            proof {
                assert(width as int * height as int <= (i32::MAX as int) * (i32::MAX as int))
                    by (nonlinear_arith)
                    requires
                        0 < width as int <= i32::MAX as int,
                        0 < height as int <= i32::MAX as int,
                ;
            }
            if (width as i64) * (height as i64) <= i32::MAX as i64 {
                Ok(World::new(width, height))
            } else {
                Err(ConstructionError::InvalidDimensions)
            }
        } else {
            Err(ConstructionError::InvalidDimensions)
        }
    }

    pub fn width(&self) -> (r: i32)
        ensures
            r as int == self@.width,
    {
        self.width
    }

    pub fn height(&self) -> (r: i32)
        ensures
            r as int == self@.height,
    {
        self.height
    }

    /// How many generations this grid has been advanced.
    pub fn generations(&self) -> (r: u32)
        ensures
            r as nat == self@.generation,
    {
        self.generations
    }

    /// Switch the edge topology; nothing else changes.
    pub fn set_mode(&mut self, mode: Mode)
        requires
            old(self).wf(),
        ensures
            final(self).wf(),
            final(self)@ == (WorldView { mode, ..old(self)@ }),
    {
        self.mode = mode;
    }

    /// Linear index of a (possibly out-of-range) coordinate pair:
    /// a negative coordinate gets one upward correction, then both are
    /// reduced modulo the grid's dimensions.
    fn get_index(&self, row: i32, col: i32) -> (idx: i32)
        requires
            self.wf(),
            row as int >= -self@.height,
            col as int >= -self@.width,
        ensures
            idx as int == spec_index(self@, row as int, col as int),
            0 <= idx,
            (idx as int) < self@.width * self@.height,
    {
        let h = self.height;
        let w = self.width;
        let r0 = if row < 0 { row + h } else { row };
        let c0 = if col < 0 { col + w } else { col };
        let r1 = r0 % h;
        let c1 = c0 % w;
        proof {
            vstd::arithmetic::div_mod::lemma_add_mod_noop(row as int, h as int, h as int);
            vstd::arithmetic::div_mod::lemma_mod_self_0(h as int);
            vstd::arithmetic::div_mod::lemma_mod_twice(row as int, h as int);
            vstd::arithmetic::div_mod::lemma_add_mod_noop(col as int, w as int, w as int);
            vstd::arithmetic::div_mod::lemma_mod_self_0(w as int);
            vstd::arithmetic::div_mod::lemma_mod_twice(col as int, w as int);
            assert(r1 as int == (row as int) % (h as int));
            assert(c1 as int == (col as int) % (w as int));
            vstd::arithmetic::mul::lemma_mul_inequality(r1 as int, h as int - 1, w as int);
            assert((h as int - 1) * (w as int) == h as int * w as int - w as int)
                by (nonlinear_arith);
            vstd::arithmetic::mul::lemma_mul_nonnegative(r1 as int, w as int);
        }
        r1 * w + c1
    }

    /// The cell at a (wrapped) coordinate pair.
    fn get(&self, row: i32, col: i32) -> (r: Cell)
        requires
            self.wf(),
            row as int >= -self@.height,
            col as int >= -self@.width,
        ensures
            (r is Alive) == self@.cells[spec_index(self@, row as int, col as int)],
    {
        let idx = self.get_index(row, col);
        self.cells[idx as usize]
    }

    /// The cell at a linear index.
    fn get_idx(&self, idx: usize) -> (r: Cell)
        requires
            self.wf(),
            (idx as int) < self@.cells.len(),
        ensures
            (r is Alive) == self@.cells[idx as int],
    {
        self.cells[idx]
    }

    /// Write one cell and record its index in the change list, so a
    /// renderer learns of programmatic edits as well as ticks.
    pub fn set_cell(&mut self, row: i32, col: i32, t: Cell)
        requires
            old(self).wf(),
            row as int >= -old(self)@.height,
            col as int >= -old(self)@.width,
        ensures
            final(self).wf(),
            final(self)@ == with_write(
                old(self)@,
                spec_index(old(self)@, row as int, col as int),
                t is Alive,
            ),
    {
        let idx = self.get_index(row, col);
        self.changed_cells.push(idx);
        self.cells[idx as usize] = t;
        proof {
            let target = with_write(
                old(self)@,
                spec_index(old(self)@, row as int, col as int),
                t is Alive,
            );
            assert(self@.cells =~= target.cells);
            assert(self@.changed =~= target.changed);
            assert(self@ =~= target);
        }
    }

    /// Flip one cell in place and record its index.
    pub fn toggle(&mut self, row: i32, col: i32)
        requires
            old(self).wf(),
            row as int >= -old(self)@.height,
            col as int >= -old(self)@.width,
        ensures
            final(self).wf(),
            final(self)@ == with_write(
                old(self)@,
                spec_index(old(self)@, row as int, col as int),
                !old(self)@.cells[spec_index(old(self)@, row as int, col as int)],
            ),
    {
        let idx = self.get_index(row, col);
        self.changed_cells.push(idx);
        let i = idx as usize;
        let nv = match self.cells[i] {
            Cell::Dead => Cell::Alive,
            Cell::Alive => Cell::Dead,
        };
        self.cells[i] = nv;
        proof {
            let target = with_write(
                old(self)@,
                spec_index(old(self)@, row as int, col as int),
                !old(self)@.cells[spec_index(old(self)@, row as int, col as int)],
            );
            assert(self@.cells =~= target.cells);
            assert(self@.changed =~= target.changed);
            assert(self@ =~= target);
        }
    }

    /// Kill every cell and mark the whole index range as changed.
    pub fn clear(&mut self)
        requires
            old(self).wf(),
        ensures
            final(self).wf(),
            final(self)@ == cleared(old(self)@),
    {
        let n = self.cells.len();
        let mut i: usize = 0;
        while i < n
            invariant
                old(self).wf(),
                i <= n,
                n == self.cells@.len(),
                self.width == old(self).width,
                self.height == old(self).height,
                self.mode == old(self).mode,
                self.generations == old(self).generations,
                self.cache == old(self).cache,
                self.changed_cells == old(self).changed_cells,
                forall|j: int| 0 <= j < i ==> self.cells@[j] == Cell::Dead,
            decreases n - i,
        {
            self.cells[i] = Cell::Dead;
            i += 1;
        }
        let mut ch: Vec<i32> = Vec::new();
        let mut k: usize = 0;
        while k < n
            invariant
                old(self).wf(),
                k <= n,
                n == old(self).cells@.len(),
                n == old(self)@.width * old(self)@.height,
                ch@.len() == k,
                forall|j: int| 0 <= j < k ==> ch@[j] == j as i32,
            decreases n - k,
        {
            ch.push(k as i32);
            k += 1;
        }
        self.changed_cells = ch;
        proof {
            assert(self@.cells =~= cleared(old(self)@).cells);
            assert(self@.changed =~= cleared(old(self)@).changed);
            assert(self@ =~= cleared(old(self)@));
        }
    }

    /// Read-only view of the raw cell buffer, for a renderer.
    pub fn cells(&self) -> (r: &Vec<Cell>)
        ensures
            r@.len() == self@.cells.len(),
            forall|i: int| 0 <= i < r@.len() ==> ((r@[i] is Alive) == self@.cells[i]),
    {
        &self.cells
    }

    /// The indices recorded as changed since the last tick or reset.
    pub fn changed_cells(&self) -> (r: &Vec<i32>)
        ensures
            int_seq(r@) == self@.changed,
    {
        &self.changed_cells
    }

    pub fn changed_cells_len(&self) -> (r: usize)
        ensures
            r as int == self@.changed.len(),
    {
        self.changed_cells.len()
    }

    /// Whether the Moore neighbor of `(row, col)` at offset
    /// `(dr, dc)` is alive, honoring the grid's topology.
    fn neighbor(&self, row: i32, col: i32, dr: i32, dc: i32) -> (r: bool)
        requires
            self.wf(),
            0 <= row as int,
            (row as int) < self@.height,
            0 <= col as int,
            (col as int) < self@.width,
            -1 <= dr as int,
            dr as int <= 1,
            -1 <= dc as int,
            dc as int <= 1,
        ensures
            r == neighbor_alive(self@, row as int, col as int, dr as int, dc as int),
    {
        match self.mode {
            Mode::Torus => {
                let c = self.get(row + dr, col + dc);
                c == Cell::Alive
            },
            Mode::Finite => {
                let r2 = row + dr;
                let c2 = col + dc;
                if r2 >= 0 && r2 < self.height && c2 >= 0 && c2 < self.width {
                    proof {
                        vstd::arithmetic::mul::lemma_mul_inequality(
                            r2 as int,
                            self@.height - 1,
                            self@.width,
                        );
                        assert((self@.height - 1) * self@.width == self@.height * self@.width
                            - self@.width) by (nonlinear_arith);
                        vstd::arithmetic::mul::lemma_mul_nonnegative(r2 as int, self@.width);
                    }
                    let cell = self.cells[(r2 * self.width + c2) as usize];
                    cell == Cell::Alive
                } else {
                    false
                }
            },
        }
    }

    /// Count of live Moore neighbors of an in-range coordinate.
    fn alive_neighbors(&self, row: i32, col: i32) -> (r: u8)
        requires
            self.wf(),
            0 <= row as int,
            (row as int) < self@.height,
            0 <= col as int,
            (col as int) < self@.width,
        ensures
            r as int == live_neighbors(self@, row as int, col as int),
    {
        let mut n: u8 = 0;
        if self.neighbor(row, col, -1, -1) {
            n += 1;
        }
        if self.neighbor(row, col, -1, 0) {
            n += 1;
        }
        if self.neighbor(row, col, -1, 1) {
            n += 1;
        }
        if self.neighbor(row, col, 0, -1) {
            n += 1;
        }
        if self.neighbor(row, col, 0, 1) {
            n += 1;
        }
        if self.neighbor(row, col, 1, -1) {
            n += 1;
        }
        if self.neighbor(row, col, 1, 0) {
            n += 1;
        }
        if self.neighbor(row, col, 1, 1) {
            n += 1;
        }
        n
    }

    /// Advance one generation by recomputing every cell (full scan):
    /// the next generation is written into the cache buffer, the
    /// buffers are swapped, and the change list becomes exactly the
    /// set of flipped indices.
    pub fn tick(&mut self)
        requires
            old(self).wf(),
            old(self)@.generation < u32::MAX as nat,
        ensures
            final(self).wf(),
            stepped(old(self)@, final(self)@),
    {
        let w = self.width;
        let h = self.height;
        let mut new_changed: Vec<i32> = Vec::new();
        let mut row: i32 = 0;
        while row < h
            invariant
                self.wf(),
                self@ == old(self)@,
                w == self.width,
                h == self.height,
                0 <= row as int,
                row as int <= h as int,
                self.cache@.len() == self@.cells.len(),
                forall|j: int|
                    0 <= j < (row as int) * (w as int) ==> ((#[trigger] self.cache@[j] is Alive)
                        == next_at(self@, j)),
                forall|j: int|
                    0 <= j < (row as int) * (w as int) ==> ((#[trigger] int_seq(
                        new_changed@,
                    ).contains(j)) <==> self@.cells[j] != next_at(self@, j)),
                forall|k: int|
                    0 <= k < new_changed@.len() ==> 0 <= #[trigger] new_changed@[k] as int
                        && (new_changed@[k] as int) < (row as int) * (w as int),
                forall|a: int, b: int|
                    0 <= a < b < new_changed@.len() ==> new_changed@[a] < new_changed@[b],
            decreases h - row,
        {
            proof {
                vstd::arithmetic::mul::lemma_mul_inequality(row as int, h as int - 1, w as int);
                assert((h as int - 1) * (w as int) == h as int * w as int - w as int)
                    by (nonlinear_arith);
                vstd::arithmetic::mul::lemma_mul_nonnegative(row as int, w as int);
            }
            let mut col: i32 = 0;
            while col < w
                invariant
                    self.wf(),
                    self@ == old(self)@,
                    w == self.width,
                    h == self.height,
                    0 <= row as int,
                    (row as int) < h as int,
                    0 <= col as int,
                    col as int <= w as int,
                    (row as int) * (w as int) + (w as int) <= (h as int) * (w as int),
                    0 <= (row as int) * (w as int),
                    self.cache@.len() == self@.cells.len(),
                    forall|j: int|
                        0 <= j < (row as int) * (w as int) + (col as int) ==> ((
                        #[trigger] self.cache@[j] is Alive) == next_at(self@, j)),
                    forall|j: int|
                        0 <= j < (row as int) * (w as int) + (col as int) ==> ((#[trigger] int_seq(
                            new_changed@,
                        ).contains(j)) <==> self@.cells[j] != next_at(self@, j)),
                    forall|k: int|
                        0 <= k < new_changed@.len() ==> 0 <= #[trigger] new_changed@[k] as int
                            && (new_changed@[k] as int) < (row as int) * (w as int) + (col as int),
                    forall|a: int, b: int|
                        0 <= a < b < new_changed@.len() ==> new_changed@[a] < new_changed@[b],
                decreases w - col,
            {
                let base = row * w + col;
                proof {
                    vstd::arithmetic::div_mod::lemma_fundamental_div_mod_converse(
                        base as int,
                        w as int,
                        row as int,
                        col as int,
                    );
                }
                let cell = self.cells[base as usize];
                let nb = self.alive_neighbors(row, col);
                let next = if nb == 3 || (cell == Cell::Alive && nb == 2) {
                    Cell::Alive
                } else {
                    Cell::Dead
                };
                self.cache[base as usize] = next;
                let ghost prev_changed = new_changed@;
                if next != cell {
                    new_changed.push(base);
                }
                proof {
                    assert forall|j: int|
                        0 <= j < (row as int) * (w as int) + (col as int) + 1 implies ((
                    #[trigger] int_seq(new_changed@).contains(j)) <==> self@.cells[j] != next_at(
                        self@,
                        j,
                    )) by {
                        if j < (row as int) * (w as int) + (col as int) {
                            assert(int_seq(prev_changed).contains(j) <==> self@.cells[j] != next_at(
                                self@,
                                j,
                            ));
                            if int_seq(prev_changed).contains(j) {
                                let k = choose|k: int|
                                    0 <= k < prev_changed.len() && int_seq(prev_changed)[k] == j;
                                assert(int_seq(new_changed@)[k] == j);
                            }
                            if int_seq(new_changed@).contains(j) {
                                let k = choose|k: int|
                                    0 <= k < new_changed@.len() && int_seq(new_changed@)[k] == j;
                                assert(k < prev_changed.len());
                                assert(int_seq(prev_changed)[k] == j);
                            }
                        } else {
                            assert(j == base as int);
                            if self@.cells[j] != next_at(self@, j) {
                                assert(int_seq(new_changed@)[new_changed@.len() - 1] == j);
                            } else {
                                if int_seq(new_changed@).contains(j) {
                                    let k = choose|k: int|
                                        0 <= k < new_changed@.len() && int_seq(new_changed@)[k]
                                            == j;
                                    assert(new_changed@[k] as int == j);
                                }
                            }
                        }
                    }
                }
                col += 1;
            }
            proof {
                assert((row as int + 1) * (w as int) == (row as int) * (w as int) + (w as int))
                    by (nonlinear_arith);
            }
            row += 1;
        }
        core::mem::swap(&mut self.cells, &mut self.cache);
        self.generations = self.generations + 1;
        self.changed_cells = new_changed;
        proof {
            assert((h as int) * (w as int) == old(self)@.cells.len());
            assert(self@.cells =~= full_next(old(self)@));
            assert(changed_exact(old(self)@.cells, self@.cells, self@.changed));
        }
    }

    /// Replace this grid with a freshly constructed one of the given
    /// dimensions, copying the overlapping top-left region cell by
    /// cell (each copied cell is recorded as changed). The topology is
    /// kept; the generation counter restarts at zero.
    pub fn resize(&mut self, width: i32, height: i32)
        requires
            old(self).wf(),
            valid_dims(width as int, height as int),
        ensures
            final(self).wf(),
            final(self)@ == resized(old(self)@, width as int, height as int),
    {
        let mut new_world = World::new(width, height);
        new_world.mode = self.mode;
        let copy_w = if width < self.width {
            width
        } else {
            self.width
        };
        let copy_h = if height < self.height {
            height
        } else {
            self.height
        };
        let ghost v0 = self@;
        let ghost tgt = resized(old(self)@, width as int, height as int);
        proof {
            assert(new_world@.changed =~= tgt.changed.take(0));
        }
        let mut r: i32 = 0;
        while r < copy_h
            invariant
                self.wf(),
                self@ == v0,
                v0 == old(self)@,
                tgt == resized(v0, width as int, height as int),
                valid_dims(width as int, height as int),
                copy_w as int == vstd::math::min(width as int, v0.width),
                copy_h as int == vstd::math::min(height as int, v0.height),
                0 <= r as int,
                r as int <= copy_h as int,
                new_world.wf(),
                new_world@.width == width as int,
                new_world@.height == height as int,
                new_world@.mode == v0.mode,
                new_world@.generation == 0,
                new_world@.cells.len() == tgt.cells.len(),
                forall|i: int|
                    0 <= i < new_world@.cells.len() ==> #[trigger] new_world@.cells[i] == (
                    if i / (width as int) < r as int && i % (width as int) < copy_w as int {
                        tgt.cells[i]
                    } else {
                        false
                    }),
                new_world@.changed == tgt.changed.take((r as int) * (copy_w as int)),
            decreases copy_h - r,
        {
            proof {
                vstd::arithmetic::mul::lemma_mul_inequality(
                    r as int,
                    copy_h as int - 1,
                    copy_w as int,
                );
                assert((copy_h as int - 1) * (copy_w as int) == (copy_h as int) * (copy_w as int)
                    - (copy_w as int)) by (nonlinear_arith);
                vstd::arithmetic::mul::lemma_mul_nonnegative(r as int, copy_w as int);
                vstd::arithmetic::mul::lemma_mul_inequality(
                    copy_h as int,
                    height as int,
                    copy_w as int,
                );
                vstd::arithmetic::mul::lemma_mul_inequality(
                    copy_w as int,
                    width as int,
                    copy_h as int,
                );
                vstd::arithmetic::mul::lemma_mul_is_commutative(copy_h as int, copy_w as int);
                vstd::arithmetic::mul::lemma_mul_is_commutative(copy_w as int, height as int);
                vstd::arithmetic::mul::lemma_mul_inequality(
                    copy_w as int,
                    width as int,
                    height as int,
                );
                vstd::arithmetic::mul::lemma_mul_is_commutative(width as int, height as int);
            }
            let mut c: i32 = 0;
            while c < copy_w
                invariant
                    self.wf(),
                    self@ == v0,
                    v0 == old(self)@,
                    tgt == resized(v0, width as int, height as int),
                    valid_dims(width as int, height as int),
                    copy_w as int == vstd::math::min(width as int, v0.width),
                    copy_h as int == vstd::math::min(height as int, v0.height),
                    0 <= r as int,
                    (r as int) < copy_h as int,
                    0 <= c as int,
                    c as int <= copy_w as int,
                    new_world.wf(),
                    new_world@.width == width as int,
                    new_world@.height == height as int,
                    new_world@.mode == v0.mode,
                    new_world@.generation == 0,
                    new_world@.cells.len() == tgt.cells.len(),
                    forall|i: int|
                        0 <= i < new_world@.cells.len() ==> #[trigger] new_world@.cells[i] == (
                        if (i / (width as int) < r as int && i % (width as int) < copy_w as int)
                            || (i / (width as int) == r as int && i % (width as int)
                            < c as int) {
                            tgt.cells[i]
                        } else {
                            false
                        }),
                    new_world@.changed == tgt.changed.take(
                        (r as int) * (copy_w as int) + (c as int),
                    ),
                decreases copy_w - c,
            {
                let cell = self.get(r, c);
                let ghost before = new_world@;
                new_world.set_cell(r, c, cell);
                proof {
                    let nw = width as int;
                    let nh = height as int;
                    let cw = copy_w as int;
                    let ch = copy_h as int;
                    vstd::arithmetic::mul::lemma_mul_nonnegative(r as int, cw);
                    vstd::arithmetic::mul::lemma_mul_inequality(r as int, ch - 1, cw);
                    assert((ch - 1) * cw == ch * cw - cw) by (nonlinear_arith);
                    vstd::arithmetic::mul::lemma_mul_nonnegative(r as int, nw);
                    vstd::arithmetic::mul::lemma_mul_inequality(r as int, nh - 1, nw);
                    assert((nh - 1) * nw == nh * nw - nw) by (nonlinear_arith);
                    assert(nw * nh == nh * nw) by (nonlinear_arith);
                    lemma_mod_identity(r as int, nh);
                    lemma_mod_identity(c as int, nw);
                    lemma_mod_identity(r as int, v0.height);
                    lemma_mod_identity(c as int, v0.width);
                    let idx = (r as int) * nw + (c as int);
                    assert(spec_index(before, r as int, c as int) == idx);
                    vstd::arithmetic::div_mod::lemma_fundamental_div_mod_converse(
                        idx,
                        nw,
                        r as int,
                        c as int,
                    );
                    assert(tgt.cells[idx] == v0.cells[(r as int) * v0.width + (c as int)]);
                    assert(spec_index(v0, r as int, c as int) == (r as int) * v0.width + (
                    c as int));
                    assert((cell is Alive) == tgt.cells[idx]);
                    let m = (r as int) * (copy_w as int) + (c as int);
                    vstd::arithmetic::div_mod::lemma_fundamental_div_mod_converse(
                        m,
                        copy_w as int,
                        r as int,
                        c as int,
                    );
                    assert(tgt.changed[m] == idx);
                    assert(new_world@.changed =~= tgt.changed.take(m + 1));
                    assert forall|i: int| 0 <= i < new_world@.cells.len() implies #[trigger] new_world@.cells[i]
                        == (if (i / nw < r as int && i % nw < copy_w as int) || (i / nw
                        == r as int && i % nw < c as int + 1) {
                        tgt.cells[i]
                    } else {
                        false
                    }) by {
                        if i != idx {
                            assert(new_world@.cells[i] == before.cells[i]);
                            if i / nw == r as int && i % nw == c as int {
                                vstd::arithmetic::div_mod::lemma_fundamental_div_mod(i, nw);
                                vstd::arithmetic::mul::lemma_mul_is_commutative(i / nw, nw);
                                assert(false);
                            }
                        }
                    }
                }
                c += 1;
            }
            proof {
                assert((r as int + 1) * (copy_w as int) == (r as int) * (copy_w as int) + (
                copy_w as int)) by (nonlinear_arith);
            }
            r += 1;
        }
        core::mem::swap(self, &mut new_world);
        proof {
            vstd::arithmetic::mul::lemma_mul_nonnegative(copy_h as int, copy_w as int);
            assert(self@.changed =~= tgt.changed);
            assert(self@.cells =~= tgt.cells);
            assert(self@ =~= tgt);
        }
    }

    /// Mark for recomputation the cell at linear index `idx` together
    /// with its topology-resolved Moore neighbors.
    fn insert_closure(&self, to_check: &mut number_hashset::NumberSet, idx: i32)
        requires
            self.wf(),
            old(to_check).wf(),
            old(to_check).capacity() == self@.width * self@.height,
            0 <= idx as int,
            (idx as int) < self@.width * self@.height,
        ensures
            final(to_check).wf(),
            final(to_check).capacity() == old(to_check).capacity(),
            forall|j: int|
                #[trigger] final(to_check)@.contains(j) <==> (old(to_check)@.contains(j)
                    || in_closure(self@, idx as int, j)),
    {
        let w = self.width;
        let h = self.height;
        proof {
            lemma_index_coords(self@, idx as int);
        }
        let row = idx / w;
        let col = idx % w;
        match self.mode {
            Mode::Torus => {
                let i0 = self.get_index(row - 1, col - 1);
                to_check.insert(i0);
                let i1 = self.get_index(row - 1, col);
                to_check.insert(i1);
                let i2 = self.get_index(row - 1, col + 1);
                to_check.insert(i2);
                let i3 = self.get_index(row, col - 1);
                to_check.insert(i3);
                let i4 = self.get_index(row, col);
                to_check.insert(i4);
                let i5 = self.get_index(row, col + 1);
                to_check.insert(i5);
                let i6 = self.get_index(row + 1, col - 1);
                to_check.insert(i6);
                let i7 = self.get_index(row + 1, col);
                to_check.insert(i7);
                let i8 = self.get_index(row + 1, col + 1);
                to_check.insert(i8);
            },
            Mode::Finite => {
                to_check.insert(idx);
                proof {
                    lemma_mod_identity(row as int, h as int);
                    lemma_mod_identity(col as int, w as int);
                    if row as int > 0 {
                        lemma_mod_identity(row as int - 1, h as int);
                    }
                    if (row as int) < h as int - 1 {
                        lemma_mod_identity(row as int + 1, h as int);
                    }
                    if col as int > 0 {
                        lemma_mod_identity(col as int - 1, w as int);
                    }
                    if (col as int) < w as int - 1 {
                        lemma_mod_identity(col as int + 1, w as int);
                    }
                }
                if row > 0 && col > 0 {
                    let ii = self.get_index(row - 1, col - 1);
                    to_check.insert(ii);
                }
                if row > 0 {
                    let ii = self.get_index(row - 1, col);
                    to_check.insert(ii);
                }
                if row > 0 && col < w - 1 {
                    let ii = self.get_index(row - 1, col + 1);
                    to_check.insert(ii);
                }
                if col > 0 {
                    let ii = self.get_index(row, col - 1);
                    to_check.insert(ii);
                }
                if col < w - 1 {
                    let ii = self.get_index(row, col + 1);
                    to_check.insert(ii);
                }
                if row < h - 1 && col > 0 {
                    let ii = self.get_index(row + 1, col - 1);
                    to_check.insert(ii);
                }
                if row < h - 1 {
                    let ii = self.get_index(row + 1, col);
                    to_check.insert(ii);
                }
                if row < h - 1 && col < w - 1 {
                    let ii = self.get_index(row + 1, col + 1);
                    to_check.insert(ii);
                }
            },
        }
    }

    /// Advance one generation incrementally: only cells in the closure
    /// of the recorded change set are recomputed (every other cell is
    /// copied unchanged into the cache), except that an empty change
    /// set falls back to recomputing the whole grid. The change list
    /// again becomes exactly the set of flipped indices.
    pub fn next_tick(&mut self)
        requires
            old(self).wf(),
            old(self)@.generation < u32::MAX as nat,
        ensures
            final(self).wf(),
            incr_stepped(old(self)@, final(self)@),
    {
        let w = self.width;
        let h = self.height;
        let n = w * h;
        let mut to_check = number_hashset::hashset(n as usize);
        let clen = self.changed_cells.len();
        let mut k: usize = 0;
        while k < clen
            invariant
                self.wf(),
                self@ == old(self)@,
                w == self.width,
                h == self.height,
                n as int == self@.width * self@.height,
                clen == self.changed_cells@.len(),
                k <= clen,
                to_check.wf(),
                to_check.capacity() == n as int,
                forall|j: int|
                    #[trigger] to_check@.contains(j) <==> candidate_upto(self@, k as int, j),
            decreases clen - k,
        {
            let idx = self.changed_cells[k];
            let ghost s0 = to_check@;
            proof {
                assert(self@.changed[k as int] == idx as int);
            }
            self.insert_closure(&mut to_check, idx);
            proof {
                assert forall|j: int|
                    #[trigger] to_check@.contains(j) <==> candidate_upto(
                        self@,
                        k as int + 1,
                        j,
                    ) by {
                    if to_check@.contains(j) {
                        if s0.contains(j) {
                            let k2 = choose|k2: int|
                                0 <= k2 < k as int && in_closure(self@, self@.changed[k2], j);
                            assert(in_closure(self@, self@.changed[k2], j));
                        } else {
                            assert(in_closure(self@, self@.changed[k as int], j));
                        }
                    }
                    if candidate_upto(self@, k as int + 1, j) {
                        let k2 = choose|k2: int|
                            0 <= k2 < k as int + 1 && in_closure(self@, self@.changed[k2], j);
                        if k2 < k as int {
                            assert(candidate_upto(self@, k as int, j));
                        } else {
                            assert(in_closure(self@, idx as int, j));
                        }
                    }
                }
            }
            k += 1;
        }
        let ghost v0 = self@;
        if to_check.is_empty() {
            proof {
                if v0.changed.len() > 0 {
                    lemma_self_in_closure(v0, v0.changed[0]);
                    assert(candidate_upto(v0, clen as int, v0.changed[0]));
                    assert(to_check@.contains(v0.changed[0]));
                    assert(false);
                }
            }
            let mut i: i32 = 0;
            while i < n
                invariant
                    to_check.wf(),
                    to_check.capacity() == n as int,
                    0 <= i as int,
                    i as int <= n as int,
                    forall|j: int| #[trigger] to_check@.contains(j) <==> 0 <= j < i as int,
                decreases n - i,
            {
                to_check.insert(i);
                i += 1;
            }
        }
        proof {
            assert forall|j: int| 0 <= j < n as int implies (#[trigger] to_check@.contains(j)
                <==> is_recomputed(v0, j)) by {
                if v0.changed.len() == 0 {
                    assert(!candidate_upto(v0, v0.changed.len() as int, j));
                }
            }
        }
        let mut new_changed: Vec<i32> = Vec::new();
        let mut i2: i32 = 0;
        while i2 < n
            invariant
                self.wf(),
                self@ == old(self)@,
                self@ == v0,
                w == self.width,
                h == self.height,
                n as int == self@.width * self@.height,
                0 <= i2 as int,
                i2 as int <= n as int,
                to_check.wf(),
                to_check.capacity() == n as int,
                forall|j: int|
                    0 <= j < n as int ==> (#[trigger] to_check@.contains(j) <==> is_recomputed(
                        v0,
                        j,
                    )),
                self.cache@.len() == self@.cells.len(),
                forall|j: int|
                    0 <= j < i2 as int ==> ((#[trigger] self.cache@[j] is Alive) == (
                    if is_recomputed(v0, j) {
                        next_at(v0, j)
                    } else {
                        v0.cells[j]
                    })),
                forall|j: int|
                    0 <= j < i2 as int ==> ((#[trigger] int_seq(new_changed@).contains(j)) <==> (
                    v0.cells[j] != (if is_recomputed(v0, j) {
                        next_at(v0, j)
                    } else {
                        v0.cells[j]
                    }))),
                forall|k2: int|
                    0 <= k2 < new_changed@.len() ==> 0 <= #[trigger] new_changed@[k2] as int
                        && (new_changed@[k2] as int) < i2 as int,
                forall|a: int, b: int|
                    0 <= a < b < new_changed@.len() ==> new_changed@[a] < new_changed@[b],
            decreases n - i2,
        {
            proof {
                lemma_index_coords(v0, i2 as int);
            }
            let row = i2 / w;
            let col = i2 % w;
            let cur = self.cells[i2 as usize];
            let ghost prev_changed = new_changed@;
            if to_check.contains(i2) {
                let nb = self.alive_neighbors(row, col);
                let next = if nb == 3 || (cur == Cell::Alive && nb == 2) {
                    Cell::Alive
                } else {
                    Cell::Dead
                };
                self.cache[i2 as usize] = next;
                if next != cur {
                    new_changed.push(i2);
                }
            } else {
                self.cache[i2 as usize] = cur;
            }
            proof {
                assert forall|j: int|
                    0 <= j < i2 as int + 1 implies ((#[trigger] int_seq(new_changed@).contains(j))
                    <==> (v0.cells[j] != (if is_recomputed(v0, j) {
                        next_at(v0, j)
                    } else {
                        v0.cells[j]
                    }))) by {
                    if new_changed@ =~= prev_changed {
                        if j == i2 as int && int_seq(new_changed@).contains(j) {
                            let k2 = choose|k2: int|
                                0 <= k2 < new_changed@.len() && int_seq(new_changed@)[k2] == j;
                            assert(prev_changed[k2] as int == j);
                        }
                    } else {
                        lemma_int_seq_push_contains(prev_changed, i2, j);
                        if j < i2 as int && int_seq(prev_changed).contains(j) {
                        }
                    }
                }
            }
            i2 += 1;
        }
        core::mem::swap(&mut self.cells, &mut self.cache);
        self.generations = self.generations + 1;
        self.changed_cells = new_changed;
        proof {
            assert(self@.cells =~= incr_next(v0));
            assert(changed_exact(v0.cells, self@.cells, self@.changed));
        }
    }

    /// The cell at in-range coordinates, read without wrapping.
    fn alive_rc(&self, r: i32, c: i32) -> (res: bool)
        requires
            self.wf(),
            0 <= r as int,
            (r as int) < self@.height,
            0 <= c as int,
            (c as int) < self@.width,
        ensures
            res == alive_at(self@, r as int, c as int),
    {
        proof {
            vstd::arithmetic::mul::lemma_mul_inequality(r as int, self@.height - 1, self@.width);
            assert((self@.height - 1) * self@.width == self@.height * self@.width - self@.width)
                by (nonlinear_arith);
            vstd::arithmetic::mul::lemma_mul_nonnegative(r as int, self@.width);
        }
        self.cells[(r * self.width + c) as usize] == Cell::Alive
    }

    fn row_alive(&self, r: i32) -> (res: bool)
        requires
            self.wf(),
            0 <= r as int,
            (r as int) < self@.height,
        ensures
            res == row_has_alive(self@, r as int),
    {
        let mut c: i32 = 0;
        while c < self.width
            invariant
                self.wf(),
                0 <= r as int,
                (r as int) < self@.height,
                0 <= c as int,
                c as int <= self@.width,
                forall|cc: int| 0 <= cc < c as int ==> !alive_at(self@, r as int, cc),
            decreases self@.width - c,
        {
            if self.alive_rc(r, c) {
                return true;
            }
            c += 1;
        }
        false
    }

    fn col_alive(&self, c: i32) -> (res: bool)
        requires
            self.wf(),
            0 <= c as int,
            (c as int) < self@.width,
        ensures
            res == col_has_alive(self@, c as int),
    {
        let mut r: i32 = 0;
        while r < self.height
            invariant
                self.wf(),
                0 <= c as int,
                (c as int) < self@.width,
                0 <= r as int,
                r as int <= self@.height,
                forall|rr: int| 0 <= rr < r as int ==> !alive_at(self@, rr, c as int),
            decreases self@.height - r,
        {
            if self.alive_rc(r, c) {
                return true;
            }
            r += 1;
        }
        false
    }

    fn find_first_row(&self) -> (res: Option<i32>)
        requires
            self.wf(),
        ensures
            res matches Some(x) ==> sp_first_row(self@, 0) == Some(x as int),
            res is None ==> sp_first_row(self@, 0) is None,
    {
        let mut r: i32 = 0;
        while r < self.height
            invariant
                self.wf(),
                0 <= r as int,
                r as int <= self@.height,
                sp_first_row(self@, 0) == sp_first_row(self@, r as int),
            decreases self@.height - r,
        {
            if self.row_alive(r) {
                return Some(r);
            }
            r += 1;
        }
        None
    }

    fn find_last_row(&self) -> (res: Option<i32>)
        requires
            self.wf(),
        ensures
            res matches Some(x) ==> sp_last_row(self@, self@.height - 1) == Some(x as int),
            res is None ==> sp_last_row(self@, self@.height - 1) is None,
    {
        let mut r: i32 = self.height - 1;
        while r >= 0
            invariant
                self.wf(),
                -1 <= r as int,
                (r as int) < self@.height,
                sp_last_row(self@, self@.height - 1) == sp_last_row(self@, r as int),
            decreases r + 1,
        {
            if self.row_alive(r) {
                return Some(r);
            }
            r -= 1;
        }
        None
    }

    fn find_first_col(&self) -> (res: Option<i32>)
        requires
            self.wf(),
        ensures
            res matches Some(x) ==> sp_first_col(self@, 0) == Some(x as int),
            res is None ==> sp_first_col(self@, 0) is None,
    {
        let mut c: i32 = 0;
        while c < self.width
            invariant
                self.wf(),
                0 <= c as int,
                c as int <= self@.width,
                sp_first_col(self@, 0) == sp_first_col(self@, c as int),
            decreases self@.width - c,
        {
            if self.col_alive(c) {
                return Some(c);
            }
            c += 1;
        }
        None
    }

    fn find_last_col(&self) -> (res: Option<i32>)
        requires
            self.wf(),
        ensures
            res matches Some(x) ==> sp_last_col(self@, self@.width - 1) == Some(x as int),
            res is None ==> sp_last_col(self@, self@.width - 1) is None,
    {
        let mut c: i32 = self.width - 1;
        while c >= 0
            invariant
                self.wf(),
                -1 <= c as int,
                (c as int) < self@.width,
                sp_last_col(self@, self@.width - 1) == sp_last_col(self@, c as int),
            decreases c + 1,
        {
            if self.col_alive(c) {
                return Some(c);
            }
            c -= 1;
        }
        None
    }

    /// The bounding box of the live cells: `None` exactly when the
    /// grid is entirely dead.
    fn pattern_boundaries(&self) -> (res: Option<Rect>)
        requires
            self.wf(),
        ensures
            res is None <==> sp_first_row(self@, 0) is None,
            res matches Some(rect) ==> sp_first_row(self@, 0) == Some(rect.y as int) && sp_last_row(
                self@,
                self@.height - 1,
            ) == Some(rect.y as int + rect.height as int - 1) && sp_first_col(self@, 0) == Some(
                rect.x as int,
            ) && sp_last_col(self@, self@.width - 1) == Some(
                rect.x as int + rect.width as int - 1,
            ) && rect.width >= 1 && rect.height >= 1 && rect.y as int + rect.height as int
                <= self@.height && rect.x as int + rect.width as int <= self@.width && rect.y >= 0
                && rect.x >= 0,
    {
        let fr = match self.find_first_row() {
            None => {
                return None;
            },
            Some(fr) => fr,
        };
        proof {
            lemma_first_row_props(self@, 0);
        }
        let lr = match self.find_last_row() {
            Some(lr) => lr,
            None => {
                proof {
                    lemma_last_row_props(self@, self@.height - 1);
                    assert(false);
                }
                return None;
            },
        };
        proof {
            lemma_last_row_props(self@, self@.height - 1);
            assert(row_has_alive(self@, fr as int));
            let cw = choose|c: int| 0 <= c < self@.width && alive_at(self@, fr as int, c);
            assert(col_has_alive(self@, cw));
        }
        let fc = match self.find_first_col() {
            Some(fc) => fc,
            None => {
                proof {
                    lemma_first_col_props(self@, 0);
                    assert(false);
                }
                return None;
            },
        };
        let lc = match self.find_last_col() {
            Some(lc) => lc,
            None => {
                proof {
                    lemma_last_col_props(self@, self@.width - 1);
                    assert(false);
                }
                return None;
            },
        };
        proof {
            lemma_first_col_props(self@, 0);
            lemma_last_col_props(self@, self@.width - 1);
        }
        Some(Rect { x: fc, y: fr, width: lc - fc + 1, height: lr - fr + 1 })
    }

    /// Append one exported row: maximal runs as `<count><tag>`
    /// tokens, the trailing dead run omitted.
    fn write_row(&self, r: i32, c_lo: i32, c_hi: i32, buf: &mut Vec<u8>)
        requires
            self.wf(),
            0 <= r as int,
            (r as int) < self@.height,
            0 <= c_lo as int,
            (c_lo as int) < c_hi as int,
            c_hi as int <= self@.width,
        ensures
            final(buf)@ == old(buf)@ + sp_row_body(self@, r as int, c_lo as int, c_hi as int),
            ascii_bytes(old(buf)@) ==> ascii_bytes(final(buf)@),
    {
        let mut c = c_lo;
        while c < c_hi
            invariant
                self.wf(),
                0 <= r as int,
                (r as int) < self@.height,
                c_lo as int <= c as int,
                c as int <= c_hi as int,
                0 <= c_lo as int,
                c_hi as int <= self@.width,
                buf@ + sp_row_body(self@, r as int, c as int, c_hi as int) == old(buf)@
                    + sp_row_body(self@, r as int, c_lo as int, c_hi as int),
                ascii_bytes(old(buf)@) ==> ascii_bytes(buf@),
            decreases c_hi - c,
        {
            let cur = self.alive_rc(r, c);
            let mut e = c + 1;
            while e < c_hi && self.alive_rc(r, e) == cur
                invariant
                    self.wf(),
                    0 <= r as int,
                    (r as int) < self@.height,
                    0 <= c as int,
                    (c as int) < e as int,
                    e as int <= c_hi as int,
                    c_hi as int <= self@.width,
                    cur == alive_at(self@, r as int, c as int),
                    forall|x: int|
                        c as int <= x < e as int ==> alive_at(self@, r as int, x) == alive_at(
                            self@,
                            r as int,
                            c as int,
                        ),
                decreases c_hi - e,
            {
                e += 1;
            }
            proof {
                lemma_run_end_exact(self@, r as int, c as int, c_hi as int, e as int);
            }
            let ghost before = buf@;
            if cur || e < c_hi {
                let n = e - c;
                push_uint(buf, n as usize);
                buf.push(
                    if cur {
                        111
                    } else {
                        98
                    },
                );
                proof {
                    assert(buf@ =~= before + (dec_rep(e as int - c as int) + seq![
                        if cur {
                            111u8
                        } else {
                            98u8
                        },
                    ]));
                    assert(buf@ + sp_row_body(self@, r as int, e as int, c_hi as int) =~= old(buf)@
                        + sp_row_body(self@, r as int, c_lo as int, c_hi as int));
                }
            } else {
                proof {
                    assert(sp_row_body(self@, r as int, c as int, c_hi as int)
                        =~= Seq::<u8>::empty());
                    assert(buf@ + sp_row_body(self@, r as int, e as int, c_hi as int) =~= old(buf)@
                        + sp_row_body(self@, r as int, c_lo as int, c_hi as int));
                }
            }
            c = e;
        }
        proof {
            assert(buf@ + Seq::<u8>::empty() =~= buf@);
            assert(sp_row_body(self@, r as int, c_hi as int, c_hi as int) =~= Seq::<u8>::empty());
        }
    }

    /// Append the whole body for the bounding box, rows separated by
    /// `$`, then the terminating `!`.
    fn write_pattern(&self, bounds: &Rect, buf: &mut Vec<u8>)
        requires
            self.wf(),
            0 <= bounds.y as int,
            bounds.height >= 1,
            bounds.y as int + bounds.height as int <= self@.height,
            0 <= bounds.x as int,
            bounds.width >= 1,
            bounds.x as int + bounds.width as int <= self@.width,
        ensures
            final(buf)@ == old(buf)@ + sp_body(
                self@,
                bounds.y as int,
                bounds.y as int + bounds.height as int,
                bounds.x as int,
                bounds.x as int + bounds.width as int,
            ) + seq![33u8],
            ascii_bytes(old(buf)@) ==> ascii_bytes(final(buf)@),
    {
        let r_hi = bounds.y + bounds.height;
        let c_lo = bounds.x;
        let c_hi = bounds.x + bounds.width;
        let mut r = bounds.y;
        while r < r_hi
            invariant
                self.wf(),
                bounds.y as int <= r as int,
                r as int <= r_hi as int,
                r_hi as int == bounds.y as int + bounds.height as int,
                r_hi as int <= self@.height,
                0 <= bounds.y as int,
                c_lo as int == bounds.x as int,
                c_hi as int == bounds.x as int + bounds.width as int,
                0 <= c_lo as int,
                (c_lo as int) < c_hi as int,
                c_hi as int <= self@.width,
                ((r as int) < (r_hi as int)) ==> (buf@ + sp_body(
                    self@,
                    r as int,
                    r_hi as int,
                    c_lo as int,
                    c_hi as int,
                ) == old(buf)@ + sp_body(
                    self@,
                    bounds.y as int,
                    r_hi as int,
                    c_lo as int,
                    c_hi as int,
                )),
                (r as int == r_hi as int) ==> (buf@ == old(buf)@ + sp_body(
                    self@,
                    bounds.y as int,
                    r_hi as int,
                    c_lo as int,
                    c_hi as int,
                )),
                ascii_bytes(old(buf)@) ==> ascii_bytes(buf@),
            decreases r_hi - r,
        {
            let ghost before = buf@;
            self.write_row(r, c_lo, c_hi, buf);
            if r + 1 < r_hi {
                buf.push(36);
                proof {
                    assert(buf@ =~= before + (sp_row_body(
                        self@,
                        r as int,
                        c_lo as int,
                        c_hi as int,
                    ) + seq![36u8]));
                    assert(buf@ + sp_body(self@, r as int + 1, r_hi as int, c_lo as int, c_hi as int)
                        =~= before + sp_body(self@, r as int, r_hi as int, c_lo as int, c_hi as int));
                }
            } else {
                proof {
                    assert(buf@ =~= before + sp_body(
                        self@,
                        r as int,
                        r_hi as int,
                        c_lo as int,
                        c_hi as int,
                    ));
                }
            }
            r += 1;
        }
        buf.push(33);
        proof {
            assert(buf@ =~= old(buf)@ + sp_body(
                self@,
                bounds.y as int,
                r_hi as int,
                c_lo as int,
                c_hi as int,
            ) + seq![33u8]);
        }
    }

    /// Serialize the live region as RLE text: empty when the grid is
    /// entirely dead, otherwise an `#R` origin comment (the bounding
    /// box's offset from the grid center), the `x = .., y = ..`
    /// header, and the run-encoded body terminated by `!`.
    #[verifier::spinoff_prover]
    #[verifier::rlimit(100)]
    pub fn export_rle(&self) -> (out: String)
        requires
            self.wf(),
        ensures
            out@ == export_text(self@),
    {
        let bopt = self.pattern_boundaries();
        match bopt {
            None => {
                proof {
                    assert(export_bytes(self@) =~= Seq::<u8>::empty());
                    assert(export_text(self@) =~= Seq::<char>::empty());
                }
                String::new()
            },
            Some(rect) => {
                let ghost v = self@;
                let mut buf: Vec<u8> = Vec::new();
                buf.push(35);
                buf.push(82);
                buf.push(32);
                proof {
                    assert(buf@ =~= seq![35u8, 82u8, 32u8]);
                }
                let cx = self.width / 2;
                let cy = self.height / 2;
                push_int(&mut buf, rect.x - cx);
                buf.push(32);
                push_int(&mut buf, rect.y - cy);
                buf.push(10);
                buf.push(120);
                buf.push(32);
                buf.push(61);
                buf.push(32);
                push_uint(&mut buf, rect.width as usize);
                buf.push(44);
                buf.push(32);
                buf.push(121);
                buf.push(32);
                buf.push(61);
                buf.push(32);
                push_uint(&mut buf, rect.height as usize);
                buf.push(10);
                proof {
                    assert(buf@ =~= seq![35u8, 82u8, 32u8] + dec_int(rect.x as int - v.width / 2)
                        + seq![32u8] + dec_int(rect.y as int - v.height / 2) + seq![
                        10u8,
                        120u8,
                        32u8,
                        61u8,
                        32u8,
                    ] + dec_rep(rect.width as int) + seq![44u8, 32u8, 121u8, 32u8, 61u8, 32u8]
                        + dec_rep(rect.height as int) + seq![10u8]);
                }
                self.write_pattern(&rect, &mut buf);
                proof {
                    assert(buf@ =~= export_bytes(v));
                    assert(ascii_bytes(buf@));
                    lemma_ascii_decode(buf@);
                }
                match crate::parser::string_from_utf8(buf) {
                    Some(st) => st,
                    None => {
                        proof {
                            assert(false);
                        }
                        String::new()
                    },
                }
            },
        }
    }

    /// Write one run of `count` equal cells at row `j` starting at
    /// column `i`, mirroring [`apply_cells`].
    fn write_run(&mut self, j: i128, i: i128, count: usize, cell: Cell) -> (ni: i128)
        requires
            old(self).wf(),
            j <= 0x1_0000_0000,
            i <= 0x1_0000_0000,
        ensures
            final(self).wf(),
            final(self)@ == apply_cells(old(self)@, j as int, i as int, count as nat, cell is Alive).0,
            ni as int == apply_cells(old(self)@, j as int, i as int, count as nat, cell is Alive).1,
            final(self)@.width == old(self)@.width,
            final(self)@.height == old(self)@.height,
            ni <= 0x1_0000_0000,
    {
        let ghost target = apply_cells(old(self)@, j as int, i as int, count as nat, cell is Alive);
        let mut i2 = i;
        let mut k: usize = 0;
        while k < count && i2 <= i32::MAX as i128
            invariant
                self.wf(),
                k <= count,
                i2 <= 0x1_0000_0000,
                target == apply_cells(self@, j as int, i2 as int, (count - k) as nat, cell is Alive),
                self@.width == old(self)@.width,
                self@.height == old(self)@.height,
                j <= 0x1_0000_0000,
            decreases count - k,
        {
            if j >= -(self.height as i128) && j <= i32::MAX as i128 && i2 >= -(
            self.width as i128) {
                self.set_cell(j as i32, i2 as i32, cell);
            }
            i2 = i2 + 1;
            k += 1;
        }
        if k < count {
            proof {
                assert(i2 as int > i32::MAX as int);
                assert(target == (self@, cap_cursor(i2 as int + (count - k) as int)));
            }
            let rest = (count - k) as i128;
            let ni = i2 + rest;
            if ni > i32::MAX as i128 + 1 {
                i32::MAX as i128 + 1
            } else {
                ni
            }
        } else {
            i2
        }
    }

    /// Place a parsed pattern on the grid through `set_cell`, so
    /// every written cell is recorded as changed.
    fn load_rle(&mut self, rle: parser::Rle)
        requires
            old(self).wf(),
        ensures
            final(self).wf(),
            final(self)@ == loaded(old(self)@, parser::rle_view(rle)),
    {
        let ghost rv = parser::rle_view(rle);
        proof {
            assert(parser::comments_view(rle.comments@).skip(0) =~= parser::comments_view(
                rle.comments@,
            ));
        }
        let mut k: usize = 0;
        let mut coords: Option<(i32, i32)> = None;
        while k < rle.comments.len() && coords.is_none()
            invariant
                k <= rle.comments@.len(),
                coords matches Some(xy) ==> sp_first_coords(parser::comments_view(rle.comments@))
                    == Some((xy.0 as int, xy.1 as int)),
                coords is None ==> sp_first_coords(parser::comments_view(rle.comments@))
                    == sp_first_coords(parser::comments_view(rle.comments@).skip(k as int)),
            decreases rle.comments@.len() - k,
        {
            let ghost cv = parser::comments_view(rle.comments@);
            match &rle.comments[k] {
                parser::RleComment::Coordinates(x, y) => {
                    proof {
                        assert(cv.skip(k as int)[0] == cv[k as int]);
                    }
                    coords = Some((*x, *y));
                },
                _ => {
                    proof {
                        assert(cv.skip(k as int)[0] == cv[k as int]);
                        assert(cv.skip(k as int).drop_first() =~= cv.skip(k as int + 1));
                    }
                },
            }
            k += 1;
        }
        proof {
            if coords is None {
                assert(parser::comments_view(rle.comments@).skip(
                    rle.comments@.len() as int,
                ) =~= Seq::<parser::CommentV>::empty());
            }
        }
        let cx = (self.width / 2) as i128;
        let cy = (self.height / 2) as i128;
        let (tlx, tly) = match coords {
            Some((x, y)) => (cx + x as i128, cy + y as i128),
            None => {
                let half_w = (rle.size.0 / 2) as i128;
                let half_h = (rle.size.1 / 2) as i128;
                (cx - half_w, cy - half_h)
            },
        };
        let mut j: i128 = tly;
        let mut i: i128 = tlx;
        let mut idx: usize = 0;
        let ghost v0 = self@;
        proof {
            assert(rv.content.skip(0) =~= rv.content);
        }
        while idx < rle.content.len()
            invariant
                self.wf(),
                idx <= rle.content@.len(),
                rv == parser::rle_view(rle),
                rv.content == rle.content@,
                j <= 0x1_0000_0000,
                i <= 0x1_0000_0000,
                tlx <= 0x1_0000_0000,
                self@.width == v0.width,
                self@.height == v0.height,
                apply_runs(v0, rv.content, tlx as int, tly as int, tlx as int) == apply_runs(
                    self@,
                    rv.content.skip(idx as int),
                    tlx as int,
                    j as int,
                    i as int,
                ),
            decreases rle.content@.len() - idx,
        {
            let parser::RleTagSequence(count, tag) = rle.content[idx];
            proof {
                assert(rv.content.skip(idx as int)[0] == rv.content[idx as int]);
                assert(rv.content.skip(idx as int).drop_first() =~= rv.content.skip(
                    idx as int + 1,
                ));
            }
            match tag {
                parser::RleTag::NextLine => {
                    let nj = j + count as i128;
                    j = if nj > i32::MAX as i128 + 1 {
                        i32::MAX as i128 + 1
                    } else {
                        nj
                    };
                    i = tlx;
                },
                parser::RleTag::Dead => {
                    i = self.write_run(j, i, count, Cell::Dead);
                },
                parser::RleTag::Alive => {
                    i = self.write_run(j, i, count, Cell::Alive);
                },
            }
            idx += 1;
        }
        proof {
            assert(rv.content.skip(rle.content@.len() as int)
                =~= Seq::<parser::RleTagSequence>::empty());
        }
    }

    /// Parse RLE text and place the pattern on the grid. On a parse
    /// failure the grid is left untouched and the byte position where
    /// parsing stopped is returned.
    pub fn load_string(&mut self, pattern: String) -> (r: Result<(), usize>)
        requires
            old(self).wf(),
        ensures
            final(self).wf(),
            r is Ok <==> parser::sp_parse_rle(vstd::utf8::encode_utf8(pattern@)) is Ok,
            r is Ok ==> (parser::sp_parse_rle(vstd::utf8::encode_utf8(pattern@)) matches Ok(pr)
                && final(self)@ == loaded(old(self)@, pr.1)),
            r matches Err(p) ==> final(self)@ == old(self)@ && parser::sp_parse_rle(
                vstd::utf8::encode_utf8(pattern@),
            ) == Err::<(int, parser::RleV), int>(p as int),
    {
        let bytes = pattern.as_str().as_bytes();
        match parser::parse_rle(bytes) {
            Ok((_, rle)) => {
                self.load_rle(rle);
                Ok(())
            },
            Err(p) => Err(p),
        }
    }

    /// Load a plaintext pattern (`.` dead, `o`/`O` alive, one text
    /// line per grid row) with its top-left corner at `(row, col)`.
    /// Fails fast, leaving the grid untouched, on any other character
    /// or on rows of unequal length.
    pub fn load_plaintext(&mut self, row: i32, col: i32, text: &str) -> (r: Result<
        (),
        PlaintextError,
    >)
        requires
            old(self).wf(),
        ensures
            final(self).wf(),
            r is Ok <==> (plain_chars_ok(vstd::utf8::encode_utf8(text@)) && sp_rows_equal(
                vstd::utf8::encode_utf8(text@),
                0,
                sp_first_line_len(vstd::utf8::encode_utf8(text@)),
            )),
            r == Err::<(), PlaintextError>(PlaintextError::BadCharacter) <==> !plain_chars_ok(
                vstd::utf8::encode_utf8(text@),
            ),
            r is Ok ==> final(self)@ == apply_plain(
                old(self)@,
                vstd::utf8::encode_utf8(text@),
                0,
                row as int,
                col as int,
                col as int,
            ),
            r is Err ==> final(self)@ == old(self)@,
    {
        let bytes = text.as_bytes();
        let mut p: usize = 0;
        while p < bytes.len()
            invariant
                self.wf(),
                self@ == old(self)@,
                p <= bytes@.len(),
                bytes@ == vstd::utf8::encode_utf8(text@),
                forall|k: int|
                    0 <= k < p ==> ((#[trigger] bytes@[k]) == 46 || bytes@[k] == 111 || bytes@[k]
                        == 79 || bytes@[k] == 10),
            decreases bytes@.len() - p,
        {
            let b = bytes[p];
            if !(b == 46 || b == 111 || b == 79 || b == 10) {
                return Err(PlaintextError::BadCharacter);
            }
            p += 1;
        }
        proof {
            assert(plain_chars_ok(bytes@));
        }
        let expect = match parser::consume_through_newline(bytes, 0) {
            Some((nl, _)) => nl,
            None => bytes.len(),
        };
        let mut q: usize = 0;
        loop
            invariant
                self.wf(),
                self@ == old(self)@,
                q <= bytes@.len(),
                bytes@ == vstd::utf8::encode_utf8(text@),
                plain_chars_ok(bytes@),
                expect as int == sp_first_line_len(bytes@),
                sp_rows_equal(bytes@, 0, expect as int) == sp_rows_equal(bytes@, q as int, expect as int),
            ensures
                self.wf(),
                self@ == old(self)@,
                q <= bytes@.len(),
                sp_rows_equal(bytes@, 0, expect as int) == sp_rows_equal(bytes@, q as int, expect as int),
                (q as int >= bytes@.len()) || !sp_rows_equal(bytes@, q as int, expect as int),
            decreases bytes@.len() - q,
        {
            if q >= bytes.len() {
                break ;
            }
            match parser::consume_through_newline(bytes, q) {
                Some((nl, nxt)) => {
                    if nl - q != expect {
                        break ;
                    }
                    q = nxt;
                },
                None => {
                    if bytes.len() - q != expect {
                        break ;
                    }
                    q = bytes.len();
                },
            }
        }
        if q < bytes.len() {
            proof {
                assert(!sp_rows_equal(bytes@, 0, expect as int));
            }
            return Err(PlaintextError::RaggedRows);
        }
        proof {
            assert(sp_rows_equal(bytes@, q as int, expect as int));
            assert(sp_rows_equal(bytes@, 0, expect as int));
        }
        let ghost v0 = self@;
        let col0: i128 = col as i128;
        let mut j: i128 = row as i128;
        let mut i: i128 = col0;
        let mut p2: usize = 0;
        while p2 < bytes.len()
            invariant
                self.wf(),
                p2 <= bytes@.len(),
                bytes@ == vstd::utf8::encode_utf8(text@),
                j <= 0x1_0000_0000,
                i <= 0x1_0000_0000,
                col0 <= 0x1_0000_0000,
                self@.width == v0.width,
                self@.height == v0.height,
                apply_plain(v0, bytes@, 0, row as int, col as int, col as int) == apply_plain(
                    self@,
                    bytes@,
                    p2 as int,
                    j as int,
                    i as int,
                    col0 as int,
                ),
            decreases bytes@.len() - p2,
        {
            let b = bytes[p2];
            if b == 10 {
                let nj = j + 1;
                j = if nj > i32::MAX as i128 + 1 {
                    i32::MAX as i128 + 1
                } else {
                    nj
                };
                i = col0;
            } else {
                let cell = if b == 111 || b == 79 {
                    Cell::Alive
                } else {
                    Cell::Dead
                };
                if j >= -(self.height as i128) && j <= i32::MAX as i128 && i >= -(
                self.width as i128) && i <= i32::MAX as i128 {
                    self.set_cell(j as i32, i as i32, cell);
                }
                let ni = i + 1;
                i = if ni > i32::MAX as i128 + 1 {
                    i32::MAX as i128 + 1
                } else {
                    ni
                };
            }
            p2 += 1;
        }
        Ok(())
    }

    /// Forget the recorded changes (a renderer has consumed them).
    pub fn reset_changed_cells(&mut self)
        requires
            old(self).wf(),
        ensures
            final(self).wf(),
            final(self)@ == (WorldView { changed: Seq::empty(), ..old(self)@ }),
    {
        self.changed_cells.clear();
        proof {
            assert(self@.changed =~= Seq::<int>::empty());
            assert(self@ =~= (WorldView { changed: Seq::empty(), ..old(self)@ }));
        }
    }
}

} // verus!
