//! The mathematics of two-dimensional shingles: what one production over a
//! grid of rows gives, all the windows of a grid, and how rows of text with a
//! cursor each relate to rows that share one.

use vstd::prelude::*;
use crate::shingles::{advance, lemma_window_count_advance, min, window_count};

verus! {

/// The part of `row` that a window of `width` columns beginning at column
/// `pos` covers: shorter than `width`, or empty, where the row ends early.
pub open spec fn clip_row<A>(row: Seq<A>, pos: nat, width: nat) -> Seq<A> {
    row.subrange(min(pos as int, row.len() as int), min((pos + width) as int, row.len() as int))
}

/// Whether one of the first `height` rows holds all `width` columns from column `pos` on.
pub open spec fn block_reaches<A>(rows: Seq<Seq<A>>, height: nat, pos: nat, width: nat) -> bool {
    exists|y: int| 0 <= y < height && pos + width <= (#[trigger] rows[y]).len()
}

/// The window over the first `height` rows at column `pos`: one clipped part per row.
pub open spec fn block_window<A>(rows: Seq<Seq<A>>, height: nat, pos: nat, width: nat) -> Seq<
    Seq<A>,
> {
    Seq::new(height, |y: int| clip_row(rows[y], pos, width))
}

/// One production over rows that share a column cursor.
pub struct FixedStep<A> {
    /// The window, if one was found.
    pub window: Option<Seq<Seq<A>>>,
    /// The rows that are left.
    pub rows: Seq<Seq<A>>,
    /// The column cursor for the next production.
    pub pos: nat,
}

/// The next window over `rows` from column `pos`, of `size.0` columns and
/// `size.1` rows. A block of rows gives a window if one of its rows holds the
/// full width at the cursor; the cursor then moves `step.0` columns on. If
/// none does, `step.1` rows are dropped and the cursor starts again at
/// column 0. Nothing is found once fewer than `size.1` rows are left.
pub open spec fn next_fixed<A>(rows: Seq<Seq<A>>, pos: nat, size: (nat, nat), step: (nat, nat)) -> FixedStep<A>
    decreases rows.len(),
{
    if rows.len() < size.1 || size.1 == 0 || step.1 == 0 {
        FixedStep { window: None, rows: rows, pos: pos }
    } else if block_reaches(rows, size.1, pos, size.0) {
        FixedStep {
            window: Some(block_window(rows, size.1, pos, size.0)),
            rows: rows,
            pos: pos + step.0,
        }
    } else {
        next_fixed(advance(rows, step.1), 0, size, step)
    }
}

/// The length of the longest of the first `height` rows.
pub open spec fn widest<A>(rows: Seq<Seq<A>>, height: nat) -> nat
    decreases height,
{
    if height == 0 {
        0
    } else {
        let before = widest(rows, (height - 1) as nat);
        let last = rows[height - 1].len();
        if before >= last {
            before
        } else {
            last
        }
    }
}

/// The windows that the first `height` rows give from column `pos` on: one
/// every `step` columns, for as long as the longest row holds the full width.
pub open spec fn block_windows<A>(
    rows: Seq<Seq<A>>,
    height: nat,
    pos: nat,
    width: nat,
    step: nat,
) -> Seq<Seq<Seq<A>>> {
    let room = if pos <= widest(rows, height) {
        (widest(rows, height) - pos) as nat
    } else {
        0nat
    };
    Seq::new(
        window_count(room, width, step),
        |i: int| block_window(rows, height, (pos + i * step) as nat, width),
    )
}

/// All the windows over `rows` with the column cursor at `pos`: those that
/// the first block of `size.1` rows gives from `pos` on, then those of each
/// later block, `step.1` rows apart, from column 0 on.
pub open spec fn grid_windows<A>(rows: Seq<Seq<A>>, pos: nat, size: (nat, nat), step: (nat, nat)) -> Seq<
    Seq<Seq<A>>,
>
    decreases rows.len(),
{
    if rows.len() < size.1 || size.1 == 0 || step.1 == 0 {
        Seq::empty()
    } else {
        block_windows(rows, size.1, pos, size.0, step.0) + grid_windows(
            advance(rows, step.1),
            0,
            size,
            step,
        )
    }
}

/// A block holds the full width at a column exactly if its longest row does.
pub proof fn lemma_block_reaches_widest<A>(rows: Seq<Seq<A>>, height: nat, pos: nat, width: nat)
    ensures
        block_reaches(rows, height, pos, width) <==> height >= 1 && pos + width <= widest(
            rows,
            height,
        ),
    decreases height,
{
    if height > 0 {
        let h = (height - 1) as nat;
        lemma_block_reaches_widest(rows, h, pos, width);
        if block_reaches(rows, height, pos, width) {
            let y = choose|y: int| 0 <= y < height && pos + width <= (#[trigger] rows[y]).len();
            if y < h {
                assert(block_reaches(rows, h, pos, width));
            }
        }
        if pos + width <= widest(rows, height) {
            if pos + width <= rows[height - 1].len() {
                assert(0 <= height - 1 < height && pos + width <= rows[height - 1].len());
            } else {
                assert(block_reaches(rows, h, pos, width));
                let y = choose|y: int| 0 <= y < h && pos + width <= (#[trigger] rows[y]).len();
                assert(0 <= y < height && pos + width <= rows[y].len());
            }
        }
    }
}

/// The windows of a block from a column on are the window at that column,
/// if the block holds the full width there, followed by the windows from the
/// next column on.
pub proof fn lemma_block_windows_unfold<A>(
    rows: Seq<Seq<A>>,
    height: nat,
    pos: nat,
    width: nat,
    step: nat,
)
    requires
        height >= 1,
        width >= 1,
        step >= 1,
    ensures
        !block_reaches(rows, height, pos, width) ==> block_windows(rows, height, pos, width, step)
            =~= Seq::<Seq<Seq<A>>>::empty(),
        block_reaches(rows, height, pos, width) ==> block_windows(rows, height, pos, width, step)
            =~= seq![block_window(rows, height, pos, width)] + block_windows(
            rows,
            height,
            pos + step,
            width,
            step,
        ),
{
    lemma_block_reaches_widest(rows, height, pos, width);
    if block_reaches(rows, height, pos, width) {
        let room = (widest(rows, height) - pos) as nat;
        let next = pos + step;
        let all = block_windows(rows, height, pos, width, step);
        let tail = block_windows(rows, height, next, width, step);
        lemma_window_count_advance(room, width, step);
        assert(all.len() == 1 + tail.len());
        assert(pos + 0 * step == pos) by (nonlinear_arith);
        assert(all[0] == block_window(rows, height, pos, width));
        assert forall|i: int| 1 <= i < all.len() implies all[i] == tail[i - 1] by {
            assert(next + (i - 1) * step == pos + i * step) by (nonlinear_arith)
                requires
                    next == pos + step,
            ;
        }
    }
}

/// What one production finds is the first of all the windows, and what it
/// leaves gives the others: no window is left exactly if none is found.
pub proof fn lemma_grid_windows_unfold<A>(
    rows: Seq<Seq<A>>,
    pos: nat,
    size: (nat, nat),
    step: (nat, nat),
)
    requires
        size.0 >= 1,
        step.0 >= 1,
    ensures
        ({
            let found = next_fixed(rows, pos, size, step);
            let all = grid_windows(rows, pos, size, step);
            match found.window {
                Some(w) => all =~= seq![w] + grid_windows(found.rows, found.pos, size, step),
                None => all =~= Seq::<Seq<Seq<A>>>::empty(),
            }
        }),
    decreases rows.len(),
{
    if !(rows.len() < size.1 || size.1 == 0 || step.1 == 0) {
        lemma_block_windows_unfold(rows, size.1, pos, size.0, step.0);
        if !block_reaches(rows, size.1, pos, size.0) {
            lemma_grid_windows_unfold(advance(rows, step.1), 0, size, step);
        }
    }
}

/// A column cursor behind the end of every row of the first block gives the
/// same windows wherever behind it stands.
pub proof fn lemma_grid_windows_behind<A>(
    rows: Seq<Seq<A>>,
    pos: nat,
    other: nat,
    size: (nat, nat),
    step: (nat, nat),
)
    requires
        size.0 >= 1,
        forall|y: int| 0 <= y < size.1 && y < rows.len() ==> (#[trigger] rows[y]).len() <= pos,
        forall|y: int| 0 <= y < size.1 && y < rows.len() ==> (#[trigger] rows[y]).len() <= other,
    ensures
        grid_windows(rows, pos, size, step) == grid_windows(rows, other, size, step),
{
    if !(rows.len() < size.1 || size.1 == 0 || step.1 == 0) {
        lemma_widest_bound(rows, size.1, pos);
        lemma_widest_bound(rows, size.1, other);
        assert(block_windows(rows, size.1, pos, size.0, step.0) =~= block_windows(
            rows,
            size.1,
            other,
            size.0,
            step.0,
        ));
    }
}

/// The longest of the first `height` rows is no longer than a bound on all of them.
pub proof fn lemma_widest_bound<A>(rows: Seq<Seq<A>>, height: nat, bound: nat)
    requires
        forall|y: int| 0 <= y < height ==> (#[trigger] rows[y]).len() <= bound,
    ensures
        widest(rows, height) <= bound,
    decreases height,
{
    if height > 0 {
        lemma_widest_bound(rows, (height - 1) as nat, bound);
    }
}

/// Whether one of the first `height` rows holds all `width` columns from its
/// own cursor on.
pub open spec fn text_block_reaches(
    rows: Seq<Seq<char>>,
    height: nat,
    cursors: Seq<nat>,
    width: nat,
) -> bool {
    exists|y: int| 0 <= y < height && #[trigger] cursors[y] + width <= rows[y].len()
}

/// The window over the first `height` rows, each row clipped at its own cursor.
pub open spec fn text_block_window(
    rows: Seq<Seq<char>>,
    height: nat,
    cursors: Seq<nat>,
    width: nat,
) -> Seq<Seq<char>> {
    Seq::new(height, |y: int| clip_row(rows[y], cursors[y], width))
}

/// Each row's cursor `step` characters on, held at the end of its row.
pub open spec fn text_next_cursors(
    rows: Seq<Seq<char>>,
    height: nat,
    cursors: Seq<nat>,
    step: nat,
) -> Seq<nat> {
    Seq::new(height, |y: int| min((cursors[y] + step) as int, rows[y].len() as int) as nat)
}

/// `height` cursors at the start of their rows.
pub open spec fn start_cursors(height: nat) -> Seq<nat> {
    Seq::new(height, |y: int| 0nat)
}

/// One production over rows of text that keep a cursor each.
pub struct TextStep {
    /// The window, if one was found.
    pub window: Option<Seq<Seq<char>>>,
    /// The rows that are left.
    pub rows: Seq<Seq<char>>,
    /// The cursor of each row of the block, counted in characters.
    pub cursors: Seq<nat>,
}

/// The next window over `rows` of text, of `size.0` characters and `size.1`
/// rows, each row read from its own cursor. A block of rows gives a window if
/// one of its rows holds the full width at its cursor; every cursor then
/// moves `step.0` characters on, or to the end of its row. If none does,
/// `step.1` rows are dropped and all cursors start again. Nothing is found
/// once fewer than `size.1` rows are left.
pub open spec fn next_text(
    rows: Seq<Seq<char>>,
    cursors: Seq<nat>,
    size: (nat, nat),
    step: (nat, nat),
) -> TextStep
    decreases rows.len(),
{
    if rows.len() < size.1 || size.1 == 0 || step.1 == 0 {
        TextStep { window: None, rows: rows, cursors: cursors }
    } else if text_block_reaches(rows, size.1, cursors, size.0) {
        TextStep {
            window: Some(text_block_window(rows, size.1, cursors, size.0)),
            rows: rows,
            cursors: text_next_cursors(rows, size.1, cursors, step.0),
        }
    } else {
        next_text(advance(rows, step.1), start_cursors(size.1), size, step)
    }
}

/// The cursors of `height` rows that stand together at column `pos`, each
/// held at the end of its row.
pub open spec fn aligned_cursors(rows: Seq<Seq<char>>, height: nat, pos: nat) -> Seq<nat> {
    Seq::new(height, |y: int| min(pos as int, rows[y].len() as int) as nat)
}

/// Rows of text whose cursors stand together at one column give what rows
/// with a shared column cursor give: the same window and the same rows left,
/// with the cursors together again at the next column.
pub proof fn lemma_text_step_is_fixed_step(
    rows: Seq<Seq<char>>,
    pos: nat,
    size: (nat, nat),
    step: (nat, nat),
)
    requires
        size.0 >= 1,
    ensures
        ({
            let text = next_text(rows, aligned_cursors(rows, size.1, pos), size, step);
            let fixed = next_fixed(rows, pos, size, step);
            &&& text.window == fixed.window
            &&& text.rows == fixed.rows
            &&& text.cursors == aligned_cursors(fixed.rows, size.1, fixed.pos)
        }),
    decreases rows.len(),
{
    let cursors = aligned_cursors(rows, size.1, pos);
    if !(rows.len() < size.1 || size.1 == 0 || step.1 == 0) {
        if block_reaches(rows, size.1, pos, size.0) {
            let y = choose|y: int| 0 <= y < size.1 && pos + size.0 <= (#[trigger] rows[y]).len();
            assert(cursors[y] + size.0 <= rows[y].len());
        }
        if text_block_reaches(rows, size.1, cursors, size.0) {
            let y = choose|y: int| 0 <= y < size.1 && #[trigger] cursors[y] + size.0 <= rows[y].len();
            assert(pos + size.0 <= rows[y].len());
        }
        if block_reaches(rows, size.1, pos, size.0) {
            assert(text_block_window(rows, size.1, cursors, size.0) =~= block_window(
                rows,
                size.1,
                pos,
                size.0,
            ));
            assert(text_next_cursors(rows, size.1, cursors, step.0) =~= aligned_cursors(
                rows,
                size.1,
                pos + step.0,
            ));
        } else {
            let rest = advance(rows, step.1);
            assert(start_cursors(size.1) =~= aligned_cursors(rest, size.1, 0));
            lemma_text_step_is_fixed_step(rest, 0, size, step);
        }
    }
}

/// Cursors that stand together at one column and at another give the same
/// windows from either.
pub proof fn lemma_aligned_same_windows(
    rows: Seq<Seq<char>>,
    pos: nat,
    other: nat,
    size: (nat, nat),
    step: (nat, nat),
)
    requires
        size.0 >= 1,
        aligned_cursors(rows, size.1, pos) == aligned_cursors(rows, size.1, other),
    ensures
        grid_windows(rows, pos, size, step) == grid_windows(rows, other, size, step),
{
    if pos != other {
        assert forall|y: int| 0 <= y < size.1 && y < rows.len() implies (#[trigger] rows[y]).len()
            <= pos && rows[y].len() <= other by {
            let a = aligned_cursors(rows, size.1, pos);
            let b = aligned_cursors(rows, size.1, other);
            assert(a[y] == min(pos as int, rows[y].len() as int));
            assert(b[y] == min(other as int, rows[y].len() as int));
        }
        lemma_grid_windows_behind(rows, pos, other, size, step);
    }
}

/// Fewer rows than a window is high give no window, whether the rows share
/// a cursor or keep one each.
pub proof fn lemma_few_rows_no_windows<A>(
    rows: Seq<Seq<A>>,
    pos: nat,
    size: (nat, nat),
    step: (nat, nat),
)
    requires
        rows.len() < size.1,
    ensures
        next_fixed(rows, pos, size, step).window.is_none(),
        grid_windows(rows, pos, size, step).len() == 0,
{
}

/// Fewer rows of text than a window is high give no window.
pub proof fn lemma_few_text_rows_no_window(
    rows: Seq<Seq<char>>,
    cursors: Seq<nat>,
    size: (nat, nat),
    step: (nat, nat),
)
    requires
        rows.len() < size.1,
    ensures
        next_text(rows, cursors, size, step).window.is_none(),
{
}

/// Rows that are all shorter than a window is wide give no window, wherever
/// the column cursor stands: empty rows give none.
pub proof fn lemma_narrow_rows_no_windows<A>(
    rows: Seq<Seq<A>>,
    pos: nat,
    size: (nat, nat),
    step: (nat, nat),
)
    requires
        forall|y: int| 0 <= y < rows.len() ==> (#[trigger] rows[y]).len() < size.0,
    ensures
        grid_windows(rows, pos, size, step).len() == 0,
        next_fixed(rows, pos, size, step).window.is_none(),
    decreases rows.len(),
{
    if !(rows.len() < size.1 || size.1 == 0 || step.1 == 0) {
        lemma_widest_bound(rows, size.1, (size.0 - 1) as nat);
        lemma_block_reaches_widest(rows, size.1, pos, size.0);
        lemma_narrow_rows_no_windows(advance(rows, step.1), 0, size, step);
    }
}

/// What a production gives depends on the rows, the cursor, the size and the
/// step alone: two windowers over equal rows at the same column give the same
/// window, are left with the same rows and cursor, and give the same windows
/// in all.
pub proof fn lemma_same_grid_same_windows<A>(
    a: Seq<Seq<A>>,
    b: Seq<Seq<A>>,
    pos_a: nat,
    pos_b: nat,
    size_a: (nat, nat),
    size_b: (nat, nat),
    step_a: (nat, nat),
    step_b: (nat, nat),
)
    requires
        a == b,
        pos_a == pos_b,
        size_a == size_b,
        step_a == step_b,
    ensures
        next_fixed(a, pos_a, size_a, step_a) == next_fixed(b, pos_b, size_b, step_b),
        grid_windows(a, pos_a, size_a, step_a) == grid_windows(b, pos_b, size_b, step_b),
{
}

/// Two text windowers over equal rows with equal cursors give the same
/// window and are left with the same rows and cursors.
pub proof fn lemma_same_text_same_window(
    a: Seq<Seq<char>>,
    b: Seq<Seq<char>>,
    cursors_a: Seq<nat>,
    cursors_b: Seq<nat>,
    size_a: (nat, nat),
    size_b: (nat, nat),
    step_a: (nat, nat),
    step_b: (nat, nat),
)
    requires
        a == b,
        cursors_a == cursors_b,
        size_a == size_b,
        step_a == step_b,
    ensures
        next_text(a, cursors_a, size_a, step_a) == next_text(b, cursors_b, size_b, step_b),
{
}

} // verus!
