//! Two-dimensional shingles over a grid of rows: slices that share one column
//! cursor, or texts that each keep a cursor of their own.

use vstd::prelude::*;
use vstd::string::*;
use vstd::utf8::*;
use crate::grid::{
    aligned_cursors, block_reaches, block_window, clip_row, grid_windows,
    lemma_aligned_same_windows, lemma_grid_windows_behind, lemma_grid_windows_unfold,
    lemma_text_step_is_fixed_step, next_fixed, next_text, start_cursors, text_block_reaches,
    text_block_window, text_next_cursors, FixedStep, TextStep,
};
use crate::hasher::ShingleHasher;
use crate::shingles::{advance, min, slice_views, str_views};
use crate::text::{chars_before, lemma_boundary_prefix, lemma_boundary_shift, scan};

verus! {

/// The contents of each window of a list of windows over slices.
pub open spec fn slice_grid_views<T>(v: Seq<Vec<&[T]>>) -> Seq<Seq<Seq<T>>> {
    v.map_values(|w: Vec<&[T]>| slice_views(w@))
}

/// The characters of each window of a list of windows over texts.
pub open spec fn str_grid_views(v: Seq<Vec<&str>>) -> Seq<Seq<Seq<char>>> {
    v.map_values(|w: Vec<&str>| str_views(w@))
}

/// Where the column cursor of a two-dimensional windower stands.
pub enum Pos {
    /// Nothing was produced yet.
    Unset,
    /// One column shared by all rows.
    Val(usize),
    /// A byte offset for each row of the window.
    List(Vec<usize>),
}

/// A cursor over `data` that hands out windows of `size[0]` columns and
/// `size[1]` rows. `data` holds the rows that have not been dropped yet.
pub struct Shingles2D<'a, T: ?Sized + 'a> {
    pub data: &'a [&'a T],
    pub pos_x: Pos,
    pub size: [usize; 2],
    pub step: [usize; 2],
}

impl<'a, T: ?Sized> Shingles2D<'a, T> {
    /// A windower over `data` with windows of `size[0]` columns and `size[1]`
    /// rows, one column and one row apart.
    pub fn new(data: &'a [&'a T], size: [usize; 2]) -> (s: Self)
        requires
            size[0] >= 1,
            size[1] >= 1,
        ensures
            s.data == data,
            s.pos_x == Pos::Unset,
            s.size == size,
            s.step[0] == 1,
            s.step[1] == 1,
    {
        Self::new_with_step(data, size, [1, 1])
    }

    /// A windower over `data` with windows of `size[0]` columns and `size[1]`
    /// rows, `step[0]` columns and `step[1]` rows apart.
    pub fn new_with_step(data: &'a [&'a T], size: [usize; 2], step: [usize; 2]) -> (s: Self)
        requires
            size[0] >= 1,
            size[1] >= 1,
            step[0] >= 1,
            step[1] >= 1,
        ensures
            s.data == data,
            s.pos_x == Pos::Unset,
            s.size == size,
            s.step == step,
    {
        Shingles2D { data: data, size: size, pos_x: Pos::Unset, step: step }
    }

    /// The hashes of the windows in place of the windows.
    pub fn hashes(self) -> (h: ShingleHasher<Self>)
        ensures
            h.iter == self,
    {
        ShingleHasher::new(self)
    }
}

impl<'a, T> Shingles2D<'a, [T]> {
    /// Windows and steps are at least one wide and high, and the rows share
    /// one column cursor.
    pub open spec fn wf(&self) -> bool {
        &&& self.size[0] >= 1
        &&& self.size[1] >= 1
        &&& self.step[0] >= 1
        &&& self.step[1] >= 1
        &&& !(self.pos_x is List)
    }

    /// The column at which the next window begins.
    pub open spec fn column(&self) -> nat {
        match self.pos_x {
            Pos::Val(p) => p as nat,
            _ => 0,
        }
    }

    /// What the next production gives, and what it leaves.
    pub open spec fn next_spec(&self) -> FixedStep<T> {
        next_fixed(
            slice_views(self.data@),
            self.column(),
            (self.size[0] as nat, self.size[1] as nat),
            (self.step[0] as nat, self.step[1] as nat),
        )
    }

    /// The window over the first `height` rows at column `pos`, and whether
    /// one of these rows holds the full width there.
    fn block(rows: &'a [&'a [T]], height: usize, pos: usize, width: usize) -> (r: (
        Vec<&'a [T]>,
        bool,
    ))
        requires
            height <= rows@.len(),
        ensures
            slice_views(r.0@) == block_window(slice_views(rows@), height as nat, pos as nat, width as nat),
            r.1 == block_reaches(slice_views(rows@), height as nat, pos as nat, width as nat),
    {
        let mut out: Vec<&'a [T]> = Vec::with_capacity(height);
        let mut reaches = false;
        let mut y: usize = 0;
        while y < height
            invariant
                y <= height <= rows@.len(),
                out@.len() == y,
                forall|j: int|
                    0 <= j < y ==> (#[trigger] out@[j])@ == clip_row(
                        rows@[j]@,
                        pos as nat,
                        width as nat,
                    ),
                reaches == block_reaches(slice_views(rows@), y as nat, pos as nat, width as nat),
            decreases height - y,
        {
            let row: &'a [T] = rows[y];
            let len = row.len();
            assert(slice_views(rows@)[y as int] == row@);
            if len >= width && pos <= len - width {
                reaches = true;
            }
            let from = if pos < len {
                pos
            } else {
                len
            };
            let to = if width <= len - from {
                from + width
            } else {
                len
            };
            out.push(&row[from..to]);
            y = y + 1;
        }
        proof {
            assert(slice_views(out@) =~= block_window(
                slice_views(rows@),
                height as nat,
                pos as nat,
                width as nat,
            ));
        }
        (out, reaches)
    }

    /// The next window, if one is left: one part of each row of the block,
    /// all from the same column on.
    pub fn next(&mut self) -> (r: Option<Vec<&'a [T]>>)
        requires
            old(self).wf(),
        ensures
            final(self).wf(),
            final(self).size == old(self).size,
            final(self).step == old(self).step,
            slice_views(final(self).data@) == old(self).next_spec().rows,
            final(self).column() == min(old(self).next_spec().pos as int, usize::MAX as int),
            final(self).pos_x is Val,
            match r {
                Some(w) => old(self).next_spec().window == Some(slice_views(w@)),
                None => old(self).next_spec().window.is_none(),
            },
    {
        let mut pos_x: usize = match self.pos_x {
            Pos::Val(p) => p,
            _ => 0,
        };
        let height = self.size[1];
        let width = self.size[0];
        let mut ret: Option<Vec<&'a [T]>> = None;
        while self.data.len() >= height
            invariant_except_break
                ret.is_none(),
                next_fixed(
                    slice_views(self.data@),
                    pos_x as nat,
                    (self.size[0] as nat, self.size[1] as nat),
                    (self.step[0] as nat, self.step[1] as nat),
                ) == old(self).next_spec(),
            invariant
                self.wf(),
                self.size == old(self).size,
                self.step == old(self).step,
                height == self.size[1],
                width == self.size[0],
            ensures
                self.wf(),
                self.size == old(self).size,
                self.step == old(self).step,
                slice_views(self.data@) == old(self).next_spec().rows,
                pos_x == min(old(self).next_spec().pos as int, usize::MAX as int),
                match ret {
                    Some(w) => old(self).next_spec().window == Some(slice_views(w@)),
                    None => old(self).next_spec().window.is_none(),
                },
            decreases self.data@.len(),
        {
            let ghost before = slice_views(self.data@);
            let (window, reaches) = Self::block(self.data, height, pos_x, width);
            if reaches {
                pos_x = pos_x.saturating_add(self.step[0]);
                ret = Some(window);
                break ;
            }
            let len = self.data.len();
            let step = if self.step[1] < len {
                self.step[1]
            } else {
                len
            };
            self.data = &self.data[step..len];
            pos_x = 0;
            proof {
                assert(slice_views(self.data@) =~= advance(before, self.step[1] as nat));
            }
        }
        self.pos_x = Pos::Val(pos_x);
        ret
    }

    /// All the windows over the rows from the column cursor on.
    pub open spec fn windows(&self) -> Seq<Seq<Seq<T>>> {
        grid_windows(
            slice_views(self.data@),
            self.column(),
            (self.size[0] as nat, self.size[1] as nat),
            (self.step[0] as nat, self.step[1] as nat),
        )
    }

    /// All the windows that are left, in order.
    pub fn collect(self) -> (r: Vec<Vec<&'a [T]>>)
        requires
            self.wf(),
        ensures
            slice_grid_views(r@) == self.windows(),
    {
        let mut it = self;
        let mut out: Vec<Vec<&'a [T]>> = Vec::new();
        proof {
            assert(slice_grid_views(out@) =~= Seq::<Seq<Seq<T>>>::empty());
        }
        loop
            invariant_except_break
                it.wf(),
                slice_grid_views(out@) + it.windows() == self.windows(),
            ensures
                slice_grid_views(out@) == self.windows(),
            decreases it.windows().len(),
        {
            let ghost before = out@;
            let ghost found = it.next_spec();
            proof {
                lemma_grid_windows_unfold(
                    slice_views(it.data@),
                    it.column(),
                    (it.size[0] as nat, it.size[1] as nat),
                    (it.step[0] as nat, it.step[1] as nat),
                );
            }
            match it.next() {
                Some(w) => {
                    proof {
                        assert(slice_grid_views(before.push(w)) =~= slice_grid_views(before)
                            + seq![slice_views(w@)]);
                        if found.pos > usize::MAX {
                            assert forall|y: int| 0 <= y < it.data@.len() implies (
                            #[trigger] slice_views(it.data@)[y]).len() <= usize::MAX by {
                                assert(it.data@[y].len() == it.data@[y]@.len());
                            }
                            lemma_grid_windows_behind(
                                slice_views(it.data@),
                                found.pos,
                                usize::MAX as nat,
                                (it.size[0] as nat, it.size[1] as nat),
                                (it.step[0] as nat, it.step[1] as nat),
                            );
                        }
                    }
                    out.push(w);
                },
                None => {
                    break ;
                },
            }
        }
        out
    }
}

/// The part of `row` that a window of `width` characters covers from the
/// byte offset `pos` on, the byte offset `step` characters on, and whether
/// the row holds the full width there.
pub fn row_part<'a>(row: &'a str, pos: usize, width: usize, step: usize) -> (r: (
    &'a str,
    usize,
    bool,
))
    requires
        is_char_boundary(row.spec_bytes(), pos as int),
    ensures
        r.0@ == clip_row(row@, chars_before(row.spec_bytes(), pos as int), width as nat),
        is_char_boundary(row.spec_bytes(), r.1 as int),
        chars_before(row.spec_bytes(), r.1 as int) == min(
            chars_before(row.spec_bytes(), pos as int) + step,
            row@.len() as int,
        ),
        r.2 == (chars_before(row.spec_bytes(), pos as int) + width <= row@.len()),
{
    let ghost all = row.spec_bytes();
    proof {
        encode_utf8_valid_utf8(row@);
        encode_utf8_decode_utf8(row@);
        lemma_boundary_prefix(all, pos as int);
    }
    let (_, rest) = row.split_at(pos);
    proof {
        encode_utf8_decode_utf8(rest@);
    }
    let found = scan(rest, width, step);
    let (part, _) = rest.split_at(found.end);
    // the new offset lies within the row, whose length fits a `usize`
    let total = row.as_bytes().len();
    proof {
        encode_utf8_decode_utf8(part@);
        lemma_boundary_shift(all, pos as int, found.next as int);
        assert(pos + found.next <= total);
        assert(rest.spec_bytes() == all.subrange(pos as int, all.len() as int));
        assert(part@ =~= clip_row(row@, chars_before(all, pos as int), width as nat));
    }
    (part, pos + found.next, found.full)
}

/// The byte offsets in `pos` hold for the first `height` rows: one for each
/// row, on a character boundary of its row.
pub open spec fn offsets_fit(rows: Seq<&str>, pos: Pos, height: nat) -> bool {
    pos matches Pos::List(v) ==> {
        &&& v@.len() == height
        &&& forall|y: int|
            0 <= y < height ==> is_char_boundary(
                (#[trigger] rows[y]).spec_bytes(),
                v@[y] as int,
            )
    }
}

/// The cursor of each of the first `height` rows, counted in characters.
/// Before the first production every row stands at its start.
pub open spec fn text_cursors(rows: Seq<&str>, pos: Pos, height: nat) -> Seq<nat> {
    Seq::new(
        height,
        |y: int|
            match pos {
                Pos::List(v) => chars_before(rows[y].spec_bytes(), v@[y] as int),
                _ => 0nat,
            },
    )
}

/// `n` byte offsets at the start of their rows.
fn start_offsets(n: usize) -> (v: Vec<usize>)
    ensures
        v@.len() == n,
        forall|y: int| 0 <= y < n ==> v@[y] == 0,
{
    let mut v: Vec<usize> = Vec::with_capacity(n);
    while v.len() < n
        invariant
            v@.len() <= n,
            forall|y: int| 0 <= y < v@.len() ==> v@[y] == 0,
        decreases n - v@.len(),
    {
        v.push(0);
    }
    v
}

impl<'a> Shingles2D<'a, str> {
    /// Windows and steps are at least one wide and high, and each row of the
    /// block has a cursor of its own on a character boundary.
    pub open spec fn wf(&self) -> bool {
        &&& self.size[0] >= 1
        &&& self.size[1] >= 1
        &&& self.step[0] >= 1
        &&& self.step[1] >= 1
        &&& !(self.pos_x is Val)
        &&& self.pos_x matches Pos::List(v) ==> v@.len() == self.size[1]
        &&& self.data@.len() >= self.size[1] ==> offsets_fit(
            self.data@,
            self.pos_x,
            self.size[1] as nat,
        )
    }

    /// The cursor of each row of the block, counted in characters.
    pub open spec fn cursors(&self) -> Seq<nat> {
        text_cursors(self.data@, self.pos_x, self.size[1] as nat)
    }

    /// What the next production gives, and what it leaves.
    pub open spec fn next_spec(&self) -> TextStep {
        next_text(
            str_views(self.data@),
            self.cursors(),
            (self.size[0] as nat, self.size[1] as nat),
            (self.step[0] as nat, self.step[1] as nat),
        )
    }

    /// The window over the first `height` rows, each read from its own byte
    /// offset; the byte offsets `step` characters on; and whether one of
    /// these rows holds the full width at its offset.
    fn block(rows: &'a [&'a str], height: usize, pos: &Pos, width: usize, step: usize) -> (r: (
        Vec<&'a str>,
        Vec<usize>,
        bool,
    ))
        requires
            height <= rows@.len(),
            offsets_fit(rows@, *pos, height as nat),
        ensures
            str_views(r.0@) == text_block_window(
                str_views(rows@),
                height as nat,
                text_cursors(rows@, *pos, height as nat),
                width as nat,
            ),
            offsets_fit(rows@, Pos::List(r.1), height as nat),
            text_cursors(rows@, Pos::List(r.1), height as nat) == text_next_cursors(
                str_views(rows@),
                height as nat,
                text_cursors(rows@, *pos, height as nat),
                step as nat,
            ),
            r.2 == text_block_reaches(
                str_views(rows@),
                height as nat,
                text_cursors(rows@, *pos, height as nat),
                width as nat,
            ),
    {
        let ghost cursors = text_cursors(rows@, *pos, height as nat);
        let mut out: Vec<&'a str> = Vec::with_capacity(height);
        let mut offsets: Vec<usize> = Vec::with_capacity(height);
        let mut reaches = false;
        let mut y: usize = 0;
        while y < height
            invariant
                y <= height <= rows@.len(),
                offsets_fit(rows@, *pos, height as nat),
                cursors == text_cursors(rows@, *pos, height as nat),
                out@.len() == y,
                offsets@.len() == y,
                forall|j: int|
                    0 <= j < y ==> (#[trigger] out@[j])@ == clip_row(
                        rows@[j]@,
                        cursors[j],
                        width as nat,
                    ),
                forall|j: int|
                    0 <= j < y ==> is_char_boundary(
                        (#[trigger] rows@[j]).spec_bytes(),
                        offsets@[j] as int,
                    ) && chars_before(rows@[j].spec_bytes(), offsets@[j] as int) == min(
                        cursors[j] + step,
                        rows@[j]@.len() as int,
                    ),
                reaches == text_block_reaches(str_views(rows@), y as nat, cursors, width as nat),
            decreases height - y,
        {
            let row: &'a str = rows[y];
            let from = match pos {
                Pos::List(v) => v[y],
                _ => 0,
            };
            proof {
                encode_utf8_valid_utf8(row@);
                is_char_boundary_start_end_of_seq(row.spec_bytes());
                assert(row.spec_bytes().subrange(0, 0) =~= Seq::<u8>::empty());
                assert(str_views(rows@)[y as int] == row@);
            }
            let (part, next, full) = row_part(row, from, width, step);
            proof {
                assert(cursors[y as int] == chars_before(row.spec_bytes(), from as int));
                assert(full == (cursors[y as int] + width <= str_views(rows@)[y as int].len()));
                if !full && !reaches {
                    assert forall|j: int| 0 <= j < y + 1 implies !(#[trigger] cursors[j] + width
                        <= str_views(rows@)[j].len()) by {}
                }
            }
            if full {
                reaches = true;
            }
            out.push(part);
            offsets.push(next);
            y = y + 1;
        }
        proof {
            assert(str_views(out@) =~= text_block_window(
                str_views(rows@),
                height as nat,
                cursors,
                width as nat,
            ));
            assert(text_cursors(rows@, Pos::List(offsets), height as nat) =~= text_next_cursors(
                str_views(rows@),
                height as nat,
                cursors,
                step as nat,
            ));
        }
        (out, offsets, reaches)
    }

    /// The next window, if one is left: one part of each row of the block,
    /// each from its row's own cursor on.
    pub fn next(&mut self) -> (r: Option<Vec<&'a str>>)
        requires
            old(self).wf(),
        ensures
            final(self).wf(),
            final(self).size == old(self).size,
            final(self).step == old(self).step,
            str_views(final(self).data@) == old(self).next_spec().rows,
            final(self).cursors() == old(self).next_spec().cursors,
            match r {
                Some(w) => old(self).next_spec().window == Some(str_views(w@)),
                None => old(self).next_spec().window.is_none(),
            },
    {
        let height = self.size[1];
        let width = self.size[0];
        let mut ret: Option<Vec<&'a str>> = None;
        while self.data.len() >= height
            invariant_except_break
                ret.is_none(),
                self.next_spec() == old(self).next_spec(),
            invariant
                self.wf(),
                self.size == old(self).size,
                self.step == old(self).step,
                height == self.size[1],
                width == self.size[0],
            ensures
                self.wf(),
                self.size == old(self).size,
                self.step == old(self).step,
                str_views(self.data@) == old(self).next_spec().rows,
                self.cursors() == old(self).next_spec().cursors,
                match ret {
                    Some(w) => old(self).next_spec().window == Some(str_views(w@)),
                    None => old(self).next_spec().window.is_none(),
                },
            decreases self.data@.len(),
        {
            let ghost before = str_views(self.data@);
            let (window, offsets, reaches) = Self::block(
                self.data,
                height,
                &self.pos_x,
                width,
                self.step[0],
            );
            if reaches {
                self.pos_x = Pos::List(offsets);
                ret = Some(window);
                break ;
            }
            let len = self.data.len();
            let step = if self.step[1] < len {
                self.step[1]
            } else {
                len
            };
            self.data = &self.data[step..len];
            self.pos_x = Pos::List(start_offsets(height));
            proof {
                assert(str_views(self.data@) =~= advance(before, self.step[1] as nat));
                assert(self.cursors() =~= start_cursors(height as nat)) by {
                    assert forall|y: int| 0 <= y < height implies #[trigger] self.cursors()[y]
                        == 0 by {
                        assert(self.data@[y].spec_bytes().subrange(0, 0) =~= Seq::<u8>::empty());
                    }
                }
                assert forall|y: int| 0 <= y < height implies is_char_boundary(
                    (#[trigger] self.data@[y]).spec_bytes(),
                    0,
                ) by {
                    encode_utf8_valid_utf8(self.data@[y]@);
                    is_char_boundary_start_end_of_seq(self.data@[y].spec_bytes());
                }
            }
        }
        ret
    }

    /// The cursors of the block stand together at column `pos`.
    pub open spec fn aligned(&self, pos: nat) -> bool {
        self.cursors() == aligned_cursors(str_views(self.data@), self.size[1] as nat, pos)
    }

    /// Before the first production the cursors stand together at column 0.
    pub proof fn lemma_unset_is_aligned(&self)
        requires
            self.pos_x is Unset,
        ensures
            self.aligned(0),
    {
        assert(self.cursors() =~= aligned_cursors(
            str_views(self.data@),
            self.size[1] as nat,
            0,
        ));
    }

    /// All the windows that are left, in order. The cursors must stand
    /// together at one column, as they do before the first production and
    /// after every one that began so; the windows are then those of rows that
    /// share a cursor at that column.
    pub fn collect(self) -> (r: Vec<Vec<&'a str>>)
        requires
            self.wf(),
            self.pos_x is Unset || exists|pos: nat| self.aligned(pos),
        ensures
            forall|pos: nat| #[trigger]
                self.aligned(pos) ==> str_grid_views(r@) == grid_windows(
                    str_views(self.data@),
                    pos,
                    (self.size[0] as nat, self.size[1] as nat),
                    (self.step[0] as nat, self.step[1] as nat),
                ),
            self.pos_x is Unset ==> str_grid_views(r@) == grid_windows(
                str_views(self.data@),
                0,
                (self.size[0] as nat, self.size[1] as nat),
                (self.step[0] as nat, self.step[1] as nat),
            ),
    {
        let ghost size = (self.size[0] as nat, self.size[1] as nat);
        let ghost step = (self.step[0] as nat, self.step[1] as nat);
        proof {
            if self.pos_x is Unset {
                self.lemma_unset_is_aligned();
            }
        }
        let ghost start = choose|pos: nat| self.aligned(pos);
        let ghost all = grid_windows(str_views(self.data@), start, size, step);
        proof {
            assert forall|pos: nat| #[trigger] self.aligned(pos) implies grid_windows(
                str_views(self.data@),
                pos,
                size,
                step,
            ) == all by {
                lemma_aligned_same_windows(str_views(self.data@), pos, start, size, step);
            }
        }
        let mut it = self;
        let mut out: Vec<Vec<&'a str>> = Vec::new();
        let ghost mut pos = start;
        proof {
            assert(str_grid_views(out@) =~= Seq::<Seq<Seq<char>>>::empty());
        }
        loop
            invariant_except_break
                it.wf(),
                it.aligned(pos),
                size == (it.size[0] as nat, it.size[1] as nat),
                step == (it.step[0] as nat, it.step[1] as nat),
                str_grid_views(out@) + grid_windows(str_views(it.data@), pos, size, step) == all,
            ensures
                str_grid_views(out@) == all,
            decreases grid_windows(str_views(it.data@), pos, size, step).len(),
        {
            let ghost before = out@;
            let ghost found = next_fixed(str_views(it.data@), pos, size, step);
            proof {
                lemma_text_step_is_fixed_step(str_views(it.data@), pos, size, step);
                lemma_grid_windows_unfold(str_views(it.data@), pos, size, step);
            }
            match it.next() {
                Some(w) => {
                    proof {
                        assert(str_grid_views(before.push(w)) =~= str_grid_views(before)
                            + seq![str_views(w@)]);
                        pos = found.pos;
                    }
                    out.push(w);
                },
                None => {
                    break ;
                },
            }
        }
        out
    }
}

/// Lists of rows that can be cut into two-dimensional shingles.
pub trait AsShingles2D<'a, T: ?Sized + 'a> {
    /// The rows that the windower runs over.
    spec fn shingle_rows(&'a self) -> &'a [&'a T];

    /// A windower over `self` with windows of `size[0]` columns and `size[1]`
    /// rows, one column and one row apart.
    fn as_shingles_2d(&'a self, size: [usize; 2]) -> (s: Shingles2D<'a, T>)
        requires
            size[0] >= 1,
            size[1] >= 1,
        ensures
            s.data == self.shingle_rows(),
            s.pos_x == Pos::Unset,
            s.size == size,
            s.step[0] == 1,
            s.step[1] == 1,
    ;

    /// A windower over `self` with windows of `size[0]` columns and `size[1]`
    /// rows, `step[0]` columns and `step[1]` rows apart.
    fn as_shingles_2d_with_step(&'a self, size: [usize; 2], step: [usize; 2]) -> (s: Shingles2D<
        'a,
        T,
    >)
        requires
            size[0] >= 1,
            size[1] >= 1,
            step[0] >= 1,
            step[1] >= 1,
        ensures
            s.data == self.shingle_rows(),
            s.pos_x == Pos::Unset,
            s.size == size,
            s.step == step,
    ;
}

impl<'a, T> AsShingles2D<'a, [T]> for [&'a [T]] {
    open spec fn shingle_rows(&'a self) -> &'a [&'a [T]] {
        self
    }

    fn as_shingles_2d(&'a self, size: [usize; 2]) -> (s: Shingles2D<'a, [T]>) {
        Shingles2D::new(self, size)
    }

    fn as_shingles_2d_with_step(&'a self, size: [usize; 2], step: [usize; 2]) -> (s: Shingles2D<
        'a,
        [T],
    >) {
        Shingles2D::new_with_step(self, size, step)
    }
}

impl<'a> AsShingles2D<'a, str> for [&'a str] {
    open spec fn shingle_rows(&'a self) -> &'a [&'a str] {
        self
    }

    fn as_shingles_2d(&'a self, size: [usize; 2]) -> (s: Shingles2D<'a, str>) {
        Shingles2D::new(self, size)
    }

    fn as_shingles_2d_with_step(&'a self, size: [usize; 2], step: [usize; 2]) -> (s: Shingles2D<
        'a,
        str,
    >) {
        Shingles2D::new_with_step(self, size, step)
    }
}

} // verus!
