//! One-dimensional shingles over slices and over UTF-8 text.

use vstd::prelude::*;
use vstd::string::*;
use vstd::utf8::*;
use crate::hasher::ShingleHasher;
use crate::text::{lemma_chars_on_boundaries, scan};

verus! {

/// The smaller of two numbers.
pub open spec fn min(a: int, b: int) -> int {
    if a <= b {
        a
    } else {
        b
    }
}

/// The window at the front of `data`: its first `size` items, if it has that many.
pub open spec fn front_window<A>(data: Seq<A>, size: nat) -> Option<Seq<A>> {
    if data.len() >= size {
        Some(data.take(size as int))
    } else {
        None
    }
}

/// What is left of `data` once the cursor has moved `step` items on: all of
/// it is used up where fewer than `step` items were left.
pub open spec fn advance<A>(data: Seq<A>, step: nat) -> Seq<A> {
    data.skip(min(step as int, data.len() as int))
}

/// The contents of each of a list of borrowed slices.
pub open spec fn slice_views<T>(v: Seq<&[T]>) -> Seq<Seq<T>> {
    v.map_values(|w: &[T]| w@)
}

/// The characters of each of a list of borrowed texts.
pub open spec fn str_views(v: Seq<&str>) -> Seq<Seq<char>> {
    v.map_values(|w: &str| w@)
}

/// How many windows of `size` items, `step` items apart, fit into `len` items.
pub open spec fn window_count(len: nat, size: nat, step: nat) -> nat {
    if len < size {
        0
    } else {
        ((len - size) / (step as int) + 1) as nat
    }
}

/// All windows of `size` items over `data`, `step` items apart, in order:
/// the window at position `i` begins at item `i * step`.
pub open spec fn windows<A>(data: Seq<A>, size: nat, step: nat) -> Seq<Seq<A>> {
    Seq::new(
        window_count(data.len(), size, step),
        |i: int| data.subrange(i * step, i * step + size),
    )
}

/// Every window lies within the data.
pub proof fn lemma_window_in_range(len: nat, size: nat, step: nat, i: int)
    requires
        step >= 1,
        0 <= i < window_count(len, size, step),
    ensures
        0 <= i * step,
        i * step + size <= len,
{
    let q = (len - size) / (step as int);
    assert(q * step <= len - size) by (nonlinear_arith)
        requires
            q == (len - size) / (step as int),
            step >= 1,
            len - size >= 0,
    ;
    assert(0 <= i * step <= q * step) by (nonlinear_arith)
        requires
            0 <= i <= q,
            step >= 1,
    ;
}

/// Moving the cursor on leaves one window less, where there was one.
pub proof fn lemma_window_count_advance(len: nat, size: nat, step: nat)
    requires
        size >= 1,
        step >= 1,
        len >= size,
    ensures
        window_count(len, size, step) == 1 + window_count(
            (len - min(step as int, len as int)) as nat,
            size,
            step,
        ),
{
    let d = len - size;
    let k = step as int;
    if step <= len && len - step >= size {
        assert((d - k) / k == d / k - 1) by (nonlinear_arith)
            requires
                k >= 1,
                d - k >= 0,
        ;
    } else {
        assert(d / k == 0) by (nonlinear_arith)
            requires
                k >= 1,
                0 <= d < k,
        ;
    }
}

/// The windows over `data` are the window at its front, followed by the
/// windows over what is left once the cursor has moved on.
pub proof fn lemma_windows_unfold<A>(data: Seq<A>, size: nat, step: nat)
    requires
        size >= 1,
        step >= 1,
    ensures
        data.len() < size ==> windows(data, size, step) =~= Seq::<Seq<A>>::empty(),
        data.len() >= size ==> windows(data, size, step) =~= seq![data.take(size as int)] + windows(
            advance(data, step),
            size,
            step,
        ),
{
    if data.len() >= size {
        let rest = advance(data, step);
        let all = windows(data, size, step);
        let tail = windows(rest, size, step);
        lemma_window_count_advance(data.len(), size, step);
        assert(all.len() == 1 + tail.len());
        assert(all[0] =~= data.take(size as int));
        assert forall|i: int| 1 <= i < all.len() implies all[i] =~= tail[i - 1] by {
            lemma_window_in_range(data.len(), size, step, i);
            lemma_window_in_range(rest.len(), size, step, i - 1);
            assert((i - 1) * step + step == i * step) by (nonlinear_arith);
            assert(step <= data.len()) by (nonlinear_arith)
                requires
                    i >= 1,
                    step >= 1,
                    i * step + size <= data.len(),
            ;
        }
    }
}

/// The number of windows is the number of positions that leave room for a
/// window, `len - size + 1`, divided by the step and rounded up.
pub proof fn lemma_window_count_is_ceiling(len: nat, size: nat, step: nat)
    requires
        step >= 1,
        len >= size,
    ensures
        window_count(len, size, step) == (len - size + 1 + (step - 1)) / (step as int),
{
    let d = len - size;
    let k = step as int;
    assert((d + k) / k == d / k + 1) by (nonlinear_arith)
        requires
            k >= 1,
            d >= 0,
    ;
}

/// With step 1 there is a window at every position that leaves room for
/// one: `len - size + 1` of them, or none where the data is shorter than a
/// window, and the window at position `i` holds the items from `i` on.
pub proof fn lemma_windows_step_one<A>(data: Seq<A>, size: nat)
    ensures
        windows(data, size, 1).len() == if data.len() >= size {
            data.len() - size + 1
        } else {
            0
        },
        forall|i: int|
            0 <= i < windows(data, size, 1).len() ==> #[trigger] windows(data, size, 1)[i]
                == data.subrange(i, i + size),
{
}

/// With a larger step the windows are those of step 1 at the positions
/// `0, step, 2 * step, ...`: every such position that step 1 has, and no other.
pub proof fn lemma_windows_stepped<A>(data: Seq<A>, size: nat, step: nat)
    requires
        step >= 1,
    ensures
        forall|i: int|
            0 <= i ==> (i < windows(data, size, step).len() <==> #[trigger] (i * step) < windows(
                data,
                size,
                1,
            ).len()),
        forall|i: int|
            0 <= i < windows(data, size, step).len() ==> #[trigger] windows(data, size, step)[i]
                == windows(data, size, 1)[i * step],
{
    let k = step as int;
    let d = data.len() - size;
    assert forall|i: int| 0 <= i implies (i < windows(data, size, step).len() <==> #[trigger] (i
        * step) < windows(data, size, 1).len()) by {
        if d >= 0 {
            assert(i <= d / k <==> i * k <= d) by (nonlinear_arith)
                requires
                    k >= 1,
                    d >= 0,
                    i >= 0,
            ;
        } else {
            assert(0 <= i * k) by (nonlinear_arith)
                requires
                    i >= 0,
                    k >= 1,
            ;
        }
    }
    assert forall|i: int| 0 <= i < windows(data, size, step).len() implies #[trigger] windows(
        data,
        size,
        step,
    )[i] == windows(data, size, 1)[i * step] by {
        assert(0 <= i * step < windows(data, size, 1).len());
    }
}

/// Data shorter than a window gives no window.
pub proof fn lemma_short_data_no_windows<A>(data: Seq<A>, size: nat, step: nat)
    requires
        data.len() < size,
    ensures
        windows(data, size, step).len() == 0,
        front_window(data, size).is_none(),
{
}

/// The windows depend on the data, the size and the step alone: two
/// windowers over equal data with the same size and step give the same first
/// window, are left with the same data, and give the same windows in all.
pub proof fn lemma_same_input_same_windows<A>(
    a: Seq<A>,
    b: Seq<A>,
    size_a: nat,
    size_b: nat,
    step_a: nat,
    step_b: nat,
)
    requires
        a == b,
        size_a == size_b,
        step_a == step_b,
    ensures
        front_window(a, size_a) == front_window(b, size_b),
        advance(a, step_a) == advance(b, step_b),
        windows(a, size_a, step_a) == windows(b, size_b, step_b),
{
}

/// Every window over a text is a run of whole characters: in the text's
/// UTF-8 encoding it covers the bytes between two character boundaries, from
/// the end of the `i * step` characters before it to the end of its own.
pub proof fn lemma_text_windows_on_boundaries(text: Seq<char>, size: nat, step: nat, i: int)
    requires
        step >= 1,
        0 <= i < windows(text, size, step).len(),
    ensures
        ({
            let bytes = encode_utf8(text);
            let start = encode_utf8(text.take(i * step)).len() as int;
            let end = encode_utf8(text.take(i * step + size)).len() as int;
            &&& 0 <= i * step <= i * step + size <= text.len()
            &&& is_char_boundary(bytes, start)
            &&& is_char_boundary(bytes, end)
            &&& bytes.subrange(start, end) == encode_utf8(windows(text, size, step)[i])
        }),
{
    lemma_window_in_range(text.len(), size, step, i);
    lemma_chars_on_boundaries(text, i * step, i * step + size);
}

/// A cursor over `data` that hands out windows of `size` items, `step` items
/// apart. `data` is what has not been passed over yet.
pub struct Shingles<'a, T: ?Sized + 'a> {
    pub data: &'a T,
    pub size: usize,
    pub step: usize,
}

impl<'a, T: ?Sized> Shingles<'a, T> {
    /// A window holds at least one item, and the cursor moves by at least one.
    pub open spec fn wf(&self) -> bool {
        self.size >= 1 && self.step >= 1
    }

    /// A windower over `data` with windows of `size` items, one item apart.
    pub fn new(data: &'a T, size: usize) -> (s: Self)
        requires
            size >= 1,
        ensures
            s.data == data,
            s.size == size,
            s.step == 1,
            s.wf(),
    {
        Shingles::new_with_step(data, size, 1)
    }

    /// A windower over `data` with windows of `size` items, `step` items apart.
    pub fn new_with_step(data: &'a T, size: usize, step: usize) -> (s: Self)
        requires
            size >= 1,
            step >= 1,
        ensures
            s.data == data,
            s.size == size,
            s.step == step,
            s.wf(),
    {
        Shingles { data: data, size: size, step: step }
    }

    /// The hashes of the windows in place of the windows.
    pub fn hashes(self) -> (h: ShingleHasher<Self>)
        ensures
            h.iter == self,
    {
        ShingleHasher::new(self)
    }
}

impl<'a, T> Shingles<'a, [T]> {
    /// The next window, if `size` items are left, with the cursor moved
    /// `step` items on; without a window the cursor stays.
    pub fn next(&mut self) -> (r: Option<&'a [T]>)
        ensures
            final(self).size == old(self).size,
            final(self).step == old(self).step,
            r.is_some() == (old(self).data@.len() >= old(self).size),
            r matches Some(w) ==> front_window(old(self).data@, old(self).size as nat) == Some(w@),
            final(self).data@ == if r.is_some() {
                advance(old(self).data@, old(self).step as nat)
            } else {
                old(self).data@
            },
    {
        let len = self.data.len();
        if len >= self.size {
            let ret = &self.data[0..self.size];
            let step = if self.step < len {
                self.step
            } else {
                len
            };
            self.data = &self.data[step..len];
            Some(ret)
        } else {
            None
        }
    }
}

impl<'a, T> Shingles<'a, [T]> {
    /// All the windows that are left, in order.
    pub fn collect(self) -> (r: Vec<&'a [T]>)
        requires
            self.wf(),
        ensures
            slice_views(r@) == windows(self.data@, self.size as nat, self.step as nat),
    {
        let mut it = self;
        let mut out: Vec<&'a [T]> = Vec::new();
        proof {
            assert(slice_views(out@) =~= Seq::<Seq<T>>::empty());
        }
        loop
            invariant
                it.wf(),
                it.size == self.size,
                it.step == self.step,
                slice_views(out@) + windows(it.data@, it.size as nat, it.step as nat) == windows(
                    self.data@,
                    self.size as nat,
                    self.step as nat,
                ),
            ensures
                slice_views(out@) == windows(self.data@, self.size as nat, self.step as nat),
            decreases it.data@.len(),
        {
            proof {
                lemma_windows_unfold(it.data@, it.size as nat, it.step as nat);
            }
            let ghost before = out@;
            match it.next() {
                Some(w) => {
                    out.push(w);
                    proof {
                        assert(slice_views(out@) =~= slice_views(before) + seq![w@]);
                    }
                },
                None => {
                    break ;
                },
            }
        }
        out
    }
}

impl<'a> Shingles<'a, str> {
    /// The next window, if `size` characters are left, with the cursor moved
    /// `step` characters on. The cursor moves whether or not a window came.
    pub fn next(&mut self) -> (r: Option<&'a str>)
        ensures
            final(self).size == old(self).size,
            final(self).step == old(self).step,
            r.is_some() == (old(self).data@.len() >= old(self).size),
            r matches Some(w) ==> front_window(old(self).data@, old(self).size as nat) == Some(w@),
            final(self).data@ == advance(old(self).data@, old(self).step as nat),
    {
        let data: &'a str = self.data;
        proof {
            encode_utf8_valid_utf8(data@);
            encode_utf8_decode_utf8(data@);
        }
        let found = scan(data, self.size, self.step);
        let ret = if found.full {
            let (window, _) = data.split_at(found.end);
            proof {
                encode_utf8_decode_utf8(window@);
            }
            Some(window)
        } else {
            None
        };
        let (_, rest) = data.split_at(found.next);
        proof {
            encode_utf8_decode_utf8(rest@);
        }
        self.data = rest;
        ret
    }

    /// All the windows that are left, in order.
    pub fn collect(self) -> (r: Vec<&'a str>)
        requires
            self.wf(),
        ensures
            str_views(r@) == windows(self.data@, self.size as nat, self.step as nat),
    {
        let mut it = self;
        let mut out: Vec<&'a str> = Vec::new();
        proof {
            assert(str_views(out@) =~= Seq::<Seq<char>>::empty());
        }
        loop
            invariant
                it.wf(),
                it.size == self.size,
                it.step == self.step,
                str_views(out@) + windows(it.data@, it.size as nat, it.step as nat) == windows(
                    self.data@,
                    self.size as nat,
                    self.step as nat,
                ),
            ensures
                str_views(out@) == windows(self.data@, self.size as nat, self.step as nat),
            decreases it.data@.len(),
        {
            proof {
                lemma_windows_unfold(it.data@, it.size as nat, it.step as nat);
            }
            let ghost before = out@;
            match it.next() {
                Some(w) => {
                    out.push(w);
                    proof {
                        assert(str_views(out@) =~= str_views(before) + seq![w@]);
                    }
                },
                None => {
                    break ;
                },
            }
        }
        out
    }
}

/// Types that can be cut into shingles.
pub trait AsShingles<'a, T: ?Sized + 'a> {
    /// The data that the windower runs over.
    spec fn shingle_data(&'a self) -> &'a T;

    /// A windower over `self` with windows of `size` items, one item apart.
    fn as_shingles(&'a self, size: usize) -> (s: Shingles<'a, T>)
        requires
            size >= 1,
        ensures
            s.data == self.shingle_data(),
            s.size == size,
            s.step == 1,
    ;

    /// A windower over `self` with windows of `size` items, `step` items apart.
    fn as_shingles_with_step(&'a self, size: usize, step: usize) -> (s: Shingles<'a, T>)
        requires
            size >= 1,
            step >= 1,
        ensures
            s.data == self.shingle_data(),
            s.size == size,
            s.step == step,
    ;
}

impl<'a, T: 'a> AsShingles<'a, [T]> for [T] {
    open spec fn shingle_data(&'a self) -> &'a [T] {
        self
    }

    fn as_shingles(&'a self, size: usize) -> (s: Shingles<'a, [T]>) {
        Shingles::new(self, size)
    }

    fn as_shingles_with_step(&'a self, size: usize, step: usize) -> (s: Shingles<'a, [T]>) {
        Shingles::new_with_step(self, size, step)
    }
}

impl<'a> AsShingles<'a, str> for str {
    open spec fn shingle_data(&'a self) -> &'a str {
        self
    }

    fn as_shingles(&'a self, size: usize) -> (s: Shingles<'a, str>) {
        Shingles::new(self, size)
    }

    fn as_shingles_with_step(&'a self, size: usize, step: usize) -> (s: Shingles<'a, str>) {
        Shingles::new_with_step(self, size, step)
    }
}

} // verus!
