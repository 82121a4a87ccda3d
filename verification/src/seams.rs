//! Vertical seams: how they are represented, found and read back.

use vstd::prelude::*;
use crate::image::{ColorLayout, Image, ImageView, plane_at, plane_table, lemma_plane_index, lemma_row_offset, lemma_plane_table, lemma_plane_table_at};
use crate::energy::{
    energies_bounded, max_energy, energy_at, cumulative, intensity_plane, energy_plane, cumulative_plane,
    compute_intensity, compute_energy, compute_bottom_up_min_cumulative_energy, lemma_energy_bound,
    lemma_cumulative_bound,
};

verus! {

/// An image seam connecting the bottom of an image to its top (in that order):
/// the x-position of the seam in each row, bottom row first.
pub struct VerticalSeam(pub Vec<u32>);

/// Row `y` of a row-major plane of width `w`.
pub open spec fn row_of<T>(d: Seq<T>, w: int, y: int) -> Seq<T> {
    d.subrange(y * w, y * w + w)
}

/// A row of per-column moves (`-1`, `0` or `+1`) in which columns only move by
/// swapping places with a neighbour: `+1` at `x` always goes with `-1` at `x + 1`.
pub open spec fn is_swap_row(r: Seq<i8>) -> bool {
    forall|x: int|
        0 <= x < r.len() ==> {
            &&& (#[trigger] r[x] == 0 || r[x] == 1 || r[x] == -1)
            &&& (r[x] == 1 ==> x + 1 < r.len() && r[x + 1] == -1)
            &&& (r[x] == -1 ==> x >= 1 && r[x - 1] == 1)
        }
}

/// A swap row moves each column to a column of the row and back again.
pub proof fn lemma_swap_step(r: Seq<i8>, x: int)
    requires
        is_swap_row(r),
        0 <= x < r.len(),
    ensures
        0 <= x + r[x] < r.len(),
        (x + r[x]) + r[x + r[x]] == x,
{
    assert(r[x] == 0 || r[x] == 1 || r[x] == -1);
    if r[x] == 1 {
        assert(r[x + 1] == -1);
    } else if r[x] == -1 {
        assert(r[x - 1] == 1);
    }
}

/// The column reached in row `y` by the seam that starts at column `s` of the
/// top row, following the moves `d` (row `t` moves from row `t` to row `t + 1`).
pub open spec fn seam_position(d: Seq<i8>, w: int, s: int, y: int) -> int
    decreases y,
{
    if y <= 0 {
        s
    } else {
        let p = seam_position(d, w, s, y - 1);
        p + row_of(d, w, y - 1)[p]
    }
}

/// Every row of moves of `d` before row `y` is a swap row.
pub open spec fn swap_rows_before(d: Seq<i8>, w: int, y: int) -> bool {
    &&& y * w <= d.len()
    &&& forall|t: int| 0 <= t < y ==> is_swap_row(#[trigger] row_of(d, w, t))
}

pub proof fn lemma_swap_rows_fewer(d: Seq<i8>, w: int, y: int, z: int)
    requires
        0 <= w,
        0 <= z <= y,
        swap_rows_before(d, w, y),
    ensures
        swap_rows_before(d, w, z),
{
    assert(z * w <= y * w) by (nonlinear_arith)
        requires
            0 <= w,
            0 <= z <= y,
    ;
}

pub proof fn lemma_row_len(d: Seq<i8>, w: int, y: int, t: int)
    requires
        0 <= w,
        0 <= t < y,
        y * w <= d.len(),
    ensures
        0 <= t * w,
        t * w + w <= y * w,
        row_of(d, w, t).len() == w,
{
    lemma_row_offset(w, y, t);
}

/// Seams stay inside the image.
pub proof fn lemma_position_range(d: Seq<i8>, w: int, s: int, y: int)
    requires
        0 <= s < w,
        0 <= y,
        swap_rows_before(d, w, y),
    ensures
        0 <= seam_position(d, w, s, y) < w,
    decreases y,
{
    if y > 0 {
        lemma_swap_rows_fewer(d, w, y, y - 1);
        lemma_position_range(d, w, s, y - 1);
        lemma_row_len(d, w, y, y - 1);
        assert(is_swap_row(row_of(d, w, y - 1)));
        lemma_swap_step(row_of(d, w, y - 1), seam_position(d, w, s, y - 1));
    }
}

/// Seams that start apart never meet.
pub proof fn lemma_position_injective(d: Seq<i8>, w: int, s1: int, s2: int, y: int)
    requires
        0 <= s1 < w,
        0 <= s2 < w,
        0 <= y,
        swap_rows_before(d, w, y),
        seam_position(d, w, s1, y) == seam_position(d, w, s2, y),
    ensures
        s1 == s2,
    decreases y,
{
    if y > 0 {
        let r = row_of(d, w, y - 1);
        let p1 = seam_position(d, w, s1, y - 1);
        let p2 = seam_position(d, w, s2, y - 1);
        lemma_swap_rows_fewer(d, w, y, y - 1);
        lemma_position_range(d, w, s1, y - 1);
        lemma_position_range(d, w, s2, y - 1);
        lemma_row_len(d, w, y, y - 1);
        assert(is_swap_row(r));
        lemma_swap_step(r, p1);
        lemma_swap_step(r, p2);
        assert(p1 == p2);
        lemma_position_injective(d, w, s1, s2, y - 1);
    }
}

/// Positions up to row `y` depend only on the moves of the rows before `y`.
pub proof fn lemma_position_prefix(d1: Seq<i8>, d2: Seq<i8>, w: int, s: int, y: int)
    requires
        0 <= y,
        forall|t: int| 0 <= t < y ==> #[trigger] row_of(d1, w, t) == row_of(d2, w, t),
    ensures
        seam_position(d1, w, s, y) == seam_position(d2, w, s, y),
    decreases y,
{
    if y > 0 {
        lemma_position_prefix(d1, d2, w, s, y - 1);
        assert(row_of(d1, w, y - 1) == row_of(d2, w, y - 1));
    }
}

/// The mathematical content of [`VerticalSeams`].
pub struct SeamsView {
    pub width: nat,
    pub height: nat,
    /// Row-major `(height - 1) * width` moves: the seam at column `x` of row
    /// `y` is at column `x + deltas[y * width + x]` of row `y + 1`.
    pub deltas: Seq<i8>,
    /// Total energy of each seam, indexed by its column in the top row.
    pub energies: Seq<u64>,
}

impl SeamsView {
    pub open spec fn wf(self) -> bool {
        &&& self.height >= 1
        &&& self.width <= u32::MAX
        &&& self.height <= u32::MAX
        &&& self.deltas.len() == (self.height - 1) * self.width
        &&& self.energies.len() == self.width
        &&& swap_rows_before(self.deltas, self.width as int, self.height - 1)
        &&& forall|s: int| 0 <= s < self.width ==> #[trigger] self.energies[s] <= max_energy() * self.height
    }

    /// The column, in row `y`, of the seam that starts at column `s` of the top row.
    pub open spec fn position(self, s: int, y: int) -> int {
        seam_position(self.deltas, self.width as int, s, y)
    }

    /// The energy of the pixels, in rows `0..=y`, crossed by the seam that
    /// starts at column `s`.
    pub open spec fn path_energy(self, e: Seq<u16>, s: int, y: int) -> int
        decreases y + 1,
    {
        if y < 0 {
            0
        } else {
            self.path_energy(e, s, y - 1) + plane_at(e, self.width as int, self.position(s, y), y)
        }
    }

    /// The seam starting at column `s`, as stored in a [`VerticalSeam`]:
    /// its column in each row, bottom row first.
    pub open spec fn path(self, s: int) -> Seq<u32> {
        Seq::new(self.height, |i: int| self.position(s, self.height - 1 - i) as u32)
    }
}

/// The complete set of vertical seams computed for an image, one per column of
/// the top row, stored compactly for use with `remove_vertical_seams`.
pub struct VerticalSeams {
    /// Row-major `(height-1) * width` array of per-step moves (+1, -1, or 0)
    /// for each pixel in the image.
    deltas: Vec<i8>,
    /// Total accumulated energy of each seam, indexed by the seam's starting x position.
    seam_energies: Vec<u64>,
    /// Width of the image the vertical seams are from.
    width: u32,
    /// Height of the image the vertical seams are from.
    height: u32,
}

impl View for VerticalSeams {
    type V = SeamsView;

    closed spec fn view(&self) -> SeamsView {
        SeamsView {
            width: self.width as nat,
            height: self.height as nat,
            deltas: self.deltas@,
            energies: self.seam_energies@,
        }
    }
}

impl VerticalSeams {
    #[verifier::type_invariant]
    pub open spec fn inv(self) -> bool {
        self@.wf()
    }
}

impl VerticalSeams {
    /// Get the VerticalSeam that starts at X
    pub fn get_seam(&self, start_x: usize) -> (seam: VerticalSeam)
        requires
            start_x < self@.width || self@.height == 1,
        ensures
            seam.0@ == self@.path(start_x as int),
    {
        proof { use_type_invariant(self); }
        let w = self.width as usize;
        let h = self.height as usize;
        let ghost v = self@;
        let ghost wi = w as int;
        let dl: usize = self.deltas.len();
        let mut x = start_x;
        let mut top_down: Vec<u32> = Vec::new();
        top_down.push(x as u32);
        let mut y: usize = 0;
        while y + 1 < h
            invariant
                v == self@,
                v.wf(),
                dl == v.deltas.len(),
                wi == w,
                w == v.width,
                h == v.height,
                0 <= y < h,
                h > 1 ==> x < w,
                x == v.position(start_x as int, y as int),
                top_down@.len() == y + 1,
                forall|i: int| 0 <= i <= y ==> #[trigger] top_down@[i] == v.position(start_x as int, i) as u32,
            decreases h - y,
        {
            proof {
                lemma_plane_index(wi, h - 1, x as int, y as int);
                lemma_row_len(v.deltas, wi, h - 1, y as int);
                assert(is_swap_row(row_of(v.deltas, wi, y as int)));
                lemma_swap_step(row_of(v.deltas, wi, y as int), x as int);
            }
            let delta = self.deltas[y * w + x];
            proof { assert(row_of(v.deltas, wi, y as int)[x as int] == delta); }
            if delta == 1 {
                x = x + 1;
            } else if delta == -1 {
                x = x - 1;
            }
            top_down.push(x as u32);
            y = y + 1;
        }
        let mut seam: Vec<u32> = Vec::new();
        let mut i: usize = 0;
        while i < h
            invariant
                h == v.height,
                top_down@.len() == h,
                0 <= i <= h,
                seam@.len() == i,
                forall|j: int| 0 <= j < h ==> #[trigger] top_down@[j] == v.position(start_x as int, j) as u32,
                forall|j: int| 0 <= j < i ==> #[trigger] seam@[j] == v.path(start_x as int)[j],
            decreases h - i,
        {
            seam.push(top_down[h - 1 - i]);
            i = i + 1;
        }
        proof { assert(seam@ =~= v.path(start_x as int)); }
        VerticalSeam(seam)
    }

    /// The total accumulated energy of each seam, indexed by starting x-position.
    ///
    /// `seam_energies()[i]` is the total pixel energy of the seam that begins at column `i`
    /// in the top row. Useful for visualisation and debugging.
    pub fn seam_energies(&self) -> (r: &[u64])
        ensures
            r@ == self@.energies,
    {
        self.seam_energies.as_slice()
    }

    /// A vector containing all [`VerticalSeam`].
    /// All VerticalSeam are relative to the original coordinate space of the image.
    pub fn to_vec(&self) -> (r: Vec<VerticalSeam>)
        ensures
            r@.len() == self@.width,
            forall|x: int| 0 <= x < self@.width ==> (#[trigger] r@[x]).0@ == self@.path(x),
    {
        let w = self.width as usize;
        let mut r: Vec<VerticalSeam> = Vec::new();
        let mut x: usize = 0;
        while x < w
            invariant
                w == self@.width,
                0 <= x <= w,
                r@.len() == x,
                forall|i: int| 0 <= i < x ==> (#[trigger] r@[i]).0@ == self@.path(i),
            decreases w - x,
        {
            r.push(self.get_seam(x));
            x = x + 1;
        }
        r
    }

    /// The width of the image the seams are from.
    pub fn width(&self) -> (w: u32)
        ensures
            w == self@.width,
    {
        self.width
    }

    /// The height of the image the seams are from.
    pub fn height(&self) -> (h: u32)
        ensures
            h == self@.height,
    {
        self.height
    }
}

/// Seam `i` comes before seam `j` in energy order: lower energy first, the
/// lower starting column first among equal energies.
pub open spec fn seam_before(e: Seq<u64>, i: int, j: int) -> bool {
    e[i] < e[j] || (e[i] == e[j] && i < j)
}

pub open spec fn min_nat(a: int, b: int) -> int {
    if a <= b { a } else { b }
}

/// `r` lists, in increasing order, the starting columns of the `count`
/// lowest-energy seams (all of them when there are fewer).
pub open spec fn is_lowest_selection(e: Seq<u64>, count: int, r: Seq<usize>) -> bool {
    &&& r.len() == min_nat(count, e.len() as int)
    &&& forall|i: int, j: int| 0 <= i < j < r.len() ==> r[i] < r[j]
    &&& forall|i: int| 0 <= i < r.len() ==> #[trigger] r[i] < e.len()
    &&& forall|i: int, j: int|
        0 <= i < r.len() && 0 <= j < e.len() && !r.contains(j as usize) ==> #[trigger] seam_before(e, r[i] as int, j)
}

/// The starting columns of the `count` lowest-energy seams, in increasing order.
pub open spec fn lowest_seams(e: Seq<u64>, count: int) -> Seq<usize> {
    choose|r: Seq<usize>| is_lowest_selection(e, count, r)
}

/// Two strictly increasing sequences with the same elements are equal.
proof fn lemma_sorted_same_set(r1: Seq<usize>, r2: Seq<usize>)
    requires
        forall|i: int, j: int| 0 <= i < j < r1.len() ==> r1[i] < r1[j],
        forall|i: int, j: int| 0 <= i < j < r2.len() ==> r2[i] < r2[j],
        forall|v: usize| r1.contains(v) <==> r2.contains(v),
    ensures
        r1 == r2,
    decreases r1.len(),
{
    if r1.len() == 0 {
        if r2.len() > 0 {
            assert(r2.contains(r2[0]));
        }
        assert(r1 =~= r2);
    } else {
        assert(r1.contains(r1[0]));
        let j = choose|j: int| 0 <= j < r2.len() && r2[j] == r1[0];
        assert(r2.contains(r2[0]));
        let i = choose|i: int| 0 <= i < r1.len() && r1[i] == r2[0];
        if j > 0 {
            assert(r2[0] < r2[j]);
            if i > 0 {
                assert(r1[0] < r1[i]);
            }
        }
        assert(r1[0] == r2[0]);
        let t1 = r1.drop_first();
        let t2 = r2.drop_first();
        assert forall|v: usize| t1.contains(v) <==> t2.contains(v) by {
            if t1.contains(v) {
                let k = choose|k: int| 0 <= k < t1.len() && t1[k] == v;
                assert(r1[k + 1] == v);
                assert(r1.contains(v));
                let k2 = choose|k2: int| 0 <= k2 < r2.len() && r2[k2] == v;
                if k2 == 0 {
                    assert(r1[0] < r1[k + 1]);
                }
                assert(t2[k2 - 1] == v);
            }
            if t2.contains(v) {
                let k = choose|k: int| 0 <= k < t2.len() && t2[k] == v;
                assert(r2[k + 1] == v);
                assert(r2.contains(v));
                let k1 = choose|k1: int| 0 <= k1 < r1.len() && r1[k1] == v;
                if k1 == 0 {
                    assert(r2[0] < r2[k + 1]);
                }
                assert(t1[k1 - 1] == v);
            }
        }
        lemma_sorted_same_set(t1, t2);
        assert forall|k: int| 0 <= k < r1.len() implies r1[k] == r2[k] by {
            if k > 0 {
                assert(r1[k] == t1[k - 1]);
                assert(r2[k] == t2[k - 1]);
            }
        }
        assert(r1 =~= r2);
    }
}

/// A strictly increasing sequence has no duplicates.
proof fn lemma_sorted_no_dup(r: Seq<usize>)
    requires
        forall|i: int, j: int| 0 <= i < j < r.len() ==> r[i] < r[j],
    ensures
        r.no_duplicates(),
{
    assert forall|i: int, j: int| 0 <= i < r.len() && 0 <= j < r.len() && i != j implies r[i] != r[j] by {
        if i < j {
            assert(r[i] < r[j]);
        } else {
            assert(r[j] < r[i]);
        }
    }
}

/// The lowest-energy selection is unique.
pub proof fn lemma_lowest_selection_unique(e: Seq<u64>, count: int, r1: Seq<usize>, r2: Seq<usize>)
    requires
        is_lowest_selection(e, count, r1),
        is_lowest_selection(e, count, r2),
    ensures
        r1 == r2,
{
    lemma_sorted_no_dup(r1);
    lemma_sorted_no_dup(r2);
    r1.unique_seq_to_set();
    r2.unique_seq_to_set();
    let s1 = r1.to_set();
    let s2 = r2.to_set();
    assert forall|v: usize| r1.contains(v) implies r2.contains(v) by {
        if !r2.contains(v) {
            // Every element of r2 is then in r1, and r2 misses v: r2 has fewer elements.
            assert forall|u: usize| s2.contains(u) implies s1.contains(u) by {
                if !r1.contains(u) {
                    let i1 = choose|i: int| 0 <= i < r1.len() && r1[i] == v;
                    let i2 = choose|i: int| 0 <= i < r2.len() && r2[i] == u;
                    assert(seam_before(e, r1[i1] as int, u as int));
                    assert(seam_before(e, r2[i2] as int, v as int));
                }
            }
            assert(s2.subset_of(s1));
            s2.lemma_subset_not_in_lt(s1, v);
        }
    }
    assert forall|v: usize| r2.contains(v) implies r1.contains(v) by {
        if !r1.contains(v) {
            assert forall|u: usize| s1.contains(u) implies s2.contains(u) by {
                if !r2.contains(u) {
                    let i2 = choose|i: int| 0 <= i < r2.len() && r2[i] == v;
                    let i1 = choose|i: int| 0 <= i < r1.len() && r1[i] == u;
                    assert(seam_before(e, r2[i2] as int, u as int));
                    assert(seam_before(e, r1[i1] as int, v as int));
                }
            }
            assert(s1.subset_of(s2));
            s1.lemma_subset_not_in_lt(s2, v);
        }
    }
    lemma_sorted_same_set(r1, r2);
}

/// The columns `i < n` with `chosen[i]`, in increasing order.
fn chosen_columns(chosen: &Vec<bool>) -> (r: Vec<usize>)
    ensures
        forall|i: int, j: int| 0 <= i < j < r@.len() ==> r@[i] < r@[j],
        forall|i: int| 0 <= i < r@.len() ==> #[trigger] r@[i] < chosen@.len() && chosen@[r@[i] as int],
        forall|c: int| 0 <= c < chosen@.len() && #[trigger] chosen@[c] ==> r@.contains(c as usize),
{
    let n = chosen.len();
    let mut r: Vec<usize> = Vec::new();
    let mut i: usize = 0;
    while i < n
        invariant
            n == chosen@.len(),
            0 <= i <= n,
            forall|a: int, b: int| 0 <= a < b < r@.len() ==> r@[a] < r@[b],
            forall|a: int| 0 <= a < r@.len() ==> #[trigger] r@[a] < i && chosen@[r@[a] as int],
            forall|c: int| 0 <= c < i && #[trigger] chosen@[c] ==> r@.contains(c as usize),
        decreases n - i,
    {
        if chosen[i] {
            let ghost before = r@;
            r.push(i);
            proof {
                assert forall|c: int| 0 <= c < i + 1 && #[trigger] chosen@[c] implies r@.contains(c as usize) by {
                    if c < i {
                        let k = choose|k: int| 0 <= k < before.len() && before[k] == c as usize;
                        assert(r@[k] == c as usize);
                    } else {
                        assert(r@[before.len() as int] == i);
                    }
                }
            }
        }
        i = i + 1;
    }
    r
}

impl VerticalSeams {
    /// Get the starting X positions of the `count` lowest energy seams in order of their starting X position.
    ///
    /// Among seams of equal energy, those starting further left count as lower.
    pub fn lowest_energy_seams(&self, count: usize) -> (r: Vec<usize>)
        ensures
            is_lowest_selection(self@.energies, count as int, r@),
            r@ == lowest_seams(self@.energies, count as int),
    {
        let e = &self.seam_energies;
        let len = e.len();
        let mut chosen: Vec<bool> = Vec::new();
        let mut i: usize = 0;
        while i < len
            invariant
                0 <= i <= len,
                chosen@.len() == i,
                forall|c: int| 0 <= c < i ==> #[trigger] chosen@[c] == (count >= len),
            decreases len - i,
        {
            chosen.push(count >= len);
            i = i + 1;
        }
        // sel: the columns chosen so far, in the order they were chosen.
        let ghost mut sel: Seq<int> = Seq::empty();
        let ghost chosen0 = chosen@;
        if count < len {
            let mut k: usize = 0;
            while k < count
                invariant
                    e@ == self@.energies,
                    len == e@.len(),
                    count < len,
                    0 <= k <= count,
                    chosen@.len() == len,
                    sel.len() == k,
                    sel.no_duplicates(),
                    forall|t: int| 0 <= t < k ==> 0 <= #[trigger] sel[t] < len,
                    forall|c: int| 0 <= c < len ==> (#[trigger] chosen@[c] <==> sel.contains(c)),
                    forall|t: int, j: int|
                        0 <= t < k && 0 <= j < len && !chosen@[j] ==> #[trigger] seam_before(e@, sel[t], j),
                decreases count - k,
            {
                proof {
                    // Some column is still free: k distinct chosen columns out of len > k.
                    sel.unique_seq_to_set();
                    vstd::set_lib::lemma_int_range(0, len as int);
                    if forall|c: int| 0 <= c < len ==> #[trigger] chosen@[c] {
                        assert forall|c: int| vstd::set_lib::set_int_range(0, len as int).contains(c)
                            implies #[trigger] sel.to_set().contains(c) by {
                            assert(chosen@[c]);
                        }
                        assert(vstd::set_lib::set_int_range(0, len as int).subset_of(sel.to_set()));
                        vstd::set_lib::lemma_len_subset(vstd::set_lib::set_int_range(0, len as int), sel.to_set());
                    }
                }
                let mut best: usize = len;
                let mut x: usize = 0;
                while x < len
                    invariant
                        e@ == self@.energies,
                        len == e@.len(),
                        chosen@.len() == len,
                        0 <= x <= len,
                        best == len || (best < x && !chosen@[best as int]),
                        best == len ==> forall|c: int| 0 <= c < x ==> #[trigger] chosen@[c],
                        best < len ==> forall|c: int|
                            0 <= c < x && !chosen@[c] && c != best ==> #[trigger] seam_before(e@, best as int, c),
                    decreases len - x,
                {
                    let ghost old_best = best;
                    if !chosen[x] && (best == len || e[x] < e[best]) {
                        best = x;
                    }
                    proof {
                        if best < len {
                            assert forall|c: int|
                                0 <= c < x + 1 && !chosen@[c] && c != best implies #[trigger] seam_before(e@, best as int, c) by {
                                if best == x {
                                    if c != old_best {
                                        assert(seam_before(e@, old_best as int, c));
                                    }
                                } else {
                                    if c == x {
                                        assert(best < x);
                                    }
                                }
                            }
                        }
                    }
                    x = x + 1;
                }
                let ghost old_sel = sel;
                chosen[best] = true;
                proof {
                    sel = sel.push(best as int);
                    assert forall|c: int| 0 <= c < len implies (#[trigger] chosen@[c] <==> sel.contains(c)) by {
                        if c != best {
                            assert(old_sel.contains(c) ==> sel.contains(c)) by {
                                if old_sel.contains(c) {
                                    let t = choose|t: int| 0 <= t < old_sel.len() && old_sel[t] == c;
                                    assert(sel[t] == c);
                                }
                            }
                            assert(sel.contains(c) ==> old_sel.contains(c)) by {
                                if sel.contains(c) {
                                    let t = choose|t: int| 0 <= t < sel.len() && sel[t] == c;
                                    assert(t < old_sel.len());
                                    assert(old_sel[t] == c);
                                }
                            }
                        } else {
                            assert(sel[k as int] == c);
                        }
                    }
                    assert(!old_sel.contains(best as int));
                    assert forall|t: int, j: int|
                        0 <= t < k + 1 && 0 <= j < len && !chosen@[j] implies #[trigger] seam_before(e@, sel[t], j) by {
                        if t < k {
                            assert(sel[t] == old_sel[t]);
                        }
                    }
                }
                k = k + 1;
            }
        }
        let r = chosen_columns(&chosen);
        proof {
            if count < len {
                lemma_sorted_no_dup(r@);
                r@.unique_seq_to_set();
                let su = sel.map_values(|c: int| c as usize);
                assert forall|i: int, j: int| 0 <= i < su.len() && 0 <= j < su.len() && i != j implies su[i] != su[j] by {
                    assert(sel[i] != sel[j]);
                }
                assert(su.no_duplicates());
                su.unique_seq_to_set();
                assert forall|v: usize| r@.to_set().contains(v) <==> su.to_set().contains(v) by {
                    if r@.contains(v) {
                        let t = choose|t: int| 0 <= t < r@.len() && r@[t] == v;
                        assert(chosen@[v as int]);
                        assert(sel.contains(v as int));
                        let q = choose|q: int| 0 <= q < sel.len() && sel[q] == v as int;
                        assert(su[q] == v);
                    }
                    if su.contains(v) {
                        let q = choose|q: int| 0 <= q < su.len() && su[q] == v;
                        assert(sel.contains(sel[q]));
                        assert(chosen@[sel[q]]);
                        assert(r@.contains(sel[q] as usize));
                    }
                }
                assert(r@.to_set() =~= su.to_set());
                assert forall|t: int, j: int|
                    0 <= t < r@.len() && 0 <= j < len && !r@.contains(j as usize)
                        implies #[trigger] seam_before(e@, r@[t] as int, j) by {
                    let c = r@[t] as int;
                    assert(chosen@[c]);
                    let q = choose|q: int| 0 <= q < sel.len() && sel[q] == c;
                    if chosen@[j] {
                        assert(r@.contains(j as usize));
                    }
                    assert(seam_before(e@, sel[q], j));
                }
            } else {
                assert forall|c: int| 0 <= c < len implies #[trigger] chosen@[c] && r@.contains(c as usize) by {
                    assert(chosen@[c]);
                }
                lemma_sorted_no_dup(r@);
                r@.unique_seq_to_set();
                let all = Seq::new(len as nat, |c: int| c as usize);
                assert forall|i: int, j: int| 0 <= i < all.len() && 0 <= j < all.len() && i != j implies all[i] != all[j] by {}
                assert(all.no_duplicates());
                all.unique_seq_to_set();
                assert forall|v: usize| r@.to_set().contains(v) <==> all.to_set().contains(v) by {
                    if r@.contains(v) {
                        let t = choose|t: int| 0 <= t < r@.len() && r@[t] == v;
                        assert(all[v as int] == v);
                    }
                    if all.contains(v) {
                        let q = choose|q: int| 0 <= q < all.len() && all[q] == v;
                        assert(chosen0[q]);
                        assert(chosen@ == chosen0);
                        assert(chosen@[q] && r@.contains(q as usize));
                    }
                }
                assert(r@.to_set() =~= all.to_set());
                assert forall|t: int, j: int|
                    0 <= t < r@.len() && 0 <= j < len && !r@.contains(j as usize)
                        implies #[trigger] seam_before(e@, r@[t] as int, j) by {
                    assert(chosen@[j]);
                }
            }
            assert(r@.len() == min_nat(count as int, len as int));
            assert(is_lowest_selection(e@, count as int, r@));
            lemma_lowest_selection_unique(e@, count as int, r@, lowest_seams(e@, count as int));
        }
        r
    }

    /// A vector containing the `count` lowest energy [`VerticalSeam`] in order of their starting X position.
    /// All VerticalSeam are relative to the original coordinate space of the image.
    pub fn to_vec_lowest(&self, count: usize) -> (r: Vec<VerticalSeam>)
        ensures
            is_lowest_selection(self@.energies, count as int, lowest_seams(self@.energies, count as int)),
            r@.len() == lowest_seams(self@.energies, count as int).len(),
            forall|i: int|
                0 <= i < r@.len() ==> (#[trigger] r@[i]).0@ == self@.path(lowest_seams(self@.energies, count as int)[i] as int),
    {
        proof { use_type_invariant(self); }
        let ids = self.lowest_energy_seams(count);
        let mut r: Vec<VerticalSeam> = Vec::new();
        let mut i: usize = 0;
        while i < ids.len()
            invariant
                self@.wf(),
                ids@ == lowest_seams(self@.energies, count as int),
                is_lowest_selection(self@.energies, count as int, ids@),
                0 <= i <= ids@.len(),
                r@.len() == i,
                forall|j: int| 0 <= j < i ==> (#[trigger] r@[j]).0@ == self@.path(ids@[j] as int),
            decreases ids@.len() - i,
        {
            proof { assert(ids@[i as int] < self@.energies.len()); }
            r.push(self.get_seam(ids[i]));
            i = i + 1;
        }
        r
    }
}

/// Moving two columns `a < c` by a swap row keeps them in order, except for a
/// swapped pair of neighbours.
proof fn lemma_step_order(r: Seq<i8>, a: int, c: int)
    requires
        is_swap_row(r),
        0 <= a < c < r.len(),
    ensures
        a + r[a] < c + r[c] || (c == a + 1 && r[a] == 1 && r[c] == -1),
{
    assert(r[a] == 0 || r[a] == 1 || r[a] == -1);
    assert(r[c] == 0 || r[c] == 1 || r[c] == -1);
    if r[a] == 1 {
        assert(r[a + 1] == -1);
    }
    if r[c] == -1 {
        assert(r[c - 1] == 1);
    }
}

/// The column after one move of the seam at column `x` of row `y`.
pub open spec fn step_column(v: SeamsView, y: int, x: int) -> int {
    x + row_of(v.deltas, v.width as int, y)[x]
}

/// Seams (with a payload each) listed by strictly increasing column, all inside the image.
pub open spec fn sorted_columns<P>(s: Seq<(usize, P)>, w: int) -> bool {
    &&& forall|a: int, b: int| 0 <= a < b < s.len() ==> s[a].0 < s[b].0
    &&& forall|a: int| 0 <= a < s.len() ==> (#[trigger] s[a]).0 < w
}

impl VerticalSeams {
    /// Moves every listed seam from row `y` to row `y + 1` and restores the
    /// order by column. The moves only swap neighbouring seams, so a single
    /// bubble-sort pass fixes every inversion without creating new ones.
    pub(crate) fn advance_seams<P: Copy>(&self, seams: &mut Vec<(usize, P)>, y: usize)
        requires
            y + 1 < self@.height,
            sorted_columns(old(seams)@, self@.width as int),
        ensures
            final(seams)@.len() == old(seams)@.len(),
            sorted_columns(final(seams)@, self@.width as int),
            forall|q: (usize, P)|
                #[trigger] final(seams)@.contains(q) <==> exists|j: int|
                    0 <= j < old(seams)@.len() && q.1 == old(seams)@[j].1
                        && q.0 == step_column(self@, y as int, old(seams)@[j].0 as int),
    {
        proof { use_type_invariant(self); }
        let ghost v = self@;
        let w = self.width as usize;
        let ghost wi = w as int;
        let ghost h = v.height as int;
        let ghost r = row_of(v.deltas, wi, y as int);
        let ghost s0 = seams@;
        let dl: usize = self.deltas.len();
        proof {
            lemma_row_len(v.deltas, wi, h - 1, y as int);
            assert(is_swap_row(r));
        }
        let base = y * w;
        let n = seams.len();
        let mut i: usize = 0;
        while i < n
            invariant
                v == self@,
                wi == w,
                w == v.width,
                dl == v.deltas.len(),
                base == y * w,
                base + w <= dl,
                r == row_of(v.deltas, wi, y as int),
                is_swap_row(r),
                r.len() == w,
                n == s0.len(),
                seams@.len() == n,
                0 <= i <= n,
                sorted_columns(s0, wi),
                forall|j: int| i <= j < n ==> #[trigger] seams@[j] == s0[j],
                forall|j: int|
                    0 <= j < i ==> (#[trigger] seams@[j]).1 == s0[j].1 && seams@[j].0 == s0[j].0 + r[s0[j].0 as int],
            decreases n - i,
        {
            let (x, p) = seams[i];
            proof {
                assert(s0[i as int].0 < w);
                lemma_swap_step(r, x as int);
            }
            let d = self.deltas[base + x];
            proof { assert(r[x as int] == d); }
            let nx = if d == 1 {
                x + 1
            } else if d == -1 {
                x - 1
            } else {
                x
            };
            seams[i] = (nx, p);
            i = i + 1;
        }
        // t: the moved seams, in their old order.
        let ghost t = seams@;
        let ghost mut perm: Seq<int> = Seq::new(n as nat, |j: int| j);
        let ghost mut inv: Seq<int> = Seq::new(n as nat, |j: int| j);
        let mut i: usize = 1;
        while i < n
            invariant
                n == s0.len(),
                t.len() == n,
                seams@.len() == n,
                r.len() == wi,
                is_swap_row(r),
                sorted_columns(s0, wi),
                forall|j: int| 0 <= j < n ==> (#[trigger] t[j]).1 == s0[j].1 && t[j].0 == s0[j].0 + r[s0[j].0 as int],
                1 <= i <= n || n == 0,
                perm.len() == n,
                inv.len() == n,
                forall|a: int| 0 <= a < n ==> 0 <= #[trigger] perm[a] < n && inv[perm[a]] == a,
                forall|b: int| 0 <= b < n ==> 0 <= #[trigger] inv[b] < n && perm[inv[b]] == b,
                forall|a: int| 0 <= a < n ==> #[trigger] seams@[a] == t[perm[a]],
                forall|a: int| i <= a < n ==> #[trigger] perm[a] == a,
                forall|a: int| 0 <= a < i && a < n ==> #[trigger] perm[a] < i,
                forall|a: int, b: int| 0 <= a < b < i && b < n ==> seams@[a].0 < seams@[b].0,
            decreases n - i,
        {
            proof {
                assert(perm[i as int] == i);
                assert(perm[i - 1] < i);
            }
            if seams[i].0 < seams[i - 1].0 {
                proof {
                    let b = perm[i - 1];
                    lemma_step_order(r, s0[b].0 as int, s0[i as int].0 as int);
                    if b < i - 1 {
                        assert(s0[b].0 < s0[i - 1].0);
                    }
                    assert(b == i - 1);
                    if i >= 2 {
                        let c = perm[i - 2];
                        assert(inv[c] == i - 2);
                        assert(c != i - 1);
                        lemma_step_order(r, s0[c].0 as int, s0[i as int].0 as int);
                        if s0[i as int].0 == s0[c].0 + 1 {
                            assert(s0[c].0 < s0[i - 1].0);
                        }
                        assert(seams@[i - 2].0 < seams@[i as int].0);
                    }
                }
                let cur = seams[i];
                let prev = seams[i - 1];
                seams[i] = prev;
                seams[i - 1] = cur;
                proof {
                    let pi = perm[i as int];
                    let pm = perm[i - 1];
                    perm = perm.update(i as int, pm).update(i - 1, pi);
                    inv = inv.update(pm, i as int).update(pi, i - 1);
                }
            } else {
                proof {
                    let b = perm[i - 1];
                    lemma_step_order(r, s0[b].0 as int, s0[i as int].0 as int);
                }
            }
            i = i + 1;
        }
        proof {
            assert forall|q: (usize, P)|
                #[trigger] seams@.contains(q) <==> exists|j: int|
                    0 <= j < s0.len() && q.1 == s0[j].1 && q.0 == step_column(v, y as int, s0[j].0 as int) by {
                if seams@.contains(q) {
                    let a = choose|a: int| 0 <= a < seams@.len() && seams@[a] == q;
                    let j = perm[a];
                    assert(q == t[j]);
                }
                if exists|j: int| 0 <= j < s0.len() && q.1 == s0[j].1 && q.0 == step_column(v, y as int, s0[j].0 as int) {
                    let j = choose|j: int| 0 <= j < s0.len() && q.1 == s0[j].1 && q.0 == step_column(v, y as int, s0[j].0 as int);
                    let a = inv[j];
                    assert(seams@[a] == t[j]);
                    assert(t[j] == q);
                }
            }
            assert forall|a: int| 0 <= a < n implies (#[trigger] seams@[a]).0 < wi by {
                let j = perm[a];
                lemma_swap_step(r, s0[j].0 as int);
            }
        }
    }
}

/// The best total of `a[i] * mn[j]` over the ways of matching columns `0..=x`
/// of one row to columns `0..=x` of the next, where each column either stays
/// or swaps with a neighbour (`F` in Eq. 7 of Huang et al.).
pub open spec fn dp(a: Seq<int>, mn: Seq<int>, x: int) -> int
    decreases x + 1,
{
    if x < 0 {
        0
    } else if x == 0 {
        a[0] * mn[0]
    } else {
        let stay = dp(a, mn, x - 1) + a[x] * mn[x];
        let swap = dp(a, mn, x - 2) + a[x] * mn[x - 1] + a[x - 1] * mn[x];
        if swap > stay { swap } else { stay }
    }
}

/// Whether column `x` swaps with column `x - 1` in the best matching of `0..=x`
/// (a swap is taken only when strictly better than staying).
pub open spec fn swaps(a: Seq<int>, mn: Seq<int>, x: int) -> bool {
    &&& x >= 1
    &&& dp(a, mn, x - 2) + a[x] * mn[x - 1] + a[x - 1] * mn[x] > dp(a, mn, x - 1) + a[x] * mn[x]
}

/// The moves of the best matching of columns `0..=x`, read back from the right.
pub open spec fn matching(a: Seq<int>, mn: Seq<int>, x: int) -> Seq<i8>
    decreases x + 1,
{
    if x < 0 {
        Seq::empty()
    } else if swaps(a, mn, x) {
        matching(a, mn, x - 2) + seq![1i8, -1i8]
    } else {
        matching(a, mn, x - 1).push(0i8)
    }
}

pub proof fn lemma_matching(a: Seq<int>, mn: Seq<int>, x: int)
    requires
        x >= -1,
    ensures
        matching(a, mn, x).len() == x + 1,
        is_swap_row(matching(a, mn, x)),
        x >= 0 ==> matching(a, mn, x)[x] != 1,
    decreases x + 1,
{
    if x >= 0 {
        if swaps(a, mn, x) {
            lemma_matching(a, mn, x - 2);
            let p = matching(a, mn, x - 2);
            let q = p + seq![1i8, -1i8];
            assert forall|i: int| 0 <= i < q.len() implies {
                &&& (#[trigger] q[i] == 0 || q[i] == 1 || q[i] == -1)
                &&& (q[i] == 1 ==> i + 1 < q.len() && q[i + 1] == -1)
                &&& (q[i] == -1 ==> i >= 1 && q[i - 1] == 1)
            } by {
                if i < p.len() {
                    assert(q[i] == p[i]);
                    if p[i] == -1 {
                        assert(p[i - 1] == 1);
                    }
                }
            }
        } else {
            lemma_matching(a, mn, x - 1);
            let p = matching(a, mn, x - 1);
            let q = p.push(0i8);
            assert forall|i: int| 0 <= i < q.len() implies {
                &&& (#[trigger] q[i] == 0 || q[i] == 1 || q[i] == -1)
                &&& (q[i] == 1 ==> i + 1 < q.len() && q[i + 1] == -1)
                &&& (q[i] == -1 ==> i >= 1 && q[i - 1] == 1)
            } by {
                if i < p.len() {
                    assert(q[i] == p[i]);
                    if p[i] == -1 {
                        assert(p[i - 1] == 1);
                    }
                    if p[i] == 1 {
                        assert(i + 1 < p.len());
                    }
                }
            }
        }
    }
}

/// `sum of a[x] * mn[x + d[x]]` over the columns `x < j`: the score of moving
/// the seams of columns `0..j`, whose energies are `a`, by the moves `d` onto
/// a row of cumulative energies `mn`.
pub open spec fn matching_score(a: Seq<int>, mn: Seq<int>, d: Seq<i8>, j: int) -> int
    decreases j,
{
    if j <= 0 {
        0
    } else {
        matching_score(a, mn, d, j - 1) + a[j - 1] * mn[j - 1 + d[j - 1]]
    }
}

proof fn lemma_score_prefix(a: Seq<int>, mn: Seq<int>, d1: Seq<i8>, d2: Seq<i8>, j: int)
    requires
        0 <= j <= d1.len(),
        j <= d2.len(),
        forall|x: int| 0 <= x < j ==> d1[x] == d2[x],
    ensures
        matching_score(a, mn, d1, j) == matching_score(a, mn, d2, j),
    decreases j,
{
    if j > 0 {
        lemma_score_prefix(a, mn, d1, d2, j - 1);
    }
}

/// The moves read back from the right achieve the best total `dp`.
proof fn lemma_matching_score(a: Seq<int>, mn: Seq<int>, x: int)
    requires
        x >= -1,
    ensures
        matching_score(a, mn, matching(a, mn, x), x + 1) == dp(a, mn, x),
    decreases x + 1,
{
    lemma_matching(a, mn, x);
    if x >= 0 {
        let d = matching(a, mn, x);
        if swaps(a, mn, x) {
            let p = matching(a, mn, x - 2);
            lemma_matching(a, mn, x - 2);
            lemma_matching_score(a, mn, x - 2);
            assert forall|i: int| 0 <= i < x - 1 implies d[i] == p[i] by {}
            lemma_score_prefix(a, mn, d, p, x - 1);
            assert(d[x - 1] == 1 && d[x] == -1);
            assert(matching_score(a, mn, d, x) == matching_score(a, mn, d, x - 1) + a[x - 1] * mn[x]);
            assert(matching_score(a, mn, d, x + 1) == matching_score(a, mn, d, x) + a[x] * mn[x - 1]);
        } else {
            let p = matching(a, mn, x - 1);
            lemma_matching(a, mn, x - 1);
            lemma_matching_score(a, mn, x - 1);
            assert forall|i: int| 0 <= i < x implies d[i] == p[i] by {}
            lemma_score_prefix(a, mn, d, p, x);
            assert(d[x] == 0);
            assert(matching_score(a, mn, d, x + 1) == matching_score(a, mn, d, x) + a[x] * mn[x]);
        }
    }
}

/// No way of moving columns `0..j` that is closed at `j` (no swap across the
/// boundary) scores more than `dp(j - 1)`.
proof fn lemma_score_bounded(a: Seq<int>, mn: Seq<int>, d: Seq<i8>, j: int)
    requires
        is_swap_row(d),
        0 <= j <= d.len(),
        j > 0 ==> d[j - 1] != 1,
    ensures
        matching_score(a, mn, d, j) <= dp(a, mn, j - 1),
    decreases j,
{
    if j > 0 {
        let x = j - 1;
        assert(d[x] == 0 || d[x] == 1 || d[x] == -1);
        if d[x] == 0 {
            if x > 0 {
                assert(d[x - 1] == 0 || d[x - 1] == 1 || d[x - 1] == -1);
            }
            lemma_score_bounded(a, mn, d, j - 1);
            assert(matching_score(a, mn, d, j) == matching_score(a, mn, d, x) + a[x] * mn[x]);
        } else {
            assert(d[x - 1] == 1);
            if x >= 2 {
                assert(d[x - 2] == 0 || d[x - 2] == 1 || d[x - 2] == -1);
            }
            lemma_score_bounded(a, mn, d, j - 2);
            assert(matching_score(a, mn, d, j) == matching_score(a, mn, d, x) + a[x] * mn[x - 1]);
            assert(matching_score(a, mn, d, x) == matching_score(a, mn, d, x - 1) + a[x - 1] * mn[x]);
        }
    }
}

/// The moves chosen from one row to the next score best (Eq. 7 of Huang et al.):
/// no other way of moving the seams, each staying or swapping with a
/// neighbour, gives a larger sum of `a[x] * mn[x + d[x]]`.
pub proof fn lemma_matching_is_best(a: Seq<int>, mn: Seq<int>, d: Seq<i8>)
    requires
        d.len() == a.len(),
        is_swap_row(d),
    ensures
        matching(a, mn, a.len() - 1).len() == a.len(),
        is_swap_row(matching(a, mn, a.len() - 1)),
        matching_score(a, mn, d, d.len() as int)
            <= matching_score(a, mn, matching(a, mn, a.len() - 1), a.len() as int),
{
    let n = a.len() as int;
    lemma_matching(a, mn, n - 1);
    lemma_matching_score(a, mn, n - 1);
    if n > 0 {
        assert(d[n - 1] == 0 || d[n - 1] == 1 || d[n - 1] == -1);
    }
    lemma_score_bounded(a, mn, d, n);
}

/// Row `y` of a plane of `u16`, as integers.
pub open spec fn row_values16(p: Seq<u16>, w: int, y: int) -> Seq<int> {
    Seq::new(w as nat, |x: int| plane_at(p, w, x, y) as int)
}

/// Row `y` of a plane of `u64`, as integers.
pub open spec fn row_values64(p: Seq<u64>, w: int, y: int) -> Seq<int> {
    Seq::new(w as nat, |x: int| plane_at(p, w, x, y) as int)
}

/// `A` of Huang et al.: the energy accumulated, from the top row down to row
/// `y`, by the seam found at each column of row `y`. From row to row the seams
/// follow the best matching against the cumulative energies `m` of the next row.
pub open spec fn seam_sums(e: Seq<u16>, m: Seq<u64>, w: int, y: int) -> Seq<int>
    decreases y,
{
    if y <= 0 {
        row_values16(e, w, 0)
    } else {
        let prev = seam_sums(e, m, w, y - 1);
        let d = matching(prev, row_values64(m, w, y), w - 1);
        Seq::new(w as nat, |x: int| prev[x + d[x]] + plane_at(e, w, x, y))
    }
}

/// The moves from row `y` to row `y + 1`: the best matching of the seams of
/// row `y` against the cumulative energies of row `y + 1`.
pub open spec fn row_matching(e: Seq<u16>, m: Seq<u64>, w: int, y: int) -> Seq<i8> {
    matching(seam_sums(e, m, w, y), row_values64(m, w, y + 1), w - 1)
}

/// With energies of at most `max_energy()`, a seam that has crossed rows
/// `0..=y` has gathered at most `max_energy() * (y + 1)`.
pub proof fn lemma_seam_sums(e: Seq<u16>, m: Seq<u64>, w: int, h: int, y: int)
    requires
        1 <= w,
        0 <= y < h,
        energies_bounded(e, w, h, max_energy()),
    ensures
        seam_sums(e, m, w, y).len() == w,
        forall|x: int| 0 <= x < w ==> 0 <= #[trigger] seam_sums(e, m, w, y)[x] <= max_energy() * (y + 1),
    decreases y,
{
    if y <= 0 {
        assert forall|x: int| 0 <= x < w implies 0 <= #[trigger] seam_sums(e, m, w, y)[x] <= max_energy() * (y + 1) by {
            assert(plane_at(e, w, x, 0) <= max_energy());
        }
    } else {
        lemma_seam_sums(e, m, w, h, y - 1);
        let prev = seam_sums(e, m, w, y - 1);
        let d = matching(prev, row_values64(m, w, y), w - 1);
        lemma_matching(prev, row_values64(m, w, y), w - 1);
        assert forall|x: int| 0 <= x < w implies 0 <= #[trigger] seam_sums(e, m, w, y)[x] <= max_energy() * (y + 1) by {
            lemma_swap_step(d, x);
            assert(plane_at(e, w, x, y) <= max_energy());
            assert(0 <= prev[x + d[x]] <= max_energy() * y);
        }
    }
}

/// `2^41`: every seam sum and cumulative energy of an image of at most
/// `u32::MAX` rows is below it.
pub open spec fn value_limit() -> int {
    0x20000000000
}

/// A bound on each product `a * m` of the matching step.
pub open spec fn product_limit() -> int {
    0x400000000000000000000
}

proof fn lemma_product(a: int, b: int)
    requires
        0 <= a < value_limit(),
        0 <= b < value_limit(),
    ensures
        0 <= a * b < product_limit(),
{
    assert(0 <= a * b < 0x400000000000000000000) by (nonlinear_arith)
        requires
            0 <= a < 0x20000000000,
            0 <= b < 0x20000000000,
    ;
}

/// Computes the full set of vertical seams by the row-to-row matching of
/// Huang et al. (Eq. 5, 7 and 10): from each row to the next, the seams are
/// matched to columns by the adjacent swaps that maximise the sum of
/// `A(x) * m(x')` (see [`row_matching`]).
#[verifier::spinoff_prover]
#[verifier::rlimit(40)]
pub(crate) fn compute_vertical_seams(energy: &Image<u16>, m: &Image<u64>) -> (r: VerticalSeams)
    requires
        energy@.width == m@.width,
        energy@.height == m@.height,
        energy@.layout == ColorLayout::Luma,
        m@.layout == ColorLayout::Luma,
        energy@.height >= 1,
        energy@.width >= 1 || energy@.height == 1,
        energies_bounded(energy@.data, energy@.width as int, energy@.height as int, max_energy()),
        forall|x: int, y: int|
            0 <= x < m@.width && 0 <= y < m@.height ==>
                #[trigger] plane_at(m@.data, m@.width as int, x, y) <= max_energy() * m@.height,
    ensures
        r@.width == energy@.width,
        r@.height == energy@.height,
        forall|t: int|
            0 <= t < energy@.height - 1 ==>
                #[trigger] row_of(r@.deltas, energy@.width as int, t)
                    == row_matching(energy@.data, m@.data, energy@.width as int, t),
        forall|s: int|
            0 <= s < energy@.width ==>
                #[trigger] r@.energies[s] as int
                    == seam_sums(energy@.data, m@.data, energy@.width as int, energy@.height - 1)[r@.position(s, energy@.height - 1)],
{
    let (width, height) = energy.dimensions();
    let n = energy.pixel_count();
    let mn_n = m.pixel_count();
    let e = energy.as_raw();
    let mv = m.as_raw();
    let w = width as usize;
    let h = height as usize;
    let ghost ei = e@;
    let ghost mi = mv@;
    let ghost wi = w as int;
    let ghost hi = h as int;
    assert(w * h * 1 == w * h) by (nonlinear_arith);

    // a[x]: energy gathered so far by the seam at column x of the current row.
    let mut a: Vec<u64> = Vec::new();
    // origin[x]: the top-row column of the seam at column x of the current row.
    let mut origin: Vec<u32> = Vec::new();
    let mut should_stay: Vec<bool> = Vec::new();
    let mut x: usize = 0;
    while x < w
        invariant
            w == width,
            h == height,
            wi == w,
            hi == h,
            n == w * h,
            ei == e@,
            ei.len() == n,
            h >= 1,
            0 <= x <= w,
            a@.len() == x,
            origin@.len() == x,
            should_stay@.len() == x,
            energies_bounded(ei, wi, hi, max_energy()),
            forall|i: int| 0 <= i < x ==> #[trigger] a@[i] as int == row_values16(ei, wi, 0)[i],
            forall|i: int| 0 <= i < x ==> #[trigger] origin@[i] == i,
        decreases w - x,
    {
        proof { lemma_plane_index(wi, hi, x as int, 0); }
        a.push(e[x] as u64);
        origin.push(x as u32);
        should_stay.push(false);
        x = x + 1;
    }
    let mut deltas: Vec<i8> = Vec::new();
    proof {
        if w >= 1 {
            lemma_seam_sums(ei, mi, wi, hi, 0);
        }
        assert forall|i: int| 0 <= i < w implies #[trigger] seam_position(deltas@, wi, origin@[i] as int, 0) == i by {}
    }
    let mut y: usize = 0;
    while y + 1 < h
        invariant
            w == width,
            h == height,
            wi == w,
            hi == h,
            n == w * h,
            mn_n == w * h,
            ei == e@,
            mi == mv@,
            ei.len() == n,
            mi.len() == n,
            w >= 1 || h == 1,
            0 <= y < h,
            a@.len() == w,
            origin@.len() == w,
            should_stay@.len() == w,
            deltas@.len() == y * w,
            energies_bounded(ei, wi, hi, max_energy()),
            forall|p: int, q: int| 0 <= p < wi && 0 <= q < hi ==> #[trigger] plane_at(mi, wi, p, q) <= max_energy() * hi,
            forall|i: int| 0 <= i < w ==> #[trigger] a@[i] as int == seam_sums(ei, mi, wi, y as int)[i],
            forall|t: int| 0 <= t < y ==> #[trigger] row_of(deltas@, wi, t) == row_matching(ei, mi, wi, t),
            swap_rows_before(deltas@, wi, y as int),
            forall|i: int|
                0 <= i < w ==> (#[trigger] origin@[i]) < w && seam_position(deltas@, wi, origin@[i] as int, y as int) == i,
        decreases h - y,
    {
        let ghost av = seam_sums(ei, mi, wi, y as int);
        let ghost mn = row_values64(mi, wi, y + 1);
        proof {
            lemma_seam_sums(ei, mi, wi, hi, y as int);
            lemma_row_offset(wi, hi, y + 1);
            assert(510 * hi <= 510 * 0xffff_ffff);
        }
        let next = (y + 1) * w;

        // Forward pass: should_stay[x] records whether column x keeps its seam.
        let mut dp_im2: u128 = 0;
        proof {
            assert(plane_at(mi, wi, 0, y + 1) == mi[next as int]);
            assert(plane_at(mi, wi, 0, y + 1) <= max_energy() * hi);
            assert(a@[0] as int == av[0]);
            assert(av[0] <= max_energy() * (y + 1));
            lemma_product(a@[0] as int, mv@[next as int] as int);
        }
        let mut dp_im1: u128 = (a[0] as u128) * (mv[next] as u128);
        should_stay[0] = true;
        let mut x: usize = 1;
        while x < w
            invariant
                w == width,
                h == height,
                wi == w,
                hi == h,
                n == w * h,
                ei == e@,
                mi == mv@,
                ei.len() == n,
                mi.len() == n,
                1 <= x <= w,
                y + 1 < h,
                next == (y + 1) * w,
                next + w <= n,
                a@.len() == w,
                should_stay@.len() == w,
                av == seam_sums(ei, mi, wi, y as int),
                mn == row_values64(mi, wi, y + 1),
                forall|p: int, q: int| 0 <= p < wi && 0 <= q < hi ==> #[trigger] plane_at(mi, wi, p, q) <= max_energy() * hi,
                forall|i: int| 0 <= i < w ==> #[trigger] a@[i] as int == av[i],
                forall|i: int| 0 <= i < w ==> 0 <= #[trigger] av[i] <= max_energy() * (y + 1),
                dp_im1 == dp(av, mn, x - 1),
                dp_im2 == dp(av, mn, x - 2),
                dp_im1 <= x * product_limit(),
                dp_im2 <= (x - 1) * product_limit(),
                forall|i: int| 0 <= i < x ==> #[trigger] should_stay@[i] == !swaps(av, mn, i),
            decreases w - x,
        {
            let ca = a[x] as u128;
            let pa = a[x - 1] as u128;
            let cm = mv[next + x] as u128;
            let pm = mv[next + x - 1] as u128;
            proof {
                assert(plane_at(mi, wi, x as int, y + 1) == mi[next + x]);
                assert(plane_at(mi, wi, x - 1, y + 1) == mi[next + x - 1]);
                assert(mn[x as int] == cm);
                assert(mn[x - 1] == pm);
                assert(av[x as int] <= max_energy() * (y + 1));
                assert(av[x - 1] <= max_energy() * (y + 1));
                lemma_product(ca as int, cm as int);
                lemma_product(ca as int, pm as int);
                lemma_product(pa as int, cm as int);
            }
            let stay_dp = dp_im1 + ca * cm;
            let swap_dp = dp_im2 + ca * pm + pa * cm;
            dp_im2 = dp_im1;
            if swap_dp > stay_dp {
                should_stay[x] = false;
                dp_im1 = swap_dp;
            } else {
                should_stay[x] = true;
                dp_im1 = stay_dp;
            }
            x = x + 1;
        }

        // Backtrack right to left: resolve each choice into a move and carry
        // the seams' energies and origins to the next row.
        let ghost a0 = a@;
        let ghost o0 = origin@;
        let ghost best = matching(av, mn, wi - 1);
        proof { lemma_matching(av, mn, wi - 1); }
        let mut drow: Vec<i8> = Vec::new();
        let mut k: usize = 0;
        while k < w
            invariant
                k <= w,
                drow@.len() == k,
                forall|i: int| 0 <= i < k ==> #[trigger] drow@[i] == 0,
            decreases w - k,
        {
            drow.push(0);
            k = k + 1;
        }
        let mut x: usize = w;
        while x > 0
            invariant
                w == width,
                h == height,
                wi == w,
                hi == h,
                n == w * h,
                ei == e@,
                ei.len() == n,
                y + 1 < h,
                next == (y + 1) * w,
                next + w <= n,
                0 <= x <= w,
                a@.len() == w,
                origin@.len() == w,
                drow@.len() == w,
                should_stay@.len() == w,
                a0.len() == w,
                o0.len() == w,
                best.len() == w,
                is_swap_row(best),
                energies_bounded(ei, wi, hi, max_energy()),
                forall|i: int| 0 <= i < w ==> #[trigger] should_stay@[i] == !swaps(av, mn, i),
                forall|i: int| 0 <= i < w ==> 0 <= #[trigger] a0[i] <= max_energy() * (y + 1),
                best == matching(av, mn, wi - 1),
                best == matching(av, mn, x - 1) + drow@.subrange(x as int, wi),
                forall|i: int| 0 <= i < x ==> #[trigger] drow@[i] == 0,
                forall|i: int| 0 <= i < x ==> #[trigger] a@[i] == a0[i],
                forall|i: int| 0 <= i < x ==> #[trigger] origin@[i] == o0[i],
                forall|i: int|
                    x <= i < w ==> #[trigger] a@[i] as int == a0[i + best[i]] + plane_at(ei, wi, i, y + 1),
                forall|i: int| x <= i < w ==> #[trigger] origin@[i] == o0[i + best[i]],
            decreases x,
        {
            let xi = x - 1;
            proof {
                lemma_matching(av, mn, xi as int);
                lemma_plane_index(wi, hi, xi as int, y + 1);
                assert(plane_at(ei, wi, xi as int, y + 1) <= max_energy());
            }
            if should_stay[xi] {
                proof {
                    assert(matching(av, mn, xi as int) == matching(av, mn, xi - 1).push(0i8));
                    assert(best == matching(av, mn, xi - 1) + drow@.subrange(xi as int, wi));
                    lemma_swap_step(best, xi as int);
                }
                a[xi] = a[xi] + e[next + xi] as u64;
                x = xi;
            } else {
                let xm = xi - 1;
                proof {
                    assert(swaps(av, mn, xi as int));
                    lemma_plane_index(wi, hi, xm as int, y + 1);
                    assert(plane_at(ei, wi, xm as int, y + 1) <= max_energy());
                }
                drow[xi] = -1;
                drow[xm] = 1;
                let a_x = a[xi];
                let a_xm1 = a[xm];
                let origin_x = origin[xi];
                let origin_xm1 = origin[xm];
                a[xi] = a_xm1 + e[next + xi] as u64;
                origin[xi] = origin_xm1;
                a[xm] = a_x + e[next + xm] as u64;
                origin[xm] = origin_x;
                proof {
                    assert(matching(av, mn, xi as int) == matching(av, mn, xi - 2) + seq![1i8, -1i8]);
                    assert(best == matching(av, mn, xm - 1) + drow@.subrange(xm as int, wi));
                }
                x = xm;
            }
        }
        proof {
            assert(drow@ =~= best);
            assert forall|i: int| 0 <= i < w implies #[trigger] a@[i] as int == seam_sums(ei, mi, wi, y + 1)[i] by {
                assert(seam_sums(ei, mi, wi, y + 1)[i] == av[i + best[i]] + plane_at(ei, wi, i, y + 1));
            }
        }
        let ghost old_deltas = deltas@;
        deltas.append(&mut drow);
        proof {
            assert(best == row_matching(ei, mi, wi, y as int));
            lemma_row_offset(wi, hi, y as int);
            assert(row_of(deltas@, wi, y as int) =~= best);
            assert forall|t: int| 0 <= t < y + 1 implies #[trigger] row_of(deltas@, wi, t) == row_matching(ei, mi, wi, t) by {
                if t < y {
                    lemma_row_len(old_deltas, wi, y as int, t);
                    assert(row_of(deltas@, wi, t) =~= row_of(old_deltas, wi, t));
                }
            }
            assert forall|t: int| 0 <= t < y + 1 implies is_swap_row(#[trigger] row_of(deltas@, wi, t)) by {
                if t < y {
                    lemma_row_len(old_deltas, wi, y as int, t);
                    assert(row_of(deltas@, wi, t) =~= row_of(old_deltas, wi, t));
                }
            }
            assert forall|t: int| 0 <= t < y implies #[trigger] row_of(old_deltas, wi, t) == row_of(deltas@, wi, t) by {
                lemma_row_len(old_deltas, wi, y as int, t);
                assert(row_of(deltas@, wi, t) =~= row_of(old_deltas, wi, t));
            }
            assert forall|i: int|
                0 <= i < w implies (#[trigger] origin@[i]) < w && seam_position(deltas@, wi, origin@[i] as int, y + 1) == i by {
                let j = i + best[i];
                lemma_swap_step(best, i);
                let s = origin@[i] as int;
                assert(s == o0[j]);
                lemma_position_prefix(old_deltas, deltas@, wi, s, y as int);
                assert(seam_position(old_deltas, wi, s, y as int) == j);
                assert(row_of(deltas@, wi, y as int)[j] == best[j]);
            }
        }
        y = y + 1;
    }

    // Convert from "energy by current column" to "energy by starting column".
    let ghost last = (h - 1) as int;
    let mut seam_energies: Vec<u64> = Vec::new();
    let mut k: usize = 0;
    while k < w
        invariant
            k <= w,
            seam_energies@.len() == k,
        decreases w - k,
    {
        seam_energies.push(0);
        k = k + 1;
    }
    let mut x: usize = 0;
    while x < w
        invariant
            w == width,
            h == height,
            wi == w,
            hi == h,
            last == hi - 1,
            0 <= x <= w,
            a@.len() == w,
            origin@.len() == w,
            seam_energies@.len() == w,
            deltas@.len() == last * w,
            forall|i: int|
                0 <= i < w ==> (#[trigger] origin@[i]) < w && seam_position(deltas@, wi, origin@[i] as int, last) == i,
            forall|j: int| 0 <= j < x ==> #[trigger] seam_energies@[origin@[j] as int] == a@[j],
        decreases w - x,
    {
        let s = origin[x] as usize;
        seam_energies[s] = a[x];
        proof {
            assert forall|j: int| 0 <= j < x + 1 implies #[trigger] seam_energies@[origin@[j] as int] == a@[j] by {
                if j < x {
                    assert(origin@[j] != origin@[x as int]);
                }
            }
        }
        x = x + 1;
    }
    proof {
        if w >= 1 {
            lemma_seam_sums(ei, mi, wi, hi, last);
        }
        assert forall|s: int| 0 <= s < w implies #[trigger] seam_energies@[s] as int
            == seam_sums(ei, mi, wi, last)[seam_position(deltas@, wi, s, last)]
            && seam_energies@[s] <= max_energy() * hi by {
            lemma_position_range(deltas@, wi, s, last);
            let p = seam_position(deltas@, wi, s, last);
            let o = origin@[p] as int;
            lemma_position_injective(deltas@, wi, o, s, last);
            assert(seam_energies@[origin@[p] as int] == a@[p]);
        }
    }
    VerticalSeams { deltas, seam_energies, width, height }
}

/// `v` holds the seams of the energy plane `e`: each row of moves is the best
/// matching of the seams against the cumulative energies of the next row, and
/// each seam's energy is the sum of the energies of the pixels it crosses.
pub open spec fn seams_of_energy(e: Seq<u16>, v: SeamsView) -> bool {
    let w = v.width as int;
    let h = v.height as int;
    let m = cumulative_plane(e, w, h);
    &&& forall|t: int| 0 <= t < h - 1 ==> #[trigger] row_of(v.deltas, w, t) == row_matching(e, m, w, t)
    &&& forall|s: int| 0 <= s < w ==> #[trigger] v.energies[s] as int == v.path_energy(e, s, h - 1)
}

/// The seams of a `w` by `h` energy plane `e`, as [`find_vertical_seams`] stores them.
pub open spec fn seams_of(e: Seq<u16>, w: int, h: int) -> SeamsView {
    let m = cumulative_plane(e, w, h);
    let d = plane_table(w, h - 1, |x: int, t: int| row_matching(e, m, w, t)[x]);
    let v = SeamsView { width: w as nat, height: h as nat, deltas: d, energies: Seq::empty() };
    SeamsView {
        width: w as nat,
        height: h as nat,
        deltas: d,
        energies: Seq::new(w as nat, |s: int| v.path_energy(e, s, h - 1) as u64),
    }
}

/// The seams of an image: those of the energy of its intensity.
pub open spec fn image_seams(img: ImageView<u8>) -> SeamsView {
    let w = img.width as int;
    let h = img.height as int;
    seams_of(energy_plane(intensity_plane(img), w, h), w, h)
}

/// The energy of a seam depends only on the moves.
proof fn lemma_path_energy_same_moves(e: Seq<u16>, v1: SeamsView, v2: SeamsView, s: int, y: int)
    requires
        v1.width == v2.width,
        v1.deltas == v2.deltas,
    ensures
        v1.path_energy(e, s, y) == v2.path_energy(e, s, y),
    decreases y + 1,
{
    if y >= 0 {
        lemma_path_energy_same_moves(e, v1, v2, s, y - 1);
    }
}

/// Well-formed seams of `e` are exactly [`seams_of`]`(e)`.
pub proof fn lemma_seams_of(e: Seq<u16>, v: SeamsView)
    requires
        v.wf(),
        seams_of_energy(e, v),
    ensures
        v == seams_of(e, v.width as int, v.height as int),
{
    let w = v.width as int;
    let h = v.height as int;
    let m = cumulative_plane(e, w, h);
    let f = |x: int, t: int| row_matching(e, m, w, t)[x];
    assert forall|x: int, t: int| 0 <= x < w && 0 <= t < h - 1 implies #[trigger] plane_at(v.deltas, w, x, t) == f(x, t) by {
        lemma_row_len(v.deltas, w, h - 1, t);
        assert(row_of(v.deltas, w, t) == row_matching(e, m, w, t));
        assert(row_of(v.deltas, w, t)[x] == plane_at(v.deltas, w, x, t));
    }
    assert(v.deltas.len() == w * (h - 1)) by (nonlinear_arith)
        requires
            v.deltas.len() == (h - 1) * w,
    ;
    lemma_plane_table(v.deltas, w, h - 1, f);
    let r = seams_of(e, w, h);
    let v0 = SeamsView { width: w as nat, height: h as nat, deltas: r.deltas, energies: Seq::empty() };
    assert forall|s: int| 0 <= s < w implies v.energies[s] == r.energies[s] by {
        lemma_path_energy_same_moves(e, v, v0, s, h - 1);
    }
    assert(v.energies =~= r.energies);
}

/// A seam that has crossed rows `0..=y` of a plane whose energies are at most
/// `b` has gathered at most `b` per row.
proof fn lemma_path_energy_bound(e: Seq<u16>, v: SeamsView, s: int, y: int, b: int)
    requires
        1 <= v.width,
        0 <= s < v.width,
        -1 <= y < v.height,
        0 <= b,
        swap_rows_before(v.deltas, v.width as int, v.height - 1),
        energies_bounded(e, v.width as int, v.height as int, b),
    ensures
        0 <= v.path_energy(e, s, y) <= b * (y + 1),
    decreases y + 1,
{
    if y >= 0 {
        let w = v.width as int;
        lemma_path_energy_bound(e, v, s, y - 1, b);
        lemma_swap_rows_fewer(v.deltas, w, v.height - 1, y);
        lemma_position_range(v.deltas, w, s, y);
        assert(plane_at(e, w, v.position(s, y), y) <= b);
        assert(b * (y + 1) == b * y + b) by (nonlinear_arith);
    }
}

/// The seams of an energy plane whose energies are those of an intensity
/// plane are well formed, and are what [`seams_of_energy`] describes.
pub proof fn lemma_seams_of_wf(e: Seq<u16>, w: int, h: int)
    requires
        1 <= w <= u32::MAX,
        1 <= h <= u32::MAX,
        energies_bounded(e, w, h, max_energy()),
    ensures
        seams_of(e, w, h).wf(),
        seams_of_energy(e, seams_of(e, w, h)),
        seams_of(e, w, h).width == w,
        seams_of(e, w, h).height == h,
{
    let m = cumulative_plane(e, w, h);
    let f = |x: int, t: int| row_matching(e, m, w, t)[x];
    let v = seams_of(e, w, h);
    let d = v.deltas;
    assert(d == plane_table(w, h - 1, f));
    assert(d.len() == (h - 1) * w) by (nonlinear_arith)
        requires
            d.len() == w * (h - 1),
    ;
    assert forall|t: int| 0 <= t < h - 1 implies #[trigger] row_of(d, w, t) == row_matching(e, m, w, t) by {
        lemma_matching(seam_sums(e, m, w, t), row_values64(m, w, t + 1), w - 1);
        lemma_row_offset(w, h - 1, t);
        assert forall|x: int| 0 <= x < w implies row_of(d, w, t)[x] == row_matching(e, m, w, t)[x] by {
            lemma_plane_table_at(w, h - 1, f, x, t);
        }
        assert(row_of(d, w, t) =~= row_matching(e, m, w, t));
    }
    assert forall|t: int| 0 <= t < h - 1 implies is_swap_row(#[trigger] row_of(d, w, t)) by {
        lemma_matching(seam_sums(e, m, w, t), row_values64(m, w, t + 1), w - 1);
        assert(row_of(d, w, t) == row_matching(e, m, w, t));
    }
    assert(swap_rows_before(d, w, h - 1));
    let v0 = SeamsView { width: w as nat, height: h as nat, deltas: d, energies: Seq::empty() };
    assert forall|s: int| 0 <= s < w implies #[trigger] v.energies[s] as int == v.path_energy(e, s, h - 1)
        && v.energies[s] <= max_energy() * v.height by {
        lemma_path_energy_bound(e, v0, s, h - 1, max_energy());
        lemma_path_energy_same_moves(e, v, v0, s, h - 1);
        assert(max_energy() * h <= max_energy() * 0xffff_ffff);
    }
}

/// Every pixel of `img` has the subpixels of the first pixel.
pub open spec fn is_uniform(img: ImageView<u8>) -> bool {
    forall|j: int| 0 <= j < img.data.len() ==> #[trigger] img.data[j] == img.data[j % (img.channels() as int)]
}

/// Subpixel `ch` of pixel `k` is, in a uniform image, that of the first pixel.
proof fn lemma_uniform_subpixel(img: ImageView<u8>, k: int, ch: int)
    requires
        img.wf(),
        is_uniform(img),
        0 <= k < img.width * img.height,
        0 <= ch < img.channels(),
    ensures
        img.data[img.channels() * k + ch] == img.data[ch],
{
    let c = img.channels() as int;
    assert(c * k + ch < img.data.len()) by (nonlinear_arith)
        requires
            0 <= k < img.width * img.height,
            0 <= ch < c,
            img.data.len() == img.width * img.height * c,
    ;
    assert(c * k + ch == k * c + ch) by (nonlinear_arith);
    vstd::arithmetic::div_mod::lemma_fundamental_div_mod_converse(c * k + ch, c, k, ch);
    assert(img.data[c * k + ch] == img.data[(c * k + ch) % c]);
}

/// A uniform image has the intensity of its first pixel everywhere.
proof fn lemma_uniform_intensity(img: ImageView<u8>, k: int)
    requires
        img.wf(),
        is_uniform(img),
        0 <= k < img.width * img.height,
    ensures
        img.intensity(k) == img.intensity(0),
{
    match img.layout {
        ColorLayout::Luma => {
            lemma_uniform_subpixel(img, k, 0);
        },
        ColorLayout::LumaA => {
            lemma_uniform_subpixel(img, k, 0);
        },
        ColorLayout::Rgb => {
            lemma_uniform_subpixel(img, k, 0);
            lemma_uniform_subpixel(img, k, 1);
            lemma_uniform_subpixel(img, k, 2);
        },
        ColorLayout::Rgba => {
            lemma_uniform_subpixel(img, k, 0);
            lemma_uniform_subpixel(img, k, 1);
            lemma_uniform_subpixel(img, k, 2);
        },
    }
}

/// A uniform image has no gradient anywhere: every pixel has zero energy, and
/// so every seam has zero total energy (all seams have the same energy).
pub proof fn lemma_uniform_image(img: ImageView<u8>)
    requires
        img.wf(),
        1 <= img.width,
        1 <= img.height,
        is_uniform(img),
    ensures
        forall|x: int, y: int|
            0 <= x < img.width && 0 <= y < img.height ==> #[trigger] plane_at(
                energy_plane(intensity_plane(img), img.width as int, img.height as int),
                img.width as int,
                x,
                y,
            ) == 0,
        image_seams(img).energies.len() == img.width,
        forall|s: int| 0 <= s < img.width ==> #[trigger] image_seams(img).energies[s] == 0,
{
    let w = img.width as int;
    let h = img.height as int;
    let i = intensity_plane(img);
    let e = energy_plane(i, w, h);
    let c = img.intensity(0);
    assert forall|x: int, y: int| 0 <= x < w && 0 <= y < h implies #[trigger] plane_at(i, w, x, y) == c by {
        lemma_plane_index(w, h, x, y);
        lemma_uniform_intensity(img, y * w + x);
    }
    assert forall|x: int, y: int| 0 <= x < w && 0 <= y < h implies #[trigger] plane_at(e, w, x, y) == 0 by {
        lemma_plane_table_at(w, h, |x: int, y: int| energy_at(i, w, h, x, y) as u16, x, y);
        let xl = if x > 0 { x - 1 } else { 0 };
        let xr = if x + 1 < w { x + 1 } else { w - 1 };
        let yu = if y > 0 { y - 1 } else { 0 };
        let yd = if y + 1 < h { y + 1 } else { h - 1 };
        assert(plane_at(i, w, xl, y) == c && plane_at(i, w, xr, y) == c);
        assert(plane_at(i, w, x, yu) == c && plane_at(i, w, x, yd) == c);
        assert(energy_at(i, w, h, x, y) == 0);
    }
    assert(energies_bounded(e, w, h, max_energy()));
    assert(energies_bounded(e, w, h, 0));
    lemma_seams_of_wf(e, w, h);
    let v = image_seams(img);
    assert forall|s: int| 0 <= s < w implies #[trigger] v.energies[s] == 0 by {
        lemma_path_energy_bound(e, v, s, h - 1, 0);
    }
}

/// Along each seam, `A` is the energy of the pixels the seam has crossed.
pub proof fn lemma_seam_sums_follow_paths(e: Seq<u16>, m: Seq<u64>, v: SeamsView, s: int, y: int)
    requires
        v.wf(),
        1 <= v.width,
        0 <= s < v.width,
        0 <= y < v.height,
        forall|t: int|
            0 <= t < v.height - 1 ==> #[trigger] row_of(v.deltas, v.width as int, t) == row_matching(e, m, v.width as int, t),
    ensures
        seam_sums(e, m, v.width as int, y)[v.position(s, y)] == v.path_energy(e, s, y),
    decreases y,
{
    let w = v.width as int;
    if y > 0 {
        lemma_seam_sums_follow_paths(e, m, v, s, y - 1);
        let prev = seam_sums(e, m, w, y - 1);
        let r = row_of(v.deltas, w, y - 1);
        assert(r == row_matching(e, m, w, y - 1));
        lemma_matching(prev, row_values64(m, w, y), w - 1);
        lemma_swap_rows_fewer(v.deltas, w, v.height - 1, y);
        lemma_swap_rows_fewer(v.deltas, w, v.height - 1, y - 1);
        lemma_position_range(v.deltas, w, s, y - 1);
        let p = v.position(s, y - 1);
        lemma_swap_step(r, p);
        let q = v.position(s, y);
        assert(q == p + r[p]);
        let d = matching(prev, row_values64(m, w, y), w - 1);
        assert(d == r);
        assert(0 <= q < w);
        assert(q + r[q] == p);
        assert(seam_sums(e, m, w, y)[q] == prev[q + d[q]] + plane_at(e, w, q, y));
        assert(prev[p] == v.path_energy(e, s, y - 1));
        assert(v.path_energy(e, s, y) == v.path_energy(e, s, y - 1) + plane_at(e, w, q, y));
    } else {
        assert(v.position(s, 0) == s);
        assert(seam_sums(e, m, w, 0)[s] == plane_at(e, w, s, 0));
        assert(v.path_energy(e, s, -1) == 0);
    }
}

proof fn lemma_dp_bound_steps(w: int, a: int, b: int)
    requires
        0 <= w <= usize::MAX,
        0 <= a <= b,
        260100 * w * a * b <= u128::MAX,
    ensures
        260100 * w <= u128::MAX,
        260100 * w * a <= u128::MAX,
        0 <= 260100 * w * a,
        0 <= 260100 * w * a * b,
{
    assert(260100 * w <= u128::MAX) by (nonlinear_arith)
        requires
            0 <= w <= usize::MAX,
    ;
    assert(0 <= 260100 * w * a && 0 <= 260100 * w * a * b) by (nonlinear_arith)
        requires
            0 <= w,
            0 <= a <= b,
    ;
    if a >= 1 {
        assert(260100 * w * a <= 260100 * w * a * b) by (nonlinear_arith)
            requires
                0 <= w,
                1 <= a <= b,
        ;
    } else {
        assert(260100 * w * a == 0) by (nonlinear_arith)
            requires
                a == 0,
        ;
    }
}

/// Computes the set of vertical seams (one per top-row column) and their total
/// energies with the w2 algorithm of Huang et al. (2009).
///
/// The energy of a pixel comes from the intensity of its neighbours (see
/// [`energy_at`]); from each row to the next the seams follow the best matching
/// against the cumulative energies (see [`seams_of_energy`]).
pub fn find_vertical_seams(img: &Image<u8>) -> (r: VerticalSeams)
    requires
        img@.width > 1,
        img@.height > 0,
    ensures
        r@.width == img@.width,
        r@.height == img@.height,
        seams_of_energy(energy_plane(intensity_plane(img@), img@.width as int, img@.height as int), r@),
        r@ == image_seams(img@),
{
    proof { use_type_invariant(img); }
    let intensity = compute_intensity(img);
    let energy = compute_energy(&intensity);
    let m = compute_bottom_up_min_cumulative_energy(&energy);
    let ghost w = img@.width as int;
    let ghost h = img@.height as int;
    let ghost i = intensity_plane(img@);
    let ghost e = energy@.data;
    let ghost mm = m@.data;
    proof {
        assert(intensity@.data =~= i);
        lemma_plane_table(e, w, h, |x: int, y: int| energy_at(i, w, h, x, y) as u16);
        assert forall|x: int, y: int| 0 <= x < w && 0 <= y < h implies #[trigger] plane_at(e, w, x, y) <= max_energy() by {
            lemma_energy_bound(i, w, h, x, y);
        }
        assert(energies_bounded(e, w, h, max_energy()));
        assert forall|x: int, y: int| 0 <= x < w && 0 <= y < h implies #[trigger] plane_at(mm, w, x, y) <= max_energy() * h by {
            lemma_cumulative_bound(e, w, h, x, y, max_energy());
            assert(max_energy() * (h - y) <= max_energy() * h);
        }
        assert forall|x: int, y: int| 0 <= x < w && 0 <= y < h implies #[trigger] plane_at(mm, w, x, y)
            == (|x: int, y: int| cumulative(e, w, h, x, y) as u64)(x, y) by {
            lemma_cumulative_bound(e, w, h, x, y, max_energy());
            assert(max_energy() * (h - y) <= max_energy() * 0xffff_ffff);
        }
        lemma_plane_table(mm, w, h, |x: int, y: int| cumulative(e, w, h, x, y) as u64);
    }
    let r = compute_vertical_seams(&energy, &m);
    proof {
        use_type_invariant(&r);
        assert forall|s: int| 0 <= s < w implies #[trigger] r@.energies[s] as int == r@.path_energy(e, s, h - 1) by {
            lemma_seam_sums_follow_paths(e, mm, r@, s, h - 1);
        }
        lemma_seams_of(e, r@);
    }
    r
}

/// Find a single vertical seam: the lowest-energy one (the leftmost among equals).
pub fn find_vertical_seam(image: &Image<u8>) -> (seam: VerticalSeam)
    requires
        image@.width > 1,
        image@.height > 0,
    ensures
        seam.0@ == image_seams(image@).path(lowest_seams(image_seams(image@).energies, 1)[0] as int),
{
    let seams = find_vertical_seams(image);
    let mut lowest = seams.to_vec_lowest(1);
    proof {
        use_type_invariant(&seams);
    }
    lowest.swap_remove(0)
}

/// Every seam crosses each row once, inside the image, and moves at most one
/// column from a row to the next (Eq. 2 of Huang et al.).
pub proof fn lemma_path_steps(v: SeamsView, s: int)
    requires
        v.wf(),
        0 <= s < v.width,
    ensures
        v.path(s).len() == v.height,
        forall|i: int| 0 <= i < v.height ==> (#[trigger] v.path(s)[i]) < v.width,
        forall|i: int|
            0 <= i < v.height - 1 ==> -1 <= #[trigger] v.path(s)[i] - v.path(s)[i + 1] <= 1,
{
    let w = v.width as int;
    let h = v.height as int;
    assert forall|i: int| 0 <= i < h implies (#[trigger] v.path(s)[i]) < v.width by {
        lemma_swap_rows_fewer(v.deltas, w, h - 1, h - 1 - i);
        lemma_position_range(v.deltas, w, s, h - 1 - i);
    }
    assert forall|i: int| 0 <= i < h - 1 implies -1 <= #[trigger] v.path(s)[i] - v.path(s)[i + 1] <= 1 by {
        let y = h - 1 - i;
        lemma_swap_rows_fewer(v.deltas, w, h - 1, y - 1);
        lemma_swap_rows_fewer(v.deltas, w, h - 1, y);
        lemma_position_range(v.deltas, w, s, y - 1);
        lemma_position_range(v.deltas, w, s, y);
        let r = row_of(v.deltas, w, y - 1);
        lemma_row_len(v.deltas, w, h - 1, y - 1);
        assert(is_swap_row(r));
        let p = v.position(s, y - 1);
        assert(r[p] == 0 || r[p] == 1 || r[p] == -1);
    }
}

/// Seams that start at different columns never cross the same pixel.
pub proof fn lemma_paths_disjoint(v: SeamsView, s1: int, s2: int, i: int)
    requires
        v.wf(),
        0 <= s1 < v.width,
        0 <= s2 < v.width,
        s1 != s2,
        0 <= i < v.height,
    ensures
        v.path(s1)[i] != v.path(s2)[i],
{
    let w = v.width as int;
    let y = v.height - 1 - i;
    lemma_swap_rows_fewer(v.deltas, w, v.height - 1, y);
    lemma_position_range(v.deltas, w, s1, y);
    lemma_position_range(v.deltas, w, s2, y);
    if v.position(s1, y) == v.position(s2, y) {
        lemma_position_injective(v.deltas, w, s1, s2, y);
    }
}

/// The energy, in rows `0..=y` of a `w`-wide energy plane, of the pixels on
/// the path `p` (stored bottom row first, as in a [`VerticalSeam`]).
pub open spec fn path_sum(e: Seq<u16>, w: int, p: Seq<u32>, y: int) -> int
    decreases y + 1,
{
    if y < 0 {
        0
    } else {
        path_sum(e, w, p, y - 1) + plane_at(e, w, p[p.len() - 1 - y] as int, y)
    }
}

proof fn lemma_path_sum(e: Seq<u16>, v: SeamsView, s: int, y: int)
    requires
        v.wf(),
        0 <= s < v.width,
        -1 <= y < v.height,
    ensures
        v.path_energy(e, s, y) == path_sum(e, v.width as int, v.path(s), y),
    decreases y + 1,
{
    if y >= 0 {
        lemma_path_sum(e, v, s, y - 1);
        lemma_swap_rows_fewer(v.deltas, v.width as int, v.height - 1, y);
        lemma_position_range(v.deltas, v.width as int, s, y);
        assert(v.path(s)[v.path(s).len() - 1 - y] == v.position(s, y) as u32);
    }
}

/// Each seam's energy is the sum of the energies of the pixels on its path,
/// the path as [`VerticalSeams::get_seam`] and `to_vec` give it.
pub proof fn lemma_energy_along_path(e: Seq<u16>, v: SeamsView, s: int)
    requires
        v.wf(),
        seams_of_energy(e, v),
        0 <= s < v.width,
    ensures
        v.energies[s] == path_sum(e, v.width as int, v.path(s), v.height - 1),
{
    lemma_path_sum(e, v, s, v.height - 1);
}

/// Every move is `-1`, `0` or `+1`, and seams only move by trading places
/// with a neighbour: a `+1` at column `x` goes with a `-1` at `x + 1`, and a
/// `-1` with a `+1` at `x - 1`.
pub proof fn lemma_moves_are_swaps(v: SeamsView, y: int, x: int)
    requires
        v.wf(),
        0 <= y < v.height - 1,
        0 <= x < v.width,
    ensures
        ({
            let w = v.width as int;
            let d = v.deltas[y * w + x];
            &&& d == 0 || d == 1 || d == -1
            &&& d == 1 ==> x + 1 < w && v.deltas[y * w + x + 1] == -1
            &&& d == -1 ==> x >= 1 && v.deltas[y * w + x - 1] == 1
        }),
{
    let w = v.width as int;
    lemma_row_len(v.deltas, w, v.height - 1, y);
    let r = row_of(v.deltas, w, y);
    assert(is_swap_row(r));
    assert(r[x] == v.deltas[y * w + x]);
    if x + 1 < w {
        assert(r[x + 1] == v.deltas[y * w + x + 1]);
    }
    if x >= 1 {
        assert(r[x - 1] == v.deltas[y * w + x - 1]);
    }
}

/// The top-row column of the seam found at column `c` of row `y`, by following
/// the moves back up (a swap row undoes itself).
pub open spec fn seam_at(v: SeamsView, c: int, y: int) -> int
    decreases y,
{
    if y <= 0 {
        c
    } else {
        seam_at(v, c + row_of(v.deltas, v.width as int, y - 1)[c], y - 1)
    }
}

proof fn lemma_seam_at(v: SeamsView, c: int, y: int)
    requires
        v.wf(),
        0 <= c < v.width,
        0 <= y < v.height,
    ensures
        0 <= seam_at(v, c, y) < v.width,
        v.position(seam_at(v, c, y), y) == c,
    decreases y,
{
    if y > 0 {
        let w = v.width as int;
        let r = row_of(v.deltas, w, y - 1);
        lemma_swap_rows_fewer(v.deltas, w, v.height - 1, y);
        lemma_row_len(v.deltas, w, y, y - 1);
        assert(is_swap_row(r));
        lemma_swap_step(r, c);
        let q = c + r[c];
        lemma_seam_at(v, q, y - 1);
        let s = seam_at(v, q, y - 1);
        assert(v.position(s, y) == q + r[q]);
    }
}

/// Exactly one seam per column: in every row, each column is crossed by one
/// seam, and by no other.
pub proof fn lemma_one_seam_per_column(v: SeamsView, i: int, c: int)
    requires
        v.wf(),
        0 <= i < v.height,
        0 <= c < v.width,
    ensures
        exists|s: int| 0 <= s < v.width && #[trigger] v.path(s)[i] == c,
        forall|s1: int, s2: int|
            0 <= s1 < v.width && 0 <= s2 < v.width && #[trigger] v.path(s1)[i] == c && #[trigger] v.path(s2)[i] == c
                ==> s1 == s2,
{
    let y = v.height - 1 - i;
    lemma_seam_at(v, c, y);
    let s = seam_at(v, c, y);
    assert(v.path(s)[i] == v.position(s, y) as u32);
    assert(v.path(s)[i] == c);
    assert forall|s1: int, s2: int|
        0 <= s1 < v.width && 0 <= s2 < v.width && #[trigger] v.path(s1)[i] == c && #[trigger] v.path(s2)[i] == c
            implies s1 == s2 by {
        if s1 != s2 {
            lemma_paths_disjoint(v, s1, s2, i);
        }
    }
}

/// Asking for at least as many seams as there are gives all of them, in order.
pub proof fn lemma_lowest_all(e: Seq<u64>, count: int)
    requires
        count >= e.len(),
        e.len() <= usize::MAX,
    ensures
        lowest_seams(e, count) == Seq::new(e.len(), |i: int| i as usize),
{
    let all = Seq::new(e.len(), |i: int| i as usize);
    assert forall|i: int, j: int| 0 <= i < all.len() && 0 <= j < e.len() && !all.contains(j as usize)
        implies #[trigger] seam_before(e, all[i] as int, j) by {
        assert(all[j] == j as usize);
        assert(all.contains(all[j]));
    }
    assert forall|i: int| 0 <= i < all.len() implies #[trigger] all[i] < e.len() by {}
    assert(is_lowest_selection(e, count, all));
    lemma_lowest_selection_unique(e, count, all, lowest_seams(e, count));
}

/// The single lowest-energy seam has the least energy of all.
pub proof fn lemma_lowest_is_minimal(e: Seq<u64>, j: int)
    requires
        0 <= j < e.len(),
        e.len() <= usize::MAX,
    ensures
        lowest_seams(e, 1).len() == 1,
        lowest_seams(e, 1)[0] < e.len(),
        e[lowest_seams(e, 1)[0] as int] <= e[j],
{
    lemma_first_in_order(e, e.len() as int);
    let m = choose|m: int| #[trigger] first_in_order(e, e.len() as int, m);
    let r = seq![m as usize];
    assert forall|i: int, c: int| 0 <= i < r.len() && 0 <= c < e.len() && !r.contains(c as usize)
        implies #[trigger] seam_before(e, r[i] as int, c) by {
        if c == m {
            assert(r.contains(r[0]));
        }
    }
    assert(is_lowest_selection(e, 1, r));
    lemma_lowest_selection_unique(e, 1, r, lowest_seams(e, 1));
    if j != m {
        assert(seam_before(e, m, j));
    }
}

/// Column `m` comes first, in energy order, among the columns `0..n`.
pub open spec fn first_in_order(e: Seq<u64>, n: int, m: int) -> bool {
    &&& 0 <= m < n
    &&& forall|c: int| 0 <= c < n && c != m ==> #[trigger] seam_before(e, m, c)
}

/// Among the columns `0..n`, one comes first in energy order.
proof fn lemma_first_in_order(e: Seq<u64>, n: int)
    requires
        1 <= n <= e.len(),
    ensures
        exists|m: int| #[trigger] first_in_order(e, n, m),
    decreases n,
{
    if n == 1 {
        assert(first_in_order(e, 1, 0));
    } else {
        lemma_first_in_order(e, n - 1);
        let m = choose|m: int| #[trigger] first_in_order(e, n - 1, m);
        if seam_before(e, m, n - 1) {
            assert(first_in_order(e, n, m));
        } else {
            assert forall|c: int| 0 <= c < n && c != n - 1 implies #[trigger] seam_before(e, n - 1, c) by {
                if c != m {
                    assert(seam_before(e, m, c));
                }
            }
            assert(first_in_order(e, n, n - 1));
        }
    }
}

/// Calculate whether a cumulative energy (at most `max_energy()` per row)
/// of an image of `height` rows is sure to fit within `u32`.
pub fn m_fits_u32(height: usize) -> (r: bool)
    ensures
        r == (height <= u32::MAX / 510),
        r ==> max_energy() * height <= u32::MAX,
{
    (height as u128) <= (u32::MAX as u128) / (u8::MAX as u128 * 2)
}

/// Calculate whether the matching totals of an image of the given dimensions
/// are sure to fit within `u64`: `(2 * 255)^2 * width * (height / 2) * (height - height / 2)`
/// is at most `u64::MAX`.
pub fn dp_fits_u64(width: usize, height: usize) -> (r: bool)
    requires
        260100 * width * (height / 2) * (height - height / 2) <= u128::MAX,
    ensures
        r == (260100 * width * (height / 2) * (height - height / 2) <= u64::MAX),
{
    let h0 = (height / 2) as u128;
    let h1 = (height - height / 2) as u128;
    let step: u128 = u8::MAX as u128 * 2;
    assert(step == 510);
    let sq = step * step;
    proof {
        let (wi, a, b) = (width as int, h0 as int, h1 as int);
        assert(0 <= a <= b);
        lemma_dp_bound_steps(wi, a, b);
    }
    let bound = sq * (width as u128) * h0 * h1;
    bound <= u64::MAX as u128
}

} // verus!
