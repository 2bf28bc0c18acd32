//! The LCS core: the length of the longest common subsequence of two
//! sequences, the dynamic-programming table holding that length for every
//! pair of prefixes, and the backtracking traversal that turns the table into
//! an edit script.

use vstd::prelude::*;
use vstd::std_specs::cmp::PartialEqSpec;

use crate::edit::Edit;
use crate::edit::all_copies;
use crate::edit::copy_count;
use crate::edit::insert_count;
use crate::edit::lemma_all_copies;
use crate::edit::lemma_counts;
use crate::edit::lemma_push;
use crate::edit::lemma_reverse;
use crate::edit::remove_count;
use crate::edit::source_values;
use crate::edit::target_values;
use crate::put_back::PutBack;

verus! {

/// The element type's `==` decides exactly mathematical equality. Every
/// contract of this crate speaks of elements through this assumption; it
/// holds of the integer types, `bool`, and tuples and `Option`s of them.
pub open spec fn exact_eq<T: PartialEq>() -> bool {
    &&& T::obeys_eq_spec()
    &&& forall|a: T, b: T| #[trigger] a.eq_spec(&b) <==> a == b
}

/// The length of the longest common subsequence of `x` and `y`, by the
/// standard recurrence on the two last elements.
pub open spec fn lcs_len<T>(x: Seq<T>, y: Seq<T>) -> nat
    decreases x.len() + y.len(),
{
    if x.len() == 0 || y.len() == 0 {
        0
    } else if x.last() == y.last() {
        lcs_len(x.drop_last(), y.drop_last()) + 1
    } else {
        let skip_x = lcs_len(x.drop_last(), y);
        let skip_y = lcs_len(x, y.drop_last());
        if skip_x >= skip_y {
            skip_x
        } else {
            skip_y
        }
    }
}

/// One inner cell of the table follows from its three neighbours up and to
/// the left, by the recurrence of `lcs_len` read on prefixes.
pub proof fn lemma_lcs_step<T>(x: Seq<T>, y: Seq<T>, i: int, j: int)
    requires
        0 <= i < x.len(),
        0 <= j < y.len(),
    ensures
        lcs_len(x.take(i + 1), y.take(j + 1)) == if x[i] == y[j] {
            lcs_len(x.take(i), y.take(j)) + 1
        } else if lcs_len(x.take(i), y.take(j + 1)) >= lcs_len(x.take(i + 1), y.take(j)) {
            lcs_len(x.take(i), y.take(j + 1))
        } else {
            lcs_len(x.take(i + 1), y.take(j))
        },
{
    let a = x.take(i + 1);
    let b = y.take(j + 1);
    assert(a.last() == x[i]);
    assert(b.last() == y[j]);
    assert(a.drop_last() =~= x.take(i));
    assert(b.drop_last() =~= y.take(j));
}

/// The LCS length does not depend on the order of its two arguments.
pub proof fn lemma_lcs_len_symmetric<T>(x: Seq<T>, y: Seq<T>)
    ensures
        lcs_len(x, y) == lcs_len(y, x),
    decreases x.len() + y.len(),
{
    if x.len() == 0 || y.len() == 0 {
    } else if x.last() == y.last() {
        lemma_lcs_len_symmetric(x.drop_last(), y.drop_last());
    } else {
        lemma_lcs_len_symmetric(x.drop_last(), y);
        lemma_lcs_len_symmetric(x, y.drop_last());
    }
}

/// Dropping the last element of either sequence, or of both, never raises
/// the LCS length and lowers it by at most one.
pub proof fn lemma_lcs_len_step_bounds<T>(x: Seq<T>, y: Seq<T>)
    ensures
        x.len() > 0 ==> lcs_len(x.drop_last(), y) <= lcs_len(x, y) <= lcs_len(x.drop_last(), y)
            + 1,
        y.len() > 0 ==> lcs_len(x, y.drop_last()) <= lcs_len(x, y) <= lcs_len(x, y.drop_last())
            + 1,
        x.len() > 0 && y.len() > 0 ==> lcs_len(x.drop_last(), y.drop_last()) <= lcs_len(x, y)
            <= lcs_len(x.drop_last(), y.drop_last()) + 1,
    decreases x.len() + y.len(),
{
    if x.len() > 0 && y.len() > 0 {
        lemma_lcs_len_step_bounds(x.drop_last(), y);
        lemma_lcs_len_step_bounds(x, y.drop_last());
    }
}

/// A common subsequence is no longer than either sequence.
pub proof fn lemma_lcs_len_le<T>(x: Seq<T>, y: Seq<T>)
    ensures
        lcs_len(x, y) <= x.len(),
        lcs_len(x, y) <= y.len(),
    decreases x.len() + y.len(),
{
    if x.len() == 0 || y.len() == 0 {
    } else if x.last() == y.last() {
        lemma_lcs_len_le(x.drop_last(), y.drop_last());
    } else {
        lemma_lcs_len_le(x.drop_last(), y);
        lemma_lcs_len_le(x, y.drop_last());
    }
}

/// The dynamic-programming table of LCS lengths for two sequences: cell
/// `(i, j)` holds the LCS length of the first `i` elements of `x` and the
/// first `j` elements of `y`. Built once by [`Lcs::new`], immutable
/// thereafter, read back by the two traversal entry points.
pub struct Lcs<T> {
    storage: Vec<Vec<usize>>,
    width: usize,
    height: usize,
    xs: Ghost<Seq<T>>,
    ys: Ghost<Seq<T>>,
}

impl<T> Lcs<T> {
    /// The sequence the table's rows were built from.
    pub closed spec fn x_elems(self) -> Seq<T> {
        self.xs@
    }

    /// The sequence the table's columns were built from.
    pub closed spec fn y_elems(self) -> Seq<T> {
        self.ys@
    }

    /// The value of cell `(i, j)`.
    pub closed spec fn cell(self, i: int, j: int) -> nat {
        self.storage@[i]@[j] as nat
    }

    /// The table is rectangular, of dimensions `(x_len + 1) x (y_len + 1)`,
    /// and every cell holds the LCS length of the prefixes it stands for.
    pub closed spec fn wf(self) -> bool {
        &&& self.width == self.xs@.len() + 1
        &&& self.height == self.ys@.len() + 1
        &&& self.storage@.len() == self.width
        &&& (forall|i: int|
            0 <= i < self.storage@.len() ==> (#[trigger] self.storage@[i])@.len() == self.height)
        &&& (forall|i: int, j: int|
            0 <= i <= self.xs@.len() && 0 <= j <= self.ys@.len() ==> (#[trigger] self.storage@[i]@[j])
                == lcs_len(self.xs@.take(i), self.ys@.take(j)))
    }

    /// Every cell of a well-formed table is the LCS length of two prefixes.
    pub proof fn lemma_cell_value(self, i: int, j: int)
        requires
            self.wf(),
            0 <= i <= self.x_elems().len(),
            0 <= j <= self.y_elems().len(),
        ensures
            self.cell(i, j) == lcs_len(self.x_elems().take(i), self.y_elems().take(j)),
    {
    }

    /// The table's invariants: row and column zero are zero, and the values
    /// never decrease moving right, down or along the diagonal, growing by at
    /// most one per step.
    pub proof fn lemma_table_invariants(self, i: int, j: int)
        requires
            self.wf(),
            0 <= i <= self.x_elems().len(),
            0 <= j <= self.y_elems().len(),
        ensures
            i == 0 || j == 0 ==> self.cell(i, j) == 0,
            i > 0 ==> self.cell(i - 1, j) <= self.cell(i, j) <= self.cell(i - 1, j) + 1,
            j > 0 ==> self.cell(i, j - 1) <= self.cell(i, j) <= self.cell(i, j - 1) + 1,
            i > 0 && j > 0 ==> self.cell(i - 1, j - 1) <= self.cell(i, j) <= self.cell(
                i - 1,
                j - 1,
            ) + 1,
    {
        let a = self.x_elems().take(i);
        let b = self.y_elems().take(j);
        if i == 0 || j == 0 {
            assert(a.len() == 0 || b.len() == 0);
        }
        lemma_lcs_len_step_bounds(a, b);
        if i > 0 {
            assert(a.drop_last() =~= self.x_elems().take(i - 1));
        }
        if j > 0 {
            assert(b.drop_last() =~= self.y_elems().take(j - 1));
        }
    }
}

/// A copy of the vector with its elements in reverse order.
fn reversed<T: Copy>(v: &Vec<T>) -> (r: Vec<T>)
    ensures
        r@ == v@.reverse(),
{
    let mut r: Vec<T> = Vec::new();
    let mut k: usize = 0;
    while k < v.len()
        invariant
            k <= v@.len(),
            r@.len() == k,
            forall|m: int| 0 <= m < k ==> (#[trigger] r@[m]) == v@[v@.len() - 1 - m],
        decreases v@.len() - k,
    {
        r.push(v[v.len() - 1 - k]);
        k = k + 1;
    }
    proof {
        assert(r@ =~= v@.reverse());
    }
    r
}

/// A copy of the vector in its given order.
fn copied<T: Copy>(v: &Vec<T>) -> (r: Vec<T>)
    ensures
        r@ == v@,
{
    let mut r: Vec<T> = Vec::new();
    let mut k: usize = 0;
    while k < v.len()
        invariant
            k <= v@.len(),
            r@.len() == k,
            forall|m: int| 0 <= m < k ==> (#[trigger] r@[m]) == v@[m],
        decreases v@.len() - k,
    {
        r.push(v[k]);
        k = k + 1;
    }
    proof {
        assert(r@ =~= v@);
    }
    r
}

impl<T: Eq + Copy> Lcs<T> {
    /// Reads cell `(i, j)` of the table.
    fn cell_at(&self, i: usize, j: usize) -> (r: usize)
        requires
            self.wf(),
            i <= self.x_elems().len(),
            j <= self.y_elems().len(),
        ensures
            r == self.cell(i as int, j as int),
            r == lcs_len(self.x_elems().take(i as int), self.y_elems().take(j as int)),
    {
        let row: &Vec<usize> = &self.storage[i];
        row[j]
    }

    /// Builds the table for `x` and `y` by the LCS recurrence, row by row:
    /// row and column zero are zero, and each inner cell is one more than the
    /// diagonal neighbour on a match, else the larger of the cells above and
    /// to the left.
    pub fn new(x: &Vec<T>, y: &Vec<T>) -> (r: Self)
        requires
            exact_eq::<T>(),
            x@.len() < usize::MAX,
            y@.len() < usize::MAX,
        ensures
            r.wf(),
            r.x_elems() == x@,
            r.y_elems() == y@,
    {
        let width = x.len() + 1;
        let height = y.len() + 1;
        let mut storage: Vec<Vec<usize>> = Vec::new();

        let mut first: Vec<usize> = Vec::new();
        while first.len() < height
            invariant
                first@.len() <= height,
                forall|j: int| 0 <= j < first@.len() ==> (#[trigger] first@[j]) == 0,
            decreases height - first@.len(),
        {
            first.push(0);
        }
        proof {
            assert forall|j: int| 0 <= j <= y@.len() implies lcs_len(x@.take(0), y@.take(j)) == 0
            by {
                assert(x@.take(0).len() == 0);
            }
        }
        let mut prev: Vec<usize> = first;
        let mut i: usize = 0;
        while i < x.len()
            invariant
                exact_eq::<T>(),
                x@.len() < usize::MAX,
                y@.len() < usize::MAX,
                width == x@.len() + 1,
                height == y@.len() + 1,
                i <= x@.len(),
                storage@.len() == i,
                prev@.len() == height,
                forall|j: int|
                    0 <= j <= y@.len() ==> (#[trigger] prev@[j]) == lcs_len(
                        x@.take(i as int),
                        y@.take(j),
                    ),
                forall|r: int|
                    0 <= r < storage@.len() ==> (#[trigger] storage@[r])@.len() == height,
                forall|r: int, j: int|
                    0 <= r < storage@.len() && 0 <= j <= y@.len() ==> (#[trigger] storage@[r]@[j])
                        == lcs_len(x@.take(r), y@.take(j)),
            decreases x@.len() - i,
        {
            let mut row: Vec<usize> = Vec::new();
            row.push(0);
            proof {
                assert(x@.take(i + 1).len() > 0);
                assert(lcs_len(x@.take(i + 1), y@.take(0)) == 0);
            }
            let mut j: usize = 0;
            while j < y.len()
                invariant
                    exact_eq::<T>(),
                    y@.len() < usize::MAX,
                    i < x@.len(),
                    j <= y@.len(),
                    height == y@.len() + 1,
                    prev@.len() == height,
                    forall|k: int|
                        0 <= k <= y@.len() ==> (#[trigger] prev@[k]) == lcs_len(
                            x@.take(i as int),
                            y@.take(k),
                        ),
                    row@.len() == j + 1,
                    forall|k: int|
                        0 <= k <= j ==> (#[trigger] row@[k]) == lcs_len(
                            x@.take(i + 1),
                            y@.take(k),
                        ),
                decreases y@.len() - j,
            {
                let xi = x[i];
                let yj = y[j];
                proof {
                    lemma_lcs_step(x@, y@, i as int, j as int);
                    lemma_lcs_len_le(x@.take(i as int), y@.take(j as int));
                }
                let v: usize = if xi == yj {
                    prev[j] + 1
                } else {
                    let above = prev[j + 1];
                    let left = row[j];
                    if left >= above {
                        left
                    } else {
                        above
                    }
                };
                row.push(v);
                j = j + 1;
            }
            storage.push(prev);
            prev = row;
            i = i + 1;
        }
        storage.push(prev);

        let r = Lcs { storage, width, height, xs: Ghost(x@), ys: Ghost(y@) };
        proof {
            assert(r.wf());
        }
        r
    }

    /// The backtracking traversal. The cursor `(i, j)` descends from the
    /// table's final cell; the two adapters yield the elements back to front
    /// (ordered mode) or in their given order read as if it were back to
    /// front (unordered mode). Edits come out rightmost first and are
    /// reversed at the end into forward order.
    #[verifier::rlimit(60)]
    fn diff_impl(&self, x: PutBack<T>, y: PutBack<T>, i: usize, j: usize) -> (r: (Vec<Edit<T>>, bool))
        requires
            exact_eq::<T>(),
            self.wf(),
            x.wf(),
            y.wf(),
            i == x.remaining().len(),
            j == y.remaining().len(),
            x.remaining().len() == self.x_elems().len(),
            y.remaining().len() == self.y_elems().len(),
        ensures
            target_values(r.0@) == y.remaining().reverse(),
            source_values(r.0@) == x.remaining().reverse(),
            r.1 <==> !all_copies(r.0@),
            all_copies(r.0@) <==> x.remaining() == y.remaining(),
            x.remaining() == self.x_elems().reverse() && y.remaining()
                == self.y_elems().reverse() ==> copy_count(r.0@) == lcs_len(
                self.x_elems(),
                self.y_elems(),
            ),
    {
        let mut x = x;
        let mut y = y;
        let mut i = i;
        let mut j = j;
        let ghost rx0 = x.remaining();
        let ghost ry0 = y.remaining();
        let ghost ordered = rx0 == self.x_elems().reverse() && ry0 == self.y_elems().reverse();
        let mut backward: Vec<Edit<T>> = Vec::new();
        let mut modified = false;
        proof {
            assert(x.remaining() =~= rx0.skip(rx0.len() - i));
            assert(y.remaining() =~= ry0.skip(ry0.len() - j));
            assert(source_values(backward@) =~= rx0.take(rx0.len() - i));
            assert(target_values(backward@) =~= ry0.take(ry0.len() - j));
            if ordered {
                assert(x.remaining() == self.x_elems().take(i as int).reverse()) by {
                    assert(self.x_elems().take(i as int) =~= self.x_elems());
                }
                assert(y.remaining() == self.y_elems().take(j as int).reverse()) by {
                    assert(self.y_elems().take(j as int) =~= self.y_elems());
                }
            }
        }
        loop
            invariant
                exact_eq::<T>(),
                self.wf(),
                x.wf(),
                y.wf(),
                i == x.remaining().len(),
                j == y.remaining().len(),
                i <= self.x_elems().len(),
                j <= self.y_elems().len(),
                rx0.len() == self.x_elems().len(),
                ry0.len() == self.y_elems().len(),
                x.remaining() == rx0.skip(rx0.len() - i),
                y.remaining() == ry0.skip(ry0.len() - j),
                source_values(backward@) == rx0.take(rx0.len() - i),
                target_values(backward@) == ry0.take(ry0.len() - j),
                modified <==> !all_copies(backward@),
                rx0 == ry0 ==> x.remaining() == y.remaining() && all_copies(backward@),
                ordered ==> x.remaining() == self.x_elems().take(i as int).reverse(),
                ordered ==> y.remaining() == self.y_elems().take(j as int).reverse(),
                ordered ==> copy_count(backward@) + lcs_len(
                    self.x_elems().take(i as int),
                    self.y_elems().take(j as int),
                ) == lcs_len(self.x_elems(), self.y_elems()),
            ensures
                source_values(backward@) == rx0,
                target_values(backward@) == ry0,
                modified <==> !all_copies(backward@),
                rx0 == ry0 ==> all_copies(backward@),
                ordered ==> copy_count(backward@) == lcs_len(self.x_elems(), self.y_elems()),
            decreases i + j,
        {
            let ghost xr_pre = x.remaining();
            let ghost yr_pre = y.remaining();
            let ghost kx = rx0.len() - i;
            let ghost ky = ry0.len() - j;
            let current_x = x.next();
            let current_y = y.next();
            match (current_x, current_y) {
                (Some(vx), Some(vy)) => {
                    proof {
                        assert(vx == rx0[kx]);
                        assert(vy == ry0[ky]);
                    }
                    if vx == vy {
                        let ghost b0 = backward@;
                        backward.push(Edit::Copy(vx));
                        i = i - 1;
                        j = j - 1;
                        proof {
                            lemma_push(b0, Edit::Copy(vx));
                            assert(x.remaining() =~= rx0.skip(rx0.len() - i));
                            assert(y.remaining() =~= ry0.skip(ry0.len() - j));
                            assert(source_values(backward@) =~= rx0.take(rx0.len() - i));
                            assert(target_values(backward@) =~= ry0.take(ry0.len() - j));
                            if ordered {
                                assert(vx == self.x_elems()[i as int]);
                                assert(vy == self.y_elems()[j as int]);
                                lemma_lcs_step(self.x_elems(), self.y_elems(), i as int, j as int);
                                assert(x.remaining() =~= self.x_elems().take(i as int).reverse());
                                assert(y.remaining() =~= self.y_elems().take(j as int).reverse());
                            }
                        }
                    } else {
                        let left = self.cell_at(i, j - 1);
                        let above = self.cell_at(i - 1, j);
                        if left >= above {
                            x.put_back(vx);
                            let ghost b0 = backward@;
                            backward.push(Edit::Insert(vy));
                            modified = true;
                            j = j - 1;
                            proof {
                                lemma_push(b0, Edit::Insert(vy));
                                assert(x.remaining() =~= xr_pre);
                                assert(y.remaining() =~= ry0.skip(ry0.len() - j));
                                assert(source_values(backward@) =~= rx0.take(rx0.len() - i));
                                assert(target_values(backward@) =~= ry0.take(ry0.len() - j));
                                if ordered {
                                    assert(vx == self.x_elems()[i - 1]);
                                    assert(vy == self.y_elems()[j as int]);
                                    lemma_lcs_step(
                                        self.x_elems(),
                                        self.y_elems(),
                                        i - 1,
                                        j as int,
                                    );
                                    assert(y.remaining() =~= self.y_elems().take(
                                        j as int,
                                    ).reverse());
                                }
                            }
                        } else {
                            y.put_back(vy);
                            let ghost b0 = backward@;
                            backward.push(Edit::Remove(vx));
                            modified = true;
                            i = i - 1;
                            proof {
                                lemma_push(b0, Edit::Remove(vx));
                                assert(y.remaining() =~= yr_pre);
                                assert(x.remaining() =~= rx0.skip(rx0.len() - i));
                                assert(source_values(backward@) =~= rx0.take(rx0.len() - i));
                                assert(target_values(backward@) =~= ry0.take(ry0.len() - j));
                                if ordered {
                                    assert(vx == self.x_elems()[i as int]);
                                    assert(vy == self.y_elems()[j - 1]);
                                    lemma_lcs_step(
                                        self.x_elems(),
                                        self.y_elems(),
                                        i as int,
                                        j - 1,
                                    );
                                    assert(x.remaining() =~= self.x_elems().take(
                                        i as int,
                                    ).reverse());
                                }
                            }
                        }
                    }
                },
                (None, Some(vy)) => {
                    let ghost b0 = backward@;
                    backward.push(Edit::Insert(vy));
                    modified = true;
                    j = j - 1;
                    proof {
                        assert(vy == ry0[ky]);
                        lemma_push(b0, Edit::Insert(vy));
                        assert(y.remaining() =~= ry0.skip(ry0.len() - j));
                        assert(source_values(backward@) =~= rx0.take(rx0.len() - i));
                        assert(target_values(backward@) =~= ry0.take(ry0.len() - j));
                        if ordered {
                            assert(lcs_len(self.x_elems().take(i as int), self.y_elems().take(j + 1))
                                == 0) by {
                                assert(self.x_elems().take(i as int).len() == 0);
                            }
                            assert(lcs_len(self.x_elems().take(i as int), self.y_elems().take(j as int))
                                == 0) by {
                                assert(self.x_elems().take(i as int).len() == 0);
                            }
                            assert(y.remaining() =~= self.y_elems().take(j as int).reverse());
                        }
                    }
                },
                (Some(vx), None) => {
                    let ghost b0 = backward@;
                    backward.push(Edit::Remove(vx));
                    modified = true;
                    i = i - 1;
                    proof {
                        assert(vx == rx0[kx]);
                        lemma_push(b0, Edit::Remove(vx));
                        assert(x.remaining() =~= rx0.skip(rx0.len() - i));
                        assert(source_values(backward@) =~= rx0.take(rx0.len() - i));
                        assert(target_values(backward@) =~= ry0.take(ry0.len() - j));
                        if ordered {
                            assert(lcs_len(self.x_elems().take(i + 1), self.y_elems().take(j as int))
                                == 0) by {
                                assert(self.y_elems().take(j as int).len() == 0);
                            }
                            assert(lcs_len(self.x_elems().take(i as int), self.y_elems().take(j as int))
                                == 0) by {
                                assert(self.y_elems().take(j as int).len() == 0);
                            }
                            assert(x.remaining() =~= self.x_elems().take(i as int).reverse());
                        }
                    }
                },
                (None, None) => {
                    proof {
                        assert(rx0.take(rx0.len() - i) =~= rx0);
                        assert(ry0.take(ry0.len() - j) =~= ry0);
                        if ordered {
                            assert(lcs_len(
                                self.x_elems().take(i as int),
                                self.y_elems().take(j as int),
                            ) == 0) by {
                                assert(self.x_elems().take(i as int).len() == 0);
                            }
                        }
                    }
                    break;
                },
            }
        }
        proof {
            if all_copies(backward@) {
                lemma_all_copies(backward@);
            }
        }
        let forward = reversed(&backward);
        proof {
            lemma_reverse(backward@);
        }
        (forward, modified)
    }

    /// Ordered mode: walks both sequences from their ends, so the cursor's
    /// descent from `(x_len, y_len)` to `(0, 0)` meets the elements in step.
    /// Returns the edit script in forward order and a flag saying whether any
    /// edit is an `Insert` or a `Remove`.
    ///
    /// The script rebuilds `y` when its `Remove` edits are dropped and `x`
    /// when its `Insert` edits are dropped; it is all-`Copy` exactly when
    /// `x == y`, and its `Copy` edits are exactly as many as the LCS of the
    /// two sequences is long — the table's final cell.
    pub fn diff(&self, x: &Vec<T>, y: &Vec<T>) -> (r: (Vec<Edit<T>>, bool))
        requires
            exact_eq::<T>(),
            self.wf(),
            x@ == self.x_elems(),
            y@ == self.y_elems(),
        ensures
            target_values(r.0@) == y@,
            source_values(r.0@) == x@,
            r.1 <==> !all_copies(r.0@),
            all_copies(r.0@) <==> x@ == y@,
            copy_count(r.0@) == lcs_len(x@, y@),
            copy_count(r.0@) == self.cell(x@.len() as int, y@.len() as int),
            r.0@.len() + copy_count(r.0@) == x@.len() + y@.len(),
            x@ == y@ ==> r.1 == false && r.0@.len() == x@.len(),
    {
        let px = PutBack::new(reversed(x));
        let py = PutBack::new(reversed(y));
        let (edits, modified) = self.diff_impl(px, py, self.width - 1, self.height - 1);
        proof {
            assert(y@.reverse().reverse() =~= y@);
            assert(x@.reverse().reverse() =~= x@);
            if x@.reverse() == y@.reverse() {
                assert(x@ =~= y@);
            }
            lemma_counts(edits@);
            self.lemma_cell_value(x@.len() as int, y@.len() as int);
            assert(self.x_elems().take(x@.len() as int) =~= x@);
            assert(self.y_elems().take(y@.len() as int) =~= y@);
            if x@ == y@ {
                lemma_all_copies(edits@);
                lemma_lcs_len_le(x@, y@);
            }
        }
        (edits, modified)
    }

    /// Unordered mode, for collections without a meaningful direction: walks
    /// both sequences in their given iteration order and reads that order as
    /// if it were back to front. The script therefore rebuilds the reversed
    /// iteration orders — element identity, not position, is what matters
    /// for such collections — and as multisets it rebuilds `y` and `x`
    /// exactly. It is all-`Copy` exactly when the two iteration orders agree
    /// elementwise.
    pub fn diff_unordered(&self, x: &Vec<T>, y: &Vec<T>) -> (r: (Vec<Edit<T>>, bool))
        requires
            exact_eq::<T>(),
            self.wf(),
            x@ == self.x_elems(),
            y@ == self.y_elems(),
        ensures
            target_values(r.0@) == y@.reverse(),
            source_values(r.0@) == x@.reverse(),
            target_values(r.0@).to_multiset() == y@.to_multiset(),
            source_values(r.0@).to_multiset() == x@.to_multiset(),
            r.1 <==> !all_copies(r.0@),
            all_copies(r.0@) <==> x@ == y@,
            r.0@.len() + copy_count(r.0@) == x@.len() + y@.len(),
            x@ == y@ ==> r.1 == false && r.0@.len() == x@.len(),
    {
        let px = PutBack::new(copied(x));
        let py = PutBack::new(copied(y));
        let (edits, modified) = self.diff_impl(px, py, self.width - 1, self.height - 1);
        proof {
            lemma_counts(edits@);
            y@.lemma_reverse_to_multiset();
            x@.lemma_reverse_to_multiset();
            if x@ == y@ {
                lemma_all_copies(edits@);
            }
        }
        (edits, modified)
    }
}

/// Swapping the two sequences swaps the number of `Insert` and `Remove`
/// edits and keeps the number of `Copy` edits: stated of any two scripts
/// that meet the ordered-mode contract for `(x, y)` and `(y, x)`. The edits
/// themselves need not mirror each other one for one, because ties in the
/// table are always resolved in favour of `Insert`.
pub proof fn lemma_swap_edit_counts<T>(x: Seq<T>, y: Seq<T>, xy: Seq<Edit<T>>, yx: Seq<Edit<T>>)
    requires
        target_values(xy) == y,
        source_values(xy) == x,
        copy_count(xy) == lcs_len(x, y),
        target_values(yx) == x,
        source_values(yx) == y,
        copy_count(yx) == lcs_len(y, x),
    ensures
        copy_count(yx) == copy_count(xy),
        insert_count(yx) == remove_count(xy),
        remove_count(yx) == insert_count(xy),
{
    lemma_lcs_len_symmetric(x, y);
    lemma_counts(xy);
    lemma_counts(yx);
}

} // verus!
