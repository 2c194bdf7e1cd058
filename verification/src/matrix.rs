//! A sparse square matrix of exact rational entries: each row stores only
//! its nonzero numerators, and one shared denominator for the whole row.
//! While the matrix is being built all denominators are 1, so the entries
//! are plain counts; row-normalization then sets each row's denominator to
//! its diagonal count.
use vstd::prelude::*;

verus! {

/// One stored cell of a row: the column and the entry's numerator.
#[derive(Clone, Copy)]
pub struct MatEntry {
    pub col: usize,
    pub num: u64,
}

/// A row: its stored cells and the denominator shared by all of them.
pub struct MatRow {
    pub den: u64,
    pub entries: Vec<MatEntry>,
}

/// A sparse `n` by `n` matrix of rationals `num / den`, with one
/// denominator per row; absent cells are zero.
pub struct SparseMatrix {
    pub n: usize,
    pub rows: Vec<MatRow>,
}

/// The numerator stored for column `j`, or zero when no cell has column `j`.
pub open spec fn row_num(es: Seq<MatEntry>, j: int) -> int
    decreases es.len(),
{
    if es.len() == 0 {
        0
    } else if es.last().col == j {
        es.last().num as int
    } else {
        row_num(es.drop_last(), j)
    }
}

/// No two cells of the row name the same column, and every stored
/// numerator is positive.
pub open spec fn row_entries_wf(es: Seq<MatEntry>, n: int) -> bool {
    &&& forall|k1: int, k2: int|
        0 <= k1 < k2 < es.len() ==> (#[trigger] es[k1]).col != (#[trigger] es[k2]).col
    &&& forall|k: int| 0 <= k < es.len() ==> (#[trigger] es[k]).num >= 1 && es[k].col < n
}

/// A stored cell makes the looked-up numerator of its column positive.
proof fn lemma_row_num_positive(es: Seq<MatEntry>, k: int, j: int)
    requires
        0 <= k < es.len(),
        es[k].col == j,
        forall|k2: int| 0 <= k2 < es.len() ==> (#[trigger] es[k2]).num >= 1,
    ensures
        row_num(es, j) >= 1,
    decreases es.len(),
{
    if es.last().col == j {
    } else {
        assert(es.drop_last()[k] == es[k]);
        lemma_row_num_positive(es.drop_last(), k, j);
    }
}

/// Updating the cell at position `k` (keeping its column) changes the
/// looked-up numerator of that column alone.
proof fn lemma_row_num_update(es: Seq<MatEntry>, k: int, e: MatEntry, jq: int)
    requires
        0 <= k < es.len(),
        forall|k1: int, k2: int|
            0 <= k1 < k2 < es.len() ==> (#[trigger] es[k1]).col != (#[trigger] es[k2]).col,
        e.col == es[k].col,
    ensures
        row_num(es.update(k, e), jq) == if jq == e.col as int {
            e.num as int
        } else {
            row_num(es, jq)
        },
    decreases es.len(),
{
    let up = es.update(k, e);
    if k == es.len() - 1 {
        assert(up.last() == e);
        assert(up.drop_last() =~= es.drop_last());
    } else {
        assert(up.last() == es.last());
        assert(up.drop_last() =~= es.drop_last().update(k, e));
        assert(forall|k1: int|
            0 <= k1 < es.drop_last().len() ==> #[trigger] es.drop_last()[k1] == es[k1]);
        lemma_row_num_update(es.drop_last(), k, e, jq);
        assert(es.last().col != e.col);
    }
}

impl SparseMatrix {
    /// The numerator of cell `(i, j)`.
    pub open spec fn num_at(self, i: int, j: int) -> int {
        if 0 <= i < self.rows.len() {
            row_num(self.rows[i].entries@, j)
        } else {
            0
        }
    }

    /// The denominator of every cell of row `i`.
    pub open spec fn den_at(self, i: int) -> int {
        if 0 <= i < self.rows.len() {
            self.rows[i].den as int
        } else {
            1
        }
    }

    /// Shape and row invariants: `n` rows, positive denominators, in-range
    /// and pairwise distinct columns, positive stored numerators.
    pub open spec fn wf(self) -> bool {
        &&& self.rows.len() == self.n
        &&& forall|i: int| 0 <= i < self.rows.len() ==> (#[trigger] self.rows[i]).den >= 1
        &&& forall|i: int|
            0 <= i < self.rows.len() ==> row_entries_wf(
                (#[trigger] self.rows[i]).entries@,
                self.n as int,
            )
    }

    /// The numerators are symmetric in the two indices.
    pub open spec fn symmetric(self) -> bool {
        forall|i: int, j: int| #[trigger] self.num_at(i, j) == self.num_at(j, i)
    }

    /// The all-zero matrix with `n` rows, every denominator 1.
    #[verifier::loop_isolation(false)]
    pub fn zero(n: usize) -> (r: SparseMatrix)
        ensures
            r.wf(),
            r.n == n,
            forall|i: int, j: int| r.num_at(i, j) == 0,
            forall|i: int| r.den_at(i) == 1,
            r.symmetric(),
    {
        let mut rows: Vec<MatRow> = Vec::new();
        let mut i: usize = 0;
        while i < n
            invariant
                i <= n,
                rows@.len() == i,
                forall|k: int|
                    0 <= k < i ==> (#[trigger] rows@[k]).den == 1 && rows@[k].entries@.len() == 0,
            decreases n - i,
        {
            rows.push(MatRow { den: 1, entries: Vec::new() });
            i = i + 1;
        }
        SparseMatrix { n, rows }
    }

    /// Adds one to the numerator of cell `(i, j)`, creating the cell if it
    /// is absent. Returns `false`, changing nothing, if the count is
    /// already at the machine limit.
    #[verifier::loop_isolation(false)]
    pub fn bump(&mut self, i: usize, j: usize) -> (ok: bool)
        requires
            old(self).wf(),
            i < old(self).n,
            j < old(self).n,
        ensures
            final(self).wf(),
            final(self).n == old(self).n,
            forall|r: int| final(self).den_at(r) == old(self).den_at(r),
            ok ==> final(self).num_at(i as int, j as int) == old(self).num_at(i as int, j as int)
                + 1,
            ok ==> forall|r: int, c: int|
                !(r == i as int && c == j as int) ==> #[trigger] final(self).num_at(r, c) == old(
                self,
            ).num_at(r, c),
            !ok ==> *final(self) == *old(self) && old(self).num_at(i as int, j as int)
                == u64::MAX,
    {
        let ghost es0 = self.rows@[i as int].entries@;
        proof {
            assert(row_entries_wf(old(self).rows@[i as int].entries@, old(self).n as int));
            assert(es0.take(es0.len() as int) =~= es0);
        }
        let mut k: usize = self.rows[i].entries.len();
        while k > 0
            invariant
                *self == *old(self),
                k <= es0.len(),
                i < self.rows@.len(),
                es0 == self.rows@[i as int].entries@,
                row_num(es0, j as int) == row_num(es0.take(k as int), j as int),
            decreases k,
        {
            k = k - 1;
            proof {
                assert(es0.take(k + 1).drop_last() =~= es0.take(k as int));
                assert(es0.take(k + 1).last() == es0[k as int]);
                if es0[k as int].col == j {
                    assert(row_num(es0.take(k + 1), j as int) == es0[k as int].num);
                } else {
                    assert(row_num(es0.take(k + 1), j as int) == row_num(
                        es0.take(k as int),
                        j as int,
                    ));
                }
            }
            if self.rows[i].entries[k].col == j {
                let cur = self.rows[i].entries[k].num;
                if cur == u64::MAX {
                    return false;
                }
                let ghost rows0 = self.rows@;
                let e = MatEntry { col: j, num: cur + 1 };
                self.rows[i].entries[k] = e;
                proof {
                    assert(self.rows@[i as int].entries@ =~= es0.update(k as int, e));
                    assert(row_num(es0, j as int) == cur) by {
                        lemma_row_num_update(es0, k as int, es0[k as int], j as int);
                        assert(es0.update(k as int, es0[k as int]) =~= es0);
                    }
                    assert forall|jq: int| true implies #[trigger] row_num(
                        es0.update(k as int, e),
                        jq,
                    ) == if jq == j as int {
                        cur + 1
                    } else {
                        row_num(es0, jq)
                    } by {
                        lemma_row_num_update(es0, k as int, e, jq);
                    }
                    assert(forall|r: int|
                        r != i as int && 0 <= r < self.rows@.len() ==> #[trigger] self.rows@[r]
                            == rows0[r]);
                    assert(self.n == old(self).n);
                    assert(row_entries_wf(self.rows@[i as int].entries@, self.n as int)) by {
                        assert(forall|k1: int|
                            0 <= k1 < es0.len() && k1 != k as int ==> #[trigger] self.rows@[
                            i as int].entries@[k1] == es0[k1]);
                        assert(self.rows@[i as int].entries@[k as int] == e);
                        assert(es0[k as int].col == j);
                    }
                }
                return true;
            }
        }
        // No cell of this row names column `j`, so its numerator reads zero.
        proof {
            assert(es0.take(0) =~= Seq::<MatEntry>::empty());
            assert forall|k1: int| 0 <= k1 < es0.len() implies (#[trigger] es0[k1]).col != j by {
                if es0[k1].col == j {
                    lemma_row_num_positive(es0, k1, j as int);
                }
            }
        }
        let ghost rows0 = self.rows@;
        let e = MatEntry { col: j, num: 1 };
        self.rows[i].entries.push(e);
        proof {
            assert(self.rows@[i as int].entries@ =~= es0.push(e));
            assert(forall|r: int|
                r != i as int && 0 <= r < self.rows@.len() ==> #[trigger] self.rows@[r] == rows0[
                r]);
            assert(self.n == old(self).n);
            assert(row_entries_wf(self.rows@[i as int].entries@, self.n as int)) by {
                assert(forall|k1: int|
                    0 <= k1 < es0.len() ==> #[trigger] self.rows@[i as int].entries@[k1] == es0[
                    k1]);
                assert(self.rows@[i as int].entries@[es0.len() as int] == e);
            }
            assert(es0.push(e).drop_last() =~= es0);
        }
        true
    }

    /// Sets each row's denominator to its diagonal numerator, where that
    /// numerator is positive; rows with a zero diagonal are left unchanged.
    #[verifier::loop_isolation(false)]
    pub fn scale_rows_by_diagonal(&mut self)
        requires
            old(self).wf(),
        ensures
            final(self).wf(),
            final(self).n == old(self).n,
            forall|r: int, c: int| final(self).num_at(r, c) == old(self).num_at(r, c),
            forall|r: int|
                0 <= r < old(self).n ==> final(self).den_at(r) == if old(self).num_at(r, r) > 0 {
                    old(self).num_at(r, r)
                } else {
                    old(self).den_at(r)
                },
    {
        let n = self.rows.len();
        let mut i: usize = 0;
        while i < n
            invariant
                i <= n,
                n == self.rows@.len(),
                self.wf(),
                self.n == old(self).n,
                n == old(self).n,
                forall|r: int, c: int| self.num_at(r, c) == old(self).num_at(r, c),
                forall|r: int| i <= r < n ==> #[trigger] self.den_at(r) == old(self).den_at(r),
                forall|r: int|
                    0 <= r < i ==> #[trigger] self.den_at(r) == if old(self).num_at(r, r) > 0 {
                        old(self).num_at(r, r)
                    } else {
                        old(self).den_at(r)
                    },
            decreases n - i,
        {
            let ghost pre = *self;
            let d = row_lookup(&self.rows[i], i);
            if d > 0 {
                self.rows[i].den = d;
                proof {
                    assert(forall|r: int|
                        r != i as int && 0 <= r < pre.rows@.len() ==> #[trigger] self.rows@[r]
                            == pre.rows@[r]);
                    assert(self.rows@[i as int].entries@ == pre.rows@[i as int].entries@);
                    assert(self.rows@[i as int].den == d);
                    assert(forall|r: int, c: int|
                        #[trigger] self.num_at(r, c) == pre.num_at(r, c));
                    assert(forall|r: int|
                        r != i as int ==> #[trigger] self.den_at(r) == pre.den_at(r));
                }
            }
            i = i + 1;
        }
    }
}

/// A matrix cell read as the rational `num / den` equals exactly one.
pub open spec fn rat_one(num: int, den: int) -> bool {
    num == den && den >= 1
}

/// After row-normalization every diagonal entry with a positive count
/// equals one: scaling sets the row denominator to the diagonal
/// numerator itself, so the diagonal cell reads `d / d`.
pub proof fn lemma_scaled_diagonal_is_one(pre: SparseMatrix, post: SparseMatrix, i: int)
    requires
        pre.wf(),
        0 <= i < pre.n,
        pre.num_at(i, i) > 0,
        forall|r: int, c: int| post.num_at(r, c) == pre.num_at(r, c),
        forall|r: int|
            0 <= r < pre.n ==> post.den_at(r) == if pre.num_at(r, r) > 0 {
                pre.num_at(r, r)
            } else {
                pre.den_at(r)
            },
    ensures
        rat_one(post.num_at(i, i), post.den_at(i)),
{
}

/// The numerator stored in the row for column `j`, or zero.
#[verifier::loop_isolation(false)]
pub fn row_lookup(row: &MatRow, j: usize) -> (num: u64)
    ensures
        num as int == row_num(row.entries@, j as int),
{
    let es = &row.entries;
    proof {
        assert(es@.take(es@.len() as int) =~= es@);
    }
    let mut k: usize = es.len();
    while k > 0
        invariant
            k <= es@.len(),
            row_num(es@, j as int) == row_num(es@.take(k as int), j as int),
        decreases k,
    {
        k = k - 1;
        proof {
            assert(es@.take(k + 1).drop_last() =~= es@.take(k as int));
            assert(es@.take(k + 1).last() == es@[k as int]);
            if es@[k as int].col == j {
                assert(row_num(es@.take(k + 1), j as int) == es@[k as int].num);
            } else {
                assert(row_num(es@.take(k + 1), j as int) == row_num(es@.take(k as int), j as int));
            }
        }
        if es[k].col == j {
            return es[k].num;
        }
    }
    proof {
        assert(es@.take(0) =~= Seq::<MatEntry>::empty());
    }
    0
}

} // verus!
