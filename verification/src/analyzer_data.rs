//! The analysis engine: the keyword vocabulary with its index assignment,
//! the co-occurrence matrix, the keyword-by-hallmark rating matrix, and
//! the histogram of per-article recognized-keyword counts.
//!
//! All ratings are exact rationals: a keyword's ratings across hallmarks
//! are integer numerators over one shared denominator, so normalizing a
//! column is setting its denominator to the sum of its numerators.
use vstd::prelude::*;
use crate::hist::{bucket_of, hist_counts, hist_increment, hist_max, new_histogram};
use crate::matrix::SparseMatrix;
use crate::seqs::{first_idx_of, lemma_first_idx_of};
use crate::tokenize::views_of_strings;

verus! {

/// The one failure of the engine: an exact count or rational no longer
/// fits the machine words it is kept in.
#[derive(Clone, Copy, Debug, PartialEq, Eq, Structural)]
pub enum AnalyzerError {
    Overflow,
}

/// A reference topic against which keywords and articles are scored,
/// given as a short title and a free-text description.
#[derive(Debug)]
pub struct Hallmark {
    pub title: String,
    pub description: String,
}

/// One keyword's rating: its numerators, one per hallmark, over the
/// shared denominator.
#[derive(Debug)]
pub struct HallmarkRatingOutput {
    pub keyword: String,
    pub rating: Vec<u64>,
    pub den: u64,
}

/// The persistent rating artifact: the hallmark list echoed back, and one
/// rating row per vocabulary keyword.
#[derive(Debug)]
pub struct FullRunOutput {
    pub hallmarks: Vec<Hallmark>,
    pub rating_output: Vec<HallmarkRatingOutput>,
}

/// The engine state threaded through the pipeline stages.
pub struct AnalyzerData {
    pub keywords: Vec<String>,
    pub relations: SparseMatrix,
    pub rating_nums: Vec<Vec<u64>>,
    pub rating_dens: Vec<u64>,
    pub n_keywords: usize,
    pub n_hallmarks: usize,
    pub histogram: histogram::Histogram,
}

/// The index under which each recognized word of the token list is
/// counted: its first-occurrence position in the keyword list, with
/// unrecognized words skipped.
pub open spec fn rec_idx_seq(kwv: Seq<Seq<char>>, ws: Seq<Seq<char>>) -> Seq<int>
    decreases ws.len(),
{
    if ws.len() == 0 {
        Seq::empty()
    } else {
        let r = rec_idx_seq(kwv, ws.drop_last());
        let fi = first_idx_of(kwv, ws.last());
        if fi >= 0 {
            r.push(fi)
        } else {
            r
        }
    }
}

/// The sum of column `i` of the rating numerators, across hallmarks.
pub open spec fn col_sum(nums: Seq<Vec<u64>>, i: int) -> int
    decreases nums.len(),
{
    if nums.len() == 0 {
        0int
    } else {
        col_sum(nums.drop_last(), i) + if 0 <= i < nums.last()@.len() {
            nums.last()@[i] as int
        } else {
            0int
        }
    }
}

/// How many of the first `i` keywords have an all-zero rating column.
pub open spec fn unrated_count(nums: Seq<Vec<u64>>, i: int) -> int
    decreases i,
{
    if i <= 0 {
        0int
    } else {
        unrated_count(nums, i - 1) + if col_sum(nums, i - 1) == 0 {
            1int
        } else {
            0int
        }
    }
}

impl AnalyzerData {
    /// The character sequences of the keyword list; index `i` of every
    /// matrix and rating column refers to `kwviews()[i]`.
    pub open spec fn kwviews(self) -> Seq<Seq<char>> {
        views_of_strings(self.keywords@)
    }

    /// The rating numerator of keyword `i` for hallmark `h`.
    pub open spec fn rating_num(self, h: int, i: int) -> int {
        self.rating_nums@[h]@[i] as int
    }

    /// Shape invariants of the engine state.
    pub open spec fn wf(self) -> bool {
        &&& self.keywords@.len() == self.n_keywords
        &&& self.relations.wf()
        &&& self.relations.n == self.n_keywords
        &&& self.rating_nums@.len() == self.n_hallmarks
        &&& forall|h: int|
            0 <= h < self.n_hallmarks ==> (#[trigger] self.rating_nums@[h])@.len()
                == self.n_keywords
        &&& self.rating_dens@.len() == self.n_keywords
        &&& forall|i: int| 0 <= i < self.n_keywords ==> (#[trigger] self.rating_dens@[i]) >= 1
    }

    /// A fresh engine over the given keyword list: zero co-occurrence
    /// counts, zero ratings with denominator one, an empty histogram.
    #[verifier::loop_isolation(false)]
    pub fn new(n_keywords: usize, keywords: &Vec<String>, n_hallmarks: usize) -> (r: AnalyzerData)
        requires
            keywords@.len() == n_keywords,
        ensures
            r.wf(),
            r.n_keywords == n_keywords,
            r.n_hallmarks == n_hallmarks,
            r.kwviews() == views_of_strings(keywords@),
            forall|i: int, j: int| r.relations.num_at(i, j) == 0,
            forall|i: int| r.relations.den_at(i) == 1,
            forall|h: int, i: int|
                0 <= h < n_hallmarks && 0 <= i < n_keywords ==> r.rating_num(h, i) == 0,
            forall|i: int| 0 <= i < n_keywords ==> r.rating_dens@[i] == 1,
            forall|k: int|
                0 <= k < hist_counts(r.histogram).len() ==> hist_counts(r.histogram)[k] == 0,
            hist_max(r.histogram) == 0xFFFF_FFFFu64,
    {
        let mut kw: Vec<String> = Vec::new();
        let mut t: usize = 0;
        while t < keywords.len()
            invariant
                t <= keywords@.len(),
                kw@.len() == t,
                forall|k: int| 0 <= k < t ==> #[trigger] kw@[k]@ == keywords@[k]@,
            decreases keywords@.len() - t,
        {
            let w = keywords[t].clone();
            kw.push(w);
            t = t + 1;
        }
        proof {
            assert(views_of_strings(kw@) =~= views_of_strings(keywords@));
        }
        let mut rating_nums: Vec<Vec<u64>> = Vec::new();
        let mut h: usize = 0;
        while h < n_hallmarks
            invariant
                h <= n_hallmarks,
                rating_nums@.len() == h,
                forall|k: int|
                    0 <= k < h ==> (#[trigger] rating_nums@[k])@ =~= Seq::<u64>::new(
                        n_keywords as nat,
                        |x: int| 0u64,
                    ),
            decreases n_hallmarks - h,
        {
            let row: Vec<u64> = vec![0u64; n_keywords];
            proof {
                assert(row@ =~= Seq::<u64>::new(n_keywords as nat, |x: int| 0u64));
            }
            rating_nums.push(row);
            h = h + 1;
        }
        let rating_dens: Vec<u64> = vec![1u64; n_keywords];
        let histogram = match new_histogram(1, 32) {
            Some(hg) => hg,
            None => vstd::pervasive::unreached(),
        };
        AnalyzerData {
            keywords: kw,
            relations: SparseMatrix::zero(n_keywords),
            rating_nums,
            rating_dens,
            n_keywords,
            n_hallmarks,
            histogram,
        }
    }

    /// Whether keyword `word` has a nonzero rating for `hallmark`.
    pub fn is_rating_non_zero(&self, word: usize, hallmark: usize) -> (r: bool)
        requires
            self.wf(),
            word < self.n_keywords,
            hallmark < self.n_hallmarks,
        ensures
            r == (self.rating_num(hallmark as int, word as int) > 0),
    {
        self.rating_nums[hallmark][word] > 0
    }

    /// Row-normalizes the co-occurrence matrix: every row with a positive
    /// diagonal count has its shared denominator set to that count, so
    /// that entry `(i, j)` becomes the fraction of articles containing
    /// keyword `i` that also contain keyword `j`.
    pub fn divide_rows_by_diagonal(&mut self)
        requires
            old(self).wf(),
        ensures
            final(self).wf(),
            final(self).keywords == old(self).keywords,
            final(self).rating_nums == old(self).rating_nums,
            final(self).rating_dens == old(self).rating_dens,
            final(self).n_keywords == old(self).n_keywords,
            final(self).n_hallmarks == old(self).n_hallmarks,
            final(self).histogram == old(self).histogram,
            forall|i: int, j: int|
                final(self).relations.num_at(i, j) == old(self).relations.num_at(i, j),
            forall|i: int|
                0 <= i < old(self).n_keywords ==> final(self).relations.den_at(i) == if old(
                    self,
                ).relations.num_at(i, i) > 0 {
                    old(self).relations.num_at(i, i)
                } else {
                    old(self).relations.den_at(i)
                },
    {
        self.relations.scale_rows_by_diagonal();
    }

    /// Records one article in the co-occurrence matrix: the article's
    /// deduplicated words are mapped to their keyword indices, the number
    /// of recognized keywords is recorded in the histogram, and every
    /// pair of recognized indices, ordered and unordered alike, has its
    /// cell raised by one.
    #[verifier::loop_isolation(false)]
    pub fn update_with_article_data(&mut self, words: &Vec<String>) -> (r: Result<
        (),
        AnalyzerError,
    >)
        requires
            old(self).wf(),
            forall|t1: int, t2: int|
                0 <= t1 < t2 < words@.len() ==> (#[trigger] words@[t1])@ != (
                #[trigger] words@[t2])@,
        ensures
            final(self).wf(),
            final(self).keywords == old(self).keywords,
            final(self).rating_nums == old(self).rating_nums,
            final(self).rating_dens == old(self).rating_dens,
            final(self).n_keywords == old(self).n_keywords,
            final(self).n_hallmarks == old(self).n_hallmarks,
            forall|i: int| final(self).relations.den_at(i) == old(self).relations.den_at(i),
            r is Err ==> *final(self) == *old(self),
            old(self).relations.symmetric() ==> final(self).relations.symmetric(),
            ({
                let rec = rec_idx_seq(old(self).kwviews(), views_of_strings(words@));
                r is Ok <==> forall|i: int, j: int|
                    rec.contains(i) && rec.contains(j) ==> #[trigger] old(self).relations.num_at(
                        i,
                        j,
                    ) < u64::MAX
            }),
            r is Ok ==> {
                let rec = rec_idx_seq(old(self).kwviews(), views_of_strings(words@));
                &&& forall|i: int, j: int|
                    final(self).relations.num_at(i, j) == old(self).relations.num_at(i, j) + if
                    rec.contains(i) && rec.contains(j) {
                        1int
                    } else {
                        0int
                    }
                &&& hist_max(final(self).histogram) == hist_max(old(self).histogram)
                &&& forall|w: u64|
                    bucket_of(final(self).histogram, w) == bucket_of(old(self).histogram, w)
                &&& hist_counts(final(self).histogram) =~= if rec.len() <= hist_max(
                    old(self).histogram,
                ) {
                    hist_counts(old(self).histogram).update(
                        bucket_of(old(self).histogram, rec.len() as u64),
                        (hist_counts(old(self).histogram)[bucket_of(
                            old(self).histogram,
                            rec.len() as u64,
                        )] + 1) as u64,
                    )
                } else {
                    hist_counts(old(self).histogram)
                }
            },
    {
        let ghost kwv = self.kwviews();
        let ghost wsv = views_of_strings(words@);
        let mut idxs: Vec<usize> = Vec::new();
        let mut t: usize = 0;
        proof {
            assert(wsv.take(0) =~= Seq::<Seq<char>>::empty());
            assert(idxs@.map_values(|u: usize| u as int) =~= Seq::<int>::empty());
        }
        while t < words.len()
            invariant
                t <= words@.len(),
                *self == *old(self),
                idxs@.map_values(|u: usize| u as int) == rec_idx_seq(kwv, wsv.take(t as int)),
                forall|k: int| 0 <= k < idxs@.len() ==> (#[trigger] idxs@[k]) < self.n_keywords,
            decreases words@.len() - t,
        {
            proof {
                assert(wsv.take(t + 1).drop_last() =~= wsv.take(t as int));
                assert(wsv.take(t + 1).last() == words@[t as int]@);
            }
            let w = &words[t];
            let found = find_keyword(&self.keywords, w);
            match found {
                Some(i) => {
                    let ghost old_idxs = idxs@;
                    idxs.push(i);
                    proof {
                        assert(idxs@.map_values(|u: usize| u as int) =~= old_idxs.map_values(
                            |u: usize| u as int,
                        ).push(i as int));
                    }
                },
                None => {},
            }
            t = t + 1;
        }
        proof {
            assert(wsv.take(wsv.len() as int) =~= wsv);
        }
        let ghost rec = rec_idx_seq(kwv, wsv);
        let m = idxs.len();
        // Precheck every cell about to be counted, so that a count at the
        // machine limit is reported before anything is changed.
        let mut p0: usize = 0;
        while p0 < m
            invariant
                p0 <= m,
                m == idxs@.len(),
                *self == *old(self),
                idxs@.map_values(|u: usize| u as int) == rec,
                forall|k: int| 0 <= k < idxs@.len() ==> (#[trigger] idxs@[k]) < self.n_keywords,
                forall|x: int, y: int|
                    0 <= x < p0 && 0 <= y < m ==> #[trigger] old(self).relations.num_at(
                        idxs@[x] as int,
                        idxs@[y] as int,
                    ) < u64::MAX,
            decreases m - p0,
        {
            let a = idxs[p0];
            let mut q0: usize = 0;
            while q0 < m
                invariant
                    q0 <= m,
                    p0 < m,
                    a == idxs@[p0 as int],
                    m == idxs@.len(),
                    *self == *old(self),
                    forall|y: int|
                        0 <= y < q0 ==> #[trigger] old(self).relations.num_at(
                            idxs@[p0 as int] as int,
                            idxs@[y] as int,
                        ) < u64::MAX,
                decreases m - q0,
            {
                let b = idxs[q0];
                let cur = crate::matrix::row_lookup(&self.relations.rows[a], b);
                proof {
                    assert(cur as int == self.relations.num_at(a as int, b as int));
                }
                if cur == u64::MAX {
                    proof {
                        assert(rec[p0 as int] == idxs@[p0 as int] as int);
                        assert(rec[q0 as int] == idxs@[q0 as int] as int);
                        assert(rec.contains(idxs@[p0 as int] as int));
                        assert(rec.contains(idxs@[q0 as int] as int));
                    }
                    return Err(AnalyzerError::Overflow);
                }
                q0 = q0 + 1;
            }
            p0 = p0 + 1;
        }
        proof {
            assert forall|i: int, j: int| rec.contains(i) && rec.contains(j) implies #[trigger]
            old(self).relations.num_at(i, j) < u64::MAX by {
                let x = choose|x: int| 0 <= x < rec.len() && rec[x] == i;
                let y = choose|y: int| 0 <= y < rec.len() && rec[y] == j;
                assert(rec[x] == idxs@[x] as int);
                assert(rec[y] == idxs@[y] as int);
                assert(old(self).relations.num_at(idxs@[x] as int, idxs@[y] as int) < u64::MAX);
            }
        }
        let _ = hist_increment(&mut self.histogram, m as u64);
        let ghost hg = self.histogram;
        proof {
            lemma_rec_distinct(kwv, wsv);
            assert(rec.len() == m);
            assert forall|p: int| 0 <= p < m implies first_idx_of(rec, #[trigger] rec[p])
                == p by {
                lemma_first_idx_of(rec, rec[p]);
                assert(rec.contains(rec[p]));
                let fi = first_idx_of(rec, rec[p]);
                assert(rec[fi] == rec[p]);
            }
        }
        let mut p: usize = 0;
        while p < m
            invariant
                p <= m,
                m == idxs@.len(),
                m == rec.len(),
                idxs@.map_values(|u: usize| u as int) == rec,
                forall|k: int| 0 <= k < idxs@.len() ==> (#[trigger] idxs@[k]) < self.n_keywords,
                forall|k: int| 0 <= k < m ==> first_idx_of(rec, #[trigger] rec[k]) == k,
                self.wf(),
                self.keywords == old(self).keywords,
                self.rating_nums == old(self).rating_nums,
                self.rating_dens == old(self).rating_dens,
                self.n_keywords == old(self).n_keywords,
                self.n_hallmarks == old(self).n_hallmarks,
                self.histogram == hg,
                forall|i: int| self.relations.den_at(i) == old(self).relations.den_at(i),
                forall|i: int, j: int|
                    #[trigger] self.relations.num_at(i, j) == old(self).relations.num_at(i, j)
                        + pair_flag(rec, p as int, p as int, i, j),
            decreases m - p,
        {
            let a = idxs[p];
            let mut q: usize = p;
            while q < m
                invariant
                    p <= q <= m,
                    a == idxs@[p as int],
                    m == idxs@.len(),
                    m == rec.len(),
                    idxs@.map_values(|u: usize| u as int) == rec,
                    forall|k: int|
                        0 <= k < idxs@.len() ==> (#[trigger] idxs@[k]) < self.n_keywords,
                    forall|k: int| 0 <= k < m ==> first_idx_of(rec, #[trigger] rec[k]) == k,
                    self.wf(),
                    self.keywords == old(self).keywords,
                    self.rating_nums == old(self).rating_nums,
                    self.rating_dens == old(self).rating_dens,
                    self.n_keywords == old(self).n_keywords,
                    self.n_hallmarks == old(self).n_hallmarks,
                    self.histogram == hg,
                    forall|i: int| self.relations.den_at(i) == old(self).relations.den_at(i),
                    forall|i: int, j: int|
                        #[trigger] self.relations.num_at(i, j) == old(self).relations.num_at(i, j)
                            + pair_flag(rec, p as int, q as int, i, j),
                decreases m - q,
            {
                let b = idxs[q];
                let ghost pre = self.relations;
                proof {
                    let ai = a as int;
                    let bi = b as int;
                    assert(rec[p as int] == idxs@[p as int] as int);
                    assert(rec[q as int] == idxs@[q as int] as int);
                    assert(rec[p as int] == ai && rec[q as int] == bi);
                    assert(rec.contains(ai) && rec.contains(bi));
                    assert(first_idx_of(rec, ai) == p && first_idx_of(rec, bi) == q);
                    assert(pair_flag(rec, p as int, q as int, ai, bi) == 0);
                    assert(self.relations.num_at(ai, bi) == old(self).relations.num_at(ai, bi));
                    assert(old(self).relations.num_at(ai, bi) < u64::MAX);
                }
                let ok1 = self.relations.bump(a, b);
                if !ok1 {
                    proof {
                        assert(false);
                    }
                    return Err(AnalyzerError::Overflow);
                }
                if p != q {
                    proof {
                        let ai = a as int;
                        let bi = b as int;
                        assert(a != b) by {
                            assert(first_idx_of(rec, ai) == p && first_idx_of(rec, bi) == q);
                        }
                        assert(self.relations.num_at(bi, ai) == pre.num_at(bi, ai));
                        assert(pair_flag(rec, p as int, q as int, bi, ai) == 0);
                        assert(pre.num_at(bi, ai) == old(self).relations.num_at(bi, ai));
                        assert(old(self).relations.num_at(bi, ai) < u64::MAX);
                    }
                    let ok2 = self.relations.bump(b, a);
                    if !ok2 {
                        proof {
                            assert(false);
                        }
                        return Err(AnalyzerError::Overflow);
                    }
                }
                proof {
                    let ai = a as int;
                    let bi = b as int;
                    assert(rec[p as int] == ai && rec[q as int] == bi);
                    assert(first_idx_of(rec, ai) == p && first_idx_of(rec, bi) == q);
                    assert(rec.contains(ai) && rec.contains(bi));
                    assert forall|i: int, j: int| true implies #[trigger] self.relations.num_at(
                        i,
                        j,
                    ) == old(self).relations.num_at(i, j) + pair_flag(
                        rec,
                        p as int,
                        q + 1,
                        i,
                        j,
                    ) by {
                        if i == ai && j == bi {
                            assert(pair_flag(rec, p as int, q as int, ai, bi) == 0);
                            assert(pair_flag(rec, p as int, q + 1, ai, bi) == 1);
                        } else if i == bi && j == ai {
                            assert(pair_flag(rec, p as int, q as int, bi, ai) == 0);
                            assert(pair_flag(rec, p as int, q + 1, bi, ai) == 1);
                        } else {
                            assert(self.relations.num_at(i, j) == pre.num_at(i, j));
                            assert(pair_flag(rec, p as int, q + 1, i, j) == pair_flag(
                                rec,
                                p as int,
                                q as int,
                                i,
                                j,
                            )) by {
                                if rec.contains(i) && rec.contains(j) {
                                    let pi = first_idx_of(rec, i);
                                    let pj = first_idx_of(rec, j);
                                    lemma_first_idx_of(rec, i);
                                    lemma_first_idx_of(rec, j);
                                    if (if pi <= pj {
                                        pi
                                    } else {
                                        pj
                                    }) == p as int && (if pi <= pj {
                                        pj
                                    } else {
                                        pi
                                    }) == q as int {
                                        assert(rec[pi] == i && rec[pj] == j);
                                        assert(i == ai && j == bi || i == bi && j == ai);
                                    }
                                }
                            }
                        }
                    }
                }
                q = q + 1;
            }
            proof {
                assert forall|i: int, j: int| pair_flag(rec, p as int, m as int, i, j)
                    == pair_flag(rec, p + 1, p + 1, i, j) by {
                    if rec.contains(i) && rec.contains(j) {
                        lemma_first_idx_of(rec, i);
                        lemma_first_idx_of(rec, j);
                    }
                }
            }
            p = p + 1;
        }
        proof {
            assert forall|i: int, j: int| pair_flag(rec, m as int, m as int, i, j) == if
            rec.contains(i) && rec.contains(j) {
                1int
            } else {
                0int
            } by {
                if rec.contains(i) && rec.contains(j) {
                    lemma_first_idx_of(rec, i);
                    lemma_first_idx_of(rec, j);
                }
            }
            if old(self).relations.symmetric() {
                assert forall|i: int, j: int| #[trigger] self.relations.num_at(i, j)
                    == self.relations.num_at(j, i) by {
                    assert(old(self).relations.num_at(i, j) == old(self).relations.num_at(j, i));
                }
            }
        }
        Ok(())
    }

    /// Normalizes every keyword's rating column: where the column has a
    /// positive sum, its shared denominator becomes that sum, making the
    /// keyword's ratings sum to exactly one; an all-zero column is left
    /// unchanged and counted as unrated. Fails only when a column sum no
    /// longer fits a machine word, changing nothing.
    #[verifier::loop_isolation(false)]
    pub fn normalize_keyword_rating(&mut self) -> (r: Result<usize, AnalyzerError>)
        requires
            old(self).wf(),
        ensures
            final(self).wf(),
            final(self).keywords == old(self).keywords,
            final(self).rating_nums == old(self).rating_nums,
            final(self).n_keywords == old(self).n_keywords,
            final(self).n_hallmarks == old(self).n_hallmarks,
            final(self).histogram == old(self).histogram,
            final(self).relations == old(self).relations,
            r is Err ==> *final(self) == *old(self),
            r is Ok <==> forall|i: int|
                0 <= i < old(self).n_keywords ==> col_sum(old(self).rating_nums@, i)
                    <= u64::MAX,
            r is Ok ==> {
                &&& forall|i: int|
                    0 <= i < old(self).n_keywords ==> final(self).rating_dens@[i] as int == if
                    col_sum(old(self).rating_nums@, i) > 0 {
                        col_sum(old(self).rating_nums@, i)
                    } else {
                        old(self).rating_dens@[i] as int
                    }
                &&& r->Ok_0 == unrated_count(old(self).rating_nums@, old(self).n_keywords as int)
            },
    {
        let ghost nums = self.rating_nums@;
        let k = self.rating_nums.len();
        let n = self.rating_dens.len();
        let mut sums: Vec<u64> = Vec::new();
        let mut unrated: usize = 0;
        let mut i: usize = 0;
        while i < n
            invariant
                i <= n,
                *self == *old(self),
                n == self.n_keywords,
                k == self.rating_nums@.len(),
                sums@.len() == i,
                forall|i2: int| 0 <= i2 < i ==> col_sum(nums, i2) <= u64::MAX,
                unrated as int == unrated_count(nums, i as int),
                unrated <= i,
                forall|i2: int| 0 <= i2 < i ==> (#[trigger] sums@[i2]) as int == col_sum(nums, i2),
            decreases n - i,
        {
            let mut s: u128 = 0;
            let mut h: usize = 0;
            proof {
                assert(nums.take(0) =~= Seq::<Vec<u64>>::empty());
            }
            while h < k
                invariant
                    h <= k,
                    *self == *old(self),
                    i < n,
                    n == self.n_keywords,
                    k == self.rating_nums@.len(),
                    s as int == col_sum(nums.take(h as int), i as int),
                    s as int <= (h as int) * 0xFFFF_FFFF_FFFF_FFFF,
                decreases k - h,
            {
                proof {
                    assert(nums.take(h + 1).drop_last() =~= nums.take(h as int));
                    assert(nums.take(h + 1).last() == nums[h as int]);
                    assert((h + 1) as int * 0xFFFF_FFFF_FFFF_FFFF == (h as int)
                        * 0xFFFF_FFFF_FFFF_FFFF + 0xFFFF_FFFF_FFFF_FFFF) by (nonlinear_arith);
                    assert((h as int) * 0xFFFF_FFFF_FFFF_FFFF <= (n as int)
                        * 0xFFFF_FFFF_FFFF_FFFF || true);
                    assert(s as int + 0xFFFF_FFFF_FFFF_FFFF < u128::MAX) by (nonlinear_arith)
                        requires
                            s as int <= (h as int) * 0xFFFF_FFFF_FFFF_FFFF,
                            h < k <= 0xFFFF_FFFF_FFFF_FFFFu64,
                    ;
                }
                s = s + (self.rating_nums[h][i] as u128);
                h = h + 1;
            }
            proof {
                assert(nums.take(k as int) =~= nums);
            }
            if s > 0xFFFF_FFFF_FFFF_FFFFu128 {
                return Err(AnalyzerError::Overflow);
            }
            if s == 0 {
                unrated = unrated + 1;
            }
            sums.push(s as u64);
            i = i + 1;
        }
        let mut i2: usize = 0;
        let ghost dens0 = self.rating_dens@;
        while i2 < n
            invariant
                i2 <= n,
                n == self.rating_dens@.len(),
                self.keywords == old(self).keywords,
                self.rating_nums == old(self).rating_nums,
                self.n_keywords == old(self).n_keywords,
                self.n_hallmarks == old(self).n_hallmarks,
                self.histogram == old(self).histogram,
                self.relations == old(self).relations,
                self.wf(),
                sums@.len() == n,
                forall|i3: int| 0 <= i3 < n ==> (#[trigger] sums@[i3]) as int == col_sum(nums, i3),
                forall|i3: int|
                    i2 <= i3 < n ==> (#[trigger] self.rating_dens@[i3]) == dens0[i3],
                forall|i3: int|
                    0 <= i3 < i2 ==> (#[trigger] self.rating_dens@[i3]) as int == if col_sum(
                        nums,
                        i3,
                    ) > 0 {
                        col_sum(nums, i3)
                    } else {
                        dens0[i3] as int
                    },
            decreases n - i2,
        {
            let ghost pre = *self;
            if sums[i2] > 0 {
                let v = sums[i2];
                self.rating_dens[i2] = v;
                proof {
                    assert(forall|i3: int|
                        0 <= i3 < n && i3 != i2 as int ==> #[trigger] self.rating_dens@[i3]
                            == pre.rating_dens@[i3]);
                }
            }
            i2 = i2 + 1;
        }
        Ok(unrated)
    }
}

/// The least common multiple of the rating denominators named by a
/// matrix row's cells: the common denominator the propagated entries of
/// that row are put over.
pub open spec fn lcm_fold(es: Seq<crate::matrix::MatEntry>, dens: Seq<u64>) -> int
    decreases es.len(),
{
    if es.len() == 0 {
        1int
    } else {
        crate::numbers::lcm(lcm_fold(es.drop_last(), dens), dens[es.last().col as int] as int)
    }
}

/// The propagated numerator of one rating entry: the dot product of a
/// matrix row with a hallmark's rating vector, put over the common
/// denominator `l` times the row denominator.
pub open spec fn dot_num(
    es: Seq<crate::matrix::MatEntry>,
    dens: Seq<u64>,
    nums_h: Seq<u64>,
    l: int,
) -> int
    decreases es.len(),
{
    if es.len() == 0 {
        0int
    } else {
        dot_num(es.drop_last(), dens, nums_h, l) + (es.last().num as int) * (nums_h[es.last().col
            as int] as int) * (l / (dens[es.last().col as int] as int))
    }
}

/// The common denominator of a propagated row is a positive multiple of
/// every rating denominator its cells name.
pub proof fn lemma_lcm_fold_divides(es: Seq<crate::matrix::MatEntry>, dens: Seq<u64>)
    requires
        forall|k: int|
            0 <= k < es.len() ==> (#[trigger] es[k]).col < dens.len() && dens[es[k].col as int]
                >= 1,
    ensures
        lcm_fold(es, dens) >= 1,
        forall|k: int|
            0 <= k < es.len() ==> lcm_fold(es, dens) % (dens[(#[trigger] es[k]).col as int]
                as int) == 0,
    decreases es.len(),
{
    if es.len() > 0 {
        let d = es.drop_last();
        assert(forall|k: int| 0 <= k < d.len() ==> #[trigger] d[k] == es[k]);
        lemma_lcm_fold_divides(d, dens);
        let lp = lcm_fold(d, dens);
        let dl = dens[es.last().col as int] as int;
        crate::numbers::lemma_lcm_props(lp, dl);
        let l = lcm_fold(es, dens);
        assert forall|k: int| 0 <= k < es.len() implies l % (dens[(#[trigger] es[k]).col as int]
            as int) == 0 by {
            if k < es.len() - 1 {
                assert(d[k] == es[k]);
                assert(lp % (dens[es[k].col as int] as int) == 0);
                crate::numbers::lemma_divides_trans(dens[es[k].col as int] as int, lp, l);
            }
        }
    }
}

/// The common denominator of every prefix of a row divides, and so never
/// exceeds, the common denominator of the whole row.
pub proof fn lemma_lcm_fold_prefix(es: Seq<crate::matrix::MatEntry>, dens: Seq<u64>, k: int)
    requires
        0 <= k <= es.len(),
        forall|k2: int|
            0 <= k2 < es.len() ==> (#[trigger] es[k2]).col < dens.len() && dens[es[k2].col as int]
                >= 1,
    ensures
        1 <= lcm_fold(es.take(k), dens),
        lcm_fold(es, dens) % lcm_fold(es.take(k), dens) == 0,
        lcm_fold(es.take(k), dens) <= lcm_fold(es, dens),
    decreases es.len() - k,
{
    assert(forall|k2: int| 0 <= k2 < k ==> #[trigger] es.take(k)[k2] == es[k2]);
    lemma_lcm_fold_divides(es.take(k), dens);
    lemma_lcm_fold_divides(es, dens);
    if k == es.len() {
        assert(es.take(k) =~= es);
        vstd::arithmetic::div_mod::lemma_mod_self_0(lcm_fold(es, dens));
    } else {
        lemma_lcm_fold_prefix(es, dens, k + 1);
        assert(es.take(k + 1).drop_last() =~= es.take(k));
        assert(es.take(k + 1).last() == es[k]);
        let lk = lcm_fold(es.take(k), dens);
        let lk1 = lcm_fold(es.take(k + 1), dens);
        let dl = dens[es[k].col as int] as int;
        crate::numbers::lemma_lcm_props(lk, dl);
        assert(lk1 % lk == 0);
        crate::numbers::lemma_divides_trans(lk, lk1, lcm_fold(es, dens));
        crate::numbers::lemma_divides_le(lk, lcm_fold(es, dens));
    }
}

/// The propagated dot product is a sum of nonnegative terms.
proof fn lemma_dot_num_nonneg(
    es: Seq<crate::matrix::MatEntry>,
    dens: Seq<u64>,
    nums_h: Seq<u64>,
    l: int,
)
    requires
        l >= 0,
        forall|k2: int|
            0 <= k2 < es.len() ==> (#[trigger] es[k2]).col < dens.len() && dens[es[k2].col as int]
                >= 1,
    ensures
        dot_num(es, dens, nums_h, l) >= 0,
    decreases es.len(),
{
    if es.len() > 0 {
        let d = es.drop_last();
        assert(forall|k2: int| 0 <= k2 < d.len() ==> #[trigger] d[k2] == es[k2]);
        lemma_dot_num_nonneg(d, dens, nums_h, l);
        let dl = dens[es.last().col as int] as int;
        assert(es[es.len() - 1] == es.last());
        vstd::arithmetic::div_mod::lemma_div_pos_is_pos(l, dl);
        assert((es.last().num as int) * (nums_h[es.last().col as int] as int) * (l / dl) >= 0)
            by (nonlinear_arith)
            requires
                es.last().num as int >= 0,
                nums_h[es.last().col as int] as int >= 0,
                l / dl >= 0,
        ;
    }
}

/// Every prefix of the propagated dot product is nonnegative and no
/// larger than the whole: the terms are products of nonnegative factors.
pub proof fn lemma_dot_num_mono(
    es: Seq<crate::matrix::MatEntry>,
    dens: Seq<u64>,
    nums_h: Seq<u64>,
    l: int,
    k: int,
)
    requires
        0 <= k <= es.len(),
        l >= 0,
        forall|k2: int|
            0 <= k2 < es.len() ==> (#[trigger] es[k2]).col < dens.len() && dens[es[k2].col as int]
                >= 1,
    ensures
        0 <= dot_num(es.take(k), dens, nums_h, l),
        dot_num(es.take(k), dens, nums_h, l) <= dot_num(es, dens, nums_h, l),
    decreases es.len() - k,
{
    assert(forall|k2: int| 0 <= k2 < k ==> #[trigger] es.take(k)[k2] == es[k2]);
    if k == es.len() {
        assert(es.take(k) =~= es);
        lemma_dot_num_nonneg(es, dens, nums_h, l);
    } else {
        lemma_dot_num_mono(es, dens, nums_h, l, k + 1);
        assert(es.take(k + 1).drop_last() =~= es.take(k));
        assert(es.take(k + 1).last() == es[k]);
        let dl = dens[es[k].col as int] as int;
        vstd::arithmetic::div_mod::lemma_div_pos_is_pos(l, dl);
        assert((es[k].num as int) * (nums_h[es[k].col as int] as int) * (l / dl) >= 0)
            by (nonlinear_arith)
            requires
                es[k].num as int >= 0,
                nums_h[es[k].col as int] as int >= 0,
                l / dl >= 0,
        ;
        lemma_dot_num_nonneg(es.take(k), dens, nums_h, l);
    }
}

/// Whether one keyword's row can be propagated within the machine words:
/// the row's common denominator, its product with the row denominator,
/// and every hallmark's dot product all fit.
pub open spec fn prop_row_fits(
    rel: SparseMatrix,
    dens: Seq<u64>,
    nums: Seq<Vec<u64>>,
    i: int,
) -> bool {
    let es = rel.rows@[i].entries@;
    let l = lcm_fold(es, dens);
    &&& l <= u64::MAX
    &&& rel.den_at(i) * l <= u64::MAX
    &&& forall|h: int|
        0 <= h < nums.len() ==> #[trigger] dot_num(es, dens, nums[h]@, l) <= u64::MAX
}

/// The denominator of the dot product of a matrix row with a rating
/// vector, built by ordinary fraction addition: the product of the term
/// denominators `mden * d_j`.
pub open spec fn dot_q_den(es: Seq<crate::matrix::MatEntry>, dens: Seq<u64>, mden: int) -> int
    decreases es.len(),
{
    if es.len() == 0 {
        1int
    } else {
        dot_q_den(es.drop_last(), dens, mden) * (mden * (dens[es.last().col as int] as int))
    }
}

/// The numerator of the dot product `sum_j (m_j / mden) * (n_j / d_j)`
/// over the denominator `dot_q_den`, built by ordinary fraction addition.
pub open spec fn dot_q_num(
    es: Seq<crate::matrix::MatEntry>,
    dens: Seq<u64>,
    nums_h: Seq<u64>,
    mden: int,
) -> int
    decreases es.len(),
{
    if es.len() == 0 {
        0int
    } else {
        let d = es.drop_last();
        dot_q_num(d, dens, nums_h, mden) * (mden * (dens[es.last().col as int] as int)) + (
        es.last().num as int) * (nums_h[es.last().col as int] as int) * dot_q_den(d, dens, mden)
    }
}

/// The integer numerator that propagation stores, over the shared
/// denominator `mden * l`, is exactly the rational dot product of the
/// row with the rating vector: the cross products agree.
#[verifier::rlimit(100)]
pub proof fn lemma_dot_num_is_dot_product(
    es: Seq<crate::matrix::MatEntry>,
    dens: Seq<u64>,
    nums_h: Seq<u64>,
    mden: int,
    l: int,
)
    requires
        mden >= 1,
        l >= 1,
        forall|k: int|
            0 <= k < es.len() ==> (#[trigger] es[k]).col < dens.len() && dens[es[k].col as int]
                >= 1,
        forall|k: int|
            0 <= k < es.len() ==> l % (dens[(#[trigger] es[k]).col as int] as int) == 0,
    ensures
        dot_q_den(es, dens, mden) >= 1,
        dot_num(es, dens, nums_h, l) * dot_q_den(es, dens, mden) == dot_q_num(
            es,
            dens,
            nums_h,
            mden,
        ) * (mden * l),
    decreases es.len(),
{
    if es.len() == 0 {
    } else {
        let d = es.drop_last();
        assert(forall|k: int| 0 <= k < d.len() ==> #[trigger] d[k] == es[k]);
        lemma_dot_num_is_dot_product(d, dens, nums_h, mden, l);
        let pn = dot_q_num(d, dens, nums_h, mden);
        let pd = dot_q_den(d, dens, mden);
        let dl = dens[es.last().col as int] as int;
        let m = es.last().num as int;
        let nh = nums_h[es.last().col as int] as int;
        let tn = m * nh;
        let td = mden * dl;
        let prev_num = dot_num(d, dens, nums_h, l);
        let t = m * nh * (l / dl);
        assert(es[es.len() - 1] == es.last());
        assert(l % dl == 0);
        crate::numbers::lemma_div_exact(l, dl);
        assert(t * dl == tn * l) by (nonlinear_arith)
            requires
                t == m * nh * (l / dl),
                tn == m * nh,
                dl * (l / dl) == l,
        ;
        assert(td >= 1) by (nonlinear_arith)
            requires
                mden >= 1,
                dl >= 1,
                td == mden * dl,
        ;
        assert(pd * td >= 1) by (nonlinear_arith)
            requires
                pd >= 1,
                td >= 1,
        ;
        assert(prev_num * (pd * td) == (pn * td) * (mden * l)) by (nonlinear_arith)
            requires
                prev_num * pd == pn * (mden * l),
        ;
        assert(t * (pd * td) == (tn * pd) * (mden * l)) by (nonlinear_arith)
            requires
                t * dl == tn * l,
                td == mden * dl,
        ;
        assert((prev_num + t) * (pd * td) == prev_num * (pd * td) + t * (pd * td))
            by (nonlinear_arith);
        assert((pn * td + tn * pd) * (mden * l) == (pn * td) * (mden * l) + (tn * pd) * (mden * l))
            by (nonlinear_arith);
        assert(dot_num(es, dens, nums_h, l) == prev_num + t);
        assert(dot_q_den(es, dens, mden) == pd * td);
        assert(dot_q_num(es, dens, nums_h, mden) == pn * td + tn * pd);
    }
}

impl AnalyzerData {
    /// One propagated rating entry, read as the rational
    /// `stored numerator / stored denominator`, is exactly the dot
    /// product of row `i` of the row-normalized co-occurrence matrix
    /// with hallmark `h`'s previous rating vector.
    pub proof fn lemma_propagated_entry_is_dot_product(pre: AnalyzerData, post: AnalyzerData, h: int, i: int)
        requires
            pre.wf(),
            0 <= h < pre.n_hallmarks,
            0 <= i < pre.n_keywords,
            post.rating_nums@[h]@[i] as int == dot_num(
                pre.relations.rows@[i].entries@,
                pre.rating_dens@,
                pre.rating_nums@[h]@,
                lcm_fold(pre.relations.rows@[i].entries@, pre.rating_dens@),
            ),
            post.rating_dens@[i] as int == pre.relations.den_at(i) * lcm_fold(
                pre.relations.rows@[i].entries@,
                pre.rating_dens@,
            ),
        ensures
            (post.rating_nums@[h]@[i] as int) * dot_q_den(
                pre.relations.rows@[i].entries@,
                pre.rating_dens@,
                pre.relations.den_at(i),
            ) == dot_q_num(
                pre.relations.rows@[i].entries@,
                pre.rating_dens@,
                pre.rating_nums@[h]@,
                pre.relations.den_at(i),
            ) * (post.rating_dens@[i] as int),
    {
        let es = pre.relations.rows@[i].entries@;
        let dens = pre.rating_dens@;
        let nums_h = pre.rating_nums@[h]@;
        let mden = pre.relations.den_at(i);
        assert(forall|k: int|
            0 <= k < es.len() ==> (#[trigger] es[k]).col < dens.len() && dens[es[k].col as int]
                >= 1) by {
            assert(crate::matrix::row_entries_wf(es, pre.relations.n as int));
        }
        lemma_lcm_fold_divides(es, dens);
        let l = lcm_fold(es, dens);
        lemma_dot_num_is_dot_product(es, dens, nums_h, mden, l);
    }

    /// Every rated keyword's column denominator is its column sum: the
    /// state normalization leaves behind.
    pub open spec fn normalized(self) -> bool {
        forall|i: int|
            0 <= i < self.n_keywords && col_sum(self.rating_nums@, i) > 0 ==> (
            #[trigger] self.rating_dens@[i]) as int == col_sum(self.rating_nums@, i)
    }

    /// One propagation step: every hallmark's rating vector is replaced
    /// by the product of the row-normalized co-occurrence matrix with it,
    /// spreading each hallmark's mass from seeded keywords to keywords
    /// that co-occur with them. Keyword `i`'s new numerators are the dot
    /// products over row `i`, put over the shared denominator
    /// `row denominator times the least common multiple of the old
    /// column denominators named by the row`. Fails only when a count no
    /// longer fits its machine word, changing nothing.
    #[verifier::loop_isolation(false)]
    pub fn update_rating(&mut self) -> (r: Result<(), AnalyzerError>)
        requires
            old(self).wf(),
        ensures
            final(self).wf(),
            final(self).keywords == old(self).keywords,
            final(self).relations == old(self).relations,
            final(self).n_keywords == old(self).n_keywords,
            final(self).n_hallmarks == old(self).n_hallmarks,
            final(self).histogram == old(self).histogram,
            r is Err ==> *final(self) == *old(self),
            r is Ok <==> forall|i: int|
                0 <= i < old(self).n_keywords ==> #[trigger] prop_row_fits(
                    old(self).relations,
                    old(self).rating_dens@,
                    old(self).rating_nums@,
                    i,
                ),
            r is Ok ==> {
                let dens0 = old(self).rating_dens@;
                let nums0 = old(self).rating_nums@;
                let rel = old(self).relations;
                &&& forall|i: int|
                    0 <= i < old(self).n_keywords ==> (#[trigger] final(self).rating_dens@[i])
                        as int == rel.den_at(i) * lcm_fold(rel.rows@[i].entries@, dens0)
                &&& forall|h: int, i: int|
                    0 <= h < old(self).n_hallmarks && 0 <= i < old(self).n_keywords ==> (
                    #[trigger] final(self).rating_nums@[h]@[i]) as int == dot_num(
                        rel.rows@[i].entries@,
                        dens0,
                        nums0[h]@,
                        lcm_fold(rel.rows@[i].entries@, dens0),
                    )
            },
    {
        let ghost dens0 = self.rating_dens@;
        let ghost nums0 = self.rating_nums@;
        let ghost rel = self.relations;
        let n = self.n_keywords;
        let k = self.n_hallmarks;
        let mut new_nums: Vec<Vec<u64>> = Vec::new();
        let mut h0: usize = 0;
        while h0 < k
            invariant
                h0 <= k,
                new_nums@.len() == h0,
                forall|h: int|
                    0 <= h < h0 ==> (#[trigger] new_nums@[h])@ =~= Seq::<u64>::new(
                        n as nat,
                        |x: int| 0u64,
                    ),
            decreases k - h0,
        {
            let row: Vec<u64> = vec![0u64; n];
            proof {
                assert(row@ =~= Seq::<u64>::new(n as nat, |x: int| 0u64));
            }
            new_nums.push(row);
            h0 = h0 + 1;
        }
        let mut new_dens: Vec<u64> = Vec::new();
        let mut i: usize = 0;
        while i < n
            invariant
                i <= n,
                *self == *old(self),
                n == self.n_keywords,
                k == self.n_hallmarks,
                new_dens@.len() == i,
                new_nums@.len() == k,
                forall|h: int| 0 <= h < k ==> (#[trigger] new_nums@[h])@.len() == n,
                forall|i2: int|
                    0 <= i2 < i ==> (#[trigger] new_dens@[i2]) as int == rel.den_at(i2) * lcm_fold(
                        rel.rows@[i2].entries@,
                        dens0,
                    ),
                forall|i2: int| 0 <= i2 < i ==> (#[trigger] new_dens@[i2]) >= 1,
                forall|i2: int| 0 <= i2 < i ==> #[trigger] prop_row_fits(rel, dens0, nums0, i2),
                forall|h: int, i2: int|
                    0 <= h < k && 0 <= i2 < n ==> (#[trigger] new_nums@[h]@[i2]) as int == if i2
                        < i {
                        dot_num(
                            rel.rows@[i2].entries@,
                            dens0,
                            nums0[h]@,
                            lcm_fold(rel.rows@[i2].entries@, dens0),
                        )
                    } else {
                        0int
                    },
            decreases n - i,
        {
            let ghost es = rel.rows@[i as int].entries@;
            proof {
                assert(es.take(0) =~= Seq::<crate::matrix::MatEntry>::empty());
                assert(crate::matrix::row_entries_wf(es, rel.n as int));
                assert(forall|k2: int|
                    0 <= k2 < es.len() ==> (#[trigger] es[k2]).col < dens0.len() && dens0[es[
                    k2].col as int] >= 1);
            }
            let elen = self.relations.rows[i].entries.len();
            let mut lv: u64 = 1;
            let mut p: usize = 0;
            while p < elen
                invariant
                    p <= elen,
                    *self == *old(self),
                    i < n,
                    elen == es.len(),
                    es == self.relations.rows@[i as int].entries@,
                    lv >= 1,
                    lv as int == lcm_fold(es.take(p as int), dens0),
                decreases elen - p,
            {
                proof {
                    assert(es.take(p + 1).drop_last() =~= es.take(p as int));
                    assert(es.take(p + 1).last() == es[p as int]);
                }
                let c = self.relations.rows[i].entries[p].col;
                let d = self.rating_dens[c];
                match crate::numbers::lcm_u64(lv, d) {
                    Some(x) => {
                        lv = x;
                    },
                    None => {
                        proof {
                            lemma_lcm_fold_prefix(es, dens0, p + 1);
                            assert(lcm_fold(es, dens0) >= lcm_fold(es.take(p + 1), dens0));
                            assert(!prop_row_fits(rel, dens0, nums0, i as int));
                        }
                        return Err(AnalyzerError::Overflow);
                    },
                }
                p = p + 1;
            }
            proof {
                assert(es.take(es.len() as int) =~= es);
            }
            let dm = self.relations.rows[i].den;
            let nd = match dm.checked_mul(lv) {
                Some(x) => x,
                None => {
                    proof {
                        assert(!prop_row_fits(rel, dens0, nums0, i as int));
                    }
                    return Err(AnalyzerError::Overflow);
                },
            };
            proof {
                assert(nd >= 1) by (nonlinear_arith)
                    requires
                        dm >= 1,
                        lv >= 1,
                        nd as int == (dm as int) * (lv as int),
                ;
            }
            new_dens.push(nd);
            let mut h: usize = 0;
            while h < k
                invariant
                    h <= k,
                    *self == *old(self),
                    i < n,
                    n == self.n_keywords,
                    k == self.n_hallmarks,
                    elen == es.len(),
                    es == self.relations.rows@[i as int].entries@,
                    lv as int == lcm_fold(es, dens0),
                    new_nums@.len() == k,
                    forall|h2: int| 0 <= h2 < k ==> (#[trigger] new_nums@[h2])@.len() == n,
                    forall|h2: int, i2: int|
                        0 <= h2 < k && 0 <= i2 < n ==> (#[trigger] new_nums@[h2]@[i2]) as int
                            == if i2 < i || (i2 == i && h2 < h) {
                            dot_num(
                                rel.rows@[i2].entries@,
                                dens0,
                                nums0[h2]@,
                                lcm_fold(rel.rows@[i2].entries@, dens0),
                            )
                        } else {
                            0int
                        },
                decreases k - h,
            {
                let mut acc: u128 = 0;
                let mut p2: usize = 0;
                proof {
                    assert(es.take(0) =~= Seq::<crate::matrix::MatEntry>::empty());
                }
                while p2 < elen
                    invariant
                        p2 <= elen,
                        *self == *old(self),
                        i < n,
                        h < k,
                        elen == es.len(),
                        es == self.relations.rows@[i as int].entries@,
                        lv as int == lcm_fold(es, dens0),
                        acc as int == dot_num(es.take(p2 as int), dens0, nums0[h as int]@, lv as int),
                    decreases elen - p2,
                {
                    proof {
                        assert(es.take(p2 + 1).drop_last() =~= es.take(p2 as int));
                        assert(es.take(p2 + 1).last() == es[p2 as int]);
                    }
                    let c = self.relations.rows[i].entries[p2].col;
                    let en = self.relations.rows[i].entries[p2].num;
                    let d = self.rating_dens[c];
                    let w = lv / d;
                    let t1: u128 = crate::analyzer::mul_u64_wide(en, self.rating_nums[h][c]);
                    proof {
                        lemma_dot_num_mono(es, dens0, nums0[h as int]@, lv as int, p2 as int);
                        lemma_dot_num_mono(es, dens0, nums0[h as int]@, lv as int, p2 + 1);
                        assert(dot_num(es.take(p2 + 1), dens0, nums0[h as int]@, lv as int) == acc
                            + (t1 as int) * (w as int));
                    }
                    let t2 = match t1.checked_mul(w as u128) {
                        Some(x) => x,
                        None => {
                            proof {
                                assert(!prop_row_fits(rel, dens0, nums0, i as int));
                            }
                            return Err(AnalyzerError::Overflow);
                        },
                    };
                    let acc2 = match acc.checked_add(t2) {
                        Some(x) => x,
                        None => {
                            proof {
                                assert(!prop_row_fits(rel, dens0, nums0, i as int));
                            }
                            return Err(AnalyzerError::Overflow);
                        },
                    };
                    acc = acc2;
                    p2 = p2 + 1;
                }
                proof {
                    assert(es.take(es.len() as int) =~= es);
                }
                if acc > 0xFFFF_FFFF_FFFF_FFFFu128 {
                    proof {
                        assert(!prop_row_fits(rel, dens0, nums0, i as int));
                    }
                    return Err(AnalyzerError::Overflow);
                }
                let ghost pre_nums = new_nums@;
                let v = acc as u64;
                new_nums[h][i] = v;
                proof {
                    assert(forall|h2: int|
                        0 <= h2 < k && h2 != h as int ==> #[trigger] new_nums@[h2] == pre_nums[
                        h2]);
                    assert(new_nums@[h as int]@ =~= pre_nums[h as int]@.update(i as int, v));
                }
                h = h + 1;
            }
            proof {
                assert(prop_row_fits(rel, dens0, nums0, i as int)) by {
                    assert(lcm_fold(es, dens0) == lv as int);
                    assert(rel.den_at(i as int) * lcm_fold(es, dens0) == nd as int);
                    assert forall|h2: int| 0 <= h2 < nums0.len() implies #[trigger] dot_num(
                        es,
                        dens0,
                        nums0[h2]@,
                        lcm_fold(es, dens0),
                    ) <= u64::MAX by {
                        assert(new_nums@[h2]@[i as int] as int == dot_num(
                            rel.rows@[i as int].entries@,
                            dens0,
                            nums0[h2]@,
                            lcm_fold(rel.rows@[i as int].entries@, dens0),
                        ));
                    }
                }
            }
            i = i + 1;
        }
        self.rating_nums = new_nums;
        self.rating_dens = new_dens;
        Ok(())
    }

    /// Seeds the rating matrix from the hallmark descriptions and
    /// normalizes it, then runs the configured number of propagation and
    /// re-normalization cycles. Returns the diagnostic count of unrated
    /// keywords after seeding and after each cycle. On success the
    /// rating matrix is normalized: every rated keyword's ratings sum to
    /// exactly one.
    #[verifier::loop_isolation(false)]
    pub fn compute_keyword_ratings(&mut self, hallmarks: &Vec<Hallmark>, n_steps: usize) -> (r:
        Result<Vec<usize>, AnalyzerError>)
        requires
            old(self).wf(),
            hallmarks@.len() == old(self).n_hallmarks,
        ensures
            final(self).wf(),
            final(self).keywords == old(self).keywords,
            final(self).relations == old(self).relations,
            final(self).n_keywords == old(self).n_keywords,
            final(self).n_hallmarks == old(self).n_hallmarks,
            final(self).histogram == old(self).histogram,
            r is Err ==> {
                &&& final(self).rating_dens@ == old(self).rating_dens@
                &&& final(self).rating_nums@.len() == old(self).rating_nums@.len()
                &&& forall|h: int|
                    0 <= h < old(self).rating_nums@.len()
                        ==> (#[trigger] final(self).rating_nums@[h])@
                        == old(self).rating_nums@[h]@
            },
            r is Ok ==> {
                &&& r->Ok_0@.len() == n_steps + 1
                &&& final(self).normalized()
            },
            r is Ok && n_steps == 0 ==> {
                let kwv = old(self).kwviews();
                &&& forall|h: int, i: int|
                    0 <= h < old(self).n_hallmarks && 0 <= i < old(self).n_keywords ==> (
                    #[trigger] final(self).rating_nums@[h]@[i]) as int == old(
                        self,
                    ).rating_nums@[h]@[i] + seed_add(
                        kwv,
                        crate::tokenize::first_dedup(
                            crate::tokenize::token_pipeline(hallmarks@[h].description@),
                        ),
                        i,
                    )
                &&& forall|i: int|
                    0 <= i < old(self).n_keywords ==> (#[trigger] final(self).rating_dens@[i])
                        as int == if col_sum(final(self).rating_nums@, i) > 0 {
                        col_sum(final(self).rating_nums@, i)
                    } else {
                        old(self).rating_dens@[i] as int
                    }
                &&& r->Ok_0@[0] == unrated_count(
                    final(self).rating_nums@,
                    old(self).n_keywords as int,
                )
            },
    {
        let ghost kwv = self.kwviews();
        let backup_nums = copy_rows(&self.rating_nums);
        let backup_dens = copy_words(&self.rating_dens);
        let k = self.n_hallmarks;
        let mut h: usize = 0;
        while h < k
            invariant
                h <= k,
                self.wf(),
                k == self.n_hallmarks,
                self.keywords == old(self).keywords,
                self.relations == old(self).relations,
                self.n_keywords == old(self).n_keywords,
                self.n_hallmarks == old(self).n_hallmarks,
                self.histogram == old(self).histogram,
                self.rating_dens == old(self).rating_dens,
                kwv == self.kwviews(),
                self.rating_nums@.len() == k,
                forall|h2: int, i: int|
                    0 <= h2 < k && 0 <= i < self.n_keywords ==> (
                    #[trigger] self.rating_nums@[h2]@[i]) as int == old(
                        self,
                    ).rating_nums@[h2]@[i] + if h2 < h {
                        seed_add(
                            kwv,
                            crate::tokenize::first_dedup(
                                crate::tokenize::token_pipeline(hallmarks@[h2].description@),
                            ),
                            i,
                        )
                    } else {
                        0int
                    },
            decreases k - h,
        {
            let desc = hallmarks[h].description.clone();
            let words = crate::analyzer::Analyzer::split_abstract_into_words(desc, true);
            let ghost tokens = crate::tokenize::first_dedup(
                crate::tokenize::token_pipeline(hallmarks@[h as int].description@),
            );
            let ghost wviews = views_of_strings(words@);
            proof {
                crate::tokenize::lemma_first_dedup_props(
                    crate::tokenize::token_pipeline(hallmarks@[h as int].description@),
                );
                assert(wviews.take(0) =~= Seq::<Seq<char>>::empty());
            }
            let mut t: usize = 0;
            while t < words.len()
                invariant
                    t <= words@.len(),
                    h < k,
                    wviews == views_of_strings(words@),
                    wviews == tokens,
                    forall|t1: int, t2: int|
                        0 <= t1 < t2 < wviews.len() ==> wviews[t1] != wviews[t2],
                    self.wf(),
                    k == self.n_hallmarks,
                    self.keywords == old(self).keywords,
                    self.relations == old(self).relations,
                    self.n_keywords == old(self).n_keywords,
                    self.n_hallmarks == old(self).n_hallmarks,
                    self.histogram == old(self).histogram,
                    self.rating_dens == old(self).rating_dens,
                    kwv == self.kwviews(),
                    self.rating_nums@.len() == k,
                    forall|h2: int, i: int|
                        0 <= h2 < k && 0 <= i < self.n_keywords && h2 != h as int ==> (
                        #[trigger] self.rating_nums@[h2]@[i]) as int == old(
                            self,
                        ).rating_nums@[h2]@[i] + if h2 < h as int {
                            seed_add(
                                kwv,
                                crate::tokenize::first_dedup(
                                    crate::tokenize::token_pipeline(hallmarks@[h2].description@),
                                ),
                                i,
                            )
                        } else {
                            0int
                        },
                    forall|i: int|
                        0 <= i < self.n_keywords ==> (#[trigger] self.rating_nums@[h as int]@[i])
                            as int == old(self).rating_nums@[h as int]@[i] + seed_add(
                            kwv,
                            wviews.take(t as int),
                            i,
                        ),
                decreases words@.len() - t,
            {
                let w = &words[t];
                let found = find_keyword(&self.keywords, w);
                proof {
                    assert(wviews.take(t + 1).drop_last() =~= wviews.take(t as int));
                    assert(wviews.take(t + 1).last() == wviews[t as int]);
                }
                match found {
                    Some(idx) => {
                        let cur = self.rating_nums[h][idx];
                        if cur == u64::MAX {
                            self.rating_nums = backup_nums;
                            self.rating_dens = backup_dens;
                            return Err(AnalyzerError::Overflow);
                        }
                        let ghost pre_nums = self.rating_nums@;
                        let v = cur + 1;
                        self.rating_nums[h][idx] = v;
                        proof {
                            assert(forall|h2: int|
                                0 <= h2 < k && h2 != h as int ==> #[trigger] self.rating_nums@[h2]
                                    == pre_nums[h2]);
                            assert(self.rating_nums@[h as int]@ =~= pre_nums[h as int]@.update(
                                idx as int,
                                v,
                            ));
                            let fi = first_idx_of(kwv, wviews[t as int]);
                            assert(fi == idx as int);
                            assert forall|i: int| 0 <= i < self.n_keywords implies (
                            #[trigger] self.rating_nums@[h as int]@[i]) as int == old(
                                self,
                            ).rating_nums@[h as int]@[i] + seed_add(
                                kwv,
                                wviews.take(t + 1),
                                i,
                            ) by {
                                lemma_seed_add_step(kwv, wviews, t as int, i);
                            }
                        }
                    },
                    None => {
                        proof {
                            let fi = first_idx_of(kwv, wviews[t as int]);
                            assert(fi < 0);
                            assert forall|i: int| 0 <= i < self.n_keywords implies seed_add(
                                kwv,
                                wviews.take(t + 1),
                                i,
                            ) == seed_add(kwv, wviews.take(t as int), i) by {
                                lemma_seed_add_step(kwv, wviews, t as int, i);
                            }
                        }
                    },
                }
                t = t + 1;
            }
            proof {
                assert(wviews.take(wviews.len() as int) =~= wviews);
            }
            h = h + 1;
        }
        let mut counts: Vec<usize> = Vec::new();
        let u0 = match self.normalize_keyword_rating() {
            Ok(u) => u,
            Err(e) => {
                self.rating_nums = backup_nums;
                self.rating_dens = backup_dens;
                return Err(e);
            },
        };
        counts.push(u0);
        let ghost seeded = *self;
        let mut s: usize = 0;
        while s < n_steps
            invariant
                s <= n_steps,
                counts@.len() == s + 1,
                counts@[0] == u0,
                self.wf(),
                self.keywords == old(self).keywords,
                self.relations == old(self).relations,
                self.n_keywords == old(self).n_keywords,
                self.n_hallmarks == old(self).n_hallmarks,
                self.histogram == old(self).histogram,
                self.normalized(),
                s == 0 ==> *self == seeded,
            decreases n_steps - s,
        {
            match self.update_rating() {
                Ok(()) => {},
                Err(e) => {
                    self.rating_nums = backup_nums;
                    self.rating_dens = backup_dens;
                    return Err(e);
                },
            }
            match self.normalize_keyword_rating() {
                Ok(u) => {
                    counts.push(u);
                },
                Err(e) => {
                    self.rating_nums = backup_nums;
                    self.rating_dens = backup_dens;
                    return Err(e);
                },
            }
            s = s + 1;
        }
        Ok(counts)
    }
}

/// How often `w` occurs among the article's words.
pub open spec fn occ_count(ws: Seq<Seq<char>>, w: Seq<char>) -> int
    decreases ws.len(),
{
    if ws.len() == 0 {
        0int
    } else {
        occ_count(ws.drop_last(), w) + if ws.last() == w {
            1int
        } else {
            0int
        }
    }
}

/// The common denominator of an article's score: the least common
/// multiple of the rating denominators of its recognized distinct words.
pub open spec fn rat_lcm(dws: Seq<Seq<char>>, kwv: Seq<Seq<char>>, dens: Seq<u64>) -> int
    decreases dws.len(),
{
    if dws.len() == 0 {
        1int
    } else {
        let r = rat_lcm(dws.drop_last(), kwv, dens);
        let fi = first_idx_of(kwv, dws.last());
        if fi >= 0 {
            crate::numbers::lcm(r, dens[fi] as int)
        } else {
            r
        }
    }
}

/// One hallmark's score numerator over the common denominator `l` times
/// one: the sum, over the article's recognized distinct words, of the
/// word's rating numerator times the integer square root of a million
/// times its frequency, put over the common denominator.
pub open spec fn score_num(
    dws: Seq<Seq<char>>,
    wsv: Seq<Seq<char>>,
    kwv: Seq<Seq<char>>,
    dens: Seq<u64>,
    nums_h: Seq<u64>,
    l: int,
) -> int
    decreases dws.len(),
{
    if dws.len() == 0 {
        0int
    } else {
        let r = score_num(dws.drop_last(), wsv, kwv, dens, nums_h, l);
        let fi = first_idx_of(kwv, dws.last());
        if fi >= 0 {
            r + (nums_h[fi] as int) * crate::numbers::isqrt(occ_count(wsv, dws.last()) * 1000000)
                * (l / (dens[fi] as int))
        } else {
            r
        }
    }
}

/// The grand total of an article's score numerators across hallmarks.
pub open spec fn scores_sum(
    nums: Seq<Vec<u64>>,
    dws: Seq<Seq<char>>,
    wsv: Seq<Seq<char>>,
    kwv: Seq<Seq<char>>,
    dens: Seq<u64>,
    l: int,
) -> int
    decreases nums.len(),
{
    if nums.len() == 0 {
        0int
    } else {
        scores_sum(nums.drop_last(), dws, wsv, kwv, dens, l) + score_num(
            dws,
            wsv,
            kwv,
            dens,
            nums.last()@,
            l,
        )
    }
}

/// A word occurs a nonnegative number of times.
proof fn lemma_occ_count_nonneg(ws: Seq<Seq<char>>, w: Seq<char>)
    ensures
        occ_count(ws, w) >= 0,
    decreases ws.len(),
{
    if ws.len() > 0 {
        lemma_occ_count_nonneg(ws.drop_last(), w);
    }
}

/// The score common denominator of every prefix of the distinct words
/// divides, and so never exceeds, that of the whole list.
pub proof fn lemma_rat_lcm_prefix(dws: Seq<Seq<char>>, kwv: Seq<Seq<char>>, dens: Seq<u64>, k: int)
    requires
        0 <= k <= dws.len(),
        kwv.len() == dens.len(),
        forall|i: int| 0 <= i < dens.len() ==> (#[trigger] dens[i]) >= 1,
    ensures
        1 <= rat_lcm(dws.take(k), kwv, dens),
        rat_lcm(dws, kwv, dens) % rat_lcm(dws.take(k), kwv, dens) == 0,
        rat_lcm(dws.take(k), kwv, dens) <= rat_lcm(dws, kwv, dens),
    decreases dws.len() - k,
{
    lemma_rat_lcm_pos(dws.take(k), kwv, dens);
    lemma_rat_lcm_pos(dws, kwv, dens);
    if k == dws.len() {
        assert(dws.take(k) =~= dws);
        vstd::arithmetic::div_mod::lemma_mod_self_0(rat_lcm(dws, kwv, dens));
    } else {
        lemma_rat_lcm_prefix(dws, kwv, dens, k + 1);
        assert(dws.take(k + 1).drop_last() =~= dws.take(k));
        assert(dws.take(k + 1).last() == dws[k]);
        let lk = rat_lcm(dws.take(k), kwv, dens);
        let lk1 = rat_lcm(dws.take(k + 1), kwv, dens);
        let fi = first_idx_of(kwv, dws[k]);
        if fi >= 0 {
            lemma_first_idx_of(kwv, dws[k]);
            crate::numbers::lemma_lcm_props(lk, dens[fi] as int);
        }
        assert(lk1 % lk == 0) by {
            if fi < 0 {
                vstd::arithmetic::div_mod::lemma_mod_self_0(lk);
            }
        }
        crate::numbers::lemma_divides_trans(lk, lk1, rat_lcm(dws, kwv, dens));
        crate::numbers::lemma_divides_le(lk, rat_lcm(dws, kwv, dens));
    }
}

/// The score common denominator is positive.
proof fn lemma_rat_lcm_pos(dws: Seq<Seq<char>>, kwv: Seq<Seq<char>>, dens: Seq<u64>)
    requires
        kwv.len() == dens.len(),
        forall|i: int| 0 <= i < dens.len() ==> (#[trigger] dens[i]) >= 1,
    ensures
        rat_lcm(dws, kwv, dens) >= 1,
    decreases dws.len(),
{
    if dws.len() > 0 {
        lemma_rat_lcm_pos(dws.drop_last(), kwv, dens);
        let fi = first_idx_of(kwv, dws.last());
        if fi >= 0 {
            lemma_first_idx_of(kwv, dws.last());
            crate::numbers::lemma_lcm_props(rat_lcm(dws.drop_last(), kwv, dens), dens[fi] as int);
        }
    }
}

/// A hallmark score is a sum of nonnegative contributions.
proof fn lemma_score_num_nonneg(
    dws: Seq<Seq<char>>,
    wsv: Seq<Seq<char>>,
    kwv: Seq<Seq<char>>,
    dens: Seq<u64>,
    nums_h: Seq<u64>,
    l: int,
)
    requires
        l >= 0,
        kwv.len() == dens.len(),
        forall|i: int| 0 <= i < dens.len() ==> (#[trigger] dens[i]) >= 1,
    ensures
        score_num(dws, wsv, kwv, dens, nums_h, l) >= 0,
    decreases dws.len(),
{
    if dws.len() > 0 {
        lemma_score_num_nonneg(dws.drop_last(), wsv, kwv, dens, nums_h, l);
        let fi = first_idx_of(kwv, dws.last());
        if fi >= 0 {
            lemma_first_idx_of(kwv, dws.last());
            lemma_occ_count_nonneg(wsv, dws.last());
            crate::numbers::lemma_isqrt_bounds(occ_count(wsv, dws.last()) * 1000000);
            vstd::arithmetic::div_mod::lemma_div_pos_is_pos(l, dens[fi] as int);
            assert((nums_h[fi] as int) * crate::numbers::isqrt(
                occ_count(wsv, dws.last()) * 1000000,
            ) * (l / (dens[fi] as int)) >= 0) by (nonlinear_arith)
                requires
                    nums_h[fi] as int >= 0,
                    crate::numbers::isqrt(occ_count(wsv, dws.last()) * 1000000) >= 0,
                    l / (dens[fi] as int) >= 0,
            ;
        }
    }
}

/// Every prefix of a hallmark score is nonnegative and no larger than
/// the whole.
pub proof fn lemma_score_num_mono(
    dws: Seq<Seq<char>>,
    wsv: Seq<Seq<char>>,
    kwv: Seq<Seq<char>>,
    dens: Seq<u64>,
    nums_h: Seq<u64>,
    l: int,
    k: int,
)
    requires
        0 <= k <= dws.len(),
        l >= 0,
        kwv.len() == dens.len(),
        forall|i: int| 0 <= i < dens.len() ==> (#[trigger] dens[i]) >= 1,
    ensures
        0 <= score_num(dws.take(k), wsv, kwv, dens, nums_h, l),
        score_num(dws.take(k), wsv, kwv, dens, nums_h, l) <= score_num(
            dws,
            wsv,
            kwv,
            dens,
            nums_h,
            l,
        ),
    decreases dws.len() - k,
{
    assert(forall|k2: int| 0 <= k2 < k ==> #[trigger] dws.take(k)[k2] == dws[k2]);
    lemma_score_num_nonneg(dws.take(k), wsv, kwv, dens, nums_h, l);
    if k == dws.len() {
        assert(dws.take(k) =~= dws);
    } else {
        lemma_score_num_mono(dws, wsv, kwv, dens, nums_h, l, k + 1);
        assert(dws.take(k + 1).drop_last() =~= dws.take(k));
        assert(dws.take(k + 1).last() == dws[k]);
        let fi = first_idx_of(kwv, dws[k]);
        if fi >= 0 {
            lemma_first_idx_of(kwv, dws[k]);
            lemma_occ_count_nonneg(wsv, dws[k]);
            crate::numbers::lemma_isqrt_bounds(occ_count(wsv, dws[k]) * 1000000);
            vstd::arithmetic::div_mod::lemma_div_pos_is_pos(l, dens[fi] as int);
            assert((nums_h[fi] as int) * crate::numbers::isqrt(occ_count(wsv, dws[k]) * 1000000)
                * (l / (dens[fi] as int)) >= 0) by (nonlinear_arith)
                requires
                    nums_h[fi] as int >= 0,
                    crate::numbers::isqrt(occ_count(wsv, dws[k]) * 1000000) >= 0,
                    l / (dens[fi] as int) >= 0,
            ;
        }
    }
}

/// Every prefix of the grand total is nonnegative and no larger than the
/// whole, and no hallmark's score exceeds the grand total.
pub proof fn lemma_scores_sum_bounds(
    nums: Seq<Vec<u64>>,
    dws: Seq<Seq<char>>,
    wsv: Seq<Seq<char>>,
    kwv: Seq<Seq<char>>,
    dens: Seq<u64>,
    l: int,
    k: int,
)
    requires
        0 <= k <= nums.len(),
        l >= 0,
        kwv.len() == dens.len(),
        forall|i: int| 0 <= i < dens.len() ==> (#[trigger] dens[i]) >= 1,
    ensures
        0 <= scores_sum(nums.take(k), dws, wsv, kwv, dens, l),
        scores_sum(nums.take(k), dws, wsv, kwv, dens, l) <= scores_sum(
            nums,
            dws,
            wsv,
            kwv,
            dens,
            l,
        ),
        forall|h: int|
            0 <= h < nums.len() ==> score_num(dws, wsv, kwv, dens, (#[trigger] nums[h])@, l)
                <= scores_sum(nums, dws, wsv, kwv, dens, l),
    decreases nums.len() - k,
{
    assert(forall|k2: int| 0 <= k2 < k ==> #[trigger] nums.take(k)[k2] == nums[k2]);
    if k == nums.len() {
        assert(nums.take(k) =~= nums);
        lemma_scores_sum_nonneg(nums, dws, wsv, kwv, dens, l);
        assert forall|h: int| 0 <= h < nums.len() implies score_num(
            dws,
            wsv,
            kwv,
            dens,
            (#[trigger] nums[h])@,
            l,
        ) <= scores_sum(nums, dws, wsv, kwv, dens, l) by {
            lemma_scores_sum_element(nums, dws, wsv, kwv, dens, l, h);
        }
    } else {
        lemma_scores_sum_bounds(nums, dws, wsv, kwv, dens, l, k + 1);
        assert(nums.take(k + 1).drop_last() =~= nums.take(k));
        assert(nums.take(k + 1).last() == nums[k]);
        lemma_score_num_nonneg(dws, wsv, kwv, dens, nums[k]@, l);
        lemma_scores_sum_nonneg(nums.take(k), dws, wsv, kwv, dens, l);
    }
}

/// The grand total is a sum of nonnegative scores.
proof fn lemma_scores_sum_nonneg(
    nums: Seq<Vec<u64>>,
    dws: Seq<Seq<char>>,
    wsv: Seq<Seq<char>>,
    kwv: Seq<Seq<char>>,
    dens: Seq<u64>,
    l: int,
)
    requires
        l >= 0,
        kwv.len() == dens.len(),
        forall|i: int| 0 <= i < dens.len() ==> (#[trigger] dens[i]) >= 1,
    ensures
        scores_sum(nums, dws, wsv, kwv, dens, l) >= 0,
    decreases nums.len(),
{
    if nums.len() > 0 {
        lemma_scores_sum_nonneg(nums.drop_last(), dws, wsv, kwv, dens, l);
        lemma_score_num_nonneg(dws, wsv, kwv, dens, nums.last()@, l);
    }
}

/// One hallmark's score never exceeds the grand total.
proof fn lemma_scores_sum_element(
    nums: Seq<Vec<u64>>,
    dws: Seq<Seq<char>>,
    wsv: Seq<Seq<char>>,
    kwv: Seq<Seq<char>>,
    dens: Seq<u64>,
    l: int,
    h: int,
)
    requires
        0 <= h < nums.len(),
        l >= 0,
        kwv.len() == dens.len(),
        forall|i: int| 0 <= i < dens.len() ==> (#[trigger] dens[i]) >= 1,
    ensures
        score_num(dws, wsv, kwv, dens, nums[h]@, l) <= scores_sum(nums, dws, wsv, kwv, dens, l),
    decreases nums.len(),
{
    if h == nums.len() - 1 {
        lemma_scores_sum_nonneg(nums.drop_last(), dws, wsv, kwv, dens, l);
    } else {
        assert(nums.drop_last()[h] == nums[h]);
        lemma_scores_sum_element(nums.drop_last(), dws, wsv, kwv, dens, l, h);
        lemma_score_num_nonneg(dws, wsv, kwv, dens, nums.last()@, l);
    }
}

/// How often `w` occurs among the words.
#[verifier::loop_isolation(false)]
pub fn count_occurrences(words: &Vec<String>, w: &String) -> (c: u64)
    ensures
        c as int == occ_count(views_of_strings(words@), w@),
{
    let ghost wsv = views_of_strings(words@);
    proof {
        assert(wsv.take(0) =~= Seq::<Seq<char>>::empty());
    }
    let mut c: u64 = 0;
    let mut t: usize = 0;
    while t < words.len()
        invariant
            t <= words@.len(),
            wsv == views_of_strings(words@),
            c as int == occ_count(wsv.take(t as int), w@),
            c as int <= t as int,
        decreases words@.len() - t,
    {
        proof {
            assert(wsv.take(t + 1).drop_last() =~= wsv.take(t as int));
            assert(wsv.take(t + 1).last() == words@[t as int]@);
        }
        if words[t].eq(w) {
            c = c + 1;
        }
        t = t + 1;
    }
    proof {
        assert(wsv.take(wsv.len() as int) =~= wsv);
    }
    c
}

impl AnalyzerData {
    /// Scores one article from its multiset of words: each hallmark's
    /// score is the sum, over the article's recognized distinct words, of
    /// the word's rating times the square root of its frequency, and the
    /// whole vector is divided by the grand total of those contributions,
    /// so that the scores of a scorable article sum to exactly one. An
    /// article none of whose words carries any rating gets the all-zero
    /// vector over denominator one, which the validity check rejects.
    /// Fails only when an exact value no longer fits its machine word.
    #[verifier::loop_isolation(false)]
    pub fn rate_article_keywords(&self, words: Vec<String>, id: String) -> (r: Result<
        crate::analyzer::RatedPublication,
        AnalyzerError,
    >)
        requires
            self.wf(),
        ensures
            r is Ok ==> {
                let wsv = views_of_strings(words@);
                let dws = crate::tokenize::first_dedup(wsv);
                let l = rat_lcm(dws, self.kwviews(), self.rating_dens@);
                let tot = scores_sum(
                    self.rating_nums@,
                    dws,
                    wsv,
                    self.kwviews(),
                    self.rating_dens@,
                    l,
                );
                let p = r->Ok_0;
                &&& p.i@ == id@
                &&& p.r@.len() == self.n_hallmarks
                &&& tot > 0 ==> {
                    &&& p.den as int == tot
                    &&& forall|h: int|
                        0 <= h < self.n_hallmarks ==> (#[trigger] p.r@[h]) as int == score_num(
                            dws,
                            wsv,
                            self.kwviews(),
                            self.rating_dens@,
                            self.rating_nums@[h]@,
                            l,
                        )
                    &&& crate::seqs::sum_u64(p.r@) == p.den as int
                    &&& p.den >= 1
                }
                &&& tot == 0 ==> p.den == 1 && forall|h: int|
                    0 <= h < p.r@.len() ==> (#[trigger] p.r@[h]) == 0
            },
            ({
                let wsv = views_of_strings(words@);
                let dws = crate::tokenize::first_dedup(wsv);
                let l = rat_lcm(dws, self.kwviews(), self.rating_dens@);
                r is Ok <==> l <= u64::MAX && scores_sum(
                    self.rating_nums@,
                    dws,
                    wsv,
                    self.kwviews(),
                    self.rating_dens@,
                    l,
                ) <= u64::MAX
            }),
    {
        let ghost wsv = views_of_strings(words@);
        let ghost kwv = self.kwviews();
        let ghost dens = self.rating_dens@;
        let ghost nums = self.rating_nums@;
        proof {
            assert(kwv.len() == dens.len());
            assert(forall|i2: int| 0 <= i2 < dens.len() ==> (#[trigger] dens[i2]) >= 1);
        }
        let k = self.n_hallmarks;
        // The distinct words, in first-occurrence order.
        let mut dws: Vec<String> = Vec::new();
        let mut t: usize = 0;
        proof {
            assert(wsv.take(0) =~= Seq::<Seq<char>>::empty());
        }
        while t < words.len()
            invariant
                t <= words@.len(),
                wsv == views_of_strings(words@),
                views_of_strings(dws@) == crate::tokenize::first_dedup(wsv.take(t as int)),
            decreases words@.len() - t,
        {
            proof {
                assert(wsv.take(t + 1).drop_last() =~= wsv.take(t as int));
                assert(wsv.take(t + 1).last() == words@[t as int]@);
            }
            let seen = crate::tokenize::contains_word(&dws, &words[t]);
            if !seen {
                let ghost old_dws = dws@;
                let w = words[t].clone();
                dws.push(w);
                proof {
                    assert(views_of_strings(dws@) =~= views_of_strings(old_dws).push(
                        words@[t as int]@,
                    ));
                }
            }
            t = t + 1;
        }
        proof {
            assert(wsv.take(wsv.len() as int) =~= wsv);
        }
        let ghost dwsv = views_of_strings(dws@);
        proof {
            assert(dwsv.take(0) =~= Seq::<Seq<char>>::empty());
        }
        // The common denominator of the article's score.
        let mut lv: u64 = 1;
        let mut t2: usize = 0;
        while t2 < dws.len()
            invariant
                t2 <= dws@.len(),
                dwsv == views_of_strings(dws@),
                lv >= 1,
                lv as int == rat_lcm(dwsv.take(t2 as int), kwv, dens),
            decreases dws@.len() - t2,
        {
            proof {
                assert(dwsv.take(t2 + 1).drop_last() =~= dwsv.take(t2 as int));
                assert(dwsv.take(t2 + 1).last() == dws@[t2 as int]@);
            }
            let found = find_keyword(&self.keywords, &dws[t2]);
            match found {
                Some(i) => {
                    let d = self.rating_dens[i];
                    match crate::numbers::lcm_u64(lv, d) {
                        Some(x) => {
                            lv = x;
                        },
                        None => {
                            proof {
                                lemma_rat_lcm_prefix(dwsv, kwv, dens, t2 + 1);
                                assert(rat_lcm(dwsv, kwv, dens) >= rat_lcm(
                                    dwsv.take(t2 + 1),
                                    kwv,
                                    dens,
                                ));
                            }
                            return Err(AnalyzerError::Overflow);
                        },
                    }
                },
                None => {},
            }
            t2 = t2 + 1;
        }
        proof {
            assert(dwsv.take(dwsv.len() as int) =~= dwsv);
        }
        // One score numerator per hallmark.
        let mut scores: Vec<u128> = Vec::new();
        let mut h: usize = 0;
        while h < k
            invariant
                h <= k,
                k == self.n_hallmarks,
                dwsv == views_of_strings(dws@),
                lv as int == rat_lcm(dwsv, kwv, dens),
                scores@.len() == h,
                forall|h2: int|
                    0 <= h2 < h ==> (#[trigger] scores@[h2]) as int == score_num(
                        dwsv,
                        wsv,
                        kwv,
                        dens,
                        nums[h2]@,
                        lv as int,
                    ),
            decreases k - h,
        {
            let mut acc: u128 = 0;
            let mut t3: usize = 0;
            proof {
                assert(dwsv.take(0) =~= Seq::<Seq<char>>::empty());
            }
            while t3 < dws.len()
                invariant
                    t3 <= dws@.len(),
                    h < k,
                    k == self.n_hallmarks,
                    dwsv == views_of_strings(dws@),
                    lv as int == rat_lcm(dwsv, kwv, dens),
                    acc as int == score_num(dwsv.take(t3 as int), wsv, kwv, dens, nums[h as int]@, lv as int),
                decreases dws@.len() - t3,
            {
                proof {
                    assert(dwsv.take(t3 + 1).drop_last() =~= dwsv.take(t3 as int));
                    assert(dwsv.take(t3 + 1).last() == dws@[t3 as int]@);
                }
                let found = find_keyword(&self.keywords, &dws[t3]);
                match found {
                    Some(i) => {
                        let freq = count_occurrences(&words, &dws[t3]);
                        proof {
                            assert(0xFFFF_FFFF_FFFF_FFFFu128 * 1000000u128 < (1u128 << 84))
                                by (bit_vector);
                        }
                        let wt = crate::numbers::isqrt_u128((freq as u128) * 1000000u128);
                        let d = self.rating_dens[i];
                        let w128: u128 = (lv / d) as u128;
                        let t1v: u128 = crate::analyzer::mul_u64_wide(self.rating_nums[h][i], wt);
                        proof {
                            lemma_score_num_mono(dwsv, wsv, kwv, dens, nums[h as int]@, lv as int, t3 as int);
                            lemma_score_num_mono(dwsv, wsv, kwv, dens, nums[h as int]@, lv as int, t3 + 1);
                            assert(score_num(dwsv.take(t3 + 1), wsv, kwv, dens, nums[h as int]@, lv as int)
                                == acc + (t1v as int) * (w128 as int));
                            lemma_scores_sum_bounds(nums, dwsv, wsv, kwv, dens, lv as int, 0);
                        }
                        let t2v = match t1v.checked_mul(w128) {
                            Some(x) => x,
                            None => {
                                return Err(AnalyzerError::Overflow);
                            },
                        };
                        let acc2 = match acc.checked_add(t2v) {
                            Some(x) => x,
                            None => {
                                return Err(AnalyzerError::Overflow);
                            },
                        };
                        acc = acc2;
                    },
                    None => {},
                }
                t3 = t3 + 1;
            }
            proof {
                assert(dwsv.take(dwsv.len() as int) =~= dwsv);
            }
            scores.push(acc);
            h = h + 1;
        }
        // The grand total across hallmarks.
        proof {
            assert(nums.take(0) =~= Seq::<Vec<u64>>::empty());
        }
        let mut tot: u128 = 0;
        let mut h2: usize = 0;
        while h2 < k
            invariant
                h2 <= k,
                k == self.n_hallmarks,
                scores@.len() == k,
                forall|h3: int|
                    0 <= h3 < k ==> (#[trigger] scores@[h3]) as int == score_num(
                        dwsv,
                        wsv,
                        kwv,
                        dens,
                        nums[h3]@,
                        lv as int,
                    ),
                tot as int == scores_sum(nums.take(h2 as int), dwsv, wsv, kwv, dens, lv as int),
            decreases k - h2,
        {
            proof {
                assert(nums.take(h2 + 1).drop_last() =~= nums.take(h2 as int));
                assert(nums.take(h2 + 1).last() == nums[h2 as int]);
            }
            let tot2 = match tot.checked_add(scores[h2]) {
                Some(x) => x,
                None => {
                    proof {
                        lemma_scores_sum_bounds(nums, dwsv, wsv, kwv, dens, lv as int, h2 + 1);
                    }
                    return Err(AnalyzerError::Overflow);
                },
            };
            tot = tot2;
            h2 = h2 + 1;
        }
        proof {
            assert(nums.take(nums.len() as int) =~= nums);
        }
        if tot == 0 {
            let zr: Vec<u64> = vec![0u64; k];
            proof {
                assert(zr@ =~= Seq::<u64>::new(k as nat, |x: int| 0u64));
            }
            return Ok(crate::analyzer::RatedPublication { i: id, r: zr, den: 1 });
        }
        if tot > 0xFFFF_FFFF_FFFF_FFFFu128 {
            return Err(AnalyzerError::Overflow);
        }
        let mut rv: Vec<u64> = Vec::new();
        let mut h3: usize = 0;
        proof {
            assert(rv@.take(0) =~= Seq::<u64>::empty());
        }
        while h3 < k
            invariant
                h3 <= k,
                k == self.n_hallmarks,
                scores@.len() == k,
                forall|h4: int|
                    0 <= h4 < k ==> (#[trigger] scores@[h4]) as int == score_num(
                        dwsv,
                        wsv,
                        kwv,
                        dens,
                        nums[h4]@,
                        lv as int,
                    ),
                rv@.len() == h3,
                forall|h4: int| 0 <= h4 < h3 ==> (#[trigger] rv@[h4]) as int == scores@[h4] as int,
                crate::seqs::sum_u64(rv@) == scores_sum(
                    nums.take(h3 as int),
                    dwsv,
                    wsv,
                    kwv,
                    dens,
                    lv as int,
                ),
            decreases k - h3,
        {
            proof {
                assert(nums.take(h3 + 1).drop_last() =~= nums.take(h3 as int));
                assert(nums.take(h3 + 1).last() == nums[h3 as int]);
            }
            let sc = scores[h3];
            if sc > 0xFFFF_FFFF_FFFF_FFFFu128 {
                proof {
                    lemma_scores_sum_bounds(nums, dwsv, wsv, kwv, dens, lv as int, 0);
                    assert(false);
                }
                return Err(AnalyzerError::Overflow);
            }
            let ghost pre_rv = rv@;
            rv.push(sc as u64);
            proof {
                assert(rv@.drop_last() =~= pre_rv);
            }
            h3 = h3 + 1;
        }
        proof {
            assert(nums.take(nums.len() as int) =~= nums);
        }
        Ok(crate::analyzer::RatedPublication { i: id, r: rv, den: tot as u64 })
    }

    /// The persistent rating artifact: the hallmark list echoed back
    /// unchanged, and, for every vocabulary keyword in index order, its
    /// word with its rating numerators and shared denominator.
    #[verifier::loop_isolation(false)]
    pub fn rating_output(&self, hallmarks: &Vec<Hallmark>) -> (r: FullRunOutput)
        requires
            self.wf(),
        ensures
            r.hallmarks@.len() == hallmarks@.len(),
            forall|x: int|
                0 <= x < hallmarks@.len() ==> (#[trigger] r.hallmarks@[x]).title@
                    == hallmarks@[x].title@ && r.hallmarks@[x].description@
                    == hallmarks@[x].description@,
            r.rating_output@.len() == self.n_keywords,
            forall|i: int|
                0 <= i < self.n_keywords ==> {
                    let o = #[trigger] r.rating_output@[i];
                    &&& o.keyword@ == self.keywords@[i]@
                    &&& o.den == self.rating_dens@[i]
                    &&& o.rating@.len() == self.n_hallmarks
                    &&& forall|h: int|
                        0 <= h < self.n_hallmarks ==> (#[trigger] o.rating@[h]) as int
                            == self.rating_num(h, i)
                },
    {
        let mut hs: Vec<Hallmark> = Vec::new();
        let mut x: usize = 0;
        while x < hallmarks.len()
            invariant
                x <= hallmarks@.len(),
                hs@.len() == x,
                forall|y: int|
                    0 <= y < x ==> (#[trigger] hs@[y]).title@ == hallmarks@[y].title@
                        && hs@[y].description@ == hallmarks@[y].description@,
            decreases hallmarks@.len() - x,
        {
            let title = hallmarks[x].title.clone();
            let description = hallmarks[x].description.clone();
            hs.push(Hallmark { title, description });
            x = x + 1;
        }
        let mut out: Vec<HallmarkRatingOutput> = Vec::new();
        let mut i: usize = 0;
        let n = self.n_keywords;
        let k = self.n_hallmarks;
        while i < n
            invariant
                i <= n,
                n == self.n_keywords,
                k == self.n_hallmarks,
                out@.len() == i,
                forall|i2: int|
                    0 <= i2 < i ==> {
                        let o = #[trigger] out@[i2];
                        &&& o.keyword@ == self.keywords@[i2]@
                        &&& o.den == self.rating_dens@[i2]
                        &&& o.rating@.len() == k
                        &&& forall|h: int|
                            0 <= h < k ==> (#[trigger] o.rating@[h]) as int == self.rating_num(
                                h,
                                i2,
                            )
                    },
            decreases n - i,
        {
            let keyword = self.keywords[i].clone();
            let mut rating: Vec<u64> = Vec::new();
            let mut h: usize = 0;
            while h < k
                invariant
                    h <= k,
                    i < n,
                    n == self.n_keywords,
                    k == self.n_hallmarks,
                    rating@.len() == h,
                    forall|h2: int|
                        0 <= h2 < h ==> (#[trigger] rating@[h2]) as int == self.rating_num(
                            h2,
                            i as int,
                        ),
                decreases k - h,
            {
                let v = self.rating_nums[h][i];
                rating.push(v);
                h = h + 1;
            }
            out.push(HallmarkRatingOutput { keyword, rating, den: self.rating_dens[i] });
            i = i + 1;
        }
        FullRunOutput { hallmarks: hs, rating_output: out }
    }
}

/// A fresh copy of the rating numerators.
#[verifier::loop_isolation(false)]
fn copy_rows(v: &Vec<Vec<u64>>) -> (r: Vec<Vec<u64>>)
    ensures
        r@.len() == v@.len(),
        forall|h: int| 0 <= h < v@.len() ==> (#[trigger] r@[h])@ == v@[h]@,
{
    let mut r: Vec<Vec<u64>> = Vec::new();
    let mut h: usize = 0;
    while h < v.len()
        invariant
            h <= v@.len(),
            r@.len() == h,
            forall|h2: int| 0 <= h2 < h ==> (#[trigger] r@[h2])@ == v@[h2]@,
        decreases v@.len() - h,
    {
        let mut row: Vec<u64> = Vec::new();
        let mut i: usize = 0;
        while i < v[h].len()
            invariant
                h < v@.len(),
                i <= v@[h as int]@.len(),
                row@ == v@[h as int]@.take(i as int),
            decreases v@[h as int]@.len() - i,
        {
            let x = v[h][i];
            row.push(x);
            proof {
                assert(row@ =~= v@[h as int]@.take(i + 1));
            }
            i = i + 1;
        }
        proof {
            assert(row@ =~= v@[h as int]@);
        }
        r.push(row);
        h = h + 1;
    }
    r
}

/// A fresh copy of the rating denominators.
#[verifier::loop_isolation(false)]
fn copy_words(v: &Vec<u64>) -> (r: Vec<u64>)
    ensures
        r@ == v@,
{
    let mut r: Vec<u64> = Vec::new();
    let mut i: usize = 0;
    while i < v.len()
        invariant
            i <= v@.len(),
            r@ == v@.take(i as int),
        decreases v@.len() - i,
    {
        let x = v[i];
        r.push(x);
        proof {
            assert(r@ =~= v@.take(i + 1));
        }
        i = i + 1;
    }
    proof {
        assert(r@ =~= v@);
    }
    r
}

/// One where a keyword's rating column gains a seed: some token of the
/// hallmark's description has that keyword's index as its
/// first-occurrence position in the keyword list.
pub open spec fn seed_add(kwv: Seq<Seq<char>>, tokens: Seq<Seq<char>>, i: int) -> int {
    if exists|t: int| 0 <= t < tokens.len() && first_idx_of(kwv, #[trigger] tokens[t]) == i {
        1int
    } else {
        0int
    }
}

/// Extending the seen tokens by one changes `seed_add` only at that
/// token's keyword index, and only from zero to one.
proof fn lemma_seed_add_step(kwv: Seq<Seq<char>>, tokens: Seq<Seq<char>>, t: int, i: int)
    requires
        0 <= t < tokens.len(),
        0 <= i,
        forall|t1: int, t2: int| 0 <= t1 < t2 < tokens.len() ==> tokens[t1] != tokens[t2],
    ensures
        seed_add(kwv, tokens.take(t + 1), i) == if first_idx_of(kwv, tokens[t]) == i {
            1int
        } else {
            seed_add(kwv, tokens.take(t), i)
        },
        first_idx_of(kwv, tokens[t]) == i ==> seed_add(kwv, tokens.take(t), i) == 0,
{
    let tv1 = tokens.take(t + 1);
    let tv0 = tokens.take(t);
    assert(forall|x: int| 0 <= x < t + 1 ==> tv1[x] == tokens[x]);
    assert(forall|x: int| 0 <= x < t ==> tv0[x] == tokens[x]);
    if first_idx_of(kwv, tokens[t]) == i {
        assert(0 <= t < tv1.len() && first_idx_of(kwv, tv1[t]) == i);
        assert(seed_add(kwv, tv1, i) == 1);
        if seed_add(kwv, tv0, i) == 1 {
            let t2 = choose|t2: int| 0 <= t2 < tv0.len() && first_idx_of(kwv, tv0[t2]) == i;
            lemma_first_idx_of(kwv, tokens[t2]);
            lemma_first_idx_of(kwv, tokens[t]);
            assert(kwv[i] == tokens[t2] && kwv[i] == tokens[t]);
            assert(false);
        }
    } else {
        if seed_add(kwv, tv0, i) == 1 {
            let t2 = choose|t2: int| 0 <= t2 < tv0.len() && first_idx_of(kwv, tv0[t2]) == i;
            assert(0 <= t2 < tv1.len() && first_idx_of(kwv, tv1[t2]) == i);
        }
        if seed_add(kwv, tv1, i) == 1 {
            let t2 = choose|t2: int| 0 <= t2 < tv1.len() && first_idx_of(kwv, tv1[t2]) == i;
            if t2 == t {
                assert(first_idx_of(kwv, tokens[t]) == i);
                assert(false);
            } else {
                assert(0 <= t2 < tv0.len() && first_idx_of(kwv, tv0[t2]) == i);
            }
        }
    }
}

/// Whether the unordered index pair `(i, j)` has been counted once the
/// pair loops have reached outer position `p` and inner position `q`.
spec fn pair_flag(rec: Seq<int>, p: int, q: int, i: int, j: int) -> int {
    if rec.contains(i) && rec.contains(j) && {
        let pi = first_idx_of(rec, i);
        let pj = first_idx_of(rec, j);
        let lo = if pi <= pj {
            pi
        } else {
            pj
        };
        let hi = if pi <= pj {
            pj
        } else {
            pi
        };
        lo < p || (lo == p && hi < q)
    } {
        1int
    } else {
        0int
    }
}

/// Recognized indices of pairwise distinct words are pairwise distinct:
/// two words can only share a first-occurrence position in the keyword
/// list by being the same word.
proof fn lemma_rec_distinct(kwv: Seq<Seq<char>>, ws: Seq<Seq<char>>)
    requires
        forall|t1: int, t2: int| 0 <= t1 < t2 < ws.len() ==> ws[t1] != ws[t2],
    ensures
        forall|k1: int, k2: int|
            0 <= k1 < k2 < rec_idx_seq(kwv, ws).len() ==> rec_idx_seq(kwv, ws)[k1] != rec_idx_seq(
                kwv,
                ws,
            )[k2],
        forall|k: int|
            0 <= k < rec_idx_seq(kwv, ws).len() ==> 0 <= #[trigger] rec_idx_seq(kwv, ws)[k]
                < kwv.len(),
        forall|k: int|
            0 <= k < rec_idx_seq(kwv, ws).len() ==> exists|t: int|
                0 <= t < ws.len() && #[trigger] first_idx_of(kwv, ws[t]) == #[trigger] rec_idx_seq(
                    kwv,
                    ws,
                )[k],
    decreases ws.len(),
{
    if ws.len() > 0 {
        let d = ws.drop_last();
        assert(forall|k: int| 0 <= k < d.len() ==> d[k] == ws[k]);
        lemma_rec_distinct(kwv, d);
        let r = rec_idx_seq(kwv, d);
        let rec = rec_idx_seq(kwv, ws);
        let fi = first_idx_of(kwv, ws.last());
        lemma_first_idx_of(kwv, ws.last());
        if fi >= 0 {
            assert forall|k1: int, k2: int| 0 <= k1 < k2 < rec.len() implies rec[k1]
                != rec[k2] by {
                if k2 == rec.len() - 1 {
                    assert(rec[k1] == r[k1]);
                    let t = choose|t: int| 0 <= t < d.len() && first_idx_of(kwv, d[t]) == r[k1];
                    if r[k1] == fi {
                        lemma_first_idx_of(kwv, d[t]);
                        assert(kwv[fi] == d[t]);
                        assert(kwv[fi] == ws.last());
                        assert(ws[t] == ws[ws.len() - 1]);
                        assert(false);
                    }
                }
            }
            assert forall|k: int| #![trigger rec[k]] 0 <= k < rec.len() implies exists|t: int|
                0 <= t < ws.len() && #[trigger] first_idx_of(kwv, ws[t]) == rec[k] by {
                if k < rec.len() - 1 {
                    let t = choose|t: int| 0 <= t < d.len() && first_idx_of(kwv, d[t]) == r[k];
                    assert(ws[t] == d[t]);
                    assert(first_idx_of(kwv, ws[t]) == rec[k]);
                } else {
                    assert(first_idx_of(kwv, ws[ws.len() - 1]) == rec[k]);
                }
            }
        } else {
            assert forall|k: int| #![trigger rec[k]] 0 <= k < rec.len() implies exists|t: int|
                0 <= t < ws.len() && #[trigger] first_idx_of(kwv, ws[t]) == rec[k] by {
                let t = choose|t: int| 0 <= t < d.len() && first_idx_of(kwv, d[t]) == r[k];
                assert(ws[t] == d[t]);
                assert(first_idx_of(kwv, ws[t]) == rec[k]);
            }
        }
    }
}

/// The position of `w` in the keyword list, under the first-occurrence
/// index assignment, or `None` when `w` is not a keyword.
#[verifier::loop_isolation(false)]
pub fn find_keyword(keywords: &Vec<String>, w: &String) -> (r: Option<usize>)
    ensures
        match r {
            Some(i) => i < keywords@.len() && first_idx_of(views_of_strings(keywords@), w@)
                == i as int,
            None => first_idx_of(views_of_strings(keywords@), w@) < 0,
        },
{
    let ghost kwv = views_of_strings(keywords@);
    proof {
        lemma_first_idx_of(kwv, w@);
    }
    let mut t: usize = 0;
    while t < keywords.len()
        invariant
            t <= keywords@.len(),
            forall|k: int| 0 <= k < t ==> kwv[k] != w@,
        decreases keywords@.len() - t,
    {
        if keywords[t].eq(w) {
            proof {
                assert(kwv[t as int] == w@);
                assert(kwv.contains(w@));
                let fi = first_idx_of(kwv, w@);
                assert(kwv[fi] == w@);
                assert(fi >= t as int || kwv[fi] != w@);
                assert(fi <= t as int);
            }
            return Some(t);
        }
        t = t + 1;
    }
    proof {
        if kwv.contains(w@) {
            let k = choose|k: int| 0 <= k < kwv.len() && kwv[k] == w@;
            assert(false);
        }
    }
    None
}

/// Normalizing an already-normalized rating matrix is a no-op: the
/// numerators are untouched by normalization, so each column sum is
/// unchanged, and the denominators it assigns come out the same.
pub proof fn lemma_normalize_idempotent(
    nums: Seq<Vec<u64>>,
    dens0: Seq<u64>,
    dens1: Seq<u64>,
    dens2: Seq<u64>,
    n: int,
)
    requires
        dens0.len() == n,
        dens1.len() == n,
        dens2.len() == n,
        forall|i: int|
            0 <= i < n ==> (#[trigger] dens1[i]) as int == if col_sum(nums, i) > 0 {
                col_sum(nums, i)
            } else {
                dens0[i] as int
            },
        forall|i: int|
            0 <= i < n ==> (#[trigger] dens2[i]) as int == if col_sum(nums, i) > 0 {
                col_sum(nums, i)
            } else {
                dens1[i] as int
            },
    ensures
        dens2 =~= dens1,
{
}

/// After normalization, every keyword with at least one nonzero rating
/// has its ratings over the hallmarks summing to exactly one: the
/// numerators of its column sum to its shared denominator.
pub proof fn lemma_rated_column_sums_to_one(nums: Seq<Vec<u64>>, dens: Seq<u64>, i: int)
    requires
        0 <= i < dens.len(),
        col_sum(nums, i) > 0,
        dens[i] as int == if col_sum(nums, i) > 0 {
            col_sum(nums, i)
        } else {
            dens[i] as int
        },
    ensures
        col_sum(nums, i) == dens[i] as int,
        dens[i] >= 1,
{
}

} // verus!
