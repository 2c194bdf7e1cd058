//! The vocabulary builder: scans abstracts, counts in how many articles
//! each candidate word appears, and keeps the words whose document
//! frequency lies strictly between the two configured cutoff fractions of
//! the input-partition count.
use vstd::prelude::*;
use crate::tokenize::{
    chars_of, clean_chars, clear_punct_chars, contains_word, first_dedup, lowercase,
    split_on_spaces, string_of_chars, token_pipeline, views_of_strings, cleaned_tokens,
};

verus! {

/// An exact fraction used for the document-frequency cutoffs.
#[derive(Clone, Copy)]
pub struct Fraction {
    pub num: u64,
    pub den: u64,
}

/// A candidate word and the number of articles whose abstract contains it.
pub struct WordCount {
    pub word: String,
    pub count: u64,
}

/// The vocabulary builder: candidate words with their document
/// frequencies, and the two cutoff fractions of the run.
pub struct Analyzer {
    pub keyword_candidates: Vec<WordCount>,
    pub lower_cutoff: Fraction,
    pub upper_cutoff: Fraction,
}

/// The document-frequency count recorded for `w`, or zero.
pub open spec fn cand_count(cs: Seq<WordCount>, w: Seq<char>) -> int
    decreases cs.len(),
{
    if cs.len() == 0 {
        0
    } else if cs.last().word@ == w {
        cs.last().count as int
    } else {
        cand_count(cs.drop_last(), w)
    }
}

/// No candidate word occurs twice, and every count is positive.
pub open spec fn cands_wf(cs: Seq<WordCount>) -> bool {
    &&& forall|k1: int, k2: int|
        0 <= k1 < k2 < cs.len() ==> (#[trigger] cs[k1]).word@ != (#[trigger] cs[k2]).word@
    &&& forall|k: int| 0 <= k < cs.len() ==> (#[trigger] cs[k]).count >= 1
}

/// A recorded candidate makes the looked-up count positive.
proof fn lemma_cand_count_positive(cs: Seq<WordCount>, k: int, w: Seq<char>)
    requires
        0 <= k < cs.len(),
        cs[k].word@ == w,
        forall|k2: int| 0 <= k2 < cs.len() ==> (#[trigger] cs[k2]).count >= 1,
    ensures
        cand_count(cs, w) >= 1,
    decreases cs.len(),
{
    if cs.last().word@ == w {
    } else {
        assert(cs.drop_last()[k] == cs[k]);
        lemma_cand_count_positive(cs.drop_last(), k, w);
    }
}

/// Updating one candidate's count (keeping its word) changes the
/// looked-up count of that word alone.
proof fn lemma_cand_count_update(cs: Seq<WordCount>, k: int, e: WordCount, w: Seq<char>)
    requires
        0 <= k < cs.len(),
        forall|k1: int, k2: int|
            0 <= k1 < k2 < cs.len() ==> (#[trigger] cs[k1]).word@ != (#[trigger] cs[k2]).word@,
        e.word@ == cs[k].word@,
    ensures
        cand_count(cs.update(k, e), w) == if w == e.word@ {
            e.count as int
        } else {
            cand_count(cs, w)
        },
    decreases cs.len(),
{
    let up = cs.update(k, e);
    if k == cs.len() - 1 {
        assert(up.last() == e);
        assert(up.drop_last() =~= cs.drop_last());
    } else {
        assert(up.last() == cs.last());
        assert(up.drop_last() =~= cs.drop_last().update(k, e));
        assert(forall|k1: int|
            0 <= k1 < cs.drop_last().len() ==> #[trigger] cs.drop_last()[k1] == cs[k1]);
        lemma_cand_count_update(cs.drop_last(), k, e, w);
        assert(cs.last().word@ != e.word@);
    }
}

/// Whether a document-frequency count is admitted by the cutoffs: strictly
/// above `lower` and strictly below `upper`, both taken as fractions of
/// the number of input partitions.
pub open spec fn admitted(count: int, lower: Fraction, upper: Fraction, files: int) -> bool {
    &&& count * lower.den > lower.num * files
    &&& count * upper.den < upper.num * files
}

/// The candidate list restricted to the admitted counts, in order.
pub open spec fn purged(cs: Seq<WordCount>, lower: Fraction, upper: Fraction, files: int) -> Seq<
    WordCount,
>
    decreases cs.len(),
{
    if cs.len() == 0 {
        Seq::empty()
    } else {
        let r = purged(cs.drop_last(), lower, upper, files);
        if admitted(cs.last().count as int, lower, upper, files) {
            r.push(cs.last())
        } else {
            r
        }
    }
}

/// Every candidate that survives the purge has an admitted count: its
/// document frequency lies strictly between the two cutoff fractions of
/// the partition count.
pub proof fn lemma_purged_admitted(cs: Seq<WordCount>, lower: Fraction, upper: Fraction, files: int)
    ensures
        forall|k: int|
            0 <= k < purged(cs, lower, upper, files).len() ==> admitted(
                (#[trigger] purged(cs, lower, upper, files)[k]).count as int,
                lower,
                upper,
                files,
            ),
    decreases cs.len(),
{
    if cs.len() > 0 {
        lemma_purged_admitted(cs.drop_last(), lower, upper, files);
        let r = purged(cs.drop_last(), lower, upper, files);
        let p = purged(cs, lower, upper, files);
        assert forall|k: int| 0 <= k < p.len() implies admitted(
            (#[trigger] p[k]).count as int,
            lower,
            upper,
            files,
        ) by {
            if k < r.len() {
                assert(p[k] == r[k]);
            } else {
                assert(p[k] == cs.last());
            }
        }
    }
}

/// The product of two machine words, wide enough never to overflow.
pub fn mul_u64_wide(a: u64, b: u64) -> (r: u128)
    ensures
        r as int == (a as int) * (b as int),
{
    proof {
        assert((a as int) * (b as int) <= (0xFFFF_FFFF_FFFF_FFFFu64 as int)
            * (0xFFFF_FFFF_FFFF_FFFFu64 as int)) by (nonlinear_arith)
            requires
                a <= 0xFFFF_FFFF_FFFF_FFFFu64,
                b <= 0xFFFF_FFFF_FFFF_FFFFu64,
        ;
    }
    (a as u128) * (b as u128)
}

/// The purge keeps a subsequence: every surviving candidate was already
/// recorded, and the survivors stay pairwise distinct.
proof fn lemma_purged_sub(cs: Seq<WordCount>, lower: Fraction, upper: Fraction, files: int)
    requires
        cands_wf(cs),
    ensures
        cands_wf(purged(cs, lower, upper, files)),
        forall|k: int|
            0 <= k < purged(cs, lower, upper, files).len() ==> cs.contains(
                #[trigger] purged(cs, lower, upper, files)[k],
            ),
    decreases cs.len(),
{
    if cs.len() > 0 {
        assert(forall|k1: int|
            0 <= k1 < cs.drop_last().len() ==> #[trigger] cs.drop_last()[k1] == cs[k1]);
        lemma_purged_sub(cs.drop_last(), lower, upper, files);
        let r = purged(cs.drop_last(), lower, upper, files);
        let p = purged(cs, lower, upper, files);
        assert forall|k: int| 0 <= k < p.len() implies cs.contains(#[trigger] p[k]) by {
            if k < r.len() {
                assert(p[k] == r[k]);
                assert(cs.drop_last().contains(r[k]));
                let k2 = choose|k2: int|
                    0 <= k2 < cs.drop_last().len() && cs.drop_last()[k2] == r[k];
                assert(cs[k2] == r[k]);
            } else {
                assert(p[k] == cs.last());
                assert(cs[cs.len() - 1] == cs.last());
            }
        }
        assert forall|k1: int, k2: int| 0 <= k1 < k2 < p.len() implies (#[trigger] p[k1]).word@
            != (#[trigger] p[k2]).word@ by {
            if k2 < r.len() {
            } else if admitted(cs.last().count as int, lower, upper, files) && k2 == r.len() {
                assert(p[k1] == r[k1]);
                assert(cs.drop_last().contains(r[k1]));
                let j = choose|j: int|
                    0 <= j < cs.drop_last().len() && cs.drop_last()[j] == r[k1];
                assert(cs[j] == r[k1]);
                assert(cs[j].word@ != cs.last().word@);
            }
        }
    }
}

impl Analyzer {
    /// The candidate words and counts are well formed.
    pub open spec fn wf(self) -> bool {
        &&& cands_wf(self.keyword_candidates@)
        &&& self.lower_cutoff.den >= 1
        &&& self.upper_cutoff.den >= 1
    }

    /// A fresh vocabulary builder with the given cutoff fractions and no
    /// candidates yet.
    pub fn new(lower_cutoff: Fraction, upper_cutoff: Fraction) -> (r: Analyzer)
        requires
            lower_cutoff.den >= 1,
            upper_cutoff.den >= 1,
        ensures
            r.wf(),
            r.keyword_candidates@.len() == 0,
            r.lower_cutoff == lower_cutoff,
            r.upper_cutoff == upper_cutoff,
    {
        Analyzer { keyword_candidates: Vec::new(), lower_cutoff, upper_cutoff }
    }

    /// Splits an abstract into normalized tokens: punctuation is blanked,
    /// the text lower-cased and split on whitespace, hyphens stripped at
    /// the token edges, and tokens of at most four characters dropped.
    /// With `dedupe`, every repetition of an earlier token is removed.
    #[verifier::loop_isolation(false)]
    pub fn split_abstract_into_words(paper_abstract: String, dedupe: bool) -> (r: Vec<String>)
        ensures
            views_of_strings(r@) == if dedupe {
                first_dedup(token_pipeline(paper_abstract@))
            } else {
                token_pipeline(paper_abstract@)
            },
    {
        let cs = chars_of(paper_abstract.as_str());
        let cleared = clear_punct_chars(&cs);
        let cleared_s = string_of_chars(&cleared);
        let lowered = lowercase(cleared_s.as_str());
        let lcs = chars_of(lowered.as_str());
        let raw = split_on_spaces(&lcs);
        let ghost raw_views = raw@.map_values(|t: Vec<char>| t@);
        let mut out: Vec<String> = Vec::new();
        let mut t: usize = 0;
        proof {
            assert(raw_views.take(0) =~= Seq::<Seq<char>>::empty());
        }
        while t < raw.len()
            invariant
                t <= raw@.len(),
                views_of_strings(out@) == cleaned_tokens(raw_views.take(t as int)),
            decreases raw@.len() - t,
        {
            proof {
                assert(raw_views.take(t + 1).drop_last() =~= raw_views.take(t as int));
                assert(raw_views.take(t + 1).last() == raw@[t as int]@);
            }
            let c = clean_chars(&raw[t]);
            let ghost old_out = out@;
            if c.len() > 4 {
                let w = string_of_chars(&c);
                out.push(w);
                proof {
                    assert(views_of_strings(out@) =~= views_of_strings(old_out).push(c@));
                }
            }
            t = t + 1;
        }
        proof {
            assert(raw_views.take(raw_views.len() as int) =~= raw_views);
        }
        if dedupe {
            let ghost tok_views = views_of_strings(out@);
            let mut out2: Vec<String> = Vec::new();
            let mut t2: usize = 0;
            proof {
                assert(tok_views.take(0) =~= Seq::<Seq<char>>::empty());
            }
            while t2 < out.len()
                invariant
                    t2 <= out@.len(),
                    tok_views == views_of_strings(out@),
                    views_of_strings(out2@) == first_dedup(tok_views.take(t2 as int)),
                decreases out@.len() - t2,
            {
                proof {
                    assert(tok_views.take(t2 + 1).drop_last() =~= tok_views.take(t2 as int));
                    assert(tok_views.take(t2 + 1).last() == out@[t2 as int]@);
                }
                let seen = contains_word(&out2, &out[t2]);
                if !seen {
                    let ghost old_out2 = out2@;
                    let w = out[t2].clone();
                    out2.push(w);
                    proof {
                        assert(views_of_strings(out2@) =~= views_of_strings(old_out2).push(
                            out@[t2 as int]@,
                        ));
                    }
                }
                t2 = t2 + 1;
            }
            proof {
                assert(tok_views.take(tok_views.len() as int) =~= tok_views);
            }
            out2
        } else {
            out
        }
    }

    /// Strips leading and trailing hyphens from a word, while more than
    /// four characters remain.
    pub fn clean_keyword(in_word: String) -> (r: String)
        ensures
            r@ == crate::tokenize::clean_spec(in_word@),
    {
        let cs = chars_of(in_word.as_str());
        let cleaned = clean_chars(&cs);
        string_of_chars(&cleaned)
    }

    /// Counts each distinct token of the abstract once: a token already
    /// recorded has its document frequency raised by one, a new token is
    /// recorded with frequency one. Returns `false`, leaving a count
    /// unraised, only if that count is at the machine limit.
    #[verifier::loop_isolation(false)]
    pub fn process_abstract(&mut self, paper_abstract: String) -> (ok: bool)
        requires
            old(self).wf(),
        ensures
            final(self).wf(),
            final(self).lower_cutoff == old(self).lower_cutoff,
            final(self).upper_cutoff == old(self).upper_cutoff,
            ok <==> forall|w: Seq<char>|
                first_dedup(token_pipeline(paper_abstract@)).contains(w)
                    ==> #[trigger] cand_count(old(self).keyword_candidates@, w) < u64::MAX,
            ok ==> forall|w: Seq<char>|
                #[trigger] cand_count(final(self).keyword_candidates@, w) == cand_count(
                    old(self).keyword_candidates@,
                    w,
                ) + if first_dedup(token_pipeline(paper_abstract@)).contains(w) {
                    1int
                } else {
                    0int
                },
    {
        let words = Analyzer::split_abstract_into_words(paper_abstract, true);
        let ghost wviews = views_of_strings(words@);
        proof {
            crate::tokenize::lemma_first_dedup_props(token_pipeline(paper_abstract@));
        }
        let mut t: usize = 0;
        while t < words.len()
            invariant
                t <= words@.len(),
                self.wf(),
                self.lower_cutoff == old(self).lower_cutoff,
                self.upper_cutoff == old(self).upper_cutoff,
                forall|k: int|
                    0 <= k < t ==> cand_count(
                        old(self).keyword_candidates@,
                        #[trigger] wviews[k],
                    ) < u64::MAX,
                forall|w: Seq<char>|
                    #[trigger] cand_count(self.keyword_candidates@, w) == cand_count(
                        old(self).keyword_candidates@,
                        w,
                    ) + if wviews.take(t as int).contains(w) {
                        1int
                    } else {
                        0int
                    },
            decreases words@.len() - t,
        {
            proof {
                if wviews.take(t as int).contains(wviews[t as int]) {
                    let k = choose|k: int|
                        0 <= k < t && wviews.take(t as int)[k] == wviews[t as int];
                    assert(wviews[k] == wviews[t as int]);
                    assert(false);
                }
                assert(cand_count(self.keyword_candidates@, wviews[t as int]) == cand_count(
                    old(self).keyword_candidates@,
                    wviews[t as int],
                ));
            }
            let ok = bump_candidate(&mut self.keyword_candidates, &words[t]);
            if !ok {
                proof {
                    assert(wviews.contains(wviews[t as int]));
                }
                return false;
            }
            proof {
                let wt = wviews[t as int];
                let tv1 = wviews.take(t + 1);
                let tv0 = wviews.take(t as int);
                assert forall|w: Seq<char>|
                    #[trigger] cand_count(self.keyword_candidates@, w) == cand_count(
                        old(self).keyword_candidates@,
                        w,
                    ) + if wviews.take(t + 1).contains(w) {
                        1int
                    } else {
                        0int
                    } by {
                    if w == wt {
                        assert(tv1[t as int] == wt);
                        assert(tv1.contains(wt));
                        if tv0.contains(wt) {
                            let k = choose|k: int| 0 <= k < tv0.len() && tv0[k] == wt;
                            assert(wviews[k] == wviews[t as int]);
                            assert(false);
                        }
                    } else {
                        if tv1.contains(w) {
                            let k = choose|k: int| 0 <= k < tv1.len() && tv1[k] == w;
                            assert(k != t as int);
                            assert(tv0[k] == w);
                            assert(tv0.contains(w));
                        }
                        if tv0.contains(w) {
                            let k = choose|k: int| 0 <= k < tv0.len() && tv0[k] == w;
                            assert(tv1[k] == w);
                            assert(tv1.contains(w));
                        }
                    }
                }
            }
            t = t + 1;
        }
        proof {
            assert(wviews.take(wviews.len() as int) =~= wviews);
            assert forall|w: Seq<char>| wviews.contains(w) implies cand_count(
                old(self).keyword_candidates@,
                w,
            ) < u64::MAX by {
                let k = choose|k: int| 0 <= k < wviews.len() && wviews[k] == w;
            }
        }
        true
    }

    /// Keeps exactly the candidates whose document frequency lies strictly
    /// between `lower_cutoff` and `upper_cutoff`, both taken as fractions
    /// of the number of input partitions.
    #[verifier::loop_isolation(false)]
    pub fn purge_keyword_array(&mut self, n_files: u64)
        requires
            old(self).wf(),
        ensures
            final(self).wf(),
            final(self).lower_cutoff == old(self).lower_cutoff,
            final(self).upper_cutoff == old(self).upper_cutoff,
            final(self).keyword_candidates@ == purged(
                old(self).keyword_candidates@,
                old(self).lower_cutoff,
                old(self).upper_cutoff,
                n_files as int,
            ),
    {
        let ghost cs0 = self.keyword_candidates@;
        let ghost lower = self.lower_cutoff;
        let ghost upper = self.upper_cutoff;
        let mut kept: Vec<WordCount> = Vec::new();
        proof {
            assert(cs0.take(0) =~= Seq::<WordCount>::empty());
        }
        let mut t: usize = 0;
        while t < self.keyword_candidates.len()
            invariant
                t <= cs0.len(),
                self == old(self),
                cs0 == self.keyword_candidates@,
                kept@ == purged(cs0.take(t as int), lower, upper, n_files as int),
            decreases cs0.len() - t,
        {
            proof {
                assert(cs0.take(t + 1).drop_last() =~= cs0.take(t as int));
                assert(cs0.take(t + 1).last() == cs0[t as int]);
            }
            let count = self.keyword_candidates[t].count;
            let low_ok = mul_u64_wide(count, self.lower_cutoff.den) > mul_u64_wide(
                self.lower_cutoff.num,
                n_files,
            );
            let high_ok = mul_u64_wide(count, self.upper_cutoff.den) < mul_u64_wide(
                self.upper_cutoff.num,
                n_files,
            );
            if low_ok && high_ok {
                let w = self.keyword_candidates[t].word.clone();
                kept.push(WordCount { word: w, count });
                proof {
                    assert(kept@.last() == cs0[t as int]);
                    assert(kept@ =~= purged(cs0.take(t + 1), lower, upper, n_files as int));
                }
            }
            t = t + 1;
        }
        proof {
            assert(cs0.take(cs0.len() as int) =~= cs0);
            lemma_purged_sub(cs0, lower, upper, n_files as int);
        }
        self.keyword_candidates = kept;
    }

    /// The retained words, in index order: index `i` of every downstream
    /// structure refers to the word at position `i` of this list.
    #[verifier::loop_isolation(false)]
    pub fn keywords(&self) -> (r: Vec<String>)
        ensures
            views_of_strings(r@) == self.keyword_candidates@.map_values(
                |wc: WordCount| wc.word@,
            ),
    {
        let mut r: Vec<String> = Vec::new();
        let mut t: usize = 0;
        while t < self.keyword_candidates.len()
            invariant
                t <= self.keyword_candidates@.len(),
                r@.len() == t,
                forall|k: int| 0 <= k < t ==> #[trigger] r@[k]@ == self.keyword_candidates@[k].word@,
            decreases self.keyword_candidates@.len() - t,
        {
            let w = self.keyword_candidates[t].word.clone();
            r.push(w);
            t = t + 1;
        }
        proof {
            assert(views_of_strings(r@) =~= self.keyword_candidates@.map_values(
                |wc: WordCount| wc.word@,
            ));
        }
        r
    }
}

/// An article's topic-affinity distribution: the article identifier and
/// one score numerator per hallmark, all over the shared denominator
/// `den`.
#[derive(Debug)]
pub struct RatedPublication {
    pub i: String,
    pub r: Vec<u64>,
    pub den: u64,
}

impl RatedPublication {
    /// The acceptance band: the rating total `sum(r) / den` lies strictly
    /// between `0.95` and `1.05`.
    pub open spec fn valid_spec(self) -> bool {
        &&& 20 * crate::seqs::sum_u64(self.r@) > 19 * (self.den as int)
        &&& 20 * crate::seqs::sum_u64(self.r@) < 21 * (self.den as int)
    }

    /// Whether the rating total lies strictly between `0.95` and `1.05`.
    #[verifier::loop_isolation(false)]
    pub fn is_valid(&self) -> (ok: bool)
        ensures
            ok == self.valid_spec(),
    {
        let ghost rs = self.r@;
        proof {
            assert(rs.take(0) =~= Seq::<u64>::empty());
        }
        let mut s: u128 = 0;
        let mut t: usize = 0;
        while t < self.r.len()
            invariant
                t <= rs.len(),
                rs == self.r@,
                s as int == crate::seqs::sum_u64(rs.take(t as int)),
                s as int <= (t as int) * 0xFFFF_FFFF_FFFF_FFFF,
            decreases rs.len() - t,
        {
            proof {
                assert(rs.take(t + 1).drop_last() =~= rs.take(t as int));
                assert(rs.take(t + 1).last() == rs[t as int]);
                assert((t + 1) as int * 0xFFFF_FFFF_FFFF_FFFF == (t as int) * 0xFFFF_FFFF_FFFF_FFFF
                    + 0xFFFF_FFFF_FFFF_FFFF) by (nonlinear_arith);
                assert(s as int + 0xFFFF_FFFF_FFFF_FFFF < u128::MAX) by (nonlinear_arith)
                    requires
                        s as int <= (t as int) * 0xFFFF_FFFF_FFFF_FFFF,
                        t < rs.len() <= 0xFFFF_FFFF_FFFF_FFFFu64,
                ;
            }
            s = s + (self.r[t] as u128);
            t = t + 1;
        }
        proof {
            assert(rs.take(rs.len() as int) =~= rs);
        }
        let d = self.den;
        proof {
            assert(19 * (d as int) < u128::MAX && 21 * (d as int) < u128::MAX) by (nonlinear_arith)
                requires
                    d <= 0xFFFF_FFFF_FFFF_FFFFu64,
            ;
        }
        let d19: u128 = 19u128 * (d as u128);
        let d21: u128 = 21u128 * (d as u128);
        match s.checked_mul(20) {
            Some(s20) => s20 > d19 && s20 < d21,
            None => {
                proof {
                    assert(20 * (s as int) > 21 * (d as int)) by (nonlinear_arith)
                        requires
                            20 * (s as int) > u128::MAX,
                            d <= 0xFFFF_FFFF_FFFF_FFFFu64,
                            u128::MAX == 0xFFFF_FFFF_FFFF_FFFF_FFFF_FFFF_FFFF_FFFFu128,
                    ;
                }
                false
            },
        }
    }
}

/// Every emitted rated publication passes the validity check: one whose
/// scores sum exactly to its shared denominator has a rating total of
/// exactly one, strictly inside the acceptance band.
pub proof fn lemma_exact_sum_is_valid(p: RatedPublication)
    requires
        crate::seqs::sum_u64(p.r@) == p.den as int,
        p.den >= 1,
    ensures
        p.valid_spec(),
{
}

/// Raises the count recorded for `w` by one, recording it with count one
/// if it is absent. Returns `false`, changing nothing, if the count is at
/// the machine limit.
#[verifier::loop_isolation(false)]
pub fn bump_candidate(cands: &mut Vec<WordCount>, w: &String) -> (ok: bool)
    requires
        cands_wf(old(cands)@),
    ensures
        cands_wf(final(cands)@),
        ok <==> cand_count(old(cands)@, w@) < u64::MAX,
        ok ==> cand_count(final(cands)@, w@) == cand_count(old(cands)@, w@) + 1,
        ok ==> forall|x: Seq<char>|
            x != w@ ==> #[trigger] cand_count(final(cands)@, x) == cand_count(old(cands)@, x),
        !ok ==> final(cands)@ == old(cands)@,
{
    let ghost cs0 = cands@;
    proof {
        assert(cs0.take(cs0.len() as int) =~= cs0);
    }
    let mut k: usize = cands.len();
    while k > 0
        invariant
            k <= cs0.len(),
            cs0 == cands@,
            cand_count(cs0, w@) == cand_count(cs0.take(k as int), w@),
        decreases k,
    {
        k = k - 1;
        proof {
            assert(cs0.take(k + 1).drop_last() =~= cs0.take(k as int));
            assert(cs0.take(k + 1).last() == cs0[k as int]);
            if cs0[k as int].word@ == w@ {
                assert(cand_count(cs0.take(k + 1), w@) == cs0[k as int].count);
            } else {
                assert(cand_count(cs0.take(k + 1), w@) == cand_count(cs0.take(k as int), w@));
            }
        }
        if cands[k].word.eq(w) {
            let cur = cands[k].count;
            if cur == u64::MAX {
                return false;
            }
            let ghost pre = cands@;
            let nw = w.clone();
            let e = WordCount { word: nw, count: cur + 1 };
            cands[k] = e;
            proof {
                assert(cands@ =~= cs0.update(
                    k as int,
                    WordCount { word: cands@[k as int].word, count: (cur + 1) as u64 },
                ));
                assert(cands@[k as int].word@ == w@);
                assert forall|x: Seq<char>| true implies #[trigger] cand_count(cands@, x) == if x
                    == w@ {
                    cur + 1
                } else {
                    cand_count(cs0, x)
                } by {
                    lemma_cand_count_update(cs0, k as int, cands@[k as int], x);
                }
                assert(cands_wf(cands@)) by {
                    assert(forall|k1: int|
                        0 <= k1 < cs0.len() && k1 != k as int ==> #[trigger] cands@[k1] == cs0[
                        k1]);
                }
            }
            return true;
        }
    }
    // `w` is not recorded yet: its looked-up count is zero.
    proof {
        assert(cs0.take(0) =~= Seq::<WordCount>::empty());
        assert forall|k1: int| 0 <= k1 < cs0.len() implies (#[trigger] cs0[k1]).word@ != w@ by {
            if cs0[k1].word@ == w@ {
                lemma_cand_count_positive(cs0, k1, w@);
            }
        }
    }
    let nw = w.clone();
    let e = WordCount { word: nw, count: 1 };
    cands.push(e);
    proof {
        assert(cands@.drop_last() =~= cs0);
        assert(cands@.last().word@ == w@);
        assert(forall|k1: int| 0 <= k1 < cs0.len() ==> #[trigger] cands@[k1] == cs0[k1]);
    }
    true
}

} // verus!
