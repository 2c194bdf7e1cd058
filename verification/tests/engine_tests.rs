use hallmark_affinity::analyzer_data::count_occurrences;
use hallmark_affinity::matrix::{row_lookup, SparseMatrix};
use hallmark_affinity::numbers::{gcd_u64, isqrt_u128, lcm_u64};
use hallmark_affinity::{AnalyzerData, AnalyzerError, Hallmark, RatedPublication};

fn kw(words: &[&str]) -> Vec<String> {
    words.iter().map(|w| w.to_string()).collect()
}

fn built_engine() -> AnalyzerData {
    // Three keywords; two articles: {aaaaa, bbbbb} and {bbbbb, ccccc}.
    let keywords = kw(&["aaaaa", "bbbbb", "ccccc"]);
    let mut data = AnalyzerData::new(3, &keywords, 2);
    data.update_with_article_data(&kw(&["aaaaa", "bbbbb"])).unwrap();
    data.update_with_article_data(&kw(&["bbbbb", "ccccc"])).unwrap();
    data
}

#[test]
fn gcd_lcm_and_isqrt_values() {
    assert_eq!(gcd_u64(12, 18), 6);
    assert_eq!(gcd_u64(7, 0), 7);
    assert_eq!(lcm_u64(4, 6), Some(12));
    assert_eq!(lcm_u64(1, 9), Some(9));
    // Two coprime values whose product overflows a machine word.
    assert_eq!(lcm_u64(1 << 40, (1 << 40) + 1), None);
    assert_eq!(isqrt_u128(0), 0);
    assert_eq!(isqrt_u128(1_000_000), 1000);
    assert_eq!(isqrt_u128(2_000_000), 1414);
    assert_eq!(isqrt_u128(999_999), 999);
}

#[test]
fn raw_cooccurrence_matrix_is_symmetric() {
    let data = built_engine();
    for i in 0..3usize {
        for j in 0..3usize {
            let nij = row_lookup(&data.relations.rows[i], j);
            let nji = row_lookup(&data.relations.rows[j], i);
            assert_eq!(nij, nji);
        }
    }
    assert_eq!(row_lookup(&data.relations.rows[0], 1), 1);
    assert_eq!(row_lookup(&data.relations.rows[0], 2), 0);
    assert_eq!(row_lookup(&data.relations.rows[1], 2), 1);
}

#[test]
fn diagonal_holds_document_frequency_and_normalizes_to_one() {
    let mut data = built_engine();
    assert_eq!(row_lookup(&data.relations.rows[0], 0), 1);
    assert_eq!(row_lookup(&data.relations.rows[1], 1), 2);
    assert_eq!(row_lookup(&data.relations.rows[2], 2), 1);
    data.divide_rows_by_diagonal();
    // Every diagonal entry now reads d / d: exactly one.
    for i in 0..3usize {
        let num = row_lookup(&data.relations.rows[i], i);
        let den = data.relations.rows[i].den;
        assert!(num > 0);
        assert_eq!(num, den);
    }
}

#[test]
fn histogram_records_one_count_per_article() {
    let data = built_engine();
    let total: u64 = data.histogram.as_slice().iter().sum();
    assert_eq!(total, 2);
    // Both articles had exactly two recognized keywords.
    assert_eq!(data.histogram.as_slice()[2], 2);
}

#[test]
fn seeding_and_normalization_rate_matched_keywords() {
    let mut data = built_engine();
    data.divide_rows_by_diagonal();
    let hallmarks = vec![
        Hallmark {
            title: "first".to_string(),
            description: "aaaaa bbbbb".to_string(),
        },
        Hallmark {
            title: "second".to_string(),
            description: "zzzzz qqqqq".to_string(),
        },
    ];
    let counts = data.compute_keyword_ratings(&hallmarks, 0).unwrap();
    // One cycle report (seeding only); ccccc is unrated.
    assert_eq!(counts, vec![1]);
    assert!(data.is_rating_non_zero(0, 0));
    assert!(data.is_rating_non_zero(1, 0));
    assert!(!data.is_rating_non_zero(2, 0));
    // Every rated keyword's ratings sum to exactly one: the column's
    // numerators sum to its shared denominator.
    for i in 0..3usize {
        let col: u64 = (0..2).map(|h| data.rating_nums[h][i]).sum();
        if col > 0 {
            assert_eq!(col, data.rating_dens[i]);
        }
    }
}

#[test]
fn hallmark_sharing_no_word_seeds_nothing() {
    let mut data = built_engine();
    data.divide_rows_by_diagonal();
    let hallmarks = vec![
        Hallmark {
            title: "first".to_string(),
            description: "aaaaa bbbbb".to_string(),
        },
        Hallmark {
            title: "second".to_string(),
            description: "zzzzz qqqqq".to_string(),
        },
    ];
    data.compute_keyword_ratings(&hallmarks, 0).unwrap();
    // The second hallmark's description shares no word with the
    // vocabulary: its seeding contributes nothing to any keyword.
    for i in 0..3usize {
        assert!(!data.is_rating_non_zero(i, 1));
        assert_eq!(data.rating_nums[1][i], 0);
    }
}

#[test]
fn normalization_is_idempotent() {
    let mut data = built_engine();
    data.divide_rows_by_diagonal();
    let hallmarks = vec![
        Hallmark {
            title: "first".to_string(),
            description: "aaaaa bbbbb".to_string(),
        },
        Hallmark {
            title: "second".to_string(),
            description: "zzzzz qqqqq".to_string(),
        },
    ];
    let counts = data.compute_keyword_ratings(&hallmarks, 0).unwrap();
    let nums_once = data.rating_nums.clone();
    let dens_once = data.rating_dens.clone();
    // Normalizing the already-normalized matrix changes nothing, and
    // reports the same unrated tally.
    let unrated = data.normalize_keyword_rating().unwrap();
    assert_eq!(unrated, counts[0]);
    assert_eq!(data.rating_nums, nums_once);
    assert_eq!(data.rating_dens, dens_once);
}

#[test]
fn one_propagation_step_spreads_and_renormalizes() {
    let mut data = built_engine();
    data.divide_rows_by_diagonal();
    let hallmarks = vec![
        Hallmark {
            title: "first".to_string(),
            description: "aaaaa bbbbb".to_string(),
        },
        Hallmark {
            title: "second".to_string(),
            description: "zzzzz qqqqq".to_string(),
        },
    ];
    let counts = data.compute_keyword_ratings(&hallmarks, 1).unwrap();
    assert_eq!(counts.len(), 2);
    // Propagation reaches ccccc through its co-occurrence with bbbbb.
    assert_eq!(counts[1], 0);
    assert!(data.is_rating_non_zero(2, 0));
    // The exact propagated state: row sums 2, 3/2 and 1 re-normalized to
    // one over column denominators 2, 3 and 1.
    assert_eq!(data.rating_nums[0], vec![2, 3, 1]);
    assert_eq!(data.rating_nums[1], vec![0, 0, 0]);
    assert_eq!(data.rating_dens, vec![2, 3, 1]);
    // Re-normalization again makes every rated column sum to one.
    for i in 0..3usize {
        let col: u64 = (0..2).map(|h| data.rating_nums[h][i]).sum();
        if col > 0 {
            assert_eq!(col, data.rating_dens[i]);
        }
    }
}

#[test]
fn rating_output_echoes_hallmarks_and_columns() {
    let mut data = built_engine();
    data.divide_rows_by_diagonal();
    let hallmarks = vec![
        Hallmark {
            title: "first".to_string(),
            description: "aaaaa bbbbb".to_string(),
        },
        Hallmark {
            title: "second".to_string(),
            description: "zzzzz qqqqq".to_string(),
        },
    ];
    data.compute_keyword_ratings(&hallmarks, 0).unwrap();
    let out = data.rating_output(&hallmarks);
    assert_eq!(out.hallmarks.len(), 2);
    assert_eq!(out.hallmarks[0].title, "first");
    assert_eq!(out.hallmarks[1].description, "zzzzz qqqqq");
    assert_eq!(out.rating_output.len(), 3);
    assert_eq!(out.rating_output[0].keyword, "aaaaa");
    assert_eq!(out.rating_output[0].rating, vec![1, 0]);
    assert_eq!(out.rating_output[0].den, 1);
    assert_eq!(out.rating_output[2].keyword, "ccccc");
    assert_eq!(out.rating_output[2].rating, vec![0, 0]);
}

#[test]
fn count_occurrences_counts_the_multiset() {
    let ws = kw(&["aaaaa", "bbbbb", "aaaaa", "aaaaa"]);
    assert_eq!(count_occurrences(&ws, &"aaaaa".to_string()), 3);
    assert_eq!(count_occurrences(&ws, &"bbbbb".to_string()), 1);
    assert_eq!(count_occurrences(&ws, &"zzzzz".to_string()), 0);
}

#[test]
fn article_scores_are_exact_and_sum_to_their_denominator() {
    let keywords = kw(&["alphaword", "betawordx"]);
    let mut data = AnalyzerData::new(2, &keywords, 2);
    // Hand-built normalized ratings over denominator 1.
    data.rating_nums = vec![vec![3, 0], vec![1, 2]];
    data.rating_dens = vec![1, 1];
    let words = kw(&["alphaword", "alphaword", "betawordx"]);
    let p = data
        .rate_article_keywords(words, "PMC1".to_string())
        .unwrap();
    // Weights: isqrt(2 * 10^6) = 1414 and isqrt(1 * 10^6) = 1000.
    // Hallmark scores: 3 * 1414 = 4242 and 1 * 1414 + 2 * 1000 = 3414.
    assert_eq!(p.i, "PMC1");
    assert_eq!(p.r, vec![4242, 3414]);
    assert_eq!(p.den, 4242 + 3414);
    let total: u64 = p.r.iter().sum();
    assert_eq!(total, p.den);
    assert!(p.is_valid());
}

#[test]
fn unrecognized_articles_are_rejected_by_the_validity_check() {
    let keywords = kw(&["alphaword"]);
    let mut data = AnalyzerData::new(1, &keywords, 2);
    data.rating_nums = vec![vec![1], vec![0]];
    data.rating_dens = vec![1];
    let p = data
        .rate_article_keywords(kw(&["zzzzz"]), "PMC2".to_string())
        .unwrap();
    assert_eq!(p.r, vec![0, 0]);
    assert_eq!(p.den, 1);
    assert!(!p.is_valid());
}

#[test]
fn validity_band_is_strict() {
    let exact = RatedPublication {
        i: "PMC3".to_string(),
        r: vec![10, 10],
        den: 20,
    };
    assert!(exact.is_valid());
    let low = RatedPublication {
        i: "PMC4".to_string(),
        r: vec![19],
        den: 20,
    };
    assert!(!low.is_valid());
    let just_inside_low = RatedPublication {
        i: "PMC5".to_string(),
        r: vec![96],
        den: 100,
    };
    assert!(just_inside_low.is_valid());
    let high = RatedPublication {
        i: "PMC6".to_string(),
        r: vec![105],
        den: 100,
    };
    assert!(!high.is_valid());
}

#[test]
fn propagation_overflow_is_reported_and_changes_nothing() {
    let keywords = kw(&["aaaaa", "bbbbb"]);
    let mut data = AnalyzerData::new(2, &keywords, 1);
    data.update_with_article_data(&kw(&["aaaaa", "bbbbb"])).unwrap();
    // Coprime column denominators too large for a common denominator.
    data.rating_nums = vec![vec![1, 1]];
    data.rating_dens = vec![u64::MAX, u64::MAX - 1];
    assert_eq!(data.update_rating(), Err(AnalyzerError::Overflow));
    assert_eq!(data.rating_nums, vec![vec![1, 1]]);
    assert_eq!(data.rating_dens, vec![u64::MAX, u64::MAX - 1]);
}

#[test]
fn rating_cycle_overflow_restores_the_ratings() {
    let keywords = kw(&["aaaaa", "bbbbb"]);
    let mut data = AnalyzerData::new(2, &keywords, 1);
    data.update_with_article_data(&kw(&["aaaaa", "bbbbb"])).unwrap();
    // After normalization both columns carry the largest denominator, so
    // the propagation step's dot product cannot fit a machine word.
    data.rating_nums = vec![vec![u64::MAX, u64::MAX]];
    let hallmarks = vec![Hallmark {
        title: "first".to_string(),
        description: "zzzzz".to_string(),
    }];
    assert_eq!(
        data.compute_keyword_ratings(&hallmarks, 1),
        Err(AnalyzerError::Overflow)
    );
    // The failed run leaves the ratings exactly as they were.
    assert_eq!(data.rating_nums, vec![vec![u64::MAX, u64::MAX]]);
    assert_eq!(data.rating_dens, vec![1, 1]);
}

#[test]
fn empty_vocabulary_degrades_to_no_ops() {
    let keywords: Vec<String> = Vec::new();
    let mut data = AnalyzerData::new(0, &keywords, 1);
    data.update_with_article_data(&kw(&["aaaaa"])).unwrap();
    data.divide_rows_by_diagonal();
    let hallmarks = vec![Hallmark {
        title: "first".to_string(),
        description: "aaaaa".to_string(),
    }];
    let counts = data.compute_keyword_ratings(&hallmarks, 1).unwrap();
    assert_eq!(counts, vec![0, 0]);
    let p = data
        .rate_article_keywords(kw(&["aaaaa"]), "PMC7".to_string())
        .unwrap();
    assert!(!p.is_valid());
}

#[test]
fn article_abstract_feeds_the_tokenizer() {
    let article = hallmark_affinity::Article {
        title: "t".to_string(),
        pmid: "1".to_string(),
        doi: String::new(),
        pmc: "PMC9".to_string(),
        pii: String::new(),
        paper_abstract: "Alpha-Beta gamma5; alpha-beta".to_string(),
    };
    let words = hallmark_affinity::Analyzer::split_abstract_into_words(
        article.paper_abstract.clone(),
        true,
    );
    assert_eq!(words, vec!["alpha-beta", "gamma5"]);
}

#[test]
fn zero_matrix_has_no_entries() {
    let m = SparseMatrix::zero(4);
    for i in 0..4usize {
        for j in 0..4usize {
            assert_eq!(row_lookup(&m.rows[i], j), 0);
        }
        assert_eq!(m.rows[i].den, 1);
    }
}
