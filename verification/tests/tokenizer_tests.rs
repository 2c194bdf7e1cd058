use hallmark_affinity::Analyzer;
use hallmark_affinity::Fraction;

fn words(s: &str, dedupe: bool) -> Vec<String> {
    Analyzer::split_abstract_into_words(s.to_string(), dedupe)
}

#[test]
fn punctuation_is_blanked_and_text_lowercased() {
    let w = words("Alpha,Beta5;GAMMA4! (delta%epsilon)", false);
    assert_eq!(w, vec!["alpha", "beta5", "gamma4", "delta", "epsilon"]);
}

#[test]
fn short_tokens_are_discarded() {
    let w = words("a ab abc abcd abcde", false);
    assert_eq!(w, vec!["abcde"]);
}

#[test]
fn multiset_keeps_repetitions_dedupe_drops_them() {
    let w = words("alpha beta alpha alpha", false);
    assert_eq!(w, vec!["alpha", "alpha", "alpha"]);
    let d = words("alpha beta alpha alpha", true);
    assert_eq!(d, vec!["alpha"]);
}

#[test]
fn hyphens_are_stripped_while_long_enough() {
    assert_eq!(Analyzer::clean_keyword("--alpha--".to_string()), "alpha");
    assert_eq!(Analyzer::clean_keyword("-----a".to_string()), "---a");
    assert_eq!(Analyzer::clean_keyword("abcde-".to_string()), "abcde");
    assert_eq!(Analyzer::clean_keyword("-ab-".to_string()), "-ab-");
    assert_eq!(Analyzer::clean_keyword("alpha".to_string()), "alpha");
}

#[test]
fn hyphen_stripping_applies_inside_the_split() {
    let w = words("-alpha- beta--", false);
    assert_eq!(w, vec!["alpha"]);
}

#[test]
fn slash_and_quote_split_words() {
    let w = words("first/second 'third'", false);
    assert_eq!(w, vec!["first", "second", "third"]);
}

#[test]
fn empty_text_gives_no_tokens() {
    let w = words("", false);
    assert!(w.is_empty());
    let d = words("   \t  \n ", true);
    assert!(d.is_empty());
}

#[test]
fn document_frequency_counts_each_word_once_per_abstract() {
    let mut an = Analyzer::new(Fraction { num: 0, den: 1 }, Fraction { num: 1, den: 1 });
    assert!(an.process_abstract("alpha betas alpha".to_string()));
    assert!(an.process_abstract("betas gamma".to_string()));
    let mut counts: Vec<(String, u64)> = an
        .keyword_candidates
        .iter()
        .map(|wc| (wc.word.clone(), wc.count))
        .collect();
    counts.sort();
    assert_eq!(
        counts,
        vec![
            ("alpha".to_string(), 1),
            ("betas".to_string(), 2),
            ("gamma".to_string(), 1)
        ]
    );
}

#[test]
fn strict_cutoffs_pin_the_upper_bound_edge() {
    // Document frequencies over one partition: alpha 1, betas 2, gamma 1.
    // With cutoffs (0, 1) both bounds are strict, so a count of 1 does not
    // lie strictly below 1 * 1 and nothing survives.
    let mut an = Analyzer::new(Fraction { num: 0, den: 1 }, Fraction { num: 1, den: 1 });
    assert!(an.process_abstract("alpha betas alpha".to_string()));
    assert!(an.process_abstract("betas gamma".to_string()));
    an.purge_keyword_array(1);
    assert!(an.keywords().is_empty());
}

#[test]
fn cutoffs_keep_counts_strictly_between_the_bounds() {
    // Same corpus, cutoffs (0, 2) over one partition: counts of 1 survive,
    // the count of 2 is excluded by the strict upper bound.
    let mut an = Analyzer::new(Fraction { num: 0, den: 1 }, Fraction { num: 2, den: 1 });
    assert!(an.process_abstract("alpha betas alpha".to_string()));
    assert!(an.process_abstract("betas gamma".to_string()));
    an.purge_keyword_array(1);
    let kept = an.keywords();
    assert_eq!(kept, vec!["alpha", "gamma"]);
    for wc in an.keyword_candidates.iter() {
        assert!(wc.count * 1 > 0 * 1 && wc.count * 1 < 2 * 1);
    }
}

#[test]
fn empty_corpus_yields_empty_vocabulary() {
    let mut an = Analyzer::new(Fraction { num: 0, den: 1 }, Fraction { num: 1, den: 1 });
    an.purge_keyword_array(0);
    assert!(an.keywords().is_empty());
}
