use duallity::fzf_scorer::{FzfMatch, FzfScorer, FzfStats};
use duallity::fzf_support::{FzfConfig, FzfCore, FzfError, FzfScheme, UNREACHABLE_SCORE};

fn score(input: &str, pattern: &str, case_sensitive: bool) -> Option<i32> {
    let chars: Vec<char> = input.chars().collect();
    FzfCore::new(
        pattern,
        FzfConfig {
            case_sensitive,
            ..FzfConfig::default()
        },
    )
    .expect("official fzf fixture query is valid")
    .score_chars(&chars)
    .expect("official fzf fixture candidate is valid")
}

#[test]
fn official_fuzzy_match_v2_scores_agree() {
    let cases = [
        ("fooBarbaz1", "oBZ", false, 48 + 7 - 3 - 3),
        ("foo bar baz", "fbb", false, 48 + 20 + 20 - 6 - 4),
        ("/AutomatorDocument.icns", "rdoc", false, 64 + 7 + 8),
        ("/man1/zshcompctl.1", "zshc", false, 64 + 18 + 27),
        ("/.oh-my-zsh/cache", "zshc", false, 64 + 16 + 16 - 3 + 9),
        (".vimrc", ".vimrc", false, 96 + 70),
        ("/.vimrc", ".vimrc", false, 96 + 63),
        ("a.vimrc", ".vimrc", false, 96 + 56),
        ("ab0123 456", "12356", false, 80 + 12 - 3 - 1),
        ("abc123 456", "12356", false, 80 + 14 + 14 + 4 - 3 - 1),
        ("foo/bar/baz", "fbb", false, 48 + 20 + 18 - 6 - 4),
        ("fooBarBaz", "fbb", false, 48 + 20 + 14 - 6 - 2),
        ("fooBarbaz", "oBz", true, 48 + 7 - 3 - 3),
        ("Foo/Bar/Baz", "FBB", true, 48 + 20 + 18 - 6 - 4),
        ("foo-bar", "o-ba", true, 64 + 24),
    ];
    for (candidate, query, case_sensitive, expected) in cases {
        assert_eq!(
            score(candidate, query, case_sensitive),
            Some(expected),
            "candidate={candidate:?}, query={query:?}"
        );
    }
}

#[test]
fn non_subsequence_and_empty_query_boundaries() {
    assert_eq!(score("fooBarbaz", "oBZ", true), None);
    assert_eq!(score("foo", "", true), Some(0));
}

#[test]
fn unstarted_alternative_prevents_unsound_prefix_pruning() {
    let candidate = "xxxxxxxx/foo/bar";
    let core = FzfCore::new(
        "fb",
        FzfConfig {
            max_candidate_chars: candidate.chars().count(),
            ..FzfConfig::default()
        },
    )
    .expect("short query is valid");
    let mut column = core.initial_column();
    for character in "xxxxxxxx/".chars() {
        column = core.advance(&column, character);
    }
    let chars: Vec<char> = candidate.chars().collect();
    let descendant_score = core
        .score_chars(&chars)
        .expect("candidate is bounded")
        .expect("descendant contains the query");
    assert!(core
        .upper_bound(&column)
        .is_some_and(|bound| bound >= descendant_score));
}

#[test]
fn exhausted_capacity_has_no_completion_bound() {
    let core = FzfCore::new(
        "abc",
        FzfConfig {
            max_candidate_chars: 2,
            ..FzfConfig::default()
        },
    )
    .expect("short query is valid");
    let column = core.advance(&core.initial_column(), 'x');
    assert_eq!(core.upper_bound(&column), None);
}

#[test]
fn scorer_reports_exact_scores_and_errors() {
    let scorer = FzfScorer::new("fbb").expect("short query is valid");
    assert_eq!(scorer.query_units(), vec!['f', 'b', 'b']);
    assert_eq!(
        scorer.score("foo/bar/baz"),
        Ok(Some(FzfMatch {
            score: 48 + 20 + 18 - 6 - 4
        }))
    );
    assert_eq!(scorer.score("xyz"), Ok(None));
    assert_eq!(scorer.cutoff(), None);
    assert_eq!(scorer.stats(), FzfStats::default());

    let long_query = FzfScorer::with_config(
        "abcd",
        FzfConfig {
            max_query_chars: 3,
            ..FzfConfig::default()
        },
    );
    assert!(matches!(
        long_query,
        Err(FzfError::QueryTooLong {
            actual: 4,
            maximum: 3
        })
    ));

    let short_candidates = FzfScorer::with_config(
        "ab",
        FzfConfig {
            max_candidate_chars: 3,
            ..FzfConfig::default()
        },
    )
    .expect("query fits");
    assert_eq!(
        short_candidates.score("abcd"),
        Err(FzfError::CandidateTooLong {
            actual: 4,
            maximum: 3
        })
    );
}

#[test]
fn maximum_score_bounds_every_score() {
    let scorer = FzfScorer::new("abc").expect("short query is valid");
    let best = scorer.maximum_score();
    for candidate in ["abc", "a_b_c", "xxabcxx", "AbC"] {
        if let Ok(Some(matched)) = scorer.score(candidate) {
            assert!(matched.score <= best, "candidate={candidate:?}");
        }
    }
    assert!(UNREACHABLE_SCORE < 0);
}

#[test]
fn top_k_cutoff_tracks_the_kth_best_observation_and_never_drops() {
    let mut scorer = FzfScorer::with_config(
        "a",
        FzfConfig {
            top_k: 2,
            ..FzfConfig::default()
        },
    )
    .expect("short query is valid");
    scorer.observe_score(10);
    assert_eq!(scorer.cutoff(), None);
    scorer.observe_score(5);
    assert_eq!(scorer.cutoff(), Some(5));
    scorer.observe_score(3);
    assert_eq!(scorer.cutoff(), Some(5));
    scorer.observe_score(20);
    assert_eq!(scorer.cutoff(), Some(10));
    scorer.reset_observations();
    assert_eq!(scorer.cutoff(), None);
}

fn walk(scorer: &mut FzfScorer, terms: &[&str], prefix: &mut String, out: &mut Vec<(String, i32)>) {
    if terms.contains(&prefix.as_str()) && scorer.permits_accept() {
        if let Some(s) = scorer.accept() {
            out.push((prefix.clone(), s));
        }
    }
    let mut next: Vec<char> = terms
        .iter()
        .filter(|t| t.starts_with(prefix.as_str()) && t.len() > prefix.len())
        .filter_map(|t| t[prefix.len()..].chars().next())
        .collect();
    next.sort();
    next.dedup();
    for c in next {
        prefix.push(c);
        let depth = prefix.chars().count();
        if scorer.enter(c, depth) {
            walk(scorer, terms, prefix, out);
        }
        scorer.leave();
        prefix.pop();
    }
}

#[test]
fn trie_scoring_matches_independent_scoring() {
    let terms = ["FooBarBaz", "foo/bar/baz", "far", "src/fzf_scorer.rs"];
    let mut scorer = FzfScorer::new("fbb").expect("short query is valid");
    let mut walked = Vec::new();
    walk(&mut scorer, &terms, &mut String::new(), &mut walked);
    walked.sort();

    let independent = FzfScorer::new("fbb").expect("short query is valid");
    let mut flat: Vec<(String, i32)> = terms
        .iter()
        .filter_map(|term| {
            independent
                .score(term)
                .expect("fixture term is bounded")
                .map(|matched| ((*term).to_owned(), matched.score))
        })
        .collect();
    flat.sort();
    assert_eq!(walked, flat);
}

#[test]
fn score_bound_pruning_is_observably_non_vacuous() {
    let terms = ["abc", "azzzzz", "azzzyz", "azzyzz"];
    let mut scorer = FzfScorer::with_config(
        "abc",
        FzfConfig {
            top_k: 1,
            max_candidate_chars: 6,
            ..FzfConfig::default()
        },
    )
    .expect("fixture query is valid");
    let mut walked = Vec::new();
    walk(&mut scorer, &terms, &mut String::new(), &mut walked);
    let stats = scorer.stats();

    assert_eq!(walked.len(), 1);
    assert_eq!(walked[0].0, "abc");
    assert!(stats.score_bound_prefixes_pruned > 0, "stats={stats:?}");
    assert_eq!(stats.length_prefixes_pruned, 0);
    assert_eq!(
        stats.prefixes_pruned,
        stats.score_bound_prefixes_pruned + stats.length_prefixes_pruned
    );
}

#[test]
fn path_scheme_treats_slash_as_delimiter() {
    let core = FzfCore::new(
        "b",
        FzfConfig {
            scheme: FzfScheme::Path,
            ..FzfConfig::default()
        },
    )
    .expect("short query is valid");
    let after_slash: Vec<char> = "a/b".chars().collect();
    let after_letter: Vec<char> = "ab".chars().collect();
    let s1 = core.score_chars(&after_slash).unwrap().unwrap();
    let s2 = core.score_chars(&after_letter).unwrap().unwrap();
    assert!(s1 > s2);
}

#[test]
fn scores_never_exceed_the_query_maximum() {
    let scorer = FzfScorer::new("fbb").expect("short query is valid");
    for candidate in ["fbb", "foo/bar/baz", "f_b_b", "xfbbx", "FooBarBaz"] {
        if let Some(found) = scorer.score(candidate).expect("candidate is bounded") {
            assert!(found.score <= scorer.maximum_score());
        }
    }
}

#[test]
fn traversal_statistics_count_columns_bounds_and_acceptances() {
    let mut scorer = FzfScorer::new("ab").expect("short query is valid");
    assert!(scorer.enter('a', 1));
    assert!(scorer.enter('b', 2));
    assert_eq!(scorer.accept(), scorer.score("ab").unwrap().map(|m| m.score));
    let stats = scorer.stats();
    assert_eq!(stats.columns_computed, 2);
    assert_eq!(stats.upper_bounds_computed, 2);
    assert_eq!(stats.candidates_scored, 1);
    assert_eq!(stats.prefixes_pruned, stats.score_bound_prefixes_pruned + stats.length_prefixes_pruned);
    let bound = scorer.current_upper_bound();
    scorer.leave();
    assert!(scorer.enter('b', 2));
    assert_eq!(scorer.current_upper_bound(), bound);
}

#[test]
fn bounds_past_the_candidate_limit_follow_completed_matches() {
    let core = FzfCore::new(
        "b",
        FzfConfig {
            max_candidate_chars: 2,
            ..FzfConfig::default()
        },
    )
    .expect("short query is valid");
    let parent = core.advance(&core.advance(&core.initial_column(), 'a'), 'b');
    let child = core.advance(&parent, 'B');
    let parent_bound = core.upper_bound(&parent).expect("a completed match bounds the prefix");
    let child_bound = core.upper_bound(&child).expect("a completed match bounds the prefix");
    // Past the limit only completed matches count, and a later match may score higher.
    assert!(child_bound > parent_bound);
}
