use dmitri::rank::{rank_scored, search, Scored};
use dmitri::weight::Weight;

fn names(list: &[&str]) -> Vec<String> {
    list.iter().map(|s| s.to_string()).collect()
}

fn five() -> Weight {
    Weight::from_bits(5.0f32.to_bits()).unwrap()
}

#[test]
fn empty_query_finds_nothing() {
    let candidates = names(&["firefox", "find", "fish"]);
    assert_eq!(search("", &candidates, &five()), Vec::<String>::new());
}

#[test]
fn prefix_matches_keep_the_given_order() {
    let candidates = names(&["firefox", "find", "fish"]);
    let found = search("fi", &candidates, &five());
    assert_eq!(found, names(&["firefox", "find", "fish"]));
}

#[test]
fn search_is_repeatable() {
    let candidates = names(&["zsh", "bash", "fish", "dash", "sh", "ash"]);
    let first = search("sh", &candidates, &five());
    let second = search("sh", &candidates, &five());
    assert_eq!(first, second);
}

#[test]
fn search_returns_at_most_twenty_candidates() {
    let candidates: Vec<String> = (0..50).map(|i| format!("tool{}", i)).collect();
    let found = search("tool", &candidates, &five());
    assert_eq!(found.len(), 20);
    for name in &found {
        assert!(candidates.contains(name));
    }
    for (i, name) in found.iter().enumerate() {
        assert!(!found[..i].contains(name));
    }
}

#[test]
fn fuzzy_score_orders_before_the_boost() {
    let candidates = names(&["xfi", "fi", "fig"]);
    let found = search("fi", &candidates, &five());
    assert_eq!(found, names(&["fi", "fig", "xfi"]));
}

#[test]
fn an_earlier_literal_match_ranks_first() {
    let scored = vec![
        Scored { name: "abcdefind".to_string(), score: 0.5f32.to_bits() },
        Scored { name: "find".to_string(), score: 0.5f32.to_bits() },
    ];
    assert_eq!(rank_scored("fi", &scored, &five()), names(&["find", "abcdefind"]));
}

#[test]
fn a_strong_fuzzy_score_beats_a_late_literal_match() {
    let scored = vec![
        Scored { name: "0123456789fi".to_string(), score: 0.25f32.to_bits() },
        Scored { name: "nomatch".to_string(), score: 0.75f32.to_bits() },
    ];
    assert_eq!(rank_scored("fi", &scored, &five()), names(&["nomatch", "0123456789fi"]));
}

#[test]
fn equal_keys_keep_their_order() {
    let scored = vec![
        Scored { name: "b".to_string(), score: 0.5f32.to_bits() },
        Scored { name: "a".to_string(), score: 0.5f32.to_bits() },
        Scored { name: "c".to_string(), score: 1.0f32.to_bits() },
    ];
    assert_eq!(rank_scored("zz", &scored, &five()), names(&["c", "b", "a"]));
}

fn weight(w: f32) -> Weight {
    Weight::from_bits(w.to_bits()).unwrap()
}

#[test]
fn the_boost_counts_before_the_cut() {
    let mut candidates: Vec<String> =
        ('a'..='t').map(|c| format!("fa{}fi", c)).collect();
    candidates.push("fiz".to_string());
    assert_eq!(candidates.len(), 21);
    let found = search("fi", &candidates, &five());
    assert_eq!(found.len(), 20);
    assert_eq!(found[0], "fiz");
    assert_eq!(&found[1..], &candidates[..19]);
}

#[test]
fn the_best_twenty_are_the_best_by_boosted_score() {
    let mut candidates: Vec<String> = (0..30).map(|i| format!("zz{:02}", i)).collect();
    candidates.push("ab".to_string());
    candidates.push("xab".to_string());
    let found = search("ab", &candidates, &five());
    assert_eq!(found.len(), 20);
    assert_eq!(found[0], "ab");
    assert_eq!(found[1], "xab");
    assert_eq!(&found[2..], &candidates[..18]);
}

#[test]
fn ties_of_the_boosted_score_keep_the_order_given() {
    let one = Weight::whole(1).unwrap();
    assert_eq!(search("abc", &names(&["_abc", "azzabc"]), &one), names(&["_abc", "azzabc"]));
    assert_eq!(search("abc", &names(&["azzabc", "_abc"]), &one), names(&["azzabc", "_abc"]));
    let scored = vec![
        Scored { name: "_abc".to_string(), score: 0.5f32.to_bits() },
        Scored { name: "azzabc".to_string(), score: 0.75f32.to_bits() },
        Scored { name: "abc".to_string(), score: 0.0f32.to_bits() },
        Scored { name: "none".to_string(), score: 1.0f32.to_bits() },
    ];
    assert_eq!(rank_scored("abc", &scored, &one), names(&["_abc", "azzabc", "abc", "none"]));
}

#[test]
fn a_small_weight_still_boosts() {
    let found = search("a", &names(&["b", "xay"]), &weight(1e-10));
    assert_eq!(found, names(&["xay", "b"]));
    let smallest = Weight::from_bits(1).unwrap();
    let found = search("a", &names(&["b", "xay"]), &smallest);
    assert_eq!(found, names(&["xay", "b"]));
    let scored = vec![
        Scored { name: "xyz".to_string() + &"-".repeat(40) + "a", score: 0 },
        Scored { name: "b".to_string(), score: 0 },
        Scored { name: "xa".to_string(), score: 0 },
        Scored { name: "c".to_string(), score: 1 },
    ];
    assert_eq!(
        rank_scored("a", &scored, &smallest),
        vec![scored[3].name.clone(), scored[2].name.clone(), scored[0].name.clone(), "b".to_string()]
    );
}

#[test]
fn scores_are_compared_exactly() {
    let third = 0.33333334f32;
    let scored = vec![
        Scored { name: "zzab".to_string(), score: third.to_bits() },
        Scored { name: "none".to_string(), score: (third + 0.5).to_bits() },
        Scored { name: "zab".to_string(), score: 0.0f32.to_bits() },
    ];
    let one = Weight::whole(1).unwrap();
    let two = Weight::whole(2).unwrap();
    assert_eq!(rank_scored("ab", &scored, &two), names(&["none", "zzab", "zab"]));
    assert_eq!(rank_scored("ab", &scored, &one), names(&["none", "zzab", "zab"]));
    let near = vec![
        Scored { name: "ab".to_string(), score: 0.0f32.to_bits() },
        Scored { name: "none".to_string(), score: 1.0f32.to_bits() },
        Scored { name: "less".to_string(), score: 0.99999994f32.to_bits() },
        Scored { name: "zab".to_string(), score: 0.5f32.to_bits() },
    ];
    assert_eq!(rank_scored("ab", &near, &one), names(&["ab", "none", "zab", "less"]));
    let huge = weight(f32::MAX);
    assert_eq!(rank_scored("ab", &near, &huge), names(&["zab", "ab", "none", "less"]));
}

#[test]
fn strange_scores_are_cut_to_the_range() {
    let scored = vec![
        Scored { name: "nan".to_string(), score: f32::NAN.to_bits() },
        Scored { name: "neg".to_string(), score: (-1.0f32).to_bits() },
        Scored { name: "two".to_string(), score: 2.0f32.to_bits() },
        Scored { name: "one".to_string(), score: 1.0f32.to_bits() },
        Scored { name: "inf".to_string(), score: f32::INFINITY.to_bits() },
        Scored { name: "low".to_string(), score: 1 },
    ];
    assert_eq!(
        rank_scored("q", &scored, &five()),
        names(&["two", "one", "inf", "low", "nan", "neg"])
    );
}

#[test]
fn many_candidates_are_ranked() {
    let candidates: Vec<String> = (0..3000).map(|i| format!("tool{:04}x{}", i, i % 7)).collect();
    let found = search("tool0", &candidates, &five());
    assert_eq!(found.len(), 20);
    assert_eq!(&found[..], &candidates[..20]);
}
