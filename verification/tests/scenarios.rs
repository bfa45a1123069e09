use strex::StrexSet;

fn ids(set: &StrexSet, haystack: &str) -> Vec<usize> {
    let mut matches = set.matches(haystack).iter().map(|x| x.0).collect::<Vec<_>>();
    matches.sort();
    matches
}

#[test]
fn very_basic() {
    let strex_set = StrexSet::new(&[
        "salam.*aleyk",
        "foo.*bar",
        "(salam|hello).*foo",
        "(sa.*lam|hello).*foo",
        "(sa.*lam|hello).*(fooo|salam)",
        "salam.*aleyk.*ey.*foo",
    ])
    .unwrap();
    let haystack = "salam aleyk ey foo";
    let mut matches = strex_set.matches(haystack).iter().map(|x| x.0).collect::<Vec<_>>();
    matches.sort();
    assert_eq!(matches, [0, 2, 3, 5]);
}

#[test]
fn aabb_1() {
    let strex_set = StrexSet::new(&[
        "aaba.*abba.*bab",
        "aaba.*baa.*aabb.*bbb",
        "abaa.*bbaa.*bbba",
        "bbb.*baaa.*baaa.*aaab",
        "aaab.*babb.*bbb",
    ])
    .unwrap();
    let haystack = "aababbbbabbbbaabbabaaabbbbbbbbbbabaaaabb";
    let mut matches = strex_set.matches(haystack).iter().map(|x| x.0).collect::<Vec<_>>();
    matches.sort();
    assert_eq!(matches, [0, 1]);
}

#[test]
fn aabb_2() {
    let strex_set = StrexSet::new(&[
        "bab.*bbba.*aaaa",
        "aaba.*aba.*baaa.*abaa",
        "aaaa.*aba.*abba.*aab",
        "aab.*bbb.*bbb",
        "abba.*baa.*bbab",
    ])
    .unwrap();
    let haystack = "aabbbababaaabbbbaabbbbaaaabbaabbabaabbbb";
    let mut matches = strex_set.matches(haystack).iter().map(|x| x.0).collect::<Vec<_>>();
    matches.sort();
    assert_eq!(matches, [0, 3]);
}

#[test]
fn three_patterns_one_haystack() {
    let set = StrexSet::new(&["salam.*aleyk", "foo.*bar", "(salam|hello).*foo"]).unwrap();
    assert_eq!(ids(&set, "salam aleyk ey foo"), [0, 2]);
}

#[test]
fn single_literal() {
    let set = StrexSet::new(&["foo"]).unwrap();
    assert_eq!(ids(&set, "barbazfoo"), [0]);
    assert_eq!(ids(&set, "bar"), Vec::<usize>::new());
}

#[test]
fn word_used_twice_in_one_pattern() {
    let set = StrexSet::new(&["a.*b.*a"]).unwrap();
    assert_eq!(ids(&set, "aba"), [0]);
    assert_eq!(ids(&set, "ab"), Vec::<usize>::new());
}

#[test]
fn alternatives_in_either_order_match_alike() {
    for haystack in ["", "foo", "bar", "xx bar foo", "fo ba", "a b c d"] {
        let one = StrexSet::new(&["foo|bar"]).unwrap();
        let other = StrexSet::new(&["bar|foo"]).unwrap();
        assert_eq!(ids(&one, haystack), ids(&other, haystack));
        let one = StrexSet::new(&["a.*b|c.*d"]).unwrap();
        let other = StrexSet::new(&["c.*d|a.*b"]).unwrap();
        assert_eq!(ids(&one, haystack), ids(&other, haystack));
    }
    assert_eq!(ids(&StrexSet::new(&["foo|bar"]).unwrap(), "a bar"), [0]);
    assert_eq!(ids(&StrexSet::new(&["bar|foo"]).unwrap(), "a bar"), [0]);
}

#[test]
fn literal_found_in_a_part_is_found_in_the_whole() {
    let set = StrexSet::new(&["foo", "bar", "foo.*bar", "baz"]).unwrap();
    assert_eq!(ids(&set, "foo bar"), [0, 1, 2]);
    assert_eq!(ids(&set, "xx foo bar baz"), [0, 1, 2, 3]);
    assert_eq!(ids(&set, "oo ba"), Vec::<usize>::new());
}

#[test]
fn duplicate_patterns_match_together() {
    let set = StrexSet::new(&["a.*b", "c", "a.*b", "c"]).unwrap();
    assert_eq!(ids(&set, "a b"), [0, 2]);
    assert_eq!(ids(&set, "c"), [1, 3]);
    assert_eq!(ids(&set, "b a"), Vec::<usize>::new());
    assert_eq!(ids(&set, "c a c b c"), [0, 1, 2, 3]);
}

#[test]
fn gap_wants_the_first_word_to_start_before_the_second() {
    let set = StrexSet::new(&["ab.*cd"]).unwrap();
    assert_eq!(ids(&set, "abcd"), [0]);
    assert_eq!(ids(&set, "ab cd"), [0]);
    assert_eq!(ids(&set, "cdab"), Vec::<usize>::new());
    assert_eq!(ids(&set, "ab"), Vec::<usize>::new());
    // occurrences that overlap count: `aba` starts before `bab`
    let set = StrexSet::new(&["aba.*bab"]).unwrap();
    assert_eq!(ids(&set, "abab"), [0]);
    // one occurrence does not serve as both words
    let set = StrexSet::new(&["aa.*aa"]).unwrap();
    assert_eq!(ids(&set, "aa"), Vec::<usize>::new());
    assert_eq!(ids(&set, "aaa"), [0]);
}

#[test]
fn words_that_start_together_do_not_follow_each_other() {
    let set = StrexSet::new(&["a.*ab", "ab.*a"]).unwrap();
    assert_eq!(ids(&set, "ab"), Vec::<usize>::new());
    assert_eq!(ids(&set, "aba"), [1]);
    assert_eq!(ids(&set, "aab"), [0]);
    assert_eq!(ids(&set, "abab"), [0, 1]);
}

#[test]
fn later_seed_restarts_a_chain() {
    let set = StrexSet::new(&["bcx.*a.*c"]).unwrap();
    assert_eq!(ids(&set, "bcx a bc"), [0]);
    // the second `bcx` starts before the `c` in it and puts the chain back at step 1
    assert_eq!(ids(&set, "bcx a bcx"), Vec::<usize>::new());
    assert_eq!(ids(&set, "bcx a bcx a c"), [0]);
}

#[test]
fn trailing_gap_asks_for_nothing_more() {
    let set = StrexSet::new(&["a.*", "a.*.*b"]).unwrap();
    assert_eq!(ids(&set, "xa"), [0]);
    assert_eq!(ids(&set, "a b"), [0, 1]);
    assert_eq!(ids(&set, "b"), Vec::<usize>::new());
}

#[test]
fn haystack_may_hold_any_text() {
    let set = StrexSet::new(&["caf.*au", "lait"]).unwrap();
    assert_eq!(ids(&set, "caf\u{e9} au lait \u{2615}"), [0, 1]);
    assert_eq!(ids(&set, ""), Vec::<usize>::new());
}

#[test]
fn each_id_is_reported_once_in_rising_order() {
    let set = StrexSet::new(&["b", "a", "(a|b)", "a.*a"]).unwrap();
    assert_eq!(ids(&set, "abab"), [0, 1, 2, 3]);
}

#[test]
fn chain_that_completes_early_is_used_up() {
    // in `abxqz` the word `bxqz` completes the nested chain before `x` has started the outer one
    let set = StrexSet::new(&["x.*(a.*(q|bxqz))"]).unwrap();
    assert_eq!(ids(&set, "abxq"), [0]);
    assert_eq!(ids(&set, "abxqz"), Vec::<usize>::new());
}

#[test]
fn patterns_without_nested_chains_match_on_in_a_longer_haystack() {
    let set = StrexSet::new(&["(a|bb).*(ab|c)", "(x|(y|zz))", "q.*q|(a|b).*b"]).unwrap();
    for part in ["ab", "bbc", "zz", "qq", "a b", "y", "bab"] {
        let small = ids(&set, part);
        for (before, after) in [("", "x"), ("c", ""), ("ab", "ba"), ("q", "zz")] {
            let big = ids(&set, &format!("{before}{part}{after}"));
            assert!(small.iter().all(|id| big.contains(id)));
        }
    }
    assert_eq!(ids(&set, "bbc"), [0, 2]);
    assert_eq!(ids(&set, "zz"), [1]);
    assert_eq!(ids(&set, "bab"), [2]);
    assert_eq!(ids(&set, "abab"), [0, 2]);
}

#[test]
fn text_around_the_words_changes_nothing() {
    let set = StrexSet::new(&["bcx.*a.*c", "x.*(a.*(q|bxqz))", "c.*bcx"]).unwrap();
    for part in ["bcx a c", "a bcx c a", "abxq", "c", "bcx a bcx a c"] {
        let alone = ids(&set, part);
        for (before, after) in [("", ""), ("-- ", ""), ("", " +"), ("\u{e9} ", " - \u{2615}")] {
            assert_eq!(ids(&set, &format!("{before}{part}{after}")), alone);
        }
    }
    assert_eq!(ids(&set, "-- bcx a c +"), [0]);
}

#[test]
fn plain_pattern_matches_on_whatever_the_others_do() {
    let set = StrexSet::new(&["bcx.*a.*c", "(a|b).*c", "bc"]).unwrap();
    assert_eq!(ids(&set, "bcx a bc"), [0, 1, 2]);
    // pattern 0 is lost in the longer haystack, the plain patterns 1 and 2 are not
    assert_eq!(ids(&set, "bcx a bcx"), [1, 2]);
}
