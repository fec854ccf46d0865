use regexp::matcher::{escape, Match, Matcher};
use regexp::parser::parse;

fn all(m: &mut Matcher) -> Vec<(usize, usize)> {
    let mut out = Vec::new();
    while let Some(found) = m.next() {
        out.push((found.start, found.end));
    }
    out
}

#[test]
fn greedy_star_takes_the_longest_run() {
    let mut m = Matcher::new("a*", "aaab").unwrap();
    assert_eq!(m.next(), Some(Match { start: 0, end: 3 }));
}

#[test]
fn plus_needs_at_least_one() {
    let mut m = Matcher::new("a+", "b").unwrap();
    assert_eq!(m.next(), None);
    assert!(!m.is_matching());
}

#[test]
fn star_gives_back_for_the_rest() {
    let mut m = Matcher::new("a*a", "aaa").unwrap();
    assert!(m.fullmatch());
    m.reset();
    assert_eq!(m.next(), Some(Match { start: 0, end: 3 }));
}

#[test]
fn first_alternative_wins() {
    let mut m = Matcher::new("(a|ab)", "ab").unwrap();
    assert_eq!(m.next(), Some(Match { start: 0, end: 1 }));
}

#[test]
fn quantified_group_is_one_match() {
    let mut m = Matcher::new("(ab)+", "ababab").unwrap();
    assert_eq!(all(&mut m), vec![(0, 6)]);
}

#[test]
fn empty_pattern_matches_at_every_offset() {
    let mut m = Matcher::new("", "abc").unwrap();
    assert_eq!(all(&mut m), vec![(0, 0), (1, 1), (2, 2), (3, 3)]);
    let mut e = Matcher::new("", "").unwrap();
    assert_eq!(all(&mut e), vec![(0, 0)]);
}

#[test]
fn successive_matches_do_not_overlap() {
    let mut m = Matcher::new("a*", "aab").unwrap();
    let ms = all(&mut m);
    assert_eq!(ms, vec![(0, 2), (2, 2), (3, 3)]);
    for w in ms.windows(2) {
        assert!(w[0].1 <= w[1].0);
    }
}

#[test]
fn dot_and_optional() {
    let mut m = Matcher::new(".+", "xyz").unwrap();
    assert_eq!(all(&mut m), vec![(0, 3)]);
    let mut m = Matcher::new("a.c", "abc axc").unwrap();
    assert_eq!(all(&mut m), vec![(0, 3), (4, 7)]);
    let mut m = Matcher::new("ab?c", "ac abc").unwrap();
    assert_eq!(all(&mut m), vec![(0, 2), (3, 6)]);
}

#[test]
fn dot_star_backtracks_one_at_a_time() {
    let mut m = Matcher::new(".*c", "abcabc").unwrap();
    assert_eq!(m.next(), Some(Match { start: 0, end: 6 }));
}

#[test]
fn group_star_backtracks() {
    let mut m = Matcher::new("(ab)*ab", "ababab").unwrap();
    assert_eq!(m.next(), Some(Match { start: 0, end: 6 }));
}

#[test]
fn counts_characters_not_bytes() {
    let mut m = Matcher::new("é+", "aééb").unwrap();
    assert_eq!(m.next(), Some(Match { start: 1, end: 3 }));
}

#[test]
fn seek_moves_the_cursor() {
    let mut m = Matcher::new("a", "aaa").unwrap();
    m.seek(2);
    assert_eq!(m.next(), Some(Match { start: 2, end: 3 }));
    assert_eq!(m.next(), None);
    m.seek(9);
    assert_eq!(m.next(), None);
}

#[test]
fn is_matching_starts_again_when_exhausted() {
    let mut m = Matcher::new("a", "a").unwrap();
    assert_eq!(m.next(), Some(Match { start: 0, end: 1 }));
    assert_eq!(m.next(), None);
    assert!(m.is_matching());
}

#[test]
fn fullmatch_needs_the_whole_target() {
    let mut m = Matcher::new("ab", "abc").unwrap();
    assert!(!m.fullmatch());
    let mut m = Matcher::new("b", "ab").unwrap();
    assert!(!m.fullmatch());
    let mut m = Matcher::new("a|ab", "ab").unwrap();
    assert!(!m.fullmatch());
}

#[test]
fn reassigning_target_and_pattern() {
    let mut m = Matcher::new("b", "abc").unwrap();
    assert_eq!(m.next(), Some(Match { start: 1, end: 2 }));
    m.assign_match_target("bbb");
    assert_eq!(m.next(), Some(Match { start: 0, end: 1 }));
    assert!(m.assign_pattern_string("(").is_err());
    assert_eq!(m.next(), Some(Match { start: 1, end: 2 }));
    assert!(m.assign_pattern_string("b+").is_ok());
    assert_eq!(m.next(), Some(Match { start: 0, end: 3 }));
    let tree = parse("c+").unwrap();
    m.assign_pattern_regexp(&tree);
    m.assign_match_target("acc");
    assert_eq!(m.next(), Some(Match { start: 1, end: 3 }));
}

#[test]
fn split_around_every_match() {
    let mut m = Matcher::new("b", "abcbd").unwrap();
    assert_eq!(m.split(), vec!["a", "c", "d"]);
    assert_eq!(m.splitn(1), vec!["a", "cbd"]);
    assert_eq!(m.splitn(0), vec!["abcbd"]);
    let mut e = Matcher::new("", "ab").unwrap();
    assert_eq!(e.split(), vec!["", "a", "b", ""]);
}

#[test]
fn split_segments_and_matches_rebuild_the_target() {
    let target = "xaaybaz";
    let mut m = Matcher::new("a+|b", target).unwrap();
    let segments = m.split();
    m.reset();
    let chars: Vec<char> = target.chars().collect();
    let matched: Vec<String> = all(&mut m).into_iter().map(|(s, e)| chars[s..e].iter().collect()).collect();
    assert_eq!(segments, vec!["x", "y", "", "z"]);
    let mut rebuilt = String::new();
    for (i, seg) in segments.iter().enumerate() {
        rebuilt.push_str(seg);
        if i < matched.len() {
            rebuilt.push_str(&matched[i]);
        }
    }
    assert_eq!(rebuilt, target);
}

#[test]
fn substitute_replaces_matches() {
    let mut m = Matcher::new("b", "abcbd").unwrap();
    assert_eq!(m.sub("X"), "aXcXd");
    assert_eq!(m.subn("X", 1), "aXcbd");
    assert_eq!(m.subn("X", 0), "abcbd");
    let mut e = Matcher::new("", "ab").unwrap();
    assert_eq!(e.sub("-"), "-a-b-");
}

#[test]
fn substitute_is_split_joined_with_replacement() {
    let mut m = Matcher::new("o+", "foo boo far").unwrap();
    let joined = m.split().join("0");
    assert_eq!(m.sub("0"), joined);
    assert_eq!(joined, "f0 b0 far");
}

#[test]
fn escape_prefixes_metacharacters() {
    assert_eq!(escape("a.b*(c)"), "a\\.b\\*\\(c\\)");
    assert_eq!(escape("1+1\\|?"), "1\\+1\\\\\\|\\?");
    assert_eq!(escape("plain"), "plain");
    assert_eq!(escape(""), "");
}

#[test]
fn escaped_text_matches_only_itself() {
    for s in ["a.b*(c)", "(|)", "x+y?", "\\", "", "plain"] {
        let mut m = Matcher::new(&escape(s), s).unwrap();
        assert!(m.fullmatch());
        let mut longer = String::from(s);
        longer.insert(0, 'q');
        m.assign_match_target(&longer);
        assert!(!m.fullmatch());
        let mut longer = String::from(s);
        longer.push('.');
        m.assign_match_target(&longer);
        assert!(!m.fullmatch());
    }
}

#[test]
fn nested_node_keeps_its_own_bound_when_its_group_is_retried() {
    let mut m = Matcher::new("(a*b*)b", "abb").unwrap();
    assert_eq!(m.next(), Some(Match { start: 1, end: 3 }));
    let mut m = Matcher::new("(a*)*ab", "aaab").unwrap();
    assert_eq!(all(&mut m), vec![(0, 4)]);
}
