//! From a pasted log line to a working pattern.
use std::collections::BTreeSet;

use froklog_watch::builder;

fn picked(tokens: &[String], words: &[&str]) -> BTreeSet<usize> {
    tokens
        .iter()
        .enumerate()
        .filter(|(_, t)| words.contains(&t.as_str()))
        .map(|(i, _)| i)
        .collect()
}

#[test]
fn builds_a_pattern_from_a_pasted_line() {
    let raw = "[Sun Jul 26 19:12:18 2026] Zarri says, 'Hail, Icestorm'";
    // the timestamp must go, or the trigger matches one second of one day
    let line = builder::strip_timestamp(raw);
    assert_eq!(line, "Zarri says, 'Hail, Icestorm'");

    let tokens = builder::tokenize(line);
    // pick the two names
    let chosen: BTreeSet<usize> = tokens
        .iter()
        .enumerate()
        .filter(|(_, t)| t.as_str() == "Zarri" || t.as_str() == "Icestorm")
        .map(|(i, _)| i)
        .collect();
    assert_eq!(chosen.len(), 2);

    let pattern = builder::regex(&tokens, &chosen);
    // captures where we pointed, literal everywhere else
    assert!(pattern.starts_with(r"^(\w+) says, "), "{pattern}");
    assert!(pattern.ends_with(r"(\w+)'"), "{pattern}");

    // and it has to actually match the line it was built from
    let re = ::regex::Regex::new(&pattern).expect("valid regex");
    let caps = re.captures(line).expect("matches its own line");
    assert_eq!(&caps[1], "Zarri");
    assert_eq!(&caps[2], "Icestorm");
}

#[test]
fn a_line_without_a_timestamp_is_only_trimmed() {
    assert_eq!(builder::strip_timestamp("  You have slain a bat!\r\n"), "You have slain a bat!");
    assert_eq!(builder::strip_timestamp(""), "");
    assert_eq!(builder::strip_timestamp("[never closed"), "[never closed");
    assert_eq!(builder::strip_timestamp("x [y] z"), "x [y] z");
    assert_eq!(builder::strip_timestamp("[]"), "");
    // only the first closing bracket ends the stamp
    assert_eq!(builder::strip_timestamp("[a] [b] c"), "[b] c");
}

#[test]
fn tokens_are_runs_of_one_kind() {
    assert_eq!(builder::tokenize("Zarri says, 'Hail'"), vec!["Zarri", " ", "says", ", '", "Hail", "'"]);
    assert_eq!(builder::tokenize("+4 on Çelik's 2nd"), vec!["+", "4", " ", "on", " ", "Çelik", "'", "s", " ", "2nd"]);
    assert!(builder::tokenize("").is_empty());
    for line in ["a", "  ", "x--y", "Wörter, überall."] {
        assert_eq!(builder::tokenize(line).concat(), line);
    }
}

#[test]
fn words_are_told_from_what_stands_between() {
    assert!(builder::is_word("Zarri"));
    assert!(builder::is_word("4"));
    assert!(builder::is_word("É"));
    assert!(!builder::is_word(", '"));
    assert!(!builder::is_word("_"));
    assert!(!builder::is_word(""));
}

#[test]
fn a_number_stays_a_number_and_the_rest_is_escaped() {
    let line = "Zarri (rogue) hits for 37 points. [Crit]";
    let tokens = builder::tokenize(line);
    let chosen = picked(&tokens, &["Zarri", "37", " ("]);
    assert_eq!(
        builder::regex(&tokens, &chosen),
        r"^(\w+)(.+?)rogue\) hits for (\d+) points\. \[Crit\]"
    );
    let all = builder::regex(&["\\.+*?()|[]{}^$-".to_string()], &BTreeSet::new());
    assert_eq!(all, r"^\\\.\+\*\?\(\)\|\[\]\{\}\^\$-");
    assert_eq!(builder::regex(&[], &BTreeSet::new()), "^");
}

#[test]
fn an_empty_token_counts_as_a_number() {
    let chosen: BTreeSet<usize> = [0].into_iter().collect();
    assert_eq!(builder::regex(&[String::new()], &chosen), r"^(\d+)");
}

#[test]
fn escaped_text_matches_only_itself() {
    let odd = "a.b*c (d) [e] {f} ^g$ h|i \\ j?";
    let pattern = builder::regex(&builder::tokenize(odd), &BTreeSet::new());
    let re = ::regex::Regex::new(&pattern).expect("valid regex");
    assert!(re.is_match(odd));
    assert!(!re.is_match("aXb*c (d) [e] {f} ^g$ h|i \\ j?"));
}

#[test]
fn groups_are_numbered_from_the_left() {
    let line = "Zarri has merged an item to +4";
    let tokens = builder::tokenize(line);
    let chosen = picked(&tokens, &["Zarri", "item", "4"]);
    let pattern = builder::regex(&tokens, &chosen);
    let re = ::regex::Regex::new(&pattern).expect("valid regex");
    let caps = re.captures(line).expect("matches its own line");
    assert_eq!(&caps[0], line);
    // one group for the whole match, and one per choice
    assert_eq!(caps.len(), chosen.len() + 1);
    for i in &chosen {
        let n = builder::group_of(&chosen, *i).expect("chosen");
        assert_eq!(&caps[n], tokens[*i].as_str());
    }
    assert_eq!(builder::group_of(&chosen, 1), None);
    assert_eq!(builder::group_of(&chosen, tokens.len() - 1), Some(3));
    assert_eq!(builder::group_of(&BTreeSet::new(), 0), None);
}

#[test]
fn escaping_goes_text_by_text() {
    let none = BTreeSet::new();
    let one = |t: &str| builder::regex(&[t.to_string()], &none);
    for (a, b) in [("a.b", "(c)"), ("", "$"), ("\\", "\\"), ("x", "")] {
        assert_eq!(one(&format!("{a}{b}")), format!("{}{}", one(a), &one(b)[1..]));
        assert_eq!(builder::regex(&[a.to_string(), b.to_string()], &none), one(&format!("{a}{b}")));
    }
    assert_ne!(one("a.b"), one("a\\.b"));
    assert_eq!(builder::escape("a.b$"), r"a\.b\$");
    assert_eq!(builder::escape(""), "");
    let re = ::regex::Regex::new(&format!("^{}$", builder::escape("a.b$"))).expect("valid regex");
    assert!(re.is_match("a.b$"));
    assert!(!re.is_match("axb$") && !re.is_match("a.b$ ") && !re.is_match(" a.b$"));
}
