//! The pronunciation table: applying it, writing it, reading it.
use froklog_watch::pronounce::{preview, pronunciations, save_pronunciations};
use froklog_watch::respell::{respell, respell_entry};
use froklog_watch::text::is_white_space;

fn table(entries: &[(&str, &str)]) -> Vec<(String, String)> {
    entries.iter().map(|(a, b)| (a.to_string(), b.to_string())).collect()
}

#[test]
fn respelling_matches_whole_words_only() {
    let table = vec![
        ("Cazic-Thule".to_string(), "Kay-zick Thool".to_string()),
        ("Erudin".to_string(), "Air-oo-din".to_string()),
    ];
    assert_eq!(
        respell("Cazic-Thule hits you", &table),
        "Kay-zick Thool hits you"
    );
    // case-insensitive
    assert_eq!(respell("erudin guard", &table), "Air-oo-din guard");
    // but not inside a longer word, or every name containing it breaks
    assert_eq!(respell("Erudinite", &table), "Erudinite");
}

#[test]
fn every_occurrence_is_replaced_and_the_rest_kept() {
    let t = table(&[("Fear", "Feer")]);
    assert_eq!(respell("Fear, fear! Fearless FEAR", &t), "Feer, Feer! Fearless Feer");
    assert_eq!(respell("no such Word", &t), "no such Word");
    assert_eq!(respell("", &t), "");
    assert_eq!(respell("anything", &[]), "anything");
    // a letter or a digit of any script makes it part of a longer word
    assert_eq!(respell("Feará fear2", &t), "Feará fear2");
    assert_eq!(respell("«Fear»", &t), "«Feer»");
}

#[test]
fn entries_are_applied_in_turn() {
    let t = table(&[("a", "b"), ("b", "c")]);
    assert_eq!(respell("a b", &t), "c c");
    assert_eq!(respell("a", &table(&[("b", "c"), ("a", "b")])), "b");
}

#[test]
fn lines_are_cut_between_their_own_characters() {
    let t = table(&[("fear", "feer")]);
    // the lowercase form is longer, or shorter, than the line
    assert_eq!(respell("\u{130} fear", &t), "\u{130} feer");
    assert_eq!(respell("\u{23a} fear!", &t), "\u{23a} feer!");
    assert_eq!(respell("\u{212a} fear", &t), "\u{212a} feer");
    let signs = "\u{212a}\u{212a}\u{212a}\u{212a}\u{212a}";
    assert_eq!(respell(&format!("{signs} abc"), &table(&[("abc", "-")])), format!("{signs} -"));
    // a letter is a letter, however long its lowercase form
    assert_eq!(respell("\u{130}fear fear\u{130}", &t), "\u{130}fear fear\u{130}");
}

#[test]
fn case_is_ignored_in_every_script() {
    let t = table(&[("\u{130}zmir", "Izmeer"), ("οδος", "othos"), ("kelvin", "K")]);
    assert_eq!(respell("to i\u{307}zmir", &t), "to Izmeer");
    assert_eq!(respell("ΟΔΟΣ, Οδοσ", &t), "othos, othos");
    assert_eq!(respell("\u{212a}elvin", &t), "K");
    // half a character is no word
    assert_eq!(respell("\u{130}", &table(&[("i", "x")])), "\u{130}");
}

#[test]
fn an_entry_without_a_word_changes_nothing() {
    assert_eq!(respell("fear", &table(&[("", "x")])), "fear");
    assert_eq!(preview("fear", Some("\"\" = \"x\"\nfear = \"feer\"")), "feer");
}

#[test]
fn readings_decide_what_is_replaced() {
    let folds: Vec<Vec<char>> = vec![vec!['a', 'b'], vec![' '], vec!['a'], vec!['b']];
    assert_eq!(respell_entry("X ab", &folds, &['a', 'b'], "-"), "- -");
    assert_eq!(respell_entry("X ab", &folds, &['a'], "-"), "X ab");
    assert_eq!(respell_entry("X ab", &folds, &['b'], "-"), "X ab");
    assert_eq!(respell_entry("X ab", &folds, &[], "-"), "X ab");
    assert_eq!(respell_entry("", &[], &['a'], "-"), "");
}

#[test]
fn the_search_goes_on_behind_what_was_found() {
    // the first hit is part of a longer word, and takes the second one's head
    assert_eq!(respell("ba a a", &table(&[("a a", "-")])), "ba a a");
    assert_eq!(respell("a a a", &table(&[("a a", "-")])), "- a");
}

#[test]
fn the_longest_word_wins() {
    let file = "Fear = \"Feer\"\n\"Plane of Fear\" = \"the plane\"\nab = \"1\"\naa = \"2\"\n";
    assert_eq!(
        pronunciations(Some(file)),
        table(&[("Plane of Fear", "the plane"), ("Fear", "Feer"), ("aa", "2"), ("ab", "1")])
    );
    assert_eq!(preview("Plane of Fear, Fear", Some(file)), "the plane, Feer");
}

#[test]
fn words_are_measured_in_bytes() {
    // two letters of two bytes each go before three of one
    let file = "abc = \"x\"\n\"éé\" = \"y\"\n";
    assert_eq!(pronunciations(Some(file)), table(&[("éé", "y"), ("abc", "x")]));
}

#[test]
fn no_file_and_a_broken_file_give_no_table() {
    assert!(pronunciations(None).is_empty());
    assert!(pronunciations(Some("not toml")).is_empty());
    assert!(pronunciations(Some("number = 3")).is_empty());
    assert!(pronunciations(Some("")).is_empty());
    assert_eq!(preview("Fear", None), "Fear");
    assert_eq!(preview("Fear", Some("[broken")), "Fear");
}

#[test]
fn what_is_written_is_read_back() {
    let t = table(&[
        ("  Cazic-Thule ", " Kay-zick Thool"),
        ("   ", "dropped"),
        ("a \"quoted\" one", "back\\slash"),
        ("tab\there", "line\nend\r."),
        ("", "dropped too"),
        ("Erudin", ""),
    ]);
    let file = save_pronunciations(&t);
    assert_eq!(
        file,
        "# How to say what the voice gets wrong. Spelled the way it sounds,\n         # not in phonetic notation. Whole words only, case-insensitive.\n\n\"Cazic-Thule\" = \"Kay-zick Thool\"\n\"a \\\"quoted\\\" one\" = \"back\\\\slash\"\n\"tab\\there\" = \"line\\nend\\r.\"\n\"Erudin\" = \"\"\n"
    );
    assert_eq!(
        pronunciations(Some(&file)),
        table(&[
            ("a \"quoted\" one", "back\\slash"),
            ("Cazic-Thule", "Kay-zick Thool"),
            ("tab\there", "line\nend\r."),
            ("Erudin", ""),
        ])
    );
}

#[test]
fn letters_of_other_scripts_are_read_back() {
    let t = table(&[("Çelik", "Chellick"), ("Ωmega", "Oh-mega")]);
    assert_eq!(pronunciations(Some(&save_pronunciations(&t))), table(&[("Çelik", "Chellick"), ("Ωmega", "Oh-mega")]));
}

#[test]
fn a_word_written_twice_spoils_the_file() {
    let t = table(&[("Fear", "a"), ("Fear ", "b")]);
    assert!(pronunciations(Some(&save_pronunciations(&t))).is_empty());
}

#[test]
fn an_empty_table_is_a_file_of_comments() {
    let file = save_pronunciations(&[]);
    assert!(file.ends_with("case-insensitive.\n\n"));
    assert!(pronunciations(Some(&file)).is_empty());
}

#[test]
fn every_printable_ascii_character_is_read_back() {
    let word: String = ('!'..='~').collect();
    let t = vec![(word.clone(), word.clone())];
    assert_eq!(pronunciations(Some(&save_pronunciations(&t))), t);
}

#[test]
fn blanks_are_the_unicode_ones() {
    for v in 0..=0x10ffffu32 {
        if let Some(c) = char::from_u32(v) {
            assert_eq!(is_white_space(c), c.is_whitespace(), "{v:x}");
        }
    }
}
