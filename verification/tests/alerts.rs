//! Triggers, what is kept of them, and what they did.
use froklog_watch::alerts::{due, is_to_be_written, Alerts, Handled};
use froklog_watch::triggers::{
    describe, Action, Condition, MatchType, OverlayEvent, TriggerConfig, TriggerDef, VoicePriority,
};

fn def(name: &str) -> TriggerDef {
    TriggerDef { name: name.to_string(), enabled: true, conditions: vec![], actions: vec![] }
}

fn handled(message: &str, words: Option<&str>) -> Handled {
    Handled {
        event: OverlayEvent {
            message: message.to_string(),
            sound: None,
            tts_text: words.map(|w| w.to_string()),
            tts_priority: VoicePriority::Operational,
        },
        played: None,
        spoke: words.is_some(),
    }
}

fn loaded(names: &[&str]) -> Alerts {
    Alerts::load(true, TriggerConfig { triggers: names.iter().map(|n| def(n)).collect() })
}

fn names(a: &Alerts) -> Vec<&str> {
    a.triggers().iter().map(|t| t.name.as_str()).collect()
}

#[test]
fn a_trigger_is_described_in_one_line() {
    let t = TriggerDef {
        name: "all".to_string(),
        enabled: true,
        conditions: vec![
            Condition::Match { match_type: MatchType::Regex, pattern: "^a".to_string() },
            Condition::Var { var_name: "hp".to_string() },
            Condition::Match { match_type: MatchType::Other, pattern: "b*".to_string() },
        ],
        actions: vec![
            Action::Overlay,
            Action::VoiceAlert { tts_text: "x".to_string(), priority: None },
            Action::PlaySound { sound: None, delay_secs_bits: 0 },
            Action::StoreVar,
        ],
    };
    assert_eq!(describe(&t), "^a & $hp & b*  →  message, voice, sound, variable");
    assert_eq!(describe(&def("none")), "  →  ");
}

#[test]
fn a_new_trigger_comes_last() {
    let mut a = loaded(&["first"]);
    a.add_trigger("merge", "^(\\w+) merged", "Ding", "{1} merged");
    assert_eq!(a.count(), 2);
    let t = &a.triggers()[1];
    assert_eq!(t.name, "merge");
    assert!(t.enabled);
    assert_eq!(describe(t), "^(\\w+) merged  →  sound, voice");
    assert!(matches!(&t.conditions[0], Condition::Match { match_type: MatchType::Regex, .. }));
    assert!(matches!(
        &t.actions[0],
        Action::PlaySound { sound: Some(s), delay_secs_bits } if s == "Ding"
            && f64::from_bits(*delay_secs_bits) == 0.0
    ));
    assert!(matches!(
        &t.actions[1],
        Action::VoiceAlert { tts_text, priority: None } if tts_text == "{1} merged"
    ));
    a.add_trigger("quiet", "x", "", "");
    assert_eq!(describe(&a.triggers()[2]), "x  →  ");
    a.add_trigger("loud", "y", "Ding", "");
    assert_eq!(describe(&a.triggers()[3]), "y  →  sound");
    a.add_trigger("said", "z", "", "word");
    assert_eq!(describe(&a.triggers()[4]), "z  →  voice");
}

#[test]
fn one_trigger_is_switched_at_a_time() {
    let mut a = loaded(&["a", "b", "c"]);
    assert!(a.set_enabled(1, false));
    let on: Vec<bool> = a.triggers().iter().map(|t| t.enabled).collect();
    assert_eq!(on, vec![true, false, true]);
    assert!(a.set_enabled(1, true));
    assert!(a.triggers()[1].enabled);
    assert!(!a.set_enabled(3, false));
    assert_eq!(names(&a), vec!["a", "b", "c"]);
}

#[test]
fn a_file_is_used_once_it_parses_and_is_written() {
    let mut a = loaded(&["old"]);
    let new = || TriggerConfig { triggers: vec![def("x"), def("y")] };
    assert!(is_to_be_written(&Ok(new())));
    assert!(!is_to_be_written(&Err("typo".to_string())));
    assert_eq!(a.write_file(Err("typo".to_string()), Ok(())), Err("typo".to_string()));
    assert_eq!(names(&a), vec!["old"]);
    assert_eq!(a.write_file(Ok(new()), Err("disk full".to_string())), Err("disk full".to_string()));
    assert_eq!(names(&a), vec!["old"]);
    assert_eq!(
        a.write_file(Err("typo".to_string()), Err("disk full".to_string())),
        Err("typo".to_string())
    );
    assert_eq!(a.write_file(Ok(new()), Ok(())), Ok(2));
    assert_eq!(names(&a), vec!["x", "y"]);
    a.reload(TriggerConfig { triggers: vec![def("again")] });
    assert_eq!(names(&a), vec!["again"]);
}

#[test]
fn lines_pass_while_triggers_are_on() {
    let mut a = loaded(&[]);
    assert!(a.enabled);
    assert!(a.recent.is_empty());
    assert_eq!(a.process_line("Zarri says"), Some("Zarri says"));
    a.enabled = false;
    assert_eq!(a.process_line("Zarri says"), None);
}

#[test]
fn the_words_stand_in_for_a_missing_message() {
    let mut a = loaded(&[]);
    let mut loud = handled("hailed", Some("spoken"));
    loud.event.sound = Some("Ding".to_string());
    loud.played = Some("/ding.wav".to_string());
    a.pump(vec![loud, handled("", Some("spoken")), handled("", None)], false);
    let shown: Vec<&str> = a.recent.iter().map(|f| f.message.as_str()).collect();
    assert_eq!(shown, vec!["hailed", "spoken", ""]);
    assert_eq!(a.recent[0].played.as_deref(), Some("/ding.wav"));
    assert!(a.recent[0].spoke && !a.recent[2].spoke);
    assert_eq!(a.recent[2].played, None);
}

#[test]
fn the_last_twenty_are_remembered() {
    let batch = |from: usize, to: usize| -> Vec<Handled> {
        (from..to).map(|i| handled(&i.to_string(), None)).collect()
    };
    let mut at_once = loaded(&[]);
    at_once.pump(batch(0, 33), false);
    let mut in_turn = loaded(&[]);
    in_turn.pump(batch(0, 12), false);
    assert_eq!(in_turn.recent.len(), 12);
    in_turn.pump(vec![], false);
    in_turn.pump(batch(12, 33), false);
    for a in [&at_once, &in_turn] {
        let shown: Vec<String> = a.recent.iter().map(|f| f.message.clone()).collect();
        let want: Vec<String> = (13..33).map(|i: usize| i.to_string()).collect();
        assert_eq!(shown, want);
    }
}

#[test]
fn only_what_was_due_is_shown() {
    let claimed = |words: Option<&str>, sound: Option<&str>| -> Handled {
        let mut h = handled("x", words);
        h.event.sound = sound.map(|s| s.to_string());
        h.played = Some("/ding.wav".to_string());
        h.spoke = true;
        h
    };
    let shown = |h: Handled, muted: bool| -> (bool, bool) {
        let mut a = loaded(&[]);
        a.pump(vec![h], muted);
        (a.recent[0].spoke, a.recent[0].played.is_some())
    };
    assert_eq!(shown(claimed(Some("hi"), Some("Ding")), false), (true, true));
    assert_eq!(shown(claimed(None, Some("Ding")), false), (false, true));
    assert_eq!(shown(claimed(Some("hi"), None), false), (true, false));
    assert_eq!(shown(claimed(None, None), false), (false, false));
    assert_eq!(shown(claimed(Some("hi"), Some("Ding")), true), (false, false));
}

#[test]
fn a_muted_client_has_nothing_to_do() {
    let mut h = handled("x", Some("hi"));
    assert_eq!(due(&h.event, false), (None, Some("hi")));
    h.event.sound = Some("Ding".to_string());
    assert_eq!(due(&h.event, false), (Some("Ding"), Some("hi")));
    assert_eq!(due(&h.event, true), (None, None));
}
