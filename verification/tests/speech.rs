//! Who says what, how loud, and when.
use froklog_watch::audio::{
    paplay_volume, play, play_forced, play_step, played, Invocation, PlayStep, Source,
};
use froklog_watch::queue::{Alert, SpeakingQueue};
use froklog_watch::registry::DirEntry;
use froklog_watch::triggers::VoicePriority;
use froklog_watch::voice::{
    installed_voices, piper_sample_rate, say, speak, speak_forced, speak_piper, turn, PiperStep,
    Speech, Turn, Voice,
};

fn line(i: &Invocation) -> String {
    format!("{} {}", i.program, i.args.join("|"))
}

fn dispatched(s: Speech) -> String {
    match s {
        Speech::Dispatcher(i) => line(&i),
        other => panic!("{other:?}"),
    }
}

#[test]
fn the_volume_is_on_paplays_scale() {
    assert_eq!(paplay_volume(100), "--volume=65536");
    assert_eq!(paplay_volume(0), "--volume=0");
    assert_eq!(paplay_volume(50), "--volume=32768");
    assert_eq!(paplay_volume(1), "--volume=655");
    assert_eq!(paplay_volume(99), "--volume=64880");
    assert_eq!(paplay_volume(255), "--volume=65536");
}

fn step(answers: &[bool]) -> String {
    match play_step(50, answers) {
        PlayStep::Ask(i) => line(&i),
        PlayStep::Done(started) => started.to_string(),
    }
}

#[test]
fn players_are_asked_until_one_starts() {
    assert_eq!(
        step(&[]),
        "paplay --property=application.name=froklog watch|--property=media.role=event|--volume=32768"
    );
    assert_eq!(step(&[true]), "true");
    assert_eq!(step(&[false]), "aplay -q");
    assert_eq!(step(&[false, true]), "true");
    assert_eq!(step(&[false, false]), "false");
    assert_eq!(step(&[false, false, false]), "false");
}

#[test]
fn sounds_are_labels_or_absolute_paths() {
    assert_eq!(play("Ding", false, false), Source::Label);
    assert_eq!(play("Ding", true, false), Source::Label);
    assert_eq!(play("/snd/ding.wav", true, false), Source::File);
    assert_eq!(play("/snd/ding.wav", false, false), Source::Label);
    assert_eq!(play("", true, false), Source::Nothing);
    assert_eq!(play("Ding", false, true), Source::Nothing);
    assert_eq!(play_forced("Ding", false), Source::Label);
    assert_eq!(play_forced("", false), Source::Nothing);
    assert_eq!(played(Some("/a".to_string()), true).as_deref(), Some("/a"));
    assert_eq!(played(Some("/a".to_string()), false), None);
    assert_eq!(played(None, true), None);
}

#[test]
fn piper_needs_a_model() {
    assert!(matches!(Voice::from_settings("piper", "/v.onnx"), Voice::Piper { model: "/v.onnx" }));
    assert!(matches!(Voice::from_settings("piper", ""), Voice::SpeechDispatcher));
    assert!(matches!(Voice::from_settings("Piper", "/v.onnx"), Voice::SpeechDispatcher));
    assert!(matches!(Voice::from_settings("speech-dispatcher", "/v.onnx"), Voice::SpeechDispatcher));
}

#[test]
fn the_dispatcher_is_told_everything() {
    let v = Voice::SpeechDispatcher;
    assert_eq!(
        dispatched(speak("hi there", VoicePriority::Emergency, v, None, 100, false)),
        "spd-say --priority|important|-i|0|--application-name|froklog-watch|--|hi there"
    );
    assert_eq!(
        dispatched(speak_forced("x", VoicePriority::Operational, v, None, 30, )),
        "spd-say --priority|message|-i|-70|--application-name|froklog-watch|--|x"
    );
    assert_eq!(
        dispatched(say("x", VoicePriority::Ambient, v, 0)),
        "spd-say --priority|notification|-i|-100|--application-name|froklog-watch|--|x"
    );
    assert_eq!(
        dispatched(say("x", VoicePriority::Ambient, v, 200)),
        "spd-say --priority|notification|-i|0|--application-name|froklog-watch|--|x"
    );
}

#[test]
fn words_are_respelled_before_they_are_said() {
    let file = Some("Erudin = \"Air-oo-din\"");
    let v = Voice::Piper { model: "/v.onnx" };
    match speak_forced("to ERUDIN", VoicePriority::Operational, v, file, 100) {
        Speech::Piper { text, model } => {
            assert_eq!(text, "to Air-oo-din");
            assert_eq!(model, "/v.onnx");
        }
        other => panic!("{other:?}"),
    }
    match speak("\u{130} erudin", VoicePriority::Operational, v, file, 100, false) {
        Speech::Piper { text, .. } => assert_eq!(text, "\u{130} Air-oo-din"),
        other => panic!("{other:?}"),
    }
}

#[test]
fn a_muted_client_is_silent_but_for_auditions() {
    let v = Voice::SpeechDispatcher;
    let p = VoicePriority::Emergency;
    assert!(matches!(speak("hi", p, v, None, 100, true), Speech::Silence));
    assert!(matches!(speak_forced("hi", p, v, None, 100), Speech::Dispatcher(_)));
    assert!(matches!(speak("", p, v, None, 100, false), Speech::Silence));
    assert!(matches!(speak_forced("", p, v, Some("\"\" = \"x\""), 100), Speech::Silence));
}

#[test]
fn priorities_decide_who_talks() {
    for p in [VoicePriority::Emergency, VoicePriority::Operational, VoicePriority::Ambient] {
        assert_eq!(turn(false, p), Turn::Now);
    }
    assert_eq!(turn(true, VoicePriority::Emergency), Turn::Interrupt);
    assert_eq!(turn(true, VoicePriority::Operational), Turn::Queue);
    assert_eq!(turn(true, VoicePriority::Ambient), Turn::GiveWay);
}

fn piper_step(p: VoicePriority, busy: bool, answers: &[bool]) -> String {
    let sidecar = Some("{ \"audio\": { \"sample_rate\": 16000, \"quality\": \"low\" } }");
    match speak_piper("hi", p, "/v.onnx", busy, sidecar, 50, answers) {
        PiperStep::Kill => "kill".to_string(),
        PiperStep::StartPiper { piper, input } => format!("{} <{input:?}", line(&piper)),
        PiperStep::StartPlayer(player) => line(&player),
        PiperStep::Done(said) => said.to_string(),
        PiperStep::Wait => "wait".to_string(),
    }
}

const PIPER: &str = "piper --model|/v.onnx|--output_raw <\"hi\\n\"";
const PLAYER: &str = "paplay --property=application.name=froklog watch|--raw|--format=s16le|--channels=1|--rate=16000|--volume=32768";

#[test]
fn piper_is_piped_into_the_player() {
    for p in [VoicePriority::Emergency, VoicePriority::Operational, VoicePriority::Ambient] {
        assert_eq!(piper_step(p, false, &[]), PIPER);
        assert_eq!(piper_step(p, false, &[false]), "false");
        assert_eq!(piper_step(p, false, &[true]), PLAYER);
        assert_eq!(piper_step(p, false, &[true, false]), "false");
        assert_eq!(piper_step(p, false, &[true, true]), "true");
    }
    match speak_piper("hi", VoicePriority::Ambient, "/v.onnx", false, None, 50, &[true]) {
        PiperStep::StartPlayer(i) => assert!(i.args.contains(&"--rate=22050".to_string())),
        other => panic!("{other:?}"),
    }
}

#[test]
fn an_emergency_kills_before_it_starts() {
    let p = VoicePriority::Emergency;
    assert_eq!(piper_step(p, true, &[]), "kill");
    for killed in [true, false] {
        assert_eq!(piper_step(p, true, &[killed]), PIPER);
        assert_eq!(piper_step(p, true, &[killed, false]), "false");
        assert_eq!(piper_step(p, true, &[killed, true]), PLAYER);
        assert_eq!(piper_step(p, true, &[killed, true, true]), "true");
        assert_eq!(piper_step(p, true, &[killed, true, false]), "false");
    }
    assert_eq!(piper_step(VoicePriority::Ambient, true, &[]), "false");
    assert_eq!(piper_step(VoicePriority::Operational, true, &[]), "wait");
}

#[test]
fn the_rate_is_the_first_number_behind_its_name() {
    assert_eq!(piper_sample_rate(None), 22050);
    assert_eq!(piper_sample_rate(Some("")), 22050);
    assert_eq!(piper_sample_rate(Some("{\"rate\": 16000}")), 22050);
    assert_eq!(piper_sample_rate(Some("{\"sample_rate\": 16000}")), 16000);
    assert_eq!(piper_sample_rate(Some("{\"sample_rate\":44100")), 44100);
    assert_eq!(piper_sample_rate(Some("\"sample_rate\" = about 8000 or 9000")), 8000);
    assert_eq!(piper_sample_rate(Some("\"sample_rate\" none \"sample_rate\": 16000")), 22050);
    assert_eq!(piper_sample_rate(Some("\"sample_rate\": 4294967295")), 4294967295);
    assert_eq!(piper_sample_rate(Some("\"sample_rate\": 4294967296")), 22050);
    assert_eq!(piper_sample_rate(Some("\"sample_rate\": 99999999999999999999999, 5")), 22050);
    assert_eq!(piper_sample_rate(Some("\"sample_rate\": 0016000")), 16000);
    assert_eq!(piper_sample_rate(Some("\"sample_rate\": -1.5")), 1);
}

#[test]
fn voices_are_listed_by_name() {
    let file = |name: &str| DirEntry { name: name.to_string(), path: format!("/v/{name}") };
    let files = vec![
        file("en_US-lessac.onnx"),
        file("en_US-lessac.onnx.json"),
        file("de.onnx"),
        file(".onnx"),
        file("en_US-amy.ONNX"),
        file("fr..onnx"),
        file("onnx"),
    ];
    let want: Vec<(String, String)> = ["de", "en_US-lessac", "fr."]
        .iter()
        .map(|n| (n.to_string(), format!("/v/{n}.onnx")))
        .collect();
    assert_eq!(installed_voices(&files), want);
    assert!(installed_voices(&[]).is_empty());
}

#[test]
fn equal_names_are_listed_by_path() {
    let at = |path: &str| DirEntry { name: "a.onnx".to_string(), path: path.to_string() };
    let got = installed_voices(&[at("/2/a.onnx"), at("/10/a.onnx")]);
    assert_eq!(got[0].1, "/10/a.onnx");
    assert_eq!(got[1].1, "/2/a.onnx");
}

#[test]
fn duplicates_collapse_for_two_seconds() {
    let mut q = SpeakingQueue::new();
    let p = VoicePriority::Operational;
    assert!(q.offer("heal me", p, 1000, false, false));
    assert!(!q.offer("heal me", VoicePriority::Emergency, 2999, false, false));
    assert!(q.offer("run", p, 2999, false, false));
    // a duplicate of a duplicate is one too
    assert!(!q.offer("heal me", p, 3000, false, false));
    assert!(q.offer("heal me", p, 5000, false, false));
    assert_eq!(q.waiting.len(), 3);
    // what is too old to count is forgotten
    assert!(q.offer("later", p, 10_000, false, false));
    assert_eq!(q.heard.len(), 1);
}

#[test]
fn what_is_not_to_be_said_is_not_taken() {
    let mut q = SpeakingQueue::new();
    assert!(!q.offer("hi", VoicePriority::Emergency, 0, false, true));
    assert!(!q.offer("", VoicePriority::Emergency, 0, false, false));
    assert!(q.waiting.is_empty() && q.heard.is_empty());
    // what gave way is not said by being offered again at once
    assert!(!q.offer("trivia", VoicePriority::Ambient, 0, true, false));
    assert!(!q.offer("trivia", VoicePriority::Ambient, 1999, false, false));
    assert!(q.waiting.is_empty());
    assert!(q.offer("trivia", VoicePriority::Ambient, 4000, false, false));
}

#[test]
fn alerts_are_paced_half_a_second_apart() {
    let mut q = SpeakingQueue::new();
    let p = VoicePriority::Operational;
    assert!(q.next(0, false).is_none());
    assert!(q.offer("one", p, 0, false, false));
    assert!(q.offer("two", p, 0, false, false));
    assert_eq!(q.next(100, false).unwrap().text, "one");
    assert!(q.next(599, false).is_none());
    assert_eq!(q.next(600, false).unwrap().text, "two");
    assert!(q.next(5000, false).is_none());
}

#[test]
fn only_an_emergency_is_handed_out_while_something_is_said() {
    let mut q = SpeakingQueue::new();
    assert!(q.offer("one", VoicePriority::Operational, 0, false, false));
    assert!(q.offer("trivia", VoicePriority::Ambient, 0, false, false));
    assert!(q.next(0, true).is_none());
    assert!(q.offer("run", VoicePriority::Emergency, 0, true, false));
    let a = q.next(0, true).unwrap();
    assert_eq!(a.text, "run");
    assert_eq!(a.priority, VoicePriority::Emergency);
    assert!(q.next(1000, true).is_none());
    assert_eq!(q.next(1000, false).unwrap().text, "one");
    assert_eq!(q.next(1500, false).unwrap().text, "trivia");
}

#[test]
fn an_alert_put_back_is_said_next() {
    let mut q = SpeakingQueue::new();
    let p = VoicePriority::Operational;
    assert!(q.offer("one", p, 0, false, false));
    assert!(q.offer("two", p, 0, false, false));
    let one = q.next(0, false).unwrap();
    assert!(!one.forced);
    q.put_back(one);
    assert_eq!(q.next(500, false).unwrap().text, "one");
    q.put_back(Alert { text: "audition".to_string(), priority: p, forced: true });
    assert!(q.next(1000, true).is_none());
    assert!(q.next(1000, false).unwrap().forced);
    assert_eq!(q.next(1500, false).unwrap().text, "two");
}
