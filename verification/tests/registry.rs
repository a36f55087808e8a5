//! Characters, their links, and what is known of them.
use froklog_watch::character::{parse_log_name, Character};
use froklog_watch::registry::{scan_dir, Characters, DirEntry, Registry, Settings};

fn character(player: &str, server: &str) -> Character {
    Character {
        player: player.into(),
        server: server.into(),
        log_path: "/tmp/log.txt".into(),
        enabled: false,
        stream_id: None,
        stream_token: None,
        view_token: None,
        imported: false,
        public: false,
    }
}

fn file(dir: &str, name: &str) -> DirEntry {
    DirEntry { name: name.to_string(), path: format!("{dir}/{name}") }
}

#[test]
fn parses_log_filenames() {
    assert_eq!(
        parse_log_name("eqlog_Zarri_halas.txt"),
        Some(("Zarri".into(), "halas".into()))
    );
    assert_eq!(
        parse_log_name("eqlog_Zari_qeynos.txt"),
        Some(("Zari".into(), "qeynos".into()))
    );
    // not a character log
    assert_eq!(parse_log_name("dbg.txt"), None);
    assert_eq!(parse_log_name("eqlog_broken.txt"), None);
}

#[test]
fn log_names_need_both_parts() {
    assert_eq!(parse_log_name("eqlog__halas.txt"), None);
    assert_eq!(parse_log_name("eqlog_Zarri_.txt"), None);
    assert_eq!(parse_log_name("eqlog_.txt"), None);
    assert_eq!(parse_log_name("eqlog_txt"), None);
    assert_eq!(parse_log_name(""), None);
    assert_eq!(parse_log_name("Eqlog_Zarri_halas.txt"), None);
    assert_eq!(parse_log_name("eqlog_Zarri_halas.txt.bak"), None);
    // only the first underscore parts them
    assert_eq!(
        parse_log_name("eqlog_Zarri_new_halas.txt"),
        Some(("Zarri".into(), "new_halas".into()))
    );
    assert_eq!(parse_log_name("eqlog_É_ü.txt"), Some(("É".into(), "ü".into())));
}

#[test]
fn builds_links_only_when_registered() {
    let mut c = Character {
        player: "Zarri".into(),
        server: "halas".into(),
        log_path: "/tmp/eqlog_Zarri_halas.txt".into(),
        enabled: true,
        stream_id: None,
        stream_token: None,
        view_token: None,
        imported: false,
        public: false,
    };
    assert!(c.view_url("https://froklog.example").is_none());
    c.stream_id = Some("abc123".into());
    c.view_token = Some("tok".into());
    assert_eq!(
        c.view_url("https://froklog.example/").as_deref(),
        Some("https://froklog.example/stream/abc123?vtok=tok")
    );
    assert_eq!(
        c.ingest_url("https://froklog.example").as_deref(),
        Some("wss://froklog.example/ingest/abc123")
    );
}

#[test]
fn the_public_page_is_preferred_and_revocable() {
    let mut c = character("Zarri", "halas");
    c.stream_id = Some("abc".into());
    c.view_token = Some("tok".into());
    c.public = true;
    // without the stream's own token it is not registered
    assert!(!c.registered());
    assert_eq!(c.public_url("https://f.example", "eq"), None);
    c.stream_token = Some("s".into());
    assert!(c.registered());
    assert_eq!(
        c.share_url("https://f.example///", "eq").as_deref(),
        Some("https://f.example/player/eq/halas/Zarri")
    );
    c.public = false;
    assert_eq!(c.public_url("https://f.example", "eq"), None);
    assert_eq!(
        c.share_url("https://f.example", "eq").as_deref(),
        Some("https://f.example/stream/abc?vtok=tok")
    );
    c.view_token = None;
    assert_eq!(c.share_url("https://f.example", "eq"), None);
}

#[test]
fn the_socket_follows_the_page() {
    let mut c = character("Zarri", "halas");
    assert_eq!(c.ingest_url("http://f.example"), None);
    c.stream_id = Some("abc".into());
    assert_eq!(c.ingest_url("http://f.example/").as_deref(), Some("ws://f.example/ingest/abc"));
    assert_eq!(c.ingest_url("f.example").as_deref(), Some("f.example/ingest/abc"));
    // each scheme is replaced once, wherever it stands first
    assert_eq!(
        c.ingest_url("https://a/http://b/https://c").as_deref(),
        Some("wss://a/ws://b/https://c/ingest/abc")
    );
}

#[test]
fn keys_name_one_character_each() {
    assert_eq!(character("Zarri", "halas").key(), "Zarri@halas");
    assert_ne!(character("Zarri", "halas").key(), character("Zari", "halas").key());
}

#[test]
fn a_fresh_install_has_its_defaults() {
    let s = Settings::default();
    assert_eq!(s.server_url, "");
    assert_eq!(s.stream_password, "");
    assert!(s.log_dirs.is_empty());
    assert_eq!(s.game, "eq");
    assert_eq!(s.planner_url, "https://eqp.psitronic.net");
    assert!(!s.triggers_enabled);
    assert_eq!(s.sound_package, "default");
    assert_eq!(s.voice_engine, "speech-dispatcher");
    assert_eq!(s.piper_model, "");
    assert!(!s.meter_enabled);
    assert!(!s.meter_locked);
    assert_eq!((s.meter_x, s.meter_y), (40, 40));
    assert_eq!(s.meter_width, 300);
    assert_eq!(s.meter_max_rows, 8);
    assert_eq!(s.meter_idle_secs, 30);
    assert_eq!(f32::from_bits(s.meter_font_size_bits), 14.0);
    let r = Registry::load(None);
    assert_eq!(r.settings.game, "eq");
    assert!(r.characters.entries().is_empty());
}

#[test]
fn what_was_read_is_what_is_started_with() {
    let mut read = Registry::default();
    read.settings.game = "p99".to_string();
    read.characters.insert("Zarri@halas".to_string(), character("Zarri", "halas"));
    let r = Registry::load(Some(read));
    assert_eq!(r.settings.game, "p99");
    assert_eq!(r.characters.get("Zarri@halas").map(|c| c.player.as_str()), Some("Zarri"));
}

#[test]
fn only_logs_are_found() {
    let files = vec![
        file("/eq", "dbg.txt"),
        file("/eq", "eqlog_Zarri_halas.txt"),
        file("/eq", "eqlog_broken.txt"),
        file("/eq", "eqlog_Aby_qeynos.txt"),
    ];
    let found = scan_dir(&files);
    assert_eq!(found.len(), 2);
    assert_eq!(found[0].key(), "Zarri@halas");
    assert_eq!(found[0].log_path, "/eq/eqlog_Zarri_halas.txt");
    assert!(!found[0].enabled && !found[0].imported && !found[0].public && !found[0].registered());
    assert_eq!(found[0].view_token, None);
    assert_eq!(found[1].key(), "Aby@qeynos");
}

#[test]
fn a_scan_keeps_what_was_known() {
    let mut r = Registry::default();
    let mut known = character("Zarri", "halas");
    known.enabled = true;
    known.stream_id = Some("abc".into());
    known.stream_token = Some("s".into());
    known.imported = true;
    r.characters.insert(known.key(), known);
    r.characters.insert("Old@halas".to_string(), character("Old", "halas"));
    let files = vec![
        file("/one", "eqlog_Zarri_halas.txt"),
        file("/one", "eqlog_Aby_qeynos.txt"),
        file("/two", "eqlog_Zarri_halas.txt"),
    ];
    // logs are counted, not characters
    assert_eq!(r.scan(&files), 3);
    let keys: Vec<&str> = r.characters.entries().iter().map(|(k, _)| k.as_str()).collect();
    assert_eq!(keys, vec!["Aby@qeynos", "Old@halas", "Zarri@halas"]);
    let zarri = r.characters.get("Zarri@halas").unwrap();
    assert!(zarri.enabled && zarri.registered() && zarri.imported);
    assert_eq!(zarri.log_path, "/two/eqlog_Zarri_halas.txt");
    assert_eq!(r.characters.get("Old@halas").unwrap().log_path, "/tmp/log.txt");
    let aby = r.characters.get("Aby@qeynos").unwrap();
    assert!(!aby.enabled && !aby.registered() && !aby.public);
    // again, and directory by directory
    let once = format!("{:?}", r);
    assert_eq!(r.scan(&files), 3);
    assert_eq!(format!("{:?}", r), once);
    assert_eq!(r.scan(&files[..2]) + r.scan(&files[2..]), 3);
    assert_eq!(format!("{:?}", r), once);
    assert_eq!(r.scan(&[]), 0);
}

#[test]
fn characters_are_kept_by_key() {
    let mut c = Characters::new();
    assert!(c.get("a").is_none());
    c.insert("b".to_string(), character("B", "1"));
    c.insert("a".to_string(), character("A", "1"));
    c.insert("ab".to_string(), character("AB", "1"));
    c.insert("a".to_string(), character("A", "2"));
    let list: Vec<(&str, &str)> =
        c.entries().iter().map(|(k, v)| (k.as_str(), v.server.as_str())).collect();
    assert_eq!(list, vec![("a", "2"), ("ab", "1"), ("b", "1")]);
    assert_eq!(c.get("ab").map(|v| v.player.as_str()), Some("AB"));
    assert!(c.get("c").is_none());
    let copy = c.clone();
    assert_eq!(copy.entries().len(), 3);
}
