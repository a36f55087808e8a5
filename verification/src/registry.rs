//! Which characters we know about, and the froklog stream each one owns.
//!
//! EverQuest writes one log per character per server, and a froklog stream is
//! likewise one character on one server, so the mapping is 1:1 and permanent.
//! It is kept so a character registered once is never registered twice, and
//! so the view links survive a restart.
use vstd::prelude::*;

use crate::character::{
    law_log_names_read_back, log_owner, parse_log_name, Character, CharacterView,
};
use crate::order::{law_lex_less_is_an_order, lex_less, text_less, Pair};
use crate::text::same_text;

verus! {

// ---------------------------------------------------------------------------
// Settings
// ---------------------------------------------------------------------------
#[derive(Debug, Clone)]
pub struct Settings {
    /// froklog-server base URL, e.g. https://froklog.psitronic.net
    pub server_url: String,
    /// Only needed if the server sets `stream_password`; most are open. Kept
    /// locally, and sent as a Bearer token when creating a stream.
    pub stream_password: String,
    /// Where to look for eqlog_*.txt. More than one install is normal.
    pub log_dirs: Vec<String>,
    /// Game identifier froklog records against the stream.
    pub game: String,
    /// Planner to hand the feed to, so a character is one click from a build.
    pub planner_url: String,
    /// Run triggers against every watched log.
    pub triggers_enabled: bool,
    /// Which sound package trigger labels resolve through. Swapping this
    /// re-themes every trigger's sound at once, which is the whole point of
    /// packages, so it belongs here, not in each trigger.
    pub sound_package: String,
    /// Which text-to-speech engine speaks alerts: "speech-dispatcher" (always
    /// present, but robotic) or "piper" (neural, needs a voice model).
    pub voice_engine: String,
    /// Path to a piper .onnx voice. Only meaningful when voice_engine=piper.
    pub piper_model: String,
    /// Show the on-screen DPS meter overlay.
    pub meter_enabled: bool,
    /// Click-through: the meter ignores the mouse entirely. Like the Windows
    /// client, once locked it can only be unlocked from the main window.
    pub meter_locked: bool,
    /// Top-left position as layer-shell margins from the screen's top-left.
    pub meter_x: i32,
    pub meter_y: i32,
    pub meter_width: u32,
    pub meter_max_rows: usize,
    /// Hide after this many seconds with nothing to show. 0 = never hide.
    pub meter_idle_secs: u64,
    /// The font size, as the bits of a single-precision number.
    pub meter_font_size_bits: u32,
}

pub fn default_meter_pos() -> (r: i32)
    ensures
        r == 40,
{
    40
}

pub fn default_meter_width() -> (r: u32)
    ensures
        r == 300,
{
    300
}

pub fn default_meter_max_rows() -> (r: usize)
    ensures
        r == 8,
{
    8
}

pub fn default_meter_idle() -> (r: u64)
    ensures
        r == 30,
{
    30
}

/// The bits of 14.0.
pub fn default_meter_font() -> (r: u32)
    ensures
        r == 0x4160_0000,
{
    0x4160_0000
}

pub fn default_sound_package() -> (r: String)
    ensures
        r@ == "default"@,
{
    "default".to_owned()
}

pub fn default_voice() -> (r: String)
    ensures
        r@ == "speech-dispatcher"@,
{
    "speech-dispatcher".to_owned()
}

pub fn default_game() -> (r: String)
    ensures
        r@ == "eq"@,
{
    "eq".to_owned()
}

pub fn default_planner() -> (r: String)
    ensures
        r@ == "https://eqp.psitronic.net"@,
{
    "https://eqp.psitronic.net".to_owned()
}

impl Settings {
    /// The settings of a fresh install: nothing to connect to, nothing on.
    pub open spec fn fresh(self) -> bool {
        &&& self.server_url@.len() == 0
        &&& self.stream_password@.len() == 0
        &&& self.log_dirs@.len() == 0
        &&& self.game@ == "eq"@
        &&& self.planner_url@ == "https://eqp.psitronic.net"@
        &&& !self.triggers_enabled
        &&& self.sound_package@ == "default"@
        &&& self.voice_engine@ == "speech-dispatcher"@
        &&& self.piper_model@.len() == 0
        &&& !self.meter_enabled
        &&& !self.meter_locked
        &&& self.meter_x == 40
        &&& self.meter_y == 40
        &&& self.meter_width == 300
        &&& self.meter_max_rows == 8
        &&& self.meter_idle_secs == 30
        &&& self.meter_font_size_bits == 0x4160_0000
    }
}

impl Default for Settings {
    fn default() -> (r: Self)
        ensures
            r.fresh(),
    {
        Settings {
            server_url: String::new(),
            stream_password: String::new(),
            log_dirs: Vec::new(),
            game: default_game(),
            planner_url: default_planner(),
            triggers_enabled: false,
            sound_package: default_sound_package(),
            voice_engine: default_voice(),
            piper_model: String::new(),
            meter_enabled: false,
            meter_locked: false,
            meter_x: default_meter_pos(),
            meter_y: default_meter_pos(),
            meter_width: default_meter_width(),
            meter_max_rows: default_meter_max_rows(),
            meter_idle_secs: default_meter_idle(),
            meter_font_size_bits: default_meter_font(),
        }
    }
}

// ---------------------------------------------------------------------------
// Characters by key
// ---------------------------------------------------------------------------
/// A key and its character, as contracts see them.
pub type Entry = (Seq<char>, CharacterView);

/// What is kept by key.
pub type CharacterMap = Map<Seq<char>, CharacterView>;

/// Does the list hold an entry for the key at position `i`?
pub open spec fn entry_at(list: Seq<Entry>, key: Seq<char>, i: int) -> bool {
    0 <= i < list.len() && list[i].0 == key
}

/// The list as a map.
pub open spec fn list_map(list: Seq<Entry>) -> CharacterMap {
    Map::new(
        |k: Seq<char>| exists|i: int| entry_at(list, k, i),
        |k: Seq<char>| list[choose|i: int| entry_at(list, k, i)].1,
    )
}

/// Keys ascend by dictionary; so no key occurs twice.
pub open spec fn keys_ascend(list: Seq<Entry>) -> bool {
    forall|i: int, j: int|
        0 <= i < j < list.len() ==> lex_less((#[trigger] list[i]).0, (#[trigger] list[j]).0)
}

/// Characters by key ("Player@server"), in the order of the keys.
#[derive(Debug)]
pub struct Characters {
    entries: Vec<(String, Character)>,
}

impl View for Characters {
    type V = CharacterMap;

    open spec fn view(&self) -> CharacterMap {
        list_map(self.list())
    }
}

impl Clone for Characters {
    fn clone(&self) -> (r: Self)
        ensures
            r.list() == self.list(),
            r@ == self@,
    {
        proof {
            use_type_invariant(self);
        }
        let mut entries: Vec<(String, Character)> = Vec::new();
        let ghost all = self.list();
        let mut i: usize = 0;
        assert(entries.deep_view() =~= all.take(0));
        while i < self.entries.len()
            invariant
                i <= self.entries@.len(),
                all == self.entries.deep_view(),
                entries.deep_view() == all.take(i as int),
            decreases self.entries@.len() - i,
        {
            let e: (String, Character) = (self.entries[i].0.clone(), self.entries[i].1.clone());
            let ghost was = entries.deep_view();
            let ghost v = e.deep_view();
            assert(v == all[i as int]);
            entries.push(e);
            assert(entries.deep_view() =~= was.push(v));
            assert(entries.deep_view() =~= all.take(i + 1));
            i += 1;
        }
        assert(entries.deep_view() =~= all);
        Characters { entries }
    }
}

impl Characters {
    /// The entries in order.
    pub closed spec fn list(self) -> Seq<Entry> {
        self.entries.deep_view()
    }

    /// Keys ascend.
    #[verifier::type_invariant]
    spec fn well_formed(self) -> bool {
        keys_ascend(self.entries.deep_view())
    }

    pub fn new() -> (r: Self)
        ensures
            r@ == CharacterMap::empty(),
    {
        let r = Characters { entries: Vec::new() };
        assert(r@ =~= CharacterMap::empty());
        r
    }

    /// The entries, in the order of their keys.
    pub fn entries(&self) -> (r: &[(String, Character)])
        ensures
            r.deep_view() == self.list(),
            keys_ascend(r.deep_view()),
    {
        proof {
            use_type_invariant(self);
        }
        let r = self.entries.as_slice();
        assert(r.deep_view() =~= self.list());
        r
    }

    /// The character with this key.
    pub fn get(&self, key: &str) -> (r: Option<&Character>)
        ensures
            match r {
                Some(c) => self@.contains_key(key@) && self@[key@] == c@,
                None => !self@.contains_key(key@),
            },
    {
        proof {
            use_type_invariant(self);
        }
        let i: usize = place(&self.entries, key);
        proof {
            lemma_place(self.list(), key@, i as int);
        }
        if i < self.entries.len() && same_text(self.entries[i].0.as_str(), key) {
            Some(&self.entries[i].1)
        } else {
            None
        }
    }

    /// Keeps the character under this key, in place of what was kept there.
    pub fn insert(&mut self, key: String, c: Character)
        ensures
            final(self)@ == old(self)@.insert(key@, c@),
    {
        proof {
            use_type_invariant(&*self);
        }
        let ghost was = self.list();
        let ghost k = key@;
        let ghost v = c@;
        let mut entries: Vec<(String, Character)> = Vec::new();
        std::mem::swap(&mut entries, &mut self.entries);
        let i: usize = place(&entries, key.as_str());
        proof {
            lemma_place(was, k, i as int);
        }
        if i < entries.len() && entries[i].0 == key {
            let _replaced = entries.remove(i);
            assert(entries.deep_view() =~= was.remove(i as int));
        }
        let ghost without = entries.deep_view();
        entries.insert(i, (key, c));
        proof {
            assert(entries.deep_view() =~= without.insert(i as int, (k, v)));
            if i < was.len() && was[i as int].0 == k {
                assert(entries.deep_view() =~= was.update(i as int, (k, v)));
                lemma_update(was, i as int, k, v);
            } else {
                assert(entries.deep_view() =~= was.insert(i as int, (k, v)));
                lemma_insert(was, i as int, k, v);
            }
        }
        self.entries = entries;
    }

    /// Notes a character found on disk: its log's path where it is known, all
    /// of it where it is not.
    fn note(&mut self, c: Character)
        ensures
            final(self)@ == noted(old(self)@, c@),
    {
        proof {
            use_type_invariant(&*self);
        }
        let ghost was = self.list();
        let key = c.key();
        let ghost k = key@;
        let ghost v = c@;
        let mut entries: Vec<(String, Character)> = Vec::new();
        std::mem::swap(&mut entries, &mut self.entries);
        let i: usize = place(&entries, key.as_str());
        proof {
            lemma_place(was, k, i as int);
        }
        if i < entries.len() && entries[i].0 == key {
            let ghost known = was[i as int].1;
            entries[i].1.log_path = c.log_path;
            proof {
                let now = CharacterView { log_path: v.log_path, ..known };
                assert(entries.deep_view() =~= was.update(i as int, (k, now)));
                lemma_update(was, i as int, k, now);
            }
        } else {
            entries.insert(i, (key, c));
            proof {
                assert(entries.deep_view() =~= was.insert(i as int, (k, v)));
                lemma_insert(was, i as int, k, v);
            }
        }
        self.entries = entries;
    }
}

/// Where the key stands, or where it would have to be put.
fn place(entries: &Vec<(String, Character)>, key: &str) -> (r: usize)
    requires
        keys_ascend(entries.deep_view()),
    ensures
        r <= entries@.len(),
        forall|j: int| 0 <= j < r ==> lex_less((#[trigger] entries.deep_view()[j]).0, key@),
        r < entries@.len() ==> !lex_less(entries.deep_view()[r as int].0, key@),
{
    let mut i: usize = 0;
    while i < entries.len() && text_less(entries[i].0.as_str(), key)
        invariant
            i <= entries@.len(),
            forall|j: int| 0 <= j < i ==> lex_less((#[trigger] entries.deep_view()[j]).0, key@),
        decreases entries@.len() - i,
    {
        i += 1;
    }
    i
}

/// A key is kept exactly if it stands at its place, and then that is what is
/// kept under it.
proof fn lemma_place(list: Seq<Entry>, key: Seq<char>, i: int)
    requires
        keys_ascend(list),
        0 <= i <= list.len(),
        forall|j: int| 0 <= j < i ==> lex_less((#[trigger] list[j]).0, key),
        i < list.len() ==> !lex_less(list[i].0, key),
    ensures
        list_map(list).contains_key(key) == (i < list.len() && list[i].0 == key),
        i < list.len() && list[i].0 == key ==> list_map(list)[key] == list[i].1,
        i < list.len() && list[i].0 != key ==> lex_less(key, list[i].0),
        forall|j: int|
            0 <= j < list.len() && j != i ==> (#[trigger] list[j]).0 != key,
{
    if i < list.len() {
        law_lex_less_is_an_order(list[i].0, key, key);
    }
    assert forall|j: int| 0 <= j < list.len() && j != i implies (#[trigger] list[j]).0 != key by {
        law_lex_less_is_an_order(key, key, key);
        if j > i {
            assert(lex_less(list[i].0, list[j].0));
            law_lex_less_is_an_order(key, list[i].0, list[j].0);
        }
    }
    if i < list.len() && list[i].0 == key {
        assert(entry_at(list, key, i));
    }
}

proof fn lemma_lookup(list: Seq<Entry>, i: int)
    requires
        keys_ascend(list),
        0 <= i < list.len(),
    ensures
        list_map(list).contains_key(list[i].0),
        list_map(list)[list[i].0] == list[i].1,
{
    assert(entry_at(list, list[i].0, i));
    let k = choose|k: int| entry_at(list, list[i].0, k);
    law_lex_less_is_an_order(list[i].0, list[i].0, list[i].0);
    if k < i {
        assert(lex_less(list[k].0, list[i].0));
    }
    if i < k {
        assert(lex_less(list[i].0, list[k].0));
    }
}

proof fn lemma_insert(list: Seq<Entry>, i: int, key: Seq<char>, c: CharacterView)
    requires
        keys_ascend(list),
        0 <= i <= list.len(),
        forall|j: int| 0 <= j < i ==> lex_less((#[trigger] list[j]).0, key),
        i < list.len() ==> lex_less(key, list[i].0),
    ensures
        keys_ascend(list.insert(i, (key, c))),
        list_map(list.insert(i, (key, c))) == list_map(list).insert(key, c),
{
    let now = list.insert(i, (key, c));
    assert forall|a: int, b: int| 0 <= a < b < now.len() implies lex_less(
        (#[trigger] now[a]).0,
        (#[trigger] now[b]).0,
    ) by {
        let x = if a < i { a } else { a - 1 };
        let y = if b < i { b } else { b - 1 };
        if a == i {
            if y > i {
                assert(lex_less(list[i].0, list[y].0));
                law_lex_less_is_an_order(key, list[i].0, list[y].0);
            }
        } else if b == i {
            assert(lex_less(list[x].0, key));
        } else {
            assert(lex_less(list[x].0, list[y].0));
        }
    }
    let m = list_map(list).insert(key, c);
    assert forall|k: Seq<char>| list_map(now).contains_key(k) == m.contains_key(k) by {
        if m.contains_key(k) {
            if k == key {
                assert(entry_at(now, k, i));
            } else {
                let j = choose|j: int| entry_at(list, k, j);
                assert(entry_at(now, k, if j < i { j } else { j + 1 }));
            }
        }
        if list_map(now).contains_key(k) && k != key {
            let j = choose|j: int| entry_at(now, k, j);
            assert(entry_at(list, k, if j < i { j } else { j - 1 }));
        }
    }
    assert forall|k: Seq<char>| m.contains_key(k) implies list_map(now)[k] == m[k] by {
        if k == key {
            lemma_lookup(now, i);
        } else {
            let j = choose|j: int| entry_at(list, k, j);
            lemma_lookup(list, j);
            lemma_lookup(now, if j < i { j } else { j + 1 });
        }
    }
    assert(list_map(now) =~= m);
}

proof fn lemma_update(list: Seq<Entry>, i: int, key: Seq<char>, c: CharacterView)
    requires
        keys_ascend(list),
        0 <= i < list.len(),
        list[i].0 == key,
    ensures
        keys_ascend(list.update(i, (key, c))),
        list_map(list.update(i, (key, c))) == list_map(list).insert(key, c),
{
    let now = list.update(i, (key, c));
    assert forall|a: int, b: int| 0 <= a < b < now.len() implies lex_less(
        (#[trigger] now[a]).0,
        (#[trigger] now[b]).0,
    ) by {
        assert(lex_less(list[a].0, list[b].0));
    }
    let m = list_map(list).insert(key, c);
    assert forall|k: Seq<char>| list_map(now).contains_key(k) == m.contains_key(k) by {
        if m.contains_key(k) {
            if k == key {
                assert(entry_at(now, k, i));
            } else {
                let j = choose|j: int| entry_at(list, k, j);
                assert(entry_at(now, k, j));
            }
        }
        if list_map(now).contains_key(k) && k != key {
            let j = choose|j: int| entry_at(now, k, j);
            assert(entry_at(list, k, j));
        }
    }
    assert forall|k: Seq<char>| m.contains_key(k) implies list_map(now)[k] == m[k] by {
        if k == key {
            lemma_lookup(now, i);
        } else {
            let j = choose|j: int| entry_at(list, k, j);
            lemma_lookup(list, j);
            lemma_lookup(now, j);
        }
    }
    assert(list_map(now) =~= m);
}

// ---------------------------------------------------------------------------
// Scanning
// ---------------------------------------------------------------------------
/// A file found in a directory: its name, and its whole path.
#[derive(Debug, Clone)]
pub struct DirEntry {
    pub name: String,
    pub path: String,
}

impl DeepView for DirEntry {
    type V = Pair;

    open spec fn deep_view(&self) -> Pair {
        (self.name@, self.path@)
    }
}

/// A character nothing is known of but its log: not watched, not registered,
/// not imported, not public.
pub open spec fn newcomer(player: Seq<char>, server: Seq<char>, path: Seq<char>) -> CharacterView {
    CharacterView {
        player,
        server,
        log_path: path,
        enabled: false,
        stream_id: None,
        stream_token: None,
        view_token: None,
        imported: false,
        public: false,
    }
}

/// The character whose log a file is.
pub open spec fn owner_of(file: Pair) -> Option<CharacterView> {
    match log_owner(file.0) {
        Some((player, server)) => Some(newcomer(player, server, file.1)),
        None => None,
    }
}

/// The characters whose logs are among the files, in the order of the files.
pub open spec fn owners(files: Seq<Pair>) -> Seq<CharacterView> {
    files.filter_map(|f: Pair| owner_of(f))
}

/// The characters whose logs lie in a directory, given what lies in it.
pub fn scan_dir(files: &[DirEntry]) -> (r: Vec<Character>)
    ensures
        r.deep_view() == owners(files.deep_view()),
{
    let mut out: Vec<Character> = Vec::new();
    let ghost all = files.deep_view();
    let ghost f = |p: Pair| owner_of(p);
    let mut i: usize = 0;
    proof {
        assert(all.take(0) =~= Seq::<Pair>::empty());
        reveal(Seq::filter_map);
        assert(out.deep_view() =~= owners(all.take(0)));
    }
    while i < files.len()
        invariant
            i <= files@.len(),
            all == files.deep_view(),
            f == (|p: Pair| owner_of(p)),
            out.deep_view() == owners(all.take(i as int)),
        decreases files@.len() - i,
    {
        let ghost was = out.deep_view();
        proof {
            all.lemma_filter_map_take_succ(f, i as int);
            assert(all[i as int] == files@[i as int].deep_view());
        }
        match parse_log_name(files[i].name.as_str()) {
            Some((player, server)) => {
                let c = Character {
                    player,
                    server,
                    log_path: files[i].path.clone(),
                    enabled: false,
                    stream_id: None,
                    stream_token: None,
                    view_token: None,
                    imported: false,
                    public: false,
                };
                let ghost v = c@;
                out.push(c);
                assert(out.deep_view() =~= was.push(v));
                assert(out.deep_view() =~= owners(all.take(i + 1)));
            },
            None => {
                assert(out.deep_view() =~= owners(all.take(i + 1)));
            },
        }
        i += 1;
    }
    assert(all.take(all.len() as int) =~= all);
    out
}

/// A found character noted: a known one keeps everything but its log's path.
pub open spec fn noted(known: CharacterMap, c: CharacterView) -> CharacterMap {
    if known.contains_key(c.key()) {
        known.insert(c.key(), CharacterView { log_path: c.log_path, ..known[c.key()] })
    } else {
        known.insert(c.key(), c)
    }
}

/// Found characters noted one after the other.
pub open spec fn all_noted(known: CharacterMap, found: Seq<CharacterView>) -> CharacterMap
    decreases found.len(),
{
    if found.len() == 0 {
        known
    } else {
        noted(all_noted(known, found.drop_last()), found.last())
    }
}

#[derive(Debug, Clone)]
pub struct Registry {
    pub settings: Settings,
    /// keyed by "Player@server"
    pub characters: Characters,
}

impl Default for Registry {
    fn default() -> (r: Self)
        ensures
            r.settings.fresh(),
            r.characters@ == CharacterMap::empty(),
    {
        Registry { settings: Settings::default(), characters: Characters::new() }
    }
}

impl Registry {
    /// What to start with, given what could be read from the file: that, or
    /// the state of a fresh install where there is no file or none that can
    /// be read.
    pub fn load(read: Option<Registry>) -> (r: Self)
        ensures
            match read {
                Some(registry) => r == registry,
                None => r.settings.fresh() && r.characters@ == CharacterMap::empty(),
            },
    {
        match read {
            Some(registry) => registry,
            None => Registry::default(),
        }
    }

    /// Fold any eqlog_<Player>_<server>.txt found on disk into the registry,
    /// keeping whatever we already knew about each one. The files are those
    /// of all log directories, one directory after the other. Gives the
    /// number of logs found.
    pub fn scan(&mut self, files: &[DirEntry]) -> (found: usize)
        ensures
            final(self).settings == old(self).settings,
            final(self).characters@ == all_noted(old(self).characters@, owners(files.deep_view())),
            found == owners(files.deep_view()).len(),
    {
        let list = scan_dir(files);
        let found: usize = list.len();
        let ghost known = self.characters@;
        let ghost all = list.deep_view();
        let mut i: usize = 0;
        assert(all.take(0) =~= Seq::<CharacterView>::empty());
        while i < found
            invariant
                i <= found == list@.len(),
                all == list.deep_view(),
                self.settings == old(self).settings,
                self.characters@ == all_noted(known, all.take(i as int)),
            decreases found - i,
        {
            let c = list[i].clone();
            self.characters.note(c);
            assert(all.take(i + 1).drop_last() =~= all.take(i as int));
            i += 1;
        }
        assert(all.take(all.len() as int) =~= all);
        found
    }
}

// ---------------------------------------------------------------------------
// Laws
// ---------------------------------------------------------------------------
/// The path under which a key was found last.
pub open spec fn last_path(found: Seq<CharacterView>, key: Seq<char>) -> Option<Seq<char>>
    decreases found.len(),
{
    if found.len() == 0 {
        None
    } else if found.last().key() == key {
        Some(found.last().log_path)
    } else {
        last_path(found.drop_last(), key)
    }
}

/// After a scan exactly the characters known before and those found are
/// known. One known before keeps everything but its log's path; that is the
/// last one found, if it was found at all.
pub proof fn law_scan_keeps_what_was_known(
    known: CharacterMap,
    found: Seq<CharacterView>,
    key: Seq<char>,
)
    ensures
        all_noted(known, found).contains_key(key) <==> known.contains_key(key) || last_path(
            found,
            key,
        ) is Some,
        known.contains_key(key) ==> all_noted(known, found)[key] == (CharacterView {
            log_path: match last_path(found, key) {
                Some(path) => path,
                None => known[key].log_path,
            },
            ..known[key]
        }),
        last_path(found, key) is Some ==> all_noted(known, found)[key].log_path == last_path(
            found,
            key,
        )->0,
    decreases found.len(),
{
    if found.len() > 0 {
        law_scan_keeps_what_was_known(known, found.drop_last(), key);
        law_scan_keeps_what_was_known(known, found.drop_last(), found.last().key());
    }
}

/// Scanning the same files again changes nothing.
pub proof fn law_scanning_twice_is_scanning_once(known: CharacterMap, found: Seq<CharacterView>)
    ensures
        all_noted(all_noted(known, found), found) == all_noted(known, found),
{
    let once = all_noted(known, found);
    let twice = all_noted(once, found);
    assert forall|key: Seq<char>| once.contains_key(key) == twice.contains_key(key) by {
        law_scan_keeps_what_was_known(known, found, key);
        law_scan_keeps_what_was_known(once, found, key);
    }
    assert forall|key: Seq<char>| once.contains_key(key) implies twice[key] == once[key] by {
        law_scan_keeps_what_was_known(known, found, key);
        law_scan_keeps_what_was_known(once, found, key);
    }
    assert(twice =~= once);
}

/// It makes no difference whether directories are scanned one by one or all
/// at once.
pub proof fn law_directories_in_turn(known: CharacterMap, first: Seq<Pair>, later: Seq<Pair>)
    ensures
        owners(first + later) == owners(first) + owners(later),
        all_noted(all_noted(known, owners(first)), owners(later)) == all_noted(
            known,
            owners(first + later),
        ),
{
    lemma_owners_in_turn(first, later);
    lemma_noted_in_turn(known, owners(first), owners(later));
}

proof fn lemma_owners_in_turn(first: Seq<Pair>, later: Seq<Pair>)
    ensures
        owners(first + later) == owners(first) + owners(later),
    decreases later.len(),
{
    reveal(Seq::filter_map);
    if later.len() == 0 {
        assert(first + later =~= first);
        assert(owners(first) + owners(later) =~= owners(first));
    } else {
        lemma_owners_in_turn(first, later.drop_last());
        assert((first + later).drop_last() =~= first + later.drop_last());
        assert(owners(first + later) =~= owners(first) + owners(later));
    }
}

proof fn lemma_noted_in_turn(
    known: CharacterMap,
    first: Seq<CharacterView>,
    later: Seq<CharacterView>,
)
    ensures
        all_noted(all_noted(known, first), later) == all_noted(known, first + later),
    decreases later.len(),
{
    if later.len() == 0 {
        assert(first + later =~= first);
    } else {
        lemma_noted_in_turn(known, first, later.drop_last());
        assert((first + later).drop_last() =~= first + later.drop_last());
    }
}

/// A character that a scan brings in is not watched, has no stream and no
/// token for one, was not imported and is not public.
pub proof fn law_newcomers_are_off(known: CharacterMap, files: Seq<Pair>, key: Seq<char>)
    requires
        !known.contains_key(key),
        all_noted(known, owners(files)).contains_key(key),
    ensures
        ({
            let c = all_noted(known, owners(files))[key];
            &&& !c.enabled
            &&& c.stream_id is None
            &&& c.stream_token is None
            &&& c.view_token is None
            &&& !c.registered()
            &&& !c.imported
            &&& !c.public
        }),
{
    let found = owners(files);
    let f = |p: Pair| owner_of(p);
    assert forall|i: int| 0 <= i < found.len() implies off(#[trigger] found[i]) by {
        assert(found.contains(found[i]));
        files.lemma_filter_map_contains(f, found[i]);
        let t = choose|t: Pair| files.contains(t) && f(t) == Some(found[i]);
        assert(owner_of(t) == Some(found[i]));
    }
    lemma_newcomers_are_off(known, found, key);
}

/// Nothing is on.
spec fn off(c: CharacterView) -> bool {
    &&& !c.enabled
    &&& c.stream_id is None
    &&& c.stream_token is None
    &&& c.view_token is None
    &&& !c.imported
    &&& !c.public
}

proof fn lemma_newcomers_are_off(known: CharacterMap, found: Seq<CharacterView>, key: Seq<char>)
    requires
        forall|i: int| 0 <= i < found.len() ==> off(#[trigger] found[i]),
        !known.contains_key(key),
    ensures
        all_noted(known, found).contains_key(key) ==> off(all_noted(known, found)[key]),
    decreases found.len(),
{
    if found.len() > 0 {
        let front = found.drop_last();
        assert forall|i: int| 0 <= i < front.len() implies off(#[trigger] front[i]) by {
            assert(front[i] == found[i]);
        }
        lemma_newcomers_are_off(known, front, key);
        assert(off(found[found.len() - 1]));
    }
}

// ---------------------------------------------------------------------------
// What a scan brings in
// ---------------------------------------------------------------------------
/// What is listed under a key is what is kept under it, and nothing else is
/// kept.
pub proof fn law_what_is_listed_is_kept(list: Seq<Entry>, key: Seq<char>)
    requires
        keys_ascend(list),
    ensures
        forall|i: int|
            0 <= i < list.len() && (#[trigger] list[i]).0 == key ==> list_map(list).contains_key(key)
                && list_map(list)[key] == list[i].1,
        list_map(list).contains_key(key) ==> exists|i: int|
            0 <= i < list.len() && (#[trigger] list[i]).0 == key,
{
    assert forall|i: int|
        0 <= i < list.len() && (#[trigger] list[i]).0 == key implies list_map(list).contains_key(key)
        && list_map(list)[key] == list[i].1 by {
        lemma_lookup(list, i);
    }
    if list_map(list).contains_key(key) {
        let i = choose|i: int| entry_at(list, key, i);
        assert(list[i].0 == key);
    }
}

/// One file brings in one character, named after it, with the file's path,
/// and with nothing switched on; a file that is no log brings in none.
pub proof fn law_one_file(name: Seq<char>, path: Seq<char>, player: Seq<char>, server: Seq<char>)
    ensures
        player.len() > 0 && server.len() > 0 && !player.contains('_') && name == "eqlog_"@ + player
            + "_"@ + server + ".txt"@ ==> owners(seq![(name, path)]) == seq![
            CharacterView {
                player,
                server,
                log_path: path,
                enabled: false,
                stream_id: None,
                stream_token: None,
                view_token: None,
                imported: false,
                public: false,
            },
        ],
        log_owner(name) is None ==> owners(seq![(name, path)]).len() == 0,
{
    law_log_names_read_back(name, player, server);
    Seq::<Pair>::lemma_filter_map_singleton((name, path), |f: Pair| owner_of(f));
}

/// A character that a scan brings in is kept under its own key, and is named
/// after one of the files.
pub proof fn law_newcomers_are_named_after_their_logs(
    known: CharacterMap,
    files: Seq<Pair>,
    key: Seq<char>,
)
    requires
        !known.contains_key(key),
        all_noted(known, owners(files)).contains_key(key),
    ensures
        ({
            let c = all_noted(known, owners(files))[key];
            &&& c.player + "@"@ + c.server == key
            &&& exists|i: int|
                0 <= i < files.len() && (#[trigger] files[i]).0 == "eqlog_"@ + c.player + "_"@
                    + c.server + ".txt"@
        }),
{
    let found = owners(files);
    let c = all_noted(known, found)[key];
    lemma_newcomer_is_one_found(known, found, key);
    let k = choose|k: int|
        0 <= k < found.len() && (#[trigger] found[k]).player == c.player && found[k].server
            == c.server;
    let f = |p: Pair| owner_of(p);
    assert(found.contains(found[k]));
    files.lemma_filter_map_contains(f, found[k]);
    let t = choose|t: Pair| files.contains(t) && f(t) == Some(found[k]);
    assert(owner_of(t) == Some(found[k]));
    law_log_names_read_back(t.0, c.player, c.server);
    let i = choose|i: int| 0 <= i < files.len() && files[i] == t;
    assert(files[i].0 == "eqlog_"@ + c.player + "_"@ + c.server + ".txt"@);
}

proof fn lemma_newcomer_is_one_found(
    known: CharacterMap,
    found: Seq<CharacterView>,
    key: Seq<char>,
)
    requires
        !known.contains_key(key),
    ensures
        all_noted(known, found).contains_key(key) ==> ({
            let c = all_noted(known, found)[key];
            &&& c.player + "@"@ + c.server == key
            &&& exists|k: int|
                0 <= k < found.len() && (#[trigger] found[k]).player == c.player && found[k].server
                    == c.server
        }),
    decreases found.len(),
{
    if found.len() > 0 {
        let front = found.drop_last();
        let n = found.len() - 1;
        lemma_newcomer_is_one_found(known, front, key);
        if all_noted(known, found).contains_key(key) {
            let c = all_noted(known, found)[key];
            if all_noted(known, front).contains_key(key) {
                let k = choose|k: int|
                    0 <= k < front.len() && (#[trigger] front[k]).player == c.player
                        && front[k].server == c.server;
                assert(found[k] == front[k]);
            } else {
                assert(found[n].player == c.player && found[n].server == c.server);
            }
        }
    }
}

/// Every log that is found is kept under its player and server. Its path is
/// that of the last file found for that key.
pub proof fn law_every_log_is_kept(
    known: CharacterMap,
    files: Seq<Pair>,
    i: int,
    player: Seq<char>,
    server: Seq<char>,
)
    requires
        0 <= i < files.len(),
        player.len() > 0,
        server.len() > 0,
        !player.contains('_'),
        files[i].0 == "eqlog_"@ + player + "_"@ + server + ".txt"@,
        forall|j: int|
            i < j < files.len() ==> (log_owner((#[trigger] files[j]).0) matches Some((p, s)) ==> p
                + "@"@ + s != player + "@"@ + server),
    ensures
        all_noted(known, owners(files)).contains_key(player + "@"@ + server),
        all_noted(known, owners(files))[player + "@"@ + server].log_path == files[i].1,
{
    let key = player + "@"@ + server;
    let file = files[i];
    let head = files.take(i + 1);
    let later = files.skip(i + 1);
    law_log_names_read_back(file.0, player, server);
    assert(files =~= head + later);
    lemma_owners_in_turn(head, later);
    assert(head =~= files.take(i) + seq![file]);
    lemma_owners_in_turn(files.take(i), seq![file]);
    law_one_file(file.0, file.1, player, server);
    let one = owners(seq![file]);
    assert(one[0].key() == key && one[0].log_path == file.1);
    let found = owners(later);
    let f = |p: Pair| owner_of(p);
    assert forall|k: int| 0 <= k < found.len() implies (#[trigger] found[k]).key() != key by {
        assert(found.contains(found[k]));
        later.lemma_filter_map_contains(f, found[k]);
        let t = choose|t: Pair| later.contains(t) && f(t) == Some(found[k]);
        let m = choose|m: int| 0 <= m < later.len() && later[m] == t;
        assert(files[i + 1 + m] == t);
        assert(owner_of(t) == Some(found[k]));
    }
    lemma_last_path_none(found, key);
    lemma_last_path_adds(owners(head), found, key);
    lemma_last_path_adds(owners(files.take(i)), one, key);
    assert(one.last().key() == key);
    law_scan_keeps_what_was_known(known, owners(files), key);
}

proof fn lemma_last_path_none(found: Seq<CharacterView>, key: Seq<char>)
    requires
        forall|k: int| 0 <= k < found.len() ==> (#[trigger] found[k]).key() != key,
    ensures
        last_path(found, key) is None,
    decreases found.len(),
{
    if found.len() > 0 {
        assert(found[found.len() - 1].key() != key);
        assert forall|k: int| 0 <= k < found.len() - 1 implies (
        #[trigger] found.drop_last()[k]).key() != key by {
            assert(found[k].key() != key);
        }
        lemma_last_path_none(found.drop_last(), key);
    }
}

proof fn lemma_last_path_adds(a: Seq<CharacterView>, b: Seq<CharacterView>, key: Seq<char>)
    ensures
        last_path(a + b, key) == match last_path(b, key) {
            Some(path) => Some(path),
            None => last_path(a, key),
        },
    decreases b.len(),
{
    if b.len() == 0 {
        assert(a + b =~= a);
    } else {
        assert((a + b).drop_last() =~= a + b.drop_last());
        lemma_last_path_adds(a, b.drop_last(), key);
    }
}

/// A character that was known keeps everything but the path of its log, and
/// that too unless a log for its key was found.
pub proof fn law_known_characters_are_kept(known: CharacterMap, files: Seq<Pair>, key: Seq<char>)
    requires
        known.contains_key(key),
    ensures
        ({
            let c = all_noted(known, owners(files))[key];
            &&& all_noted(known, owners(files)).contains_key(key)
            &&& c.player == known[key].player
            &&& c.server == known[key].server
            &&& c.enabled == known[key].enabled
            &&& c.stream_id == known[key].stream_id
            &&& c.stream_token == known[key].stream_token
            &&& c.view_token == known[key].view_token
            &&& c.imported == known[key].imported
            &&& c.public == known[key].public
        }),
        (forall|i: int|
            0 <= i < files.len() ==> (log_owner((#[trigger] files[i]).0) matches Some((p, s)) ==> p
                + "@"@ + s != key)) ==> all_noted(known, owners(files))[key] == known[key],
{
    let found = owners(files);
    law_scan_keeps_what_was_known(known, found, key);
    if forall|i: int|
        0 <= i < files.len() ==> (log_owner((#[trigger] files[i]).0) matches Some((p, s)) ==> p
            + "@"@ + s != key) {
        let f = |p: Pair| owner_of(p);
        assert forall|k: int| 0 <= k < found.len() implies (#[trigger] found[k]).key() != key by {
            assert(found.contains(found[k]));
            files.lemma_filter_map_contains(f, found[k]);
            let t = choose|t: Pair| files.contains(t) && f(t) == Some(found[k]);
            let m = choose|m: int| 0 <= m < files.len() && files[m] == t;
            assert(files[m] == t);
            assert(owner_of(t) == Some(found[k]));
        }
        lemma_last_path_none(found, key);
    }
}

/// What contracts see of a file and of the characters is all there is to it.
pub proof fn law_files_are_seen_whole(f: DirEntry, c: Characters)
    ensures
        f.deep_view() == (f.name@, f.path@),
        c@ == list_map(c.list()),
{
}

/// What could be read is what is started with; without it, no character is
/// known.
pub proof fn law_what_is_started_with(read: Option<Registry>, r: Registry)
    requires
        call_ensures(Registry::load, (read,), r),
    ensures
        read matches Some(registry) ==> r == registry,
        read is None ==> r.characters@ == CharacterMap::empty(),
{
}

} // verus!
