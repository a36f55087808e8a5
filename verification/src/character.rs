//! One character on one server: its log, its stream, and the links to it.
use vstd::prelude::*;

use crate::text::{
    chars_of, drop_slashes, find, find_from, lemma_find, lemma_find_is, lemma_replace_first,
    lemma_without_slashes_behind, matches_at, replace_first, replaced_first, stands_at, text_of,
    without_slashes,
};

verus! {

#[derive(Debug)]
pub struct Character {
    pub player: String,
    pub server: String,
    pub log_path: String,
    /// Watch this one? Off by default: registering every old alt would spam
    /// the server with streams nobody asked for.
    pub enabled: bool,
    pub stream_id: Option<String>,
    pub stream_token: Option<String>,
    pub view_token: Option<String>,
    /// History already pushed once; importing twice would duplicate it.
    pub imported: bool,
    /// Publish a clean, tokenless page at /player/<game>/<server>/<name>.
    /// Off by default: a stream should not become findable without asking.
    pub public: bool,
}

fn same_option(o: &Option<String>) -> (r: Option<String>)
    ensures
        r == *o,
{
    match o {
        Some(s) => Some(s.clone()),
        None => None,
    }
}

impl Clone for Character {
    fn clone(&self) -> (r: Self)
        ensures
            r == *self,
    {
        Character {
            player: self.player.clone(),
            server: self.server.clone(),
            log_path: self.log_path.clone(),
            enabled: self.enabled,
            stream_id: same_option(&self.stream_id),
            stream_token: same_option(&self.stream_token),
            view_token: same_option(&self.view_token),
            imported: self.imported,
            public: self.public,
        }
    }
}

/// A [`Character`] as contracts see it.
pub struct CharacterView {
    pub player: Seq<char>,
    pub server: Seq<char>,
    pub log_path: Seq<char>,
    pub enabled: bool,
    pub stream_id: Option<Seq<char>>,
    pub stream_token: Option<Seq<char>>,
    pub view_token: Option<Seq<char>>,
    pub imported: bool,
    pub public: bool,
}

impl View for Character {
    type V = CharacterView;

    open spec fn view(&self) -> CharacterView {
        CharacterView {
            player: self.player@,
            server: self.server@,
            log_path: self.log_path@,
            enabled: self.enabled,
            stream_id: self.stream_id.deep_view(),
            stream_token: self.stream_token.deep_view(),
            view_token: self.view_token.deep_view(),
            imported: self.imported,
            public: self.public,
        }
    }
}

impl DeepView for Character {
    type V = CharacterView;

    open spec fn deep_view(&self) -> CharacterView {
        self@
    }
}

impl CharacterView {
    /// "Player@server".
    pub open spec fn key(self) -> Seq<char> {
        self.player + "@"@ + self.server
    }

    /// Does the character own a stream?
    pub open spec fn registered(self) -> bool {
        self.stream_id is Some && self.stream_token is Some
    }

    /// The page that the view token opens.
    pub open spec fn view_url(self, server_url: Seq<char>) -> Option<Seq<char>> {
        match (self.stream_id, self.view_token) {
            (Some(id), Some(token)) => Some(
                without_slashes(server_url) + "/stream/"@ + id + "?vtok="@ + token,
            ),
            _ => None,
        }
    }

    /// The page that needs no token.
    pub open spec fn public_url(self, server_url: Seq<char>, game: Seq<char>) -> Option<Seq<char>> {
        if self.public && self.registered() {
            Some(
                without_slashes(server_url) + "/player/"@ + game + "/"@ + self.server + "/"@
                    + self.player,
            )
        } else {
            None
        }
    }

    /// The tokenless page where there is one, else the one with the token.
    pub open spec fn share_url(self, server_url: Seq<char>, game: Seq<char>) -> Option<Seq<char>> {
        match self.public_url(server_url, game) {
            Some(url) => Some(url),
            None => self.view_url(server_url),
        }
    }

    /// Where log lines are sent.
    pub open spec fn ingest_url(self, server_url: Seq<char>) -> Option<Seq<char>> {
        match self.stream_id {
            Some(id) => Some(socket_base(server_url) + "/ingest/"@ + id),
            None => None,
        }
    }
}

/// A server's address with the socket's scheme in place of the page's.
pub open spec fn socket_base(server_url: Seq<char>) -> Seq<char> {
    replace_first(
        replace_first(without_slashes(server_url), "https://"@, "wss://"@),
        "http://"@,
        "ws://"@,
    )
}

impl Character {
    pub fn key(&self) -> (r: String)
        ensures
            r@ == self@.key(),
    {
        let mut r: String = self.player.clone();
        r.append("@");
        r.append(self.server.as_str());
        r
    }

    pub fn registered(&self) -> (r: bool)
        ensures
            r == self@.registered(),
    {
        self.stream_id.is_some() && self.stream_token.is_some()
    }

    /// The froklog page for this character, the thing worth handing to a
    /// human. The view token is what grants access, so this link is shareable
    /// as-is, but anyone holding it keeps that access until the stream is
    /// reset.
    pub fn view_url(&self, server_url: &str) -> (r: Option<String>)
        ensures
            r.deep_view() == self@.view_url(server_url@),
    {
        match (&self.stream_id, &self.view_token) {
            (Some(id), Some(token)) => {
                let mut r = drop_slashes(server_url);
                r.append("/stream/");
                r.append(id.as_str());
                r.append("?vtok=");
                r.append(token.as_str());
                Some(r)
            },
            _ => None,
        }
    }

    /// The public page: no token, readable name, and revocable by turning
    /// `public` back off. Only exists while the server has the stream marked
    /// public, which is why it returns None otherwise.
    pub fn public_url(&self, server_url: &str, game: &str) -> (r: Option<String>)
        ensures
            r.deep_view() == self@.public_url(server_url@, game@),
    {
        if !self.public || !self.registered() {
            return None;
        }
        let mut r = drop_slashes(server_url);
        r.append("/player/");
        r.append(game);
        r.append("/");
        r.append(self.server.as_str());
        r.append("/");
        r.append(self.player.as_str());
        Some(r)
    }

    /// The link to hand someone, preferring the tokenless one.
    pub fn share_url(&self, server_url: &str, game: &str) -> (r: Option<String>)
        ensures
            r.deep_view() == self@.share_url(server_url@, game@),
    {
        match self.public_url(server_url, game) {
            Some(url) => Some(url),
            None => self.view_url(server_url),
        }
    }

    pub fn ingest_url(&self, server_url: &str) -> (r: Option<String>)
        ensures
            r.deep_view() == self@.ingest_url(server_url@),
    {
        match &self.stream_id {
            Some(id) => {
                let base = drop_slashes(server_url);
                let base = replaced_first(base.as_str(), "https://", "wss://");
                let mut r = replaced_first(base.as_str(), "http://", "ws://");
                r.append("/ingest/");
                r.append(id.as_str());
                Some(r)
            },
            None => None,
        }
    }
}

// ---------------------------------------------------------------------------
// Laws on keys and links
// ---------------------------------------------------------------------------
/// Two characters with one key are one player on one server, as long as no
/// player's name holds the sign that parts it from the server's.
pub proof fn law_key_names_one_character(a: CharacterView, b: CharacterView)
    requires
        a.key() == b.key(),
        !a.player.contains('@'),
        !b.player.contains('@'),
    ensures
        a.player == b.player,
        a.server == b.server,
{
    reveal_strlit("@");
    let n = a.player.len() as int;
    let m = b.player.len() as int;
    assert(a.key()[n] == '@');
    assert(b.key()[m] == '@');
    if n < m {
        assert(b.key()[n] == b.player[n]);
    }
    if m < n {
        assert(a.key()[m] == a.player[m]);
    }
    assert(a.player =~= a.key().take(n));
    assert(b.player =~= b.key().take(n));
    assert(a.server =~= a.key().skip(n + 1));
    assert(b.server =~= b.key().skip(n + 1));
}

/// A slash at the end of the server's address changes no link.
pub proof fn law_trailing_slash_changes_no_link(
    c: CharacterView,
    server_url: Seq<char>,
    game: Seq<char>,
)
    ensures
        c.view_url(server_url.push('/')) == c.view_url(server_url),
        c.public_url(server_url.push('/'), game) == c.public_url(server_url, game),
        c.share_url(server_url.push('/'), game) == c.share_url(server_url, game),
        c.ingest_url(server_url.push('/')) == c.ingest_url(server_url),
{
    assert(server_url.push('/').drop_last() =~= server_url);
}

/// Turning `public` off takes the public page away, and nothing else: the
/// link with the token is handed out instead.
pub proof fn law_public_page_is_revocable(c: CharacterView, server_url: Seq<char>, game: Seq<char>)
    ensures
        ({
            let off = CharacterView { public: false, ..c };
            &&& off.public_url(server_url, game) is None
            &&& off.share_url(server_url, game) == c.view_url(server_url)
            &&& off.view_url(server_url) == c.view_url(server_url)
            &&& off.ingest_url(server_url) == c.ingest_url(server_url)
        }),
{
}

/// Before a stream is registered there is no link to it.
pub proof fn law_no_links_without_a_stream(c: CharacterView, server_url: Seq<char>, game: Seq<char>)
    requires
        c.stream_id is None,
    ensures
        c.view_url(server_url) is None,
        c.public_url(server_url, game) is None,
        c.share_url(server_url, game) is None,
        c.ingest_url(server_url) is None,
{
}

/// A secure page is fed through a secure socket, another through a plain one.
/// The address behind the scheme must be more than slashes and hold no scheme
/// of its own.
pub proof fn law_socket_follows_the_page(address: Seq<char>)
    requires
        without_slashes(address).len() > 0,
        forall|j: int| 0 <= j ==> !stands_at(without_slashes(address), "http://"@, j),
        forall|j: int| 0 <= j ==> !stands_at(without_slashes(address), "https://"@, j),
    ensures
        socket_base("https://"@ + address) == "wss://"@ + without_slashes(address),
        socket_base("http://"@ + address) == "ws://"@ + without_slashes(address),
{
    reveal_strlit("http://");
    reveal_strlit("https://");
    reveal_strlit("wss://");
    let w = without_slashes(address);
    let http = "http://"@;
    let https = "https://"@;
    let wss = "wss://"@;
    lemma_without_slashes_behind(https, address);
    lemma_without_slashes_behind(http, address);
    // The secure scheme is replaced; the new one holds no h.
    lemma_replace_first(w, https, wss);
    assert forall|j: int| 0 <= j implies !stands_at(wss + w, http, j) by {
        lemma_stands_behind(wss, w, http, j);
    }
    lemma_replace_first(wss + w, http, "ws://"@);
    // The plain scheme is not mistaken for the secure one.
    assert forall|j: int| 0 <= j implies !stands_at(http + w, https, j) by {
        if j == 0 {
            assert((http + w).subrange(0, 8)[4] == (http + w)[4]);
        } else {
            lemma_stands_behind(http, w, https, j);
        }
    }
    lemma_replace_first(http + w, https, wss);
    lemma_replace_first(w, http, "ws://"@);
}

/// A text that begins with an h does not begin inside a head that holds none
/// from there on.
proof fn lemma_stands_behind(head: Seq<char>, s: Seq<char>, pat: Seq<char>, j: int)
    requires
        0 <= j,
        pat.len() > 0,
        pat[0] == 'h',
        forall|k: int| j <= k < head.len() ==> head[k] != 'h',
        forall|k: int| 0 <= k ==> !stands_at(s, pat, k),
    ensures
        !stands_at(head + s, pat, j),
{
    if stands_at(head + s, pat, j) {
        assert((head + s).subrange(j, j + pat.len())[0] == (head + s)[j]);
        let k = j - head.len();
        assert(s.subrange(k, k + pat.len()) =~= (head + s).subrange(j, j + pat.len()));
        assert(stands_at(s, pat, k));
    }
}

// ---------------------------------------------------------------------------
// Log files
// ---------------------------------------------------------------------------
/// The name of a character's log file.
pub open spec fn log_name(player: Seq<char>, server: Seq<char>) -> Seq<char> {
    "eqlog_"@ + player + "_"@ + server + ".txt"@
}

/// Can a log file be named after this player and this server? Neither is
/// empty, and the player's name ends where the first underscore stands.
pub open spec fn nameable(player: Seq<char>, server: Seq<char>) -> bool {
    player.len() > 0 && server.len() > 0 && !player.contains('_')
}

/// The player and the server that a log file is named after.
pub open spec fn log_owner(file: Seq<char>) -> Option<(Seq<char>, Seq<char>)> {
    let n = file.len() as int;
    if n < 10 || file.take(6) != "eqlog_"@ || file.skip(n - 4) != ".txt"@ {
        None
    } else {
        let stem = file.subrange(6, n - 4);
        match find(stem, seq!['_'], 0) {
            Some(i) => if 0 < i && i + 1 < stem.len() {
                Some((stem.take(i), stem.skip(i + 1)))
            } else {
                None
            },
            None => None,
        }
    }
}

/// A file belongs to a player on a server exactly if it is named after them.
pub proof fn law_log_names_read_back(file: Seq<char>, player: Seq<char>, server: Seq<char>)
    ensures
        log_owner(file) == Some((player, server)) <==> nameable(player, server) && file == log_name(
            player,
            server,
        ),
{
    reveal_strlit("eqlog_");
    reveal_strlit("_");
    reveal_strlit(".txt");
    let n = file.len() as int;
    if nameable(player, server) && file == log_name(player, server) {
        let stem = player + seq!['_'] + server;
        assert("_"@ =~= seq!['_']);
        assert(file.take(6) =~= "eqlog_"@);
        assert(file.skip(n - 4) =~= ".txt"@);
        assert(file.subrange(6, n - 4) =~= stem);
        let i = player.len() as int;
        assert(stands_at(stem, seq!['_'], i)) by {
            assert(stem.subrange(i, i + 1) =~= seq!['_']);
        }
        assert forall|j: int| 0 <= j < i implies !stands_at(stem, seq!['_'], j) by {
            assert(stem.subrange(j, j + 1)[0] == player[j]);
            assert(player.contains(player[j]));
        }
        lemma_find_is(stem, seq!['_'], 0, i);
        assert(stem.take(i) =~= player);
        assert(stem.skip(i + 1) =~= server);
    }
    if log_owner(file) == Some((player, server)) {
        let stem = file.subrange(6, n - 4);
        lemma_find(stem, seq!['_'], 0);
        let i = find(stem, seq!['_'], 0)->0;
        assert(stem[i] == '_') by {
            assert(stem.subrange(i, i + 1)[0] == stem[i]);
        }
        assert forall|j: int| 0 <= j < player.len() implies player[j] != '_' by {
            assert(player[j] == stem[j]);
            if stem[j] == '_' {
                assert(stem.subrange(j, j + 1) =~= seq!['_']);
                assert(stands_at(stem, seq!['_'], j));
            }
        }
        assert("_"@ =~= seq!['_']);
        assert(stem =~= player + "_"@ + server);
        assert(file =~= file.take(6) + stem + file.skip(n - 4));
        assert(file =~= log_name(player, server));
    }
}

/// eqlog_Zarri_halas.txt -> Zarri on halas
pub fn parse_log_name(file: &str) -> (r: Option<(String, String)>)
    ensures
        r.deep_view() == log_owner(file@),
{
    let c = chars_of(file);
    let prefix = chars_of("eqlog_");
    let suffix = chars_of(".txt");
    let under: Vec<char> = vec!['_'];
    let n: usize = c.len();
    proof {
        reveal_strlit("eqlog_");
        reveal_strlit(".txt");
        assert(under@ =~= seq!['_']);
        assert(n >= 10 ==> file@.subrange(0, 6) =~= file@.take(6));
        assert(n >= 10 ==> file@.subrange(n - 4, n as int) =~= file@.skip(n - 4));
    }
    if n < 10 || !matches_at(&c, &prefix, 0) || !matches_at(&c, &suffix, n - 4) {
        return None;
    }
    let stem_text = text_of(&c, 6, n - 4);
    let stem = chars_of(stem_text.as_str());
    proof {
        lemma_find(stem@, seq!['_'], 0);
    }
    match find_from(&stem, &under, 0) {
        Some(i) => {
            if 0 < i && i + 1 < stem.len() {
                let player = text_of(&stem, 0, i);
                let server = text_of(&stem, i + 1, stem.len());
                proof {
                    assert(player@ =~= stem@.take(i as int));
                    assert(server@ =~= stem@.skip(i + 1));
                }
                Some((player, server))
            } else {
                None
            }
        },
        None => None,
    }
}

// ---------------------------------------------------------------------------
// What links say
// ---------------------------------------------------------------------------
/// A character that is public and registered has a public page, and that is
/// the link to share, whatever else is known of it.
pub proof fn law_a_public_page_is_shared(c: CharacterView, server_url: Seq<char>, game: Seq<char>)
    requires
        c.public,
        c.stream_id is Some,
        c.stream_token is Some,
    ensures
        c.public_url(server_url, game) is Some,
        c.share_url(server_url, game) == c.public_url(server_url, game),
{
}

/// Without the consent to publish, or without a registered stream, there is no
/// public page, and the link with the token is the one to share.
pub proof fn law_no_public_page_without_consent(
    c: CharacterView,
    server_url: Seq<char>,
    game: Seq<char>,
)
    requires
        !c.public || c.stream_id is None || c.stream_token is None,
    ensures
        c.public_url(server_url, game) is None,
        c.share_url(server_url, game) == c.view_url(server_url),
{
}

/// Links tell of nothing but the player, the server, the stream and its
/// tokens, and the consent to publish.
pub proof fn law_links_tell_of_nothing_else(
    a: CharacterView,
    b: CharacterView,
    server_url: Seq<char>,
    game: Seq<char>,
)
    requires
        a.player == b.player,
        a.server == b.server,
        a.stream_id == b.stream_id,
        a.stream_token is Some == b.stream_token is Some,
        a.view_token == b.view_token,
        a.public == b.public,
    ensures
        a.key() == b.key(),
        a.registered() == b.registered(),
        a.view_url(server_url) == b.view_url(server_url),
        a.public_url(server_url, game) == b.public_url(server_url, game),
        a.share_url(server_url, game) == b.share_url(server_url, game),
        a.ingest_url(server_url) == b.ingest_url(server_url),
{
}

/// What the page that a token opens is called, on a server whose address does
/// not end in a slash.
pub proof fn law_the_view_link_in_full(
    c: CharacterView,
    server_url: Seq<char>,
    id: Seq<char>,
    view_token: Seq<char>,
)
    requires
        c.stream_id == Some(id),
        c.view_token == Some(view_token),
        server_url.len() == 0 || server_url.last() != '/',
    ensures
        c.view_url(server_url) == Some(server_url + "/stream/"@ + id + "?vtok="@ + view_token),
{
}

/// What the public page is called, on a server whose address does not end in a
/// slash: it shows the game, the server and the player, and no token.
pub proof fn law_the_public_link_in_full(
    c: CharacterView,
    server_url: Seq<char>,
    game: Seq<char>,
)
    requires
        c.public,
        c.stream_id is Some,
        c.stream_token is Some,
        server_url.len() == 0 || server_url.last() != '/',
    ensures
        c.public_url(server_url, game) == Some(
            server_url + "/player/"@ + game + "/"@ + c.server + "/"@ + c.player,
        ),
{
}

/// Where log lines go, on any server: the stream's address below the server's
/// own, in which the first secure scheme, and after that the first plain one,
/// gave way to the socket's.
pub proof fn law_the_way_for_lines_in_full(c: CharacterView, server_url: Seq<char>, id: Seq<char>)
    requires
        c.stream_id == Some(id),
        server_url.len() == 0 || server_url.last() != '/',
    ensures
        c.ingest_url(server_url) == Some(
            replace_first(
                replace_first(server_url, "https://"@, "wss://"@),
                "http://"@,
                "ws://"@,
            ) + "/ingest/"@ + id,
        ),
        (forall|j: int| 0 <= j ==> !stands_at(server_url, "http://"@, j)) && (forall|j: int|
            0 <= j ==> !stands_at(server_url, "https://"@, j)) ==> c.ingest_url(server_url) == Some(
            server_url + "/ingest/"@ + id,
        ),
{
    lemma_replace_first(server_url, "https://"@, "wss://"@);
    lemma_replace_first(server_url, "http://"@, "ws://"@);
}

/// A character's key is the player, an at sign and the server.
pub proof fn law_the_key_in_full(c: CharacterView)
    ensures
        c.key() == c.player + "@"@ + c.server,
{
}

/// Log lines go to the stream's own address, through a secure socket if the
/// page is secure and a plain one if it is not.
pub proof fn law_lines_go_to_the_stream(c: CharacterView, address: Seq<char>, id: Seq<char>)
    requires
        c.stream_id == Some(id),
        address.len() > 0,
        address.last() != '/',
        forall|j: int| 0 <= j ==> !stands_at(address, "http://"@, j),
        forall|j: int| 0 <= j ==> !stands_at(address, "https://"@, j),
    ensures
        c.ingest_url("https://"@ + address) == Some("wss://"@ + address + "/ingest/"@ + id),
        c.ingest_url("http://"@ + address) == Some("ws://"@ + address + "/ingest/"@ + id),
{
    law_socket_follows_the_page(address);
}

/// Each link needs what it is made of: the page with the token an id and that
/// token, the way for log lines an id; a character is registered with an id
/// and a token for its stream.
pub proof fn law_what_links_need(c: CharacterView, server_url: Seq<char>)
    ensures
        c.view_url(server_url) is Some <==> c.stream_id is Some && c.view_token is Some,
        c.ingest_url(server_url) is Some <==> c.stream_id is Some,
        c.registered() <==> c.stream_id is Some && c.stream_token is Some,
{
}

/// A file is the log of a player on a server exactly if it is called
/// eqlog_<player>_<server>.txt, neither name is empty, and the player's holds
/// no underscore.
pub proof fn law_how_logs_are_called(file: Seq<char>, player: Seq<char>, server: Seq<char>)
    ensures
        log_owner(file) == Some((player, server)) <==> player.len() > 0 && server.len() > 0
            && !player.contains('_') && file == "eqlog_"@ + player + "_"@ + server + ".txt"@,
{
    law_log_names_read_back(file, player, server);
}

/// What contracts see of a character is all there is to it.
pub proof fn law_characters_are_seen_whole(c: Character)
    ensures
        c@.player == c.player@,
        c@.server == c.server@,
        c@.log_path == c.log_path@,
        c@.enabled == c.enabled,
        c@.imported == c.imported,
        c@.public == c.public,
        c.stream_id matches Some(s) ==> c@.stream_id == Some(s@),
        c.stream_id is None ==> c@.stream_id is None,
        c.stream_token matches Some(s) ==> c@.stream_token == Some(s@),
        c.stream_token is None ==> c@.stream_token is None,
        c.view_token matches Some(s) ==> c@.view_token == Some(s@),
        c.view_token is None ==> c@.view_token is None,
        c.deep_view() == c@,
{
}

} // verus!
