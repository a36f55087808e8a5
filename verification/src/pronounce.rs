//! The pronunciation table: how it is kept in a file, and in which order it
//! is applied.
//!
//! The file is TOML, one `"word" = "how to say it"` a line. Reading and
//! writing the file itself is the caller's part.
use vstd::prelude::*;
use vstd::utf8::encode_utf8;

use crate::order::{
    goes_before, in_order, law_goes_before_is_an_order, lex_less, sorted, Arrangement, Pair,
};
use crate::respell::{respell, respelled};
use crate::text::{basic_string, debug_text, plain_text, quoted, trim, trimmed};

verus! {

/// What `toml::from_str` reads from a document when asked for a map from
/// texts to texts; none where it reports an error.
pub uninterp spec fn toml_strings(text: Seq<char>) -> Option<Map<Seq<char>, Seq<char>>>;

/// The list holds the entries of the map, each once.
pub open spec fn lists(list: Seq<Pair>, map: Map<Seq<char>, Seq<char>>) -> bool {
    &&& forall|i: int|
        0 <= i < list.len() ==> map.contains_key((#[trigger] list[i]).0) && map[list[i].0]
            == list[i].1
    &&& forall|k: Seq<char>| #[trigger]
        map.contains_key(k) ==> exists|i: int| 0 <= i < list.len() && (#[trigger] list[i]).0 == k
    &&& forall|i: int, j: int|
        0 <= i < j < list.len() ==> (#[trigger] list[i]).0 != (#[trigger] list[j]).0
}

/// The words of the list ascend by dictionary.
pub open spec fn ascending(list: Seq<Pair>) -> bool {
    forall|i: int, j: int|
        0 <= i < j < list.len() ==> lex_less((#[trigger] list[i]).0, (#[trigger] list[j]).0)
}

/// Longer words come first; equally long ones go by dictionary.
pub open spec fn longest_first(list: Seq<Pair>) -> bool {
    forall|i: int, j: int|
        0 <= i < j < list.len() ==> goes_before(
            Arrangement::LongestFirst,
            #[trigger] list[i],
            #[trigger] list[j],
        )
}

// ---------------------------------------------------------------------------
// The file
// ---------------------------------------------------------------------------
/// The comment at the head of the file.
pub open spec fn file_header() -> Seq<char> {
    "# How to say what the voice gets wrong. Spelled the way it sounds,\n         # not in phonetic notation. Whole words only, case-insensitive.\n\n"@
}

/// Can the text be written as such a string? It holds no control characters
/// but tabs and line ends.
pub open spec fn basic_text(s: Seq<char>) -> bool {
    forall|i: int|
        0 <= i < s.len() ==> {
            ||| (#[trigger] s[i] >= ' ' && s[i] != '\u{7f}')
            ||| s[i] == '\n'
            ||| s[i] == '\r'
            ||| s[i] == '\t'
        }
}

/// The lines of a file that holds these entries.
pub open spec fn entry_lines(entries: Seq<Pair>) -> Seq<char>
    decreases entries.len(),
{
    if entries.len() == 0 {
        Seq::empty()
    } else {
        entry_lines(entries.drop_last()) + basic_string(entries.last().0) + " = "@ + basic_string(
            entries.last().1,
        ) + "\n"@
    }
}

/// A file that holds these entries as TOML basic strings.
pub open spec fn table_file(entries: Seq<Pair>) -> Seq<char> {
    file_header() + entry_lines(entries)
}

/// The entries as a map; of two with one word the later counts.
pub open spec fn entry_map(entries: Seq<Pair>) -> Map<Seq<char>, Seq<char>>
    decreases entries.len(),
{
    if entries.len() == 0 {
        Map::empty()
    } else {
        entry_map(entries.drop_last()).insert(entries.last().0, entries.last().1)
    }
}

/// Entries that a file can hold: no word twice, no control characters.
pub open spec fn storable(entries: Seq<Pair>) -> bool {
    &&& forall|i: int|
        0 <= i < entries.len() ==> basic_text((#[trigger] entries[i]).0) && basic_text(entries[i].1)
    &&& forall|i: int, j: int|
        0 <= i < j < entries.len() ==> (#[trigger] entries[i]).0 != (#[trigger] entries[j]).0
}

/// Calls `toml::from_str` for a `BTreeMap<String, String>`. The outcome is
/// named by [`toml_strings`]; the map hands its entries out with ascending
/// keys. Of a document that is made of the header's comment lines and of
/// lines `"key" = "value"` with distinct keys, it gives those keys and values.
#[verifier::external_body]
fn parse_strings(text: &str) -> (r: Option<Vec<(String, String)>>)
    ensures
        r is Some == toml_strings(text@) is Some,
        r is Some ==> lists(r->0.deep_view(), toml_strings(text@)->0) && ascending(
            r->0.deep_view(),
        ),
        forall|entries: Seq<Pair>|
            storable(entries) && text@ == #[trigger] table_file(entries) ==> r is Some
                && lists(r->0.deep_view(), entry_map(entries)),
{
    let table = toml::from_str::<std::collections::BTreeMap<String, String>>(text).ok()?;
    Some(table.into_iter().collect())
}

/// The table that a file stands for; none of it where there is no file, or
/// none that can be read.
pub open spec fn table_of(file: Option<Seq<char>>) -> Seq<Pair> {
    match file {
        Some(text) => match toml_strings(text) {
            Some(map) => choose|list: Seq<Pair>| lists(list, map) && longest_first(list),
            None => Seq::empty(),
        },
        None => Seq::empty(),
    }
}

/// There is only one way to list a map longest first.
pub proof fn law_one_longest_first_list(
    a: Seq<Pair>,
    b: Seq<Pair>,
    map: Map<Seq<char>, Seq<char>>,
)
    requires
        lists(a, map),
        longest_first(a),
        lists(b, map),
        longest_first(b),
    ensures
        a == b,
    decreases a.len(),
{
    if a.len() == 0 {
        if b.len() > 0 {
            assert(map.contains_key(b[0].0));
        }
        assert(a =~= b);
    } else {
        assert(map.contains_key(a[0].0));
        let j = choose|j: int| 0 <= j < b.len() && (#[trigger] b[j]).0 == a[0].0;
        assert(map.contains_key(b[0].0));
        let i = choose|i: int| 0 <= i < a.len() && (#[trigger] a[i]).0 == b[0].0;
        assert(b[j] == a[0]);
        assert(a[i] == b[0]);
        law_goes_before_is_an_order(Arrangement::LongestFirst, a[0], b[0], a[0]);
        assert(j == 0);
        let rest = map.remove(a[0].0);
        lemma_list_rest(a, map);
        lemma_list_rest(b, map);
        law_one_longest_first_list(a.drop_first(), b.drop_first(), rest);
        assert(a =~= seq![a[0]] + a.drop_first());
        assert(b =~= seq![b[0]] + b.drop_first());
    }
}

proof fn lemma_list_rest(a: Seq<Pair>, map: Map<Seq<char>, Seq<char>>)
    requires
        lists(a, map),
        longest_first(a),
        a.len() > 0,
    ensures
        lists(a.drop_first(), map.remove(a[0].0)),
        longest_first(a.drop_first()),
{
    let rest = map.remove(a[0].0);
    let tail = a.drop_first();
    assert forall|i: int| 0 <= i < tail.len() implies rest.contains_key((#[trigger] tail[i]).0)
        && rest[tail[i].0] == tail[i].1 by {
        assert(tail[i] == a[i + 1]);
        assert(a[0].0 != a[i + 1].0);
    }
    assert forall|k: Seq<char>| #[trigger] rest.contains_key(k) implies exists|i: int|
        0 <= i < tail.len() && (#[trigger] tail[i]).0 == k by {
        assert(map.contains_key(k));
        let i = choose|i: int| 0 <= i < a.len() && (#[trigger] a[i]).0 == k;
        assert(tail[i - 1] == a[i]);
    }
    assert forall|i: int, j: int| 0 <= i < j < tail.len() implies (#[trigger] tail[i]).0 != (
    #[trigger] tail[j]).0 by {
        assert(tail[i] == a[i + 1] && tail[j] == a[j + 1]);
    }
}

/// Encoding goes text by text.
proof fn lemma_encode_concat(a: Seq<char>, b: Seq<char>)
    ensures
        encode_utf8(a + b) == encode_utf8(a) + encode_utf8(b),
    decreases a.len(),
{
    if a.len() == 0 {
        assert(a + b =~= b);
        assert(encode_utf8(a) + encode_utf8(b) =~= encode_utf8(b));
    } else {
        assert((a + b).drop_first() =~= a.drop_first() + b);
        lemma_encode_concat(a.drop_first(), b);
        assert(encode_utf8(a + b) =~= encode_utf8(a) + encode_utf8(b));
    }
}

/// A word that holds another one comes before it, so that "Plane of Fear"
/// wins over a "Fear" entry.
pub proof fn law_longer_words_come_first(
    list: Seq<Pair>,
    i: int,
    j: int,
    before: Seq<char>,
    after: Seq<char>,
)
    requires
        longest_first(list),
        0 <= i < list.len(),
        0 <= j < list.len(),
        list[i].0 == before + list[j].0 + after,
        before.len() + after.len() > 0,
    ensures
        i < j,
{
    lemma_encode_concat(before + list[j].0, after);
    lemma_encode_concat(before, list[j].0);
    assert(before.len() > 0 ==> encode_utf8(before).len() > 0);
    assert(after.len() > 0 ==> encode_utf8(after).len() > 0);
    if j < i {
        assert(goes_before(Arrangement::LongestFirst, list[j], list[i]));
    }
}

/// The table that a file's text stands for, in the order it is applied.
pub fn pronunciations(file: Option<&str>) -> (r: Vec<(String, String)>)
    ensures
        r.deep_view() == table_of(file.deep_view()),
        longest_first(r.deep_view()),
        match file {
            Some(text) => match toml_strings(text@) {
                Some(map) => lists(r.deep_view(), map),
                None => r@.len() == 0,
            },
            None => r@.len() == 0,
        },
        // A file that was written for a table gives its entries back.
        forall|table: Seq<Pair>|
            readable(table) && file is Some && file->0@ == #[trigger] saved_file(table) ==> lists(
                r.deep_view(),
                entry_map(kept(table)),
            ),
{
    match file {
        Some(text) => match parse_strings(text) {
            Some(list) => {
                let ghost before = list.deep_view();
                let r = sorted(Arrangement::LongestFirst, list);
                proof {
                    let map = toml_strings(text@)->0;
                    lemma_sorted_list(before, r.deep_view(), map);
                    law_one_longest_first_list(r.deep_view(), table_of(Some(text@)), map);
                    assert forall|table: Seq<Pair>|
                        readable(table) && text@ == #[trigger] saved_file(table) implies lists(
                        r.deep_view(),
                        entry_map(kept(table)),
                    ) by {
                        law_saved_entries_are_toml(kept(table));
                        assert(text@ == table_file(kept(table)));
                        lemma_sorted_list(before, r.deep_view(), entry_map(kept(table)));
                    }
                }
                r
            },
            None => {
                proof {
                    assert forall|table: Seq<Pair>|
                        readable(table) && text@ == #[trigger] saved_file(table) implies false by {
                        law_saved_entries_are_toml(kept(table));
                        assert(text@ == table_file(kept(table)));
                    }
                }
                let r: Vec<(String, String)> = Vec::new();
                assert(r.deep_view() =~= Seq::<Pair>::empty());
                r
            },
        },
        None => {
            let r: Vec<(String, String)> = Vec::new();
            assert(r.deep_view() =~= Seq::<Pair>::empty());
            r
        },
    }
}

proof fn lemma_sorted_list(a: Seq<Pair>, b: Seq<Pair>, map: Map<Seq<char>, Seq<char>>)
    requires
        lists(a, map),
        in_order(Arrangement::LongestFirst, b),
        a.to_multiset() == b.to_multiset(),
    ensures
        lists(b, map),
        longest_first(b),
{
    a.to_multiset_ensures();
    b.to_multiset_ensures();
    assert(a.no_duplicates());
    a.lemma_multiset_has_no_duplicates();
    assert(b.no_duplicates()) by {
        b.lemma_multiset_has_no_duplicates_conv();
    }
    assert forall|i: int| 0 <= i < b.len() implies a.contains(#[trigger] b[i]) by {
        assert(b.contains(b[i]));
        assert(b.to_multiset().count(b[i]) > 0);
    }
    assert forall|i: int| 0 <= i < a.len() implies b.contains(#[trigger] a[i]) by {
        assert(a.contains(a[i]));
        assert(a.to_multiset().count(a[i]) > 0);
    }
    assert forall|i: int| 0 <= i < b.len() implies map.contains_key((#[trigger] b[i]).0)
        && map[b[i].0] == b[i].1 by {
        let k = choose|k: int| 0 <= k < a.len() && a[k] == b[i];
        assert(a[k] == b[i]);
    }
    assert forall|k: Seq<char>| #[trigger] map.contains_key(k) implies exists|i: int|
        0 <= i < b.len() && (#[trigger] b[i]).0 == k by {
        let i = choose|i: int| 0 <= i < a.len() && (#[trigger] a[i]).0 == k;
        assert(b.contains(a[i]));
    }
    assert forall|i: int, j: int| 0 <= i < j < b.len() implies (#[trigger] b[i]).0 != (
    #[trigger] b[j]).0 by {
        if b[i].0 == b[j].0 {
            assert(b[i] == b[j]);
        }
    }
    assert forall|i: int, j: int| 0 <= i < j < b.len() implies goes_before(
        Arrangement::LongestFirst,
        #[trigger] b[i],
        #[trigger] b[j],
    ) by {
        law_goes_before_is_an_order(Arrangement::LongestFirst, b[i], b[j], b[i]);
    }
}

/// The entries of a table that are worth writing, without the blanks around
/// them: those with a word.
pub open spec fn kept(table: Seq<Pair>) -> Seq<Pair>
    decreases table.len(),
{
    if table.len() == 0 {
        Seq::empty()
    } else if trim(table.last().0).len() == 0 {
        kept(table.drop_last())
    } else {
        kept(table.drop_last()).push((trim(table.last().0), trim(table.last().1)))
    }
}

/// The lines written for these entries.
pub open spec fn saved_lines(entries: Seq<Pair>) -> Seq<char>
    decreases entries.len(),
{
    if entries.len() == 0 {
        Seq::empty()
    } else {
        saved_lines(entries.drop_last()) + debug_text(entries.last().0) + " = "@ + debug_text(
            entries.last().1,
        ) + "\n"@
    }
}

/// Are the texts of these entries printed as TOML basic strings?
pub open spec fn printed_as_basic(entries: Seq<Pair>) -> bool {
    forall|i: int|
        0 <= i < entries.len() ==> debug_text((#[trigger] entries[i]).0) == basic_string(
            entries[i].0,
        ) && debug_text(entries[i].1) == basic_string(entries[i].1)
}

/// The text of the file that keeps a table.
pub open spec fn saved_file(table: Seq<Pair>) -> Seq<char> {
    file_header() + saved_lines(kept(table))
}

/// Can a table be read back from its file? Its words are distinct once the
/// blanks around them are gone, and its texts print as TOML basic strings.
pub open spec fn readable(table: Seq<Pair>) -> bool {
    storable(kept(table)) && printed_as_basic(kept(table))
}

/// Are the texts of these entries plain? See [`plain_text`].
pub open spec fn plain_entries(entries: Seq<Pair>) -> bool {
    forall|i: int|
        0 <= i < entries.len() ==> plain_text((#[trigger] entries[i]).0) && plain_text(
            entries[i].1,
        )
}

/// What a file holds that was written for entries whose texts print as TOML
/// basic strings.
pub proof fn law_saved_entries_are_toml(entries: Seq<Pair>)
    requires
        printed_as_basic(entries),
    ensures
        file_header() + saved_lines(entries) == table_file(entries),
    decreases entries.len(),
{
    if entries.len() > 0 {
        assert(printed_as_basic(entries.drop_last())) by {
            assert forall|i: int| 0 <= i < entries.len() - 1 implies entries.drop_last()[i]
                == #[trigger] entries[i] by {}
        }
        law_saved_entries_are_toml(entries.drop_last());
        assert(saved_lines(entries.drop_last()) =~= entry_lines(entries.drop_last())) by {
            let n = file_header().len() as int;
            assert((file_header() + saved_lines(entries.drop_last())).skip(n) =~= saved_lines(
                entries.drop_last(),
            ));
            assert((file_header() + entry_lines(entries.drop_last())).skip(n) =~= entry_lines(
                entries.drop_last(),
            ));
        }
    }
}

/// No word stands in two entries.
pub open spec fn distinct_words(entries: Seq<Pair>) -> bool {
    forall|i: int, j: int|
        0 <= i < j < entries.len() ==> (#[trigger] entries[i]).0 != (#[trigger] entries[j]).0
}

/// Plain entries with distinct words survive being written and read: a file
/// can hold them, and the map it holds lists exactly them.
pub proof fn law_plain_entries_are_read_back(entries: Seq<Pair>)
    requires
        plain_entries(entries),
        distinct_words(entries),
    ensures
        storable(entries),
        lists(entries, entry_map(entries)),
{
    assert forall|i: int| 0 <= i < entries.len() implies basic_text((#[trigger] entries[i]).0)
        && basic_text(entries[i].1) by {
        assert(plain_text(entries[i].0) && plain_text(entries[i].1));
    }
    lemma_entry_map(entries);
}

proof fn lemma_entry_map(entries: Seq<Pair>)
    requires
        distinct_words(entries),
    ensures
        lists(entries, entry_map(entries)),
    decreases entries.len(),
{
    if entries.len() > 0 {
        let front = entries.drop_last();
        let n = entries.len() - 1;
        assert forall|i: int, j: int| 0 <= i < j < front.len() implies (#[trigger] front[i]).0 != (
        #[trigger] front[j]).0 by {
            assert(front[i] == entries[i] && front[j] == entries[j]);
        }
        lemma_entry_map(front);
        let map = entry_map(entries);
        assert forall|i: int| 0 <= i < entries.len() implies map.contains_key(
            (#[trigger] entries[i]).0,
        ) && map[entries[i].0] == entries[i].1 by {
            if i < n {
                assert(front[i] == entries[i]);
                assert(entries[i].0 != entries[n].0);
            }
        }
        assert forall|k: Seq<char>| #[trigger] map.contains_key(k) implies exists|i: int|
            0 <= i < entries.len() && (#[trigger] entries[i]).0 == k by {
            if k == entries[n].0 {
                assert(entries[n].0 == k);
            } else {
                assert(entry_map(front).contains_key(k));
                let i = choose|i: int| 0 <= i < front.len() && (#[trigger] front[i]).0 == k;
                assert(entries[i] == front[i]);
            }
        }
    }
}

/// The text of the file that keeps a table. Entries without a word are left
/// out. [`pronunciations`] reads back what was written for a readable table;
/// plain entries with distinct words make one.
pub fn save_pronunciations(table: &[(String, String)]) -> (r: String)
    ensures
        r@ == saved_file(table.deep_view()),
        plain_entries(kept(table.deep_view())) && distinct_words(kept(table.deep_view()))
            ==> readable(table.deep_view()),
{
    let mut out: String =
        "# How to say what the voice gets wrong. Spelled the way it sounds,\n         # not in phonetic notation. Whole words only, case-insensitive.\n\n".to_owned();
    let ghost all = table.deep_view();
    let mut i: usize = 0;
    proof {
        assert(all.take(0) =~= Seq::<Pair>::empty());
        assert(out@ =~= file_header() + saved_lines(kept(all.take(0))));
    }
    while i < table.len()
        invariant
            i <= table@.len(),
            all == table.deep_view(),
            out@ == file_header() + saved_lines(kept(all.take(i as int))),
            plain_entries(kept(all.take(i as int))) ==> printed_as_basic(kept(all.take(i as int))),
        decreases table@.len() - i,
    {
        let ghost done = kept(all.take(i as int));
        let ghost next = kept(all.take(i + 1));
        proof {
            assert(all.take(i + 1).drop_last() =~= all.take(i as int));
            assert(all.take(i + 1).last() == table@[i as int].deep_view());
        }
        let word = trimmed(table[i].0.as_str());
        let say = trimmed(table[i].1.as_str());
        if !word.is_empty() {
            let word_text = quoted(word);
            let say_text = quoted(say);
            let ghost was = out@;
            out.append(word_text.as_str());
            out.append(" = ");
            out.append(say_text.as_str());
            out.append("\n");
            proof {
                assert(next.drop_last() =~= done);
                assert(next.last() == (word@, say@));
                assert(out@ =~= file_header() + saved_lines(next));
                if plain_entries(next) {
                    assert forall|k: int| 0 <= k < done.len() implies plain_text(
                        (#[trigger] done[k]).0,
                    ) && plain_text(done[k].1) by {
                        assert(done[k] == next[k]);
                    }
                    let n = next.len() - 1;
                    assert(plain_text(next[n].0) && plain_text(next[n].1));
                    assert forall|k: int| 0 <= k < next.len() implies debug_text(
                        (#[trigger] next[k]).0,
                    ) == basic_string(next[k].0) && debug_text(next[k].1) == basic_string(
                        next[k].1,
                    ) by {
                        if k < n {
                            assert(done[k] == next[k]);
                        }
                    }
                }
            }
        }
        i += 1;
    }
    proof {
        assert(all.take(all.len() as int) =~= all);
        if plain_entries(kept(all)) && distinct_words(kept(all)) {
            law_plain_entries_are_read_back(kept(all));
        }
    }
    out
}

/// Applies the table to a line the way an alert would, to show what a voice
/// will actually be handed.
pub fn preview(text: &str, file: Option<&str>) -> (r: String)
    ensures
        r@ == respelled(text@, table_of(file.deep_view())),
{
    let table = pronunciations(file);
    respell(text, table.as_slice())
}

/// An entry is kept exactly if its word is more than blanks; then word and
/// spelling are kept without the blanks around them. Each entry is kept or
/// left out by itself, and the order stays.
pub proof fn law_which_entries_are_kept(table: Seq<Pair>, word: Seq<char>, say: Seq<char>)
    ensures
        kept(Seq::empty()).len() == 0,
        trim(word).len() > 0 ==> kept(table.push((word, say))) == kept(table).push(
            (trim(word), trim(say)),
        ),
        trim(word).len() == 0 ==> kept(table.push((word, say))) == kept(table),
{
    assert(table.push((word, say)).drop_last() =~= table);
}

/// An entry is written as one line: the word, an equals sign and the
/// spelling, both in quotes. The lines stand below the comment, in the order
/// of the table.
pub proof fn law_how_entries_are_written(entries: Seq<Pair>, word: Seq<char>, say: Seq<char>)
    ensures
        saved_lines(Seq::empty()).len() == 0,
        saved_lines(entries.push((word, say))) == saved_lines(entries) + debug_text(word) + " = "@
            + debug_text(say) + "\n"@,
{
    assert(entries.push((word, say)).drop_last() =~= entries);
}

/// A file holds the comment and, below it, the entries that are kept.
pub proof fn law_what_a_file_holds(table: Seq<Pair>)
    ensures
        saved_file(table)
            == "# How to say what the voice gets wrong. Spelled the way it sounds,\n         # not in phonetic notation. Whole words only, case-insensitive.\n\n"@
            + saved_lines(kept(table)),
{
}

/// The table of a file lists what TOML reads in it, every entry once and no
/// other, the longest word first; a file that cannot be read, and no file,
/// make an empty table.
pub proof fn law_the_table_is_what_the_file_says(text: Seq<char>, list: Seq<Pair>)
    requires
        toml_strings(text) matches Some(map) ==> lists(list, map) && longest_first(list),
    ensures
        toml_strings(text) is Some ==> table_of(Some(text)) == list,
        toml_strings(text) is None ==> table_of(Some(text)).len() == 0,
        table_of(None).len() == 0,
{
    if let Some(map) = toml_strings(text) {
        law_one_longest_first_list(list, table_of(Some(text)), map);
    }
}

/// A list of a map holds each of its entries exactly once, and no other.
pub proof fn law_what_a_list_holds(
    list: Seq<Pair>,
    map: Map<Seq<char>, Seq<char>>,
    word: Seq<char>,
    say: Seq<char>,
)
    requires
        lists(list, map),
    ensures
        list.contains((word, say)) <==> map.contains_key(word) && map[word] == say,
        list.no_duplicates(),
{
    if map.contains_key(word) && map[word] == say {
        let i = choose|i: int| 0 <= i < list.len() && (#[trigger] list[i]).0 == word;
        assert(list[i] == (word, say));
    }
}

/// Of two words of a list the longer one, in bytes, comes first; of two that
/// are equally long the one that a dictionary has first.
pub proof fn law_in_which_order_words_come(list: Seq<Pair>, i: int, j: int)
    requires
        longest_first(list),
        0 <= i < j < list.len(),
    ensures
        encode_utf8(list[i].0).len() >= encode_utf8(list[j].0).len(),
        encode_utf8(list[i].0).len() == encode_utf8(list[j].0).len() && list[i].0 != list[j].0
            ==> lex_less(list[i].0, list[j].0),
{
    assert(goes_before(Arrangement::LongestFirst, list[i], list[j]));
}

} // verus!
