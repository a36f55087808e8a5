//! How to say the words a speech engine has never seen: a table of spellings
//! is applied to a line before it is spoken.
//!
//! Whole words are matched, and case is ignored. A line is read character by
//! character in lowercase, which can take more characters than the line has,
//! but it is only ever cut between its own.
use vstd::prelude::*;

use crate::order::Pair;
use crate::text::{
    alphanumeric, chars_of, is_alphanumeric, lowercase, matches_at, text_of, to_lowercase,
    unicode_lowercase,
};

verus! {

/// How a character reads when case is ignored: in lowercase, and a sigma at
/// the end of a word like any other sigma.
pub open spec fn fold(c: char) -> Seq<char> {
    if c == '\u{3c2}' {
        seq!['\u{3c3}']
    } else {
        lowercase(c)
    }
}

fn fold_of(c: char) -> (r: Vec<char>)
    ensures
        r@ == fold(c),
{
    if c == '\u{3c2}' {
        let r: Vec<char> = vec!['\u{3c3}'];
        assert(r@ =~= fold(c));
        r
    } else {
        to_lowercase(c)
    }
}

/// How each character of a text reads when case is ignored.
pub open spec fn fold_each(s: Seq<char>) -> Seq<Seq<char>> {
    s.map_values(|c: char| fold(c))
}

/// How a text reads when case is ignored.
pub open spec fn folded(s: Seq<char>) -> Seq<char>
    decreases s.len(),
{
    if s.len() == 0 {
        Seq::empty()
    } else {
        fold(s[0]) + folded(s.drop_first())
    }
}

/// Where `needle` ends if it stands at the `i`th of these readings and is
/// made of whole ones.
pub open spec fn match_end(folds: Seq<Seq<char>>, needle: Seq<char>, i: int) -> Option<int>
    decreases folds.len() - i,
{
    if needle.len() == 0 {
        Some(i)
    } else if i < 0 || i >= folds.len() {
        None
    } else {
        let n = folds[i].len() as int;
        if n <= needle.len() && needle.take(n) == folds[i] {
            match_end(folds, needle.skip(n), i + 1)
        } else {
            None
        }
    }
}

/// The first place, at `at` or later, where `needle` stands: where it begins
/// and where it ends. What takes up no place stands nowhere.
pub open spec fn next_word(folds: Seq<Seq<char>>, needle: Seq<char>, at: int) -> Option<(int, int)>
    decreases folds.len() - at,
{
    if at < 0 || at >= folds.len() {
        None
    } else {
        match match_end(folds, needle, at) {
            Some(end) => if end > at {
                Some((at, end))
            } else {
                next_word(folds, needle, at + 1)
            },
            None => next_word(folds, needle, at + 1),
        }
    }
}

/// Is what stands from `start` to `end` a word of its own? No letter or digit
/// touches it on either side.
pub open spec fn whole_word(s: Seq<char>, start: int, end: int) -> bool {
    &&& start <= 0 || !alphanumeric(s[start - 1])
    &&& end >= s.len() || !alphanumeric(s[end])
}

/// `line` from the `at`th character on, with every `needle` that stands there
/// as a whole word replaced by `say`. `folds` is how the characters of the
/// line read.
pub open spec fn reworded(
    line: Seq<char>,
    folds: Seq<Seq<char>>,
    needle: Seq<char>,
    say: Seq<char>,
    at: int,
) -> Seq<char>
    decreases line.len() - at,
{
    match next_word(folds, needle, at) {
        Some((start, end)) => if at <= start < end <= line.len() {
            line.subrange(at, start) + (if whole_word(line, start, end) {
                say
            } else {
                line.subrange(start, end)
            }) + reworded(line, folds, needle, say, end)
        } else {
            line.skip(at)
        },
        None => line.skip(at),
    }
}

/// A line with one entry of the table applied.
pub open spec fn respelled_entry(line: Seq<char>, entry: Pair) -> Seq<char> {
    reworded(line, fold_each(line), folded(entry.0), entry.1, 0)
}

/// A line with the entries of the table applied one after the other.
pub open spec fn respelled(line: Seq<char>, table: Seq<Pair>) -> Seq<char>
    decreases table.len(),
{
    if table.len() == 0 {
        line
    } else {
        respelled(respelled_entry(line, table[0]), table.drop_first())
    }
}

// ---------------------------------------------------------------------------
// Reading
// ---------------------------------------------------------------------------
proof fn lemma_folded_push(s: Seq<char>, c: char)
    ensures
        folded(s.push(c)) == folded(s) + fold(c),
    decreases s.len(),
{
    if s.len() == 0 {
        assert(s.push(c).drop_first() =~= Seq::<char>::empty());
        reveal_with_fuel(folded, 2);
        assert(folded(s.push(c)) =~= folded(s) + fold(c));
    } else {
        assert(s.push(c).drop_first() =~= s.drop_first().push(c));
        lemma_folded_push(s.drop_first(), c);
        assert(folded(s.push(c)) =~= folded(s) + fold(c));
    }
}

/// Reads each character of a line.
fn read_each(line: &[char]) -> (r: Vec<Vec<char>>)
    ensures
        r.deep_view() == fold_each(line@),
{
    let mut r: Vec<Vec<char>> = Vec::new();
    let mut i: usize = 0;
    while i < line.len()
        invariant
            i <= line@.len(),
            r@.len() == i,
            forall|k: int| 0 <= k < i ==> (#[trigger] r@[k])@ == fold(line@[k]),
        decreases line@.len() - i,
    {
        r.push(fold_of(line[i]));
        i += 1;
    }
    assert forall|k: int| 0 <= k < line@.len() implies #[trigger] r.deep_view()[k] == fold_each(
        line@,
    )[k] by {
        assert(r@[k]@ == fold(line@[k]));
        assert(r@[k].deep_view() =~= r@[k]@);
    }
    assert(r.deep_view() =~= fold_each(line@));
    r
}

/// Reads a text.
fn read(s: &str) -> (r: Vec<char>)
    ensures
        r@ == folded(s@),
{
    let c = chars_of(s);
    let mut r: Vec<char> = Vec::new();
    let mut i: usize = 0;
    assert(s@.take(0) =~= Seq::<char>::empty());
    while i < c.len()
        invariant
            i <= c@.len(),
            c@ == s@,
            r@ == folded(s@.take(i as int)),
        decreases c@.len() - i,
    {
        let mut f = fold_of(c[i]);
        r.append(&mut f);
        proof {
            assert(s@.take(i + 1) =~= s@.take(i as int).push(s@[i as int]));
            lemma_folded_push(s@.take(i as int), s@[i as int]);
        }
        i += 1;
    }
    assert(s@.take(s@.len() as int) =~= s@);
    r
}

// ---------------------------------------------------------------------------
// Searching
// ---------------------------------------------------------------------------
proof fn lemma_match_end(folds: Seq<Seq<char>>, needle: Seq<char>, i: int)
    requires
        0 <= i <= folds.len(),
    ensures
        match_end(folds, needle, i) matches Some(end) ==> i <= end <= folds.len(),
    decreases folds.len() - i,
{
    if needle.len() > 0 && i < folds.len() {
        lemma_match_end(folds, needle.skip(folds[i].len() as int), i + 1);
    }
}

proof fn lemma_next_word(folds: Seq<Seq<char>>, needle: Seq<char>, at: int)
    requires
        0 <= at <= folds.len(),
    ensures
        next_word(folds, needle, at) matches Some((start, end)) ==> at <= start < end <= folds.len(),
    decreases folds.len() - at,
{
    if at < folds.len() {
        lemma_match_end(folds, needle, at);
        lemma_next_word(folds, needle, at + 1);
    }
}

/// Looks whether `needle` stands at `i`.
fn end_of_match(folds: &[Vec<char>], needle: &[char], i: usize) -> (r: Option<usize>)
    requires
        i <= folds@.len(),
    ensures
        match r {
            Some(end) => match_end(folds.deep_view(), needle@, i as int) == Some(end as int),
            None => match_end(folds.deep_view(), needle@, i as int) is None,
        },
{
    let ghost all = folds.deep_view();
    let n: usize = needle.len();
    let mut done: usize = 0;
    let mut k: usize = i;
    assert(needle@.skip(0) =~= needle@);
    while done < n && k < folds.len()
        invariant
            done <= n == needle@.len(),
            k <= folds@.len(),
            all == folds.deep_view(),
            match_end(all, needle@, i as int) == match_end(
                all,
                needle@.skip(done as int),
                k as int,
            ),
        decreases folds@.len() - k,
    {
        let ghost rest = needle@.skip(done as int);
        assert(all[k as int] =~= folds@[k as int]@);
        let m: usize = folds[k].len();
        if m > n - done || !matches_at(needle, folds[k].as_slice(), done) {
            proof {
                if m <= n - done {
                    assert(rest.take(m as int) =~= needle@.subrange(done as int, done + m));
                }
            }
            return None;
        }
        proof {
            assert(rest.take(m as int) =~= needle@.subrange(done as int, done + m));
            assert(rest.skip(m as int) =~= needle@.skip(done + m));
        }
        done += m;
        k += 1;
    }
    if done == n {
        Some(k)
    } else {
        None
    }
}

/// Looks for the next place where `needle` stands.
fn find_word(folds: &[Vec<char>], needle: &[char], at: usize) -> (r: Option<(usize, usize)>)
    requires
        at <= folds@.len(),
    ensures
        match r {
            Some((start, end)) => next_word(folds.deep_view(), needle@, at as int) == Some(
                (start as int, end as int),
            ),
            None => next_word(folds.deep_view(), needle@, at as int) is None,
        },
{
    let mut i: usize = at;
    while i < folds.len()
        invariant
            i <= folds@.len(),
            next_word(folds.deep_view(), needle@, at as int) == next_word(
                folds.deep_view(),
                needle@,
                i as int,
            ),
        decreases folds@.len() - i,
    {
        match end_of_match(folds, needle, i) {
            Some(end) => {
                if end > i {
                    return Some((i, end));
                }
            },
            None => {},
        }
        i += 1;
    }
    None
}

/// Applies one entry to a line, given how each character of the line reads
/// and how the word looked for does.
pub fn respell_entry(line: &str, folds: &[Vec<char>], needle: &[char], say: &str) -> (r: String)
    requires
        folds@.len() == line@.len(),
    ensures
        r@ == reworded(line@, folds.deep_view(), needle@, say@, 0),
{
    let c = chars_of(line);
    let n: usize = c.len();
    let ghost all = folds.deep_view();
    let ghost whole = reworded(line@, all, needle@, say@, 0);
    let mut done = String::new();
    let mut at: usize = 0;
    assert(done@ + whole =~= whole);
    loop
        invariant
            c@ == line@,
            at <= n == c@.len(),
            folds@.len() == n,
            all == folds.deep_view(),
            whole == reworded(line@, all, needle@, say@, 0),
            whole == done@ + reworded(line@, all, needle@, say@, at as int),
        decreases n - at,
    {
        proof {
            lemma_next_word(all, needle@, at as int);
        }
        match find_word(folds, needle, at) {
            None => {
                let rest = text_of(&c, at, n);
                assert(rest@ =~= line@.skip(at as int));
                done.append(rest.as_str());
                return done;
            },
            Some((start, end)) => {
                let ghost was = done@;
                let front = text_of(&c, at, start);
                done.append(front.as_str());
                let before_ok: bool = start == 0 || !is_alphanumeric(c[start - 1]);
                let after_ok: bool = end == n || !is_alphanumeric(c[end]);
                let ghost mut middle = say@;
                if before_ok && after_ok {
                    done.append(say);
                } else {
                    let kept = text_of(&c, start, end);
                    done.append(kept.as_str());
                    proof {
                        middle = kept@;
                    }
                }
                proof {
                    let rest = reworded(line@, all, needle@, say@, end as int);
                    assert(whole =~= was + (front@ + middle + rest));
                    assert(whole =~= done@ + rest);
                }
                at = end;
            },
        }
    }
}

/// Applies the table, matching whole words and ignoring case. An entry
/// without a word changes nothing.
pub fn respell(text: &str, table: &[(String, String)]) -> (r: String)
    ensures
        r@ == respelled(text@, table.deep_view()),
{
    let mut line: String = text.to_owned();
    let mut i: usize = 0;
    let ghost all = table.deep_view();
    assert(all.skip(0) =~= all);
    while i < table.len()
        invariant
            i <= table@.len(),
            all == table.deep_view(),
            respelled(text@, all) == respelled(line@, all.skip(i as int)),
        decreases table@.len() - i,
    {
        assert(all.skip(i as int)[0] == table@[i as int].deep_view());
        assert(all.skip(i as int).drop_first() =~= all.skip(i + 1));
        let c = chars_of(line.as_str());
        let folds = read_each(&c);
        let needle = read(table[i].0.as_str());
        assert(folds.deep_view().len() == line@.len());
        line = respell_entry(line.as_str(), &folds, &needle, table[i].1.as_str());
        i += 1;
    }
    line
}

// ---------------------------------------------------------------------------
// Laws
// ---------------------------------------------------------------------------
/// The entries are applied in turn: what the first ones make of a line is
/// what the later ones work on.
pub proof fn law_entries_in_turn(line: Seq<char>, first: Seq<Pair>, later: Seq<Pair>)
    ensures
        respelled(line, first + later) == respelled(respelled(line, first), later),
    decreases first.len(),
{
    if first.len() == 0 {
        assert(first + later =~= later);
    } else {
        assert((first + later).drop_first() =~= first.drop_first() + later);
        law_entries_in_turn(respelled_entry(line, first[0]), first.drop_first(), later);
    }
}

/// Does the word stand in the line from `i` to `j`, if case is ignored?
pub open spec fn reads_at(line: Seq<char>, word: Seq<char>, i: int, j: int) -> bool {
    0 <= i < j <= line.len() && folded(line.subrange(i, j)) == folded(word)
}

/// A word is found where the line, cut at its own characters, reads like it
/// with case ignored, and first where it stands first.
pub proof fn law_words_are_found_ignoring_case(line: Seq<char>, word: Seq<char>, at: int)
    requires
        0 <= at <= line.len(),
        folded(word).len() > 0,
    ensures
        match next_word(fold_each(line), folded(word), at) {
            Some((start, end)) => {
                &&& at <= start
                &&& reads_at(line, word, start, end)
                &&& forall|i: int, j: int| at <= i < start ==> !#[trigger] reads_at(line, word, i, j)
            },
            None => forall|i: int, j: int| at <= i ==> !#[trigger] reads_at(line, word, i, j),
        },
    decreases line.len() - at,
{
    let folds = fold_each(line);
    let needle = folded(word);
    if at < line.len() {
        law_words_are_found_ignoring_case(line, word, at + 1);
        lemma_match_sound(line, needle, at);
        assert forall|j: int| #[trigger] reads_at(line, word, at, j) implies (match_end(
            folds,
            needle,
            at,
        ) matches Some(end) && end > at) by {
            lemma_match_complete(line, needle, at, j);
        }
    }
}

/// What matches reads like the needle.
proof fn lemma_match_sound(line: Seq<char>, needle: Seq<char>, i: int)
    requires
        0 <= i <= line.len(),
    ensures
        match_end(fold_each(line), needle, i) matches Some(end) ==> i <= end <= line.len() && folded(
            line.subrange(i, end),
        ) == needle,
    decreases line.len() - i,
{
    let folds = fold_each(line);
    if needle.len() == 0 {
        assert(line.subrange(i, i) =~= Seq::<char>::empty());
        assert(needle =~= Seq::<char>::empty());
    } else if i < line.len() {
        let n = folds[i].len() as int;
        lemma_match_sound(line, needle.skip(n), i + 1);
        if let Some(end) = match_end(folds, needle, i) {
            let s = line.subrange(i, end);
            assert(s.drop_first() =~= line.subrange(i + 1, end));
            assert(needle =~= needle.take(n) + needle.skip(n));
        }
    }
}

/// What reads like the needle matches.
proof fn lemma_match_complete(line: Seq<char>, needle: Seq<char>, i: int, j: int)
    requires
        0 <= i <= j <= line.len(),
        folded(line.subrange(i, j)) == needle,
    ensures
        match_end(fold_each(line), needle, i) is Some,
        match_end(fold_each(line), needle, i)->0 <= j,
        needle.len() > 0 ==> match_end(fold_each(line), needle, i)->0 > i,
    decreases j - i,
{
    let folds = fold_each(line);
    if needle.len() > 0 {
        let s = line.subrange(i, j);
        let n = folds[i].len() as int;
        assert(s.drop_first() =~= line.subrange(i + 1, j));
        let rest = folded(line.subrange(i + 1, j));
        assert(needle.take(n) =~= folds[i]);
        assert(needle.skip(n) =~= rest);
        lemma_match_complete(line, rest, i + 1, j);
        lemma_match_end(folds, rest, i + 1);
    }
}

/// A whole word is replaced by how it is to be said. What stands in front of
/// it is kept, and the search goes on behind it.
pub proof fn law_whole_words_are_replaced(line: Seq<char>, entry: Pair, start: int, end: int)
    requires
        next_word(fold_each(line), folded(entry.0), 0) == Some((start, end)),
        whole_word(line, start, end),
    ensures
        respelled_entry(line, entry) == line.take(start) + entry.1 + reworded(
            line,
            fold_each(line),
            folded(entry.0),
            entry.1,
            end,
        ),
{
    lemma_next_word(fold_each(line), folded(entry.0), 0);
    assert(line.subrange(0, start) =~= line.take(start));
}

/// A line in which the word stands nowhere as a whole word is left as it is.
pub proof fn law_only_whole_words_change(line: Seq<char>, entry: Pair)
    requires
        forall|i: int, j: int| #[trigger]
            reads_at(line, entry.0, i, j) ==> !whole_word(line, i, j),
    ensures
        respelled_entry(line, entry) == line,
{
    lemma_nothing_replaced(line, entry, 0);
    assert(line.skip(0) =~= line);
}

proof fn lemma_nothing_replaced(line: Seq<char>, entry: Pair, at: int)
    requires
        0 <= at <= line.len(),
        forall|i: int, j: int| #[trigger]
            reads_at(line, entry.0, i, j) ==> !whole_word(line, i, j),
    ensures
        reworded(line, fold_each(line), folded(entry.0), entry.1, at) == line.skip(at),
    decreases line.len() - at,
{
    let folds = fold_each(line);
    let needle = folded(entry.0);
    lemma_next_word(folds, needle, at);
    if let Some((start, end)) = next_word(folds, needle, at) {
        lemma_next_reads(line, needle, at);
        assert(reads_at(line, entry.0, start, end));
        lemma_nothing_replaced(line, entry, end);
        assert(line.subrange(at, start) + line.subrange(start, end) + line.skip(end) =~= line.skip(
            at,
        ));
    }
}

proof fn lemma_next_reads(line: Seq<char>, needle: Seq<char>, at: int)
    requires
        0 <= at <= line.len(),
    ensures
        next_word(fold_each(line), needle, at) matches Some((start, end)) ==> 0 <= start < end
            <= line.len() && folded(line.subrange(start, end)) == needle,
    decreases line.len() - at,
{
    if at < line.len() {
        lemma_match_sound(line, needle, at);
        lemma_next_reads(line, needle, at + 1);
    }
}

/// Case does not matter: words that read alike respell a line alike.
pub proof fn law_case_of_the_word_is_ignored(line: Seq<char>, a: Pair, b: Pair)
    requires
        folded(a.0) == folded(b.0),
        a.1 == b.1,
    ensures
        respelled_entry(line, a) == respelled_entry(line, b),
{
}

/// An ASCII letter reads like its other case.
pub proof fn law_ascii_case_is_ignored(c: char)
    requires
        'a' <= c <= 'z',
    ensures
        fold(((c as u32) - 32) as char) == fold(c),
        fold(c) == seq![c],
{
}

/// How a character reads: an ASCII letter as the small one, any other ASCII
/// character as itself, a final sigma as a sigma, the dotted capital I as an
/// i and a dot, and the rest as Unicode puts it in lowercase.
pub proof fn law_how_characters_read(c: char)
    ensures
        'A' <= c && c <= 'Z' ==> fold(c).len() == 1 && fold(c)[0] as u32 == c as u32 + 32,
        c <= '\u{7f}' && !('A' <= c && c <= 'Z') ==> fold(c) == seq![c],
        c == '\u{3c2}' ==> fold(c) == seq!['\u{3c3}'],
        c == '\u{130}' ==> fold(c) == seq!['i', '\u{307}'],
        c > '\u{7f}' && c != '\u{3c2}' && c != '\u{130}' ==> fold(c) == unicode_lowercase(c),
{
}

/// A text reads as its characters do, one after the other.
pub proof fn law_reading_adds_up(a: Seq<char>, b: Seq<char>, c: char)
    ensures
        folded(a + b) == folded(a) + folded(b),
        folded(seq![c]) == fold(c),
        folded(Seq::empty()) == Seq::<char>::empty(),
    decreases a.len(),
{
    assert(seq![c].drop_first() =~= Seq::<char>::empty());
    reveal_with_fuel(folded, 2);
    assert(folded(seq![c]) =~= fold(c));
    if a.len() == 0 {
        assert(a + b =~= b);
        assert(folded(a) + folded(b) =~= folded(b));
    } else {
        assert((a + b).drop_first() =~= a.drop_first() + b);
        law_reading_adds_up(a.drop_first(), b, c);
        assert(folded(a + b) =~= folded(a) + folded(b));
    }
}

proof fn lemma_match_shifted(head: Seq<char>, back: Seq<char>, needle: Seq<char>, i: int)
    requires
        0 <= i <= back.len(),
    ensures
        match_end(fold_each(head + back), needle, head.len() + i) == match match_end(
            fold_each(back),
            needle,
            i,
        ) {
            Some(end) => Some(head.len() + end),
            None => None,
        },
    decreases back.len() - i,
{
    let line = head + back;
    let h = head.len() as int;
    if needle.len() > 0 && i < back.len() {
        assert(fold_each(line)[h + i] == fold_each(back)[i]);
        lemma_match_shifted(head, back, needle.skip(fold_each(back)[i].len() as int), i + 1);
    }
}

proof fn lemma_next_shifted(head: Seq<char>, back: Seq<char>, needle: Seq<char>, at: int)
    requires
        0 <= at <= back.len(),
    ensures
        next_word(fold_each(head + back), needle, head.len() + at) == match next_word(
            fold_each(back),
            needle,
            at,
        ) {
            Some((start, end)) => Some((head.len() + start, head.len() + end)),
            None => None,
        },
    decreases back.len() - at,
{
    if at < back.len() {
        lemma_match_shifted(head, back, needle, at);
        lemma_next_shifted(head, back, needle, at + 1);
    }
}

/// What stands behind a text is respelled as if it stood alone, unless the
/// word touches the text.
proof fn lemma_reworded_behind(
    head: Seq<char>,
    back: Seq<char>,
    needle: Seq<char>,
    say: Seq<char>,
    at: int,
)
    requires
        0 <= at <= back.len(),
        at > 0 || head.len() == 0 || !alphanumeric(head.last()) || !(next_word(
            fold_each(back),
            needle,
            0,
        ) matches Some((start, end)) && start == 0),
    ensures
        reworded(head + back, fold_each(head + back), needle, say, head.len() + at) == reworded(
            back,
            fold_each(back),
            needle,
            say,
            at,
        ),
    decreases back.len() - at,
{
    let line = head + back;
    let h = head.len() as int;
    lemma_next_shifted(head, back, needle, at);
    lemma_next_word(fold_each(back), needle, at);
    match next_word(fold_each(back), needle, at) {
        Some((start, end)) => {
            lemma_reworded_behind(head, back, needle, say, end);
            assert(line.subrange(h + at, h + start) =~= back.subrange(at, start));
            assert(line.subrange(h + start, h + end) =~= back.subrange(start, end));
            if start > 0 {
                assert(line[h + start - 1] == back[start - 1]);
            } else if h > 0 {
                assert(line[h - 1] == head.last());
            }
            if end < back.len() {
                assert(line[h + end] == back[end]);
            }
        },
        None => {
            assert(line.skip(h + at) =~= back.skip(at));
        },
    }
}

/// Where the word is found first.
proof fn lemma_first_place(front: Seq<char>, text: Seq<char>, back: Seq<char>, entry: Pair)
    requires
        folded(text) == folded(entry.0),
        forall|k: int| 0 <= k < text.len() ==> folded(#[trigger] text.take(k)) != folded(entry.0),
        text.len() > 0,
        forall|i: int, j: int|
            0 <= i < front.len() && i < j <= (front + text + back).len() ==> folded(
                #[trigger] (front + text + back).subrange(i, j),
            ) != folded(entry.0),
    ensures
        next_word(fold_each(front + text + back), folded(entry.0), 0) == Some(
            (front.len() as int, (front.len() + text.len()) as int),
        ),
{
    let line = front + text + back;
    let folds = fold_each(line);
    let needle = folded(entry.0);
    let f = front.len() as int;
    let e = f + text.len();
    assert(text.take(0) =~= Seq::<char>::empty());
    assert(needle.len() > 0) by {
        assert(folded(text.take(0)) =~= Seq::<char>::empty());
        if needle.len() == 0 {
            assert(needle =~= folded(text.take(0)));
        }
    }
    assert(line.subrange(f, e) =~= text);
    law_words_are_found_ignoring_case(line, entry.0, 0);
    assert(reads_at(line, entry.0, f, e));
    lemma_match_complete(line, needle, f, e);
    lemma_match_sound(line, needle, f);
    let x = match_end(folds, needle, f)->0;
    assert(line.subrange(f, x) =~= text.take(x - f));
    assert(x == e);
    let (start, end) = next_word(folds, needle, 0)->0;
    assert(start == f) by {
        if start < f {
            assert(reads_at(line, entry.0, start, end));
        }
    }
    lemma_next_ends(folds, needle, 0);
}

/// What comes of the line where the word is found first.
proof fn lemma_first_word(front: Seq<char>, text: Seq<char>, back: Seq<char>, entry: Pair)
    requires
        folded(text) == folded(entry.0),
        forall|k: int| 0 <= k < text.len() ==> folded(#[trigger] text.take(k)) != folded(entry.0),
        text.len() > 0,
        forall|i: int, j: int|
            0 <= i < front.len() && i < j <= (front + text + back).len() ==> folded(
                #[trigger] (front + text + back).subrange(i, j),
            ) != folded(entry.0),
        !alphanumeric(text.last()) || forall|j: int|
            0 < j <= back.len() ==> folded(#[trigger] back.subrange(0, j)) != folded(entry.0),
    ensures
        respelled_entry(front + text + back, entry) == front + (if whole_word(
            front + text + back,
            front.len() as int,
            (front.len() + text.len()) as int,
        ) {
            entry.1
        } else {
            text
        }) + respelled_entry(back, entry),
{
    let line = front + text + back;
    let needle = folded(entry.0);
    let f = front.len() as int;
    let e = f + text.len();
    lemma_first_place(front, text, back, entry);
    let head = front + text;
    assert(line =~= head + back);
    assert(head.last() == text.last());
    lemma_next_reads(back, needle, 0);
    if let Some((s, t)) = next_word(fold_each(back), needle, 0) {
        assert(folded(back.subrange(s, t)) == needle);
    }
    lemma_reworded_behind(head, back, needle, entry.1, 0);
    assert(line.subrange(0, f) =~= front);
    assert(line.subrange(f, e) =~= text);
}

proof fn lemma_next_ends(folds: Seq<Seq<char>>, needle: Seq<char>, at: int)
    requires
        0 <= at <= folds.len(),
    ensures
        next_word(folds, needle, at) matches Some((start, end)) ==> match_end(folds, needle, start)
            == Some(end),
    decreases folds.len() - at,
{
    if at < folds.len() {
        lemma_next_ends(folds, needle, at + 1);
    }
}

/// A word that stands on its own is respelled. The line is a front, a text
/// that reads like the entry's word, and a back; no letter or digit touches
/// the text, and the word stands nowhere earlier. Then the line becomes the
/// front, the entry's spelling, and the respelled back.
///
/// A back that itself begins with the word, right behind a letter or digit,
/// is left out: there the word touches a letter that the back alone does not
/// show.
pub proof fn law_a_word_on_its_own_is_respelled(
    front: Seq<char>,
    text: Seq<char>,
    back: Seq<char>,
    entry: Pair,
)
    requires
        folded(text) == folded(entry.0),
        forall|k: int| 0 <= k < text.len() ==> folded(#[trigger] text.take(k)) != folded(entry.0),
        text.len() > 0,
        front.len() == 0 || !alphanumeric(front.last()),
        back.len() == 0 || !alphanumeric(back[0]),
        forall|i: int, j: int|
            0 <= i < front.len() && i < j <= (front + text + back).len() ==> folded(
                #[trigger] (front + text + back).subrange(i, j),
            ) != folded(entry.0),
        !alphanumeric(text.last()) || forall|j: int|
            0 < j <= back.len() ==> folded(#[trigger] back.subrange(0, j)) != folded(entry.0),
    ensures
        respelled_entry(front + text + back, entry) == front + entry.1 + respelled_entry(
            back,
            entry,
        ),
{
    let line = front + text + back;
    let f = front.len() as int;
    lemma_first_word(front, text, back, entry);
    if f > 0 {
        assert(line[f - 1] == front.last());
    }
    if back.len() > 0 {
        assert(line[f + text.len()] == back[0]);
    }
}

/// A part of a longer word is kept: a letter or digit touches the text on one
/// side. See [`law_a_word_on_its_own_is_respelled`] for the rest.
pub proof fn law_a_part_of_a_word_is_kept(
    front: Seq<char>,
    text: Seq<char>,
    back: Seq<char>,
    entry: Pair,
)
    requires
        folded(text) == folded(entry.0),
        forall|k: int| 0 <= k < text.len() ==> folded(#[trigger] text.take(k)) != folded(entry.0),
        text.len() > 0,
        (front.len() > 0 && alphanumeric(front.last())) || (back.len() > 0 && alphanumeric(back[0])),
        forall|i: int, j: int|
            0 <= i < front.len() && i < j <= (front + text + back).len() ==> folded(
                #[trigger] (front + text + back).subrange(i, j),
            ) != folded(entry.0),
        !alphanumeric(text.last()) || forall|j: int|
            0 < j <= back.len() ==> folded(#[trigger] back.subrange(0, j)) != folded(entry.0),
    ensures
        respelled_entry(front + text + back, entry) == front + text + respelled_entry(back, entry),
{
    let line = front + text + back;
    let f = front.len() as int;
    lemma_first_word(front, text, back, entry);
    if f > 0 {
        assert(line[f - 1] == front.last());
    }
    if back.len() > 0 {
        assert(line[f + text.len()] == back[0]);
    }
}

/// A line that reads like the word nowhere is left as it is.
pub proof fn law_a_line_without_the_word_is_kept(line: Seq<char>, entry: Pair)
    requires
        forall|i: int, j: int|
            0 <= i < j <= line.len() ==> folded(#[trigger] line.subrange(i, j)) != folded(entry.0),
    ensures
        respelled_entry(line, entry) == line,
{
    assert forall|i: int, j: int| #[trigger] reads_at(line, entry.0, i, j) implies !whole_word(
        line,
        i,
        j,
    ) by {
        assert(folded(line.subrange(i, j)) != folded(entry.0));
    }
    law_only_whole_words_change(line, entry);
}

/// An entry without a word changes nothing, a table without entries neither,
/// and a table of one entry does what the entry does.
pub proof fn law_small_tables(line: Seq<char>, entry: Pair, say: Seq<char>)
    ensures
        respelled(line, Seq::empty()) == line,
        respelled(line, seq![entry]) == respelled_entry(line, entry),
        respelled_entry(line, (Seq::empty(), say)) == line,
{
    reveal_with_fuel(respelled, 2);
    assert(seq![entry].drop_first() =~= Seq::<Pair>::empty());
    lemma_nothing_is_no_word(fold_each(line), 0);
    assert(line.skip(0) =~= line);
}

proof fn lemma_nothing_is_no_word(folds: Seq<Seq<char>>, at: int)
    requires
        0 <= at <= folds.len(),
    ensures
        next_word(folds, Seq::empty(), at) is None,
    decreases folds.len() - at,
{
    if at < folds.len() {
        lemma_nothing_is_no_word(folds, at + 1);
    }
}

/// A word that directly follows a letter or digit is part of a longer one,
/// though it stands at the head of what is left: it is kept.
///
/// The line is a front, a text that ends in a letter or digit and reads like
/// the entry's word, a second such text right behind it, and a back.
pub proof fn law_a_word_touching_another_is_kept(
    front: Seq<char>,
    text: Seq<char>,
    again: Seq<char>,
    back: Seq<char>,
    entry: Pair,
)
    requires
        folded(text) == folded(entry.0),
        folded(again) == folded(entry.0),
        forall|k: int| 0 <= k < text.len() ==> folded(#[trigger] text.take(k)) != folded(entry.0),
        forall|k: int| 0 <= k < again.len() ==> folded(#[trigger] again.take(k)) != folded(entry.0),
        text.len() > 0,
        again.len() > 0,
        alphanumeric(text.last()),
        forall|i: int, j: int|
            0 <= i < front.len() && i < j <= (front + text + (again + back)).len() ==> folded(
                #[trigger] (front + text + (again + back)).subrange(i, j),
            ) != folded(entry.0),
        !alphanumeric(again.last()) || forall|j: int|
            0 < j <= back.len() ==> folded(#[trigger] back.subrange(0, j)) != folded(entry.0),
    ensures
        respelled_entry(front + text + (again + back), entry) == front + (if (front.len() == 0
            || !alphanumeric(front.last())) && !alphanumeric(again[0]) {
            entry.1
        } else {
            text
        }) + again + respelled_entry(back, entry),
{
    let rest = again + back;
    let line = front + text + rest;
    let needle = folded(entry.0);
    let f = front.len() as int;
    let e = f + text.len();
    let g = e + again.len();
    let head = front + text;
    let both = head + again;
    lemma_first_place(front, text, rest, entry);
    assert(rest =~= Seq::<char>::empty() + again + back);
    lemma_first_place(Seq::empty(), again, back, entry);
    assert(line =~= head + rest);
    lemma_next_shifted(head, rest, needle, 0);
    assert(line =~= both + back);
    lemma_next_reads(back, needle, 0);
    assert(both.last() == again.last());
    if let Some((s, t)) = next_word(fold_each(back), needle, 0) {
        assert(folded(back.subrange(s, t)) == needle);
    }
    lemma_reworded_behind(both, back, needle, entry.1, 0);
    assert(line.subrange(0, f) =~= front);
    assert(line.subrange(f, e) =~= text);
    assert(line.subrange(e, e) =~= Seq::<char>::empty());
    assert(line.subrange(e, g) =~= again);
    assert(line[e - 1] == text.last());
    assert(line[e] == again[0]);
    if f > 0 {
        assert(line[f - 1] == front.last());
    }
    let tail = reworded(line, fold_each(line), needle, entry.1, g);
    assert(reworded(line, fold_each(line), needle, entry.1, e) =~= again + tail);
    assert(respelled_entry(line, entry) =~= front + (if (front.len() == 0 || !alphanumeric(
        front.last(),
    )) && !alphanumeric(again[0]) {
        entry.1
    } else {
        text
    }) + again + tail);
}


} // verus!
