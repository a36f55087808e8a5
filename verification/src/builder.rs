//! Everything needed to turn a pasted log line into a working pattern.
use std::collections::BTreeSet;

use vstd::prelude::*;
use vstd::std_specs::iter::IteratorSpec;

use crate::text::{
    alphanumeric, ascii_alphanumeric, ascii_digit, chars_of, find, find_from, is_alphanumeric, is_ascii_digit,
    lemma_find, lemma_find_is, lemma_trim_end_behind, lemma_trim_ends_commute, stands_at, trim,
    trim_end, trim_start, trimmed, trimmed_start, white_space,
};

verus! {

/// A line without EverQuest's timestamp and the blanks around it.
pub open spec fn without_timestamp(line: Seq<char>) -> Seq<char> {
    let t = trim(line);
    if t.len() > 0 && t[0] == '[' {
        match find(t, seq![']'], 0) {
            Some(end) => trim_start(t.skip(end + 1)),
            None => t,
        }
    } else {
        t
    }
}

/// Drop EverQuest's timestamp.
///
/// Every logged line starts with "[Sun Jul 26 19:12:18 2026] ". Leaving it in
/// a pattern would build a trigger that matches exactly one second of one day
/// and never fires again, which is the first thing a hand-written trigger
/// gets wrong.
pub fn strip_timestamp(line: &str) -> (r: &str)
    ensures
        r@ == without_timestamp(line@),
{
    let t = trimmed(line);
    let c = chars_of(t);
    if c.len() > 0 && c[0] == '[' {
        let close: Vec<char> = vec![']'];
        assert(close@ =~= seq![']']);
        proof {
            lemma_find(t@, seq![']'], 0);
        }
        match find_from(&c, &close, 0) {
            Some(end) => {
                let rest = t.substring_char(end + 1, c.len());
                assert(rest@ =~= t@.skip(end + 1));
                trimmed_start(rest)
            },
            None => t,
        }
    } else {
        t
    }
}

/// A run of one kind: letters and digits, or anything but letters and digits.
pub open spec fn one_kind(s: Seq<char>, word: bool) -> bool {
    forall|i: int| 0 <= i < s.len() ==> alphanumeric(#[trigger] s[i]) == word
}

/// The texts, one after the other.
pub open spec fn joined(parts: Seq<Seq<char>>) -> Seq<char>
    decreases parts.len(),
{
    if parts.len() == 0 {
        Seq::empty()
    } else {
        joined(parts.drop_last()) + parts.last()
    }
}

/// Does the token consist of letters and digits?
pub open spec fn starts_word(token: Seq<char>) -> bool {
    token.len() > 0 && alphanumeric(token[0])
}

/// The tokens of a line: together they are the line, none is empty, each is
/// of one kind, and neighbours are of different kinds.
pub open spec fn tokens_of(line: Seq<char>, tokens: Seq<Seq<char>>) -> bool {
    &&& joined(tokens) == line
    &&& forall|i: int|
        0 <= i < tokens.len() ==> (#[trigger] tokens[i]).len() > 0 && one_kind(
            tokens[i],
            starts_word(tokens[i]),
        )
    &&& forall|i: int, j: int|
        0 <= i < tokens.len() && j == i + 1 && j < tokens.len() ==> starts_word(
            #[trigger] tokens[i],
        ) != starts_word(#[trigger] tokens[j])
}

/// Tokens and one more run, of the other kind than the last of them, are
/// tokens again.
proof fn lemma_one_more_token(done: Seq<Seq<char>>, run: Seq<char>)
    requires
        tokens_of(joined(done), done),
        run.len() > 0,
        one_kind(run, starts_word(run)),
        done.len() > 0 ==> starts_word(done.last()) != starts_word(run),
    ensures
        joined(done.push(run)) == joined(done) + run,
        tokens_of(joined(done) + run, done.push(run)),
{
    let now = done.push(run);
    assert(now.drop_last() =~= done);
    assert forall|k: int| 0 <= k < now.len() implies (#[trigger] now[k]).len() > 0 && one_kind(
        now[k],
        starts_word(now[k]),
    ) by {
        if k < done.len() {
            assert(now[k] == done[k]);
        }
    }
    assert forall|a: int, b: int|
        0 <= a < now.len() && b == a + 1 && b < now.len() implies starts_word(#[trigger] now[a])
        != starts_word(#[trigger] now[b]) by {
        assert(now[a] == done[a]);
        if b < done.len() {
            assert(now[b] == done[b]);
        }
    }
}

/// Split into runs of word characters and everything between them, so a name
/// can be picked out without dragging the punctuation around it.
///
/// An apostrophe counts as punctuation, not part of a word: EQ wraps speech
/// in them ("says, 'Hail'") far more often than names contain them, and a
/// quote swallowed into a capture would match the wrong text.
pub fn tokenize(line: &str) -> (r: Vec<String>)
    ensures
        tokens_of(line@, r.deep_view()),
{
    let c = chars_of(line);
    let mut out: Vec<String> = Vec::new();
    let mut cur = String::new();
    let mut in_word: bool = false;
    let mut i: usize = 0;
    proof {
        assert(out.deep_view() =~= Seq::<Seq<char>>::empty());
        assert(joined(out.deep_view()) + cur@ =~= line@.take(0));
    }
    while i < c.len()
        invariant
            i <= c@.len(),
            c@ == line@,
            joined(out.deep_view()) + cur@ == line@.take(i as int),
            tokens_of(joined(out.deep_view()), out.deep_view()),
            one_kind(cur@, in_word),
            i > 0 ==> cur@.len() > 0,
            i == 0 ==> cur@.len() == 0 && out@.len() == 0,
            out@.len() > 0 ==> starts_word(out.deep_view().last()) != in_word,
        decreases c@.len() - i,
    {
        let ghost was = cur@;
        let ghost done = out.deep_view();
        let w: bool = is_alphanumeric(c[i]);
        if cur.as_str().is_empty() || w == in_word {
            cur.push(c[i]);
            proof {
                assert(line@.take(i + 1) =~= line@.take(i as int).push(line@[i as int]));
                assert(joined(done) + cur@ =~= (joined(done) + was).push(line@[i as int]));
            }
        } else {
            out.push(cur);
            cur = String::new();
            cur.push(c[i]);
            proof {
                let now = out.deep_view();
                assert(now =~= done.push(was));
                lemma_one_more_token(done, was);
                assert(line@.take(i + 1) =~= line@.take(i as int).push(line@[i as int]));
                assert(joined(now) + cur@ =~= (joined(done) + was).push(line@[i as int]));
            }
        }
        in_word = w;
        i += 1;
    }
    let ghost done = out.deep_view();
    let ghost was = cur@;
    if !cur.as_str().is_empty() {
        out.push(cur);
        proof {
            assert(out.deep_view() =~= done.push(was));
            lemma_one_more_token(done, was);
        }
    }
    proof {
        assert(line@.take(line@.len() as int) =~= line@);
        assert(joined(out.deep_view()) =~= line@);
    }
    out
}

/// True for the tokens worth offering as a variable: the words, not the
/// spaces and commas between them.
pub fn is_word(tok: &str) -> (r: bool)
    ensures
        r == starts_word(tok@),
{
    let c = chars_of(tok);
    c.len() > 0 && is_alphanumeric(c[0])
}

/// All digits?
pub open spec fn all_digits(s: Seq<char>) -> bool {
    forall|i: int| 0 <= i < s.len() ==> ascii_digit(#[trigger] s[i])
}

/// The capture group for a token: a number for digits, a word for letters
/// and digits, anything for the rest.
pub open spec fn capture(token: Seq<char>) -> Seq<char> {
    if all_digits(token) {
        "(\\d+)"@
    } else if one_kind(token, true) {
        "(\\w+)"@
    } else {
        "(.+?)"@
    }
}

/// What a chosen token most likely varies over. A number stays a number,
/// because a digit capture is what makes a threshold testable later; a word
/// stays a word so punctuation still has to match.
fn capture_for(tok: &str) -> (r: &'static str)
    ensures
        r@ == capture(tok@),
{
    let c = chars_of(tok);
    let mut digits: bool = true;
    let mut letters: bool = true;
    let mut i: usize = 0;
    while i < c.len()
        invariant
            i <= c@.len(),
            digits == all_digits(c@.take(i as int)),
            letters == one_kind(c@.take(i as int), true),
        decreases c@.len() - i,
    {
        proof {
            let a = c@.take(i as int);
            let b = c@.take(i + 1);
            assert(b =~= a.push(c@[i as int]));
            assert(forall|k: int| 0 <= k < a.len() ==> a[k] == b[k]);
            assert(b[i as int] == c@[i as int]);
        }
        digits = digits && is_ascii_digit(c[i]);
        letters = letters && is_alphanumeric(c[i]);
        i += 1;
    }
    assert(c@.take(c@.len() as int) =~= c@);
    if digits {
        "(\\d+)"
    } else if letters {
        "(\\w+)"
    } else {
        "(.+?)"
    }
}

/// The characters with a meaning in a pattern.
pub open spec fn meta(c: char) -> bool {
    c == '\\' || c == '.' || c == '+' || c == '*' || c == '?' || c == '(' || c == ')' || c == '|'
        || c == '[' || c == ']' || c == '{' || c == '}' || c == '^' || c == '$'
}

/// A text with a backslash before each character that has a meaning in a
/// pattern.
pub open spec fn escaped(s: Seq<char>) -> Seq<char>
    decreases s.len(),
{
    if s.len() == 0 {
        Seq::empty()
    } else if meta(s.last()) {
        escaped(s.drop_last()).push('\\').push(s.last())
    } else {
        escaped(s.drop_last()).push(s.last())
    }
}

fn is_meta(c: char) -> (r: bool)
    ensures
        r == meta(c),
{
    c == '\\' || c == '.' || c == '+' || c == '*' || c == '?' || c == '(' || c == ')' || c == '|'
        || c == '[' || c == ']' || c == '{' || c == '}' || c == '^' || c == '$'
}

/// A text so that a pattern matches it literally.
pub fn escape(s: &str) -> (r: String)
    ensures
        r@ == escaped(s@),
{
    let c = chars_of(s);
    let mut out = String::new();
    let mut i: usize = 0;
    assert(c@.take(0) =~= Seq::<char>::empty());
    while i < c.len()
        invariant
            i <= c@.len(),
            out@ == escaped(c@.take(i as int)),
        decreases c@.len() - i,
    {
        assert(c@.take(i + 1).drop_last() =~= c@.take(i as int));
        if is_meta(c[i]) {
            out.push('\\');
        }
        out.push(c[i]);
        i += 1;
    }
    assert(c@.take(c@.len() as int) =~= c@);
    out
}

/// What a token becomes in the pattern.
pub open spec fn piece(tokens: Seq<Seq<char>>, chosen: Set<usize>, i: int) -> Seq<char> {
    if chosen.contains(i as usize) {
        capture(tokens[i])
    } else {
        escaped(tokens[i])
    }
}

/// The pieces of the pattern, token by token.
pub open spec fn pieces(tokens: Seq<Seq<char>>, chosen: Set<usize>) -> Seq<Seq<char>> {
    Seq::new(tokens.len(), |i: int| piece(tokens, chosen, i))
}

/// The pattern for the tokens of a line.
pub open spec fn pattern(tokens: Seq<Seq<char>>, chosen: Set<usize>) -> Seq<char> {
    seq!['^'] + joined(pieces(tokens, chosen))
}

/// Build the pattern: chosen tokens become capture groups, everything else is
/// matched literally and escaped, so a name containing a bracket or a full
/// stop cannot silently turn into a wildcard.
pub fn regex(tokens: &[String], chosen: &BTreeSet<usize>) -> (r: String)
    ensures
        r@ == pattern(tokens.deep_view(), chosen@),
{
    broadcast use vstd::std_specs::btree::group_btree_axioms;

    let mut out = String::new();
    out.push('^');
    let ghost all = pieces(tokens.deep_view(), chosen@);
    let mut i: usize = 0;
    proof {
        assert(all.take(0) =~= Seq::<Seq<char>>::empty());
        assert(out@ =~= seq!['^'] + joined(all.take(0)));
    }
    while i < tokens.len()
        invariant
            i <= tokens@.len(),
            all == pieces(tokens.deep_view(), chosen@),
            out@ == seq!['^'] + joined(all.take(i as int)),
        decreases tokens@.len() - i,
    {
        let ghost was = out@;
        let tok = tokens[i].as_str();
        if chosen.contains(&i) {
            out.append(capture_for(tok));
        } else {
            let e = escape(tok);
            out.append(e.as_str());
        }
        proof {
            assert(all.take(i + 1).drop_last() =~= all.take(i as int));
            assert(all.take(i + 1).last() == piece(tokens.deep_view(), chosen@, i as int));
            assert(out@ =~= seq!['^'] + joined(all.take(i + 1)));
        }
        i += 1;
    }
    assert(all.take(all.len() as int) =~= all);
    out
}

/// The number of chosen tokens before `index`.
pub open spec fn chosen_before(chosen: Set<usize>, index: int) -> nat {
    chosen.filter(|j: usize| j < index).len()
}

/// The capture number a chosen token will have, for showing "{1}" beside the
/// word it came from.
pub fn group_of(chosen: &BTreeSet<usize>, index: usize) -> (r: Option<usize>)
    ensures
        match r {
            Some(n) => chosen@.contains(index) && n == chosen_before(chosen@, index as int) + 1,
            None => !chosen@.contains(index),
        },
{
    broadcast use vstd::std_specs::btree::group_btree_axioms;

    if !chosen.contains(&index) {
        return None;
    }
    let total: usize = chosen.len();
    let ghost order: Seq<usize> = chosen.iter().remaining().unref();
    let mut n: usize = 0;
    proof {
        assert(order.take(0).to_set().filter(|j: usize| j < index as int) =~= Set::empty());
    }
    for k in it: chosen.iter()
        invariant
            order == it.seq().unref(),
            order.no_duplicates(),
            n == chosen_before(order.take(it.index() as int).to_set(), index as int),
            n <= it.index() <= order.len(),
            order.len() == total,
    {
        proof {
            lemma_count_step(order, it.index() as int, index as int);
        }
        if *k < index {
            n += 1;
        }
    }
    proof {
        assert(order.take(order.len() as int) =~= order);
        lemma_room_for_one_more(order, chosen@, index);
    }
    Some(n + 1)
}

/// One member more is counted if it is below `index`.
proof fn lemma_count_step(order: Seq<usize>, i: int, index: int)
    requires
        order.no_duplicates(),
        0 <= i < order.len(),
    ensures
        chosen_before(order.take(i + 1).to_set(), index) == chosen_before(
            order.take(i).to_set(),
            index,
        ) + (if order[i] < index {
            1nat
        } else {
            0nat
        }),
{
    broadcast use vstd::seq_lib::group_seq_properties;

    let a = order.take(i).to_set();
    let b = order.take(i + 1).to_set();
    let below = |j: usize| j < index;
    assert(order.take(i + 1) =~= order.take(i).push(order[i]));
    assert(!a.contains(order[i]));
    assert(b =~= a.insert(order[i]));
    if order[i] < index {
        assert(b.filter(below) =~= a.filter(below).insert(order[i]));
    } else {
        assert(b.filter(below) =~= a.filter(below));
    }
}

/// The members below `index` are fewer than all, if `index` is one of them.
proof fn lemma_room_for_one_more(order: Seq<usize>, chosen: Set<usize>, index: usize)
    requires
        order.no_duplicates(),
        order.to_set() == chosen,
        chosen.contains(index),
    ensures
        chosen_before(chosen, index as int) < order.len(),
{
    let below = chosen.filter(|j: usize| j < index as int);
    order.unique_seq_to_set();
    assert(below.subset_of(chosen.remove(index)));
    vstd::set_lib::lemma_len_subset(below, chosen.remove(index));
}

// ---------------------------------------------------------------------------
// Laws
// ---------------------------------------------------------------------------
/// Whatever stands in brackets at the head of a line goes, and so do the
/// blanks around the rest: only the rest can end up in a pattern.
pub proof fn law_timestamp_goes(stamp: Seq<char>, rest: Seq<char>)
    requires
        !stamp.contains(']'),
    ensures
        without_timestamp(seq!['['] + stamp + seq![']'] + rest) == trim(rest),
{
    let head = seq!['['] + stamp + seq![']'];
    let line = head + rest;
    let t = trim(line);
    let end = stamp.len() as int + 1;
    assert(line[0] == '[');
    assert(trim_start(line) == line);
    lemma_trim_end_behind(head, rest);
    assert(t == head + trim_end(rest));
    assert(stands_at(t, seq![']'], end)) by {
        assert(t.subrange(end, end + 1) =~= seq![']']);
    }
    assert forall|j: int| 0 <= j < end implies !stands_at(t, seq![']'], j) by {
        if j > 0 {
            assert(t[j] == stamp[j - 1]);
            assert(stamp.contains(t[j]));
        }
        assert(t.subrange(j, j + 1)[0] == t[j]);
    }
    lemma_find_is(t, seq![']'], 0, end);
    assert(t.skip(end + 1) =~= trim_end(rest));
    lemma_trim_ends_commute(rest);
}

/// A line can be split into tokens in one way only.
pub proof fn law_one_tokenization(line: Seq<char>, a: Seq<Seq<char>>, b: Seq<Seq<char>>)
    requires
        tokens_of(line, a),
        tokens_of(line, b),
    ensures
        a == b,
    decreases a.len(),
{
    if a.len() == 0 || b.len() == 0 {
        if a.len() > 0 {
            assert(joined(a).len() >= a.last().len());
        }
        if b.len() > 0 {
            assert(joined(b).len() >= b.last().len());
        }
        assert(a =~= b);
    } else {
        let x = a.last();
        let y = b.last();
        lemma_last_token_is_whole(line, a, b);
        lemma_last_token_is_whole(line, b, a);
        let n = line.len() - x.len();
        assert(x =~= line.skip(n));
        assert(y =~= line.skip(n));
        assert(joined(a.drop_last()) =~= line.take(n));
        assert(joined(b.drop_last()) =~= line.take(n));
        lemma_front_tokens(line, a);
        lemma_front_tokens(line, b);
        law_one_tokenization(line.take(n), a.drop_last(), b.drop_last());
        assert(a =~= a.drop_last().push(x));
        assert(b =~= b.drop_last().push(y));
    }
}

/// No tokenization can end in a longer token than another.
proof fn lemma_last_token_is_whole(line: Seq<char>, a: Seq<Seq<char>>, b: Seq<Seq<char>>)
    requires
        tokens_of(line, a),
        tokens_of(line, b),
        a.len() > 0,
        b.len() > 0,
    ensures
        b.last().len() <= a.last().len(),
{
    if a.last().len() < b.last().len() {
        let x = a.last();
        let y = b.last();
        let front = joined(a.drop_last());
        let n = front.len();
        assert(line == front + x);
        assert(line == joined(b.drop_last()) + y);
        let m = joined(b.drop_last()).len();
        assert(m < n);
        assert(a.drop_last().len() > 0);
        // The character before the shorter token belongs to its neighbour.
        let w = a[a.len() - 2];
        assert(a.drop_last().last() == w);
        assert(front[n - 1] == w.last());
        assert(starts_word(w) != starts_word(a[a.len() - 1]));
        assert(alphanumeric(w.last()) == starts_word(w)) by {
            assert(w[w.len() - 1] == w.last());
        }
        assert(alphanumeric(x[0]) == starts_word(x));
        // In the longer token both are of one kind.
        assert(line[n - 1] == y[n - 1 - m]);
        assert(line[n as int] == y[n - m]);
        assert(line[n as int] == x[0]);
        assert(y == b[b.len() - 1]);
    }
}

/// All but the last token are the tokens of what is in front of it.
proof fn lemma_front_tokens(line: Seq<char>, a: Seq<Seq<char>>)
    requires
        tokens_of(line, a),
        a.len() > 0,
    ensures
        tokens_of(line.take(line.len() - a.last().len()), a.drop_last()),
{
    let f = a.drop_last();
    assert(line.take(line.len() - a.last().len()) =~= joined(f));
    assert forall|i: int| 0 <= i < f.len() implies (#[trigger] f[i]).len() > 0 && one_kind(
        f[i],
        starts_word(f[i]),
    ) by {
        assert(f[i] == a[i]);
    }
    assert forall|i: int, j: int| 0 <= i < f.len() && j == i + 1 && j < f.len() implies starts_word(
        #[trigger] f[i],
    ) != starts_word(#[trigger] f[j]) by {
        assert(f[i] == a[i] && f[j] == a[j]);
    }
}

/// The text that a pattern matches literally; none where a character in it
/// has a meaning of its own.
pub open spec fn literal(p: Seq<char>) -> Option<Seq<char>>
    decreases p.len(),
{
    if p.len() == 0 {
        Some(Seq::empty())
    } else if p[0] == '\\' {
        if p.len() < 2 {
            None
        } else {
            match literal(p.skip(2)) {
                Some(rest) => Some(seq![p[1]] + rest),
                None => None,
            }
        }
    } else if meta(p[0]) {
        None
    } else {
        match literal(p.skip(1)) {
            Some(rest) => Some(seq![p[0]] + rest),
            None => None,
        }
    }
}

/// An escaped text matches itself and nothing else: no character of it keeps
/// a meaning of its own.
pub proof fn law_escaped_is_literal(s: Seq<char>)
    ensures
        literal(escaped(s)) == Some(s),
    decreases s.len(),
{
    if s.len() == 0 {
        assert(s =~= Seq::<char>::empty());
    } else {
        let rest = s.drop_first();
        law_escaped_is_literal(rest);
        lemma_escaped_front(s);
        let p = escaped(s);
        if meta(s[0]) {
            assert(p.skip(2) =~= escaped(rest));
        } else {
            assert(p.skip(1) =~= escaped(rest));
        }
        assert(s =~= seq![s[0]] + rest);
    }
}

/// Escaping goes character by character from the front as well.
proof fn lemma_escaped_front(s: Seq<char>)
    requires
        s.len() > 0,
    ensures
        escaped(s) == (if meta(s[0]) {
            seq!['\\', s[0]]
        } else {
            seq![s[0]]
        }) + escaped(s.drop_first()),
    decreases s.len(),
{
    let head = if meta(s[0]) {
        seq!['\\', s[0]]
    } else {
        seq![s[0]]
    };
    if s.len() == 1 {
        assert(s.drop_last() =~= Seq::<char>::empty());
        assert(s.drop_first() =~= Seq::<char>::empty());
        assert(escaped(s) =~= head + escaped(s.drop_first()));
    } else {
        lemma_escaped_front(s.drop_last());
        assert(s.drop_last().drop_first() =~= s.drop_first().drop_last());
        assert(escaped(s) =~= head + escaped(s.drop_first()));
    }
}

/// The number of capture groups that a pattern opens. A backslash takes its
/// meaning from the character behind it.
pub open spec fn groups(p: Seq<char>) -> nat
    decreases p.len(),
{
    if p.len() == 0 {
        0
    } else if p[0] == '\\' {
        if p.len() < 2 {
            0
        } else {
            groups(p.skip(2))
        }
    } else if p[0] == '(' {
        1 + groups(p.skip(1))
    } else {
        groups(p.skip(1))
    }
}

/// Every backslash has a character behind it.
spec fn complete(p: Seq<char>) -> bool
    decreases p.len(),
{
    if p.len() == 0 {
        true
    } else if p[0] == '\\' {
        p.len() >= 2 && complete(p.skip(2))
    } else {
        complete(p.skip(1))
    }
}

proof fn lemma_groups_add(a: Seq<char>, b: Seq<char>)
    requires
        complete(a),
    ensures
        groups(a + b) == groups(a) + groups(b),
        complete(b) ==> complete(a + b),
    decreases a.len(),
{
    if a.len() == 0 {
        assert(a + b =~= b);
    } else if a[0] == '\\' {
        assert((a + b).skip(2) =~= a.skip(2) + b);
        lemma_groups_add(a.skip(2), b);
    } else {
        assert((a + b).skip(1) =~= a.skip(1) + b);
        lemma_groups_add(a.skip(1), b);
    }
}

proof fn lemma_groups_escaped(s: Seq<char>)
    ensures
        groups(escaped(s)) == 0,
        complete(escaped(s)),
    decreases s.len(),
{
    if s.len() > 0 {
        let rest = s.drop_first();
        lemma_groups_escaped(rest);
        lemma_escaped_front(s);
        let p = escaped(s);
        if meta(s[0]) {
            assert(p.skip(2) =~= escaped(rest));
        } else {
            assert(p.skip(1) =~= escaped(rest));
        }
    }
}

proof fn lemma_groups_capture(token: Seq<char>)
    ensures
        groups(capture(token)) == 1,
        complete(capture(token)),
{
    reveal_strlit("(\\d+)");
    reveal_strlit("(\\w+)");
    reveal_strlit("(.+?)");
    reveal_with_fuel(groups, 6);
    reveal_with_fuel(complete, 6);
    let p = capture(token);
    if all_digits(token) {
        assert(p =~= seq!['(', '\\', 'd', '+', ')']);
    } else if one_kind(token, true) {
        assert(p =~= seq!['(', '\\', 'w', '+', ')']);
    } else {
        assert(p =~= seq!['(', '.', '+', '?', ')']);
    }
}

/// A chosen token opens the group with the number that [`group_of`] gives it:
/// the tokens before it open one group less.
pub proof fn law_group_of_numbers_the_group(tokens: Seq<Seq<char>>, chosen: Set<usize>, i: usize)
    requires
        chosen.finite(),
        i < tokens.len(),
        tokens.len() <= usize::MAX,
        chosen.contains(i),
    ensures
        groups(pattern(tokens.take(i as int), chosen)) == chosen_before(chosen, i as int),
        groups(pattern(tokens.take(i + 1), chosen)) == chosen_before(chosen, i as int) + 1,
{
    law_one_group_per_choice(tokens.take(i as int), chosen);
    law_one_group_per_choice(tokens.take(i + 1), chosen);
    assert(chosen.filter(|j: usize| j < i + 1) =~= chosen.filter(|j: usize| j < i as int).insert(
        i,
    ));
}

/// The pattern opens one capture group for each chosen token of the line.
pub proof fn law_one_group_per_choice(tokens: Seq<Seq<char>>, chosen: Set<usize>)
    requires
        chosen.finite(),
        tokens.len() <= usize::MAX,
    ensures
        groups(pattern(tokens, chosen)) == chosen_before(chosen, tokens.len() as int),
{
    let parts = pieces(tokens, chosen);
    lemma_groups_joined(tokens, chosen);
    assert(groups(seq!['^']) == 0 && complete(seq!['^'])) by {
        reveal_with_fuel(groups, 2);
        reveal_with_fuel(complete, 2);
        assert(seq!['^'].skip(1) =~= Seq::<char>::empty());
    }
    lemma_groups_add(seq!['^'], joined(parts));
}

proof fn lemma_groups_joined(tokens: Seq<Seq<char>>, chosen: Set<usize>)
    requires
        chosen.finite(),
        tokens.len() <= usize::MAX,
    ensures
        groups(joined(pieces(tokens, chosen))) == chosen_before(chosen, tokens.len() as int),
        complete(joined(pieces(tokens, chosen))),
    decreases tokens.len(),
{
    let parts = pieces(tokens, chosen);
    if tokens.len() == 0 {
        assert(chosen.filter(|j: usize| j < 0int) =~= Set::empty());
    } else {
        let n = tokens.len() - 1;
        let front = tokens.drop_last();
        lemma_groups_joined(front, chosen);
        assert(parts.drop_last() =~= pieces(front, chosen));
        let last = piece(tokens, chosen, n);
        lemma_groups_escaped(tokens[n]);
        lemma_groups_capture(tokens[n]);
        lemma_groups_add(joined(parts.drop_last()), last);
        let a = chosen.filter(|j: usize| j < n);
        let b = chosen.filter(|j: usize| j < n + 1);
        if chosen.contains(n as usize) {
            assert(b =~= a.insert(n as usize));
        } else {
            assert(b =~= a);
        }
    }
}

/// Escaping goes text by text, and so character by character.
pub proof fn law_escaped_adds(a: Seq<char>, b: Seq<char>)
    ensures
        escaped(a + b) == escaped(a) + escaped(b),
    decreases b.len(),
{
    if b.len() == 0 {
        assert(a + b =~= a);
        assert(escaped(a) + escaped(b) =~= escaped(a));
    } else {
        assert((a + b).drop_last() =~= a + b.drop_last());
        law_escaped_adds(a, b.drop_last());
        assert(escaped(a + b) =~= escaped(a) + escaped(b));
    }
}

/// A character with a meaning in a pattern gets a backslash; any other stays
/// as it is.
pub proof fn law_escaped_character(c: char)
    ensures
        escaped(seq![c]) == if meta(c) {
            seq!['\\', c]
        } else {
            seq![c]
        },
{
    reveal_with_fuel(escaped, 2);
    assert(seq![c].drop_last() =~= Seq::<char>::empty());
    assert(escaped(seq![c]) =~= if meta(c) {
        seq!['\\', c]
    } else {
        seq![c]
    });
}

/// Different texts are escaped differently.
pub proof fn law_escaping_loses_nothing(a: Seq<char>, b: Seq<char>)
    requires
        escaped(a) == escaped(b),
    ensures
        a == b,
{
    law_escaped_is_literal(a);
    law_escaped_is_literal(b);
}

// ---------------------------------------------------------------------------
// What a pattern matches
// ---------------------------------------------------------------------------
/// Is the text made of letters A to Z and a to z, digits and underscores?
pub open spec fn plain_word(s: Seq<char>) -> bool {
    forall|i: int| 0 <= i < s.len() ==> ascii_alphanumeric(#[trigger] s[i]) || s[i] == '_'
}

/// Does the pattern begin with this capture group?
pub open spec fn opens_with(p: Seq<char>, group: Seq<char>) -> bool {
    p.len() >= 5 && p.take(5) == group
}

/// Can a capture group hold this text? It holds at least one character:
/// digits, characters of words, or anything within a line. Of the digits and
/// the characters of words, those of ASCII are told here.
pub open spec fn held_by(group: Seq<char>, text: Seq<char>) -> bool {
    &&& text.len() > 0
    &&& if group == "(\\d+)"@ {
        all_digits(text)
    } else if group == "(\\w+)"@ {
        plain_word(text)
    } else {
        !text.contains('\n')
    }
}

/// Does a pattern of literal text and of the three capture groups match all
/// of a text, with these texts in its groups? It may end in a dollar sign,
/// which stands for the end.
pub open spec fn accepts(p: Seq<char>, text: Seq<char>, held: Seq<Seq<char>>) -> bool
    decreases p.len(),
{
    if p.len() == 0 {
        text.len() == 0 && held.len() == 0
    } else if opens_with(p, "(\\d+)"@) || opens_with(p, "(\\w+)"@) || opens_with(p, "(.+?)"@) {
        &&& held.len() > 0
        &&& held[0].len() <= text.len()
        &&& text.take(held[0].len() as int) == held[0]
        &&& held_by(p.take(5), held[0])
        &&& accepts(p.skip(5), text.skip(held[0].len() as int), held.drop_first())
    } else if p.len() == 1 && p[0] == '$' {
        text.len() == 0 && held.len() == 0
    } else if p[0] == '\\' {
        &&& p.len() >= 2
        &&& meta(p[1])
        &&& text.len() > 0
        &&& text[0] == p[1]
        &&& accepts(p.skip(2), text.skip(1), held)
    } else {
        &&& !meta(p[0])
        &&& text.len() > 0
        &&& text[0] == p[0]
        &&& accepts(p.skip(1), text.skip(1), held)
    }
}

/// Does a pattern that starts at the head of a line match all of the line,
/// with these texts in its groups?
pub open spec fn matches_line(p: Seq<char>, line: Seq<char>, held: Seq<Seq<char>>) -> bool {
    p.len() > 0 && p[0] == '^' && accepts(p.skip(1), line, held)
}

/// The chosen tokens from the `k`th token on, in order.
pub open spec fn chosen_from(tokens: Seq<Seq<char>>, chosen: Set<usize>, k: int) -> Seq<Seq<char>>
    decreases tokens.len() - k,
{
    if k < 0 || k >= tokens.len() {
        Seq::empty()
    } else if chosen.contains(k as usize) {
        seq![tokens[k]] + chosen_from(tokens, chosen, k + 1)
    } else {
        chosen_from(tokens, chosen, k + 1)
    }
}

/// The chosen tokens, in order.
pub open spec fn chosen_tokens(tokens: Seq<Seq<char>>, chosen: Set<usize>) -> Seq<Seq<char>> {
    chosen_from(tokens, chosen, 0)
}

/// The texts from the `k`th on, one after the other.
pub open spec fn joined_from(parts: Seq<Seq<char>>, k: int) -> Seq<char>
    decreases parts.len() - k,
{
    if k < 0 || k >= parts.len() {
        Seq::empty()
    } else {
        parts[k] + joined_from(parts, k + 1)
    }
}

proof fn lemma_joined_from(parts: Seq<Seq<char>>, k: int)
    requires
        0 <= k <= parts.len(),
    ensures
        joined(parts) == joined(parts.take(k)) + joined_from(parts, k),
    decreases parts.len() - k,
{
    if k == parts.len() {
        assert(parts.take(k) =~= parts);
        assert(joined(parts) =~= joined(parts.take(k)) + joined_from(parts, k));
    } else {
        lemma_joined_from(parts, k + 1);
        assert(parts.take(k + 1).drop_last() =~= parts.take(k));
        assert(joined(parts) =~= joined(parts.take(k)) + joined_from(parts, k));
    }
}

/// An escaped text in front of a pattern stands for itself.
proof fn lemma_accepts_escaped(t: Seq<char>, p: Seq<char>, text: Seq<char>, held: Seq<Seq<char>>)
    ensures
        accepts(escaped(t) + p, text, held) <==> t.len() <= text.len() && text.take(t.len() as int)
            == t && accepts(p, text.skip(t.len() as int), held),
    decreases t.len(),
{
    if t.len() == 0 {
        assert(escaped(t) + p =~= p);
        assert(text.take(0) =~= t);
        assert(text.skip(0) =~= text);
    } else {
        reveal_strlit("(\\d+)");
        reveal_strlit("(\\w+)");
        reveal_strlit("(.+?)");
        let rest = t.drop_first();
        let whole = escaped(t) + p;
        let n = t.len() as int;
        lemma_escaped_front(t);
        assert(whole[0] != '(' && whole[0] != '$');
        assert(whole.len() >= 5 ==> whole.take(5)[0] == whole[0]);
        if text.len() > 0 {
            lemma_accepts_escaped(rest, p, text.skip(1), held);
            if meta(t[0]) {
                assert(whole.skip(2) =~= escaped(rest) + p);
            } else {
                assert(whole.skip(1) =~= escaped(rest) + p);
            }
            if n <= text.len() {
                assert(text.skip(1).skip(n - 1) =~= text.skip(n));
                if text.take(n) == t {
                    assert(text.take(n)[0] == text[0]);
                    assert(text.skip(1).take(n - 1) =~= rest);
                }
                if text[0] == t[0] && text.skip(1).take(n - 1) == rest {
                    assert(t =~= seq![t[0]] + rest);
                    assert(text.take(n) =~= seq![text[0]] + text.skip(1).take(n - 1));
                }
            }
        }
    }
}

/// An escaped text matches itself and nothing else.
pub proof fn law_escaped_matches_only_itself(t: Seq<char>, text: Seq<char>, held: Seq<Seq<char>>)
    ensures
        accepts(escaped(t), text, held) <==> text == t && held.len() == 0,
{
    lemma_accepts_escaped(t, Seq::empty(), text, held);
    assert(escaped(t) + Seq::<char>::empty() =~= escaped(t));
    if text == t {
        assert(text.take(t.len() as int) =~= t);
    }
    if t.len() == text.len() {
        assert(text.take(t.len() as int) =~= text);
    }
}

/// From head to end, the pattern of an escaped text matches that text and no
/// other.
pub proof fn law_an_escaped_line_matches_only_itself(
    t: Seq<char>,
    text: Seq<char>,
    held: Seq<Seq<char>>,
)
    ensures
        matches_line(seq!['^'] + escaped(t) + seq!['$'], text, held) <==> text == t && held.len()
            == 0,
{
    let end = seq!['$'];
    assert((seq!['^'] + escaped(t) + end).skip(1) =~= escaped(t) + end);
    lemma_accepts_escaped(t, end, text, held);
    let rest = text.skip(t.len() as int);
    if t.len() <= text.len() {
        assert(accepts(end, rest, held) <==> rest.len() == 0 && held.len() == 0);
        if rest.len() == 0 {
            assert(text.take(t.len() as int) =~= text);
        }
    }
    if text == t {
        assert(text.take(t.len() as int) =~= t);
    }
}

/// A capture group in front of a pattern holds the first text.
proof fn lemma_accepts_group(
    token: Seq<char>,
    p: Seq<char>,
    text: Seq<char>,
    held: Seq<Seq<char>>,
)
    ensures
        accepts(capture(token) + p, text, held) <==> {
            &&& held.len() > 0
            &&& held[0].len() <= text.len()
            &&& text.take(held[0].len() as int) == held[0]
            &&& held_by(capture(token), held[0])
            &&& accepts(p, text.skip(held[0].len() as int), held.drop_first())
        },
{
    reveal_strlit("(\\d+)");
    reveal_strlit("(\\w+)");
    reveal_strlit("(.+?)");
    let whole = capture(token) + p;
    assert(whole.take(5) =~= capture(token));
    assert(whole.skip(5) =~= p);
}

/// Are the chosen tokens such that their groups are known to hold them? They
/// stay within a line, and the words among them are plain.
pub open spec fn holdable(tokens: Seq<Seq<char>>, chosen: Set<usize>) -> bool {
    forall|i: int|
        0 <= i < tokens.len() && chosen.contains(i as usize) ==> {
            &&& one_kind(#[trigger] tokens[i], true) ==> plain_word(tokens[i])
            &&& !tokens[i].contains('\n')
        }
}

/// A pattern matches the line it was built from, and its groups hold the
/// chosen tokens.
pub proof fn law_pattern_matches_its_line(
    line: Seq<char>,
    tokens: Seq<Seq<char>>,
    chosen: Set<usize>,
)
    requires
        tokens_of(line, tokens),
        tokens.len() <= usize::MAX,
        holdable(tokens, chosen),
    ensures
        matches_line(pattern(tokens, chosen), line, chosen_tokens(tokens, chosen)),
{
    let parts = pieces(tokens, chosen);
    lemma_matches_from(tokens, chosen, 0);
    lemma_joined_from(tokens, 0);
    lemma_joined_from(parts, 0);
    assert(tokens.take(0) =~= Seq::<Seq<char>>::empty());
    assert(parts.take(0) =~= Seq::<Seq<char>>::empty());
    assert(joined_from(tokens, 0) =~= line);
    assert(pattern(tokens, chosen).skip(1) =~= joined_from(parts, 0));
}

proof fn lemma_matches_from(tokens: Seq<Seq<char>>, chosen: Set<usize>, k: int)
    requires
        0 <= k <= tokens.len() <= usize::MAX,
        forall|i: int| 0 <= i < tokens.len() ==> (#[trigger] tokens[i]).len() > 0,
        holdable(tokens, chosen),
    ensures
        accepts(
            joined_from(pieces(tokens, chosen), k),
            joined_from(tokens, k),
            chosen_from(tokens, chosen, k),
        ),
    decreases tokens.len() - k,
{
    if k < tokens.len() {
        lemma_matches_from(tokens, chosen, k + 1);
        let parts = pieces(tokens, chosen);
        let t = tokens[k];
        let text = joined_from(tokens, k);
        let held = chosen_from(tokens, chosen, k);
        let n = t.len() as int;
        assert(parts[k] == piece(tokens, chosen, k));
        assert(text.take(n) =~= t);
        assert(text.skip(n) =~= joined_from(tokens, k + 1));
        if chosen.contains(k as usize) {
            lemma_accepts_group(t, joined_from(parts, k + 1), text, held);
            assert(held.drop_first() =~= chosen_from(tokens, chosen, k + 1));
            lemma_groups_differ();
        } else {
            lemma_accepts_escaped(t, joined_from(parts, k + 1), text, held);
        }
    }
}

proof fn lemma_groups_differ()
    ensures
        "(\\d+)"@ != "(\\w+)"@,
        "(\\d+)"@ != "(.+?)"@,
        "(\\w+)"@ != "(.+?)"@,
{
    reveal_strlit("(\\d+)");
    reveal_strlit("(\\w+)");
    reveal_strlit("(.+?)");
    assert("(\\d+)"@[2] != "(\\w+)"@[2]);
    assert("(\\d+)"@[1] != "(.+?)"@[1]);
    assert("(\\w+)"@[1] != "(.+?)"@[1]);
}

/// Is the text ASCII, and without underscores?
pub open spec fn plain_line(s: Seq<char>) -> bool {
    forall|i: int| 0 <= i < s.len() ==> #[trigger] s[i] <= '\u{7f}' && s[i] != '_'
}

/// On a plain line with words chosen, the pattern as a whole does what it was
/// built for. It matches the line; there is one group for each choice; the
/// group with the number that [`group_of`] gives a chosen token (counted from
/// one) holds that token; and there is no other way to match the line.
pub proof fn law_groups_hold_the_chosen_tokens(
    line: Seq<char>,
    tokens: Seq<Seq<char>>,
    chosen: Set<usize>,
)
    requires
        tokens_of(line, tokens),
        tokens.len() <= usize::MAX,
        plain_line(line),
        chosen.finite(),
        forall|i: usize| #[trigger]
            chosen.contains(i) ==> i < tokens.len() && starts_word(tokens[i as int]),
    ensures
        matches_line(pattern(tokens, chosen), line, chosen_tokens(tokens, chosen)),
        forall|held: Seq<Seq<char>>| #[trigger]
            matches_line(pattern(tokens, chosen), line, held) ==> held == chosen_tokens(
                tokens,
                chosen,
            ),
        chosen_tokens(tokens, chosen).len() == chosen.len(),
        groups(pattern(tokens, chosen)) == chosen.len(),
        forall|i: usize| #[trigger]
            chosen.contains(i) ==> chosen_before(chosen, i as int) < chosen.len() && chosen_tokens(
                tokens,
                chosen,
            )[chosen_before(chosen, i as int) as int] == tokens[i as int],
{
    let parts = pieces(tokens, chosen);
    lemma_joined_from(tokens, 0);
    lemma_joined_from(parts, 0);
    assert(tokens.take(0) =~= Seq::<Seq<char>>::empty());
    assert(parts.take(0) =~= Seq::<Seq<char>>::empty());
    assert(joined_from(tokens, 0) =~= line);
    assert(pattern(tokens, chosen).skip(1) =~= joined_from(parts, 0));
    lemma_plain_tokens(tokens, 0);
    lemma_words_are_holdable(tokens, chosen);
    law_pattern_matches_its_line(line, tokens, chosen);
    assert forall|held: Seq<Seq<char>>| #[trigger]
        matches_line(pattern(tokens, chosen), line, held) implies held == chosen_tokens(
        tokens,
        chosen,
    ) by {
        lemma_matches_one_way(tokens, chosen, 0, held);
    }
    law_one_group_per_choice(tokens, chosen);
    assert(chosen.filter(|j: usize| j < tokens.len() as int) =~= chosen);
    assert(chosen.filter(|j: usize| j < 0int) =~= Set::empty());
    assert(chosen_before(chosen, 0) == 0);
    lemma_chosen_from_len(tokens, chosen, 0);
    assert forall|i: usize| #[trigger] chosen.contains(i) implies chosen_before(chosen, i as int)
        < chosen.len() && chosen_tokens(tokens, chosen)[chosen_before(chosen, i as int) as int]
        == tokens[i as int] by {
        lemma_chosen_from_at(tokens, chosen, 0, i);
    }
}

/// The tokens of a plain line are plain.
proof fn lemma_plain_tokens(tokens: Seq<Seq<char>>, k: int)
    requires
        0 <= k <= tokens.len(),
        plain_line(joined_from(tokens, k)),
    ensures
        forall|i: int| k <= i < tokens.len() ==> plain_line(#[trigger] tokens[i]),
    decreases tokens.len() - k,
{
    if k < tokens.len() {
        let text = joined_from(tokens, k);
        let n = tokens[k].len() as int;
        let rest = joined_from(tokens, k + 1);
        assert forall|i: int| 0 <= i < rest.len() implies #[trigger] rest[i] <= '\u{7f}' && rest[i]
            != '_' by {
            assert(rest[i] == text[n + i]);
        }
        lemma_plain_tokens(tokens, k + 1);
        assert forall|i: int| 0 <= i < n implies #[trigger] tokens[k][i] <= '\u{7f}'
            && tokens[k][i] != '_' by {
            assert(tokens[k][i] == text[i]);
        }
    }
}

/// Plain words are held by their groups.
proof fn lemma_words_are_holdable(tokens: Seq<Seq<char>>, chosen: Set<usize>)
    requires
        tokens.len() <= usize::MAX,
        forall|i: int| 0 <= i < tokens.len() ==> plain_line(#[trigger] tokens[i]),
        forall|i: int|
            0 <= i < tokens.len() ==> one_kind(#[trigger] tokens[i], starts_word(tokens[i])),
        forall|i: usize| #[trigger]
            chosen.contains(i) ==> i < tokens.len() && starts_word(tokens[i as int]),
    ensures
        holdable(tokens, chosen),
{
    assert forall|i: int| 0 <= i < tokens.len() && chosen.contains(i as usize) implies {
        &&& one_kind(#[trigger] tokens[i], true) ==> plain_word(tokens[i])
        &&& !tokens[i].contains('\n')
    } by {
        let t = tokens[i];
        assert(one_kind(t, true));
        assert forall|j: int| 0 <= j < t.len() implies ascii_alphanumeric(#[trigger] t[j]) by {
            assert(alphanumeric(t[j]));
            assert(t[j] <= '\u{7f}');
        }
    }
}

/// A plain line is matched in one way only: a group can neither stop within
/// its word nor reach beyond it.
proof fn lemma_matches_one_way(
    tokens: Seq<Seq<char>>,
    chosen: Set<usize>,
    k: int,
    held: Seq<Seq<char>>,
)
    requires
        0 <= k <= tokens.len() <= usize::MAX,
        forall|i: int|
            0 <= i < tokens.len() ==> plain_line(#[trigger] tokens[i]) && tokens[i].len() > 0
                && one_kind(tokens[i], starts_word(tokens[i])),
        forall|i: int, j: int|
            0 <= i < tokens.len() && j == i + 1 && j < tokens.len() ==> starts_word(
                #[trigger] tokens[i],
            ) != starts_word(#[trigger] tokens[j]),
        forall|i: usize| #[trigger]
            chosen.contains(i) ==> i < tokens.len() && starts_word(tokens[i as int]),
        accepts(joined_from(pieces(tokens, chosen), k), joined_from(tokens, k), held),
    ensures
        held == chosen_from(tokens, chosen, k),
    decreases tokens.len() - k,
{
    if k == tokens.len() {
        assert(held =~= chosen_from(tokens, chosen, k));
    } else {
        let parts = pieces(tokens, chosen);
        let t = tokens[k];
        let text = joined_from(tokens, k);
        let rest = joined_from(tokens, k + 1);
        let rest_pattern = joined_from(parts, k + 1);
        let n = t.len() as int;
        assert(parts[k] == piece(tokens, chosen, k));
        assert(text.skip(n) =~= rest);
        if chosen.contains(k as usize) {
            lemma_accepts_group(t, rest_pattern, text, held);
            let h = held[0];
            let m = h.len() as int;
            assert(one_kind(t, true));
            if m > n {
                lemma_groups_differ();
                assert(h[n] == text[n]);
                assert(rest[0] == text[n]);
                assert(k + 1 < tokens.len());
                assert(rest[0] == tokens[k + 1][0]);
                assert(starts_word(tokens[k]) != starts_word(tokens[k + 1]));
                assert(tokens[k + 1][0] <= '\u{7f}' && tokens[k + 1][0] != '_');
            }
            if m < n {
                let left = text.skip(m);
                assert(left[0] == t[m]);
                assert(alphanumeric(t[m]));
                if k + 1 < tokens.len() {
                    let next = tokens[k + 1];
                    assert(starts_word(tokens[k]) != starts_word(tokens[k + 1]));
                    assert(!chosen.contains((k + 1) as usize));
                    assert(parts[k + 1] == escaped(next));
                    lemma_accepts_escaped(next, joined_from(parts, k + 2), left, held.drop_first());
                    assert(left.take(next.len() as int)[0] == left[0]);
                }
            }
            assert(m == n);
            assert(h =~= t);
            lemma_matches_one_way(tokens, chosen, k + 1, held.drop_first());
            assert(held =~= seq![t] + held.drop_first());
        } else {
            lemma_accepts_escaped(t, rest_pattern, text, held);
            lemma_matches_one_way(tokens, chosen, k + 1, held);
        }
    }
}

/// Counting one token further.
proof fn lemma_chosen_before_step(chosen: Set<usize>, k: int)
    requires
        chosen.finite(),
        0 <= k <= usize::MAX,
    ensures
        chosen_before(chosen, k + 1) == chosen_before(chosen, k) + (if chosen.contains(k as usize) {
            1nat
        } else {
            0nat
        }),
{
    let a = chosen.filter(|j: usize| j < k);
    let b = chosen.filter(|j: usize| j < k + 1);
    if chosen.contains(k as usize) {
        assert(b =~= a.insert(k as usize));
    } else {
        assert(b =~= a);
    }
}

proof fn lemma_chosen_from_len(tokens: Seq<Seq<char>>, chosen: Set<usize>, k: int)
    requires
        chosen.finite(),
        0 <= k <= tokens.len() <= usize::MAX,
    ensures
        chosen_from(tokens, chosen, k).len() + chosen_before(chosen, k) == chosen_before(
            chosen,
            tokens.len() as int,
        ),
    decreases tokens.len() - k,
{
    if k < tokens.len() {
        lemma_chosen_from_len(tokens, chosen, k + 1);
        lemma_chosen_before_step(chosen, k);
    }
}

/// Where a chosen token stands among the chosen ones.
proof fn lemma_chosen_from_at(tokens: Seq<Seq<char>>, chosen: Set<usize>, k: int, i: usize)
    requires
        chosen.finite(),
        0 <= k <= i < tokens.len() <= usize::MAX,
        chosen.contains(i),
    ensures
        chosen_before(chosen, k) <= chosen_before(chosen, i as int),
        chosen_before(chosen, i as int) - chosen_before(chosen, k) < chosen_from(
            tokens,
            chosen,
            k,
        ).len(),
        chosen_from(tokens, chosen, k)[chosen_before(chosen, i as int) - chosen_before(chosen, k)]
            == tokens[i as int],
    decreases i - k,
{
    if k < i {
        lemma_chosen_from_at(tokens, chosen, k + 1, i);
        lemma_chosen_before_step(chosen, k);
    }
}

// ---------------------------------------------------------------------------
// What a pattern says of the lines it matches
// ---------------------------------------------------------------------------
/// The tokens from the `k`th on, one after the other, with these texts in the
/// place of the chosen ones.
pub open spec fn filled_from(
    tokens: Seq<Seq<char>>,
    chosen: Set<usize>,
    held: Seq<Seq<char>>,
    k: int,
) -> Seq<char>
    decreases tokens.len() - k,
{
    if k < 0 || k >= tokens.len() {
        Seq::empty()
    } else if chosen.contains(k as usize) {
        held[0] + filled_from(tokens, chosen, held.drop_first(), k + 1)
    } else {
        tokens[k] + filled_from(tokens, chosen, held, k + 1)
    }
}

proof fn lemma_matched_line(
    tokens: Seq<Seq<char>>,
    chosen: Set<usize>,
    k: int,
    text: Seq<char>,
    held: Seq<Seq<char>>,
)
    requires
        0 <= k <= tokens.len() <= usize::MAX,
        accepts(joined_from(pieces(tokens, chosen), k), text, held),
    ensures
        held.len() == chosen_from(tokens, chosen, k).len(),
        text == filled_from(tokens, chosen, held, k),
    decreases tokens.len() - k,
{
    if k < tokens.len() {
        let parts = pieces(tokens, chosen);
        let t = tokens[k];
        let rest = joined_from(parts, k + 1);
        assert(parts[k] == piece(tokens, chosen, k));
        if chosen.contains(k as usize) {
            lemma_accepts_group(t, rest, text, held);
            let n = held[0].len() as int;
            lemma_matched_line(tokens, chosen, k + 1, text.skip(n), held.drop_first());
            assert(text =~= text.take(n) + text.skip(n));
        } else {
            lemma_accepts_escaped(t, rest, text, held);
            let n = t.len() as int;
            lemma_matched_line(tokens, chosen, k + 1, text.skip(n), held);
            assert(text =~= text.take(n) + text.skip(n));
        }
    } else {
        assert(text =~= filled_from(tokens, chosen, held, k));
    }
}

proof fn lemma_group_holds(
    tokens: Seq<Seq<char>>,
    chosen: Set<usize>,
    k: int,
    i: usize,
    text: Seq<char>,
    held: Seq<Seq<char>>,
)
    requires
        chosen.finite(),
        0 <= k <= i < tokens.len() <= usize::MAX,
        chosen.contains(i),
        accepts(joined_from(pieces(tokens, chosen), k), text, held),
    ensures
        chosen_before(chosen, k) <= chosen_before(chosen, i as int),
        chosen_before(chosen, i as int) - chosen_before(chosen, k) < held.len(),
        held_by(
            capture(tokens[i as int]),
            held[chosen_before(chosen, i as int) - chosen_before(chosen, k)],
        ),
    decreases i - k,
{
    let parts = pieces(tokens, chosen);
    let t = tokens[k];
    let rest = joined_from(parts, k + 1);
    assert(parts[k] == piece(tokens, chosen, k));
    if chosen.contains(k as usize) {
        lemma_accepts_group(t, rest, text, held);
    } else {
        lemma_accepts_escaped(t, rest, text, held);
    }
    if k < i {
        lemma_chosen_before_step(chosen, k);
        if chosen.contains(k as usize) {
            lemma_group_holds(
                tokens,
                chosen,
                k + 1,
                i,
                text.skip(held[0].len() as int),
                held.drop_first(),
            );
        } else {
            lemma_group_holds(tokens, chosen, k + 1, i, text.skip(t.len() as int), held);
        }
    }
}

proof fn lemma_pattern_is_its_pieces(tokens: Seq<Seq<char>>, chosen: Set<usize>)
    ensures
        pattern(tokens, chosen).skip(1) == joined_from(pieces(tokens, chosen), 0),
{
    let parts = pieces(tokens, chosen);
    lemma_joined_from(parts, 0);
    assert(parts.take(0) =~= Seq::<Seq<char>>::empty());
    assert(pattern(tokens, chosen).skip(1) =~= joined_from(parts, 0));
}

/// What is not chosen is matched to the letter: a line that a pattern matches
/// is the line it was built from, with what the groups hold in the place of
/// the chosen tokens.
pub proof fn law_only_the_chosen_tokens_vary(
    tokens: Seq<Seq<char>>,
    chosen: Set<usize>,
    line: Seq<char>,
    held: Seq<Seq<char>>,
)
    requires
        chosen.finite(),
        tokens.len() <= usize::MAX,
        matches_line(pattern(tokens, chosen), line, held),
    ensures
        held.len() == chosen_before(chosen, tokens.len() as int),
        line == filled_from(tokens, chosen, held, 0),
{
    lemma_pattern_is_its_pieces(tokens, chosen);
    lemma_matched_line(tokens, chosen, 0, line, held);
    lemma_chosen_from_len(tokens, chosen, 0);
    assert(chosen.filter(|j: usize| j < 0int) =~= Set::empty());
}

/// A number stays a number: whatever line a pattern matches, the group of a
/// token of digits holds digits and nothing else, and at least one.
pub proof fn law_a_number_stays_a_number(
    tokens: Seq<Seq<char>>,
    chosen: Set<usize>,
    i: usize,
    line: Seq<char>,
    held: Seq<Seq<char>>,
)
    requires
        chosen.finite(),
        i < tokens.len() <= usize::MAX,
        chosen.contains(i),
        forall|j: int|
            0 <= j < tokens[i as int].len() ==> '0' <= #[trigger] tokens[i as int][j]
                && tokens[i as int][j] <= '9',
        matches_line(pattern(tokens, chosen), line, held),
    ensures
        chosen_before(chosen, i as int) < held.len(),
        ({
            let h = held[chosen_before(chosen, i as int) as int];
            h.len() > 0 && forall|j: int| 0 <= j < h.len() ==> '0' <= #[trigger] h[j] && h[j] <= '9'
        }),
{
    lemma_pattern_is_its_pieces(tokens, chosen);
    lemma_group_holds(tokens, chosen, 0, i, line, held);
    assert(chosen.filter(|j: usize| j < 0int) =~= Set::empty());
    lemma_groups_differ();
    assert(all_digits(tokens[i as int]));
    let h = held[chosen_before(chosen, i as int) as int];
    assert forall|j: int| 0 <= j < h.len() implies '0' <= #[trigger] h[j] && h[j] <= '9' by {
        assert(ascii_digit(h[j]));
    }
}

/// A word stays a word: whatever line a pattern matches, the group of a token
/// of letters and digits holds characters of words and nothing else, and at
/// least one.
pub proof fn law_a_word_stays_a_word(
    tokens: Seq<Seq<char>>,
    chosen: Set<usize>,
    i: usize,
    line: Seq<char>,
    held: Seq<Seq<char>>,
)
    requires
        chosen.finite(),
        i < tokens.len() <= usize::MAX,
        chosen.contains(i),
        forall|j: int|
            0 <= j < tokens[i as int].len() ==> alphanumeric(#[trigger] tokens[i as int][j]),
        matches_line(pattern(tokens, chosen), line, held),
    ensures
        chosen_before(chosen, i as int) < held.len(),
        ({
            let h = held[chosen_before(chosen, i as int) as int];
            h.len() > 0 && forall|j: int|
                0 <= j < h.len() ==> alphanumeric(#[trigger] h[j]) || h[j] == '_'
        }),
{
    lemma_pattern_is_its_pieces(tokens, chosen);
    lemma_group_holds(tokens, chosen, 0, i, line, held);
    assert(chosen.filter(|j: usize| j < 0int) =~= Set::empty());
    lemma_groups_differ();
    assert(one_kind(tokens[i as int], true));
    let h = held[chosen_before(chosen, i as int) as int];
    assert forall|j: int| 0 <= j < h.len() implies alphanumeric(#[trigger] h[j]) || h[j] == '_' by {
        assert(ascii_digit(h[j]) || ascii_alphanumeric(h[j]) || h[j] == '_');
    }
}

/// A pattern fires again: it matches every line in which other numbers stand
/// for the chosen numbers, other words for the chosen words, and anything
/// within the line for the rest that was chosen.
pub proof fn law_a_pattern_fires_on_other_values(
    tokens: Seq<Seq<char>>,
    others: Seq<Seq<char>>,
    chosen: Set<usize>,
)
    requires
        tokens.len() <= usize::MAX,
        others.len() == tokens.len(),
        forall|i: int|
            0 <= i < tokens.len() && !chosen.contains(i as usize) ==> #[trigger] others[i]
                == tokens[i],
        forall|i: int|
            0 <= i < tokens.len() && chosen.contains(i as usize) ==> (#[trigger] others[i]).len()
                > 0,
        forall|i: int|
            0 <= i < tokens.len() && chosen.contains(i as usize) && digits_only(tokens[i])
                ==> digits_only(#[trigger] others[i]),
        forall|i: int|
            0 <= i < tokens.len() && chosen.contains(i as usize) && !digits_only(tokens[i])
                && letters_and_digits_only(tokens[i]) ==> plain_word(#[trigger] others[i]),
        forall|i: int|
            0 <= i < tokens.len() && chosen.contains(i as usize) && !letters_and_digits_only(
                tokens[i],
            ) ==> !(#[trigger] others[i]).contains('\n'),
    ensures
        matches_line(pattern(tokens, chosen), joined(others), chosen_tokens(others, chosen)),
{
    lemma_pattern_is_its_pieces(tokens, chosen);
    lemma_joined_from(others, 0);
    assert(others.take(0) =~= Seq::<Seq<char>>::empty());
    assert(joined_from(others, 0) =~= joined(others));
    lemma_fires_from(tokens, others, chosen, 0);
}

/// Digits 0 to 9 and nothing else.
pub open spec fn digits_only(s: Seq<char>) -> bool {
    forall|j: int| 0 <= j < s.len() ==> '0' <= #[trigger] s[j] && s[j] <= '9'
}

/// Letters and digits and nothing else.
pub open spec fn letters_and_digits_only(s: Seq<char>) -> bool {
    forall|j: int| 0 <= j < s.len() ==> alphanumeric(#[trigger] s[j])
}

proof fn lemma_fires_from(
    tokens: Seq<Seq<char>>,
    others: Seq<Seq<char>>,
    chosen: Set<usize>,
    k: int,
)
    requires
        0 <= k <= tokens.len() <= usize::MAX,
        others.len() == tokens.len(),
        forall|i: int|
            0 <= i < tokens.len() && !chosen.contains(i as usize) ==> #[trigger] others[i]
                == tokens[i],
        forall|i: int|
            0 <= i < tokens.len() && chosen.contains(i as usize) ==> (#[trigger] others[i]).len()
                > 0,
        forall|i: int|
            0 <= i < tokens.len() && chosen.contains(i as usize) && digits_only(tokens[i])
                ==> digits_only(#[trigger] others[i]),
        forall|i: int|
            0 <= i < tokens.len() && chosen.contains(i as usize) && !digits_only(tokens[i])
                && letters_and_digits_only(tokens[i]) ==> plain_word(#[trigger] others[i]),
        forall|i: int|
            0 <= i < tokens.len() && chosen.contains(i as usize) && !letters_and_digits_only(
                tokens[i],
            ) ==> !(#[trigger] others[i]).contains('\n'),
    ensures
        accepts(
            joined_from(pieces(tokens, chosen), k),
            joined_from(others, k),
            chosen_from(others, chosen, k),
        ),
    decreases tokens.len() - k,
{
    if k < tokens.len() {
        lemma_fires_from(tokens, others, chosen, k + 1);
        let parts = pieces(tokens, chosen);
        let t = tokens[k];
        let o = others[k];
        let text = joined_from(others, k);
        let held = chosen_from(others, chosen, k);
        let n = o.len() as int;
        assert(parts[k] == piece(tokens, chosen, k));
        assert(text.take(n) =~= o);
        assert(text.skip(n) =~= joined_from(others, k + 1));
        if chosen.contains(k as usize) {
            lemma_accepts_group(t, joined_from(parts, k + 1), text, held);
            assert(held.drop_first() =~= chosen_from(others, chosen, k + 1));
            lemma_groups_differ();
            lemma_kinds(t);
            if digits_only(t) {
                assert(digits_only(o));
                lemma_kinds(o);
            } else if letters_and_digits_only(t) {
                assert(plain_word(o));
            } else {
                assert(!o.contains('\n'));
            }
        } else {
            lemma_accepts_escaped(t, joined_from(parts, k + 1), text, held);
        }
    }
}

proof fn lemma_kinds(s: Seq<char>)
    ensures
        digits_only(s) <==> all_digits(s),
        letters_and_digits_only(s) <==> one_kind(s, true),
        digits_only(s) ==> letters_and_digits_only(s),
{
    if digits_only(s) {
        assert forall|i: int| 0 <= i < s.len() implies ascii_digit(#[trigger] s[i]) by {}
    }
    if all_digits(s) {
        assert forall|j: int| 0 <= j < s.len() implies '0' <= #[trigger] s[j] && s[j] <= '9' by {
            assert(ascii_digit(s[j]));
        }
    }
}

/// What the tokens of a line are: one after the other they make the line; none
/// is empty; each is made of letters and digits only, or holds none; and where
/// one ends and the next begins, a letter or digit meets something that is
/// none.
pub proof fn law_tokens_are_runs(line: Seq<char>, tokens: Seq<Seq<char>>)
    requires
        tokens_of(line, tokens),
    ensures
        joined_from(tokens, 0) == line,
        forall|i: int, j: int|
            0 <= i < tokens.len() && 0 <= j < tokens[i].len() ==> alphanumeric(
                #[trigger] tokens[i][j],
            ) == alphanumeric(tokens[i][0]),
        forall|i: int| 0 <= i < tokens.len() ==> (#[trigger] tokens[i]).len() > 0,
        forall|i: int, j: int|
            0 <= i && j == i + 1 && j < tokens.len() ==> alphanumeric((#[trigger] tokens[i]).last())
                != alphanumeric((#[trigger] tokens[j])[0]),
{
    lemma_joined_from(tokens, 0);
    assert(tokens.take(0) =~= Seq::<Seq<char>>::empty());
    assert(joined_from(tokens, 0) =~= line);
    assert forall|i: int, j: int| 0 <= i < tokens.len() && 0 <= j < tokens[i].len() implies
        alphanumeric(#[trigger] tokens[i][j]) == alphanumeric(tokens[i][0]) by {
        assert(one_kind(tokens[i], starts_word(tokens[i])));
    }
    assert forall|i: int, j: int|
        0 <= i && j == i + 1 && j < tokens.len() implies alphanumeric((#[trigger] tokens[i]).last())
        != alphanumeric((#[trigger] tokens[j])[0]) by {
        assert(starts_word(tokens[i]) != starts_word(tokens[j]));
        let n = tokens[i].len() - 1;
        assert(alphanumeric(tokens[i][n]) == alphanumeric(tokens[i][0]));
    }
}

/// A token is a word exactly if it begins with a letter or digit.
pub proof fn law_words_begin_with_a_letter_or_digit(token: Seq<char>)
    ensures
        starts_word(token) <==> token.len() > 0 && alphanumeric(token[0]),
{
}

/// The texts make the same text from the front and from the back.
pub proof fn law_joining_adds_up(parts: Seq<Seq<char>>, part: Seq<char>)
    ensures
        joined(Seq::empty()) == Seq::<char>::empty(),
        joined(parts.push(part)) == joined(parts) + part,
{
    assert(parts.push(part).drop_last() =~= parts);
}

/// A backslash goes before these fourteen characters and before no other.
pub proof fn law_what_is_escaped(c: char)
    ensures
        (c == '\\' || c == '.' || c == '+' || c == '*' || c == '?' || c == '(' || c == ')' || c == '|'
            || c == '[' || c == ']' || c == '{' || c == '}' || c == '^' || c == '$') ==> escaped(
            seq![c],
        ) == seq!['\\', c],
        !(c == '\\' || c == '.' || c == '+' || c == '*' || c == '?' || c == '(' || c == ')' || c
            == '|' || c == '[' || c == ']' || c == '{' || c == '}' || c == '^' || c == '$')
            ==> escaped(seq![c]) == seq![c],
{
    law_escaped_character(c);
}

/// Groups are counted by the choices in front of them: one more choice in
/// front is one more group, and a choice at `index` or behind it is none.
pub proof fn law_choices_in_front_are_counted(chosen: Set<usize>, index: int, one: usize)
    requires
        chosen.finite(),
        !chosen.contains(one),
    ensures
        chosen_before(Set::empty(), index) == 0,
        one < index ==> chosen_before(chosen.insert(one), index) == chosen_before(chosen, index) + 1,
        one >= index ==> chosen_before(chosen.insert(one), index) == chosen_before(chosen, index),
{
    let below = |j: usize| j < index;
    assert(Set::<usize>::empty().filter(below) =~= Set::empty());
    if one < index {
        assert(chosen.insert(one).filter(below) =~= chosen.filter(below).insert(one));
    } else {
        assert(chosen.insert(one).filter(below) =~= chosen.filter(below));
    }
}

/// Blanks around a line make no difference, whether or not it has a timestamp.
pub proof fn law_blanks_around_a_line_go(front: Seq<char>, line: Seq<char>, back: Seq<char>)
    requires
        forall|i: int| 0 <= i < front.len() ==> white_space(#[trigger] front[i]),
        forall|i: int| 0 <= i < back.len() ==> white_space(#[trigger] back[i]),
    ensures
        without_timestamp(front + line + back) == without_timestamp(line),
{
    lemma_trim_ends_commute(front + line + back);
    lemma_trim_ends_commute(front + line);
    lemma_trim_end_blanks(front + line, back);
    lemma_trim_start_blanks(front, line);
}

proof fn lemma_trim_start_blanks(front: Seq<char>, s: Seq<char>)
    requires
        forall|i: int| 0 <= i < front.len() ==> white_space(#[trigger] front[i]),
    ensures
        trim_start(front + s) == trim_start(s),
    decreases front.len(),
{
    if front.len() == 0 {
        assert(front + s =~= s);
    } else {
        assert(white_space(front[0]));
        assert((front + s).drop_first() =~= front.drop_first() + s);
        lemma_trim_start_blanks(front.drop_first(), s);
    }
}

proof fn lemma_trim_end_blanks(s: Seq<char>, back: Seq<char>)
    requires
        forall|i: int| 0 <= i < back.len() ==> white_space(#[trigger] back[i]),
    ensures
        trim_end(s + back) == trim_end(s),
    decreases back.len(),
{
    if back.len() == 0 {
        assert(s + back =~= s);
    } else {
        assert(white_space(back[back.len() - 1]));
        assert((s + back).drop_last() =~= s + back.drop_last());
        lemma_trim_end_blanks(s, back.drop_last());
    }
}

/// A line that does not begin with a bracket, or whose bracket is not closed,
/// has no timestamp: it is only trimmed.
pub proof fn law_a_line_without_a_timestamp_is_kept(line: Seq<char>)
    requires
        trim(line).len() == 0 || trim(line)[0] != '[' || !trim(line).contains(']'),
    ensures
        without_timestamp(line) == trim(line),
{
    let t = trim(line);
    lemma_find(t, seq![']'], 0);
    if let Some(end) = find(t, seq![']'], 0) {
        assert(t.subrange(end, end + 1)[0] == t[end]);
        assert(t.contains(t[end]));
    }
}

/// A pattern starts at the head of the line, goes on token by token, and ends
/// with the last one: a number, a word or anything else where a token is
/// chosen, and the token itself, escaped, where it is not.
pub proof fn law_patterns_grow_token_by_token(
    tokens: Seq<Seq<char>>,
    token: Seq<char>,
    chosen: Set<usize>,
)
    requires
        tokens.len() < usize::MAX,
    ensures
        pattern(Seq::empty(), chosen) == seq!['^'],
        ({
            let before = pattern(tokens, chosen);
            let now = pattern(tokens.push(token), chosen);
            let picked = chosen.contains(tokens.len() as usize);
            &&& !picked ==> now == before + escaped(token)
            &&& picked && digits_only(token) ==> now == before + "(\\d+)"@
            &&& picked && !digits_only(token) && letters_and_digits_only(token) ==> now == before
                + "(\\w+)"@
            &&& picked && !letters_and_digits_only(token) ==> now == before + "(.+?)"@
        }),
{
    let n = tokens.len() as int;
    let all = tokens.push(token);
    let parts = pieces(all, chosen);
    assert(pieces(Seq::empty(), chosen) =~= Seq::<Seq<char>>::empty());
    assert(pattern(Seq::empty(), chosen) =~= seq!['^']);
    assert(parts.drop_last() =~= pieces(tokens, chosen));
    assert(parts.last() == piece(all, chosen, n));
    lemma_kinds(token);
    assert(pattern(all, chosen) =~= pattern(tokens, chosen) + piece(all, chosen, n));
}

} // verus!
