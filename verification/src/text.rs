//! Text as a sequence of characters: searching, trimming, replacing, numbers.
use vstd::prelude::*;

verus! {

/// `String::push` appends the character to the end of the string.
pub assume_specification[ String::push ](s: &mut String, c: char)
    ensures
        final(s)@ == old(s)@.push(c),
;

/// What `char::is_alphanumeric` says of a character: the Unicode letters and
/// numbers.
pub uninterp spec fn unicode_alphanumeric(c: char) -> bool;

/// The letters A to Z and a to z and the digits 0 to 9.
pub open spec fn ascii_alphanumeric(c: char) -> bool {
    ('a' <= c && c <= 'z') || ('A' <= c && c <= 'Z') || ('0' <= c && c <= '9')
}

/// Is it a letter or a number?
pub open spec fn alphanumeric(c: char) -> bool {
    if c <= '\u{7f}' {
        ascii_alphanumeric(c)
    } else {
        unicode_alphanumeric(c)
    }
}

/// Calls `char::is_alphanumeric`. Its answer is named by
/// [`unicode_alphanumeric`]; of the ASCII characters, exactly the letters and
/// the digits are alphanumeric.
#[verifier::external_body]
pub(crate) fn is_alphanumeric(c: char) -> (r: bool)
    ensures
        r == unicode_alphanumeric(c),
        c <= '\u{7f}' ==> r == ascii_alphanumeric(c),
{
    c.is_alphanumeric()
}

/// What `char::to_lowercase` makes of a character.
pub uninterp spec fn unicode_lowercase(c: char) -> Seq<char>;

/// The letters A to Z as a to z, anything else as it is.
pub open spec fn ascii_lowercase(c: char) -> char {
    if 'A' <= c && c <= 'Z' {
        ((c as u32) + 32) as char
    } else {
        c
    }
}

/// A character in lowercase. It can be more than one: the capital I with a
/// dot above is a small i and the dot.
pub open spec fn lowercase(c: char) -> Seq<char> {
    if c <= '\u{7f}' {
        seq![ascii_lowercase(c)]
    } else if c == '\u{130}' {
        seq!['i', '\u{307}']
    } else {
        unicode_lowercase(c)
    }
}

/// Calls `char::to_lowercase` and collects what it yields. The outcome is
/// named by [`unicode_lowercase`]; of the ASCII characters only the letters A
/// to Z change, each to one letter, and U+0130 yields an i and U+0307.
#[verifier::external_body]
pub(crate) fn to_lowercase(c: char) -> (r: Vec<char>)
    ensures
        r@ == unicode_lowercase(c),
        c <= '\u{7f}' ==> r@ == seq![ascii_lowercase(c)],
        c == '\u{130}' ==> r@ == seq!['i', '\u{307}'],
{
    c.to_lowercase().collect()
}

/// What `{:?}` prints for a text: the text in double quotes, with escapes.
pub uninterp spec fn debug_text(s: Seq<char>) -> Seq<char>;

/// A character inside a quoted text, with the escapes that TOML's basic
/// strings and `{:?}` have in common.
pub open spec fn basic_char(c: char) -> Seq<char> {
    if c == '"' || c == '\\' {
        seq!['\\', c]
    } else if c == '\n' {
        seq!['\\', 'n']
    } else if c == '\r' {
        seq!['\\', 'r']
    } else if c == '\t' {
        seq!['\\', 't']
    } else {
        seq![c]
    }
}

/// The characters of a text inside quotes.
pub open spec fn basic_chars(s: Seq<char>) -> Seq<char>
    decreases s.len(),
{
    if s.len() == 0 {
        Seq::empty()
    } else {
        basic_chars(s.drop_last()) + basic_char(s.last())
    }
}

/// A text in double quotes: a TOML basic string.
pub open spec fn basic_string(s: Seq<char>) -> Seq<char> {
    seq!['"'] + basic_chars(s) + seq!['"']
}

/// Printable ASCII characters, tabs and line ends.
pub open spec fn plain_text(s: Seq<char>) -> bool {
    forall|i: int|
        0 <= i < s.len() ==> {
            ||| (' ' <= #[trigger] s[i] && s[i] <= '~')
            ||| s[i] == '\n'
            ||| s[i] == '\r'
            ||| s[i] == '\t'
        }
}

/// Formats the text with `{:?}`. The outcome is named by [`debug_text`]; a
/// plain text is put in double quotes, with backslash, double quote, tab and
/// line ends escaped by a backslash and nothing else changed.
#[verifier::external_body]
pub(crate) fn quoted(s: &str) -> (r: String)
    ensures
        r@ == debug_text(s@),
        plain_text(s@) ==> r@ == basic_string(s@),
{
    format!("{:?}", s)
}

/// The characters with the Unicode property `White_Space`.
pub open spec fn white_space(c: char) -> bool {
    ||| '\u{9}' <= c && c <= '\u{d}'
    ||| c == ' '
    ||| c == '\u{85}'
    ||| c == '\u{a0}'
    ||| c == '\u{1680}'
    ||| '\u{2000}' <= c && c <= '\u{200a}'
    ||| c == '\u{2028}'
    ||| c == '\u{2029}'
    ||| c == '\u{202f}'
    ||| c == '\u{205f}'
    ||| c == '\u{3000}'
}

/// Is this a blank?
pub fn is_white_space(c: char) -> (r: bool)
    ensures
        r == white_space(c),
{
    ('\u{9}' <= c && c <= '\u{d}') || c == ' ' || c == '\u{85}' || c == '\u{a0}' || c == '\u{1680}'
        || ('\u{2000}' <= c && c <= '\u{200a}') || c == '\u{2028}' || c == '\u{2029}' || c
        == '\u{202f}' || c == '\u{205f}' || c == '\u{3000}'
}

/// The digits 0 to 9.
pub open spec fn ascii_digit(c: char) -> bool {
    '0' <= c && c <= '9'
}

pub(crate) fn is_ascii_digit(c: char) -> (r: bool)
    ensures
        r == ascii_digit(c),
{
    '0' <= c && c <= '9'
}

/// The characters of a text, one by one.
pub(crate) fn chars_of(s: &str) -> (r: Vec<char>)
    ensures
        r@ == s@,
{
    let mut r: Vec<char> = Vec::new();
    for c in it: s.chars()
        invariant
            it.seq() == s@,
            r@ == s@.take(it.index() as int),
    {
        r.push(c);
        assert(r@ =~= s@.take(it.index() + 1));
    }
    assert(s@.take(s@.len() as int) =~= s@);
    r
}

/// The text made of a run of characters.
pub(crate) fn text_of(chars: &[char], from: usize, to: usize) -> (r: String)
    requires
        from <= to <= chars@.len(),
    ensures
        r@ == chars@.subrange(from as int, to as int),
{
    let mut r = String::new();
    let mut i: usize = from;
    while i < to
        invariant
            from <= i <= to <= chars@.len(),
            r@ == chars@.subrange(from as int, i as int),
        decreases to - i,
    {
        r.push(chars[i]);
        assert(chars@.subrange(from as int, i as int).push(chars@[i as int]) =~= chars@.subrange(
            from as int,
            i + 1,
        ));
        i += 1;
    }
    r
}

/// Do two texts hold the same characters?
pub(crate) fn same_text(a: &str, b: &str) -> (r: bool)
    ensures
        r == (a@ == b@),
{
    let x: String = a.to_owned();
    let y: String = b.to_owned();
    x == y
}

/// Does `pat` stand in `s` at position `i`?
pub open spec fn stands_at(s: Seq<char>, pat: Seq<char>, i: int) -> bool {
    0 <= i && i + pat.len() <= s.len() && s.subrange(i, i + pat.len()) == pat
}

/// The first position, at `from` or later, where `pat` stands in `s`.
pub open spec fn find(s: Seq<char>, pat: Seq<char>, from: int) -> Option<int>
    decreases s.len() + 1 - from,
{
    if from < 0 || from + pat.len() > s.len() {
        None
    } else if stands_at(s, pat, from) {
        Some(from)
    } else {
        find(s, pat, from + 1)
    }
}

/// [`find`] gives the least position: `pat` stands there and nowhere earlier.
/// Where it gives none, `pat` stands nowhere at `from` or later.
pub proof fn lemma_find(s: Seq<char>, pat: Seq<char>, from: int)
    requires
        0 <= from,
    ensures
        match find(s, pat, from) {
            Some(i) => from <= i && stands_at(s, pat, i) && (forall|j: int|
                from <= j < i ==> !stands_at(s, pat, j)),
            None => forall|j: int| from <= j ==> !stands_at(s, pat, j),
        },
    decreases s.len() + 1 - from,
{
    if from + pat.len() <= s.len() && !stands_at(s, pat, from) {
        lemma_find(s, pat, from + 1);
    }
}

/// The least position is the only answer [`find`] can give.
pub(crate) proof fn lemma_find_is(s: Seq<char>, pat: Seq<char>, from: int, i: int)
    requires
        0 <= from <= i,
        stands_at(s, pat, i),
        forall|j: int| from <= j < i ==> !stands_at(s, pat, j),
    ensures
        find(s, pat, from) == Some(i),
{
    lemma_find(s, pat, from);
}

/// Does `pat` stand at position `i`?
pub(crate) fn matches_at(s: &[char], pat: &[char], i: usize) -> (r: bool)
    requires
        i + pat@.len() <= s@.len(),
    ensures
        r == stands_at(s@, pat@, i as int),
{
    let mut k: usize = 0;
    let n: usize = s.len();
    while k < pat.len()
        invariant
            k <= pat@.len(),
            i + pat@.len() <= n == s@.len(),
            forall|j: int| 0 <= j < k ==> s@[i + j] == #[trigger] pat@[j],
        decreases pat@.len() - k,
    {
        if s[i + k] != pat[k] {
            assert(s@.subrange(i as int, i + pat@.len())[k as int] == s@[i + k]);
            return false;
        }
        k += 1;
    }
    assert(s@.subrange(i as int, i + pat@.len()) =~= pat@);
    true
}

/// Looks for `pat` from position `from` on.
pub(crate) fn find_from(s: &[char], pat: &[char], from: usize) -> (r: Option<usize>)
    requires
        from <= s@.len(),
    ensures
        match r {
            Some(i) => find(s@, pat@, from as int) == Some(i as int),
            None => find(s@, pat@, from as int) is None,
        },
{
    let n: usize = s.len();
    let mut i: usize = from;
    while pat.len() <= n - i
        invariant
            from <= i <= n == s@.len(),
            find(s@, pat@, from as int) == find(s@, pat@, i as int),
        decreases n - i,
    {
        if matches_at(s, pat, i) {
            return Some(i);
        }
        proof {
            if i == n {
                assert(s@.subrange(i as int, i as int) =~= pat@);
            }
        }
        i += 1;
    }
    None
}

/// Without the blanks in front.
pub open spec fn trim_start(s: Seq<char>) -> Seq<char>
    decreases s.len(),
{
    if s.len() > 0 && white_space(s[0]) {
        trim_start(s.drop_first())
    } else {
        s
    }
}

/// Without the blanks at the end.
pub open spec fn trim_end(s: Seq<char>) -> Seq<char>
    decreases s.len(),
{
    if s.len() > 0 && white_space(s.last()) {
        trim_end(s.drop_last())
    } else {
        s
    }
}

/// Without the blanks at both ends.
pub open spec fn trim(s: Seq<char>) -> Seq<char> {
    trim_end(trim_start(s))
}

/// How many blanks stand in front.
fn leading_blanks(s: &[char]) -> (n: usize)
    ensures
        n <= s@.len(),
        trim_start(s@) == s@.skip(n as int),
{
    let mut n: usize = 0;
    assert(s@.skip(0) =~= s@);
    while n < s.len() && is_white_space(s[n])
        invariant
            n <= s@.len(),
            trim_start(s@) == trim_start(s@.skip(n as int)),
        decreases s@.len() - n,
    {
        assert(s@.skip(n as int).drop_first() =~= s@.skip(n + 1));
        n += 1;
    }
    n
}

/// Where the blanks at the end begin, looking no further back than `from`.
fn end_of_text(s: &[char], from: usize) -> (n: usize)
    requires
        from <= s@.len(),
    ensures
        from <= n <= s@.len(),
        trim_end(s@.skip(from as int)) == s@.subrange(from as int, n as int),
{
    let mut n: usize = s.len();
    assert(s@.subrange(from as int, n as int) =~= s@.skip(from as int));
    while n > from && is_white_space(s[n - 1])
        invariant
            from <= n <= s@.len(),
            trim_end(s@.skip(from as int)) == trim_end(s@.subrange(from as int, n as int)),
        decreases n,
    {
        assert(s@.subrange(from as int, n as int).drop_last() =~= s@.subrange(from as int, n - 1));
        n -= 1;
    }
    n
}

/// Drops the blanks in front.
pub(crate) fn trimmed_start<'a>(s: &'a str) -> (r: &'a str)
    ensures
        r@ == trim_start(s@),
{
    let c = chars_of(s);
    let n: usize = leading_blanks(&c);
    s.substring_char(n, c.len())
}

/// Drops the blanks at both ends.
pub(crate) fn trimmed<'a>(s: &'a str) -> (r: &'a str)
    ensures
        r@ == trim(s@),
{
    let c = chars_of(s);
    let n: usize = leading_blanks(&c);
    let m: usize = end_of_text(&c, n);
    s.substring_char(n, m)
}

/// A trimmed text neither begins nor ends with a blank, and what was taken
/// off both ends is blank.
pub proof fn law_trim(s: Seq<char>)
    ensures
        trim(s).len() > 0 ==> !white_space(trim(s)[0]) && !white_space(trim(s).last()),
        exists|front: Seq<char>, back: Seq<char>|
            s == #[trigger] (front + trim(s) + back) && (forall|i: int|
                0 <= i < front.len() ==> white_space(front[i])) && (forall|i: int|
                0 <= i < back.len() ==> white_space(back[i])),
{
    lemma_trim_start(s);
    lemma_trim_end(trim_start(s));
    let front = choose|front: Seq<char>|
        s == #[trigger] (front + trim_start(s)) && (forall|i: int|
            0 <= i < front.len() ==> white_space(front[i]));
    let back = choose|back: Seq<char>|
        trim_start(s) == #[trigger] (trim(s) + back) && (forall|i: int|
            0 <= i < back.len() ==> white_space(back[i]));
    assert(s =~= front + trim(s) + back);
}

proof fn lemma_trim_start(s: Seq<char>)
    ensures
        trim_start(s).len() > 0 ==> !white_space(trim_start(s)[0]),
        exists|front: Seq<char>|
            s == #[trigger] (front + trim_start(s)) && (forall|i: int|
                0 <= i < front.len() ==> white_space(front[i])),
    decreases s.len(),
{
    if s.len() > 0 && white_space(s[0]) {
        lemma_trim_start(s.drop_first());
        let front = choose|front: Seq<char>|
            s.drop_first() == #[trigger] (front + trim_start(s.drop_first())) && (forall|i: int|
                0 <= i < front.len() ==> white_space(front[i]));
        assert(s =~= seq![s[0]] + s.drop_first());
        assert(s =~= (seq![s[0]] + front) + trim_start(s));
    } else {
        assert(s =~= Seq::<char>::empty() + trim_start(s));
    }
}

proof fn lemma_trim_end(s: Seq<char>)
    ensures
        trim_end(s).len() > 0 ==> !white_space(trim_end(s).last()) && trim_end(s)[0] == s[0],
        exists|back: Seq<char>|
            s == #[trigger] (trim_end(s) + back) && (forall|i: int|
                0 <= i < back.len() ==> white_space(back[i])),
    decreases s.len(),
{
    if s.len() > 0 && white_space(s.last()) {
        lemma_trim_end(s.drop_last());
        let back = choose|back: Seq<char>|
            s.drop_last() == #[trigger] (trim_end(s.drop_last()) + back) && (forall|i: int|
                0 <= i < back.len() ==> white_space(back[i]));
        assert(s =~= s.drop_last().push(s.last()));
        assert(s =~= trim_end(s) + back.push(s.last()));
    } else {
        assert(s =~= trim_end(s) + Seq::<char>::empty());
    }
}

/// Blanks at the end stop at a head that does not end in one.
pub(crate) proof fn lemma_trim_end_behind(head: Seq<char>, s: Seq<char>)
    requires
        head.len() > 0,
        !white_space(head.last()),
    ensures
        trim_end(head + s) == head + trim_end(s),
    decreases s.len(),
{
    let whole = head + s;
    if s.len() == 0 {
        assert(whole =~= head);
        assert(head + trim_end(s) =~= head);
    } else {
        assert(whole.last() == s.last());
        if white_space(s.last()) {
            assert(whole.drop_last() =~= head + s.drop_last());
            lemma_trim_end_behind(head, s.drop_last());
        }
    }
}

/// It does not matter which end is trimmed first.
pub(crate) proof fn lemma_trim_ends_commute(s: Seq<char>)
    ensures
        trim_start(trim_end(s)) == trim_end(trim_start(s)),
    decreases s.len(),
{
    if s.len() > 0 {
        let rest = s.drop_first();
        let head = seq![s[0]];
        assert(s =~= head + rest);
        if white_space(s[0]) {
            lemma_trim_ends_commute(rest);
            lemma_trim_end_blank_head(s);
        } else {
            lemma_trim_end_behind(head, rest);
            assert(trim_end(s)[0] == s[0]);
        }
    }
}

/// A blank head goes with the blanks at the end, or stays with the rest.
proof fn lemma_trim_end_blank_head(s: Seq<char>)
    requires
        s.len() > 0,
        white_space(s[0]),
    ensures
        trim_start(trim_end(s)) == trim_start(trim_end(s.drop_first())),
    decreases s.len(),
{
    let rest = s.drop_first();
    if s.len() == 1 {
        assert(s.drop_last() =~= Seq::<char>::empty());
        assert(rest =~= Seq::<char>::empty());
        assert(trim_end(s) =~= trim_end(rest));
    } else if white_space(s.last()) {
        lemma_trim_end_blank_head(s.drop_last());
        assert(s.drop_last().drop_first() =~= rest.drop_last());
    }
}

/// Without the slashes at the end.
pub open spec fn without_slashes(s: Seq<char>) -> Seq<char>
    decreases s.len(),
{
    if s.len() > 0 && s.last() == '/' {
        without_slashes(s.drop_last())
    } else {
        s
    }
}

/// Only the part behind `head` is touched, if something of it remains.
pub(crate) proof fn lemma_without_slashes_behind(head: Seq<char>, s: Seq<char>)
    requires
        without_slashes(s).len() > 0,
    ensures
        without_slashes(head + s) == head + without_slashes(s),
    decreases s.len(),
{
    let whole = head + s;
    assert(whole.last() == s.last());
    if s.last() == '/' {
        assert(whole.drop_last() =~= head + s.drop_last());
        lemma_without_slashes_behind(head, s.drop_last());
    }
}

/// Drops the slashes at the end.
pub(crate) fn drop_slashes(s: &str) -> (r: String)
    ensures
        r@ == without_slashes(s@),
{
    let c = chars_of(s);
    let mut n: usize = c.len();
    assert(s@.take(n as int) =~= s@);
    while n > 0 && c[n - 1] == '/'
        invariant
            n <= c@.len(),
            c@ == s@,
            without_slashes(s@) == without_slashes(s@.take(n as int)),
        decreases n,
    {
        assert(s@.take(n as int).drop_last() =~= s@.take(n - 1));
        n -= 1;
    }
    let r = text_of(&c, 0, n);
    assert(r@ =~= s@.take(n as int));
    r
}

/// With the first occurrence of `pat`, if there is one, replaced by `to`.
pub open spec fn replace_first(s: Seq<char>, pat: Seq<char>, to: Seq<char>) -> Seq<char> {
    match find(s, pat, 0) {
        Some(i) => s.take(i) + to + s.skip(i + pat.len()),
        None => s,
    }
}

/// A text that stands nowhere is not replaced; one that stands at the head
/// is replaced there.
pub(crate) proof fn lemma_replace_first(s: Seq<char>, pat: Seq<char>, to: Seq<char>)
    ensures
        (forall|j: int| 0 <= j ==> !stands_at(s, pat, j)) ==> replace_first(s, pat, to) == s,
        replace_first(pat + s, pat, to) == to + s,
{
    lemma_find(s, pat, 0);
    let whole = pat + s;
    assert(whole.subrange(0, pat.len() as int) =~= pat);
    lemma_find_is(whole, pat, 0, 0);
    assert(whole.take(0) + to + whole.skip(pat.len() as int) =~= to + s);
}

/// Replaces the first occurrence of `pat`.
pub(crate) fn replaced_first(s: &str, pat: &str, to: &str) -> (r: String)
    ensures
        r@ == replace_first(s@, pat@, to@),
{
    let c = chars_of(s);
    let p = chars_of(pat);
    match find_from(&c, &p, 0) {
        Some(i) => {
            proof {
                lemma_find(s@, pat@, 0);
            }
            let mut r = text_of(&c, 0, i);
            assert(r@ =~= s@.take(i as int));
            r.append(to);
            let n: usize = c.len();
            assert(i + p@.len() <= n);
            let rest = text_of(&c, i + p.len(), n);
            assert(rest@ =~= s@.skip(i + p@.len()));
            r.append(rest.as_str());
            r
        },
        None => s.to_owned(),
    }
}

/// The character for a digit.
pub open spec fn digit_char(d: nat) -> char {
    (48 + d) as char
}

/// A number in decimal, without leading zeros.
pub open spec fn decimal(n: nat) -> Seq<char>
    decreases n,
{
    if n < 10 {
        seq![digit_char(n)]
    } else {
        decimal(n / 10).push(digit_char(n % 10))
    }
}

/// Writes a number in decimal.
pub(crate) fn to_decimal(n: u32) -> (r: String)
    ensures
        r@ == decimal(n as nat),
    decreases n,
{
    let mut r = if n < 10 {
        String::new()
    } else {
        to_decimal(n / 10)
    };
    let d: u8 = 48 + (n % 10) as u8;
    r.push(d as char);
    assert(r@ =~= decimal(n as nat));
    r
}

/// The number that a run of digits writes.
pub open spec fn number(s: Seq<char>) -> nat
    decreases s.len(),
{
    if s.len() == 0 {
        0
    } else {
        (number(s.drop_last()) * 10 + (s.last() as nat - 48)) as nat
    }
}

/// A number written in decimal reads back as itself, and is made of digits.
pub proof fn law_decimal_reads_back(n: nat)
    ensures
        number(decimal(n)) == n,
        decimal(n).len() > 0,
        forall|i: int| 0 <= i < decimal(n).len() ==> ascii_digit(#[trigger] decimal(n)[i]),
    decreases n,
{
    reveal_with_fuel(number, 2);
    if n >= 10 {
        law_decimal_reads_back(n / 10);
        assert(decimal(n).drop_last() =~= decimal(n / 10));
    } else {
        assert(decimal(n).drop_last() =~= Seq::<char>::empty());
    }
}

/// Of the ASCII characters the letters and the digits are alphanumeric; of
/// the others those that Unicode counts as such.
pub proof fn law_letters_and_digits(c: char)
    ensures
        c <= '\u{7f}' ==> (alphanumeric(c) <==> ('a' <= c && c <= 'z') || ('A' <= c && c <= 'Z') || (
        '0' <= c && c <= '9')),
        c > '\u{7f}' ==> alphanumeric(c) == unicode_alphanumeric(c),
        ascii_digit(c) <==> '0' <= c && c <= '9',
{
}

/// Lowercase turns the letters A to Z into a to z, leaves every other ASCII
/// character alone, and does with the rest what Unicode says.
pub proof fn law_lowercase(c: char)
    ensures
        'A' <= c && c <= 'Z' ==> lowercase(c).len() == 1 && lowercase(c)[0] as u32 == c as u32 + 32,
        c <= '\u{7f}' && !('A' <= c && c <= 'Z') ==> lowercase(c) == seq![c],
        c == '\u{130}' ==> lowercase(c) == seq!['i', '\u{307}'],
        c > '\u{7f}' && c != '\u{130}' ==> lowercase(c) == unicode_lowercase(c),
{
}

/// A text stands where each of its characters does.
pub proof fn law_a_text_stands_where_its_characters_do(s: Seq<char>, pat: Seq<char>, i: int)
    ensures
        stands_at(s, pat, i) <==> 0 <= i && i + pat.len() <= s.len() && forall|k: int|
            0 <= k < pat.len() ==> s[i + k] == #[trigger] pat[k],
{
    if 0 <= i && i + pat.len() <= s.len() {
        let sub = s.subrange(i, i + pat.len());
        if forall|k: int| 0 <= k < pat.len() ==> s[i + k] == #[trigger] pat[k] {
            assert(sub =~= pat);
        }
        if sub == pat {
            assert forall|k: int| 0 <= k < pat.len() implies s[i + k] == #[trigger] pat[k] by {
                assert(sub[k] == s[i + k]);
            }
        }
    }
}

/// What is dropped from the end is slashes, and all of them.
pub proof fn law_only_slashes_are_dropped(s: Seq<char>)
    ensures
        without_slashes(s).len() <= s.len(),
        s.take(without_slashes(s).len() as int) == without_slashes(s),
        forall|i: int| without_slashes(s).len() <= i < s.len() ==> #[trigger] s[i] == '/',
        without_slashes(s).len() > 0 ==> without_slashes(s).last() != '/',
    decreases s.len(),
{
    if s.len() > 0 && s.last() == '/' {
        let front = s.drop_last();
        law_only_slashes_are_dropped(front);
        let n = without_slashes(s).len() as int;
        assert(s.take(n) =~= front.take(n));
        assert forall|i: int| n <= i < s.len() implies #[trigger] s[i] == '/' by {
            if i < front.len() {
                assert(front[i] == '/');
            }
        }
    } else {
        assert(s.take(s.len() as int) =~= s);
    }
}

/// The first occurrence is replaced, and nothing else changes; without one
/// nothing does.
pub proof fn law_the_first_occurrence_is_replaced(
    before: Seq<char>,
    pat: Seq<char>,
    after: Seq<char>,
    to: Seq<char>,
)
    ensures
        (forall|j: int| 0 <= j < before.len() ==> !stands_at(before + pat + after, pat, j))
            ==> replace_first(before + pat + after, pat, to) == before + to + after,
        (forall|j: int| 0 <= j ==> !stands_at(before, pat, j)) ==> replace_first(before, pat, to)
            == before,
{
    let s = before + pat + after;
    let n = before.len() as int;
    assert(s.subrange(n, n + pat.len()) =~= pat);
    if forall|j: int| 0 <= j < before.len() ==> !stands_at(s, pat, j) {
        lemma_find_is(s, pat, 0, n);
        assert(s.take(n) =~= before);
        assert(s.skip(n + pat.len()) =~= after);
    }
    lemma_replace_first(before, pat, to);
}

/// A run of digits is read from the left: one more digit makes ten times the
/// number, and the digit.
pub proof fn law_numbers_are_decimal(s: Seq<char>, c: char)
    requires
        '0' <= c && c <= '9',
    ensures
        number(Seq::empty()) == 0,
        number(s.push(c)) == 10 * number(s) + (c as int - '0' as int),
{
    assert(s.push(c).drop_last() =~= s);
}

/// A number is written without leading zeros.
pub proof fn law_no_leading_zeros(n: nat)
    ensures
        decimal(n)[0] == '0' ==> n == 0 && decimal(n) == seq!['0'],
    decreases n,
{
    if n >= 10 {
        law_no_leading_zeros(n / 10);
        law_decimal_reads_back(n / 10);
        assert(decimal(n)[0] == decimal(n / 10)[0]);
    }
}

} // verus!
