//! Putting lists of text pairs in order.
use vstd::prelude::*;
use vstd::utf8::encode_utf8;

use crate::text::chars_of;

verus! {

/// A pair of texts, as contracts see it.
pub type Pair = (Seq<char>, Seq<char>);

/// Does `a` stand before `b` in a dictionary? Characters go by code point.
pub open spec fn lex_less(a: Seq<char>, b: Seq<char>) -> bool
    decreases a.len(),
{
    if b.len() == 0 {
        false
    } else if a.len() == 0 {
        true
    } else {
        a[0] < b[0] || (a[0] == b[0] && lex_less(a.drop_first(), b.drop_first()))
    }
}

/// How a list of pairs is sorted.
#[derive(Clone, Copy)]
pub enum Arrangement {
    /// By the first text, then by the second, as in a dictionary.
    Dictionary,
    /// The pair with the longer first text (in bytes) first; among equally
    /// long ones, by dictionary.
    LongestFirst,
}

/// Must `a` stand before `b`?
pub open spec fn goes_before(how: Arrangement, a: Pair, b: Pair) -> bool {
    match how {
        Arrangement::Dictionary => dictionary(a, b),
        Arrangement::LongestFirst => {
            let la = encode_utf8(a.0).len();
            let lb = encode_utf8(b.0).len();
            la > lb || (la == lb && dictionary(a, b))
        },
    }
}

/// Dictionary order on pairs.
pub open spec fn dictionary(a: Pair, b: Pair) -> bool {
    lex_less(a.0, b.0) || (a.0 == b.0 && lex_less(a.1, b.1))
}

/// No pair of the list must stand before an earlier one.
pub open spec fn in_order(how: Arrangement, s: Seq<Pair>) -> bool {
    forall|i: int, j: int| 0 <= i < j < s.len() ==> !goes_before(how, #[trigger] s[j], #[trigger] s[i])
}

/// Dictionary order is a strict total order on texts.
pub proof fn law_lex_less_is_an_order(a: Seq<char>, b: Seq<char>, c: Seq<char>)
    ensures
        !lex_less(a, a),
        lex_less(a, b) && lex_less(b, c) ==> lex_less(a, c),
        a == b || lex_less(a, b) || lex_less(b, a),
    decreases a.len(),
{
    if a.len() > 0 {
        law_lex_less_is_an_order(
            a.drop_first(),
            if b.len() > 0 {
                b.drop_first()
            } else {
                b
            },
            if c.len() > 0 {
                c.drop_first()
            } else {
                c
            },
        );
    }
    if a.len() > 0 && b.len() > 0 && a[0] == b[0] && a.drop_first() == b.drop_first() {
        assert(a =~= seq![a[0]] + a.drop_first());
        assert(b =~= seq![b[0]] + b.drop_first());
    }
    if a.len() == 0 && b.len() == 0 {
        assert(a =~= b);
    }
}

/// Each arrangement is a strict total order on pairs.
pub proof fn law_goes_before_is_an_order(how: Arrangement, a: Pair, b: Pair, c: Pair)
    ensures
        !goes_before(how, a, a),
        goes_before(how, a, b) && goes_before(how, b, c) ==> goes_before(how, a, c),
        a == b || goes_before(how, a, b) || goes_before(how, b, a),
{
    law_lex_less_is_an_order(a.0, b.0, c.0);
    law_lex_less_is_an_order(a.1, b.1, c.1);
}

/// There is only one way to put the pairs of a list in order.
pub proof fn law_one_sorted_list(how: Arrangement, a: Seq<Pair>, b: Seq<Pair>)
    requires
        in_order(how, a),
        in_order(how, b),
        a.to_multiset() == b.to_multiset(),
    ensures
        a == b,
    decreases a.len(),
{
    a.to_multiset_ensures();
    b.to_multiset_ensures();
    if a.len() == 0 {
        assert(a =~= b);
    } else {
        assert(a.contains(a[0]));
        assert(b.contains(b[0]));
        assert(b.to_multiset().count(a[0]) > 0);
        assert(a.to_multiset().count(b[0]) > 0);
        let j = choose|j: int| 0 <= j < b.len() && b[j] == a[0];
        let i = choose|i: int| 0 <= i < a.len() && a[i] == b[0];
        law_goes_before_is_an_order(how, a[0], b[0], a[0]);
        assert(a[0] == b[0]);
        assert(a.remove(0) =~= a.drop_first());
        assert(b.remove(0) =~= b.drop_first());
        assert forall|x: int, y: int| 0 <= x < y < a.len() - 1 implies !goes_before(
            how,
            #[trigger] a.drop_first()[y],
            #[trigger] a.drop_first()[x],
        ) by {
            assert(!goes_before(how, a[y + 1], a[x + 1]));
        }
        assert forall|x: int, y: int| 0 <= x < y < b.len() - 1 implies !goes_before(
            how,
            #[trigger] b.drop_first()[y],
            #[trigger] b.drop_first()[x],
        ) by {
            assert(!goes_before(how, b[y + 1], b[x + 1]));
        }
        law_one_sorted_list(how, a.drop_first(), b.drop_first());
        assert(a =~= seq![a[0]] + a.drop_first());
        assert(b =~= seq![b[0]] + b.drop_first());
    }
}

/// Compares by dictionary.
pub(crate) fn text_less(a: &str, b: &str) -> (r: bool)
    ensures
        r == lex_less(a@, b@),
{
    let x = chars_of(a);
    let y = chars_of(b);
    let mut i: usize = 0;
    assert(x@.skip(0) =~= x@);
    assert(y@.skip(0) =~= y@);
    while i < x.len() && i < y.len()
        invariant
            i <= x@.len(),
            i <= y@.len(),
            x@ == a@,
            y@ == b@,
            lex_less(a@, b@) == lex_less(x@.skip(i as int), y@.skip(i as int)),
        decreases x@.len() - i,
    {
        if x[i] < y[i] {
            return true;
        }
        if y[i] < x[i] {
            return false;
        }
        assert(x@.skip(i as int).drop_first() =~= x@.skip(i + 1));
        assert(y@.skip(i as int).drop_first() =~= y@.skip(i + 1));
        i += 1;
    }
    i < y.len()
}

fn pair_less(how: Arrangement, a: &(String, String), b: &(String, String)) -> (r: bool)
    ensures
        r == goes_before(how, a.deep_view(), b.deep_view()),
{
    let by_dictionary: bool = text_less(a.0.as_str(), b.0.as_str()) || (a.0 == b.0 && text_less(
        a.1.as_str(),
        b.1.as_str(),
    ));
    match how {
        Arrangement::Dictionary => by_dictionary,
        Arrangement::LongestFirst => {
            let la: usize = a.0.as_str().as_bytes().len();
            let lb: usize = b.0.as_str().as_bytes().len();
            la > lb || (la == lb && by_dictionary)
        },
    }
}

/// Sorts the pairs: the same pairs, each as often as before, in order.
pub(crate) fn sorted(how: Arrangement, list: Vec<(String, String)>) -> (r: Vec<(String, String)>)
    ensures
        in_order(how, r.deep_view()),
        r.deep_view().to_multiset() == list.deep_view().to_multiset(),
{
    let mut r: Vec<(String, String)> = Vec::new();
    let mut list = list;
    let ghost all = list.deep_view();
    proof {
        assert(r.deep_view() =~= Seq::<Pair>::empty());
        r.deep_view().to_multiset_ensures();
        assert(all.to_multiset() =~= r.deep_view().to_multiset().add(
            list.deep_view().to_multiset(),
        ));
    }
    while list.len() > 0
        invariant
            in_order(how, r.deep_view()),
            all.to_multiset() == r.deep_view().to_multiset().add(list.deep_view().to_multiset()),
        decreases list.len(),
    {
        let ghost before = list.deep_view();
        let e: (String, String) = list.pop().unwrap();
        let ghost rest = list.deep_view();
        let ghost new = e.deep_view();
        assert(before =~= rest.push(new));
        let ghost done = r.deep_view();
        insert_in_order(how, &mut r, e);
        assert(all.to_multiset() =~= r.deep_view().to_multiset().add(rest.to_multiset())) by {
            rest.to_multiset_ensures();
            assert(done.to_multiset().add(rest.to_multiset().insert(new))
                =~= done.to_multiset().insert(new).add(rest.to_multiset()));
        }
    }
    proof {
        assert(list.deep_view() =~= Seq::<Pair>::empty());
        list.deep_view().to_multiset_ensures();
        assert(all.to_multiset() =~= r.deep_view().to_multiset());
    }
    r
}

/// Puts one more pair where it belongs.
fn insert_in_order(how: Arrangement, list: &mut Vec<(String, String)>, e: (String, String))
    requires
        in_order(how, old(list).deep_view()),
    ensures
        in_order(how, final(list).deep_view()),
        final(list).deep_view().to_multiset() == old(list).deep_view().to_multiset().insert(
            e.deep_view(),
        ),
{
    let ghost was = list.deep_view();
    let ghost new = e.deep_view();
    let mut k: usize = list.len();
    while k > 0 && pair_less(how, &e, &list[k - 1])
        invariant
            k <= list.len(),
            was == list.deep_view(),
            new == e.deep_view(),
            forall|j: int| k <= j < was.len() ==> goes_before(how, new, #[trigger] was[j]),
        decreases k,
    {
        k -= 1;
    }
    list.insert(k, e);
    proof {
        assert(list.deep_view() =~= was.insert(k as int, new));
        was.insert_ensures(k as int, new);
        let now = list.deep_view();
        assert forall|i: int, j: int| 0 <= i < j < now.len() implies !goes_before(
            how,
            #[trigger] now[j],
            #[trigger] now[i],
        ) by {
            let a = if i < k { i } else { i - 1 };
            let b = if j < k { j } else { j - 1 };
            if i == k {
                law_goes_before_is_an_order(how, new, was[b], new);
            } else if j == k {
                law_goes_before_is_an_order(how, was[k - 1], new, was[a]);
                if a < k - 1 {
                    law_goes_before_is_an_order(how, new, was[a], was[k - 1]);
                    law_goes_before_is_an_order(how, was[a], was[k - 1], new);
                }
            } else {
                assert(a < b);
            }
        }
        lemma_insert_multiset(was, k as int, new);
    }
}

proof fn lemma_insert_multiset(s: Seq<Pair>, k: int, e: Pair)
    requires
        0 <= k <= s.len(),
    ensures
        s.insert(k, e).to_multiset() == s.to_multiset().insert(e),
{
    broadcast use vstd::seq_lib::group_to_multiset_ensures;

    let t = s.insert(k, e);
    s.insert_ensures(k, e);
    assert(t.remove(k) =~= s);
    assert(t[k] == e);
    assert(t.contains(e));
    assert(t.to_multiset() =~= s.to_multiset().insert(e));
}

/// Dictionary order: the first character in which two texts differ decides,
/// and a text stands before one that goes on where it ends.
pub proof fn law_the_first_difference_decides(
    common: Seq<char>,
    a: Seq<char>,
    b: Seq<char>,
    x: char,
    y: char,
)
    ensures
        x < y ==> lex_less(common + seq![x] + a, common + seq![y] + b),
        lex_less(common, common + seq![x] + a),
        !lex_less(common + seq![x] + a, common),
    decreases common.len(),
{
    let s = common + seq![x] + a;
    let t = common + seq![y] + b;
    if common.len() > 0 {
        let rest = common.drop_first();
        law_the_first_difference_decides(rest, a, b, x, y);
        assert(s.drop_first() =~= rest + seq![x] + a);
        assert(t.drop_first() =~= rest + seq![y] + b);
    }
}

/// Pairs go by their first texts and, where these agree, by their second
/// ones; a list with the longest first goes by the lengths of the first texts
/// before that.
pub proof fn law_what_pairs_go_by(a: Pair, b: Pair)
    ensures
        lex_less(a.0, b.0) ==> goes_before(Arrangement::Dictionary, a, b),
        a.0 == b.0 && lex_less(a.1, b.1) ==> goes_before(Arrangement::Dictionary, a, b),
        encode_utf8(a.0).len() > encode_utf8(b.0).len() ==> goes_before(
            Arrangement::LongestFirst,
            a,
            b,
        ),
        encode_utf8(a.0).len() == encode_utf8(b.0).len() ==> goes_before(
            Arrangement::LongestFirst,
            a,
            b,
        ) == goes_before(Arrangement::Dictionary, a, b),
{
}

/// In a list that is in order, of two different pairs the one that goes before
/// the other stands before it.
pub proof fn law_order_is_kept(how: Arrangement, s: Seq<Pair>, i: int, j: int)
    requires
        in_order(how, s),
        0 <= i < s.len(),
        0 <= j < s.len(),
        goes_before(how, s[i], s[j]),
    ensures
        i < j,
{
    law_goes_before_is_an_order(how, s[i], s[j], s[i]);
}

} // verus!
