//! The laws the model obeys, each proved over the specifications that the
//! executable operations are verified against.

use vstd::prelude::*;

use crate::table::{
    contains_spec, feed_pairs, feed_spec, gen_ok, has_edge, is_key, lemma_alist_get_exists,
    lemma_feed_pairs_effect, lemma_tbl_get_exists, lemma_tbl_get_some, pairs_of, tbl_closed,
    tbl_wf, TERMINATOR,
};

verus! {

/// Law: after ingesting a non-empty string, the containment check accepts
/// that string.
pub proof fn lemma_feed_then_contains(t: Seq<(char, Seq<(char, u64)>)>, s: Seq<char>)
    requires
        tbl_wf(t),
        s.len() > 0,
    ensures
        contains_spec(feed_spec(t, s), s),
{
    if !contains_spec(t, s) {
        lemma_feed_pairs_effect(t, pairs_of(s));
    }
}

/// Law: training is deterministic — two models whose tables hold the same
/// edges and counts, fed the same string, hold the same edges and counts
/// afterwards.  Fed the same strings in the same order from birth, two
/// models therefore never differ.
pub proof fn lemma_training_deterministic(
    t1: Seq<(char, Seq<(char, u64)>)>,
    t2: Seq<(char, Seq<(char, u64)>)>,
    s: Seq<char>,
)
    requires
        t1 == t2,
    ensures
        feed_spec(t1, s) == feed_spec(t2, s),
{
}

/// The table learned from one training string of a single character: that
/// character, followed only by the terminator.
pub open spec fn single_char_tbl(c: char) -> Seq<(char, Seq<(char, u64)>)> {
    seq![(c, seq![(TERMINATOR, 1u64)])]
}

/// Law: a fresh model fed one single-character string learns exactly one
/// edge, stays closed, and every generation outcome with a positive bound
/// is exactly that string.
pub proof fn lemma_gen_after_single(c: char, out: Seq<char>, bound: nat)
    requires
        c != TERMINATOR,
    ensures
        feed_spec(Seq::empty(), seq![c]) == single_char_tbl(c),
        tbl_wf(single_char_tbl(c)),
        tbl_closed(single_char_tbl(c)),
        single_char_tbl(c).len() > 0,
        bound >= 1 && gen_ok(single_char_tbl(c), out, bound) ==> out =~= seq![c],
{
    let s = seq![c];
    let ps = pairs_of(s);
    let t = single_char_tbl(c);
    assert(ps.len() == 1 && ps[0] == (c, TERMINATOR));
    assert(!has_edge(Seq::empty(), ps[0].0, ps[0].1));
    assert(!contains_spec(Seq::<(char, Seq<(char, u64)>)>::empty(), s));
    assert(feed_pairs(Seq::empty(), ps) == feed_pairs(
        crate::table::bump_tbl(Seq::empty(), c, TERMINATOR),
        ps.drop_first(),
    ));
    assert(ps.drop_first().len() == 0);
    assert(crate::table::bump_tbl(Seq::<(char, Seq<(char, u64)>)>::empty(), c, TERMINATOR) =~~= t);
    assert(feed_spec(Seq::empty(), s) == t);
    // Which lookups succeed in this one-entry table.
    assert forall|x: char| #[trigger] is_key(t, x) implies x == c by {
        lemma_tbl_get_exists(t, x);
    }
    assert(t[0].0 == c);
    lemma_tbl_get_exists(t, c);
    lemma_tbl_get_some(t, c, 0);
    assert forall|x: char, y: char| #[trigger] has_edge(t, x, y) implies x == c && y
        == TERMINATOR by {
        lemma_tbl_get_exists(t, x);
        lemma_alist_get_exists(t[0].1, y);
    }
    if bound >= 1 && gen_ok(t, out, bound) {
        if out.len() == 0 {
            assert(is_key(t, TERMINATOR));
            assert(false);
        }
        assert(out[0] == c);
        if out.len() > 1 {
            assert(has_edge(t, out[0], out[1]));
            assert(out[1] == TERMINATOR);
            assert(false);
        }
        assert(out =~= seq![c]);
    }
}

/// The table learned from one training string of two distinct characters:
/// the first followed by the second, the second by the terminator.
pub open spec fn two_char_tbl(a: char, b: char) -> Seq<(char, Seq<(char, u64)>)> {
    seq![(a, seq![(b, 1u64)]), (b, seq![(TERMINATOR, 1u64)])]
}

/// Law: a fresh model fed one two-character string of distinct characters
/// can generate, and every generation outcome with a bound of at least two
/// is either the whole string or its second character alone — depending
/// only on which start character the uniform draw picked.
pub proof fn lemma_gen_after_pair(a: char, b: char, out: Seq<char>, bound: nat)
    requires
        a != TERMINATOR,
        b != TERMINATOR,
        a != b,
    ensures
        feed_spec(Seq::empty(), seq![a, b]) == two_char_tbl(a, b),
        tbl_wf(two_char_tbl(a, b)),
        tbl_closed(two_char_tbl(a, b)),
        two_char_tbl(a, b).len() > 0,
        bound >= 2 && gen_ok(two_char_tbl(a, b), out, bound) ==> (out =~= seq![a, b] || out
            =~= seq![b]),
{
    let s = seq![a, b];
    let ps = pairs_of(s);
    let t = two_char_tbl(a, b);
    assert(ps.len() == 2 && ps[0] == (a, b) && ps[1] == (b, TERMINATOR));
    assert(!has_edge(Seq::empty(), ps[0].0, ps[0].1));
    assert(!contains_spec(Seq::<(char, Seq<(char, u64)>)>::empty(), s));
    let t1 = crate::table::bump_tbl(Seq::empty(), a, b);
    assert(t1 =~~= seq![(a, seq![(b, 1u64)])]);
    assert(feed_pairs(Seq::empty(), ps) == feed_pairs(t1, ps.drop_first()));
    let t2 = crate::table::bump_tbl(t1, b, TERMINATOR);
    assert(t1[0].0 == a && a != b);
    assert(t2 =~~= seq![t1[0]] + crate::table::bump_tbl(t1.drop_first(), b, TERMINATOR));
    assert(t1.drop_first().len() == 0);
    assert(t2 =~~= t);
    assert(ps.drop_first()[0] == ps[1]);
    assert(feed_pairs(t1, ps.drop_first()) == feed_pairs(t2, ps.drop_first().drop_first()));
    assert(ps.drop_first().drop_first().len() == 0);
    assert(feed_spec(Seq::empty(), s) == t);
    // Which lookups succeed in this two-entry table.
    lemma_tbl_get_some(t, a, 0);
    lemma_tbl_get_some(t, b, 1);
    assert forall|x: char| #[trigger] is_key(t, x) implies x == a || x == b by {
        lemma_tbl_get_exists(t, x);
    }
    assert forall|x: char, y: char| #[trigger] has_edge(t, x, y) implies ((x == a && y == b) || (
    x == b && y == TERMINATOR)) by {
        lemma_tbl_get_exists(t, x);
        if x == a {
            lemma_alist_get_exists(t[0].1, y);
        }
        if x == b {
            lemma_alist_get_exists(t[1].1, y);
        }
    }
    lemma_alist_get_exists(t[0].1, b);
    lemma_alist_get_exists(t[1].1, TERMINATOR);
    assert(t[0].1[0].0 == b);
    assert(t[1].1[0].0 == TERMINATOR);
    assert(has_edge(t, a, b));
    assert(has_edge(t, b, TERMINATOR));
    if bound >= 2 && gen_ok(t, out, bound) {
        if out.len() == 0 {
            assert(is_key(t, TERMINATOR));
            assert(false);
        }
        if out[0] == a {
            if out.len() == 1 {
                assert(has_edge(t, out.last(), TERMINATOR));
                assert(false);
            }
            assert(has_edge(t, out[0], out[1]));
            assert(out[1] == b);
            if out.len() > 2 {
                assert(has_edge(t, out[1], out[2]));
                assert(out[2] == TERMINATOR);
                assert(false);
            }
            assert(out =~= seq![a, b]);
        } else {
            assert(out[0] == b);
            if out.len() > 1 {
                assert(has_edge(t, out[0], out[1]));
                assert(out[1] == TERMINATOR);
                assert(false);
            }
            assert(out =~= seq![b]);
        }
    }
}

} // verus!
