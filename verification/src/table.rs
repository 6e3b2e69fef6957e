//! The mathematical model of a transition table.
//!
//! A table is a sequence of entries `(source, successors)`, where the
//! successors are themselves a sequence of `(character, count)` pairs.  Both
//! levels are association lists: a key may occur at most once, and a count is
//! never zero.  The reserved terminator character marks the end of a training
//! string.

use vstd::pervasive::VecAdditionalExecFns;
use vstd::prelude::*;

verus! {

/// The reserved sentinel that ends every training string.
pub const TERMINATOR: char = '\0';

/// The count stored for an edge observed once more, saturating at the
/// largest representable count.
pub open spec fn sat_inc(c: u64) -> u64 {
    if c < u64::MAX {
        (c + 1) as u64
    } else {
        u64::MAX
    }
}

/// The count attached to `b` in the successor list `l`, taking the first
/// entry whose character is `b`.
pub open spec fn alist_get(l: Seq<(char, u64)>, b: char) -> Option<u64>
    decreases l.len(),
{
    if l.len() == 0 {
        None
    } else if l[0].0 == b {
        Some(l[0].1)
    } else {
        alist_get(l.drop_first(), b)
    }
}

/// A well-formed successor list: distinct characters, no zero counts.
pub open spec fn alist_wf(l: Seq<(char, u64)>) -> bool {
    &&& forall|i: int, j: int| 0 <= i < j < l.len() ==> l[i].0 != l[j].0
    &&& forall|i: int| 0 <= i < l.len() ==> l[i].1 >= 1
}

/// The successor list attached to `a` in table `t`, taking the first entry
/// whose source is `a`.
pub open spec fn tbl_get(t: Seq<(char, Seq<(char, u64)>)>, a: char) -> Option<Seq<(char, u64)>>
    decreases t.len(),
{
    if t.len() == 0 {
        None
    } else if t[0].0 == a {
        Some(t[0].1)
    } else {
        tbl_get(t.drop_first(), a)
    }
}

/// Whether `a` appears as the source of at least one recorded pair.
pub open spec fn is_key(t: Seq<(char, Seq<(char, u64)>)>, a: char) -> bool {
    tbl_get(t, a) is Some
}

/// Whether the pair `a` followed by `b` has been recorded.
pub open spec fn has_edge(t: Seq<(char, Seq<(char, u64)>)>, a: char, b: char) -> bool {
    match tbl_get(t, a) {
        Some(l) => alist_get(l, b) is Some,
        None => false,
    }
}

/// A well-formed table: distinct sources, each successor list well formed.
pub open spec fn tbl_wf(t: Seq<(char, Seq<(char, u64)>)>) -> bool {
    &&& forall|i: int, j: int| 0 <= i < j < t.len() ==> t[i].0 != t[j].0
    &&& forall|i: int| 0 <= i < t.len() ==> alist_wf(#[trigger] t[i].1)
}

/// A table every generation walk can finish in: each source has at least one
/// successor, and each recorded successor other than the terminator is
/// itself a source.  Tables built by ingestion alone always satisfy this;
/// a restored snapshot need not.
pub open spec fn tbl_closed(t: Seq<(char, Seq<(char, u64)>)>) -> bool {
    &&& forall|i: int| 0 <= i < t.len() ==> (#[trigger] t[i].1).len() > 0
    &&& forall|x: char, y: char| #[trigger] has_edge(t, x, y) && y != TERMINATOR ==> is_key(t, y)
}

/// The successor list `l` after recording `b` once more: the first entry for
/// `b` is incremented, or a fresh entry with count one is appended.
pub open spec fn bump_alist(l: Seq<(char, u64)>, b: char) -> Seq<(char, u64)>
    decreases l.len(),
{
    if l.len() == 0 {
        seq![(b, 1u64)]
    } else if l[0].0 == b {
        seq![(l[0].0, sat_inc(l[0].1))] + l.drop_first()
    } else {
        seq![l[0]] + bump_alist(l.drop_first(), b)
    }
}

/// The table `t` after recording the pair `a` followed by `b` once more.
pub open spec fn bump_tbl(
    t: Seq<(char, Seq<(char, u64)>)>,
    a: char,
    b: char,
) -> Seq<(char, Seq<(char, u64)>)>
    decreases t.len(),
{
    if t.len() == 0 {
        seq![(a, seq![(b, 1u64)])]
    } else if t[0].0 == a {
        seq![(t[0].0, bump_alist(t[0].1, b))] + t.drop_first()
    } else {
        seq![t[0]] + bump_tbl(t.drop_first(), a, b)
    }
}

/// The adjacent pairs of `s` extended by the terminator: one pair per
/// character of `s`.
pub open spec fn pairs_of(s: Seq<char>) -> Seq<(char, char)> {
    Seq::new(
        s.len(),
        |i: int|
            (
                s[i],
                if i + 1 < s.len() {
                    s[i + 1]
                } else {
                    TERMINATOR
                },
            ),
    )
}

/// Whether every adjacent pair of `s` extended by the terminator is already
/// recorded in `t`: the approximate containment check.
pub open spec fn contains_spec(t: Seq<(char, Seq<(char, u64)>)>, s: Seq<char>) -> bool {
    forall|i: int|
        0 <= i < s.len() ==> has_edge(t, (#[trigger] pairs_of(s)[i]).0, pairs_of(s)[i].1)
}

/// The table after recording each pair of `ps`, in order.
pub open spec fn feed_pairs(
    t: Seq<(char, Seq<(char, u64)>)>,
    ps: Seq<(char, char)>,
) -> Seq<(char, Seq<(char, u64)>)>
    decreases ps.len(),
{
    if ps.len() == 0 {
        t
    } else {
        feed_pairs(bump_tbl(t, ps[0].0, ps[0].1), ps.drop_first())
    }
}

/// The table after one ingestion of the non-empty string `s`: unchanged when
/// the containment check already accepts `s`, otherwise every adjacent pair
/// of `s` extended by the terminator is recorded once more.
pub open spec fn feed_spec(
    t: Seq<(char, Seq<(char, u64)>)>,
    s: Seq<char>,
) -> Seq<(char, Seq<(char, u64)>)> {
    if contains_spec(t, s) {
        t
    } else {
        feed_pairs(t, pairs_of(s))
    }
}

/// A lookup returns the count of the first entry for `b`.
pub proof fn lemma_alist_get_some(l: Seq<(char, u64)>, b: char, j: int)
    requires
        0 <= j < l.len(),
        l[j].0 == b,
        forall|k: int| 0 <= k < j ==> l[k].0 != b,
    ensures
        alist_get(l, b) == Some(l[j].1),
    decreases j,
{
    if j > 0 {
        lemma_alist_get_some(l.drop_first(), b, j - 1);
    }
}

/// A lookup succeeds exactly when some entry carries `b`.
pub proof fn lemma_alist_get_exists(l: Seq<(char, u64)>, b: char)
    ensures
        alist_get(l, b) is Some <==> exists|j: int| 0 <= j < l.len() && l[j].0 == b,
    decreases l.len(),
{
    if l.len() > 0 && l[0].0 != b {
        lemma_alist_get_exists(l.drop_first(), b);
        if alist_get(l, b) is Some {
            let j = choose|j: int| 0 <= j < l.drop_first().len() && l.drop_first()[j].0 == b;
            assert(l[j + 1].0 == b);
        }
        if exists|j: int| 0 <= j < l.len() && l[j].0 == b {
            let j = choose|j: int| 0 <= j < l.len() && l[j].0 == b;
            assert(l.drop_first()[j - 1].0 == b);
        }
    }
}

/// A lookup returns the successor list of the first entry for `a`.
pub proof fn lemma_tbl_get_some(t: Seq<(char, Seq<(char, u64)>)>, a: char, j: int)
    requires
        0 <= j < t.len(),
        t[j].0 == a,
        forall|k: int| 0 <= k < j ==> t[k].0 != a,
    ensures
        tbl_get(t, a) == Some(t[j].1),
    decreases j,
{
    if j > 0 {
        lemma_tbl_get_some(t.drop_first(), a, j - 1);
    }
}

/// A lookup succeeds exactly when some entry has source `a`.
pub proof fn lemma_tbl_get_exists(t: Seq<(char, Seq<(char, u64)>)>, a: char)
    ensures
        tbl_get(t, a) is Some <==> exists|j: int| 0 <= j < t.len() && t[j].0 == a,
    decreases t.len(),
{
    if t.len() > 0 && t[0].0 != a {
        lemma_tbl_get_exists(t.drop_first(), a);
        if tbl_get(t, a) is Some {
            let j = choose|j: int|
                0 <= j < t.drop_first().len() && t.drop_first()[j].0 == a;
            assert(t[j + 1].0 == a);
        }
        if exists|j: int| 0 <= j < t.len() && t[j].0 == a {
            let j = choose|j: int| 0 <= j < t.len() && t[j].0 == a;
            assert(t.drop_first()[j - 1].0 == a);
        }
    }
}

/// Recording `b` against a list whose first entry for `b` stands at `j`
/// increments that entry in place.
pub proof fn lemma_bump_alist_found(l: Seq<(char, u64)>, b: char, j: int)
    requires
        0 <= j < l.len(),
        l[j].0 == b,
        forall|k: int| 0 <= k < j ==> l[k].0 != b,
    ensures
        bump_alist(l, b) =~= l.update(j, (b, sat_inc(l[j].1))),
    decreases j,
{
    if j > 0 {
        lemma_bump_alist_found(l.drop_first(), b, j - 1);
    }
}

/// Recording `b` against a list without an entry for `b` appends a fresh
/// entry with count one.
pub proof fn lemma_bump_alist_absent(l: Seq<(char, u64)>, b: char)
    requires
        forall|k: int| 0 <= k < l.len() ==> l[k].0 != b,
    ensures
        bump_alist(l, b) =~= l.push((b, 1u64)),
    decreases l.len(),
{
    if l.len() > 0 {
        lemma_bump_alist_absent(l.drop_first(), b);
        assert(bump_alist(l, b) =~= seq![l[0]] + l.drop_first().push((b, 1u64)));
    }
}

/// Recording a pair whose source already stands at `j` rewrites only that
/// entry's successor list.
pub proof fn lemma_bump_tbl_found(t: Seq<(char, Seq<(char, u64)>)>, a: char, b: char, j: int)
    requires
        0 <= j < t.len(),
        t[j].0 == a,
        forall|k: int| 0 <= k < j ==> t[k].0 != a,
    ensures
        bump_tbl(t, a, b) =~= t.update(j, (a, bump_alist(t[j].1, b))),
    decreases j,
{
    if j > 0 {
        lemma_bump_tbl_found(t.drop_first(), a, b, j - 1);
    }
}

/// Recording a pair with an unseen source appends a fresh entry.
pub proof fn lemma_bump_tbl_absent(t: Seq<(char, Seq<(char, u64)>)>, a: char, b: char)
    requires
        forall|k: int| 0 <= k < t.len() ==> t[k].0 != a,
    ensures
        bump_tbl(t, a, b) =~= t.push((a, seq![(b, 1u64)])),
    decreases t.len(),
{
    if t.len() > 0 {
        lemma_bump_tbl_absent(t.drop_first(), a, b);
        assert(bump_tbl(t, a, b) =~= seq![t[0]] + t.drop_first().push((a, seq![(b, 1u64)])));
    }
}

/// The successor list of `a`, or the empty list when `a` is not a source.
pub open spec fn succ_list(t: Seq<(char, Seq<(char, u64)>)>, a: char) -> Seq<(char, u64)> {
    match tbl_get(t, a) {
        Some(l) => l,
        None => Seq::empty(),
    }
}

/// Recording `b` keeps a successor list well formed and non-empty, and
/// changes which lookups succeed only at `b`.
pub proof fn lemma_bump_alist_effect(l: Seq<(char, u64)>, b: char)
    requires
        alist_wf(l),
    ensures
        alist_wf(bump_alist(l, b)),
        bump_alist(l, b).len() > 0,
        forall|y: char|
            #[trigger] alist_get(bump_alist(l, b), y) is Some <==> (alist_get(l, y) is Some || y
                == b),
{
    lemma_alist_get_exists(l, b);
    if alist_get(l, b) is Some {
        let j = choose|j: int| 0 <= j < l.len() && l[j].0 == b;
        lemma_bump_alist_found(l, b, j);
        let u = l.update(j, (b, sat_inc(l[j].1)));
        assert(forall|i: int| 0 <= i < u.len() ==> u[i].0 == l[i].0);
        assert forall|y: char| #[trigger] alist_get(u, y) is Some implies (alist_get(l, y)
            is Some || y == b) by {
            lemma_alist_get_exists(u, y);
            lemma_alist_get_exists(l, y);
            let k = choose|k: int| 0 <= k < u.len() && u[k].0 == y;
            assert(l[k].0 == y);
        }
        assert forall|y: char| alist_get(l, y) is Some || y == b implies #[trigger] alist_get(
            u,
            y,
        ) is Some by {
            lemma_alist_get_exists(u, y);
            lemma_alist_get_exists(l, y);
            let k = choose|k: int| 0 <= k < l.len() && l[k].0 == y;
            assert(u[k].0 == y);
        }
    } else {
        lemma_bump_alist_absent(l, b);
        let u = l.push((b, 1u64));
        assert forall|y: char| #[trigger] alist_get(u, y) is Some implies (alist_get(l, y)
            is Some || y == b) by {
            lemma_alist_get_exists(u, y);
            lemma_alist_get_exists(l, y);
            let k = choose|k: int| 0 <= k < u.len() && u[k].0 == y;
            if k < l.len() {
                assert(l[k].0 == y);
            }
        }
        assert forall|y: char| alist_get(l, y) is Some || y == b implies #[trigger] alist_get(
            u,
            y,
        ) is Some by {
            lemma_alist_get_exists(u, y);
            lemma_alist_get_exists(l, y);
            if y == b {
                assert(u[l.len() as int].0 == b);
            } else {
                let k = choose|k: int| 0 <= k < l.len() && l[k].0 == y;
                assert(u[k].0 == y);
            }
        }
    }
}

/// Recording the pair `a` followed by `b` keeps the table well formed,
/// appends `b` to the successors of `a`, and leaves every other source's
/// successors unchanged.
pub proof fn lemma_bump_tbl_effect(t: Seq<(char, Seq<(char, u64)>)>, a: char, b: char)
    requires
        tbl_wf(t),
    ensures
        tbl_wf(bump_tbl(t, a, b)),
        tbl_get(bump_tbl(t, a, b), a) == Some(bump_alist(succ_list(t, a), b)),
        forall|x: char| x != a ==> #[trigger] tbl_get(bump_tbl(t, a, b), x) == tbl_get(t, x),
        forall|x: char| is_key(bump_tbl(t, a, b), x) <==> (is_key(t, x) || x == a),
        forall|x: char, y: char|
            #[trigger] has_edge(bump_tbl(t, a, b), x, y) <==> (has_edge(t, x, y) || (x == a && y
                == b)),
        (forall|i: int| 0 <= i < t.len() ==> (#[trigger] t[i].1).len() > 0) ==> (forall|i: int|
            0 <= i < bump_tbl(t, a, b).len() ==> (#[trigger] bump_tbl(t, a, b)[i].1).len() > 0),
{
    lemma_tbl_get_exists(t, a);
    let u = bump_tbl(t, a, b);
    if tbl_get(t, a) is Some {
        let j = choose|j: int| 0 <= j < t.len() && t[j].0 == a;
        lemma_tbl_get_some(t, a, j);
        lemma_bump_tbl_found(t, a, b, j);
        assert(u =~= t.update(j, (a, bump_alist(t[j].1, b))));
        assert(forall|i: int| 0 <= i < u.len() ==> u[i].0 == t[i].0);
        lemma_bump_alist_effect(t[j].1, b);
        lemma_tbl_get_some(u, a, j);
        assert forall|x: char| x != a implies #[trigger] tbl_get(u, x) == tbl_get(t, x) by {
            lemma_tbl_get_exists(u, x);
            lemma_tbl_get_exists(t, x);
            if tbl_get(t, x) is Some {
                let j2 = choose|j2: int| 0 <= j2 < t.len() && t[j2].0 == x;
                lemma_tbl_get_some(t, x, j2);
                lemma_tbl_get_some(u, x, j2);
            }
        }
    } else {
        lemma_bump_tbl_absent(t, a, b);
        assert(u =~= t.push((a, seq![(b, 1u64)])));
        assert(bump_alist(succ_list(t, a), b) =~= seq![(b, 1u64)]);
        lemma_tbl_get_some(u, a, t.len() as int);
        lemma_bump_alist_effect(succ_list(t, a), b);
        assert forall|x: char| x != a implies #[trigger] tbl_get(u, x) == tbl_get(t, x) by {
            lemma_tbl_get_exists(u, x);
            lemma_tbl_get_exists(t, x);
            if tbl_get(t, x) is Some {
                let j2 = choose|j2: int| 0 <= j2 < t.len() && t[j2].0 == x;
                lemma_tbl_get_some(t, x, j2);
                lemma_tbl_get_some(u, x, j2);
            } else {
                if tbl_get(u, x) is Some {
                    let j2 = choose|j2: int| 0 <= j2 < u.len() && u[j2].0 == x;
                    assert(j2 == t.len());
                }
            }
        }
    }
    assert forall|x: char| is_key(u, x) <==> (is_key(t, x) || x == a) by {}
    assert forall|x: char, y: char| #[trigger] has_edge(u, x, y) <==> (has_edge(t, x, y) || (x
        == a && y == b)) by {
        if x == a {
            lemma_bump_alist_effect(succ_list(t, a), b);
        }
    }
}

/// Recording one more pair at the end of a run of recordings.
pub proof fn lemma_feed_pairs_snoc(
    t: Seq<(char, Seq<(char, u64)>)>,
    ps: Seq<(char, char)>,
    p: (char, char),
)
    ensures
        feed_pairs(t, ps.push(p)) == bump_tbl(feed_pairs(t, ps), p.0, p.1),
    decreases ps.len(),
{
    let q = ps.push(p);
    assert(q[0] == if ps.len() == 0 { p } else { ps[0] });
    assert(feed_pairs(t, q) == feed_pairs(bump_tbl(t, q[0].0, q[0].1), q.drop_first()));
    if ps.len() == 0 {
        assert(q.drop_first() =~= Seq::<(char, char)>::empty());
        assert(feed_pairs(bump_tbl(t, p.0, p.1), q.drop_first()) == bump_tbl(t, p.0, p.1));
        assert(feed_pairs(t, ps) == t);
    } else {
        assert(q.drop_first() =~= ps.drop_first().push(p));
        lemma_feed_pairs_snoc(bump_tbl(t, ps[0].0, ps[0].1), ps.drop_first(), p);
        assert(feed_pairs(t, ps) == feed_pairs(bump_tbl(t, ps[0].0, ps[0].1), ps.drop_first()));
    }
}

/// Recording a run of pairs keeps the table well formed, records every pair
/// of the run, keeps every earlier pair, and adds no other source or pair.
pub proof fn lemma_feed_pairs_effect(t: Seq<(char, Seq<(char, u64)>)>, ps: Seq<(char, char)>)
    requires
        tbl_wf(t),
    ensures
        tbl_wf(feed_pairs(t, ps)),
        forall|x: char, y: char|
            has_edge(t, x, y) ==> #[trigger] has_edge(feed_pairs(t, ps), x, y),
        forall|i: int|
            0 <= i < ps.len() ==> has_edge(
                feed_pairs(t, ps),
                (#[trigger] ps[i]).0,
                ps[i].1,
            ),
        forall|x: char|
            #[trigger] is_key(feed_pairs(t, ps), x) <==> (is_key(t, x) || exists|i: int|
                0 <= i < ps.len() && (#[trigger] ps[i]).0 == x),
        forall|x: char, y: char|
            #[trigger] has_edge(feed_pairs(t, ps), x, y) ==> (has_edge(t, x, y) || exists|i: int|
                0 <= i < ps.len() && ps[i] == (x, y)),
        (forall|i: int| 0 <= i < t.len() ==> (#[trigger] t[i].1).len() > 0) ==> (forall|i: int|
            0 <= i < feed_pairs(t, ps).len() ==> (#[trigger] feed_pairs(t, ps)[i].1).len() > 0),
    decreases ps.len(),
{
    if ps.len() > 0 {
        let t1 = bump_tbl(t, ps[0].0, ps[0].1);
        lemma_bump_tbl_effect(t, ps[0].0, ps[0].1);
        lemma_feed_pairs_effect(t1, ps.drop_first());
        let u = feed_pairs(t, ps);
        assert(u == feed_pairs(t1, ps.drop_first()));
        assert forall|x: char| #[trigger] is_key(u, x) implies (is_key(t, x) || exists|i: int|
            0 <= i < ps.len() && (#[trigger] ps[i]).0 == x) by {
            if !is_key(t, x) && is_key(u, x) {
                if is_key(t1, x) {
                    assert(ps[0].0 == x);
                } else {
                    let i = choose|i: int|
                        0 <= i < ps.drop_first().len() && (ps.drop_first()[i]).0 == x;
                    assert(ps[i + 1].0 == x);
                }
            }
        }
        assert forall|x: char| (is_key(t, x) || exists|i: int|
            0 <= i < ps.len() && (#[trigger] ps[i]).0 == x) implies #[trigger] is_key(u, x) by {
            if !is_key(t, x) {
                let i = choose|i: int| 0 <= i < ps.len() && ps[i].0 == x;
                if i > 0 {
                    assert(ps.drop_first()[i - 1].0 == x);
                }
            }
        }
        assert forall|x: char, y: char| #[trigger] has_edge(u, x, y) implies (has_edge(t, x, y)
            || exists|i: int| 0 <= i < ps.len() && ps[i] == (x, y)) by {
            if !has_edge(t, x, y) {
                if has_edge(t1, x, y) {
                    assert(ps[0] == (x, y));
                } else {
                    let i = choose|i: int|
                        0 <= i < ps.drop_first().len() && ps.drop_first()[i] == (x, y);
                    assert(ps[i + 1] == (x, y));
                }
            }
        }
        assert forall|i: int| 0 <= i < ps.len() implies has_edge(
            u,
            (#[trigger] ps[i]).0,
            ps[i].1,
        ) by {
            if i > 0 {
                assert(ps.drop_first()[i - 1] == ps[i]);
                assert(has_edge(u, ps.drop_first()[i - 1].0, ps.drop_first()[i - 1].1));
            }
        }
    }
}

/// Ingesting a whole string into a closed table leaves it closed: every
/// character of the string becomes a source, and every recorded successor is
/// either the next character of the string or the terminator.
pub proof fn lemma_feed_string_closed(t: Seq<(char, Seq<(char, u64)>)>, s: Seq<char>)
    requires
        tbl_wf(t),
        tbl_closed(t),
        s.len() > 0,
    ensures
        tbl_closed(feed_pairs(t, pairs_of(s))),
{
    let ps = pairs_of(s);
    lemma_feed_pairs_effect(t, ps);
    let u = feed_pairs(t, ps);
    assert forall|x: char, y: char| #[trigger] has_edge(u, x, y) && y != TERMINATOR implies
        is_key(u, y) by {
        if has_edge(t, x, y) {
            assert(is_key(t, y));
        } else {
            let i = choose|i: int| 0 <= i < ps.len() && ps[i] == (x, y);
            assert(i + 1 < s.len() && s[i + 1] == y);
            assert(ps[i + 1].0 == y);
        }
    }
}

/// Addition of counts, saturating at the largest representable count.
pub open spec fn sat_add(a: u64, b: u64) -> u64 {
    if a + b > u64::MAX {
        u64::MAX
    } else {
        (a + b) as u64
    }
}

/// The total weight of a successor list, saturating at the largest
/// representable count.
pub open spec fn sat_sum(l: Seq<(char, u64)>) -> u64
    decreases l.len(),
{
    if l.len() == 0 {
        0
    } else {
        sat_add(sat_sum(l.drop_last()), l.last().1)
    }
}

/// What any successful generation walk can produce: a string of bounded
/// length that starts at some source of the table, follows recorded edges,
/// never emits the terminator, and either fills the bound or stops at a
/// recorded edge to the terminator.  An empty result arises only from a zero
/// bound or a walk that started at the terminator itself.
pub open spec fn gen_ok(t: Seq<(char, Seq<(char, u64)>)>, out: Seq<char>, max_len: nat) -> bool {
    &&& out.len() <= max_len
    &&& (forall|k: int| 0 <= k < out.len() ==> out[k] != TERMINATOR)
    &&& (out.len() == 0 ==> max_len == 0 || is_key(t, TERMINATOR))
    &&& (out.len() > 0 ==> is_key(t, out[0]))
    &&& (forall|k: int| 0 <= k < out.len() - 1 ==> has_edge(t, out[k], #[trigger] out[k + 1]))
    &&& (0 < out.len() < max_len ==> has_edge(t, out.last(), TERMINATOR))
}

/// The mathematical contents of an executable transition table.
pub open spec fn deep(t: Seq<(char, Vec<(char, u64)>)>) -> Seq<(char, Seq<(char, u64)>)> {
    Seq::new(t.len(), |i: int| (t[i].0, t[i].1@))
}

/// Finds the position of the first entry for `b` in a successor list.
pub(crate) fn alist_find(l: &Vec<(char, u64)>, b: char) -> (r: Option<usize>)
    ensures
        match r {
            Some(j) => 0 <= j < l@.len() && l@[j as int].0 == b && (forall|k: int|
                0 <= k < j ==> l@[k].0 != b),
            None => forall|k: int| 0 <= k < l@.len() ==> l@[k].0 != b,
        },
{
    let mut j: usize = 0;
    while j < l.len()
        invariant
            j <= l@.len(),
            forall|k: int| 0 <= k < j ==> l@[k].0 != b,
        decreases l@.len() - j,
    {
        if l[j].0 == b {
            return Some(j);
        }
        j += 1;
    }
    None
}

/// Finds the position of the first entry for source `a` in a table.
pub(crate) fn tbl_find(t: &Vec<(char, Vec<(char, u64)>)>, a: char) -> (r: Option<usize>)
    ensures
        match r {
            Some(j) => 0 <= j < t@.len() && t@[j as int].0 == a && (forall|k: int|
                0 <= k < j ==> t@[k].0 != a),
            None => forall|k: int| 0 <= k < t@.len() ==> t@[k].0 != a,
        },
{
    let mut j: usize = 0;
    while j < t.len()
        invariant
            j <= t@.len(),
            forall|k: int| 0 <= k < j ==> t@[k].0 != a,
        decreases t@.len() - j,
    {
        if t[j].0 == a {
            return Some(j);
        }
        j += 1;
    }
    None
}

/// Copies a successor list entry by entry.
pub(crate) fn alist_copy(l: &Vec<(char, u64)>) -> (r: Vec<(char, u64)>)
    ensures
        r@ == l@,
{
    let mut r: Vec<(char, u64)> = Vec::new();
    let mut j: usize = 0;
    while j < l.len()
        invariant
            j <= l@.len(),
            r@ =~= l@.take(j as int),
        decreases l@.len() - j,
    {
        r.push(l[j]);
        j += 1;
    }
    proof {
        assert(r@ =~= l@);
    }
    r
}

/// Records `b` once more in an executable successor list.
pub(crate) fn alist_bump(l: &mut Vec<(char, u64)>, b: char)
    ensures
        final(l)@ == bump_alist(old(l)@, b),
{
    match alist_find(l, b) {
        Some(j) => {
            let c = l[j].1;
            let c2 = if c < u64::MAX {
                c + 1
            } else {
                c
            };
            l.set(j, (b, c2));
            proof {
                lemma_bump_alist_found(old(l)@, b, j as int);
            }
        }
        None => {
            l.push((b, 1));
            proof {
                lemma_bump_alist_absent(old(l)@, b);
            }
        }
    }
}

/// Records the pair `a` followed by `b` once more in an executable table.
pub(crate) fn tbl_bump(t: &mut Vec<(char, Vec<(char, u64)>)>, a: char, b: char)
    ensures
        deep(final(t)@) == bump_tbl(deep(old(t)@), a, b),
{
    match tbl_find(t, a) {
        Some(j) => {
            let mut inner = alist_copy(&t[j].1);
            alist_bump(&mut inner, b);
            t.set(j, (a, inner));
            proof {
                lemma_bump_tbl_found(deep(old(t)@), a, b, j as int);
                assert(deep(t@) =~~= bump_tbl(deep(old(t)@), a, b));
            }
        }
        None => {
            let mut inner: Vec<(char, u64)> = Vec::new();
            inner.push((b, 1));
            t.push((a, inner));
            proof {
                lemma_bump_tbl_absent(deep(old(t)@), a, b);
                assert(deep(t@) =~~= bump_tbl(deep(old(t)@), a, b));
            }
        }
    }
}

} // verus!
