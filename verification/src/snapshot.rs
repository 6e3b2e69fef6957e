//! The snapshot format: a transition table rendered as a run of fixed-width
//! decimal numbers, and its exact parser.
//!
//! The numbers are, in order: the number of sources; then for each source
//! its character code, its number of successors, and for each successor its
//! character code and its count.  Parsing accepts exactly the renderings of
//! well-formed tables; anything else is malformed.

use vstd::prelude::*;

use crate::numbers::{block_val, fixed_digits, BLOCK};
use crate::table::{alist_wf, tbl_wf};

verus! {

/// The number a character is written as: its Unicode scalar value.
pub open spec fn code_of(c: char) -> u64 {
    (c as u32) as u64
}

/// Whether a number is the scalar value of some character.
pub open spec fn valid_code(u: u64) -> bool {
    u < 0xD800 || (0xE000 <= u && u < 0x110000)
}

/// The character a valid code stands for.
pub open spec fn char_of_code(u: u64) -> char {
    choose|c: char| code_of(c) == u
}

/// The numbers that render a successor list: code and count of each entry.
pub open spec fn encode_edges(l: Seq<(char, u64)>) -> Seq<u64>
    decreases l.len(),
{
    if l.len() == 0 {
        Seq::empty()
    } else {
        seq![code_of(l[0].0), l[0].1] + encode_edges(l.drop_first())
    }
}

/// The numbers that render the entries of a table.
pub open spec fn encode_entries(t: Seq<(char, Seq<(char, u64)>)>) -> Seq<u64>
    decreases t.len(),
{
    if t.len() == 0 {
        Seq::empty()
    } else {
        seq![code_of(t[0].0), t[0].1.len() as u64] + encode_edges(t[0].1) + encode_entries(
            t.drop_first(),
        )
    }
}

/// The numbers that render a whole table.
pub open spec fn encode_tbl(t: Seq<(char, Seq<(char, u64)>)>) -> Seq<u64> {
    seq![t.len() as u64] + encode_entries(t)
}

/// Reads `n` successor entries from the front of `v`: the list read and
/// what is left, or nothing on a bad code or a zero count.
pub open spec fn decode_edges(v: Seq<u64>, n: nat) -> Option<(Seq<(char, u64)>, Seq<u64>)>
    decreases n,
{
    if n == 0 {
        Some((Seq::empty(), v))
    } else if v.len() < 2 {
        None
    } else if !valid_code(v[0]) || v[1] == 0 {
        None
    } else {
        match decode_edges(v.skip(2), (n - 1) as nat) {
            Some((l, rest)) => Some((seq![(char_of_code(v[0]), v[1])] + l, rest)),
            None => None,
        }
    }
}

/// Reads `n` table entries from the front of `v`.
pub open spec fn decode_entries(v: Seq<u64>, n: nat) -> Option<
    (Seq<(char, Seq<(char, u64)>)>, Seq<u64>),
>
    decreases n,
{
    if n == 0 {
        Some((Seq::empty(), v))
    } else if v.len() < 2 {
        None
    } else if !valid_code(v[0]) {
        None
    } else {
        match decode_edges(v.skip(2), v[1] as nat) {
            Some((l, rest)) => match decode_entries(rest, (n - 1) as nat) {
                Some((t, rest2)) => Some((seq![(char_of_code(v[0]), l)] + t, rest2)),
                None => None,
            },
            None => None,
        }
    }
}

/// Reads a whole table: every number must be consumed and the result must
/// be well formed.
pub open spec fn decode_tbl(v: Seq<u64>) -> Option<Seq<(char, Seq<(char, u64)>)>> {
    if v.len() == 0 {
        None
    } else {
        match decode_entries(v.skip(1), v[0] as nat) {
            Some((t, rest)) => if rest.len() == 0 && tbl_wf(t) {
                Some(t)
            } else {
                None
            },
            None => None,
        }
    }
}

/// The characters that render a run of numbers, one fixed-width block each.
pub open spec fn render_chars(v: Seq<u64>) -> Seq<char>
    decreases v.len(),
{
    if v.len() == 0 {
        Seq::empty()
    } else {
        fixed_digits(v[0] as nat, BLOCK as nat) + render_chars(v.drop_first())
    }
}

/// Reads a run of fixed-width blocks back into numbers.
pub open spec fn parse_chars(s: Seq<char>) -> Option<Seq<u64>>
    decreases s.len(),
{
    if s.len() == 0 {
        Some(Seq::empty())
    } else if s.len() < BLOCK {
        None
    } else {
        match block_val(s.take(BLOCK as int)) {
            Some(u) => match parse_chars(s.skip(BLOCK as int)) {
                Some(rest) => Some(seq![u] + rest),
                None => None,
            },
            None => None,
        }
    }
}

/// The snapshot of a table.
pub open spec fn snapshot_of(t: Seq<(char, Seq<(char, u64)>)>) -> Seq<char> {
    render_chars(encode_tbl(t))
}

/// What a snapshot string describes, if anything.
pub open spec fn parse_snapshot(s: Seq<char>) -> Option<Seq<(char, Seq<(char, u64)>)>> {
    match parse_chars(s) {
        Some(v) => decode_tbl(v),
        None => None,
    }
}

/// Two characters with the same scalar value are the same character.
pub proof fn lemma_char_code_inj(c1: char, c2: char)
    requires
        c1 as u32 == c2 as u32,
    ensures
        c1 == c2,
{
}

/// Reading the rendering of a well-formed successor list gives it back.
pub proof fn lemma_decode_edges_roundtrip(l: Seq<(char, u64)>, rest: Seq<u64>)
    requires
        alist_wf(l),
    ensures
        decode_edges(encode_edges(l) + rest, l.len()) == Some((l, rest)),
    decreases l.len(),
{
    if l.len() == 0 {
        assert(encode_edges(l) + rest =~= rest);
    } else {
        let v = encode_edges(l) + rest;
        assert(v[0] == code_of(l[0].0) && v[1] == l[0].1);
        assert(valid_code(code_of(l[0].0)));
        assert(v.skip(2) =~= encode_edges(l.drop_first()) + rest);
        assert(alist_wf(l.drop_first()));
        lemma_decode_edges_roundtrip(l.drop_first(), rest);
        let c2 = char_of_code(v[0]);
        assert(code_of(c2) == v[0]);
        assert(c2 as u32 == l[0].0 as u32);
        lemma_char_code_inj(c2, l[0].0);
        assert(c2 == l[0].0);
        assert(seq![(c2, v[1])] + l.drop_first() =~= l);
    }
}

/// Reading the rendering of well-formed entries gives them back.
pub proof fn lemma_decode_entries_roundtrip(t: Seq<(char, Seq<(char, u64)>)>, rest: Seq<u64>)
    requires
        forall|i: int| 0 <= i < t.len() ==> alist_wf(#[trigger] t[i].1),
        forall|i: int| 0 <= i < t.len() ==> (#[trigger] t[i].1).len() <= u64::MAX,
    ensures
        decode_entries(encode_entries(t) + rest, t.len()) == Some((t, rest)),
    decreases t.len(),
{
    if t.len() == 0 {
        assert(encode_entries(t) + rest =~= rest);
    } else {
        let v = encode_entries(t) + rest;
        assert(v[0] == code_of(t[0].0) && v[1] == t[0].1.len() as u64);
        assert(valid_code(code_of(t[0].0)));
        assert(v.skip(2) =~= encode_edges(t[0].1) + (encode_entries(t.drop_first()) + rest));
        assert(alist_wf(t[0].1));
        lemma_decode_edges_roundtrip(t[0].1, encode_entries(t.drop_first()) + rest);
        assert(t[0].1.len() as nat == v[1] as nat);
        assert(forall|i: int|
            0 <= i < t.drop_first().len() ==> alist_wf(#[trigger] t.drop_first()[i].1));
        lemma_decode_entries_roundtrip(t.drop_first(), rest);
        let c2 = char_of_code(v[0]);
        assert(code_of(c2) == v[0]);
        assert(c2 as u32 == t[0].0 as u32);
        lemma_char_code_inj(c2, t[0].0);
        assert(c2 == t[0].0);
        assert(seq![(c2, t[0].1)] + t.drop_first() =~= t);
    }
}

/// Reading the rendering of a well-formed table gives it back.
pub proof fn lemma_decode_tbl_roundtrip(t: Seq<(char, Seq<(char, u64)>)>)
    requires
        tbl_wf(t),
        t.len() <= u64::MAX,
        forall|i: int| 0 <= i < t.len() ==> (#[trigger] t[i].1).len() <= u64::MAX,
    ensures
        decode_tbl(encode_tbl(t)) == Some(t),
{
    let v = encode_tbl(t);
    assert(v[0] == t.len() as u64);
    assert(v.skip(1) =~= encode_entries(t) + Seq::<u64>::empty());
    lemma_decode_entries_roundtrip(t, Seq::empty());
}

/// Reading back a rendered run of numbers gives it back.
pub proof fn lemma_parse_render_chars(v: Seq<u64>)
    ensures
        parse_chars(render_chars(v)) == Some(v),
    decreases v.len(),
{
    if v.len() > 0 {
        let s = render_chars(v);
        crate::numbers::lemma_u64_fits_block();
        crate::numbers::lemma_fixed_digits_roundtrip(v[0] as nat, BLOCK as nat);
        assert(s.take(BLOCK as int) =~= fixed_digits(v[0] as nat, BLOCK as nat));
        assert(block_val(s.take(BLOCK as int)) == Some(v[0]));
        assert(s.skip(BLOCK as int) =~= render_chars(v.drop_first()));
        lemma_parse_render_chars(v.drop_first());
        assert(seq![v[0]] + v.drop_first() =~= v);
    }
}

/// The round-trip law: parsing the snapshot of any well-formed table yields
/// exactly that table, edges and counts alike.
pub proof fn lemma_snapshot_roundtrip(t: Seq<(char, Seq<(char, u64)>)>)
    requires
        tbl_wf(t),
        t.len() <= u64::MAX,
        forall|i: int| 0 <= i < t.len() ==> (#[trigger] t[i].1).len() <= u64::MAX,
    ensures
        parse_snapshot(snapshot_of(t)) == Some(t),
{
    lemma_parse_render_chars(encode_tbl(t));
    lemma_decode_tbl_roundtrip(t);
}

/// Relies on char::from_u32: a character for every value that is neither a
/// surrogate nor beyond the last code point, and nothing otherwise; the
/// character returned has exactly the given value.
#[verifier::external_body]
pub(crate) fn char_from_u32(u: u32) -> (r: Option<char>)
    ensures
        r is Some <==> valid_code(u as u64),
        r matches Some(c) ==> c as u32 == u,
{
    char::from_u32(u)
}

/// Appends the numbers that render the successor entries from `j` on.
pub(crate) fn encode_edges_exec(l: &Vec<(char, u64)>, j: usize, out: &mut Vec<u64>)
    requires
        j <= l@.len(),
    ensures
        final(out)@ == old(out)@ + encode_edges(l@.skip(j as int)),
    decreases l@.len() - j,
{
    if j == l.len() {
        proof {
            assert(old(out)@ + encode_edges(l@.skip(j as int)) =~= old(out)@);
        }
    } else {
        let c = l[j].0;
        let w = l[j].1;
        out.push((c as u32) as u64);
        out.push(w);
        encode_edges_exec(l, j + 1, out);
        proof {
            let s = l@.skip(j as int);
            assert(s[0] == l@[j as int]);
            assert(s.drop_first() =~= l@.skip(j as int + 1));
            assert(final(out)@ =~= old(out)@ + encode_edges(s));
        }
    }
}

/// Appends the numbers that render the table entries from `i` on.
pub(crate) fn encode_entries_exec(t: &Vec<(char, Vec<(char, u64)>)>, i: usize, out: &mut Vec<u64>)
    requires
        i <= t@.len(),
    ensures
        final(out)@ == old(out)@ + encode_entries(crate::table::deep(t@).skip(i as int)),
    decreases t@.len() - i,
{
    let ghost dt = crate::table::deep(t@);
    if i == t.len() {
        proof {
            assert(old(out)@ + encode_entries(dt.skip(i as int)) =~= old(out)@);
        }
    } else {
        let c = t[i].0;
        out.push((c as u32) as u64);
        out.push(t[i].1.len() as u64);
        encode_edges_exec(&t[i].1, 0, out);
        encode_entries_exec(t, i + 1, out);
        proof {
            let s = dt.skip(i as int);
            assert(s[0] == dt[i as int]);
            assert(dt[i as int] == (t@[i as int].0, t@[i as int].1@));
            assert(s.drop_first() =~= dt.skip(i as int + 1));
            assert(t@[i as int].1@.skip(0) =~= t@[i as int].1@);
            assert(final(out)@ =~= old(out)@ + encode_entries(s));
        }
    }
}

/// Appends the blocks that render the numbers from `j` on.
pub(crate) fn render_chars_exec(v: &Vec<u64>, j: usize, out: &mut Vec<char>)
    requires
        j <= v@.len(),
    ensures
        final(out)@ == old(out)@ + render_chars(v@.skip(j as int)),
    decreases v@.len() - j,
{
    if j == v.len() {
        proof {
            assert(old(out)@ + render_chars(v@.skip(j as int)) =~= old(out)@);
        }
    } else {
        crate::numbers::push_block(v[j], out);
        render_chars_exec(v, j + 1, out);
        proof {
            let s = v@.skip(j as int);
            assert(s[0] == v@[j as int]);
            assert(s.drop_first() =~= v@.skip(j as int + 1));
            assert(final(out)@ =~= old(out)@ + render_chars(s));
        }
    }
}

/// Reads a run of fixed-width blocks back into numbers.
#[verifier::loop_isolation(false)]
pub(crate) fn parse_chars_exec(cs: &Vec<char>) -> (r: Option<Vec<u64>>)
    ensures
        (match r {
            Some(v) => parse_chars(cs@) == Some(v@),
            None => parse_chars(cs@) is None,
        }),
{
    let n = cs.len();
    let mut acc: Vec<u64> = Vec::new();
    let mut pos: usize = 0;
    proof {
        assert(cs@.skip(0) =~= cs@);
        if parse_chars(cs@) is Some {
            assert(Seq::<u64>::empty() + parse_chars(cs@).unwrap() =~= parse_chars(cs@).unwrap());
        }
    }
    while pos < n && n - pos >= BLOCK
        invariant
            pos <= n,
            n == cs@.len(),
            (match parse_chars(cs@.skip(pos as int)) {
                Some(rest) => parse_chars(cs@) == Some(acc@ + rest),
                None => parse_chars(cs@) is None,
            }),
        decreases n - pos,
    {
        let ghost tail = cs@.skip(pos as int);
        proof {
            assert(tail.take(BLOCK as int) =~= cs@.subrange(pos as int, pos as int + BLOCK as int));
            assert(tail.skip(BLOCK as int) =~= cs@.skip(pos as int + BLOCK as int));
        }
        match crate::numbers::parse_block(cs, pos) {
            None => {
                proof {
                    assert(parse_chars(tail) is None);
                }
                return None;
            },
            Some(u) => {
                proof {
                    assert(parse_chars(tail) == (match parse_chars(
                        cs@.skip(pos as int + BLOCK as int),
                    ) {
                        Some(rest2) => Some(seq![u] + rest2),
                        None => None::<Seq<u64>>,
                    }));
                    if parse_chars(cs@.skip(pos as int + BLOCK as int)) is Some {
                        let rest2 = parse_chars(cs@.skip(pos as int + BLOCK as int)).unwrap();
                        assert(acc@ + (seq![u] + rest2) =~= acc@.push(u) + rest2);
                    }
                }
                acc.push(u);
                pos += BLOCK;
            },
        }
    }
    if pos == n {
        proof {
            assert(cs@.skip(pos as int) =~= Seq::<char>::empty());
            assert(acc@ + Seq::<u64>::empty() =~= acc@);
        }
        Some(acc)
    } else {
        proof {
            assert(0 < cs@.skip(pos as int).len() < BLOCK);
        }
        None
    }
}

/// Reads `n` successor entries starting at `pos`, giving the entries and
/// the position after them.
pub(crate) fn decode_edges_exec(v: &Vec<u64>, pos: usize, n: u64) -> (r: Option<
    (Vec<(char, u64)>, usize),
>)
    requires
        pos <= v@.len(),
    ensures
        (match r {
            Some(p) => p.1 <= v@.len() && decode_edges(v@.skip(pos as int), n as nat) == Some(
                (p.0@, v@.skip(p.1 as int)),
            ),
            None => decode_edges(v@.skip(pos as int), n as nat) is None,
        }),
    decreases n,
{
    if n == 0 {
        let l: Vec<(char, u64)> = Vec::new();
        proof {
            assert(l@ =~= Seq::<(char, u64)>::empty());
        }
        return Some((l, pos));
    }
    if v.len() - pos < 2 {
        return None;
    }
    let code = v[pos];
    let cnt = v[pos + 1];
    proof {
        assert(v@.skip(pos as int)[0] == code);
        assert(v@.skip(pos as int)[1] == cnt);
    }
    if code > 0x10FFFF {
        return None;
    }
    let c = match char_from_u32(code as u32) {
        Some(c) => c,
        None => {
            return None;
        },
    };
    if cnt == 0 {
        return None;
    }
    match decode_edges_exec(v, pos + 2, n - 1) {
        Some((mut l, np)) => {
            proof {
                assert(v@.skip(pos as int).skip(2) =~= v@.skip(pos as int + 2));
                assert(code_of(c) == code);
                let cc = char_of_code(code);
                assert(code_of(cc) == code);
                lemma_char_code_inj(cc, c);
            }
            let ghost l_before = l@;
            l.insert(0, (c, cnt));
            proof {
                assert(l@ =~= seq![(c, cnt)] + l_before);
                assert(decode_edges(v@.skip(pos as int), n as nat) == Some(
                    (l@, v@.skip(np as int)),
                ));
            }
            Some((l, np))
        },
        None => {
            proof {
                assert(v@.skip(pos as int).skip(2) =~= v@.skip(pos as int + 2));
            }
            None
        },
    }
}

/// Reads `n` table entries starting at `pos`.
pub(crate) fn decode_entries_exec(v: &Vec<u64>, pos: usize, n: u64) -> (r: Option<
    (Vec<(char, Vec<(char, u64)>)>, usize),
>)
    requires
        pos <= v@.len(),
    ensures
        (match r {
            Some(p) => p.1 <= v@.len() && decode_entries(v@.skip(pos as int), n as nat) == Some(
                (crate::table::deep(p.0@), v@.skip(p.1 as int)),
            ),
            None => decode_entries(v@.skip(pos as int), n as nat) is None,
        }),
    decreases n,
{
    if n == 0 {
        let t: Vec<(char, Vec<(char, u64)>)> = Vec::new();
        proof {
            assert(crate::table::deep(t@) =~= Seq::<(char, Seq<(char, u64)>)>::empty());
        }
        return Some((t, pos));
    }
    if v.len() - pos < 2 {
        return None;
    }
    let code = v[pos];
    let nedges = v[pos + 1];
    proof {
        assert(v@.skip(pos as int)[0] == code);
        assert(v@.skip(pos as int)[1] == nedges);
    }
    if code > 0x10FFFF {
        return None;
    }
    let c = match char_from_u32(code as u32) {
        Some(c) => c,
        None => {
            return None;
        },
    };
    match decode_edges_exec(v, pos + 2, nedges) {
        Some((l, np)) => {
            proof {
                assert(v@.skip(pos as int).skip(2) =~= v@.skip(pos as int + 2));
            }
            match decode_entries_exec(v, np, n - 1) {
                Some((mut t, np2)) => {
                    proof {
                        assert(code_of(c) == code);
                        let cc = char_of_code(code);
                        assert(code_of(cc) == code);
                        lemma_char_code_inj(cc, c);
                    }
                    let ghost dt_before = crate::table::deep(t@);
                    let ghost lv = l@;
                    t.insert(0, (c, l));
                    proof {
                        assert(crate::table::deep(t@) =~= seq![(c, lv)] + dt_before);
                        assert(decode_entries(v@.skip(pos as int), n as nat) == Some(
                            (crate::table::deep(t@), v@.skip(np2 as int)),
                        ));
                    }
                    Some((t, np2))
                },
                None => None,
            }
        },
        None => {
            proof {
                assert(v@.skip(pos as int).skip(2) =~= v@.skip(pos as int + 2));
            }
            None
        },
    }
}

/// Checks that a decoded table is well formed: distinct sources, distinct
/// successors, no zero counts.
#[verifier::loop_isolation(false)]
pub(crate) fn check_wf(t: &Vec<(char, Vec<(char, u64)>)>) -> (r: bool)
    ensures
        r == tbl_wf(crate::table::deep(t@)),
{
    let ghost dt = crate::table::deep(t@);
    let mut i: usize = 0;
    while i < t.len()
        invariant
            i <= t@.len(),
            forall|a: int, b: int| 0 <= a < b < i ==> dt[a].0 != dt[b].0,
            forall|a: int| 0 <= a < i ==> alist_wf(#[trigger] dt[a].1),
        decreases t@.len() - i,
    {
        let mut k: usize = 0;
        while k < i
            invariant
                k <= i,
                forall|a: int| 0 <= a < k ==> dt[a].0 != dt[i as int].0,
            decreases i - k,
        {
            if t[k].0 == t[i].0 {
                proof {
                    assert(dt[k as int].0 == dt[i as int].0);
                    assert(!tbl_wf(dt));
                }
                return false;
            }
            k += 1;
        }
        let mut x: usize = 0;
        while x < t[i].1.len()
            invariant
                i < t@.len(),
                x <= t@[i as int].1@.len(),
                forall|a: int, b: int|
                    0 <= a < b < x ==> t@[i as int].1@[a].0 != t@[i as int].1@[b].0,
                forall|a: int| 0 <= a < x ==> t@[i as int].1@[a].1 >= 1,
            decreases t@[i as int].1@.len() - x,
        {
            if t[i].1[x].1 == 0 {
                proof {
                    assert(!alist_wf(dt[i as int].1));
                    assert(!tbl_wf(dt));
                }
                return false;
            }
            let mut y: usize = 0;
            while y < x
                invariant
                    y <= x,
                    x < t@[i as int].1@.len(),
                    forall|a: int| 0 <= a < y ==> t@[i as int].1@[a].0 != t@[i as int].1@[x as int].0,
                decreases x - y,
            {
                if t[i].1[y].0 == t[i].1[x].0 {
                    proof {
                        assert(!alist_wf(dt[i as int].1));
                        assert(!tbl_wf(dt));
                    }
                    return false;
                }
                y += 1;
            }
            x += 1;
        }
        proof {
            assert(alist_wf(dt[i as int].1));
        }
        i += 1;
    }
    proof {
        assert(tbl_wf(dt));
    }
    true
}

/// Reads a whole table from a run of numbers.
pub(crate) fn decode_tbl_exec(v: &Vec<u64>) -> (r: Option<Vec<(char, Vec<(char, u64)>)>>)
    ensures
        (match r {
            Some(t) => decode_tbl(v@) == Some(crate::table::deep(t@)) && tbl_wf(
                crate::table::deep(t@),
            ),
            None => decode_tbl(v@) is None,
        }),
{
    if v.len() == 0 {
        return None;
    }
    let n = v[0];
    proof {
        assert(v@.skip(0).skip(1) =~= v@.skip(1));
        assert(v@.skip(0) =~= v@);
    }
    match decode_entries_exec(v, 1, n) {
        Some((t, np)) => {
            if np != v.len() {
                proof {
                    assert(v@.skip(np as int).len() > 0);
                }
                return None;
            }
            proof {
                assert(v@.skip(np as int) =~= Seq::<u64>::empty());
            }
            if !check_wf(&t) {
                return None;
            }
            Some(t)
        },
        None => None,
    }
}

} // verus!
