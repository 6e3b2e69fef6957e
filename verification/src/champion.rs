//! The per-category model: ingestion, containment check, generation, and
//! snapshots.

use vstd::prelude::*;
use vstd::string::StrSliceExecFns;

use crate::errors::ChampionError;
use crate::table::{
    alist_get, contains_spec, deep, feed_pairs, feed_spec, gen_ok, has_edge, is_key, pairs_of,
    sat_sum, tbl_closed, tbl_wf, TERMINATOR,
};

verus! {

/// All the nicknames learned for one category, characterized by its id.
///
/// The model owns a transition table: for each seen character, how often
/// each other character (or the terminator) followed it in training data.
#[derive(Debug, PartialEq, Eq)]
pub struct Champion {
    id: u32,
    table: Vec<(char, Vec<(char, u64)>)>,
}

impl Champion {
    /// The id of the category this model belongs to.
    pub closed spec fn spec_id(self) -> u32 {
        self.id
    }

    /// The learned transition table.
    pub closed spec fn tbl(self) -> Seq<(char, Seq<(char, u64)>)> {
        deep(self.table@)
    }

    /// The model's invariant: its table is a well-formed association list.
    pub open spec fn wf(self) -> bool {
        tbl_wf(self.tbl())
    }

    /// Constructs a new, empty `Champion` with the given id.
    pub fn new(id: u32) -> (c: Champion)
        ensures
            c.spec_id() == id,
            c.tbl() =~= Seq::<(char, Seq<(char, u64)>)>::empty(),
            c.wf(),
    {
        Champion { id, table: Vec::new() }
    }

    /// Returns the champion's id.
    pub fn get_id(&self) -> (r: u32)
        ensures
            r == self.spec_id(),
    {
        self.id
    }

    /// Splits a non-empty nickname, extended by the terminator, into its
    /// adjacent pairs of characters; an empty nickname yields nothing.
    pub fn split_nickname(nickname: String) -> (r: Option<Vec<Vec<char>>>)
        ensures
            (nickname@.len() == 0) <==> (r is None),
            r matches Some(v) ==> {
                &&& v@.len() == nickname@.len()
                &&& forall|i: int| 0 <= i < v@.len() ==> (#[trigger] v@[i])@.len() == 2
                &&& forall|i: int|
                    0 <= i < v@.len() ==> (#[trigger] v@[i])@[0] == pairs_of(nickname@)[i].0
                        && v@[i]@[1] == pairs_of(nickname@)[i].1
            },
    {
        let s = nickname.as_str();
        let n = s.unicode_len();
        if n == 0 {
            return None;
        }
        let cs = crate::text::string_to_chars(s);
        let mut ret: Vec<Vec<char>> = Vec::new();
        let mut i: usize = 0;
        while i < n
            invariant
                i <= n,
                n == cs@.len(),
                n == nickname@.len(),
                forall|k: int| 0 <= k < n ==> cs@[k] == nickname@[k],
                ret@.len() == i,
                forall|k: int| 0 <= k < i ==> (#[trigger] ret@[k])@.len() == 2,
                forall|k: int|
                    0 <= k < i ==> (#[trigger] ret@[k])@[0] == pairs_of(nickname@)[k].0
                        && ret@[k]@[1] == pairs_of(nickname@)[k].1,
            decreases n - i,
        {
            let a = cs[i];
            let b = if i + 1 < n {
                cs[i + 1]
            } else {
                TERMINATOR
            };
            let mut pair: Vec<char> = Vec::new();
            pair.push(a);
            pair.push(b);
            ret.push(pair);
            i += 1;
        }
        Some(ret)
    }

    /// The approximate containment check: accepts `nickname` exactly when
    /// every adjacent pair of it, extended by the terminator, is already a
    /// recorded edge.  A string whose pairs all arose from other training
    /// strings is accepted even though it was never fed itself.
    #[verifier::loop_isolation(false)]
    pub fn contains(&self, nickname: String) -> (r: bool)
        requires
            nickname@.len() > 0,
        ensures
            r == contains_spec(self.tbl(), nickname@),
    {
        let ghost s = nickname@;
        let pairs = Champion::split_nickname(nickname).unwrap();
        let ghost t = self.tbl();
        let mut i: usize = 0;
        while i < pairs.len()
            invariant
                i <= pairs@.len(),
                pairs@.len() == s.len(),
                forall|k: int| 0 <= k < s.len() ==> (#[trigger] pairs@[k])@.len() == 2,
                forall|k: int|
                    0 <= k < s.len() ==> (#[trigger] pairs@[k])@[0] == pairs_of(s)[k].0
                        && pairs@[k]@[1] == pairs_of(s)[k].1,
                t == self.tbl(),
                forall|k: int|
                    0 <= k < i ==> has_edge(t, (#[trigger] pairs_of(s)[k]).0, pairs_of(s)[k].1),
            decreases pairs@.len() - i,
        {
            let p = &pairs[i];
            let a = p[0];
            let b = p[1];
            match crate::table::tbl_find(&self.table, a) {
                None => {
                    proof {
                        crate::table::lemma_tbl_get_exists(t, a);
                        assert(forall|k: int| 0 <= k < t.len() ==> t[k].0 == self.table@[k].0);
                        assert(!has_edge(t, pairs_of(s)[i as int].0, pairs_of(s)[i as int].1));
                        assert(!contains_spec(t, s));
                    }
                    return false;
                },
                Some(j) => {
                    proof {
                        crate::table::lemma_tbl_get_some(t, a, j as int);
                    }
                    match crate::table::alist_find(&self.table[j].1, b) {
                        None => {
                            proof {
                                crate::table::lemma_alist_get_exists(self.table@[j as int].1@, b);
                                assert(!has_edge(
                                    t,
                                    pairs_of(s)[i as int].0,
                                    pairs_of(s)[i as int].1,
                                ));
                                assert(!contains_spec(t, s));
                            }
                            return false;
                        },
                        Some(j2) => {
                            proof {
                                crate::table::lemma_alist_get_some(
                                    self.table@[j as int].1@,
                                    b,
                                    j2 as int,
                                );
                                assert(has_edge(t, a, b));
                            }
                        },
                    }
                },
            }
            i += 1;
        }
        true
    }

    /// Ingests one training nickname: every adjacent pair of the nickname,
    /// extended by the terminator, is recorded once more — unless the
    /// containment check already accepts the nickname, in which case the
    /// call is a no-op.  An empty nickname is rejected outright.
    #[verifier::loop_isolation(false)]
    pub fn feed(&mut self, nickname: String) -> (r: Result<(), ChampionError>)
        requires
            old(self).wf(),
        ensures
            final(self).wf(),
            final(self).spec_id() == old(self).spec_id(),
            (nickname@.len() == 0) <==> (r is Err),
            r is Err ==> r == Err::<(), ChampionError>(ChampionError::EmptyInputError)
                && final(self).tbl() == old(self).tbl(),
            r is Ok ==> final(self).tbl() == feed_spec(old(self).tbl(), nickname@),
            tbl_closed(old(self).tbl()) ==> tbl_closed(final(self).tbl()),
    {
        let ghost s = nickname@;
        let ghost t0 = old(self).tbl();
        if nickname.as_str().unicode_len() == 0 {
            return Err(ChampionError::EmptyInputError);
        }
        if self.contains(nickname.clone()) {
            return Ok(());
        }
        let pairs = Champion::split_nickname(nickname).unwrap();
        let mut i: usize = 0;
        while i < pairs.len()
            invariant
                i <= pairs@.len(),
                pairs@.len() == s.len(),
                forall|k: int| 0 <= k < s.len() ==> (#[trigger] pairs@[k])@.len() == 2,
                forall|k: int|
                    0 <= k < s.len() ==> (#[trigger] pairs@[k])@[0] == pairs_of(s)[k].0
                        && pairs@[k]@[1] == pairs_of(s)[k].1,
                deep(self.table@) == feed_pairs(t0, pairs_of(s).take(i as int)),
                self.spec_id() == old(self).spec_id(),
            decreases pairs@.len() - i,
        {
            let p = &pairs[i];
            let a = p[0];
            let b = p[1];
            proof {
                assert(pairs_of(s).take(i as int).push(pairs_of(s)[i as int]) =~= pairs_of(
                    s,
                ).take(i as int + 1));
            }
            crate::table::tbl_bump(&mut self.table, a, b);
            proof {
                crate::table::lemma_feed_pairs_snoc(
                    t0,
                    pairs_of(s).take(i as int),
                    pairs_of(s)[i as int],
                );
            }
            i += 1;
        }
        proof {
            assert(pairs_of(s).take(s.len() as int) =~= pairs_of(s));
            crate::table::lemma_feed_pairs_effect(t0, pairs_of(s));
            if tbl_closed(t0) {
                crate::table::lemma_feed_string_closed(t0, s);
            }
        }
        Ok(())
    }

    /// The total weight of a successor list, saturating at the largest
    /// representable count.
    #[verifier::loop_isolation(false)]
    pub fn get_sum(letter: &Vec<(char, u64)>) -> (r: u64)
        ensures
            r == sat_sum(letter@),
    {
        let mut sum: u64 = 0;
        let mut j: usize = 0;
        while j < letter.len()
            invariant
                j <= letter@.len(),
                sum == sat_sum(letter@.take(j as int)),
            decreases letter@.len() - j,
        {
            proof {
                assert(letter@.take(j as int + 1).drop_last() =~= letter@.take(j as int));
                assert(letter@.take(j as int + 1).last() == letter@[j as int]);
            }
            let w = letter[j].1;
            sum = if sum > u64::MAX - w {
                u64::MAX
            } else {
                sum + w
            };
            j += 1;
        }
        proof {
            assert(letter@.take(letter@.len() as int) =~= letter@);
        }
        sum
    }

    /// Samples a successor from a successor list: draws a weight at most the
    /// saturating total, then picks the first entry whose running weight
    /// reaches the draw.  Only an empty list yields nothing.
    #[verifier::loop_isolation(false)]
    pub fn get_next_letter(current_letter: &Vec<(char, u64)>) -> (r: Option<char>)
        ensures
            (current_letter@.len() == 0) <==> (r is None),
            r matches Some(c) ==> alist_get(current_letter@, c) is Some,
    {
        let sum = Champion::get_sum(current_letter);
        let draw = crate::rng::rand_weight(sum);
        let mut partial: u64 = 0;
        let mut j: usize = 0;
        while j < current_letter.len()
            invariant
                j <= current_letter@.len(),
                partial == sat_sum(current_letter@.take(j as int)),
                j > 0 ==> partial < draw,
            decreases current_letter@.len() - j,
        {
            proof {
                assert(current_letter@.take(j as int + 1).drop_last() =~= current_letter@.take(
                    j as int,
                ));
                assert(current_letter@.take(j as int + 1).last() == current_letter@[j as int]);
            }
            let w = current_letter[j].1;
            partial = if partial > u64::MAX - w {
                u64::MAX
            } else {
                partial + w
            };
            if partial >= draw {
                proof {
                    crate::table::lemma_alist_get_exists(
                        current_letter@,
                        current_letter@[j as int].0,
                    );
                }
                return Some(current_letter[j].0);
            }
            j += 1;
        }
        proof {
            if current_letter@.len() > 0 {
                assert(current_letter@.take(current_letter@.len() as int) =~= current_letter@);
                assert(false);
            }
        }
        None
    }

    /// Generates a nickname of at most `max_len` characters: a start
    /// character chosen uniformly among the table's sources, then a walk of
    /// weighted draws among each character's recorded successors, stopping
    /// at the terminator.  An empty table yields no data; a walk that
    /// reaches a character with no recorded successors reports a violated
    /// invariant, which cannot happen in a closed table.
    #[verifier::loop_isolation(false)]
    pub fn gen(&self, max_len: u32) -> (r: Result<String, ChampionError>)
        requires
            self.wf(),
        ensures
            (self.tbl().len() == 0) <==> (r == Err::<String, ChampionError>(
                ChampionError::NoDataAvailable,
            )),
            r is Err ==> (r == Err::<String, ChampionError>(ChampionError::NoDataAvailable) || r
                == Err::<String, ChampionError>(ChampionError::InvariantViolation)),
            r matches Ok(ns) ==> gen_ok(self.tbl(), ns@, max_len as nat),
            tbl_closed(self.tbl()) && self.tbl().len() > 0 ==> r is Ok,
            self.tbl().len() > 0 && max_len == 0 ==> (r matches Ok(ns) && ns@.len() == 0),
    {
        let ghost t = self.tbl();
        if self.table.len() == 0 {
            return Err(ChampionError::NoDataAvailable);
        }
        let idx = crate::rng::rand_index(self.table.len());
        let mut cur: char = self.table[idx].0;
        proof {
            assert(t[idx as int].0 == cur);
            crate::table::lemma_tbl_get_exists(t, cur);
        }
        let mut out: Vec<char> = Vec::new();
        let mut i: u32 = 0;
        while i < max_len && cur != TERMINATOR
            invariant
                i <= max_len,
                out@.len() == i as nat,
                forall|k: int| 0 <= k < out@.len() ==> out@[k] != TERMINATOR,
                out@.len() == 0 ==> is_key(t, cur),
                out@.len() > 0 ==> is_key(t, out@[0]),
                forall|k: int|
                    0 <= k < out@.len() - 1 ==> has_edge(t, out@[k], #[trigger] out@[k + 1]),
                out@.len() > 0 ==> has_edge(t, out@.last(), cur),
            decreases max_len - i,
        {
            out.push(cur);
            let l = match crate::table::tbl_find(&self.table, cur) {
                Some(j) => {
                    proof {
                        assert(forall|k: int| 0 <= k < t.len() ==> t[k].0 == self.table@[k].0);
                        crate::table::lemma_tbl_get_some(t, cur, j as int);
                    }
                    &self.table[j].1
                },
                None => {
                    proof {
                        assert(forall|k: int| 0 <= k < t.len() ==> t[k].0 == self.table@[k].0);
                        crate::table::lemma_tbl_get_exists(t, cur);
                        if tbl_closed(t) {
                            assert(is_key(t, cur));
                            assert(false);
                        }
                    }
                    return Err(ChampionError::InvariantViolation);
                },
            };
            match Champion::get_next_letter(l) {
                Some(c) => {
                    proof {
                        assert(has_edge(t, cur, c));
                    }
                    cur = c;
                },
                None => {
                    proof {
                        if tbl_closed(t) {
                            let j2 = choose|j2: int| 0 <= j2 < t.len() && t[j2].0 == cur;
                            crate::table::lemma_tbl_get_some(t, cur, j2);
                            assert(t[j2].1.len() > 0);
                            assert(false);
                        }
                    }
                    return Err(ChampionError::InvariantViolation);
                },
            }
            i += 1;
        }
        let result = crate::text::chars_to_string(&out);
        Ok(result)
    }

    /// Renders the transition table as a snapshot string.  The category id
    /// is not part of the snapshot.
    pub fn serialize(&self) -> (r: String)
        ensures
            r@ == crate::snapshot::snapshot_of(self.tbl()),
    {
        let mut nums: Vec<u64> = Vec::new();
        nums.push(self.table.len() as u64);
        crate::snapshot::encode_entries_exec(&self.table, 0, &mut nums);
        proof {
            assert(self.tbl().skip(0) =~= self.tbl());
            assert(nums@ =~= crate::snapshot::encode_tbl(self.tbl()));
        }
        let mut chars: Vec<char> = Vec::new();
        crate::snapshot::render_chars_exec(&nums, 0, &mut chars);
        proof {
            assert(nums@.skip(0) =~= nums@);
        }
        crate::text::chars_to_string(&chars)
    }

    /// Law: the snapshot of any well-formed model parses back to exactly
    /// the model's table, edges and counts alike — so restoring a freshly
    /// rendered snapshot never fails and never changes the table.
    pub proof fn lemma_model_snapshot_roundtrip(self)
        requires
            self.wf(),
        ensures
            crate::snapshot::parse_snapshot(crate::snapshot::snapshot_of(self.tbl())) == Some(
                self.tbl(),
            ),
    {
        broadcast use vstd::std_specs::vec::axiom_spec_len;

        assert(vstd::std_specs::vec::spec_vec_len(&self.table) == self.table@.len());
        assert forall|i: int| 0 <= i < self.tbl().len() implies (#[trigger] self.tbl()[i].1).len()
            <= u64::MAX by {
            assert(vstd::std_specs::vec::spec_vec_len(&self.table@[i].1)
                == self.table@[i].1@.len());
        }
        crate::snapshot::lemma_snapshot_roundtrip(self.tbl());
    }

    /// Replaces the whole transition table with the one a snapshot
    /// describes; a malformed snapshot is rejected and leaves the model
    /// unchanged.  The category id is never touched.
    pub fn deserialize(&mut self, snapshot: String) -> (r: Result<(), ChampionError>)
        ensures
            final(self).spec_id() == old(self).spec_id(),
            (match r {
                Ok(_) => {
                    &&& crate::snapshot::parse_snapshot(snapshot@) == Some(final(self).tbl())
                    &&& final(self).wf()
                },
                Err(e) => {
                    &&& e == ChampionError::MalformedSnapshotError
                    &&& final(self).tbl() == old(self).tbl()
                    &&& crate::snapshot::parse_snapshot(snapshot@) is None
                },
            }),
    {
        let cs = crate::text::string_to_chars(snapshot.as_str());
        let nums = match crate::snapshot::parse_chars_exec(&cs) {
            Some(v) => v,
            None => {
                return Err(ChampionError::MalformedSnapshotError);
            },
        };
        match crate::snapshot::decode_tbl_exec(&nums) {
            Some(t) => {
                self.table = t;
                Ok(())
            },
            None => Err(ChampionError::MalformedSnapshotError),
        }
    }
}

} // verus!
