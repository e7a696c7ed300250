//! An add-wins observed-remove set with a compacted causal context.
//!
//! The set tracks which item names currently exist.  Each entry of
//! `state` records the most recent add event known for a (name,
//! replica) pair; `context` keeps, per replica, the highest event
//! generation that replica has ever emitted.  No tombstones are kept:
//! on merge, an entry is dropped exactly when the other side's context
//! has advanced strictly past its generation without carrying the
//! entry itself, so a concurrent, not-yet-observed add wins over a
//! removal.

use crate::counter::{buckets_equal, vec_get, vec_join, vec_put};
use crate::maps::{
    assoc_map, get_or_zero, has_key, join_max, lemma_assoc_map_dom, lemma_assoc_map_index,
    lemma_assoc_map_push, lemma_join_max_assoc, lemma_join_max_commutes, lemma_join_max_finite,
    lemma_join_max_idem, lemma_unique_push, max_u32, unique_keys,
};
use vstd::prelude::*;

verus! {

/// Mathematical model of the set: `state` maps a (name, replica) pair
/// to the generation of the most recent add event known for it;
/// `context` maps each replica to the highest generation it has ever
/// emitted.
#[verifier::ext_equal]
pub ghost struct AwSetModel {
    pub state: Map<(Seq<char>, u128), u32>,
    pub context: Map<u128, u32>,
}

/// The causal-context invariant: every state entry's replica appears
/// in the context, with a generation at least the entry's.
pub open spec fn awset_wf(m: AwSetModel) -> bool {
    &&& m.state.dom().finite()
    &&& m.context.dom().finite()
    &&& forall|k: (Seq<char>, u128)| #[trigger] m.state.dom().contains(k)
        ==> m.context.dom().contains(k.1) && m.state[k] <= m.context[k.1]
}

/// The names the set currently holds: those with at least one state
/// entry.
pub open spec fn live_names(m: Map<(Seq<char>, u128), u32>) -> Set<Seq<char>> {
    Set::new(|n: Seq<char>| exists|r: u128| #[trigger] m.dom().contains((n, r)))
}

/// Whether an entry with generation `gen` emitted by `replica`
/// survives against the causal context `ctx`: it does unless `ctx`
/// has advanced strictly past `gen` for that replica.
pub open spec fn survives(gen: u32, replica: u128, ctx: Map<u128, u32>) -> bool {
    get_or_zero(ctx, replica) <= gen
}

/// The part of `s` that survives against the causal context `ctx`.
pub open spec fn live_part(s: Map<(Seq<char>, u128), u32>, ctx: Map<u128, u32>) -> Map<
    (Seq<char>, u128),
    u32,
> {
    Map::new(|k: (Seq<char>, u128)| s.dom().contains(k) && survives(s[k], k.1, ctx), |k| s[k])
}

/// Whether the entry of `s_own` at `k` is kept by a merge against the
/// other side: it survives the other context, or the other side holds
/// the identical entry.
pub open spec fn keep_entry(
    s_own: Map<(Seq<char>, u128), u32>,
    s_other: Map<(Seq<char>, u128), u32>,
    ctx_other: Map<u128, u32>,
    k: (Seq<char>, u128),
) -> bool {
    s_own.dom().contains(k) && (survives(s_own[k], k.1, ctx_other) || (s_other.dom().contains(k)
        && s_other[k] == s_own[k]))
}

/// The state of the merge of two sets: entries of either side that
/// survive the other's context, together with the entries both sides
/// share.
pub open spec fn merged_state(a: AwSetModel, b: AwSetModel) -> Map<(Seq<char>, u128), u32> {
    Map::new(
        |k: (Seq<char>, u128)| keep_entry(a.state, b.state, b.context, k) || keep_entry(
            b.state,
            a.state,
            a.context,
            k,
        ),
        |k: (Seq<char>, u128)| if keep_entry(a.state, b.state, b.context, k) {
            a.state[k]
        } else {
            b.state[k]
        },
    )
}

/// The merge of two sets: the merged state together with the
/// pointwise maximum of the contexts.
pub open spec fn awset_merged(a: AwSetModel, b: AwSetModel) -> AwSetModel {
    AwSetModel { state: merged_state(a, b), context: join_max(a.context, b.context) }
}

/// A set after replica `r` adds the name `n`: the replica's context
/// advances by one generation, and the single entry for the (name,
/// replica) pair carries that new generation.
pub open spec fn set_added(s: AwSetModel, n: Seq<char>, r: u128) -> AwSetModel {
    let g = (get_or_zero(s.context, r) + 1) as u32;
    AwSetModel { state: s.state.insert((n, r), g), context: s.context.insert(r, g) }
}

/// `m` with every entry for the name `n` removed.
pub open spec fn drop_name(m: Map<(Seq<char>, u128), u32>, n: Seq<char>) -> Map<
    (Seq<char>, u128),
    u32,
> {
    Map::new(|k: (Seq<char>, u128)| m.dom().contains(k) && k.0 != n, |k| m[k])
}

/// The (key, generation) pair a stored entry stands for.
pub open spec fn entry_pair(e: (String, u128, u32)) -> ((Seq<char>, u128), u32) {
    ((e.0@, e.1), e.2)
}

/// The stored entries, seen as key/value pairs.
pub open spec fn state_pairs(s: Seq<(String, u128, u32)>) -> Seq<((Seq<char>, u128), u32)> {
    s.map_values(|e: (String, u128, u32)| entry_pair(e))
}

/// An add-wins observed-remove set of item names.
pub struct AWSet {
    /// One entry per (name, replica) pair: the latest add generation.
    pub state: Vec<(String, u128, u32)>,
    /// One entry per replica: the highest generation it has emitted.
    pub context: Vec<(u128, u32)>,
}

/// An element-for-element copy of stored entries.
fn state_copy(v: &Vec<(String, u128, u32)>) -> (r: Vec<(String, u128, u32)>)
    ensures
        r@ == v@,
{
    let mut out: Vec<(String, u128, u32)> = Vec::new();
    let mut i: usize = 0;
    while i < v.len()
        invariant
            0 <= i <= v@.len(),
            out@ == v@.take(i as int),
        decreases v@.len() - i,
    {
        let entry = (v[i].0.clone(), v[i].1, v[i].2);
        proof {
            assert(entry == v@[i as int]);
        }
        out.push(entry);
        proof {
            assert(out@ =~= v@.take(i as int + 1));
        }
        i += 1;
    }
    proof {
        assert(v@.take(v@.len() as int) =~= v@);
    }
    out
}

impl Clone for AWSet {
    fn clone(&self) -> (r: Self)
        ensures
            r.state@ == self.state@,
            r.context@ == self.context@,
            r@ == self@,
            r.well_formed() == self.well_formed(),
    {
        AWSet { state: state_copy(&self.state), context: crate::counter::vec_copy(&self.context) }
    }
}

impl View for AWSet {
    type V = AwSetModel;

    open spec fn view(&self) -> AwSetModel {
        AwSetModel {
            state: assoc_map(state_pairs(self.state@)),
            context: assoc_map(self.context@),
        }
    }
}

/// Taking a prefix commutes with reading entries as pairs.
proof fn lemma_pairs_take(s: Seq<(String, u128, u32)>, i: int)
    requires
        0 <= i <= s.len(),
    ensures
        state_pairs(s.take(i)) =~= state_pairs(s).take(i),
{
}

/// Appending an entry commutes with reading entries as pairs.
proof fn lemma_pairs_push(s: Seq<(String, u128, u32)>, e: (String, u128, u32))
    ensures
        state_pairs(s.push(e)) =~= state_pairs(s).push(entry_pair(e)),
{
}

/// Whether `v` stores an entry under the key (`name`, `replica`), and
/// if so whether its generation is exactly `gen`.
fn has_triple(v: &Vec<(String, u128, u32)>, name: &String, replica: u128, gen: u32) -> (r: bool)
    requires
        unique_keys(state_pairs(v@)),
    ensures
        r == (assoc_map(state_pairs(v@)).dom().contains((name@, replica)) && assoc_map(
            state_pairs(v@),
        )[(name@, replica)] == gen),
{
    proof {
        lemma_assoc_map_dom(state_pairs(v@));
    }
    let mut i: usize = 0;
    while i < v.len()
        invariant
            0 <= i <= v@.len(),
            unique_keys(state_pairs(v@)),
            forall|j: int| 0 <= j < i ==> !((#[trigger] v@[j]).0@ == name@ && v@[j].1 == replica),
        decreases v@.len() - i,
    {
        if v[i].0 == *name && v[i].1 == replica {
            proof {
                lemma_assoc_map_index(state_pairs(v@), i as int);
            }
            return v[i].2 == gen;
        }
        i += 1;
    }
    proof {
        lemma_assoc_map_dom(state_pairs(v@));
        if has_key(state_pairs(v@), (name@, replica)) {
            let j = choose|j: int|
                0 <= j < state_pairs(v@).len() && (#[trigger] state_pairs(v@)[j]).0 == (
                name@,
                replica,
            );
            assert(v@[j].0@ == name@ && v@[j].1 == replica);
            assert(false);
        }
    }
    false
}

/// Whether `v` stores an entry under the key (`name`, `replica`).
fn has_pair_key(v: &Vec<(String, u128, u32)>, name: &String, replica: u128) -> (r: bool)
    ensures
        r == assoc_map(state_pairs(v@)).dom().contains((name@, replica)),
{
    proof {
        lemma_assoc_map_dom(state_pairs(v@));
    }
    let mut i: usize = 0;
    while i < v.len()
        invariant
            0 <= i <= v@.len(),
            forall|j: int| 0 <= j < i ==> !((#[trigger] v@[j]).0@ == name@ && v@[j].1 == replica),
        decreases v@.len() - i,
    {
        if v[i].0 == *name && v[i].1 == replica {
            proof {
                lemma_assoc_map_dom(state_pairs(v@));
                assert(state_pairs(v@)[i as int].0 == (name@, replica));
                assert(has_key(state_pairs(v@), (name@, replica)));
            }
            return true;
        }
        i += 1;
    }
    proof {
        lemma_assoc_map_dom(state_pairs(v@));
        if has_key(state_pairs(v@), (name@, replica)) {
            let j = choose|j: int|
                0 <= j < state_pairs(v@).len() && (#[trigger] state_pairs(v@)[j]).0 == (
                name@,
                replica,
            );
            assert(v@[j].0@ == name@ && v@[j].1 == replica);
            assert(false);
        }
    }
    false
}

/// Whether some stored entry carries the name `n`.
pub open spec fn seq_has_name(s: Seq<(String, u128, u32)>, n: Seq<char>) -> bool {
    exists|j: int| 0 <= j < s.len() && (#[trigger] s[j]).0@ == n
}

/// Whether some string of the sequence has the view `n`.
pub open spec fn names_has(o: Seq<String>, n: Seq<char>) -> bool {
    exists|x: int| 0 <= x < o.len() && (#[trigger] o[x])@ == n
}

/// Whether some element of `v` has the view of `name`.
fn vec_has_string(v: &Vec<String>, name: &String) -> (r: bool)
    ensures
        r == names_has(v@, name@),
{
    let mut i: usize = 0;
    while i < v.len()
        invariant
            0 <= i <= v@.len(),
            forall|j: int| 0 <= j < i ==> (#[trigger] v@[j])@ != name@,
        decreases v@.len() - i,
    {
        if v[i] == *name {
            proof {
                assert(v@[i as int]@ == name@);
            }
            return true;
        }
        i += 1;
    }
    proof {
        if names_has(v@, name@) {
            let x = choose|x: int| 0 <= x < v@.len() && (#[trigger] v@[x])@ == name@;
            assert(false);
        }
    }
    false
}

impl AWSet {
    /// Representation and causal-context invariant.
    pub open spec fn well_formed(&self) -> bool {
        &&& unique_keys(state_pairs(self.state@))
        &&& unique_keys(self.context@)
        &&& awset_wf(self@)
    }

    /// Creates an empty set: no entries, no context.
    pub fn new() -> (r: Self)
        ensures
            r.well_formed(),
            r@.state == Map::<(Seq<char>, u128), u32>::empty(),
            r@.context == Map::<u128, u32>::empty(),
    {
        let r = AWSet { state: Vec::new(), context: Vec::new() };
        proof {
            lemma_assoc_map_dom(state_pairs(r.state@));
            lemma_assoc_map_dom(r.context@);
            assert(state_pairs(r.state@) =~= Seq::<((Seq<char>, u128), u32)>::empty());
        }
        r
    }

    /// The distinct item names the set currently holds.
    pub fn elements(&self) -> (r: Vec<String>)
        requires
            self.well_formed(),
        ensures
            forall|i: int, j: int| 0 <= i < j < r@.len() ==> (#[trigger] r@[i])@ != (
            #[trigger] r@[j])@,
            forall|i: int| 0 <= i < r@.len() ==> live_names(self@.state).contains(
                (#[trigger] r@[i])@,
            ),
            forall|n: Seq<char>| #[trigger] live_names(self@.state).contains(n) ==> names_has(
                r@,
                n,
            ),
    {
        let mut out: Vec<String> = Vec::new();
        let mut i: usize = 0;
        while i < self.state.len()
            invariant
                0 <= i <= self.state@.len(),
                forall|x: int, y: int| 0 <= x < y < out@.len() ==> (#[trigger] out@[x])@ != (
                #[trigger] out@[y])@,
                forall|n: Seq<char>| #[trigger] names_has(out@, n) ==> seq_has_name(
                    self.state@,
                    n,
                ),
                forall|n: Seq<char>| #[trigger] seq_has_name(self.state@.take(i as int), n)
                    ==> names_has(out@, n),
            decreases self.state@.len() - i,
        {
            let present = vec_has_string(&out, &self.state[i].0);
            let ghost out0 = out@;
            let ghost nm = self.state@[i as int].0@;
            if !present {
                proof {
                    assert forall|x: int| 0 <= x < out0.len() implies (#[trigger] out0[x])@
                        != nm by {
                        if out0[x]@ == nm {
                            assert(names_has(out0, nm));
                        }
                    }
                }
                out.push(self.state[i].0.clone());
            }
            proof {
                assert(names_has(out@, nm)) by {
                    if present {
                        let x = choose|x: int| 0 <= x < out0.len() && (#[trigger] out0[x])@ == nm;
                        assert(out@[x]@ == nm);
                    } else {
                        assert(out@[out@.len() - 1]@ == nm);
                    }
                }
                assert forall|n: Seq<char>| #[trigger] names_has(out@, n) implies seq_has_name(
                    self.state@,
                    n,
                ) by {
                    let x = choose|x: int| 0 <= x < out@.len() && (#[trigger] out@[x])@ == n;
                    if x < out0.len() {
                        assert(out0[x]@ == n);
                        assert(names_has(out0, n));
                    } else {
                        assert(self.state@[i as int].0@ == n);
                    }
                }
                assert forall|n: Seq<char>| #[trigger] seq_has_name(
                    self.state@.take(i as int + 1),
                    n,
                ) implies names_has(out@, n) by {
                    let t = self.state@.take(i as int + 1);
                    let j = choose|j: int| 0 <= j < t.len() && (#[trigger] t[j]).0@ == n;
                    if j < i {
                        assert(self.state@.take(i as int)[j].0@ == n);
                        assert(seq_has_name(self.state@.take(i as int), n));
                        let x = choose|x: int| 0 <= x < out0.len() && (#[trigger] out0[x])@ == n;
                        assert(out@[x]@ == n);
                    } else {
                        assert(n == nm);
                    }
                }
            }
            i += 1;
        }
        proof {
            assert(self.state@.take(self.state@.len() as int) =~= self.state@);
            lemma_assoc_map_dom(state_pairs(self.state@));
            assert forall|x: int| 0 <= x < out@.len() implies live_names(self@.state).contains(
                (#[trigger] out@[x])@,
            ) by {
                assert(names_has(out@, out@[x]@));
                let j = choose|j: int|
                    0 <= j < self.state@.len() && (#[trigger] self.state@[j]).0@ == out@[x]@;
                lemma_assoc_map_index(state_pairs(self.state@), j);
                assert(state_pairs(self.state@)[j].0 == (self.state@[j].0@, self.state@[j].1));
                assert(self@.state.dom().contains((out@[x]@, self.state@[j].1)));
            }
            assert forall|n: Seq<char>| #[trigger] live_names(self@.state).contains(n) implies
                names_has(out@, n) by {
                let r = choose|r: u128| #[trigger] self@.state.dom().contains((n, r));
                assert(has_key(state_pairs(self.state@), (n, r)));
                let j = choose|j: int|
                    0 <= j < state_pairs(self.state@).len() && (#[trigger] state_pairs(
                        self.state@,
                    )[j]).0 == (n, r);
                assert(self.state@[j].0@ == n);
                assert(seq_has_name(self.state@, n));
            }
        }
        out
    }

    /// Whether the set currently holds the name `item_name`.
    pub fn contains(&self, item_name: &str) -> (r: bool)
        requires
            self.well_formed(),
        ensures
            r == live_names(self@.state).contains(item_name@),
    {
        let needle: String = item_name.to_owned();
        let mut i: usize = 0;
        while i < self.state.len()
            invariant
                0 <= i <= self.state@.len(),
                self.well_formed(),
                needle@ == item_name@,
                forall|j: int| 0 <= j < i ==> (#[trigger] self.state@[j]).0@ != item_name@,
            decreases self.state@.len() - i,
        {
            if self.state[i].0 == needle {
                proof {
                    lemma_assoc_map_dom(state_pairs(self.state@));
                    lemma_assoc_map_index(state_pairs(self.state@), i as int);
                    assert(self@.state.dom().contains((item_name@, self.state@[i as int].1)));
                }
                return true;
            }
            i += 1;
        }
        proof {
            lemma_assoc_map_dom(state_pairs(self.state@));
            if live_names(self@.state).contains(item_name@) {
                let r = choose|r: u128| #[trigger] self@.state.dom().contains((item_name@, r));
                assert(has_key(state_pairs(self.state@), (item_name@, r)));
                let j = choose|j: int|
                    0 <= j < state_pairs(self.state@).len() && (#[trigger] state_pairs(
                        self.state@,
                    )[j]).0 == (item_name@, r);
                assert(self.state@[j].0@ == item_name@);
                assert(false);
            }
        }
        false
    }

    /// The highest generation `node_id` is known to have emitted, or
    /// zero if none is recorded.
    pub fn max_i(&self, node_id: u128) -> (r: u32)
        requires
            self.well_formed(),
        ensures
            r == get_or_zero(self@.context, node_id),
    {
        vec_get(&self.context, node_id)
    }

    /// The next event this replica would emit: its replica identifier
    /// with the following generation.
    pub fn next_i(&self, node_id: u128) -> (r: (u128, u32))
        requires
            self.well_formed(),
            get_or_zero(self@.context, node_id) < u32::MAX,
        ensures
            r == (node_id, (get_or_zero(self@.context, node_id) + 1) as u32),
    {
        (node_id, self.max_i(node_id) + 1)
    }

    /// Records an add of `item_name` by `node_id`: the replica's
    /// context advances by one generation, and the single entry for
    /// this (name, replica) pair is replaced by one carrying the new
    /// generation.
    pub fn add_i(&mut self, item_name: String, node_id: u128)
        requires
            old(self).well_formed(),
            get_or_zero(old(self)@.context, node_id) < u32::MAX,
        ensures
            final(self).well_formed(),
            final(self)@ == set_added(old(self)@, item_name@, node_id),
    {
        let ghost a = old(self)@;
        let next = vec_get(&self.context, node_id) + 1;
        vec_put(&mut self.context, node_id, next);
        let ghost old_pairs = state_pairs(self.state@);
        let ghost key = (item_name@, node_id);
        let mut kept: Vec<(String, u128, u32)> = Vec::new();
        let mut i: usize = 0;
        while i < self.state.len()
            invariant
                0 <= i <= self.state@.len(),
                unique_keys(old_pairs),
                old_pairs == state_pairs(self.state@),
                key == (item_name@, node_id),
                unique_keys(state_pairs(kept@)),
                forall|k: (Seq<char>, u128)| #[trigger] assoc_map(
                    state_pairs(kept@),
                ).dom().contains(k) <==> (has_key(old_pairs.take(i as int), k) && k != key),
                forall|k: (Seq<char>, u128)| #[trigger] assoc_map(
                    state_pairs(kept@),
                ).dom().contains(k) ==> assoc_map(state_pairs(kept@))[k] == assoc_map(old_pairs)[k],
            decreases self.state@.len() - i,
        {
            let same = self.state[i].0 == item_name && self.state[i].1 == node_id;
            proof {
                lemma_assoc_map_dom(state_pairs(kept@));
                crate::maps::lemma_has_key_take_step(old_pairs, i as int);
                lemma_assoc_map_index(old_pairs, i as int);
            }
            if !same {
                proof {
                    let kp = entry_pair(self.state@[i as int]);
                    if has_key(old_pairs.take(i as int), kp.0) {
                        let x = choose|x: int|
                            0 <= x < old_pairs.take(i as int).len() && (#[trigger] old_pairs.take(
                                i as int,
                            )[x]).0 == kp.0;
                        assert(old_pairs[x].0 == old_pairs[i as int].0);
                        assert(false);
                    }
                    assert(!assoc_map(state_pairs(kept@)).dom().contains(kp.0));
                    assert(!has_key(state_pairs(kept@), kp.0));
                    lemma_pairs_push(kept@, self.state@[i as int]);
                    lemma_assoc_map_push(state_pairs(kept@), kp);
                    lemma_unique_push(state_pairs(kept@), kp);
                }
                let entry = (self.state[i].0.clone(), self.state[i].1, self.state[i].2);
                proof {
                    assert(entry == self.state@[i as int]);
                }
                kept.push(entry);
            }
            i += 1;
        }
        proof {
            assert(old_pairs.take(self.state@.len() as int) =~= old_pairs);
            let kp = (key, (get_or_zero(a.context, node_id) + 1) as u32);
            lemma_assoc_map_dom(state_pairs(kept@));
            assert(!assoc_map(state_pairs(kept@)).dom().contains(key));
            assert(!has_key(state_pairs(kept@), key));
            lemma_pairs_push(kept@, (item_name, node_id, next));
            lemma_assoc_map_push(state_pairs(kept@), kp);
            lemma_unique_push(state_pairs(kept@), kp);
            lemma_assoc_map_dom(old_pairs);
        }
        kept.push((item_name, node_id, next));
        self.state = kept;
        proof {
            let b = final(self)@;
            assert(b.state =~= a.state.insert(key, next));
            assert(b.context =~= a.context.insert(node_id, next));
            assert(b =~= set_added(a, item_name@, node_id));
            assert forall|k: (Seq<char>, u128)| #[trigger] b.state.dom().contains(k) implies
                b.context.dom().contains(k.1) && b.state[k] <= b.context[k.1] by {
                if k != key {
                    assert(a.state.dom().contains(k));
                }
            }
        }
    }

    /// Removes every entry for `item_name` from the state; the causal
    /// context is left untouched.
    pub fn rmv_i(&mut self, item_name: String)
        requires
            old(self).well_formed(),
        ensures
            final(self).well_formed(),
            final(self)@.context == old(self)@.context,
            final(self)@.state == drop_name(old(self)@.state, item_name@),
    {
        let ghost a = old(self)@;
        let ghost old_pairs = state_pairs(self.state@);
        let mut kept: Vec<(String, u128, u32)> = Vec::new();
        let mut i: usize = 0;
        while i < self.state.len()
            invariant
                0 <= i <= self.state@.len(),
                unique_keys(old_pairs),
                old_pairs == state_pairs(self.state@),
                unique_keys(state_pairs(kept@)),
                forall|k: (Seq<char>, u128)| #[trigger] assoc_map(
                    state_pairs(kept@),
                ).dom().contains(k) <==> (has_key(old_pairs.take(i as int), k) && k.0
                    != item_name@),
                forall|k: (Seq<char>, u128)| #[trigger] assoc_map(
                    state_pairs(kept@),
                ).dom().contains(k) ==> assoc_map(state_pairs(kept@))[k] == assoc_map(old_pairs)[k],
            decreases self.state@.len() - i,
        {
            let same = self.state[i].0 == item_name;
            proof {
                lemma_assoc_map_dom(state_pairs(kept@));
                crate::maps::lemma_has_key_take_step(old_pairs, i as int);
                lemma_assoc_map_index(old_pairs, i as int);
            }
            if !same {
                proof {
                    let kp = entry_pair(self.state@[i as int]);
                    if has_key(old_pairs.take(i as int), kp.0) {
                        let x = choose|x: int|
                            0 <= x < old_pairs.take(i as int).len() && (#[trigger] old_pairs.take(
                                i as int,
                            )[x]).0 == kp.0;
                        assert(old_pairs[x].0 == old_pairs[i as int].0);
                        assert(false);
                    }
                    assert(!assoc_map(state_pairs(kept@)).dom().contains(kp.0));
                    assert(!has_key(state_pairs(kept@), kp.0));
                    lemma_pairs_push(kept@, self.state@[i as int]);
                    lemma_assoc_map_push(state_pairs(kept@), kp);
                    lemma_unique_push(state_pairs(kept@), kp);
                }
                let entry = (self.state[i].0.clone(), self.state[i].1, self.state[i].2);
                proof {
                    assert(entry == self.state@[i as int]);
                }
                kept.push(entry);
            }
            i += 1;
        }
        proof {
            assert(old_pairs.take(self.state@.len() as int) =~= old_pairs);
            lemma_assoc_map_dom(old_pairs);
            lemma_assoc_map_dom(state_pairs(kept@));
        }
        self.state = kept;
        proof {
            let b = final(self)@;
            assert(b.state =~= drop_name(a.state, item_name@));
            assert forall|k: (Seq<char>, u128)| #[trigger] b.state.dom().contains(k) implies
                b.context.dom().contains(k.1) && b.state[k] <= b.context[k.1] by {
                assert(a.state.dom().contains(k));
            }
        }
    }

    /// Whether two sets carry the same entries and the same causal
    /// context: equality of the mathematical models, regardless of
    /// storage order.
    pub fn same_state(&self, other: &AWSet) -> (r: bool)
        requires
            self.well_formed(),
            other.well_formed(),
        ensures
            r == (self@ == other@),
    {
        let ctx_eq = buckets_equal(&self.context, &other.context);
        if !ctx_eq {
            return false;
        }
        let mut i: usize = 0;
        while i < self.state.len()
            invariant
                0 <= i <= self.state@.len(),
                self.well_formed(),
                other.well_formed(),
                forall|j: int| 0 <= j < i ==> {
                    let k = ((#[trigger] self.state@[j]).0@, self.state@[j].1);
                    other@.state.dom().contains(k) && other@.state[k] == self.state@[j].2
                },
            decreases self.state@.len() - i,
        {
            proof {
                lemma_assoc_map_index(state_pairs(self.state@), i as int);
            }
            let found = has_triple(
                &other.state,
                &self.state[i].0,
                self.state[i].1,
                self.state[i].2,
            );
            if !found {
                return false;
            }
            i += 1;
        }
        let mut j: usize = 0;
        while j < other.state.len()
            invariant
                0 <= j <= other.state@.len(),
                self.well_formed(),
                other.well_formed(),
                forall|x: int| 0 <= x < j ==> self@.state.dom().contains(
                    ((#[trigger] other.state@[x]).0@, other.state@[x].1),
                ),
            decreases other.state@.len() - j,
        {
            proof {
                lemma_assoc_map_index(state_pairs(other.state@), j as int);
            }
            let found = has_pair_key(&self.state, &other.state[j].0, other.state[j].1);
            if !found {
                return false;
            }
            j += 1;
        }
        proof {
            lemma_assoc_map_dom(state_pairs(self.state@));
            lemma_assoc_map_dom(state_pairs(other.state@));
            assert forall|k: (Seq<char>, u128)| #[trigger] self@.state.dom().contains(k) implies
                other@.state.dom().contains(k) && self@.state[k] == other@.state[k] by {
                let x = choose|x: int|
                    0 <= x < state_pairs(self.state@).len() && (#[trigger] state_pairs(
                        self.state@,
                    )[x]).0 == k;
                lemma_assoc_map_index(state_pairs(self.state@), x);
            }
            assert forall|k: (Seq<char>, u128)| #[trigger] other@.state.dom().contains(k) implies
                self@.state.dom().contains(k) by {
                let x = choose|x: int|
                    0 <= x < state_pairs(other.state@).len() && (#[trigger] state_pairs(
                        other.state@,
                    )[x]).0 == k;
            }
            assert(self@.state =~= other@.state);
        }
        true
    }

    /// The entries of this set that survive against the other set's
    /// causal context.
    pub fn filter(&self, inc_awset: &AWSet) -> (r: Vec<(String, u128, u32)>)
        requires
            self.well_formed(),
            inc_awset.well_formed(),
        ensures
            unique_keys(state_pairs(r@)),
            assoc_map(state_pairs(r@)) == live_part(self@.state, inc_awset@.context),
    {
        let ghost a = self@;
        let ghost b = inc_awset@;
        let ghost old_pairs = state_pairs(self.state@);
        let mut kept: Vec<(String, u128, u32)> = Vec::new();
        let mut i: usize = 0;
        while i < self.state.len()
            invariant
                0 <= i <= self.state@.len(),
                self.well_formed(),
                inc_awset.well_formed(),
                a == self@,
                b == inc_awset@,
                old_pairs == state_pairs(self.state@),
                unique_keys(state_pairs(kept@)),
                forall|k: (Seq<char>, u128)| #[trigger] assoc_map(
                    state_pairs(kept@),
                ).dom().contains(k) <==> (has_key(old_pairs.take(i as int), k) && a.state.dom().contains(k)
                    && survives(a.state[k], k.1, b.context)),
                forall|k: (Seq<char>, u128)| #[trigger] assoc_map(
                    state_pairs(kept@),
                ).dom().contains(k) ==> assoc_map(state_pairs(kept@))[k] == a.state[k],
            decreases self.state@.len() - i,
        {
            let gen = self.state[i].2;
            let rep = self.state[i].1;
            let ctx_gen = vec_get(&inc_awset.context, rep);
            proof {
                lemma_assoc_map_dom(state_pairs(kept@));
                crate::maps::lemma_has_key_take_step(old_pairs, i as int);
                lemma_assoc_map_index(old_pairs, i as int);
            }
            if ctx_gen <= gen {
                proof {
                    let kp = entry_pair(self.state@[i as int]);
                    if has_key(old_pairs.take(i as int), kp.0) {
                        let x = choose|x: int|
                            0 <= x < old_pairs.take(i as int).len() && (#[trigger] old_pairs.take(
                                i as int,
                            )[x]).0 == kp.0;
                        assert(old_pairs[x].0 == old_pairs[i as int].0);
                        assert(false);
                    }
                    assert(!assoc_map(state_pairs(kept@)).dom().contains(kp.0));
                    assert(!has_key(state_pairs(kept@), kp.0));
                    lemma_pairs_push(kept@, self.state@[i as int]);
                    lemma_assoc_map_push(state_pairs(kept@), kp);
                    lemma_unique_push(state_pairs(kept@), kp);
                }
                let entry = (self.state[i].0.clone(), self.state[i].1, self.state[i].2);
                proof {
                    assert(entry == self.state@[i as int]);
                }
                kept.push(entry);
            }
            i += 1;
        }
        proof {
            assert(old_pairs.take(self.state@.len() as int) =~= old_pairs);
            lemma_assoc_map_dom(old_pairs);
            assert(assoc_map(state_pairs(kept@)) =~= live_part(a.state, b.context));
        }
        kept
    }

    /// Merges the incoming snapshot into this set: entries of either
    /// side survive unless the other side's context has advanced
    /// strictly past them, entries shared by both sides always stay,
    /// and the contexts join by per-replica maximum.
    pub fn merge(&mut self, inc_awset: &AWSet)
        requires
            old(self).well_formed(),
            inc_awset.well_formed(),
        ensures
            final(self).well_formed(),
            final(self)@ == awset_merged(old(self)@, inc_awset@),
    {
        let ghost a = old(self)@;
        let ghost b = inc_awset@;
        let ghost a_pairs = state_pairs(self.state@);
        let ghost b_pairs = state_pairs(inc_awset.state@);
        let mut out: Vec<(String, u128, u32)> = Vec::new();
        let mut i: usize = 0;
        while i < self.state.len()
            invariant
                0 <= i <= self.state@.len(),
                self.well_formed(),
                inc_awset.well_formed(),
                a == self@,
                b == inc_awset@,
                a_pairs == state_pairs(self.state@),
                unique_keys(state_pairs(out@)),
                forall|k: (Seq<char>, u128)| #[trigger] assoc_map(
                    state_pairs(out@),
                ).dom().contains(k) <==> (has_key(a_pairs.take(i as int), k) && keep_entry(
                    a.state,
                    b.state,
                    b.context,
                    k,
                )),
                forall|k: (Seq<char>, u128)| #[trigger] assoc_map(
                    state_pairs(out@),
                ).dom().contains(k) ==> assoc_map(state_pairs(out@))[k] == a.state[k],
            decreases self.state@.len() - i,
        {
            let gen = self.state[i].2;
            let rep = self.state[i].1;
            let ctx_gen = vec_get(&inc_awset.context, rep);
            let mut keep = ctx_gen <= gen;
            if !keep {
                keep = has_triple(&inc_awset.state, &self.state[i].0, rep, gen);
            }
            proof {
                lemma_assoc_map_dom(state_pairs(out@));
                crate::maps::lemma_has_key_take_step(a_pairs, i as int);
                lemma_assoc_map_index(a_pairs, i as int);
                assert(keep == keep_entry(a.state, b.state, b.context, entry_pair(
                    self.state@[i as int],
                ).0));
            }
            if keep {
                proof {
                    let kp = entry_pair(self.state@[i as int]);
                    if has_key(a_pairs.take(i as int), kp.0) {
                        let x = choose|x: int|
                            0 <= x < a_pairs.take(i as int).len() && (#[trigger] a_pairs.take(
                                i as int,
                            )[x]).0 == kp.0;
                        assert(a_pairs[x].0 == a_pairs[i as int].0);
                        assert(false);
                    }
                    assert(!assoc_map(state_pairs(out@)).dom().contains(kp.0));
                    assert(!has_key(state_pairs(out@), kp.0));
                    lemma_pairs_push(out@, self.state@[i as int]);
                    lemma_assoc_map_push(state_pairs(out@), kp);
                    lemma_unique_push(state_pairs(out@), kp);
                }
                let entry = (self.state[i].0.clone(), self.state[i].1, self.state[i].2);
                proof {
                    assert(entry == self.state@[i as int]);
                }
                out.push(entry);
            }
            i += 1;
        }
        proof {
            assert(a_pairs.take(self.state@.len() as int) =~= a_pairs);
            lemma_assoc_map_dom(a_pairs);
        }
        let mut j: usize = 0;
        while j < inc_awset.state.len()
            invariant
                0 <= j <= inc_awset.state@.len(),
                self.well_formed(),
                inc_awset.well_formed(),
                a == self@,
                b == inc_awset@,
                b_pairs == state_pairs(inc_awset.state@),
                unique_keys(state_pairs(out@)),
                forall|k: (Seq<char>, u128)| #[trigger] assoc_map(
                    state_pairs(out@),
                ).dom().contains(k) <==> (keep_entry(a.state, b.state, b.context, k) || (has_key(
                    b_pairs.take(j as int),
                    k,
                ) && keep_entry(b.state, a.state, a.context, k))),
                forall|k: (Seq<char>, u128)| #[trigger] assoc_map(
                    state_pairs(out@),
                ).dom().contains(k) ==> assoc_map(state_pairs(out@))[k] == (if keep_entry(
                    a.state,
                    b.state,
                    b.context,
                    k,
                ) {
                    a.state[k]
                } else {
                    b.state[k]
                }),
            decreases inc_awset.state@.len() - j,
        {
            let gen = inc_awset.state[j].2;
            let rep = inc_awset.state[j].1;
            let ctx_gen = vec_get(&self.context, rep);
            let mut keep = ctx_gen <= gen;
            if !keep {
                keep = has_triple(&self.state, &inc_awset.state[j].0, rep, gen);
            }
            proof {
                lemma_assoc_map_dom(state_pairs(out@));
                crate::maps::lemma_has_key_take_step(b_pairs, j as int);
                lemma_assoc_map_index(b_pairs, j as int);
                assert(keep == keep_entry(b.state, a.state, a.context, entry_pair(
                    inc_awset.state@[j as int],
                ).0));
            }
            if keep {
                let dup = has_pair_key(&out, &inc_awset.state[j].0, rep);
                if !dup {
                    proof {
                        let kp = entry_pair(inc_awset.state@[j as int]);
                        assert(!has_key(state_pairs(out@), kp.0));
                        lemma_pairs_push(out@, inc_awset.state@[j as int]);
                        lemma_assoc_map_push(state_pairs(out@), kp);
                        lemma_unique_push(state_pairs(out@), kp);
                        if has_key(b_pairs.take(j as int), kp.0) {
                            let x = choose|x: int|
                                0 <= x < b_pairs.take(j as int).len() && (#[trigger] b_pairs.take(
                                    j as int,
                                )[x]).0 == kp.0;
                            assert(b_pairs[x].0 == b_pairs[j as int].0);
                            assert(false);
                        }
                    }
                    let entry = (
                        inc_awset.state[j].0.clone(),
                        inc_awset.state[j].1,
                        inc_awset.state[j].2,
                    );
                    proof {
                        assert(entry == inc_awset.state@[j as int]);
                    }
                    out.push(entry);
                } else {
                    proof {
                        let kp = entry_pair(inc_awset.state@[j as int]);
                        if has_key(b_pairs.take(j as int), kp.0) {
                            let x = choose|x: int|
                                0 <= x < b_pairs.take(j as int).len() && (#[trigger] b_pairs.take(
                                    j as int,
                                )[x]).0 == kp.0;
                            assert(b_pairs[x].0 == b_pairs[j as int].0);
                            assert(false);
                        }
                        assert(keep_entry(a.state, b.state, b.context, kp.0));
                    }
                }
            }
            j += 1;
        }
        proof {
            assert(b_pairs.take(inc_awset.state@.len() as int) =~= b_pairs);
            lemma_assoc_map_dom(b_pairs);
            lemma_assoc_map_dom(state_pairs(out@));
        }
        let joined = vec_join(&self.context, &inc_awset.context);
        self.context = joined;
        self.state = out;
        proof {
            lemma_awset_merged_wf(a, b);
            assert(final(self)@.state =~= merged_state(a, b));
        }
    }
}

/// Adding an entry for the name `n` makes exactly `n` live.
pub proof fn lemma_live_names_insert(s: Map<(Seq<char>, u128), u32>, n: Seq<char>, r: u128, g: u32)
    ensures
        live_names(s.insert((n, r), g)) =~= live_names(s).insert(n),
{
    let t = s.insert((n, r), g);
    assert forall|m: Seq<char>| live_names(t).contains(m) implies live_names(s).insert(n).contains(
        m,
    ) by {
        let rr = choose|rr: u128| #[trigger] t.dom().contains((m, rr));
        if m != n || rr != r {
            assert(s.dom().contains((m, rr)));
        }
    }
    assert forall|m: Seq<char>| live_names(s).insert(n).contains(m) implies live_names(t).contains(
        m,
    ) by {
        if m == n {
            assert(t.dom().contains((n, r)));
        } else {
            let rr = choose|rr: u128| #[trigger] s.dom().contains((m, rr));
            assert(t.dom().contains((m, rr)));
        }
    }
}

/// Removing every entry for the name `n` makes exactly `n` dead.
pub proof fn lemma_live_names_drop(s: Map<(Seq<char>, u128), u32>, n: Seq<char>)
    ensures
        live_names(drop_name(s, n)) =~= live_names(s).remove(n),
{
    let t = drop_name(s, n);
    assert forall|m: Seq<char>| live_names(t).contains(m) implies live_names(s).remove(n).contains(
        m,
    ) by {
        let rr = choose|rr: u128| #[trigger] t.dom().contains((m, rr));
        assert(s.dom().contains((m, rr)));
    }
    assert forall|m: Seq<char>| live_names(s).remove(n).contains(m) implies live_names(t).contains(
        m,
    ) by {
        let rr = choose|rr: u128| #[trigger] s.dom().contains((m, rr));
        assert(t.dom().contains((m, rr)));
    }
}

/// The state of a merge only holds keys that one of the sides holds.
pub proof fn lemma_merged_state_dom(a: AwSetModel, b: AwSetModel)
    ensures
        merged_state(a, b).dom().subset_of(a.state.dom() + b.state.dom()),
{
}

/// A name live after a merge was live on one of the sides.
pub proof fn lemma_live_of_merge_subset(a: AwSetModel, b: AwSetModel)
    ensures
        forall|n: Seq<char>| #[trigger] live_names(merged_state(a, b)).contains(n) ==> live_names(
            a.state,
        ).contains(n) || live_names(b.state).contains(n),
{
    assert forall|n: Seq<char>| #[trigger] live_names(merged_state(a, b)).contains(n) implies
        live_names(a.state).contains(n) || live_names(b.state).contains(n) by {
        let r = choose|r: u128| #[trigger] merged_state(a, b).dom().contains((n, r));
        assert(a.state.dom().contains((n, r)) || b.state.dom().contains((n, r)));
    }
}

/// Merging two well-formed sets yields a well-formed set.
pub proof fn lemma_awset_merged_wf(a: AwSetModel, b: AwSetModel)
    requires
        awset_wf(a),
        awset_wf(b),
    ensures
        awset_wf(awset_merged(a, b)),
{
    let m = awset_merged(a, b);
    lemma_join_max_finite(a.context, b.context);
    lemma_merged_state_dom(a, b);
    vstd::set_lib::lemma_len_subset(m.state.dom(), a.state.dom() + b.state.dom());
    assert forall|k: (Seq<char>, u128)| #[trigger] m.state.dom().contains(k) implies
        m.context.dom().contains(k.1) && m.state[k] <= m.context[k.1] by {
        if keep_entry(a.state, b.state, b.context, k) {
            assert(a.state[k] <= a.context[k.1]);
            assert(get_or_zero(a.context, k.1) == a.context[k.1]);
        } else {
            assert(b.state[k] <= b.context[k.1]);
            assert(get_or_zero(b.context, k.1) == b.context[k.1]);
        }
    }
}

/// When a merge keeps an entry for the same key from both sides, the
/// two generations must agree.
proof fn lemma_both_keep_equal(a: AwSetModel, b: AwSetModel, k: (Seq<char>, u128))
    requires
        awset_wf(a),
        awset_wf(b),
        keep_entry(a.state, b.state, b.context, k),
        keep_entry(b.state, a.state, a.context, k),
    ensures
        a.state[k] == b.state[k],
{
    if a.state[k] != b.state[k] {
        assert(survives(a.state[k], k.1, b.context));
        assert(survives(b.state[k], k.1, a.context));
        assert(a.state[k] <= a.context[k.1]);
        assert(b.state[k] <= b.context[k.1]);
        assert(get_or_zero(a.context, k.1) == a.context[k.1]);
        assert(get_or_zero(b.context, k.1) == b.context[k.1]);
    }
}

/// Merge law: merging is commutative.
pub proof fn lemma_awset_merge_commutes(a: AwSetModel, b: AwSetModel)
    requires
        awset_wf(a),
        awset_wf(b),
    ensures
        awset_merged(a, b) == awset_merged(b, a),
{
    lemma_join_max_commutes(a.context, b.context);
    assert forall|k: (Seq<char>, u128)| #[trigger] merged_state(a, b).dom().contains(k) implies
        merged_state(a, b)[k] == merged_state(b, a)[k] by {
        if keep_entry(a.state, b.state, b.context, k) && keep_entry(b.state, a.state, a.context, k) {
            lemma_both_keep_equal(a, b, k);
        }
    }
    assert(merged_state(a, b) =~= merged_state(b, a));
}

/// Merge law: merging a set with itself changes nothing.
pub proof fn lemma_awset_merge_idempotent(a: AwSetModel)
    ensures
        awset_merged(a, a) == a,
{
    lemma_join_max_idem(a.context);
    assert(merged_state(a, a) =~= a.state);
    assert(awset_merged(a, a) =~= a);
}

/// Merge law: merging is associative.
pub proof fn lemma_awset_merge_assoc(a: AwSetModel, b: AwSetModel, c: AwSetModel)
    requires
        awset_wf(a),
        awset_wf(b),
        awset_wf(c),
    ensures
        awset_merged(awset_merged(a, b), c) == awset_merged(a, awset_merged(b, c)),
{
    let ab = awset_merged(a, b);
    let bc = awset_merged(b, c);
    lemma_awset_merged_wf(a, b);
    lemma_awset_merged_wf(b, c);
    lemma_join_max_assoc(a.context, b.context, c.context);
    assert forall|k: (Seq<char>, u128)| #[trigger] merged_state(ab, c).dom().contains(k) implies
        merged_state(a, bc).dom().contains(k) && merged_state(ab, c)[k] == merged_state(
            a,
            bc,
        )[k] by {
        lemma_merged_state_assoc_at(a, b, c, k);
    }
    assert forall|k: (Seq<char>, u128)| #[trigger] merged_state(a, bc).dom().contains(k) implies
        merged_state(ab, c).dom().contains(k) by {
        lemma_merged_state_assoc_at(a, b, c, k);
    }
    assert(merged_state(ab, c) =~= merged_state(a, bc));
}

/// The state reached after merging into `a`, one after another, every
/// snapshot of `s`.
pub open spec fn awset_merge_all(a: AwSetModel, s: Seq<AwSetModel>) -> AwSetModel
    decreases s.len(),
{
    if s.len() == 0 {
        a
    } else {
        awset_merged(awset_merge_all(a, s.drop_last()), s.last())
    }
}

/// Every snapshot of the sequence is well-formed.
pub open spec fn all_wf(s: Seq<AwSetModel>) -> bool {
    forall|i: int| 0 <= i < s.len() ==> awset_wf(#[trigger] s[i])
}

/// Merging any sequence of well-formed snapshots preserves
/// well-formedness.
pub proof fn lemma_awset_merge_all_wf(a: AwSetModel, s: Seq<AwSetModel>)
    requires
        awset_wf(a),
        all_wf(s),
    ensures
        awset_wf(awset_merge_all(a, s)),
    decreases s.len(),
{
    if s.len() > 0 {
        assert(all_wf(s.drop_last()));
        lemma_awset_merge_all_wf(a, s.drop_last());
        lemma_awset_merged_wf(awset_merge_all(a, s.drop_last()), s.last());
    }
}

/// The two most recently merged snapshots may change places.
proof fn lemma_awset_merged_right_swap(m: AwSetModel, x: AwSetModel, y: AwSetModel)
    requires
        awset_wf(m),
        awset_wf(x),
        awset_wf(y),
    ensures
        awset_merged(awset_merged(m, x), y) == awset_merged(awset_merged(m, y), x),
{
    lemma_awset_merge_assoc(m, x, y);
    lemma_awset_merge_commutes(x, y);
    lemma_awset_merge_assoc(m, y, x);
}

/// Any one snapshot of the sequence may be held back and merged last.
proof fn lemma_awset_merge_all_extract(a: AwSetModel, s: Seq<AwSetModel>, j: int)
    requires
        awset_wf(a),
        all_wf(s),
        0 <= j < s.len(),
    ensures
        awset_merge_all(a, s) == awset_merged(awset_merge_all(a, s.remove(j)), s[j]),
    decreases s.len(),
{
    if j == s.len() - 1 {
        assert(s.remove(j) =~= s.drop_last());
    } else {
        let y = s.last();
        let sd = s.drop_last();
        assert(all_wf(sd));
        lemma_awset_merge_all_extract(a, sd, j);
        assert(all_wf(sd.remove(j)));
        lemma_awset_merge_all_wf(a, sd.remove(j));
        lemma_awset_merged_right_swap(awset_merge_all(a, sd.remove(j)), s[j], y);
        assert(s.remove(j).drop_last() =~= sd.remove(j));
        assert(s.remove(j).last() == y);
    }
}

/// Convergence of the set lattice: the state reached by merging a
/// collection of snapshots depends only on which snapshots were
/// merged, not on the order they arrived in.  In a state-based
/// design each replica's own operations alone determine its snapshot,
/// so an interleaving across replicas can differ only in when
/// snapshots are exchanged; by this lemma (and the absorption lemma
/// below for repeated deliveries) every replica that has merged the
/// same snapshots ends in the identical state.
pub proof fn lemma_awset_convergence(a: AwSetModel, s1: Seq<AwSetModel>, s2: Seq<AwSetModel>)
    requires
        awset_wf(a),
        all_wf(s1),
        s1.to_multiset() == s2.to_multiset(),
    ensures
        awset_merge_all(a, s1) == awset_merge_all(a, s2),
    decreases s1.len(),
{
    broadcast use vstd::seq_lib::group_to_multiset_ensures;

    if s1.len() == 0 {
        assert(s1.to_multiset().len() == s1.len());
        assert(s2.to_multiset().len() == s2.len());
        assert(s2.len() == 0);
    } else {
        let x = s1.last();
        let dl = s1.drop_last();
        assert(all_wf(dl));
        assert(dl.push(x) =~= s1);
        assert(s1.to_multiset() =~= dl.to_multiset().insert(x));
        assert(s2.to_multiset().count(x) > 0);
        assert(s2.contains(x));
        let j = choose|j: int| 0 <= j < s2.len() && s2[j] == x;
        assert(s2.remove(j).to_multiset() =~= s2.to_multiset().remove(x));
        assert(dl.to_multiset() =~= s2.remove(j).to_multiset());
        lemma_awset_convergence(a, dl, s2.remove(j));
        assert(all_wf(s2)) by {
            assert forall|i: int| 0 <= i < s2.len() implies awset_wf(#[trigger] s2[i]) by {
                assert(s2.to_multiset().count(s2[i]) > 0);
                assert(s1.contains(s2[i]));
                let k = choose|k: int| 0 <= k < s1.len() && s1[k] == s2[i];
            }
        }
        lemma_awset_merge_all_extract(a, s2, j);
    }
}

/// Convergence under repetition: merging a snapshot that the sequence
/// already holds changes nothing, so repeated deliveries of the same
/// snapshot are harmless.
pub proof fn lemma_awset_merge_all_absorbs_duplicate(
    a: AwSetModel,
    s: Seq<AwSetModel>,
    x: AwSetModel,
)
    requires
        awset_wf(a),
        all_wf(s),
        s.contains(x),
    ensures
        awset_merge_all(a, s.push(x)) == awset_merge_all(a, s),
{
    let j = choose|j: int| 0 <= j < s.len() && s[j] == x;
    lemma_awset_merge_all_extract(a, s, j);
    assert(all_wf(s.remove(j)));
    let m = awset_merge_all(a, s.remove(j));
    lemma_awset_merge_all_wf(a, s.remove(j));
    lemma_awset_merge_assoc(m, x, x);
    lemma_awset_merge_idempotent(x);
    assert(s.push(x).drop_last() =~= s);
}

/// The pointwise heart of associativity: at any key, merging left to
/// right and right to left keep the same entry.
proof fn lemma_merged_state_assoc_at(a: AwSetModel, b: AwSetModel, c: AwSetModel, k: (
    Seq<char>,
    u128,
))
    requires
        awset_wf(a),
        awset_wf(b),
        awset_wf(c),
    ensures
        merged_state(awset_merged(a, b), c).dom().contains(k) == merged_state(
            a,
            awset_merged(b, c),
        ).dom().contains(k),
        merged_state(awset_merged(a, b), c).dom().contains(k) ==> merged_state(
            awset_merged(a, b),
            c,
        )[k] == merged_state(a, awset_merged(b, c))[k],
{
    let ab = awset_merged(a, b);
    let bc = awset_merged(b, c);
    lemma_awset_merged_wf(a, b);
    lemma_awset_merged_wf(b, c);
    let r = k.1;
    assert(get_or_zero(ab.context, r) == max_u32(
        get_or_zero(a.context, r),
        get_or_zero(b.context, r),
    ));
    assert(get_or_zero(bc.context, r) == max_u32(
        get_or_zero(b.context, r),
        get_or_zero(c.context, r),
    ));
    if a.state.dom().contains(k) {
        assert(a.state[k] <= get_or_zero(a.context, r));
    }
    if b.state.dom().contains(k) {
        assert(b.state[k] <= get_or_zero(b.context, r));
    }
    if c.state.dom().contains(k) {
        assert(c.state[k] <= get_or_zero(c.context, r));
    }
    if keep_entry(a.state, b.state, b.context, k) && keep_entry(b.state, a.state, a.context, k) {
        lemma_both_keep_equal(a, b, k);
    }
    if keep_entry(b.state, c.state, c.context, k) && keep_entry(c.state, b.state, b.context, k) {
        lemma_both_keep_equal(b, c, k);
    }
    if keep_entry(ab.state, c.state, c.context, k) && keep_entry(c.state, ab.state, ab.context, k) {
        lemma_both_keep_equal(ab, c, k);
    }
    if keep_entry(a.state, bc.state, bc.context, k) && keep_entry(bc.state, a.state, a.context, k) {
        lemma_both_keep_equal(a, bc, k);
    }
}

} // verus!
