//! The handling of value keys outside a wire set: what it asks of a finalizer, and a
//! finalizer that hands out fresh keys and keeps track of the live ones.

use std::collections::HashSet;
use vstd::prelude::*;
use crate::engine::ValueKey;
use crate::middle_end::ComponentKey;

verus! {

/// A call made to a [`ValueFinalizer`], with what it returned.
pub enum VfCall {
    /// `gen_key`, which returned the key.
    GenKey(ValueKey),
    /// `delete_key` of the key.
    DeleteKey(ValueKey),
    /// `update_key` of the key.
    UpdateKey(ValueKey),
    /// `join` of the keys into the first key.
    Join(ValueKey, Seq<ValueKey>),
    /// `split` of the first key for the ports, which returned the last key.
    Split(ValueKey, Seq<(ComponentKey, usize)>, ValueKey),
    /// `connect_port` of the port of the component to the key.
    ConnectPort(ComponentKey, usize, ValueKey),
}

/// Handles various operations with [`ValueKey`]s
/// that need to be handled outside of the wire set.
///
/// Each method records its call, with what it returned, in [`Self::calls`].
pub trait ValueFinalizer {
    /// The calls made to this finalizer so far, oldest first.
    spec fn calls(&self) -> Seq<VfCall>;

    /// Create a new value key.
    fn gen_key(&mut self) -> (k: ValueKey)
        ensures
            final(self).calls() == old(self).calls().push(VfCall::GenKey(k));

    /// Delete the current value key.
    fn delete_key(&mut self, k: ValueKey)
        ensures
            final(self).calls() == old(self).calls().push(VfCall::DeleteKey(k));

    /// Recomputes and updates the value for the given value key.
    fn update_key(&mut self, k: ValueKey)
        ensures
            final(self).calls() == old(self).calls().push(VfCall::UpdateKey(k));

    /// Joins the objects linked to the specified keys into the `into` key.
    fn join(&mut self, into: ValueKey, keys: &[ValueKey])
        ensures
            final(self).calls() == old(self).calls().push(VfCall::Join(into, keys@));

    /// Splits the objects linked into a new value key.
    fn split(&mut self, key: ValueKey, split_off: &[(ComponentKey, usize)]) -> (r: ValueKey)
        ensures
            final(self).calls() == old(self).calls().push(VfCall::Split(key, split_off@, r));

    /// Connects a port to a given value key.
    fn connect_port(&mut self, gate: ComponentKey, index: usize, key: ValueKey)
        ensures
            final(self).calls() == old(self).calls().push(VfCall::ConnectPort(gate, index, key));
}

/// A finalizer that hands out keys in increasing order and keeps the set of keys that
/// were handed out and not yet deleted or joined away.
pub struct Keygen {
    next: u64,
    live: HashSet<u64>,
    log: Ghost<Seq<VfCall>>,
}

impl Keygen {
    /// The keys handed out and still live.
    pub closed spec fn live_keys(&self) -> Set<u64> {
        self.live@
    }

    /// A finalizer that has handed out no key.
    pub fn new() -> (r: Self)
        ensures
            r.calls() == Seq::<VfCall>::empty(),
            r.live_keys() == Set::<u64>::empty(),
    {
        Keygen { next: 0, live: HashSet::new(), log: Ghost(Seq::empty()) }
    }

    /// The number of live keys.
    pub fn len(&self) -> (r: usize)
        ensures
            r == self.live_keys().len(),
    {
        proof {
            broadcast use vstd::std_specs::hash::group_hash_axioms;
        }
        self.live.len()
    }

    /// Whether no key is live.
    pub fn is_empty(&self) -> (r: bool)
        ensures
            r == self.live_keys().is_empty(),
    {
        proof {
            broadcast use vstd::std_specs::hash::group_hash_axioms;
        }
        self.live.is_empty()
    }

    /// Hands out the next key and makes it live.
    fn fresh(&mut self) -> (k: ValueKey)
        ensures
            final(self).live_keys() == old(self).live_keys().insert(k.0),
            final(self).log == old(self).log,
    {
        proof {
            broadcast use vstd::std_specs::hash::group_hash_axioms;
        }
        let k = self.next;
        self.next = self.next.wrapping_add(1);
        self.live.insert(k);
        ValueKey(k)
    }

    /// Makes a key no longer live.
    fn kill(&mut self, k: ValueKey)
        ensures
            final(self).live_keys() == old(self).live_keys().remove(k.0),
            final(self).log == old(self).log,
    {
        proof {
            broadcast use vstd::std_specs::hash::group_hash_axioms;
        }
        self.live.remove(&k.0);
    }
}

impl ValueFinalizer for Keygen {
    closed spec fn calls(&self) -> Seq<VfCall> {
        self.log@
    }

    fn gen_key(&mut self) -> (k: ValueKey)
        ensures
            final(self).live_keys() == old(self).live_keys().insert(k.0),
    {
        let k = self.fresh();
        self.log = Ghost(self.log@.push(VfCall::GenKey(k)));
        k
    }

    fn delete_key(&mut self, k: ValueKey)
        ensures
            final(self).live_keys() == old(self).live_keys().remove(k.0),
    {
        self.kill(k);
        self.log = Ghost(self.log@.push(VfCall::DeleteKey(k)));
    }

    fn update_key(&mut self, k: ValueKey)
        ensures
            final(self).live_keys() == old(self).live_keys(),
    {
        self.log = Ghost(self.log@.push(VfCall::UpdateKey(k)));
    }

    fn join(&mut self, into: ValueKey, keys: &[ValueKey])
        ensures
            final(self).live_keys() == old(self).live_keys()
                .difference(keys@.map_values(|k: ValueKey| k.0).to_set()),
    {
        let ghost log0 = self.log@;
        let ghost live0 = self.live_keys();
        let mut i: usize = 0;
        while i < keys.len()
            invariant
                i <= keys@.len(),
                self.log@ == log0,
                self.live_keys() == live0.difference(keys@.subrange(0, i as int).map_values(|k: ValueKey| k.0).to_set()),
            decreases keys@.len() - i,
        {
            self.kill(keys[i]);
            proof {
                let s0 = keys@.subrange(0, i as int).map_values(|k: ValueKey| k.0).to_set();
                let s1 = keys@.subrange(0, i + 1).map_values(|k: ValueKey| k.0).to_set();
                assert(keys@.subrange(0, i + 1).map_values(|k: ValueKey| k.0)
                    =~= keys@.subrange(0, i as int).map_values(|k: ValueKey| k.0).push(keys@[i as int].0));
                let q0 = keys@.subrange(0, i as int).map_values(|k: ValueKey| k.0);
                let q1 = keys@.subrange(0, i + 1).map_values(|k: ValueKey| k.0);
                assert forall|x: u64| s1.contains(x) == s0.insert(keys@[i as int].0).contains(x) by {
                    if q1.contains(x) {
                        let j = choose|j: int| 0 <= j < q1.len() && q1[j] == x;
                        if j < i {
                            assert(q0[j] == x);
                        }
                    }
                    if q0.contains(x) {
                        let j = choose|j: int| 0 <= j < q0.len() && q0[j] == x;
                        assert(q1[j] == x);
                    }
                    if x == keys@[i as int].0 {
                        assert(q1[i as int] == x);
                    }
                }
                assert(s1 =~= s0.insert(keys@[i as int].0));
                assert(live0.difference(s0).remove(keys@[i as int].0) =~= live0.difference(s1));
            }
            i = i + 1;
        }
        proof {
            assert(keys@.subrange(0, keys@.len() as int) =~= keys@);
        }
        self.log = Ghost(log0.push(VfCall::Join(into, keys@)));
    }

    fn split(&mut self, key: ValueKey, split_off: &[(ComponentKey, usize)]) -> (r: ValueKey)
        ensures
            final(self).live_keys() == old(self).live_keys().insert(r.0),
    {
        let r = self.fresh();
        self.log = Ghost(self.log@.push(VfCall::Split(key, split_off@, r)));
        r
    }

    fn connect_port(&mut self, gate: ComponentKey, index: usize, key: ValueKey)
        ensures
            final(self).live_keys() == old(self).live_keys(),
    {
        self.log = Ghost(self.log@.push(VfCall::ConnectPort(gate, index, key)));
    }
}

} // verus!
