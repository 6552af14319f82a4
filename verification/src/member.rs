//! The receiving side of the protocol: a member's key store, which takes in
//! key updates received in clear over the member's private channel or wrapped
//! over the multicast group, and a set of such members.
use crate::algorithm::{key_views, spec_unwrap, Algorithm};
use crate::packet::{decode, KeyUpdate, KeyUpdatePacket};
use crate::text::{decimal, decimal_string};
use std::collections::HashMap;
use vstd::prelude::*;
use vstd::string::*;

verus! {

broadcast use vstd::std_specs::hash::group_hash_axioms;

/// What a member knows: keys by id, and the id of the session key.
pub struct MemberState {
    pub keys: Map<u64, Seq<u8>>,
    pub session: Option<u64>,
}

/// The member's knowledge once `update` (if any) is taken in.
pub open spec fn apply_update(st: MemberState, update: Option<KeyUpdate>) -> MemberState {
    match update {
        Some(p) => MemberState {
            keys: st.keys.insert(p.new_key_id, p.new_key),
            session: if p.is_session_key {
                Some(p.new_key_id)
            } else {
                st.session
            },
        },
        None => st,
    }
}

/// Taking in a key update received in clear.
pub open spec fn spec_receive_single(st: MemberState, data: Seq<u8>) -> MemberState {
    apply_update(st, decode(data))
}

/// Taking in a wrapped key update received from the group: it is used only
/// when the member holds the key that it names and it authenticates.
pub open spec fn spec_receive_group(alg: Algorithm, st: MemberState, data: Seq<u8>) -> MemberState {
    match spec_unwrap(alg, data, st.keys) {
        Some(pt) => apply_update(st, decode(pt)),
        None => st,
    }
}

/// A member of the group as seen from its own side.
pub struct TestUser {
    pub user_id: String,
    pub keys: HashMap<u64, Vec<u8>>,
    pub algorithm: Algorithm,
    pub session_key_id: Option<u64>,
    pub in_tree: bool,
}

impl TestUser {
    /// What the member knows.
    pub open spec fn state(&self) -> MemberState {
        MemberState { keys: key_views(self.keys@), session: self.session_key_id }
    }

    fn apply(&mut self, packet: Option<KeyUpdatePacket>)
        ensures
            final(self).state() == apply_update(
                old(self).state(),
                match packet {
                    Some(p) => Some(p@),
                    None => None,
                },
            ),
            final(self).user_id == old(self).user_id,
            final(self).algorithm == old(self).algorithm,
            final(self).in_tree == old(self).in_tree,
    {
        match packet {
            None => {},
            Some(packet) => {
                let ghost old_keys = self.keys@;
                let id = packet.new_key_id;
                let ghost kv = packet.new_key@;
                if packet.is_session_key {
                    self.session_key_id = Some(id);
                }
                self.keys.insert(id, packet.new_key);
                assert(key_views(self.keys@) =~= key_views(old_keys).insert(id, kv));
            },
        }
    }

    /// Takes in a key update received in clear; bytes that do not parse are
    /// ignored.
    pub fn receive_single(&mut self, data: Vec<u8>)
        ensures
            final(self).state() == spec_receive_single(old(self).state(), data@),
            final(self).user_id == old(self).user_id,
            final(self).algorithm == old(self).algorithm,
            final(self).in_tree == old(self).in_tree,
    {
        let packet = KeyUpdatePacket::from_bytes(data);
        self.apply(packet);
    }

    /// Takes in a wrapped key update received from the group; it is ignored
    /// when it is too short, names a key the member does not hold, does not
    /// authenticate or does not parse.
    pub fn receive_group(&mut self, data: Vec<u8>)
        ensures
            final(self).state() == spec_receive_group(old(self).algorithm, old(self).state(), data@),
            final(self).user_id == old(self).user_id,
            final(self).algorithm == old(self).algorithm,
            final(self).in_tree == old(self).in_tree,
    {
        match self.algorithm.unwrap(data.as_slice(), &self.keys) {
            None => {},
            Some(plaintext) => {
                let packet = KeyUpdatePacket::from_bytes(plaintext);
                self.apply(packet);
            },
        }
    }
}


/// The members of a group, as seen from their own side.
pub struct TreeTestUser {
    pub users: Vec<TestUser>,
}

impl TreeTestUser {
    /// The member at position `id`.
    pub fn get_user(&mut self, id: usize) -> (res: Option<&mut TestUser>)
        ensures
            id < old(self).users@.len() ==> (res matches Some(u) && *u == old(self).users@[id as int]
                && final(self).users@ == old(self).users@.update(id as int, *final(u))),
            id >= old(self).users@.len() ==> res is None && final(self).users@ == old(self).users@,
    {
        if id < self.users.len() {
            Some(&mut self.users[id])
        } else {
            None
        }
    }

    /// The position of the first member named `user_id`.
    pub fn get_user_by_id(&self, user_id: &String) -> (res: Option<usize>)
        ensures
            match res {
                Some(i) => i < self.users@.len() && self.users@[i as int].user_id@ == user_id@
                    && forall|j: int| 0 <= j < i ==> (#[trigger] self.users@[j]).user_id@ != user_id@,
                None => forall|j: int| 0 <= j < self.users@.len() ==> (#[trigger] self.users@[j]).user_id@ != user_id@,
            },
    {
        let mut i: usize = 0;
        while i < self.users.len()
            invariant
                i <= self.users@.len(),
                forall|j: int| 0 <= j < i ==> (#[trigger] self.users@[j]).user_id@ != user_id@,
            decreases self.users@.len() - i,
        {
            if self.users[i].user_id == *user_id {
                return Some(i);
            }
            i = i + 1;
        }
        None
    }

    /// Whether some member agrees with `session_key_id` being the session
    /// key: a member in the tree whose session key id is that one, or a member
    /// out of the tree whose session key id is not.
    pub fn check_session_key(&self, session_key_id: u64) -> (res: bool)
        ensures
            res == exists|j: int|
                0 <= j < self.users@.len() && ((#[trigger] self.users@[j]).in_tree && self.users@[j].session_key_id == Some(session_key_id)
                    || !self.users@[j].in_tree && self.users@[j].session_key_id != Some(session_key_id)),
    {
        let mut i: usize = 0;
        while i < self.users.len()
            invariant
                i <= self.users@.len(),
                forall|j: int| 0 <= j < i ==> !session_agrees(#[trigger] self.users@[j], session_key_id),
            decreases self.users@.len() - i,
        {
            let u = &self.users[i];
            let same = match u.session_key_id {
                Some(k) => k == session_key_id,
                None => false,
            };
            if (u.in_tree && same) || (!u.in_tree && !same) {
                assert(session_agrees(self.users@[i as int], session_key_id));
                return true;
            }
            i = i + 1;
        }
        false
    }

    /// Adds a member named `User<n>` (n the number of members so far), with
    /// no key and out of the tree; returns its position.
    pub fn new_user(&mut self) -> (res: usize)
        requires
            old(self).users@.len() < usize::MAX,
        ensures
            res == old(self).users@.len(),
            final(self).users@.len() == old(self).users@.len() + 1,
            final(self).users@.subrange(0, res as int) == old(self).users@,
            final(self).users@[res as int].user_id@ == "User"@ + decimal(res as nat),
            final(self).users@[res as int].keys@ == Map::<u64, Vec<u8>>::empty(),
            final(self).users@[res as int].algorithm == Algorithm::AesGcm256,
            final(self).users@[res as int].session_key_id is None,
            !final(self).users@[res as int].in_tree,
    {
        let n = self.users.len();
        let mut user_id = String::from_str("User");
        user_id.append(decimal_string(n as u64).as_str());
        proof {
            reveal_strlit("User");
        }
        let test_user = TestUser {
            user_id: user_id,
            keys: HashMap::new(),
            algorithm: Algorithm::AesGcm256,
            session_key_id: None,
            in_tree: false,
        };
        self.users.push(test_user);
        assert(self.users@.subrange(0, n as int) =~= old(self).users@);
        n
    }

    /// Every member takes in a wrapped key update received from the group.
    pub fn receive_group(&mut self, data: Vec<u8>)
        ensures
            final(self).users@.len() == old(self).users@.len(),
            forall|j: int| 0 <= j < final(self).users@.len() ==> (#[trigger] final(self).users@[j]).state() == spec_receive_group(
                old(self).users@[j].algorithm,
                old(self).users@[j].state(),
                data@,
            ) && final(self).users@[j].user_id == old(self).users@[j].user_id
                && final(self).users@[j].algorithm == old(self).users@[j].algorithm
                && final(self).users@[j].in_tree == old(self).users@[j].in_tree,
    {
        let mut i: usize = 0;
        while i < self.users.len()
            invariant
                i <= self.users@.len(),
                self.users@.len() == old(self).users@.len(),
                forall|j: int| 0 <= j < i ==> (#[trigger] self.users@[j]).state() == spec_receive_group(
                    old(self).users@[j].algorithm,
                    old(self).users@[j].state(),
                    data@,
                ) && self.users@[j].user_id == old(self).users@[j].user_id
                    && self.users@[j].algorithm == old(self).users@[j].algorithm
                    && self.users@[j].in_tree == old(self).users@[j].in_tree,
                forall|j: int| i <= j < self.users@.len() ==> #[trigger] self.users@[j] == old(self).users@[j],
            decreases self.users@.len() - i,
        {
            let copy = data.clone();
            assert(copy@ =~= data@);
            let u = &mut self.users[i];
            u.receive_group(copy);
            i = i + 1;
        }
    }

    /// Marks the member at position `id` as in the tree.
    pub fn add_user_to_tree(&mut self, id: usize)
        requires
            id < old(self).users@.len(),
        ensures
            final(self).users@ == old(self).users@.update(id as int, (TestUser { in_tree: true, ..old(self).users@[id as int] })),
    {
        self.users[id].in_tree = true;
    }

    /// Marks the member at position `id` as out of the tree.
    pub fn remove_user_from_tree(&mut self, id: usize)
        requires
            id < old(self).users@.len(),
        ensures
            final(self).users@ == old(self).users@.update(id as int, (TestUser { in_tree: false, ..old(self).users@[id as int] })),
    {
        self.users[id].in_tree = false;
    }
}

/// `u` agrees with `session_key_id` being the session key.
pub open spec fn session_agrees(u: TestUser, session_key_id: u64) -> bool {
    (u.in_tree && u.session_key_id == Some(session_key_id)) || (!u.in_tree && u.session_key_id != Some(session_key_id))
}

} // verus!
