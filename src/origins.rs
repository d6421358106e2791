//! Origins: each origin is the set of its members' user names.
use crate::keys::{key_of, table_key};
use crate::store::{lemma_set_add_idempotent, views_of, MemStore, Op, OpModel, StoreModel};
use vstd::prelude::*;

verus! {

pub struct OriginsTable {}

impl OriginsTable {
    pub open spec fn spec_prefix() -> Seq<char> {
        "origins"@
    }

    pub fn prefix() -> (r: &'static str)
        ensures
            r@ == Self::spec_prefix(),
    {
        "origins"
    }

    pub open spec fn spec_key(origin: Seq<char>) -> Seq<char> {
        key_of(Self::spec_prefix(), origin)
    }

    pub fn key(origin: &str) -> (r: String)
        ensures
            r@ == Self::spec_key(origin@),
    {
        table_key(Self::prefix(), origin)
    }

    /// The mutation that adds `user` to `origin`.
    pub open spec fn add_member_op(origin: Seq<char>, user: Seq<char>) -> OpModel {
        OpModel::SetAdd { key: Self::spec_key(origin), member: user }
    }

    pub fn new() -> (r: OriginsTable) {
        OriginsTable {  }
    }

    /// The members of `origin`, each once.
    pub fn list_members(&self, store: &MemStore, origin: &str) -> (r: Vec<String>)
        ensures
            views_of(r@).no_duplicates(),
            forall|x: Seq<char>|
                views_of(r@).contains(x) <==> store@.members(Self::spec_key(origin@)).contains(x),
    {
        store.members(&Self::key(origin))
    }

    /// Creates `origin` with `owner` as its first member.
    pub fn create(&self, store: &mut MemStore, origin: &str, owner: &str)
        ensures
            final(store)@ == old(store)@.apply(Self::add_member_op(origin@, owner@)),
    {
        store.apply(Op::SetAdd { key: Self::key(origin), member: String::from_str(owner) });
    }

    pub fn add_member(&self, store: &mut MemStore, origin: &str, username: &str)
        ensures
            final(store)@ == old(store)@.apply(Self::add_member_op(origin@, username@)),
    {
        store.apply(Op::SetAdd { key: Self::key(origin), member: String::from_str(username) });
    }

    pub fn delete_member(&self, store: &mut MemStore, origin: &str, username: &str)
        ensures
            final(store)@ == old(store)@.apply(
                OpModel::SetRemove { key: Self::spec_key(origin@), member: username@ },
            ),
    {
        store.apply(Op::SetRemove { key: Self::key(origin), member: String::from_str(username) });
    }

    /// Removes `origin` and all of its members.
    pub fn delete(&self, store: &mut MemStore, origin: &str)
        ensures
            final(store)@ == old(store)@.apply(OpModel::Delete { key: Self::spec_key(origin@) }),
    {
        store.apply(Op::Delete { key: Self::key(origin) });
    }

    /// Whether `origin` has any member.
    pub fn is_origin(&self, store: &MemStore, origin: &str) -> (r: bool)
        ensures
            r == store@.has_key(Self::spec_key(origin@)),
    {
        store.contains_key(&Self::key(origin))
    }

    pub fn is_member(&self, store: &MemStore, origin: &str, username: &str) -> (r: bool)
        ensures
            r == store@.members(Self::spec_key(origin@)).contains(username@),
    {
        store.is_member(&Self::key(origin), &String::from_str(username))
    }
}

/// Adding a member twice leaves the store as adding it once does.
pub proof fn lemma_add_member_idempotent(s: StoreModel, origin: Seq<char>, user: Seq<char>)
    ensures
        s.apply(OriginsTable::add_member_op(origin, user)).apply(
            OriginsTable::add_member_op(origin, user),
        ) == s.apply(OriginsTable::add_member_op(origin, user)),
{
    lemma_set_add_idempotent(s, OriginsTable::spec_key(origin), user);
}

} // verus!
