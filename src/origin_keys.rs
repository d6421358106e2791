//! Signing-key revisions of each origin, and the secret key bodies.
use crate::error::Error;
use crate::keys::{key_of, table_key};
use crate::order::is_greatest_member;
use crate::store::{views_of, MemStore, Op, OpModel};
use vstd::prelude::*;

verus! {

/// One signing-key revision of an origin, with the path under which it is
/// served.
#[derive(Debug, Clone)]
pub struct OriginKeyIdent {
    pub origin: String,
    pub revision: String,
    pub location: String,
}

/// `/origins/<origin>/keys/<revision>`
pub open spec fn key_location(origin: Seq<char>, revision: Seq<char>) -> Seq<char> {
    "/origins/"@ + origin + "/keys/"@ + revision
}

fn location_of(origin: &str, revision: &str) -> (r: String)
    ensures
        r@ == key_location(origin@, revision@),
{
    let mut s = String::from_str("/origins/");
    s.append(origin);
    s.append("/keys/");
    s.append(revision);
    s
}

pub struct OriginKeysTable {}

impl OriginKeysTable {
    pub open spec fn spec_prefix() -> Seq<char> {
        "origin_keys"@
    }

    pub fn prefix() -> (r: &'static str)
        ensures
            r@ == Self::spec_prefix(),
    {
        "origin_keys"
    }

    pub open spec fn spec_key(origin: Seq<char>) -> Seq<char> {
        key_of(Self::spec_prefix(), origin)
    }

    pub fn key(origin: &str) -> (r: String)
        ensures
            r@ == Self::spec_key(origin@),
    {
        table_key(Self::prefix(), origin)
    }

    pub fn new() -> (r: OriginKeysTable) {
        OriginKeysTable {  }
    }

    /// Every recorded revision of `origin`, each once, with its location.
    pub fn all(&self, store: &MemStore, origin: &str) -> (r: Vec<OriginKeyIdent>)
        ensures
            forall|i: int|
                0 <= i < r@.len() ==> (#[trigger] r@[i]).origin@ == origin@ && r@[i].location@
                    == key_location(origin@, r@[i].revision@),
            forall|i: int, j: int|
                0 <= i < r@.len() && 0 <= j < r@.len() && i != j ==> (#[trigger] r@[i]).revision@
                    != (#[trigger] r@[j]).revision@,
            forall|x: Seq<char>|
                store@.members(Self::spec_key(origin@)).contains(x) <==> exists|i: int|
                    0 <= i < r@.len() && (#[trigger] r@[i]).revision@ == x,
    {
        let revs = store.members(&Self::key(origin));
        let mut out: Vec<OriginKeyIdent> = Vec::new();
        let mut i: usize = 0;
        while i < revs.len()
            invariant
                i <= revs@.len(),
                out@.len() == i,
                forall|j: int|
                    0 <= j < i ==> (#[trigger] out@[j]).origin@ == origin@ && out@[j].revision@
                        == revs@[j]@ && out@[j].location@ == key_location(
                        origin@,
                        out@[j].revision@,
                    ),
            decreases revs@.len() - i,
        {
            let rev = revs[i].clone();
            let location = location_of(origin, rev.as_str());
            out.push(OriginKeyIdent { origin: String::from_str(origin), revision: rev, location });
            i += 1;
        }
        proof {
            let v = views_of(revs@);
            assert forall|a: int, b: int|
                0 <= a < out@.len() && 0 <= b < out@.len() && a != b implies (#[trigger] out@[a]).revision@
                != (#[trigger] out@[b]).revision@ by {
                assert(v[a] == out@[a].revision@);
                assert(v[b] == out@[b].revision@);
            }
            assert forall|x: Seq<char>|
                store@.members(Self::spec_key(origin@)).contains(x) implies exists|k: int|
                    0 <= k < out@.len() && (#[trigger] out@[k]).revision@ == x by {
                assert(v.contains(x));
                let k = choose|k: int| 0 <= k < v.len() && v[k] == x;
                assert(out@[k].revision@ == x);
            }
            assert forall|x: Seq<char>|
                (exists|k: int| 0 <= k < out@.len() && (#[trigger] out@[k]).revision@ == x) implies store@.members(
                Self::spec_key(origin@),
            ).contains(x) by {
                let k = choose|k: int| 0 <= k < out@.len() && (#[trigger] out@[k]).revision@ == x;
                assert(v[k] == x);
                assert(v.contains(x));
            }
        }
        out
    }

    /// Records `revision` as a signing-key revision of `origin`.
    pub fn write(&self, store: &mut MemStore, origin: &str, revision: &str)
        ensures
            final(store)@ == old(store)@.apply(
                OpModel::SetAdd { key: Self::spec_key(origin@), member: revision@ },
            ),
    {
        store.apply(Op::SetAdd { key: Self::key(origin), member: String::from_str(revision) });
    }

    pub fn has_revision(&self, store: &MemStore, origin: &str, revision: &str) -> (r: bool)
        ensures
            r == store@.members(Self::spec_key(origin@)).contains(revision@),
    {
        store.is_member(&Self::key(origin), &String::from_str(revision))
    }

    /// The revision of `origin` that sorts last; `NotFound` when the origin
    /// has no recorded revision.
    pub fn latest(&self, store: &MemStore, origin: &str) -> (r: Result<String, Error>)
        ensures
            r is Err <==> store@.members(Self::spec_key(origin@)) == Set::<Seq<char>>::empty(),
            r matches Err(e) ==> e == Error::NotFound,
            r matches Ok(s) ==> is_greatest_member(s@, store@.members(Self::spec_key(origin@))),
    {
        store.latest(&Self::key(origin))
    }
}

/// Secret key bodies, one per origin: storing a new one replaces the last.
pub struct OriginSecretKeysTable {}

impl OriginSecretKeysTable {
    pub open spec fn spec_prefix() -> Seq<char> {
        "origin_secret_keys"@
    }

    pub fn prefix() -> (r: &'static str)
        ensures
            r@ == Self::spec_prefix(),
    {
        "origin_secret_keys"
    }

    pub open spec fn spec_key(id: Seq<char>) -> Seq<char> {
        key_of(Self::spec_prefix(), id)
    }

    pub fn key(id: &str) -> (r: String)
        ensures
            r@ == Self::spec_key(id@),
    {
        table_key(Self::prefix(), id)
    }

    pub fn new() -> (r: OriginSecretKeysTable) {
        OriginSecretKeysTable {  }
    }

    /// Stores `body` as the secret key of `origin`; the revision is not part
    /// of the key.
    pub fn write(&self, store: &mut MemStore, origin: &str, _revision: &str, body: &str)
        ensures
            final(store)@ == old(store)@.apply(
                OpModel::Put { key: Self::spec_key(origin@), value: body@ },
            ),
    {
        store.apply(Op::Put { key: Self::key(origin), value: String::from_str(body) });
    }

    /// The secret key body stored under `id`; `NotFound` when there is none.
    pub fn get(&self, store: &MemStore, id: &str) -> (r: Result<String, Error>)
        ensures
            r is Ok <==> store@.strings.contains_key(Self::spec_key(id@)),
            r matches Err(e) ==> e == Error::NotFound,
            r matches Ok(b) ==> b@ == store@.strings[Self::spec_key(id@)],
    {
        match store.get(&Self::key(id)) {
            Some(body) => Ok(body),
            None => Err(Error::NotFound),
        }
    }
}

} // verus!
