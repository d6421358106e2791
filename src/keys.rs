//! The key space: every table has its own prefix, and the key of an
//! identifier is the prefix, a colon, and the identifier.
use vstd::prelude::*;

verus! {

pub open spec fn key_of(prefix: Seq<char>, id: Seq<char>) -> Seq<char> {
    prefix + seq![':'] + id
}

/// The store key of `id` in the table whose prefix is `prefix`.
pub fn table_key(prefix: &str, id: &str) -> (r: String)
    ensures
        r@ == key_of(prefix@, id@),
{
    let mut k = String::from_str(prefix);
    proof {
        reveal_strlit(":");
    }
    k.append(":");
    k.append(id);
    k
}

} // verus!
