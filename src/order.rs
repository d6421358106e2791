//! Lexicographic order on identifiers, and the "latest" rule built on it.
use crate::error::Error;
use crate::store::{lemma_push_distinct, views_of};
use vstd::prelude::*;

verus! {

/// `a` sorts at or before `b`, comparing characters by code point.
pub open spec fn lex_le(a: Seq<char>, b: Seq<char>) -> bool
    decreases a.len(),
{
    if a.len() == 0 {
        true
    } else if b.len() == 0 {
        false
    } else if a[0] != b[0] {
        a[0] < b[0]
    } else {
        lex_le(a.drop_first(), b.drop_first())
    }
}

/// `p` is a prefix of `s`.
pub open spec fn has_prefix(s: Seq<char>, p: Seq<char>) -> bool {
    p.len() <= s.len() && s.take(p.len() as int) == p
}

/// `r` is the greatest of `ids` under `lex_le`.
pub open spec fn is_greatest(r: Seq<char>, ids: Seq<Seq<char>>) -> bool {
    ids.contains(r) && forall|x: Seq<char>| #[trigger] ids.contains(x) ==> lex_le(x, r)
}

/// `r` is a member of `m` and no member sorts after it.
pub open spec fn is_greatest_member(r: Seq<char>, m: Set<Seq<char>>) -> bool {
    m.contains(r) && forall|x: Seq<char>| #[trigger] m.contains(x) ==> lex_le(x, r)
}

pub proof fn lemma_lex_total(a: Seq<char>, b: Seq<char>)
    ensures
        lex_le(a, b) || lex_le(b, a),
    decreases a.len(),
{
    if a.len() > 0 && b.len() > 0 && a[0] == b[0] {
        lemma_lex_total(a.drop_first(), b.drop_first());
    }
}

pub proof fn lemma_lex_reflexive(a: Seq<char>)
    ensures
        lex_le(a, a),
    decreases a.len(),
{
    if a.len() > 0 {
        lemma_lex_reflexive(a.drop_first());
    }
}

pub proof fn lemma_lex_antisymmetric(a: Seq<char>, b: Seq<char>)
    requires
        lex_le(a, b),
        lex_le(b, a),
    ensures
        a == b,
    decreases a.len(),
{
    if a.len() > 0 {
        assert(b.len() > 0);
        assert(a[0] == b[0]);
        lemma_lex_antisymmetric(a.drop_first(), b.drop_first());
        assert(a.len() == b.len());
        assert forall|i: int| 0 <= i < a.len() implies a[i] == b[i] by {
            if i > 0 {
                assert(a[i] == a.drop_first()[i - 1]);
                assert(b[i] == b.drop_first()[i - 1]);
            }
        }
        assert(a =~= b);
    } else {
        assert(b.len() == 0);
        assert(a =~= b);
    }
}

pub proof fn lemma_lex_transitive(a: Seq<char>, b: Seq<char>, c: Seq<char>)
    requires
        lex_le(a, b),
        lex_le(b, c),
    ensures
        lex_le(a, c),
    decreases a.len(),
{
    if a.len() > 0 && b.len() > 0 && c.len() > 0 && a[0] == b[0] && b[0] == c[0] {
        lemma_lex_transitive(a.drop_first(), b.drop_first(), c.drop_first());
    }
}

/// A set has at most one greatest member, so "latest" names one identifier.
pub proof fn lemma_greatest_member_unique(a: Seq<char>, b: Seq<char>, m: Set<Seq<char>>)
    requires
        is_greatest_member(a, m),
        is_greatest_member(b, m),
    ensures
        a == b,
{
    assert(m.contains(a) && m.contains(b));
    lemma_lex_antisymmetric(a, b);
}

/// Skipping a common character keeps the comparison.
proof fn lemma_lex_skip(a: Seq<char>, b: Seq<char>, i: int)
    requires
        0 <= i < a.len(),
        i < b.len(),
        a[i] == b[i],
    ensures
        lex_le(a.skip(i), b.skip(i)) == lex_le(a.skip(i + 1), b.skip(i + 1)),
{
    assert(a.skip(i).drop_first() =~= a.skip(i + 1));
    assert(b.skip(i).drop_first() =~= b.skip(i + 1));
}

/// Whether `a` sorts at or before `b`.
pub fn lex_less_eq(a: &str, b: &str) -> (r: bool)
    ensures
        r == lex_le(a@, b@),
{
    let la = a.unicode_len();
    let lb = b.unicode_len();
    let mut i: usize = 0;
    assert(a@.skip(0) =~= a@);
    assert(b@.skip(0) =~= b@);
    while i < la && i < lb
        invariant
            la == a@.len(),
            lb == b@.len(),
            i <= la,
            i <= lb,
            lex_le(a@.skip(i as int), b@.skip(i as int)) == lex_le(a@, b@),
        decreases la - i,
    {
        let ca = a.get_char(i);
        let cb = b.get_char(i);
        if ca != cb {
            return ca < cb;
        }
        proof {
            lemma_lex_skip(a@, b@, i as int);
        }
        i += 1;
    }
    i == la
}

/// Whether `s` starts with `p`.
pub fn starts_with(s: &str, p: &str) -> (r: bool)
    ensures
        r == has_prefix(s@, p@),
{
    let ls = s.unicode_len();
    let lp = p.unicode_len();
    if lp > ls {
        return false;
    }
    let mut i: usize = 0;
    while i < lp
        invariant
            ls == s@.len(),
            lp == p@.len(),
            lp <= ls,
            i <= lp,
            forall|j: int| 0 <= j < i ==> s@[j] == p@[j],
        decreases lp - i,
    {
        if s.get_char(i) != p.get_char(i) {
            assert(s@.take(lp as int)[i as int] != p@[i as int]);
            return false;
        }
        i += 1;
    }
    assert(s@.take(lp as int) =~= p@);
    true
}

/// The identifier that sorts last among `ids`; `NotFound` when there is none.
pub fn latest_of(ids: &Vec<String>) -> (r: Result<String, Error>)
    ensures
        r is Err <==> ids@.len() == 0,
        r matches Err(e) ==> e == Error::NotFound,
        r matches Ok(s) ==> is_greatest(s@, views_of(ids@)),
{
    if ids.len() == 0 {
        return Err(Error::NotFound);
    }
    let mut best: usize = 0;
    let mut i: usize = 1;
    proof {
        lemma_lex_reflexive(ids@[0]@);
    }
    while i < ids.len()
        invariant
            1 <= i <= ids@.len(),
            best < i,
            forall|j: int| 0 <= j < i ==> lex_le(#[trigger] ids@[j]@, ids@[best as int]@),
        decreases ids@.len() - i,
    {
        if lex_less_eq(ids[best].as_str(), ids[i].as_str()) {
            proof {
                assert forall|j: int| 0 <= j < i + 1 implies lex_le(
                    #[trigger] ids@[j]@,
                    ids@[i as int]@,
                ) by {
                    if j < i {
                        lemma_lex_transitive(ids@[j]@, ids@[best as int]@, ids@[i as int]@);
                    } else {
                        lemma_lex_reflexive(ids@[j]@);
                    }
                }
            }
            best = i;
        } else {
            proof {
                lemma_lex_total(ids@[best as int]@, ids@[i as int]@);
            }
        }
        i += 1;
    }
    let r = ids[best].clone();
    proof {
        let v = views_of(ids@);
        assert(v[best as int] == r@);
        assert forall|x: Seq<char>| #[trigger] v.contains(x) implies lex_le(x, r@) by {
            let j = choose|j: int| 0 <= j < v.len() && v[j] == x;
            assert(lex_le(ids@[j]@, ids@[best as int]@));
        }
    }
    Ok(r)
}

/// The identifiers of `ids` that start with `p`, in their order.
pub fn with_prefix(ids: Vec<String>, p: &str) -> (r: Vec<String>)
    requires
        views_of(ids@).no_duplicates(),
    ensures
        views_of(r@).no_duplicates(),
        forall|x: Seq<char>|
            #[trigger] views_of(r@).contains(x) <==> (views_of(ids@).contains(x) && has_prefix(
                x,
                p@,
            )),
{
    let mut out: Vec<String> = Vec::new();
    let mut i: usize = 0;
    assert(views_of(out@) =~= Seq::<Seq<char>>::empty());
    while i < ids.len()
        invariant
            i <= ids@.len(),
            views_of(ids@).no_duplicates(),
            views_of(out@).no_duplicates(),
            forall|x: Seq<char>|
                #[trigger] views_of(out@).contains(x) <==> (views_of(ids@).take(i as int).contains(x)
                    && has_prefix(x, p@)),
        decreases ids@.len() - i,
    {
        let ghost v = views_of(ids@);
        let ghost a = v.take(i as int);
        let ghost b = v.take(i + 1);
        assert forall|x: Seq<char>| b.contains(x) <==> (a.contains(x) || x == v[i as int]) by {
            if b.contains(x) {
                let j = choose|j: int| 0 <= j < b.len() && b[j] == x;
                if j < i {
                    assert(a[j] == x);
                }
            }
            if a.contains(x) {
                let j = choose|j: int| 0 <= j < a.len() && a[j] == x;
                assert(b[j] == x);
            }
            if x == v[i as int] {
                assert(b[i as int] == x);
            }
        }
        let ghost prev = views_of(out@);
        assert(v[i as int] == ids@[i as int]@);
        if starts_with(ids[i].as_str(), p) {
            assert(!a.contains(v[i as int])) by {
                if a.contains(v[i as int]) {
                    let j = choose|j: int| 0 <= j < a.len() && a[j] == v[i as int];
                    assert(v[j] == v[i as int]);
                }
            }
            out.push(ids[i].clone());
            assert(views_of(out@) =~= prev.push(v[i as int]));
            proof {
                lemma_push_distinct(prev, v[i as int]);
            }
        }
        assert forall|x: Seq<char>|
            #[trigger] views_of(out@).contains(x) <==> (b.contains(x) && has_prefix(x, p@)) by {
            assert(prev.contains(x) <==> (a.contains(x) && has_prefix(x, p@)));
        }
        i += 1;
    }
    assert(views_of(ids@).take(ids@.len() as int) =~= views_of(ids@));
    assert forall|x: Seq<char>|
        views_of(out@).contains(x) <==> (views_of(ids@).contains(x) && has_prefix(x, p@)) by {
        assert(views_of(out@).contains(x) <==> (views_of(ids@).take(ids@.len() as int).contains(x)
            && has_prefix(x, p@)));
    }
    out
}

} // verus!
