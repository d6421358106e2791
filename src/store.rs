//! The store model: the five capabilities the tables need from a key-value
//! store, stated over a mathematical model, and `MemStore`, an in-memory
//! store whose every query is proved against that model.
use crate::error::Error;
use crate::order::{is_greatest_member, latest_of, lex_le};
use vstd::prelude::*;

verus! {

/// Plain strings, and sets of member strings, each at its own key.
///
/// Ranked (ordered) sets are held as sets: their order is the store's own
/// iteration order, about which nothing is promised.
pub struct StoreModel {
    pub strings: Map<Seq<char>, Seq<char>>,
    pub sets: Map<Seq<char>, Set<Seq<char>>>,
}

/// A store mutation, as proofs see it.
pub enum OpModel {
    Put { key: Seq<char>, value: Seq<char> },
    Delete { key: Seq<char> },
    SetAdd { key: Seq<char>, member: Seq<char> },
    SetRemove { key: Seq<char>, member: Seq<char> },
    RankedAdd { key: Seq<char>, member: Seq<char> },
}

impl StoreModel {
    pub open spec fn empty() -> StoreModel {
        StoreModel { strings: Map::empty(), sets: Map::empty() }
    }

    /// The members of the set at `key`; a missing set has none.
    pub open spec fn members(self, key: Seq<char>) -> Set<Seq<char>> {
        if self.sets.contains_key(key) {
            self.sets[key]
        } else {
            Set::empty()
        }
    }

    /// The string stored at `key`, if any.
    pub open spec fn value(self, key: Seq<char>) -> Option<Seq<char>> {
        if self.strings.contains_key(key) {
            Some(self.strings[key])
        } else {
            None
        }
    }

    /// Whether anything is stored at `key`.
    pub open spec fn has_key(self, key: Seq<char>) -> bool {
        self.strings.contains_key(key) || self.sets.contains_key(key)
    }

    /// Every key at which something is stored.
    pub open spec fn live_keys(self) -> Set<Seq<char>> {
        self.strings.dom().union(self.sets.dom())
    }

    /// No key holds an empty set: removing the last member removes the key.
    pub open spec fn well_formed(self) -> bool {
        forall|k: Seq<char>| #[trigger]
            self.sets.contains_key(k) ==> self.sets[k] != Set::<Seq<char>>::empty()
    }

    pub open spec fn apply(self, op: OpModel) -> StoreModel {
        match op {
            OpModel::Put { key, value } => StoreModel {
                strings: self.strings.insert(key, value),
                sets: self.sets,
            },
            OpModel::Delete { key } => StoreModel {
                strings: self.strings.remove(key),
                sets: self.sets.remove(key),
            },
            OpModel::SetAdd { key, member } => StoreModel {
                strings: self.strings,
                sets: self.sets.insert(key, self.members(key).insert(member)),
            },
            OpModel::SetRemove { key, member } => {
                let rest = self.members(key).remove(member);
                StoreModel {
                    strings: self.strings,
                    sets: if rest == Set::<Seq<char>>::empty() {
                        self.sets.remove(key)
                    } else {
                        self.sets.insert(key, rest)
                    },
                }
            },
            OpModel::RankedAdd { key, member } => StoreModel {
                strings: self.strings,
                sets: self.sets.insert(key, self.members(key).insert(member)),
            },
        }
    }
}

/// The key an operation acts on.
pub open spec fn op_key(op: OpModel) -> Seq<char> {
    match op {
        OpModel::Put { key, .. } => key,
        OpModel::Delete { key } => key,
        OpModel::SetAdd { key, .. } => key,
        OpModel::SetRemove { key, .. } => key,
        OpModel::RankedAdd { key, .. } => key,
    }
}

/// Starting from an empty store, every live key is the key of some
/// operation applied.
pub proof fn lemma_live_keys_touched(ops: Seq<OpModel>, k: Seq<char>)
    requires
        apply_all(StoreModel::empty(), ops).live_keys().contains(k),
    ensures
        exists|i: int| 0 <= i < ops.len() && op_key(#[trigger] ops[i]) == k,
    decreases ops.len(),
{
    if ops.len() == 0 {
    } else {
        let prev = apply_all(StoreModel::empty(), ops.drop_last());
        if op_key(ops.last()) == k {
            assert(op_key(ops[ops.len() - 1]) == k);
        } else {
            assert(prev.live_keys().contains(k));
            lemma_live_keys_touched(ops.drop_last(), k);
            let i = choose|i: int| 0 <= i < ops.drop_last().len() && op_key(
                #[trigger] ops.drop_last()[i],
            ) == k;
            assert(ops[i] == ops.drop_last()[i]);
        }
    }
}

/// The store after applying `ops` in order to `s`.
pub open spec fn apply_all(s: StoreModel, ops: Seq<OpModel>) -> StoreModel
    decreases ops.len(),
{
    if ops.len() == 0 {
        s
    } else {
        apply_all(s, ops.drop_last()).apply(ops.last())
    }
}

/// A store mutation.
#[derive(Debug)]
pub enum Op {
    /// Overwrite the string at `key`.
    Put { key: String, value: String },
    /// Remove whatever is stored at `key`.
    Delete { key: String },
    /// Insert `member` into the set at `key`.
    SetAdd { key: String, member: String },
    /// Remove `member` from the set at `key`.
    SetRemove { key: String, member: String },
    /// Insert `member` into the ranked set at `key`, with rank zero.
    RankedAdd { key: String, member: String },
}

impl Op {
    /// The key this operation acts on.
    pub fn key(&self) -> (r: &String)
        ensures
            r@ == op_key(self@),
    {
        match self {
            Op::Put { key, .. } => key,
            Op::Delete { key } => key,
            Op::SetAdd { key, .. } => key,
            Op::SetRemove { key, .. } => key,
            Op::RankedAdd { key, .. } => key,
        }
    }
}

impl View for Op {
    type V = OpModel;

    open spec fn view(&self) -> OpModel {
        match self {
            Op::Put { key, value } => OpModel::Put { key: key@, value: value@ },
            Op::Delete { key } => OpModel::Delete { key: key@ },
            Op::SetAdd { key, member } => OpModel::SetAdd { key: key@, member: member@ },
            Op::SetRemove { key, member } => OpModel::SetRemove { key: key@, member: member@ },
            Op::RankedAdd { key, member } => OpModel::RankedAdd { key: key@, member: member@ },
        }
    }
}

pub open spec fn models(ops: Seq<Op>) -> Seq<OpModel> {
    ops.map_values(|o: Op| o@)
}

pub open spec fn views_of(v: Seq<String>) -> Seq<Seq<char>> {
    v.map_values(|s: String| s@)
}

/// Adding a member that is already present changes nothing: a set insert
/// applied twice leaves the store as applying it once does.
pub proof fn lemma_set_add_idempotent(s: StoreModel, key: Seq<char>, member: Seq<char>)
    ensures
        s.apply(OpModel::SetAdd { key, member }).apply(OpModel::SetAdd { key, member }) == s.apply(
            OpModel::SetAdd { key, member },
        ),
{
    let once = s.apply(OpModel::SetAdd { key, member });
    let twice = once.apply(OpModel::SetAdd { key, member });
    assert(once.members(key).insert(member) =~= once.members(key));
    assert(twice.sets =~= once.sets);
    assert(twice.strings =~= once.strings);
}

/// Applying `a` and then `b` is applying their concatenation.
pub proof fn lemma_apply_all_concat(s: StoreModel, a: Seq<OpModel>, b: Seq<OpModel>)
    ensures
        apply_all(s, a + b) == apply_all(apply_all(s, a), b),
    decreases b.len(),
{
    if b.len() == 0 {
        assert(a + b =~= a);
    } else {
        lemma_apply_all_concat(s, a, b.drop_last());
        assert((a + b).drop_last() =~= a + b.drop_last());
        assert((a + b).last() == b.last());
    }
}

/// Every mutation keeps the store free of empty sets.
pub proof fn lemma_apply_well_formed(s: StoreModel, op: OpModel)
    requires
        s.well_formed(),
    ensures
        s.apply(op).well_formed(),
{
    let t = s.apply(op);
    assert forall|k: Seq<char>| #[trigger] t.sets.contains_key(k) implies t.sets[k] != Set::<
        Seq<char>,
    >::empty() by {
        match op {
            OpModel::SetAdd { key, member } => {
                if k == key {
                    assert(t.sets[k].contains(member));
                }
            },
            OpModel::RankedAdd { key, member } => {
                if k == key {
                    assert(t.sets[k].contains(member));
                }
            },
            _ => {},
        }
    }
}

pub proof fn lemma_apply_all_well_formed(s: StoreModel, ops: Seq<OpModel>)
    requires
        s.well_formed(),
    ensures
        apply_all(s, ops).well_formed(),
    decreases ops.len(),
{
    if ops.len() > 0 {
        lemma_apply_all_well_formed(s, ops.drop_last());
        lemma_apply_well_formed(apply_all(s, ops.drop_last()), ops.last());
    }
}

/// The store after the first `i + 1` operations is the store after the
/// first `i`, with the operation at `i` applied.
proof fn lemma_prefix_step(s: StoreModel, ops: Seq<OpModel>, i: int)
    requires
        0 <= i < ops.len(),
    ensures
        apply_all(s, ops.take(i + 1)) == apply_all(s, ops.take(i)).apply(ops[i]),
{
    assert(ops.take(i + 1).drop_last() =~= ops.take(i));
}

/// Removing the entry at `i` from a sequence without duplicates removes
/// exactly that value.
proof fn lemma_remove_distinct(s: Seq<Seq<char>>, i: int)
    requires
        0 <= i < s.len(),
        s.no_duplicates(),
    ensures
        s.remove(i).no_duplicates(),
        forall|x: Seq<char>| s.remove(i).contains(x) <==> (s.contains(x) && x != s[i]),
{
    let r = s.remove(i);
    assert forall|x: Seq<char>| r.contains(x) <==> (s.contains(x) && x != s[i]) by {
        if r.contains(x) {
            let j = choose|j: int| 0 <= j < r.len() && r[j] == x;
            if j < i {
                assert(s[j] == x);
            } else {
                assert(s[j + 1] == x);
            }
        }
        if s.contains(x) && x != s[i] {
            let j = choose|j: int| 0 <= j < s.len() && s[j] == x;
            if j < i {
                assert(r[j] == x);
            } else {
                assert(r[j - 1] == x);
            }
        }
    }
    assert forall|a: int, b: int| 0 <= a < r.len() && 0 <= b < r.len() && a != b implies r[a]
        != r[b] by {
        let sa = if a < i { a } else { a + 1 };
        let sb = if b < i { b } else { b + 1 };
        assert(r[a] == s[sa]);
        assert(r[b] == s[sb]);
    }
}

/// Appending a value not yet present keeps a sequence free of duplicates.
pub proof fn lemma_push_distinct(s: Seq<Seq<char>>, a: Seq<char>)
    requires
        s.no_duplicates(),
        !s.contains(a),
    ensures
        s.push(a).no_duplicates(),
        forall|x: Seq<char>| s.push(a).contains(x) <==> (s.contains(x) || x == a),
{
    let t = s.push(a);
    assert forall|x: Seq<char>| t.contains(x) <==> (s.contains(x) || x == a) by {
        if t.contains(x) {
            let j = choose|j: int| 0 <= j < t.len() && t[j] == x;
            if j < s.len() {
                assert(s[j] == x);
            }
        }
        if s.contains(x) {
            let j = choose|j: int| 0 <= j < s.len() && s[j] == x;
            assert(t[j] == x);
        }
        if x == a {
            assert(t[s.len() as int] == x);
        }
    }
    assert forall|i: int, j: int| 0 <= i < t.len() && 0 <= j < t.len() && i != j implies t[i]
        != t[j] by {
        if i == s.len() {
            assert(s[j] == t[j]);
        } else if j == s.len() {
            assert(s[i] == t[i]);
        }
    }
}

/// Whether `v` holds a string equal to `s`.
fn holds(v: &Vec<String>, s: &String) -> (r: Option<usize>)
    ensures
        r is None <==> !views_of(v@).contains(s@),
        r matches Some(i) ==> i < v@.len() && v@[i as int]@ == s@,
{
    let mut i: usize = 0;
    while i < v.len()
        invariant
            i <= v@.len(),
            forall|j: int| 0 <= j < i ==> v@[j]@ != s@,
        decreases v@.len() - i,
    {
        if v[i] == *s {
            assert(views_of(v@)[i as int] == s@);
            return Some(i);
        }
        i += 1;
    }
    proof {
        if views_of(v@).contains(s@) {
            let j = choose|j: int| 0 <= j < views_of(v@).len() && views_of(v@)[j] == s@;
            assert(v@[j]@ == s@);
        }
    }
    None
}

/// An in-memory store: a log of the mutations applied so far, read back
/// by scanning it.
pub struct MemStore {
    log: Vec<Op>,
}

impl View for MemStore {
    type V = StoreModel;

    closed spec fn view(&self) -> StoreModel {
        apply_all(StoreModel::empty(), models(self.log@))
    }
}

impl MemStore {
    /// The state after the first `i` logged operations.
    spec fn after(&self, i: int) -> StoreModel {
        apply_all(StoreModel::empty(), models(self.log@).take(i))
    }

    proof fn lemma_after_all(&self)
        ensures
            self.after(self.log@.len() as int) == self@,
            self.after(0) == StoreModel::empty(),
    {
        assert(models(self.log@).take(self.log@.len() as int) =~= models(self.log@));
        assert(models(self.log@).take(0) =~= Seq::<OpModel>::empty());
    }

    proof fn lemma_after_step(&self, i: int)
        requires
            0 <= i < self.log@.len(),
        ensures
            self.after(i + 1) == self.after(i).apply(self.log@[i]@),
    {
        lemma_prefix_step(StoreModel::empty(), models(self.log@), i);
    }

    /// An empty store.
    pub fn new() -> (s: MemStore)
        ensures
            s@ == StoreModel::empty(),
    {
        MemStore { log: Vec::new() }
    }

    /// Every reachable state holds no empty set.
    pub proof fn lemma_well_formed(&self)
        ensures
            self@.well_formed(),
    {
        lemma_apply_all_well_formed(StoreModel::empty(), models(self.log@));
    }

    /// Applies one mutation.
    pub fn apply(&mut self, op: Op)
        ensures
            final(self)@ == old(self)@.apply(op@),
    {
        let ghost before = self.log@;
        self.log.push(op);
        assert(models(self.log@).drop_last() =~= models(before));
    }

    /// Applies a batch of mutations, in order, as one unit.
    pub fn commit(&mut self, ops: Vec<Op>)
        ensures
            final(self)@ == apply_all(old(self)@, models(ops@)),
    {
        let ghost before = self.log@;
        let mut ops = ops;
        let ghost batch = ops@;
        self.log.append(&mut ops);
        assert(models(self.log@) =~= models(before) + models(batch));
        proof {
            lemma_apply_all_concat(StoreModel::empty(), models(before), models(batch));
        }
    }

    /// Removes every key.
    pub fn clear(&mut self)
        ensures
            final(self)@ == StoreModel::empty(),
    {
        self.log.clear();
        assert(models(self.log@) =~= Seq::<OpModel>::empty());
    }

    /// The string stored at `key`.
    pub fn get(&self, key: &String) -> (r: Option<String>)
        ensures
            r is Some <==> self@.strings.contains_key(key@),
            r matches Some(v) ==> v@ == self@.strings[key@],
    {
        let mut i = self.log.len();
        proof {
            self.lemma_after_all();
        }
        while i > 0
            invariant
                i <= self.log@.len(),
                self.after(i as int).value(key@) == self@.value(key@),
            decreases i,
        {
            i -= 1;
            proof {
                self.lemma_after_step(i as int);
            }
            match &self.log[i] {
                Op::Put { key: k, value } => {
                    if *k == *key {
                        return Some(value.clone());
                    }
                },
                Op::Delete { key: k } => {
                    if *k == *key {
                        return None;
                    }
                },
                _ => {},
            }
        }
        proof {
            self.lemma_after_all();
        }
        None
    }

    /// Whether `member` is in the set at `key`.
    pub fn is_member(&self, key: &String, member: &String) -> (r: bool)
        ensures
            r == self@.members(key@).contains(member@),
    {
        let mut i = self.log.len();
        proof {
            self.lemma_after_all();
        }
        while i > 0
            invariant
                i <= self.log@.len(),
                self.after(i as int).members(key@).contains(member@) == self@.members(
                    key@,
                ).contains(member@),
            decreases i,
        {
            i -= 1;
            proof {
                self.lemma_after_step(i as int);
            }
            match &self.log[i] {
                Op::Delete { key: k } => {
                    if *k == *key {
                        return false;
                    }
                },
                Op::SetAdd { key: k, member: m } => {
                    if *k == *key && *m == *member {
                        return true;
                    }
                },
                Op::RankedAdd { key: k, member: m } => {
                    if *k == *key && *m == *member {
                        return true;
                    }
                },
                Op::SetRemove { key: k, member: m } => {
                    if *k == *key && *m == *member {
                        return false;
                    }
                },
                _ => {},
            }
        }
        proof {
            self.lemma_after_all();
        }
        false
    }

    /// The members of the set at `key`, each once, in the store's order.
    pub fn members(&self, key: &String) -> (r: Vec<String>)
        ensures
            views_of(r@).no_duplicates(),
            forall|x: Seq<char>| views_of(r@).contains(x) <==> self@.members(key@).contains(x),
    {
        let mut out: Vec<String> = Vec::new();
        let mut i: usize = 0;
        proof {
            self.lemma_after_all();
            assert(views_of(out@) =~= Seq::<Seq<char>>::empty());
        }
        while i < self.log.len()
            invariant
                i <= self.log@.len(),
                views_of(out@).no_duplicates(),
                forall|x: Seq<char>|
                    views_of(out@).contains(x) <==> self.after(i as int).members(key@).contains(x),
            decreases self.log@.len() - i,
        {
            proof {
                self.lemma_after_step(i as int);
            }
            let ghost prev = views_of(out@);
            match &self.log[i] {
                Op::Delete { key: k } => {
                    if *k == *key {
                        out = Vec::new();
                        assert(views_of(out@) =~= Seq::<Seq<char>>::empty());
                        assert(self.after(i + 1).members(key@) =~= Set::<Seq<char>>::empty());
                    }
                },
                Op::SetAdd { key: k, member: m } => {
                    if *k == *key {
                        Self::insert_distinct(&mut out, m);
                    }
                },
                Op::RankedAdd { key: k, member: m } => {
                    if *k == *key {
                        Self::insert_distinct(&mut out, m);
                    }
                },
                Op::SetRemove { key: k, member: m } => {
                    if *k == *key {
                        match holds(&out, m) {
                            Some(j) => {
                                assert(prev[j as int] == m@);
                                out.remove(j);
                                proof {
                                    lemma_remove_distinct(prev, j as int);
                                    assert(views_of(out@) =~= prev.remove(j as int));
                                }
                            },
                            None => {},
                        }
                        assert(forall|x: Seq<char>|
                            views_of(out@).contains(x) <==> (prev.contains(x) && x != m@));
                        let ghost cur = self.after(i as int).members(key@);
                        let ghost next = self.after(i + 1).members(key@);
                        assert forall|x: Seq<char>| #[trigger]
                            views_of(out@).contains(x) <==> next.contains(x) by {
                            assert(self.log@[i as int]@ == OpModel::SetRemove { key: key@, member: m@ });
                            assert(prev.contains(x) <==> cur.contains(x));
                            if cur.remove(m@) == Set::<Seq<char>>::empty() {
                                assert(!cur.remove(m@).contains(x));
                                assert(next == Set::<Seq<char>>::empty());
                            } else {
                                assert(next == cur.remove(m@));
                            }
                        }
                    }
                },
                _ => {},
            }
            i += 1;
        }
        proof {
            self.lemma_after_all();
        }
        out
    }

    fn insert_distinct(out: &mut Vec<String>, m: &String)
        requires
            views_of(old(out)@).no_duplicates(),
        ensures
            views_of(final(out)@).no_duplicates(),
            forall|x: Seq<char>|
                views_of(final(out)@).contains(x) <==> (views_of(old(out)@).contains(x) || x
                    == m@),
    {
        if holds(out, m).is_none() {
            let ghost prev = views_of(out@);
            out.push(m.clone());
            assert(views_of(out@) =~= prev.push(m@));
            proof {
                lemma_push_distinct(prev, m@);
            }
        }
    }

    /// The member of the set at `key` that sorts last; `NotFound` when the
    /// set has no members.
    pub fn latest(&self, key: &String) -> (r: Result<String, Error>)
        ensures
            r is Err <==> self@.members(key@) == Set::<Seq<char>>::empty(),
            r matches Err(e) ==> e == Error::NotFound,
            r matches Ok(s) ==> is_greatest_member(s@, self@.members(key@)),
    {
        let ids = self.members(key);
        let r = latest_of(&ids);
        proof {
            let m = self@.members(key@);
            if ids@.len() == 0 {
                assert forall|x: Seq<char>| !m.contains(x) by {
                    assert(!views_of(ids@).contains(x));
                }
                assert(m =~= Set::<Seq<char>>::empty());
            } else {
                assert(views_of(ids@)[0] == ids@[0]@);
                assert(views_of(ids@).contains(ids@[0]@));
                assert(m.contains(ids@[0]@));
            }
            if r is Ok {
                let best = r->Ok_0@;
                assert(views_of(ids@).contains(best));
                assert forall|x: Seq<char>| #[trigger] m.contains(x) implies lex_le(x, best) by {
                    assert(views_of(ids@).contains(x));
                }
            }
        }
        r
    }

    /// The number of keys at which something is stored.
    pub fn key_count(&self) -> (r: usize)
        ensures
            self@.live_keys().finite(),
            r == self@.live_keys().len(),
    {
        let mut keys: Vec<String> = Vec::new();
        let mut i: usize = 0;
        assert(views_of(keys@) =~= Seq::<Seq<char>>::empty());
        while i < self.log.len()
            invariant
                i <= self.log@.len(),
                views_of(keys@).no_duplicates(),
                forall|j: int|
                    0 <= j < i ==> views_of(keys@).contains(op_key(#[trigger] self.log@[j]@)),
            decreases self.log@.len() - i,
        {
            Self::insert_distinct(&mut keys, self.log[i].key());
            i += 1;
        }
        let mut n: usize = 0;
        let mut j: usize = 0;
        let ghost mut live: Seq<Seq<char>> = Seq::empty();
        let ghost v = views_of(keys@);
        while j < keys.len()
            invariant
                j <= keys@.len(),
                v == views_of(keys@),
                v.no_duplicates(),
                live.len() == n,
                n <= j,
                live.no_duplicates(),
                forall|x: Seq<char>|
                    #[trigger] live.contains(x) <==> (v.take(j as int).contains(x)
                        && self@.has_key(x)),
            decreases keys@.len() - j,
        {
            let ghost a = v.take(j as int);
            let ghost b = v.take(j + 1);
            assert(v[j as int] == keys@[j as int]@);
            assert forall|x: Seq<char>| b.contains(x) <==> (a.contains(x) || x == v[j as int]) by {
                if b.contains(x) {
                    let k = choose|k: int| 0 <= k < b.len() && b[k] == x;
                    if k < j {
                        assert(a[k] == x);
                    }
                }
                if a.contains(x) {
                    let k = choose|k: int| 0 <= k < a.len() && a[k] == x;
                    assert(b[k] == x);
                }
                if x == v[j as int] {
                    assert(b[j as int] == x);
                }
            }
            let ghost prev = live;
            let present = self.contains_key(&keys[j]);
            if present {
                assert(!a.contains(v[j as int])) by {
                    if a.contains(v[j as int]) {
                        let k = choose|k: int| 0 <= k < a.len() && a[k] == v[j as int];
                        assert(v[k] == v[j as int]);
                    }
                }
                proof {
                    lemma_push_distinct(live, v[j as int]);
                    live = live.push(v[j as int]);
                }
                n += 1;
            }
            assert forall|x: Seq<char>|
                #[trigger] live.contains(x) <==> (b.contains(x) && self@.has_key(x)) by {
                assert(prev.contains(x) <==> (a.contains(x) && self@.has_key(x)));
                if present {
                    assert(live.contains(x) <==> (prev.contains(x) || x == v[j as int]));
                } else {
                    assert(live == prev);
                }
            }
            j += 1;
        }
        proof {
            assert(v.take(v.len() as int) =~= v);
            assert forall|x: Seq<char>| #[trigger] live.contains(x) <==> self@.live_keys().contains(x) by {
                if self@.live_keys().contains(x) {
                    lemma_live_keys_touched(models(self.log@), x);
                    let k = choose|k: int| 0 <= k < models(self.log@).len() && op_key(
                        #[trigger] models(self.log@)[k],
                    ) == x;
                    assert(models(self.log@)[k] == self.log@[k]@);
                    assert(v.contains(x));
                }
                assert(v.take(v.len() as int).contains(x) == v.contains(x));
            }
            assert(live.to_set() =~= self@.live_keys());
            live.unique_seq_to_set();
        }
        n
    }

    /// Whether anything is stored at `key`.
    pub fn contains_key(&self, key: &String) -> (r: bool)
        ensures
            r == self@.has_key(key@),
    {
        if self.get(key).is_some() {
            return true;
        }
        let m = self.members(key);
        proof {
            self.lemma_well_formed();
            if m@.len() > 0 {
                assert(views_of(m@)[0] == m@[0]@);
                assert(views_of(m@).contains(m@[0]@));
            } else {
                assert forall|x: Seq<char>| !self@.members(key@).contains(x) by {
                    assert(!views_of(m@).contains(x));
                }
                assert(self@.members(key@) =~= Set::<Seq<char>>::empty());
            }
        }
        m.len() > 0
    }
}

} // verus!
