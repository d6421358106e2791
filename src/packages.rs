//! Package records and their three secondary indexes (by origin, by name,
//! by name and version), written together as one batch.
use crate::error::Error;
use crate::ident::{coords_of, parse_all, parses, IdentModel, PackageIdent};
use crate::keys::{key_of, table_key};
use crate::order::is_greatest_member;
use crate::store::{apply_all, models, views_of, MemStore, Op, OpModel, StoreModel};
use vstd::prelude::*;

verus! {

/// A package record: its identifier and its metadata, encoded by the
/// record codec.
#[derive(Debug, Clone)]
pub struct Package {
    pub ident: PackageIdent,
    pub body: String,
}

pub struct PackageModel {
    pub ident: IdentModel,
    pub body: Seq<char>,
}

impl View for Package {
    type V = PackageModel;

    open spec fn view(&self) -> PackageModel {
        PackageModel { ident: self.ident@, body: self.body@ }
    }
}

impl PackageModel {
    /// Every index key can be derived: the identifier has a version.
    pub open spec fn valid(self) -> bool {
        self.ident.version is Some
    }
}

/// The keys a batch touches, to be watched by a transaction, and the batch.
pub struct WritePlan {
    pub watch: Vec<String>,
    pub ops: Vec<Op>,
}

/// Contains metadata entries for each package known by the depot.
pub struct PackagesTable {
    pub index: PackagesIndex,
}

/// An index of package identifiers, to find the latest version or release
/// of a package.
pub struct PackagesIndex {}

impl PackagesIndex {
    pub open spec fn spec_prefix() -> Seq<char> {
        "package:ident:index"@
    }

    pub fn prefix() -> (r: &'static str)
        ensures
            r@ == Self::spec_prefix(),
    {
        "package:ident:index"
    }

    pub open spec fn spec_key(id: Seq<char>) -> Seq<char> {
        key_of(Self::spec_prefix(), id)
    }

    pub fn key(id: &str) -> (r: String)
        ensures
            r@ == Self::spec_key(id@),
    {
        table_key(Self::prefix(), id)
    }

    pub fn new() -> (r: PackagesIndex) {
        PackagesIndex {  }
    }

    /// Every package under the index key `id`, each once; `DecodeError`
    /// when a member does not read as a coordinate.
    pub fn all(&self, store: &MemStore, id: &str) -> (r: Result<Vec<PackageIdent>, Error>)
        ensures
            r is Ok <==> forall|x: Seq<char>| #[trigger]
                store@.members(Self::spec_key(id@)).contains(x) ==> parses(x),
            r matches Err(e) ==> e == Error::DecodeError,
            r matches Ok(v) ==> coords_of(v@).no_duplicates() && forall|x: Seq<char>|
                #[trigger] coords_of(v@).contains(x) <==> store@.members(
                    Self::spec_key(id@),
                ).contains(x),
    {
        let ids = store.members(&Self::key(id));
        let r = parse_all(&ids);
        proof {
            lemma_parsed_members(ids@, store@.members(Self::spec_key(id@)));
        }
        r
    }

    /// The package whose coordinate sorts last under the index key named
    /// by `id`; `NotFound` when the index key has no members, `DecodeError`
    /// when that coordinate does not read.
    pub fn latest(&self, store: &MemStore, id: &PackageIdent) -> (r: Result<PackageIdent, Error>)
        ensures
            r == Err::<PackageIdent, Error>(Error::NotFound) <==> store@.members(
                Self::spec_key(id@.coordinate()),
            ) == Set::<Seq<char>>::empty(),
            r matches Ok(p) ==> is_greatest_member(
                p@.coordinate(),
                store@.members(Self::spec_key(id@.coordinate())),
            ),
            r == Err::<PackageIdent, Error>(Error::DecodeError) ==> exists|g: Seq<char>|
                is_greatest_member(g, store@.members(Self::spec_key(id@.coordinate())))
                    && !parses(g),
            r is Err ==> r == Err::<PackageIdent, Error>(Error::NotFound) || r == Err::<
                PackageIdent,
                Error,
            >(Error::DecodeError),
    {
        match store.latest(&Self::key(id.to_string().as_str())) {
            Ok(coord) => {
                let r = PackageIdent::from_str(coord.as_str());
                assert(r is Err ==> is_greatest_member(
                    coord@,
                    store@.members(Self::spec_key(id@.coordinate())),
                ) && !parses(coord@));
                r
            },
            Err(e) => Err(e),
        }
    }
}

/// What `parse_all` of a store's members says, stated over the set.
pub proof fn lemma_parsed_members(ids: Seq<String>, m: Set<Seq<char>>)
    requires
        views_of(ids).no_duplicates(),
        forall|x: Seq<char>| #[trigger] views_of(ids).contains(x) <==> m.contains(x),
    ensures
        (forall|i: int| 0 <= i < ids.len() ==> parses(#[trigger] ids[i]@)) <==> (forall|
            x: Seq<char>,
        | #[trigger] m.contains(x) ==> parses(x)),
{
    if forall|i: int| 0 <= i < ids.len() ==> parses(#[trigger] ids[i]@) {
        assert forall|x: Seq<char>| #[trigger] m.contains(x) implies parses(x) by {
            assert(views_of(ids).contains(x));
            let j = choose|j: int| 0 <= j < views_of(ids).len() && views_of(ids)[j] == x;
            assert(ids[j]@ == x);
        }
    }
    if forall|x: Seq<char>| #[trigger] m.contains(x) ==> parses(x) {
        assert forall|i: int| 0 <= i < ids.len() implies parses(#[trigger] ids[i]@) by {
            assert(views_of(ids)[i] == ids[i]@);
            assert(views_of(ids).contains(ids[i]@));
        }
    }
}

/// The batch that writes a valid record: the record itself, then the
/// coordinate into each of its three indexes.
pub open spec fn write_ops(p: PackageModel) -> Seq<OpModel> {
    let coord = p.ident.coordinate();
    seq![
        OpModel::Put { key: PackagesTable::spec_key(coord), value: p.body },
        OpModel::SetAdd { key: PackagesIndex::spec_key(p.ident.origin_idx()), member: coord },
        OpModel::SetAdd { key: PackagesIndex::spec_key(p.ident.name_idx()), member: coord },
        OpModel::SetAdd {
            key: PackagesIndex::spec_key(p.ident.version_idx().unwrap()),
            member: coord,
        },
    ]
}

/// The keys that the batch of a valid record touches.
pub open spec fn write_keys(p: PackageModel) -> Seq<Seq<char>> {
    seq![
        PackagesTable::spec_key(p.ident.coordinate()),
        PackagesIndex::spec_key(p.ident.origin_idx()),
        PackagesIndex::spec_key(p.ident.name_idx()),
        PackagesIndex::spec_key(p.ident.version_idx().unwrap()),
    ]
}

/// The store after writing each record of `recs`, in order.
pub open spec fn apply_writes(s: StoreModel, recs: Seq<PackageModel>) -> StoreModel
    decreases recs.len(),
{
    if recs.len() == 0 {
        s
    } else {
        apply_all(apply_writes(s, recs.drop_last()), write_ops(recs.last()))
    }
}

proof fn lemma_unfold_four(s: StoreModel, ops: Seq<OpModel>)
    requires
        ops.len() == 4,
    ensures
        apply_all(s, ops) == s.apply(ops[0]).apply(ops[1]).apply(ops[2]).apply(ops[3]),
{
    let d1 = ops.drop_last();
    let d2 = d1.drop_last();
    let d3 = d2.drop_last();
    let d4 = d3.drop_last();
    assert(d4 =~= Seq::<OpModel>::empty());
    assert(apply_all(s, d4) == s);
    assert(apply_all(s, d3) == s.apply(ops[0]));
    assert(apply_all(s, d2) == s.apply(ops[0]).apply(ops[1]));
    assert(apply_all(s, d1) == s.apply(ops[0]).apply(ops[1]).apply(ops[2]));
}

/// After a valid record is written, reading its coordinate gives back the
/// record's body, and the coordinate is a member of each of the record's
/// three indexes.
pub proof fn lemma_write_then_get(s: StoreModel, p: PackageModel)
    requires
        p.valid(),
    ensures
        apply_all(s, write_ops(p)).value(PackagesTable::spec_key(p.ident.coordinate())) == Some(
            p.body,
        ),
        apply_all(s, write_ops(p)).members(
            PackagesIndex::spec_key(p.ident.origin_idx()),
        ).contains(p.ident.coordinate()),
        apply_all(s, write_ops(p)).members(
            PackagesIndex::spec_key(p.ident.name_idx()),
        ).contains(p.ident.coordinate()),
        apply_all(s, write_ops(p)).members(
            PackagesIndex::spec_key(p.ident.version_idx().unwrap()),
        ).contains(p.ident.coordinate()),
{
    lemma_unfold_four(s, write_ops(p));
}

/// Of several writes of records with one coordinate, the last one is what
/// a read of that coordinate returns.
pub proof fn lemma_last_write_wins(s: StoreModel, recs: Seq<PackageModel>, id: IdentModel)
    requires
        recs.len() > 0,
        forall|i: int| 0 <= i < recs.len() ==> (#[trigger] recs[i]).valid(),
        forall|i: int| 0 <= i < recs.len() ==> (#[trigger] recs[i]).ident.coordinate() == id.coordinate(),
    ensures
        apply_writes(s, recs).value(PackagesTable::spec_key(id.coordinate())) == Some(
            recs.last().body,
        ),
{
    let last = recs.last();
    assert(last == recs[recs.len() - 1]);
    lemma_write_then_get(apply_writes(s, recs.drop_last()), last);
}

impl PackagesTable {
    pub open spec fn spec_prefix() -> Seq<char> {
        "package"@
    }

    pub fn prefix() -> (r: &'static str)
        ensures
            r@ == Self::spec_prefix(),
    {
        "package"
    }

    pub open spec fn spec_key(id: Seq<char>) -> Seq<char> {
        key_of(Self::spec_prefix(), id)
    }

    pub fn key(id: &str) -> (r: String)
        ensures
            r@ == Self::spec_key(id@),
    {
        table_key(Self::prefix(), id)
    }

    pub fn new() -> (r: PackagesTable) {
        PackagesTable { index: PackagesIndex::new() }
    }

    /// The record stored under `id`; `NotFound` when there is none.
    pub fn get(&self, store: &MemStore, id: &PackageIdent) -> (r: Result<Package, Error>)
        ensures
            r is Ok <==> store@.strings.contains_key(Self::spec_key(id@.coordinate())),
            r matches Err(e) ==> e == Error::NotFound,
            r matches Ok(p) ==> p@ == (PackageModel {
                ident: id@,
                body: store@.strings[Self::spec_key(id@.coordinate())],
            }),
    {
        match store.get(&Self::key(id.to_string().as_str())) {
            Some(body) => Ok(Package { ident: id.copy(), body }),
            None => Err(Error::NotFound),
        }
    }

    /// The batch that writes `record` and its three index entries, with the
    /// keys to watch; `InvalidRecord` when an index key cannot be derived.
    pub fn plan_write(record: &Package) -> (r: Result<WritePlan, Error>)
        ensures
            r is Ok <==> record@.valid(),
            r matches Err(e) ==> e == Error::InvalidRecord,
            r matches Ok(plan) ==> models(plan.ops@) == write_ops(record@) && views_of(
                plan.watch@,
            ) == write_keys(record@),
    {
        let version_idx = match record.ident.version_idx() {
            Some(v) => v,
            None => {
                return Err(Error::InvalidRecord);
            },
        };
        let coord = record.ident.to_string();
        let record_key = Self::key(coord.as_str());
        let origin_key = PackagesIndex::key(record.ident.origin_idx().as_str());
        let name_key = PackagesIndex::key(record.ident.name_idx().as_str());
        let version_key = PackagesIndex::key(version_idx.as_str());
        let mut watch: Vec<String> = Vec::new();
        watch.push(record_key.clone());
        watch.push(origin_key.clone());
        watch.push(name_key.clone());
        watch.push(version_key.clone());
        let mut ops: Vec<Op> = Vec::new();
        ops.push(Op::Put { key: record_key, value: record.body.clone() });
        ops.push(Op::SetAdd { key: origin_key, member: coord.clone() });
        ops.push(Op::SetAdd { key: name_key, member: coord.clone() });
        ops.push(Op::SetAdd { key: version_key, member: coord });
        assert(models(ops@) =~= write_ops(record@));
        assert(views_of(watch@) =~= write_keys(record@));
        Ok(WritePlan { watch, ops })
    }

    /// Writes `record` and its three index entries as one unit. An invalid
    /// record fails before the store is touched.
    pub fn write(&self, store: &mut MemStore, record: &Package) -> (r: Result<(), Error>)
        ensures
            r is Ok <==> record@.valid(),
            r is Ok ==> final(store)@ == apply_all(old(store)@, write_ops(record@)),
            r matches Err(e) ==> e == Error::InvalidRecord && final(store)@ == old(store)@,
    {
        match Self::plan_write(record) {
            Ok(plan) => {
                store.commit(plan.ops);
                Ok(())
            },
            Err(e) => Err(e),
        }
    }
}

} // verus!
