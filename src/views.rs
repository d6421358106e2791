//! Views: named promotion channels, linked to packages in both directions.
use crate::error::Error;
use crate::ident::{coords_of, parse_all, parses, PackageIdent};
use crate::keys::{key_of, table_key};
use crate::order::{has_prefix, with_prefix};
use crate::packages::lemma_parsed_members;
use crate::packages::Package;
use crate::store::{apply_all, models, views_of, MemStore, Op, OpModel, StoreModel};
use vstd::prelude::*;

verus! {

/// A mapping of view names to the packages found within each view, so that
/// packages are promoted between environments without copying them.
pub struct ViewsTable {
    pub pkg_view_idx: PkgViewIndex,
    pub view_pkg_idx: ViewPkgIndex,
}

/// For each package, the views that hold it.
pub struct PkgViewIndex {}

/// For each view, the packages it holds, as a ranked set.
pub struct ViewPkgIndex {}

/// The batch that links `view` and the package at `coord` both ways.
pub open spec fn associate_ops(view: Seq<char>, coord: Seq<char>) -> Seq<OpModel> {
    seq![
        OpModel::SetAdd { key: PkgViewIndex::spec_key(coord), member: view },
        OpModel::RankedAdd { key: ViewPkgIndex::spec_key(view), member: coord },
    ]
}

/// After an association, the view lists the package and the package lists
/// the view.
pub proof fn lemma_associate_links_both(s: StoreModel, view: Seq<char>, coord: Seq<char>)
    ensures
        apply_all(s, associate_ops(view, coord)).members(ViewPkgIndex::spec_key(view)).contains(
            coord,
        ),
        apply_all(s, associate_ops(view, coord)).members(PkgViewIndex::spec_key(coord)).contains(
            view,
        ),
{
    let ops = associate_ops(view, coord);
    assert(ops.drop_last().drop_last() =~= Seq::<OpModel>::empty());
    assert(apply_all(s, ops.drop_last().drop_last()) == s);
    assert(ops.drop_last().last() == ops[0]);
    assert(apply_all(s, ops.drop_last()) == s.apply(ops[0]));
}

impl ViewsTable {
    /// The key of the set of all view names, which is the prefix itself.
    pub open spec fn spec_prefix() -> Seq<char> {
        "views"@
    }

    pub fn prefix() -> (r: &'static str)
        ensures
            r@ == Self::spec_prefix(),
    {
        "views"
    }

    pub fn new() -> (r: ViewsTable) {
        ViewsTable { pkg_view_idx: PkgViewIndex::new(), view_pkg_idx: ViewPkgIndex::new() }
    }

    /// Every view name, each once.
    pub fn all(&self, store: &MemStore) -> (r: Vec<String>)
        ensures
            views_of(r@).no_duplicates(),
            forall|x: Seq<char>|
                views_of(r@).contains(x) <==> store@.members(Self::spec_prefix()).contains(x),
    {
        store.members(&String::from_str(Self::prefix()))
    }

    /// The batch that links `view` and `pkg` both ways.
    pub fn plan_associate(view: &str, pkg: &Package) -> (r: Vec<Op>)
        ensures
            models(r@) == associate_ops(view@, pkg@.ident.coordinate()),
    {
        let coord = pkg.ident.to_string();
        let mut ops: Vec<Op> = Vec::new();
        ops.push(
            Op::SetAdd {
                key: PkgViewIndex::key(coord.as_str()),
                member: String::from_str(view),
            },
        );
        ops.push(Op::RankedAdd { key: ViewPkgIndex::key(view), member: coord });
        assert(models(ops@) =~= associate_ops(view@, pkg@.ident.coordinate()));
        ops
    }

    /// Puts `pkg` in `view`, updating both directions as one unit.
    pub fn associate(&self, store: &mut MemStore, view: &str, pkg: &Package)
        ensures
            final(store)@ == apply_all(old(store)@, associate_ops(view@, pkg@.ident.coordinate())),
    {
        store.commit(Self::plan_associate(view, pkg));
    }

    /// Whether `view` is a known view.
    pub fn is_member(&self, store: &MemStore, view: &str) -> (r: bool)
        ensures
            r == store@.members(Self::spec_prefix()).contains(view@),
    {
        store.is_member(&String::from_str(Self::prefix()), &String::from_str(view))
    }

    /// Creates `view`.
    pub fn write(&self, store: &mut MemStore, view: &str)
        ensures
            final(store)@ == old(store)@.apply(
                OpModel::SetAdd { key: Self::spec_prefix(), member: view@ },
            ),
    {
        store.apply(
            Op::SetAdd { key: String::from_str(Self::prefix()), member: String::from_str(view) },
        );
    }
}

impl PkgViewIndex {
    pub open spec fn spec_prefix() -> Seq<char> {
        "pkg:view:index"@
    }

    pub fn prefix() -> (r: &'static str)
        ensures
            r@ == Self::spec_prefix(),
    {
        "pkg:view:index"
    }

    pub open spec fn spec_key(coord: Seq<char>) -> Seq<char> {
        key_of(Self::spec_prefix(), coord)
    }

    pub fn key(coord: &str) -> (r: String)
        ensures
            r@ == Self::spec_key(coord@),
    {
        table_key(Self::prefix(), coord)
    }

    pub fn new() -> (r: PkgViewIndex) {
        PkgViewIndex {  }
    }

    /// Every view that holds `pkg`, each once.
    pub fn all(&self, store: &MemStore, pkg: &PackageIdent) -> (r: Vec<String>)
        ensures
            views_of(r@).no_duplicates(),
            forall|x: Seq<char>|
                views_of(r@).contains(x) <==> store@.members(
                    Self::spec_key(pkg@.coordinate()),
                ).contains(x),
    {
        store.members(&Self::key(pkg.to_string().as_str()))
    }
}

impl ViewPkgIndex {
    pub open spec fn spec_prefix() -> Seq<char> {
        "view:pkg:index"@
    }

    pub fn prefix() -> (r: &'static str)
        ensures
            r@ == Self::spec_prefix(),
    {
        "view:pkg:index"
    }

    pub open spec fn spec_key(view: Seq<char>) -> Seq<char> {
        key_of(Self::spec_prefix(), view)
    }

    pub fn key(view: &str) -> (r: String)
        ensures
            r@ == Self::spec_key(view@),
    {
        table_key(Self::prefix(), view)
    }

    pub fn new() -> (r: ViewPkgIndex) {
        ViewPkgIndex {  }
    }

    /// The packages of `view` whose coordinate starts with `pkg`, each once,
    /// in the store's order; `DecodeError` when one of them does not read.
    pub fn all(&self, store: &MemStore, view: &str, pkg: &str) -> (r: Result<
        Vec<PackageIdent>,
        Error,
    >)
        ensures
            r is Ok <==> forall|x: Seq<char>| #[trigger]
                Self::matching(store@, view@, pkg@).contains(x) ==> parses(x),
            r matches Err(e) ==> e == Error::DecodeError,
            r matches Ok(v) ==> coords_of(v@).no_duplicates() && forall|x: Seq<char>|
                #[trigger] coords_of(v@).contains(x) <==> Self::matching(
                    store@,
                    view@,
                    pkg@,
                ).contains(x),
    {
        let members = store.members(&Self::key(view));
        let ghost m = views_of(members@);
        let ids = with_prefix(members, pkg);
        let ghost f = Self::matching(store@, view@, pkg@);
        assert forall|x: Seq<char>| #[trigger] views_of(ids@).contains(x) <==> f.contains(x) by {
            assert(m.contains(x) <==> store@.members(Self::spec_key(view@)).contains(x));
        }
        proof {
            lemma_parsed_members(ids@, f);
        }
        parse_all(&ids)
    }

    /// The members of `view` whose coordinate starts with `pkg`.
    pub open spec fn matching(s: StoreModel, view: Seq<char>, pkg: Seq<char>) -> Set<Seq<char>> {
        s.members(Self::spec_key(view)).filter(|x: Seq<char>| has_prefix(x, pkg))
    }

    pub fn is_member(&self, store: &MemStore, view: &str, pkg: &PackageIdent) -> (r: bool)
        ensures
            r == store@.members(Self::spec_key(view@)).contains(pkg@.coordinate()),
    {
        store.is_member(&Self::key(view), &pkg.to_string())
    }

    /// The last of the packages of `view` whose coordinate starts with `pkg`,
    /// in the store's order; `NotFound` when there is none, `DecodeError`
    /// when one of them does not read.
    pub fn latest(&self, store: &MemStore, view: &str, pkg: &str) -> (r: Result<
        PackageIdent,
        Error,
    >)
        ensures
            r == Err::<PackageIdent, Error>(Error::DecodeError) <==> exists|x: Seq<char>|
                #[trigger] Self::matching(store@, view@, pkg@).contains(x) && !parses(x),
            r == Err::<PackageIdent, Error>(Error::NotFound) <==> Self::matching(
                store@,
                view@,
                pkg@,
            ) == Set::<Seq<char>>::empty(),
            r matches Ok(p) ==> Self::matching(store@, view@, pkg@).contains(p@.coordinate()),
            r is Err ==> r == Err::<PackageIdent, Error>(Error::NotFound) || r == Err::<
                PackageIdent,
                Error,
            >(Error::DecodeError),
    {
        let ghost f = Self::matching(store@, view@, pkg@);
        match self.all(store, view, pkg) {
            Ok(ids) => {
                let mut ids = ids;
                let ghost v = ids@;
                match ids.pop() {
                    Some(id) => {
                        assert(coords_of(v)[v.len() - 1] == id@.coordinate());
                        assert(coords_of(v).contains(id@.coordinate()));
                        assert(f != Set::<Seq<char>>::empty()) by {
                            assert(!Set::<Seq<char>>::empty().contains(id@.coordinate()));
                        }
                        Ok(id)
                    },
                    None => {
                        assert forall|x: Seq<char>| !f.contains(x) by {
                            assert(!coords_of(v).contains(x));
                        }
                        assert(f =~= Set::<Seq<char>>::empty());
                        Err(Error::NotFound)
                    },
                }
            },
            Err(e) => {
                assert(f != Set::<Seq<char>>::empty()) by {
                    let x = choose|x: Seq<char>| #[trigger] f.contains(x) && !parses(x);
                    assert(!Set::<Seq<char>>::empty().contains(x));
                }
                Err(e)
            },
        }
    }
}

} // verus!
