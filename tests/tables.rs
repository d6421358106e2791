use depot::data_store::DataStore;
use depot::error::Error;
use depot::ident::PackageIdent;
use depot::order::{latest_of, lex_less_eq, starts_with, with_prefix};
use depot::packages::{Package, PackagesIndex, PackagesTable};
use depot::store::{MemStore, Op};
use depot::views::ViewsTable;

fn pkg(origin: &str, name: &str, version: &str, release: &str, body: &str) -> Package {
    Package {
        ident: PackageIdent::new(origin, name, Some(version), Some(release)),
        body: body.to_string(),
    }
}

fn sorted(mut v: Vec<String>) -> Vec<String> {
    v.sort();
    v
}

fn coords(v: Result<Vec<PackageIdent>, Error>) -> Vec<String> {
    sorted(v.unwrap().iter().map(|id| id.to_string()).collect())
}

fn coord(r: Result<PackageIdent, Error>) -> Result<String, Error> {
    r.map(|id| id.to_string())
}

#[test]
fn origin_membership_scenario() {
    let mut ds = DataStore::open();
    ds.origins.create(&mut ds.store, "acme", "alice");
    assert!(ds.origins.is_member(&ds.store, "acme", "alice"));
    ds.origins.add_member(&mut ds.store, "acme", "bob");
    assert_eq!(
        sorted(ds.origins.list_members(&ds.store, "acme")),
        vec!["alice".to_string(), "bob".to_string()]
    );
    ds.origins.delete_member(&mut ds.store, "acme", "bob");
    assert_eq!(ds.origins.list_members(&ds.store, "acme"), vec!["alice".to_string()]);
    assert!(!ds.origins.is_member(&ds.store, "acme", "bob"));
}

#[test]
fn add_member_twice_is_add_member_once() {
    let mut ds = DataStore::open();
    ds.origins.add_member(&mut ds.store, "acme", "carol");
    let once = ds.origins.list_members(&ds.store, "acme");
    ds.origins.add_member(&mut ds.store, "acme", "carol");
    assert_eq!(ds.origins.list_members(&ds.store, "acme"), once);
    assert_eq!(once.len(), 1);
    assert_eq!(ds.key_count(), 1);
}

#[test]
fn origin_exists_until_deleted_or_emptied() {
    let mut ds = DataStore::open();
    assert!(!ds.origins.is_origin(&ds.store, "acme"));
    ds.origins.create(&mut ds.store, "acme", "alice");
    assert!(ds.origins.is_origin(&ds.store, "acme"));
    ds.origins.delete(&mut ds.store, "acme");
    assert!(!ds.origins.is_origin(&ds.store, "acme"));
    assert!(ds.origins.list_members(&ds.store, "acme").is_empty());
    ds.origins.create(&mut ds.store, "acme", "alice");
    ds.origins.delete_member(&mut ds.store, "acme", "alice");
    assert!(!ds.origins.is_origin(&ds.store, "acme"));
}

#[test]
fn package_latest_scenario() {
    let mut ds = DataStore::open();
    let a = pkg("acme", "foo", "1.0.0", "20200101000000", "{}");
    let b = pkg("acme", "foo", "1.2.0", "20200102000000", "{}");
    assert_eq!(ds.packages.write(&mut ds.store, &a), Ok(()));
    assert_eq!(ds.packages.write(&mut ds.store, &b), Ok(()));
    let name = PackageIdent::new("acme", "foo", None, None);
    assert_eq!(
        coord(ds.packages.index.latest(&ds.store, &name)),
        Ok("acme/foo/1.2.0/20200102000000".to_string())
    );
    let version = PackageIdent::new("acme", "foo", Some("1.0.0"), None);
    assert_eq!(
        coord(ds.packages.index.latest(&ds.store, &version)),
        Ok("acme/foo/1.0.0/20200101000000".to_string())
    );
    assert_eq!(
        coords(ds.packages.index.all(&ds.store, "acme")),
        vec![
            "acme/foo/1.0.0/20200101000000".to_string(),
            "acme/foo/1.2.0/20200102000000".to_string()
        ]
    );
}

#[test]
fn write_then_get_and_indexes() {
    let mut ds = DataStore::open();
    let r = pkg("core", "redis", "3.0.7", "20160614230104", "{\"checksum\":\"abc\"}");
    assert_eq!(ds.packages.write(&mut ds.store, &r), Ok(()));
    let got = ds.packages.get(&ds.store, &r.ident).unwrap();
    assert_eq!(got.body, r.body);
    assert_eq!(got.ident.to_string(), "core/redis/3.0.7/20160614230104");
    let coord = "core/redis/3.0.7/20160614230104".to_string();
    for idx in ["core", "core/redis", "core/redis/3.0.7"] {
        assert_eq!(coords(ds.packages.index.all(&ds.store, idx)), vec![coord.clone()]);
    }
    assert_eq!(ds.key_count(), 4);
}

#[test]
fn last_write_wins() {
    let mut ds = DataStore::open();
    for body in ["one", "two", "three"] {
        let r = pkg("acme", "foo", "1.0.0", "20200101000000", body);
        assert_eq!(ds.packages.write(&mut ds.store, &r), Ok(()));
    }
    let id = PackageIdent::new("acme", "foo", Some("1.0.0"), Some("20200101000000"));
    assert_eq!(ds.packages.get(&ds.store, &id).unwrap().body, "three");
}

#[test]
fn invalid_record_leaves_store_unchanged() {
    let mut ds = DataStore::open();
    let r = Package {
        ident: PackageIdent::new("acme", "foo", None, None),
        body: "{}".to_string(),
    };
    assert_eq!(ds.packages.write(&mut ds.store, &r), Err(Error::InvalidRecord));
    assert_eq!(ds.key_count(), 0);
    assert_eq!(ds.packages.get(&ds.store, &r.ident).unwrap_err(), Error::NotFound);
    assert!(ds.packages.index.all(&ds.store, "acme").unwrap().is_empty());
    assert!(ds.packages.index.all(&ds.store, "acme/foo").unwrap().is_empty());
    assert!(PackagesTable::plan_write(&r).is_err());
}

#[test]
fn write_plan_names_four_keys() {
    let r = pkg("acme", "foo", "1.0.0", "20200101000000", "{}");
    let plan = PackagesTable::plan_write(&r).unwrap();
    assert_eq!(
        plan.watch,
        vec![
            "package:acme/foo/1.0.0/20200101000000".to_string(),
            "package:ident:index:acme".to_string(),
            "package:ident:index:acme/foo".to_string(),
            "package:ident:index:acme/foo/1.0.0".to_string(),
        ]
    );
    assert_eq!(plan.ops.len(), 4);
    match &plan.ops[0] {
        Op::Put { key, value } => {
            assert_eq!(key, "package:acme/foo/1.0.0/20200101000000");
            assert_eq!(value, "{}");
        }
        other => panic!("unexpected first operation {:?}", other),
    }
}

#[test]
fn latest_of_empty_index_is_not_found() {
    let ds = DataStore::open();
    let name = PackageIdent::new("acme", "nothing", None, None);
    assert_eq!(coord(ds.packages.index.latest(&ds.store, &name)), Err(Error::NotFound));
    assert_eq!(ds.origin_keys.latest(&ds.store, "acme"), Err(Error::NotFound));
    assert_eq!(
        coord(ds.views.view_pkg_idx.latest(&ds.store, "stable", "acme/foo")),
        Err(Error::NotFound)
    );
}

#[test]
fn key_revision_scenario() {
    let mut ds = DataStore::open();
    ds.origin_keys.write(&mut ds.store, "acme", "20200101000000");
    ds.origin_keys.write(&mut ds.store, "acme", "20200105000000");
    assert_eq!(ds.origin_keys.latest(&ds.store, "acme"), Ok("20200105000000".to_string()));
    assert!(!ds.origin_keys.has_revision(&ds.store, "acme", "20200103000000"));
    assert!(ds.origin_keys.has_revision(&ds.store, "acme", "20200101000000"));
    let mut all = ds.origin_keys.all(&ds.store, "acme");
    all.sort_by(|a, b| a.revision.cmp(&b.revision));
    assert_eq!(all.len(), 2);
    assert_eq!(all[0].origin, "acme");
    assert_eq!(all[0].revision, "20200101000000");
    assert_eq!(all[0].location, "/origins/acme/keys/20200101000000");
    assert_eq!(all[1].location, "/origins/acme/keys/20200105000000");
}

#[test]
fn secret_key_is_replaced_per_origin() {
    let mut ds = DataStore::open();
    assert_eq!(ds.origin_secret_keys.get(&ds.store, "acme"), Err(Error::NotFound));
    ds.origin_secret_keys.write(&mut ds.store, "acme", "20200101000000", "first");
    ds.origin_secret_keys.write(&mut ds.store, "acme", "20200105000000", "second");
    assert_eq!(ds.origin_secret_keys.get(&ds.store, "acme"), Ok("second".to_string()));
}

#[test]
fn view_association_scenario() {
    let mut ds = DataStore::open();
    let r = pkg("acme", "foo", "1.0.0", "20200101000000", "{}");
    ds.views.write(&mut ds.store, "stable");
    assert!(ds.views.is_member(&ds.store, "stable"));
    assert!(!ds.views.is_member(&ds.store, "unstable"));
    assert_eq!(ds.views.all(&ds.store), vec!["stable".to_string()]);
    ds.views.associate(&mut ds.store, "stable", &r);
    assert!(ds.views.view_pkg_idx.is_member(&ds.store, "stable", &r.ident));
    assert!(ds.views.pkg_view_idx.all(&ds.store, &r.ident).contains(&"stable".to_string()));
    assert_eq!(
        coord(ds.views.view_pkg_idx.latest(&ds.store, "stable", "acme/foo")),
        Ok("acme/foo/1.0.0/20200101000000".to_string())
    );
    assert!(ds.views.view_pkg_idx.all(&ds.store, "stable", "acme/bar").unwrap().is_empty());
}

#[test]
fn view_scan_matches_prefix_only() {
    let mut ds = DataStore::open();
    for (name, v) in [("foo", "1.0.0"), ("foo", "2.0.0"), ("foobar", "1.0.0"), ("bar", "1.0.0")] {
        ds.views.associate(&mut ds.store, "stable", &pkg("acme", name, v, "20200101000000", "{}"));
    }
    assert_eq!(
        coords(ds.views.view_pkg_idx.all(&ds.store, "stable", "acme/foo/")),
        vec![
            "acme/foo/1.0.0/20200101000000".to_string(),
            "acme/foo/2.0.0/20200101000000".to_string()
        ]
    );
    assert_eq!(ds.views.view_pkg_idx.all(&ds.store, "stable", "acme/").unwrap().len(), 4);
    let plan = ViewsTable::plan_associate("stable", &pkg("acme", "foo", "1", "2", ""));
    assert_eq!(plan.len(), 2);
}

#[test]
fn clear_removes_every_key() {
    let mut ds = DataStore::open();
    ds.origins.create(&mut ds.store, "acme", "alice");
    ds.views.write(&mut ds.store, "stable");
    assert_eq!(ds.key_count(), 2);
    ds.clear();
    assert_eq!(ds.key_count(), 0);
    assert!(!ds.origins.is_origin(&ds.store, "acme"));
}

#[test]
fn keys_use_prefix_and_colon() {
    assert_eq!(PackagesTable::key("core/redis"), "package:core/redis");
    assert_eq!(PackagesIndex::key("core"), "package:ident:index:core");
    assert_eq!(depot::keys::table_key("views", ""), "views:");
}

#[test]
fn coordinate_and_index_keys() {
    let id = PackageIdent::new("core", "redis", Some("3.0.7"), Some("20160614230104"));
    assert_eq!(id.to_string(), "core/redis/3.0.7/20160614230104");
    assert_eq!(id.origin_idx(), "core");
    assert_eq!(id.name_idx(), "core/redis");
    assert_eq!(id.version_idx(), Some("core/redis/3.0.7".to_string()));
    let short = PackageIdent::new("core", "redis", None, Some("1"));
    assert_eq!(short.to_string(), "core/redis");
    assert_eq!(short.version_idx(), None);
}

#[test]
fn lexicographic_order_is_on_raw_strings() {
    assert!(lex_less_eq("a", "b"));
    assert!(lex_less_eq("", "a"));
    assert!(lex_less_eq("ab", "ab"));
    assert!(!lex_less_eq("abc", "ab"));
    // raw order, not version order
    assert!(lex_less_eq("acme/foo/10.0.0", "acme/foo/9.0.0"));
    let ids = vec!["b".to_string(), "c".to_string(), "a".to_string()];
    assert_eq!(latest_of(&ids), Ok("c".to_string()));
    assert_eq!(latest_of(&Vec::new()), Err(Error::NotFound));
    let kept = with_prefix(ids, "b");
    assert_eq!(kept, vec!["b".to_string()]);
    assert!(starts_with("acme/foo", "acme/"));
    assert!(!starts_with("acme", "acme/"));
}

#[test]
fn mem_store_tracks_strings_and_sets() {
    let mut s = MemStore::new();
    let k = "k".to_string();
    s.apply(Op::Put { key: k.clone(), value: "v".to_string() });
    assert_eq!(s.get(&k), Some("v".to_string()));
    s.commit(vec![
        Op::SetAdd { key: "s".to_string(), member: "x".to_string() },
        Op::RankedAdd { key: "s".to_string(), member: "y".to_string() },
        Op::Delete { key: k.clone() },
    ]);
    assert_eq!(s.get(&k), None);
    assert!(s.is_member(&"s".to_string(), &"y".to_string()));
    assert_eq!(s.latest(&"s".to_string()), Ok("y".to_string()));
    assert_eq!(s.key_count(), 1);
}

#[test]
fn coordinate_parsing() {
    let id = PackageIdent::from_str("core/redis/3.0.7/20160614230104").unwrap();
    assert_eq!(id.origin, "core");
    assert_eq!(id.name, "redis");
    assert_eq!(id.version, Some("3.0.7".to_string()));
    assert_eq!(id.release, Some("20160614230104".to_string()));
    let short = PackageIdent::from_str("core/redis").unwrap();
    assert_eq!(short.version, None);
    assert_eq!(short.to_string(), "core/redis");
    let three = PackageIdent::from_str("core/redis/3.0.7").unwrap();
    assert_eq!(three.version, Some("3.0.7".to_string()));
    assert_eq!(three.release, None);
    assert_eq!(PackageIdent::from_str("core").unwrap_err(), Error::DecodeError);
    assert_eq!(PackageIdent::from_str("a/b/c/d/e").unwrap_err(), Error::DecodeError);
    assert_eq!(PackageIdent::from_str("").unwrap_err(), Error::DecodeError);
    assert_eq!(PackageIdent::from_str("a//").unwrap().to_string(), "a//");
}

#[test]
fn undecodable_member_is_decode_error() {
    let mut ds = DataStore::open();
    ds.store.apply(Op::SetAdd {
        key: PackagesIndex::key("acme"),
        member: "not-a-coordinate".to_string(),
    });
    assert_eq!(ds.packages.index.all(&ds.store, "acme").unwrap_err(), Error::DecodeError);
    let origin = PackageIdent::new("acme", "x", None, None);
    let mut s = MemStore::new();
    s.apply(Op::SetAdd {
        key: PackagesIndex::key("acme/x"),
        member: "zzz".to_string(),
    });
    s.apply(Op::SetAdd {
        key: PackagesIndex::key("acme/x"),
        member: "acme/x/1/2".to_string(),
    });
    assert_eq!(coord(ds.packages.index.latest(&s, &origin)), Err(Error::DecodeError));
}
