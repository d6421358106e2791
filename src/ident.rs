//! Package coordinates: `origin/name[/version[/release]]`, and the index
//! keys derived from them.
use crate::error::Error;
use vstd::prelude::*;

verus! {

pub open spec fn slash_join(a: Seq<char>, b: Seq<char>) -> Seq<char> {
    a + seq!['/'] + b
}

fn join_slash(a: &mut String, b: &str)
    ensures
        final(a)@ == slash_join(old(a)@, b@),
{
    proof {
        reveal_strlit("/");
    }
    a.append("/");
    a.append(b);
}

/// The pieces of `s` between slashes; a string without slashes is one
/// piece.
pub open spec fn split_slash(s: Seq<char>) -> Seq<Seq<char>>
    decreases s.len(),
{
    if s.len() == 0 {
        seq![Seq::empty()]
    } else {
        let rest = split_slash(s.drop_last());
        if s.last() == '/' {
            rest.push(Seq::empty())
        } else {
            rest.update(rest.len() - 1, rest.last().push(s.last()))
        }
    }
}

/// The pieces joined back with slashes.
pub open spec fn join_pieces(p: Seq<Seq<char>>) -> Seq<char>
    decreases p.len(),
{
    if p.len() <= 1 {
        if p.len() == 0 {
            Seq::empty()
        } else {
            p[0]
        }
    } else {
        slash_join(join_pieces(p.drop_last()), p.last())
    }
}

pub proof fn lemma_split_len(s: Seq<char>)
    ensures
        split_slash(s).len() >= 1,
    decreases s.len(),
{
    if s.len() > 0 {
        lemma_split_len(s.drop_last());
    }
}

/// Splitting at slashes and joining again gives back the string.
pub proof fn lemma_join_split(s: Seq<char>)
    ensures
        join_pieces(split_slash(s)) == s,
    decreases s.len(),
{
    if s.len() > 0 {
        let d = s.drop_last();
        let rest = split_slash(d);
        lemma_join_split(d);
        lemma_split_len(d);
        if s.last() == '/' {
            let p = rest.push(Seq::<char>::empty());
            assert(p.drop_last() =~= rest);
            assert(slash_join(d, Seq::<char>::empty()) =~= s);
        } else {
            let n = rest.len();
            let p = rest.update(n - 1, rest.last().push(s.last()));
            if n == 1 {
                assert(rest.last() == d);
                assert(d.push(s.last()) =~= s);
            } else {
                let j = join_pieces(rest.drop_last());
                assert(p.drop_last() =~= rest.drop_last());
                assert(p.last() == rest.last().push(s.last()));
                assert(join_pieces(p) == slash_join(j, p.last()));
                assert(d == slash_join(j, rest.last()));
                assert(slash_join(j, rest.last().push(s.last())) =~= d.push(s.last()));
                assert(d.push(s.last()) =~= s);
            }
        }
    }
}

/// The identifier that the pieces of a coordinate name: origin, name, and
/// then an optional version and release.
pub open spec fn ident_of_pieces(p: Seq<Seq<char>>) -> IdentModel {
    IdentModel {
        origin: p[0],
        name: p[1],
        version: if p.len() >= 3 {
            Some(p[2])
        } else {
            None
        },
        release: if p.len() >= 4 {
            Some(p[3])
        } else {
            None
        },
    }
}

pub open spec fn no_slash(s: Seq<char>) -> bool {
    forall|i: int| 0 <= i < s.len() ==> s[i] != '/'
}

/// A string without slashes is a single piece.
pub proof fn lemma_split_plain(s: Seq<char>)
    requires
        no_slash(s),
    ensures
        split_slash(s) == seq![s],
    decreases s.len(),
{
    if s.len() > 0 {
        lemma_split_plain(s.drop_last());
        assert(s.drop_last().push(s.last()) =~= s);
        assert(seq![s.drop_last()].update(0, s.drop_last().push(s.last())) =~= seq![s]);
    } else {
        assert(s =~= Seq::<char>::empty());
    }
}

/// Appending a slash and a piece without slashes appends that piece.
pub proof fn lemma_split_join(a: Seq<char>, b: Seq<char>)
    requires
        no_slash(b),
    ensures
        split_slash(slash_join(a, b)) == split_slash(a).push(b),
    decreases b.len(),
{
    let j = slash_join(a, b);
    if b.len() == 0 {
        assert(j.drop_last() =~= a);
        assert(b =~= Seq::<char>::empty());
    } else {
        let b0 = b.drop_last();
        lemma_split_join(a, b0);
        assert(j.drop_last() =~= slash_join(a, b0));
        assert(j.last() == b.last());
        let rest = split_slash(a).push(b0);
        assert(b0.push(b.last()) =~= b);
        assert(rest.update(rest.len() - 1, b0.push(b.last())) =~= split_slash(a).push(b));
    }
}

/// Every piece of the identifier is free of slashes, and a release comes
/// only with a version.
pub open spec fn well_formed_ident(id: IdentModel) -> bool {
    &&& no_slash(id.origin)
    &&& no_slash(id.name)
    &&& (id.version matches Some(v) ==> no_slash(v))
    &&& (id.release matches Some(r) ==> no_slash(r) && id.version is Some)
}

/// A well-formed identifier's coordinate reads back as that identifier.
pub proof fn lemma_coordinate_round_trip(id: IdentModel)
    requires
        well_formed_ident(id),
    ensures
        2 <= split_slash(id.coordinate()).len() <= 4,
        ident_of_pieces(split_slash(id.coordinate())) == id,
{
    lemma_split_plain(id.origin);
    lemma_split_join(id.origin, id.name);
    let base = slash_join(id.origin, id.name);
    match id.version {
        None => {
            assert(split_slash(base) =~= seq![id.origin, id.name]);
        },
        Some(v) => {
            lemma_split_join(base, v);
            match id.release {
                None => {
                    assert(split_slash(id.coordinate()) =~= seq![id.origin, id.name, v]);
                },
                Some(r) => {
                    lemma_split_join(slash_join(base, v), r);
                    assert(split_slash(id.coordinate()) =~= seq![id.origin, id.name, v, r]);
                },
            }
        },
    }
}

/// What a package identifier holds.
pub struct IdentModel {
    pub origin: Seq<char>,
    pub name: Seq<char>,
    pub version: Option<Seq<char>>,
    pub release: Option<Seq<char>>,
}

impl IdentModel {
    /// The full coordinate; a release is shown only after a version.
    pub open spec fn coordinate(self) -> Seq<char> {
        let base = slash_join(self.origin, self.name);
        match self.version {
            None => base,
            Some(v) => match self.release {
                None => slash_join(base, v),
                Some(r) => slash_join(slash_join(base, v), r),
            },
        }
    }

    pub open spec fn origin_idx(self) -> Seq<char> {
        self.origin
    }

    pub open spec fn name_idx(self) -> Seq<char> {
        slash_join(self.origin, self.name)
    }

    pub open spec fn version_idx(self) -> Option<Seq<char>> {
        match self.version {
            None => None,
            Some(v) => Some(slash_join(slash_join(self.origin, self.name), v)),
        }
    }
}

/// A package identifier.
#[derive(Debug, Clone)]
pub struct PackageIdent {
    pub origin: String,
    pub name: String,
    pub version: Option<String>,
    pub release: Option<String>,
}

pub open spec fn opt_view(o: Option<String>) -> Option<Seq<char>> {
    match o {
        None => None,
        Some(s) => Some(s@),
    }
}

fn opt_copy(o: &Option<&str>) -> (r: Option<String>)
    ensures
        r is None <==> o is None,
        r matches Some(s) ==> s@ == o.unwrap()@,
{
    match o {
        None => None,
        Some(s) => Some(String::from_str(s)),
    }
}

fn opt_clone(o: &Option<String>) -> (r: Option<String>)
    ensures
        opt_view(r) == opt_view(*o),
{
    match o {
        None => None,
        Some(s) => Some(s.clone()),
    }
}

impl View for PackageIdent {
    type V = IdentModel;

    open spec fn view(&self) -> IdentModel {
        IdentModel {
            origin: self.origin@,
            name: self.name@,
            version: opt_view(self.version),
            release: opt_view(self.release),
        }
    }
}

impl PackageIdent {
    pub fn new(origin: &str, name: &str, version: Option<&str>, release: Option<&str>) -> (r:
        PackageIdent)
        ensures
            r@.origin == origin@,
            r@.name == name@,
            r@.version == (match version {
                None => None,
                Some(v) => Some(v@),
            }),
            r@.release == (match release {
                None => None,
                Some(v) => Some(v@),
            }),
    {
        PackageIdent {
            origin: String::from_str(origin),
            name: String::from_str(name),
            version: opt_copy(&version),
            release: opt_copy(&release),
        }
    }

    /// Reads a coordinate `origin/name[/version[/release]]`;
    /// `DecodeError` unless it has two to four slash-separated pieces.
    pub fn from_str(s: &str) -> (r: Result<PackageIdent, Error>)
        ensures
            r is Ok <==> 2 <= split_slash(s@).len() <= 4,
            r matches Err(e) ==> e == Error::DecodeError,
            r matches Ok(id) ==> id@ == ident_of_pieces(split_slash(s@)) && id@.coordinate()
                == s@,
    {
        let n = s.unicode_len();
        let mut pieces: Vec<String> = Vec::new();
        let mut start: usize = 0;
        let mut i: usize = 0;
        assert(s@.take(0) =~= Seq::<char>::empty());
        assert(s@.subrange(0, 0) =~= Seq::<char>::empty());
        while i < n
            invariant
                n == s@.len(),
                start <= i <= n,
                pieces@.map_values(|p: String| p@).push(s@.subrange(start as int, i as int))
                    == split_slash(s@.take(i as int)),
            decreases n - i,
        {
            let ghost before = pieces@.map_values(|p: String| p@);
            let c = s.get_char(i);
            assert(s@.take(i + 1).drop_last() =~= s@.take(i as int));
            assert(s@.take(i + 1).last() == c);
            if c == '/' {
                let piece = s.substring_char(start, i).to_owned();
                pieces.push(piece);
                assert(pieces@.map_values(|p: String| p@) =~= before.push(
                    s@.subrange(start as int, i as int),
                ));
                start = i + 1;
                assert(s@.subrange(start as int, start as int) =~= Seq::<char>::empty());
            } else {
                assert(s@.subrange(start as int, i + 1) =~= s@.subrange(
                    start as int,
                    i as int,
                ).push(c));
                assert(before.push(s@.subrange(start as int, i + 1)) =~= before.push(
                    s@.subrange(start as int, i as int),
                ).update(before.len() as int, s@.subrange(start as int, i as int).push(c)));
            }
            i += 1;
        }
        assert(s@.take(n as int) =~= s@);
        let last = s.substring_char(start, n).to_owned();
        pieces.push(last);
        let ghost p = split_slash(s@);
        assert(pieces@.map_values(|q: String| q@) == p);
        if pieces.len() < 2 || pieces.len() > 4 {
            return Err(Error::DecodeError);
        }
        let release = if pieces.len() == 4 {
            pieces.pop()
        } else {
            None
        };
        let version = if pieces.len() == 3 {
            pieces.pop()
        } else {
            None
        };
        let name = pieces.pop().unwrap();
        let origin = pieces.pop().unwrap();
        assert(origin@ == p[0]);
        assert(name@ == p[1]);
        let id = PackageIdent { origin, name, version, release };
        proof {
            lemma_join_split(s@);
            let d1 = p.drop_last();
            if p.len() == 2 {
                assert(d1.len() == 1);
                assert(join_pieces(d1) == p[0]);
                assert(id@.coordinate() == join_pieces(p));
            } else if p.len() == 3 {
                let d2 = d1.drop_last();
                assert(d2.len() == 1);
                assert(join_pieces(d2) == p[0]);
                assert(d1.last() == p[1]);
                assert(join_pieces(d1) == slash_join(join_pieces(d2), d1.last()));
                assert(id@.version == Some(p[2]));
                assert(id@.coordinate() == join_pieces(p));
            } else {
                let d2 = d1.drop_last();
                let d3 = d2.drop_last();
                assert(d3.len() == 1);
                assert(join_pieces(d3) == p[0]);
                assert(d2.last() == p[1]);
                assert(d1.last() == p[2]);
                assert(join_pieces(d2) == slash_join(join_pieces(d3), d2.last()));
                assert(join_pieces(d1) == slash_join(join_pieces(d2), d1.last()));
                assert(id@.version == Some(p[2]));
                assert(id@.release == Some(p[3]));
                assert(id@.coordinate() == join_pieces(p));
            }
        }
        Ok(id)
    }

    /// A copy of this identifier.
    pub fn copy(&self) -> (r: PackageIdent)
        ensures
            r@ == self@,
    {
        PackageIdent {
            origin: self.origin.clone(),
            name: self.name.clone(),
            version: opt_clone(&self.version),
            release: opt_clone(&self.release),
        }
    }

    /// The full coordinate, `origin/name[/version[/release]]`.
    pub fn to_string(&self) -> (r: String)
        ensures
            r@ == self@.coordinate(),
    {
        let mut s = self.origin.clone();
        join_slash(&mut s, self.name.as_str());
        match &self.version {
            None => {},
            Some(v) => {
                join_slash(&mut s, v.as_str());
                match &self.release {
                    None => {},
                    Some(r) => {
                        join_slash(&mut s, r.as_str());
                    },
                }
            },
        }
        s
    }

    /// The key of the index of all packages of this origin.
    pub fn origin_idx(&self) -> (r: String)
        ensures
            r@ == self@.origin_idx(),
    {
        self.origin.clone()
    }

    /// The key of the index of all versions of this package.
    pub fn name_idx(&self) -> (r: String)
        ensures
            r@ == self@.name_idx(),
    {
        let mut s = self.origin.clone();
        join_slash(&mut s, self.name.as_str());
        s
    }

    /// The key of the index of all releases of this version; none when the
    /// identifier has no version.
    pub fn version_idx(&self) -> (r: Option<String>)
        ensures
            opt_view(r) == self@.version_idx(),
    {
        match &self.version {
            None => None,
            Some(v) => {
                let mut s = self.name_idx();
                join_slash(&mut s, v.as_str());
                Some(s)
            },
        }
    }
}

/// `s` reads as a coordinate.
pub open spec fn parses(s: Seq<char>) -> bool {
    2 <= split_slash(s).len() <= 4
}

pub open spec fn coords_of(v: Seq<PackageIdent>) -> Seq<Seq<char>> {
    v.map_values(|p: PackageIdent| p@.coordinate())
}

/// Reads every coordinate of `ids`; `DecodeError` if any does not read.
pub fn parse_all(ids: &Vec<String>) -> (r: Result<Vec<PackageIdent>, Error>)
    ensures
        r is Ok <==> forall|i: int| 0 <= i < ids@.len() ==> parses(#[trigger] ids@[i]@),
        r matches Err(e) ==> e == Error::DecodeError,
        r matches Ok(v) ==> coords_of(v@) == ids@.map_values(|s: String| s@),
{
    let mut out: Vec<PackageIdent> = Vec::new();
    let mut i: usize = 0;
    while i < ids.len()
        invariant
            i <= ids@.len(),
            out@.len() == i,
            forall|j: int| 0 <= j < i ==> parses(#[trigger] ids@[j]@),
            forall|j: int| 0 <= j < i ==> (#[trigger] out@[j])@.coordinate() == ids@[j]@,
        decreases ids@.len() - i,
    {
        match PackageIdent::from_str(ids[i].as_str()) {
            Ok(id) => out.push(id),
            Err(e) => {
                return Err(e);
            },
        }
        i += 1;
    }
    assert(coords_of(out@) =~= ids@.map_values(|s: String| s@));
    Ok(out)
}

} // verus!
