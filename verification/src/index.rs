//! The version-indexed directory cache: scans a root for installed
//! versions, keeps a map from version to install path, and stores/restores
//! that map through the snapshot format, falling back to a fresh scan on
//! any load failure.

use crate::codec::decode_index_spec;
use crate::codec::encode_index_spec;
use crate::codec::enc_entries;
use crate::codec::enc_entry;
use crate::codec::enc_fixed;
use crate::codec::enc_str;
use crate::codec::lemma_decode_encode;
use crate::codec::push_enc_fixed;
use crate::codec::push_enc_str;
use crate::codec::push_enc_version;
use crate::codec::read_string;
use crate::codec::read_u64;
use crate::codec::read_version;
use crate::codec::dec_entries_spec;
use crate::codec::dec_str_spec;
use crate::codec::dec_u64_spec;
use crate::error::{Error, Kind};
use crate::text::append_chars;
use crate::text::chars_to_string;
use crate::text::dec_digits;
use crate::text::str_to_chars;
use crate::text::u64_dec_chars;
use crate::version::render;
use crate::version::version_of_dir_name;
use crate::version::Version;
use vstd::pervasive::VecAdditionalExecFns;
use vstd::prelude::*;

verus! {

/// One directory entry handed to a scan: the entry's bare name, its full
/// path, and whether it is a directory. The embedding program lists the
/// root and passes the entries it could read.
#[derive(Debug)]
pub struct DirEntry {
    /// The entry's file name, without any parent path.
    pub name: String,
    /// The entry's full path.
    pub path: String,
    /// Whether the entry is a directory.
    pub is_dir: bool,
}

/// The version/path pairs a vector of entries denotes.
pub open spec fn pairs_view(es: Seq<(Version, String)>) -> Seq<(Version, Seq<char>)> {
    es.map_values(|p: (Version, String)| (p.0, p.1@))
}

/// The map an entry list denotes, later entries overriding earlier ones.
pub open spec fn entries_map(es: Seq<(Version, Seq<char>)>) -> Map<Version, Seq<char>>
    decreases es.len(),
{
    if es.len() == 0 {
        Map::<Version, Seq<char>>::empty()
    } else {
        entries_map(es.drop_last()).insert(es.last().0, es.last().1)
    }
}

/// No version occurs twice in the entry list.
pub open spec fn unique_keys(es: Seq<(Version, Seq<char>)>) -> bool {
    forall|i: int, j: int|
        0 <= i < j < es.len() ==> (#[trigger] es[i]).0 != (#[trigger] es[j]).0
}

/// A key is in the map exactly when some entry carries it.
pub proof fn lemma_entries_map_contains(es: Seq<(Version, Seq<char>)>, k: Version)
    ensures
        entries_map(es).contains_key(k) <==> exists|i: int|
            0 <= i < es.len() && (#[trigger] es[i]).0 == k,
    decreases es.len(),
{
    if es.len() > 0 {
        lemma_entries_map_contains(es.drop_last(), k);
        assert(forall|i: int|
            0 <= i < es.len() - 1 ==> #[trigger] es.drop_last()[i] == es[i]);
        if entries_map(es).contains_key(k) {
            if k == es.last().0 {
                assert(es[es.len() - 1].0 == k);
            }
        }
        if exists|i: int| 0 <= i < es.len() && (#[trigger] es[i]).0 == k {
            let i = choose|i: int| 0 <= i < es.len() && (#[trigger] es[i]).0 == k;
            if i < es.len() - 1 {
                assert(es.drop_last()[i].0 == k);
            }
        }
    }
}

/// The map is finite.
pub proof fn lemma_entries_map_finite(es: Seq<(Version, Seq<char>)>)
    ensures
        entries_map(es).dom().finite(),
    decreases es.len(),
{
    if es.len() > 0 {
        lemma_entries_map_finite(es.drop_last());
    }
}

/// Under unique keys, each entry is in the map with its own path.
pub proof fn lemma_entries_map_index(es: Seq<(Version, Seq<char>)>, i: int)
    requires
        unique_keys(es),
        0 <= i < es.len(),
    ensures
        entries_map(es).contains_key(es[i].0),
        entries_map(es)[es[i].0] == es[i].1,
    decreases es.len(),
{
    if i == es.len() - 1 {
    } else {
        assert(forall|t: int|
            0 <= t < es.len() - 1 ==> #[trigger] es.drop_last()[t] == es[t]);
        assert(unique_keys(es.drop_last()));
        lemma_entries_map_index(es.drop_last(), i);
        assert(es[i].0 != es.last().0);
    }
}

/// Under unique keys, the map is exactly as large as the entry list.
pub proof fn lemma_entries_map_len(es: Seq<(Version, Seq<char>)>)
    requires
        unique_keys(es),
    ensures
        entries_map(es).dom().finite(),
        entries_map(es).len() == es.len(),
    decreases es.len(),
{
    lemma_entries_map_finite(es);
    if es.len() > 0 {
        let pre = es.drop_last();
        assert(forall|t: int| 0 <= t < es.len() - 1 ==> #[trigger] pre[t] == es[t]);
        assert(unique_keys(pre));
        lemma_entries_map_len(pre);
        lemma_entries_map_contains(pre, es.last().0);
        assert(!entries_map(pre).contains_key(es.last().0)) by {
            if exists|i: int| 0 <= i < pre.len() && (#[trigger] pre[i]).0 == es.last().0 {
                let i = choose|i: int|
                    0 <= i < pre.len() && (#[trigger] pre[i]).0 == es.last().0;
                assert(es[i].0 == es[es.len() - 1].0);
            }
        }
    }
}

/// Under unique keys, replacing an entry's path in place is inserting over
/// its key.
pub proof fn lemma_entries_map_update(es: Seq<(Version, Seq<char>)>, i: int, v: Seq<char>)
    requires
        unique_keys(es),
        0 <= i < es.len(),
    ensures
        entries_map(es.update(i, (es[i].0, v))) == entries_map(es).insert(es[i].0, v),
    decreases es.len(),
{
    let k = es[i].0;
    let up = es.update(i, (k, v));
    if i == es.len() - 1 {
        assert(up.drop_last() =~= es.drop_last());
        assert(up.last() == (k, v));
        assert(entries_map(up) == entries_map(es.drop_last()).insert(k, v));
        assert(entries_map(es.drop_last()).insert(k, es.last().1).insert(k, v)
            =~= entries_map(es.drop_last()).insert(k, v));
    } else {
        let pre = es.drop_last();
        assert(forall|t: int| 0 <= t < es.len() - 1 ==> #[trigger] pre[t] == es[t]);
        assert(unique_keys(pre));
        lemma_entries_map_update(pre, i, v);
        assert(up.drop_last() =~= pre.update(i, (k, v)));
        assert(up.last() == es.last());
        assert(k != es.last().0);
        assert(entries_map(pre).insert(k, v).insert(es.last().0, es.last().1) =~= entries_map(
            pre,
        ).insert(es.last().0, es.last().1).insert(k, v).insert(es.last().0, es.last().1));
        assert(entries_map(pre).insert(es.last().0, es.last().1).insert(k, v).insert(
            es.last().0,
            es.last().1,
        ) =~= entries_map(es).insert(k, v)) by {
            assert(entries_map(es) == entries_map(pre).insert(es.last().0, es.last().1));
        }
    }
}

/// What one scanned entry does to the map: a directory's name is converted
/// to a version and inserted with the entry's path; anything else is
/// ignored.
pub open spec fn scan_step(m: Map<Version, Seq<char>>, e: DirEntry) -> Map<Version, Seq<char>> {
    if e.is_dir {
        m.insert(version_of_dir_name(e.name@), e.path@)
    } else {
        m
    }
}

/// What scanning a whole listing does to the map, first entry first: later
/// entries override earlier ones on the same version.
pub open spec fn scan_map(m0: Map<Version, Seq<char>>, es: Seq<DirEntry>) -> Map<
    Version,
    Seq<char>,
>
    decreases es.len(),
{
    if es.len() == 0 {
        m0
    } else {
        scan_map(scan_step(m0, es[0]), es.drop_first())
    }
}

proof fn lemma_scan_map_push(m0: Map<Version, Seq<char>>, es: Seq<DirEntry>, e: DirEntry)
    ensures
        scan_map(m0, es.push(e)) == scan_step(scan_map(m0, es), e),
    decreases es.len(),
{
    if es.len() == 0 {
        assert(es.push(e)[0] == e);
        assert(es.push(e).drop_first() =~= Seq::<DirEntry>::empty());
        assert(scan_map(scan_step(m0, e), Seq::<DirEntry>::empty()) == scan_step(m0, e));
        assert(scan_map(m0, es.push(e)) == scan_map(
            scan_step(m0, es.push(e)[0]),
            es.push(e).drop_first(),
        ));
    } else {
        assert(es.push(e)[0] == es[0]);
        assert(es.push(e).drop_first() =~= es.drop_first().push(e));
        lemma_scan_map_push(scan_step(m0, es[0]), es.drop_first(), e);
        assert(scan_map(m0, es.push(e)) == scan_map(
            scan_step(m0, es[0]),
            es.drop_first().push(e),
        ));
        assert(scan_map(m0, es) == scan_map(scan_step(m0, es[0]), es.drop_first()));
    }
}

/// Checks on a line of its own that the entry list a snapshot decodes to
/// reads back to the snapshot: storing and loading restores the same inner
/// map whenever the root, the entry count and every path fit the format's
/// length fields.
pub proof fn lemma_cache_roundtrip(idx: Index)
    requires
        idx.wf(),
        idx.dir_spec().len() < 0x10000000000000000,
        idx.entries_spec().len() < 0x10000000000000000,
        forall|i: int|
            0 <= i < idx.entries_spec().len() ==> (#[trigger] idx.entries_spec()[i]).1.len()
                < 0x10000000000000000,
    ensures
        decode_index_spec(encode_index_spec(idx.dir_spec(), idx.entries_spec())) == Some(
            (idx.dir_spec(), idx.entries_spec()),
        ),
        entries_map(idx.entries_spec()) == idx.inner_spec(),
{
    lemma_decode_encode(idx.dir_spec(), idx.entries_spec());
}

/// The version-indexed cache of installed compatibility tools: the scanned
/// root and a map from version to install path, kept as an entry list with
/// unique keys.
#[derive(Debug)]
pub struct Index {
    dir: String,
    entries: Vec<(Version, String)>,
}

impl Index {
    /// The scanned root.
    pub closed spec fn dir_spec(&self) -> Seq<char> {
        self.dir@
    }

    /// The version/path entries, in insertion order.
    pub closed spec fn entries_spec(&self) -> Seq<(Version, Seq<char>)> {
        pairs_view(self.entries@)
    }

    /// The map from version to install path.
    pub open spec fn inner_spec(&self) -> Map<Version, Seq<char>> {
        entries_map(self.entries_spec())
    }

    /// Validity: no version occurs twice in the entry list.
    pub open spec fn wf(&self) -> bool {
        unique_keys(self.entries_spec())
    }

    /// An empty index over the given root. Loading or scanning fills it.
    pub fn new(dir: &str) -> (idx: Index)
        ensures
            idx.wf(),
            idx.dir_spec() == dir@,
            idx.entries_spec() == Seq::<(Version, Seq<char>)>::empty(),
            idx.inner_spec() == Map::<Version, Seq<char>>::empty(),
    {
        let idx = Index { dir: dir.to_owned(), entries: Vec::new() };
        proof {
            assert(pairs_view(idx.entries@) =~= Seq::<(Version, Seq<char>)>::empty());
        }
        idx
    }

    /// How many versions are indexed.
    pub fn len(&self) -> (n: usize)
        requires
            self.wf(),
        ensures
            n == self.inner_spec().len(),
    {
        proof {
            lemma_entries_map_len(self.entries_spec());
        }
        self.entries.len()
    }

    /// Whether no version is indexed.
    pub fn is_empty(&self) -> (b: bool)
        requires
            self.wf(),
        ensures
            b == (self.inner_spec().len() == 0),
    {
        self.len() == 0
    }

    /// Looks the requested version up: exactly the indexed path when the
    /// version is indexed, nothing otherwise.
    pub fn get(&self, version: &Version) -> (r: Option<String>)
        requires
            self.wf(),
        ensures
            match r {
                Some(p) => self.inner_spec().contains_key(*version) && p@
                    == self.inner_spec()[*version],
                None => !self.inner_spec().contains_key(*version),
            },
    {
        let mut i: usize = 0;
        while i < self.entries.len()
            invariant
                self.wf(),
                i <= self.entries@.len(),
                forall|j: int|
                    0 <= j < i ==> (#[trigger] self.entries_spec()[j]).0 != *version,
            decreases self.entries@.len() - i,
        {
            if self.entries[i].0 == *version {
                proof {
                    lemma_entries_map_index(self.entries_spec(), i as int);
                    assert(self.entries_spec()[i as int] == (
                        self.entries@[i as int].0,
                        self.entries@[i as int].1@,
                    ));
                }
                return Some(self.entries[i].1.clone());
            }
            proof {
                assert(self.entries_spec()[i as int].0 == self.entries@[i as int].0);
            }
            i = i + 1;
        }
        proof {
            lemma_entries_map_contains(self.entries_spec(), *version);
            if self.inner_spec().contains_key(*version) {
                let j = choose|j: int|
                    0 <= j < self.entries_spec().len() && (#[trigger] self.entries_spec()[j]).0
                        == *version;
                assert(false);
            }
        }
        None
    }

    /// Inserts a version with its path, replacing the path of an already
    /// indexed version in place: the last writer wins.
    pub(crate) fn insert_entry(&mut self, version: Version, path: String)
        requires
            old(self).wf(),
        ensures
            final(self).wf(),
            final(self).dir_spec() == old(self).dir_spec(),
            final(self).entries_spec().len() <= old(self).entries_spec().len() + 1,
            final(self).inner_spec() == old(self).inner_spec().insert(version, path@),
    {
        let ghost pre = self.entries_spec();
        let mut i: usize = 0;
        while i < self.entries.len()
            invariant
                *self == *old(self),
                pre == self.entries_spec(),
                unique_keys(pre),
                i <= self.entries@.len(),
                forall|j: int| 0 <= j < i ==> (#[trigger] pre[j]).0 != version,
            decreases self.entries@.len() - i,
        {
            if self.entries[i].0 == version {
                let ghost pv = path@;
                self.entries.set(i, (version, path));
                proof {
                    assert(pre[i as int].0 == version);
                    assert(pairs_view(self.entries@) =~= pre.update(i as int, (version, pv)));
                    lemma_entries_map_update(pre, i as int, pv);
                    let now = pairs_view(self.entries@);
                    assert(forall|t: int|
                        0 <= t < pre.len() ==> (#[trigger] now[t]).0 == pre[t].0);
                }
                return ;
            }
            proof {
                assert(pre[i as int].0 == self.entries@[i as int].0);
            }
            i = i + 1;
        }
        let ghost pv = path@;
        self.entries.push((version, path));
        proof {
            assert(pairs_view(self.entries@) =~= pre.push((version, pv)));
            let now = pairs_view(self.entries@);
            assert(now.drop_last() =~= pre);
            assert(entries_map(now) == entries_map(pre).insert(version, pv));
            assert forall|a: int, b: int| 0 <= a < b < now.len() implies (#[trigger] now[a]).0
                != (#[trigger] now[b]).0 by {
                if b < now.len() - 1 {
                    assert(pre[a].0 != pre[b].0);
                } else {
                    assert(now[a] == pre[a]);
                    assert(now[b].0 == version);
                }
            }
        }
    }

    /// Scans a directory listing into the index: every subdirectory is
    /// recorded under the version its name denotes (unparseable names
    /// under `Custom`), later entries overriding earlier ones; plain files
    /// are ignored. A listing that could not be read at all is the one
    /// hard error, `IndexReadDir`.
    pub fn index(&mut self, listing: Option<&Vec<DirEntry>>) -> (r: Result<(), Error>)
        requires
            old(self).wf(),
        ensures
            final(self).wf(),
            final(self).dir_spec() == old(self).dir_spec(),
            match listing {
                Some(es) => r is Ok && final(self).inner_spec() == scan_map(
                    old(self).inner_spec(),
                    es@,
                ),
                None => {
                    &&& r matches Err(e) && e.kind == Kind::IndexReadDir
                    &&& *final(self) == *old(self)
                },
            },
    {
        match listing {
            None => Err(Error::new(Kind::IndexReadDir, "can not read common dir".to_owned())),
            Some(es) => {
                let ghost m0 = self.inner_spec();
                let mut i: usize = 0;
                proof {
                    assert(es@.take(0) =~= Seq::<DirEntry>::empty());
                }
                while i < es.len()
                    invariant
                        self.wf(),
                        i <= es@.len(),
                        self.dir_spec() == old(self).dir_spec(),
                        m0 == old(self).inner_spec(),
                        self.inner_spec() == scan_map(m0, es@.take(i as int)),
                    decreases es@.len() - i,
                {
                    let ghost before = self.inner_spec();
                    let e = &es[i];
                    if e.is_dir {
                        let chars = str_to_chars(e.name.as_str());
                        let ver = Version::version_from_dir_chars(&chars);
                        self.insert_entry(ver, e.path.clone());
                    }
                    proof {
                        lemma_scan_map_push(m0, es@.take(i as int), es@[i as int]);
                        assert(es@.take(i + 1) =~= es@.take(i as int).push(es@[i as int]));
                        assert(self.inner_spec() == scan_step(before, es@[i as int]));
                    }
                    i = i + 1;
                }
                proof {
                    assert(es@.take(es@.len() as int) =~= es@);
                }
                Ok(())
            },
        }
    }

    /// Restores the inner map from a snapshot's text: on a clean decode
    /// the snapshot's entries replace the map (the root stays the one this
    /// index was built over); anything malformed is rejected as
    /// `IndexCache` with the index unchanged.
    pub fn read_index(&mut self, text: &str) -> (r: Result<(), Error>)
        requires
            old(self).wf(),
        ensures
            final(self).wf(),
            final(self).dir_spec() == old(self).dir_spec(),
            match decode_index_spec(text@) {
                Some(pair) => r is Ok && final(self).inner_spec() == entries_map(pair.1),
                None => {
                    &&& r matches Err(e) && e.kind == Kind::IndexCache
                    &&& *final(self) == *old(self)
                },
            },
    {
        let v = str_to_chars(text);
        proof {
            assert(v@.skip(0) =~= v@);
        }
        let first = read_string(&v, 0);
        if first.is_none() {
            return Err(Error::new(Kind::IndexCache, "can't deserialize".to_owned()));
        }
        let (_, p1) = first.unwrap();
        let second = read_u64(&v, p1);
        if second.is_none() {
            return Err(Error::new(Kind::IndexCache, "can't deserialize".to_owned()));
        }
        let (count, p2) = second.unwrap();
        let ghost suffix0 = v@.skip(p2 as int);
        // A scratch index: its insert discipline keeps the decoded entries
        // free of duplicate versions, the last occurrence winning.
        let mut decoded = Index { dir: String::new(), entries: Vec::new() };
        let mut prefix_snap = Ghost(Seq::<(Version, Seq<char>)>::empty());
        let mut pos: usize = p2;
        let mut i: u64 = 0;
        proof {
            assert(pairs_view(decoded.entries@) =~= Seq::<(Version, Seq<char>)>::empty());
            if dec_entries_spec(suffix0, count as nat) is Some {
                let p = dec_entries_spec(suffix0, count as nat)->Some_0;
                assert(prefix_snap@ + p.0 =~= p.0);
            }
        }
        while i < count
            invariant
                i <= count,
                pos <= v@.len(),
                *self == *old(self),
                old(self).wf(),
                text@ == v@,
                dec_str_spec(text@) matches Some(d1) && dec_u64_spec(d1.1) == Some(
                    (count, suffix0),
                ),
                suffix0 == v@.skip(p2 as int),
                decoded.wf(),
                entries_map(prefix_snap@) == decoded.inner_spec(),
                match dec_entries_spec(v@.skip(pos as int), (count - i) as nat) {
                    Some(p) => dec_entries_spec(suffix0, count as nat) == Some(
                        (prefix_snap@ + p.0, p.1),
                    ),
                    None => dec_entries_spec(suffix0, count as nat) is None,
                },
            decreases count - i,
        {
            let ghost here = v@.skip(pos as int);
            let rv = read_version(&v, pos);
            if rv.is_none() {
                assert(dec_entries_spec(here, (count - i) as nat) is None);
                return Err(Error::new(Kind::IndexCache, "can't deserialize".to_owned()));
            }
            let (ver, q1) = rv.unwrap();
            let rs = read_string(&v, q1);
            if rs.is_none() {
                assert(dec_entries_spec(here, (count - i) as nat) is None);
                return Err(Error::new(Kind::IndexCache, "can't deserialize".to_owned()));
            }
            let (path, q2) = rs.unwrap();
            let ghost path_view = path@;
            decoded.insert_entry(ver, path);
            proof {
                let stepped = dec_entries_spec(v@.skip(q2 as int), (count - i - 1) as nat);
                assert(dec_entries_spec(here, (count - i) as nat) == (match stepped {
                    Some(p) => Some::<(Seq<(Version, Seq<char>)>, Seq<char>)>(
                        (seq![(ver, path_view)] + p.0, p.1),
                    ),
                    None => None::<(Seq<(Version, Seq<char>)>, Seq<char>)>,
                }));
                if stepped is Some {
                    let p = stepped->Some_0;
                    assert(prefix_snap@ + (seq![(ver, path_view)] + p.0) =~= (prefix_snap@.push(
                        (ver, path_view),
                    )) + p.0);
                }
                assert(entries_map(prefix_snap@.push((ver, path_view))) == entries_map(
                    prefix_snap@,
                ).insert(ver, path_view)) by {
                    assert(prefix_snap@.push((ver, path_view)).drop_last() =~= prefix_snap@);
                }
                prefix_snap@ = prefix_snap@.push((ver, path_view));
            }
            pos = q2;
            i = i + 1;
        }
        proof {
            assert(dec_entries_spec(v@.skip(pos as int), 0) == Some(
                (Seq::<(Version, Seq<char>)>::empty(), v@.skip(pos as int)),
            ));
            assert(prefix_snap@ + Seq::<(Version, Seq<char>)>::empty() =~= prefix_snap@);
        }
        if pos != v.len() {
            assert(v@.skip(pos as int).len() != 0);
            return Err(Error::new(Kind::IndexCache, "can't deserialize".to_owned()));
        }
        assert(v@.skip(pos as int).len() == 0);
        proof {
            assert(dec_entries_spec(suffix0, count as nat) matches Some(p) && p.1.len() == 0);
        }
        self.entries = decoded.entries;
        Ok(())
    }

    /// Runs the fail-open load pipeline: a snapshot that decodes replaces
    /// the inner map and nothing else happens (the result is `false`: no
    /// re-scan); on a missing or malformed snapshot the listing is scanned
    /// instead (the result is `true`: the caller should persist the fresh
    /// snapshot), and only an unreadable listing is an error.
    pub fn load(&mut self, cache: Option<&str>, listing: Option<&Vec<DirEntry>>) -> (r: Result<
        bool,
        Error,
    >)
        requires
            old(self).wf(),
        ensures
            final(self).wf(),
            final(self).dir_spec() == old(self).dir_spec(),
            match cache {
                Some(t) => match decode_index_spec(t@) {
                    Some(pair) => r == Ok::<bool, Error>(false) && final(self).inner_spec()
                        == entries_map(pair.1),
                    None => after_rescan(*old(self), *final(self), listing, r),
                },
                None => after_rescan(*old(self), *final(self), listing, r),
            },
    {
        match cache {
            Some(t) => {
                match self.read_index(t) {
                    Ok(()) => Ok(false),
                    Err(_) => {
                        match self.index(listing) {
                            Ok(()) => Ok(true),
                            Err(e) => Err(e),
                        }
                    },
                }
            },
            None => {
                match self.index(listing) {
                    Ok(()) => Ok(true),
                    Err(e) => Err(e),
                }
            },
        }
    }

    /// Renders the snapshot to store: exactly the encoding of this index's
    /// root and entries.
    pub fn to_cache(&self) -> (s: String)
        ensures
            s@ == encode_index_spec(self.dir_spec(), self.entries_spec()),
    {
        let mut out: Vec<char> = Vec::new();
        push_enc_str(&mut out, self.dir.as_str());
        push_enc_fixed(&mut out, self.entries.len() as u64, 20);
        let ghost head = enc_str(self.dir_spec()) + enc_fixed(self.entries_spec().len(), 20);
        proof {
            assert((self.entries@.len() as u64) as nat == self.entries_spec().len());
            assert(out@ =~= head);
            assert(out@ + enc_entries(self.entries_spec().take(0)) =~= out@);
        }
        let mut i: usize = 0;
        while i < self.entries.len()
            invariant
                i <= self.entries@.len(),
                head == enc_str(self.dir_spec()) + enc_fixed(self.entries_spec().len(), 20),
                out@ == head + enc_entries(self.entries_spec().take(i as int)),
            decreases self.entries@.len() - i,
        {
            let ghost before = out@;
            let ghost e = self.entries_spec()[i as int];
            push_enc_version(&mut out, &self.entries[i].0);
            push_enc_str(&mut out, self.entries[i].1.as_str());
            proof {
                assert(e == (self.entries@[i as int].0, self.entries@[i as int].1@));
                assert(out@ =~= before + enc_entry(e));
                lemma_enc_entries_take_step(self.entries_spec(), i as int);
                assert(out@ =~= head + enc_entries(self.entries_spec().take(i + 1)));
            }
            i = i + 1;
        }
        proof {
            assert(self.entries_spec().take(self.entries_spec().len() as int)
                =~= self.entries_spec());
            assert(out@ =~= encode_index_spec(self.dir_spec(), self.entries_spec()));
        }
        chars_to_string(&out)
    }

    /// Where the snapshot lives: `<home>/.cache/proton/index`, from the
    /// home directory the embedding program resolves; no resolvable home
    /// directory is an `Environment` error.
    pub fn cache_location(home: Option<&str>) -> (r: Result<String, Error>)
        ensures
            match r {
                Ok(p) => home matches Some(h) && p@ == h@ + "/.cache/proton/index"@,
                Err(e) => home is None && e.kind == Kind::Environment,
            },
    {
        match home {
            Some(h) => {
                let mut p = h.to_owned();
                p.append("/.cache/proton/index");
                Ok(p)
            },
            None => Err(Error::new(Kind::Environment, "$HOME does not exist".to_owned())),
        }
    }

    /// Renders the index for diagnostics, exactly as [`display_spec`]
    /// describes: the root, the count, and one line per entry in insertion
    /// order.
    pub fn to_display(&self) -> (s: String)
        requires
            self.wf(),
        ensures
            s@ == display_spec(*self),
    {
        let mut out: Vec<char> = Vec::new();
        let piece0 = str_to_chars("Indexed Directory: ");
        append_chars(&mut out, &piece0);
        let dirs = str_to_chars(self.dir.as_str());
        append_chars(&mut out, &dirs);
        let piece1 = str_to_chars("\n\nIndexed ");
        append_chars(&mut out, &piece1);
        proof {
            lemma_entries_map_len(self.entries_spec());
        }
        let count = u64_dec_chars(self.entries.len() as u64);
        append_chars(&mut out, &count);
        let piece2 = str_to_chars(" Proton Versions:\n");
        append_chars(&mut out, &piece2);
        let ghost head = "Indexed Directory: "@ + self.dir_spec() + "\n\nIndexed "@ + dec_digits(
            self.inner_spec().len(),
        ) + " Proton Versions:\n"@;
        proof {
            assert((self.entries@.len() as u64) as nat == self.inner_spec().len());
            assert(out@ =~= head);
            assert(out@ + display_entries(self.entries_spec().take(0)) =~= out@);
        }
        let mut i: usize = 0;
        while i < self.entries.len()
            invariant
                self.wf(),
                i <= self.entries@.len(),
                head == "Indexed Directory: "@ + self.dir_spec() + "\n\nIndexed "@ + dec_digits(
                    self.inner_spec().len(),
                ) + " Proton Versions:\n"@,
                out@ == head + display_entries(self.entries_spec().take(i as int)),
            decreases self.entries@.len() - i,
        {
            let ghost before = out@;
            let ghost e = self.entries_spec()[i as int];
            let piece3 = str_to_chars("\nProton ");
            append_chars(&mut out, &piece3);
            let vs = self.entries[i].0.to_display();
            let vchars = str_to_chars(vs.as_str());
            append_chars(&mut out, &vchars);
            let piece4 = str_to_chars(": ");
            append_chars(&mut out, &piece4);
            let pchars = str_to_chars(self.entries[i].1.as_str());
            append_chars(&mut out, &pchars);
            proof {
                assert(e == (self.entries@[i as int].0, self.entries@[i as int].1@));
                assert(out@ =~= before + entry_line(e));
                assert(self.entries_spec().take(i + 1).drop_last() =~= self.entries_spec().take(
                    i as int,
                ));
                assert(out@ =~= head + display_entries(self.entries_spec().take(i + 1)));
            }
            i = i + 1;
        }
        proof {
            assert(self.entries_spec().take(self.entries_spec().len() as int)
                =~= self.entries_spec());
        }
        chars_to_string(&out)
    }
}

/// Scanning again on a failed load: a readable listing re-fills the map
/// and asks the caller to persist; an unreadable one is the hard error and
/// leaves the index as it was.
pub open spec fn after_rescan(
    pre: Index,
    post: Index,
    listing: Option<&Vec<DirEntry>>,
    r: Result<bool, Error>,
) -> bool {
    match listing {
        Some(es) => r == Ok::<bool, Error>(true) && post.inner_spec() == scan_map(
            pre.inner_spec(),
            es@,
        ),
        None => (r matches Err(e) && e.kind == Kind::IndexReadDir) && post == pre,
    }
}

/// One diagnostic line per entry.
pub open spec fn entry_line(e: (Version, Seq<char>)) -> Seq<char> {
    "\nProton "@ + render(e.0) + ": "@ + e.1
}

/// The diagnostic lines of all entries, in order.
pub open spec fn display_entries(es: Seq<(Version, Seq<char>)>) -> Seq<char>
    decreases es.len(),
{
    if es.len() == 0 {
        Seq::<char>::empty()
    } else {
        display_entries(es.drop_last()) + entry_line(es.last())
    }
}

/// How an index renders for diagnostics: the root, the count, and one line
/// per entry in insertion order.
pub open spec fn display_spec(idx: Index) -> Seq<char> {
    "Indexed Directory: "@ + idx.dir_spec() + "\n\nIndexed "@ + dec_digits(idx.inner_spec().len())
        + " Proton Versions:\n"@ + display_entries(idx.entries_spec())
}

proof fn lemma_enc_entries_take_step(es: Seq<(Version, Seq<char>)>, i: int)
    requires
        0 <= i < es.len(),
    ensures
        enc_entries(es.take(i + 1)) == enc_entries(es.take(i)) + enc_entry(es[i]),
{
    assert(es.take(i + 1) =~= es.take(i).push(es[i]));
    lemma_enc_entries_push(es.take(i), es[i]);
}

proof fn lemma_enc_entries_push(es: Seq<(Version, Seq<char>)>, e: (Version, Seq<char>))
    ensures
        enc_entries(es.push(e)) == enc_entries(es) + enc_entry(e),
    decreases es.len(),
{
    if es.len() == 0 {
        assert(es.push(e)[0] == e);
        assert(es.push(e).drop_first() =~= Seq::<(Version, Seq<char>)>::empty());
        assert(enc_entries(es.push(e)) == enc_entry(e) + enc_entries(
            Seq::<(Version, Seq<char>)>::empty(),
        ));
        assert(enc_entry(e) + Seq::<char>::empty() =~= enc_entry(e));
        assert(enc_entries(es) + enc_entry(e) =~= enc_entry(e));
    } else {
        assert(es.push(e)[0] == es[0]);
        assert(es.push(e).drop_first() =~= es.drop_first().push(e));
        lemma_enc_entries_push(es.drop_first(), e);
        assert(enc_entries(es.push(e)) == enc_entry(es[0]) + (enc_entries(es.drop_first())
            + enc_entry(e)));
        assert(enc_entry(es[0]) + (enc_entries(es.drop_first()) + enc_entry(e)) =~= (enc_entry(
            es[0],
        ) + enc_entries(es.drop_first())) + enc_entry(e));
    }
}

} // verus!
