//! The package pool: an append-only, indexed store of package metadata
//! from every configured source.
//!
//! Pool ids are 1-based positions in the insertion order and double as
//! SAT variable numbers, so entries are never removed or reordered.  For
//! every package name the pool keeps the list of its ids, whose first
//! element always has the maximum version — the head invariant that
//! `add` maintains.

use crate::checksum::{Checksum, ChecksumModel};
use crate::version::{
    req_within, version_cmp, version_compare, PkgVersion, ReqModel, VersionModel,
    VersionRequirement,
};
use vstd::prelude::*;
use vstd::string::StringSliceAdditionalSpecFns;

verus! {

/// Model of a relationship list: (package name, version range) pairs.
pub open spec fn rel_view(s: Seq<(String, VersionRequirement)>) -> Seq<(Seq<char>, ReqModel)> {
    s.map(|_i: int, p: (String, VersionRequirement)| (p.0@, p.1@))
}

/// Where a package's payload comes from.
pub enum PkgSource {
    /// A remote artifact: URL, size in bytes, expected checksum.
    Http(String, u64, Checksum),
    /// A package file already on disk.
    Local(String),
}

/// Model of a package source.
pub enum SourceModel {
    Http(Seq<char>, nat, ChecksumModel),
    Local(Seq<char>),
}

impl View for PkgSource {
    type V = SourceModel;

    open spec fn view(&self) -> SourceModel {
        match self {
            PkgSource::Http(url, size, checksum) => SourceModel::Http(
                url@,
                *size as nat,
                checksum@,
            ),
            PkgSource::Local(path) => SourceModel::Local(path@),
        }
    }
}

impl Clone for PkgSource {
    fn clone(&self) -> (res: Self)
        ensures
            res@ == self@,
    {
        match self {
            PkgSource::Http(url, size, checksum) => PkgSource::Http(
                url.clone(),
                *size,
                checksum.clone(),
            ),
            PkgSource::Local(path) => PkgSource::Local(path.clone()),
        }
    }
}

/// One package's immutable metadata record.
pub struct PkgMeta {
    pub name: String,
    pub section: String,
    pub description: String,
    pub version: PkgVersion,
    pub depends: Vec<(String, VersionRequirement)>,
    pub breaks: Vec<(String, VersionRequirement)>,
    pub conflicts: Vec<(String, VersionRequirement)>,
    pub recommends: Option<Vec<(String, VersionRequirement)>>,
    pub suggests: Option<Vec<(String, VersionRequirement)>>,
    pub provides: Option<Vec<(String, VersionRequirement)>>,
    pub replaces: Option<Vec<(String, VersionRequirement)>>,
    pub install_size: u64,
    pub essential: bool,
    pub source: PkgSource,
}

/// Model of a package record.
pub struct PkgMetaModel {
    pub name: Seq<char>,
    pub section: Seq<char>,
    pub description: Seq<char>,
    pub version: VersionModel,
    pub depends: Seq<(Seq<char>, ReqModel)>,
    pub breaks: Seq<(Seq<char>, ReqModel)>,
    pub conflicts: Seq<(Seq<char>, ReqModel)>,
    pub recommends: Option<Seq<(Seq<char>, ReqModel)>>,
    pub suggests: Option<Seq<(Seq<char>, ReqModel)>>,
    pub provides: Option<Seq<(Seq<char>, ReqModel)>>,
    pub replaces: Option<Seq<(Seq<char>, ReqModel)>>,
    pub install_size: nat,
    pub essential: bool,
    pub source: SourceModel,
}

pub open spec fn opt_rel_view(o: Option<Vec<(String, VersionRequirement)>>) -> Option<
    Seq<(Seq<char>, ReqModel)>,
> {
    match o {
        Option::None => Option::None,
        Option::Some(v) => Option::Some(rel_view(v@)),
    }
}

impl View for PkgMeta {
    type V = PkgMetaModel;

    open spec fn view(&self) -> PkgMetaModel {
        PkgMetaModel {
            name: self.name@,
            section: self.section@,
            description: self.description@,
            version: self.version@,
            depends: rel_view(self.depends@),
            breaks: rel_view(self.breaks@),
            conflicts: rel_view(self.conflicts@),
            recommends: opt_rel_view(self.recommends),
            suggests: opt_rel_view(self.suggests),
            provides: opt_rel_view(self.provides),
            replaces: opt_rel_view(self.replaces),
            install_size: self.install_size as nat,
            essential: self.essential,
            source: self.source@,
        }
    }
}

/// Copy a relationship list, entry by entry.
pub fn clone_rel_list(v: &Vec<(String, VersionRequirement)>) -> (r: Vec<
    (String, VersionRequirement),
>)
    ensures
        rel_view(r@) == rel_view(v@),
{
    let mut out: Vec<(String, VersionRequirement)> = Vec::new();
    let mut i: usize = 0;
    while i < v.len()
        invariant
            0 <= i <= v@.len(),
            out@.len() == i,
            rel_view(out@) =~= rel_view(v@).take(i as int),
        decreases v@.len() - i,
    {
        let name = v[i].0.clone();
        let req = v[i].1.clone();
        let ghost prev = out@;
        out.push((name, req));
        proof {
            assert forall|k: int| 0 <= k < i + 1 implies rel_view(out@)[k] == rel_view(v@).take(
                i + 1,
            )[k] by {
                if k < i {
                    assert(out@[k] == prev[k]);
                    assert(rel_view(prev)[k] == rel_view(v@).take(i as int)[k]);
                } else {
                    assert(out@[k] == (name, req));
                }
            }
            assert(rel_view(out@) =~= rel_view(v@).take(i + 1));
        }
        i = i + 1;
    }
    proof {
        assert(rel_view(v@).take(v@.len() as int) =~= rel_view(v@));
    }
    out
}

fn clone_opt_rel_list(v: &Option<Vec<(String, VersionRequirement)>>) -> (r: Option<
    Vec<(String, VersionRequirement)>,
>)
    ensures
        opt_rel_view(r) == opt_rel_view(*v),
{
    match v {
        Option::None => Option::None,
        Option::Some(list) => Option::Some(clone_rel_list(list)),
    }
}

impl Clone for PkgMeta {
    fn clone(&self) -> (res: Self)
        ensures
            res@ == self@,
    {
        PkgMeta {
            name: self.name.clone(),
            section: self.section.clone(),
            description: self.description.clone(),
            version: self.version.clone(),
            depends: clone_rel_list(&self.depends),
            breaks: clone_rel_list(&self.breaks),
            conflicts: clone_rel_list(&self.conflicts),
            recommends: clone_opt_rel_list(&self.recommends),
            suggests: clone_opt_rel_list(&self.suggests),
            provides: clone_opt_rel_list(&self.provides),
            replaces: clone_opt_rel_list(&self.replaces),
            install_size: self.install_size,
            essential: self.essential,
            source: self.source.clone(),
        }
    }
}

/// Model of the pool: the records in insertion order.  Id `i` denotes
/// `pkgs[i - 1]`; ids double as SAT variable numbers.
pub struct PoolModel {
    pub pkgs: Seq<PkgMetaModel>,
}

/// An id is valid for the pool and names the given record.
pub open spec fn id_of(p: PoolModel, id: int) -> PkgMetaModel {
    p.pkgs[id - 1]
}

/// The id denotes a record of the pool.
pub open spec fn valid_id(p: PoolModel, id: int) -> bool {
    1 <= id <= p.pkgs.len()
}

/// Lookup of a pending `Request` failed.
#[derive(Clone, Copy, Debug, PartialEq, Eq, Structural)]
pub enum PoolError {
    NoSuchId,
}

/// The indexed package store.
pub struct PackagePool {
    pkgs: Vec<PkgMeta>,
    names: Vec<String>,
    idlists: Vec<Vec<usize>>,
}

impl View for PackagePool {
    type V = PoolModel;

    closed spec fn view(&self) -> PoolModel {
        PoolModel { pkgs: self.pkgs@.map(|_i: int, p: PkgMeta| p@) }
    }
}

impl PackagePool {
    /// Entry `k` of the name index is internally consistent: every id is
    /// a valid pool id bearing the entry's name, ids are distinct, and
    /// the head has the maximum version.
    closed spec fn entry_ok(&self, k: int) -> bool {
        let ids = self.idlists@[k]@;
        &&& ids.len() > 0
        &&& forall|m: int|
            0 <= m < ids.len() ==> 1 <= #[trigger] ids[m] && ids[m] <= self.pkgs@.len()
        &&& forall|m: int|
            0 <= m < ids.len() ==> self.pkgs@[#[trigger] ids[m] - 1].name@ == self.names@[k]@
        &&& forall|m1: int, m2: int|
            0 <= m1 < m2 < ids.len() ==> #[trigger] ids[m1] != #[trigger] ids[m2]
        &&& forall|m: int|
            0 <= m < ids.len() ==> version_cmp(
                self.pkgs@[ids[0] - 1].version@,
                self.pkgs@[#[trigger] ids[m] - 1].version@,
            ) >= 0
    }

    /// Record `i` is reachable through the index entry of its name.
    closed spec fn indexed(&self, i: int) -> bool {
        exists|k: int|
            0 <= k < self.names@.len() && self.names@[k]@ == self.pkgs@[i].name@
                && self.idlists@[k]@.contains((i + 1) as usize)
    }

    /// The pool's invariant: a well-formed two-way name index whose
    /// heads carry maximal versions.
    pub closed spec fn wf(&self) -> bool {
        &&& self.names@.len() == self.idlists@.len()
        &&& forall|k1: int, k2: int|
            0 <= k1 < k2 < self.names@.len() ==> #[trigger] self.names@[k1]@
                != #[trigger] self.names@[k2]@
        &&& forall|k: int| 0 <= k < self.idlists@.len() ==> self.entry_ok(k)
        &&& forall|i: int| 0 <= i < self.pkgs@.len() ==> self.indexed(i)
    }

    /// An empty pool.
    pub fn new() -> (r: PackagePool)
        ensures
            r.wf(),
            r@.pkgs.len() == 0,
    {
        PackagePool { pkgs: Vec::new(), names: Vec::new(), idlists: Vec::new() }
    }

    /// Number of records in the pool; ids run from 1 to this value.
    pub fn len(&self) -> (r: usize)
        ensures
            r == self@.pkgs.len(),
    {
        self.pkgs.len()
    }

    /// Append a record and index it, keeping the head of its name's id
    /// list at the maximum version; returns the new record's id.
    #[verifier::loop_isolation(false)]
    #[verifier::rlimit(100)]
    pub fn add(&mut self, meta: PkgMeta) -> (id: usize)
        requires
            old(self).wf(),
            old(self)@.pkgs.len() + 1 < usize::MAX,
        ensures
            final(self).wf(),
            final(self)@.pkgs == old(self)@.pkgs.push(meta@),
            id == old(self)@.pkgs.len() + 1,
    {
        let id = self.pkgs.len() + 1;
        // find the index entry for this name
        let n = self.names.len();
        let mut e: usize = 0;
        while e < n && !(self.names[e] == meta.name)
            invariant
                0 <= e <= n,
                forall|k: int| 0 <= k < e ==> self.names@[k]@ != meta.name@,
            decreases n - e,
        {
            e = e + 1;
        }
        let ghost old_pkgs = self.pkgs@;
        let ghost old_lists = self.idlists@;
        if e < n {
            // existing name: place the id, head first when it wins
            proof {
                assert(self.entry_ok(e as int));
                assert(1 <= self.idlists@[e as int]@[0] <= self.pkgs@.len());
            }
            let head_id = self.idlists[e][0];
            let newer = version_compare(&self.pkgs[head_id - 1].version, &meta.version) < 0;
            if newer {
                self.idlists[e].insert(0, id);
            } else {
                self.idlists[e].push(id);
            }
            self.pkgs.push(meta);
            proof {
                let ids_new = self.idlists@[e as int]@;
                let ids_old = old_lists[e as int]@;
                assert(self.pkgs@ == old_pkgs.push(meta));
                assert forall|k: int| 0 <= k < self.idlists@.len() implies self.entry_ok(k) by {
                    assert(old(self).entry_ok(k));
                    if k != e {
                        assert(self.idlists@[k] == old_lists[k]);
                        assert forall|m: int|
                            0 <= m < old_lists[k]@.len() implies self.pkgs@[#[trigger] old_lists[k]@[m]
                            - 1] == old_pkgs[old_lists[k]@[m] - 1] by {
                            assert(1 <= old_lists[k]@[m] <= old_pkgs.len());
                        }
                    } else {
                        if newer {
                            assert(ids_new == ids_old.insert(0, id as usize));
                            assert(ids_new[0] == id);
                            assert forall|m: int| 0 <= m < ids_new.len() implies 1 <= #[trigger] ids_new[m]
                                && ids_new[m] <= self.pkgs@.len() && self.pkgs@[ids_new[m]
                                - 1].name@ == self.names@[k]@ by {
                                if m > 0 {
                                    assert(ids_new[m] == ids_old[m - 1]);
                                    assert(1 <= ids_old[m - 1] <= old_pkgs.len());
                                }
                            }
                            assert forall|m: int|
                                0 <= m < ids_new.len() implies version_cmp(
                                self.pkgs@[ids_new[0] - 1].version@,
                                self.pkgs@[#[trigger] ids_new[m] - 1].version@,
                            ) >= 0 by {
                                crate::version::lemma_version_cmp_total(
                                    meta@.version,
                                    meta@.version,
                                );
                                if m > 0 {
                                    assert(ids_new[m] == ids_old[m - 1]);
                                    assert(1 <= ids_old[m - 1] <= old_pkgs.len());
                                    let hv = old_pkgs[ids_old[0] - 1].version@;
                                    let mv = old_pkgs[ids_old[m - 1] - 1].version@;
                                    assert(version_cmp(hv, mv) >= 0);
                                    crate::version::lemma_version_cmp_total(hv, meta@.version);
                                    crate::version::lemma_version_cmp_total(mv, hv);
                                    crate::version::lemma_version_cmp_total(mv, meta@.version);
                                    crate::version::lemma_version_cmp_trans(mv, hv, meta@.version);
                                }
                            }
                        } else {
                            assert(ids_new == ids_old.push(id as usize));
                            assert forall|m: int| 0 <= m < ids_new.len() implies 1 <= #[trigger] ids_new[m]
                                && ids_new[m] <= self.pkgs@.len() && self.pkgs@[ids_new[m]
                                - 1].name@ == self.names@[k]@ by {
                                if m < ids_old.len() {
                                    assert(ids_new[m] == ids_old[m]);
                                    assert(1 <= ids_old[m] <= old_pkgs.len());
                                }
                            }
                            assert forall|m: int|
                                0 <= m < ids_new.len() implies version_cmp(
                                self.pkgs@[ids_new[0] - 1].version@,
                                self.pkgs@[#[trigger] ids_new[m] - 1].version@,
                            ) >= 0 by {
                                assert(1 <= ids_old[0] <= old_pkgs.len());
                                if m == ids_old.len() {
                                    crate::version::lemma_version_cmp_total(
                                        old_pkgs[ids_old[0] - 1].version@,
                                        meta@.version,
                                    );
                                } else {
                                    assert(ids_new[m] == ids_old[m]);
                                    assert(1 <= ids_old[m] <= old_pkgs.len());
                                    assert(version_cmp(
                                        old_pkgs[ids_old[0] - 1].version@,
                                        old_pkgs[ids_old[m] - 1].version@,
                                    ) >= 0);
                                }
                            }
                        }
                    }
                }
                assert forall|i: int| 0 <= i < self.pkgs@.len() implies self.indexed(i) by {
                    if i < old_pkgs.len() {
                        assert(old(self).indexed(i));
                        let k = choose|k: int|
                            0 <= k < old(self).names@.len() && old(self).names@[k]@ == old(
                                self,
                            ).pkgs@[i].name@ && old(self).idlists@[k]@.contains((i + 1) as usize);
                        assert(0 <= k < self.names@.len());
                        assert(self.names@[k]@ == self.pkgs@[i].name@);
                        if k == e {
                            assert(ids_old.contains((i + 1) as usize));
                            let m = choose|m: int|
                                0 <= m < ids_old.len() && ids_old[m] == (i + 1) as usize;
                            if newer {
                                assert(ids_new == ids_old.insert(0, id as usize));
                                assert(ids_new[m + 1] == ids_old[m]);
                                assert(ids_new.contains((i + 1) as usize));
                            } else {
                                assert(ids_new == ids_old.push(id as usize));
                                assert(ids_new[m] == ids_old[m]);
                                assert(ids_new.contains((i + 1) as usize));
                            }
                            assert(self.idlists@[k]@.contains((i + 1) as usize));
                        } else {
                            assert(self.idlists@[k] == old_lists[k]);
                            assert(self.idlists@[k]@.contains((i + 1) as usize));
                        }
                        assert(self.indexed(i));
                    } else {
                        // the new record: its id is in entry e
                        if newer {
                            assert(ids_new == ids_old.insert(0, id as usize));
                            assert(ids_new[0] == id);
                        } else {
                            assert(ids_new == ids_old.push(id as usize));
                            assert(ids_new[ids_new.len() - 1] == id);
                        }
                        assert(ids_new.contains(id));
                        assert((i + 1) as usize == id);
                        assert(self.idlists@[e as int]@.contains((i + 1) as usize));
                        assert(self.names@[e as int]@ == self.pkgs@[i].name@);
                        assert(self.indexed(i));
                    }
                }
                assert(self@.pkgs =~= PoolModel { pkgs: old_pkgs.map(|_i: int, p: PkgMeta| p@) }.pkgs.push(
                    meta@,
                ));
            }
        } else {
            // new name: open an index entry holding just this id
            self.names.push(meta.name.clone());
            let mut fresh: Vec<usize> = Vec::new();
            fresh.push(id);
            self.idlists.push(fresh);
            self.pkgs.push(meta);
            proof {
                assert(self.pkgs@ == old_pkgs.push(meta));
                let last = self.names@.len() - 1;
                assert forall|k: int| 0 <= k < self.idlists@.len() implies self.entry_ok(k) by {
                    if k < last {
                        assert(old(self).entry_ok(k));
                        assert(self.idlists@[k] == old_lists[k]);
                        assert forall|m: int|
                            0 <= m < old_lists[k]@.len() implies self.pkgs@[#[trigger] old_lists[k]@[m]
                            - 1] == old_pkgs[old_lists[k]@[m] - 1] by {
                            assert(1 <= old_lists[k]@[m] <= old_pkgs.len());
                        }
                    } else {
                        assert(self.idlists@[k]@ =~= seq![id]);
                        crate::version::lemma_version_cmp_total(meta@.version, meta@.version);
                    }
                }
                assert forall|i: int| 0 <= i < self.pkgs@.len() implies self.indexed(i) by {
                    if i < old_pkgs.len() {
                        assert(old(self).indexed(i));
                        let k = choose|k: int|
                            0 <= k < old(self).names@.len() && old(self).names@[k]@ == old(
                                self,
                            ).pkgs@[i].name@ && old(self).idlists@[k]@.contains((i + 1) as usize);
                        assert(self.names@[k]@ == self.pkgs@[i].name@);
                        assert(self.idlists@[k]@.contains((i + 1) as usize));
                        assert(self.indexed(i));
                    } else {
                        assert(self.idlists@[last]@[0] == id);
                        assert(self.idlists@[last]@.contains(id));
                        assert((i + 1) as usize == id);
                        assert(self.idlists@[last]@.contains((i + 1) as usize));
                        assert(self.names@[last]@ == self.pkgs@[i].name@);
                        assert(self.indexed(i));
                    }
                }
                assert(self@.pkgs =~= PoolModel { pkgs: old_pkgs.map(|_i: int, p: PkgMeta| p@) }.pkgs.push(
                    meta@,
                ));
            }
        }
        id
    }

    /// All ids carrying `name`, each with its version.  The first entry,
    /// when any exists, has the maximum version (the pool head
    /// invariant); the list is complete for that name.
    #[verifier::loop_isolation(false)]
    pub fn pkg_name_to_ids(&self, name: &str) -> (r: Vec<(usize, PkgVersion)>)
        requires
            self.wf(),
        ensures
            forall|k: int|
                0 <= k < r@.len() ==> valid_id(self@, #[trigger] r@[k].0 as int) && id_of(
                    self@,
                    r@[k].0 as int,
                ).name == name@ && r@[k].1@ == id_of(self@, r@[k].0 as int).version,
            forall|i: int|
                0 <= i < self@.pkgs.len() && self@.pkgs[i].name == name@ ==> exists|k: int|
                    0 <= k < r@.len() && #[trigger] r@[k].0 == (i + 1) as usize,
            forall|k: int|
                0 <= k < r@.len() ==> version_cmp(r@[0].1@, #[trigger] r@[k].1@) >= 0,
            forall|k1: int, k2: int|
                0 <= k1 < k2 < r@.len() ==> #[trigger] r@[k1].0 != #[trigger] r@[k2].0,
    {
        let mut out: Vec<(usize, PkgVersion)> = Vec::new();
        let n = self.names.len();
        let mut e: usize = 0;
        while e < n && !crate::text::str_eq(self.names[e].as_str(), name)
            invariant
                0 <= e <= n,
                forall|k: int| 0 <= k < e ==> #[trigger] self.names@[k]@ != name@,
            decreases n - e,
        {
            e = e + 1;
        }
        if e == n {
            proof {
                assert forall|i: int|
                    0 <= i < self@.pkgs.len() && self@.pkgs[i].name == name@ implies exists|k: int|
                    0 <= k < out@.len() && #[trigger] out@[k].0 == (i + 1) as usize by {
                    assert(self.indexed(i));
                    let k = choose|k: int|
                        0 <= k < self.names@.len() && self.names@[k]@ == self.pkgs@[i].name@
                            && self.idlists@[k]@.contains((i + 1) as usize);
                    assert(self.names@[k]@ == name@);
                    assert(false);
                }
            }
            return out;
        }
        proof {
            assert(self.entry_ok(e as int));
        }
        let ids = &self.idlists[e];
        let m_end = ids.len();
        let mut m: usize = 0;
        while m < m_end
            invariant
                0 <= m <= m_end,
                out@.len() == m,
                forall|k: int| 0 <= k < m ==> #[trigger] out@[k].0 == self.idlists@[e as int]@[k],
                forall|k: int|
                    0 <= k < m ==> #[trigger] out@[k].1@ == self.pkgs@[self.idlists@[e as int]@[k]
                        - 1].version@,
            decreases m_end - m,
        {
            let id = ids[m];
            let ver = self.pkgs[id - 1].version.clone();
            out.push((id, ver));
            m = m + 1;
        }
        proof {
            assert forall|i: int|
                0 <= i < self@.pkgs.len() && self@.pkgs[i].name == name@ implies exists|k: int|
                0 <= k < out@.len() && #[trigger] out@[k].0 == (i + 1) as usize by {
                assert(self.indexed(i));
                let k = choose|k: int|
                    0 <= k < self.names@.len() && self.names@[k]@ == self.pkgs@[i].name@
                        && self.idlists@[k]@.contains((i + 1) as usize);
                assert(k == e);
                let j = choose|j: int|
                    0 <= j < self.idlists@[e as int]@.len() && self.idlists@[e as int]@[j] == (i
                        + 1) as usize;
                assert(out@[j].0 == (i + 1) as usize);
            }
        }
        out
    }

    /// Name and version of the record with the given id; ids run from 1
    /// to the pool's length, anything else is refused.
    pub fn id_to_pkg(&self, id: usize) -> (r: Result<(String, PkgVersion), PoolError>)
        ensures
            match r {
                Ok(p) => valid_id(self@, id as int) && p.0@ == id_of(self@, id as int).name
                    && p.1@ == id_of(self@, id as int).version,
                Err(_) => !valid_id(self@, id as int),
            },
    {
        if id == 0 || id > self.pkgs.len() {
            return Err(PoolError::NoSuchId);
        }
        let p = &self.pkgs[id - 1];
        Ok((p.name.clone(), p.version.clone()))
    }

    /// The full record with the given id.
    pub fn get_pkg_by_id(&self, id: usize) -> (r: Option<&PkgMeta>)
        ensures
            match r {
                Some(p) => valid_id(self@, id as int) && p@ == id_of(self@, id as int),
                None => !valid_id(self@, id as int),
            },
    {
        if id == 0 || id > self.pkgs.len() {
            return None;
        }
        Some(&self.pkgs[id - 1])
    }
}

/// A provide entry pins one exact version (its bounds are the same
/// inclusive version).
pub open spec fn pins_version(prov: ReqModel) -> Option<VersionModel> {
    match prov.lower {
        Option::Some((l, true)) => match prov.upper {
            Option::Some((u, true)) => if version_cmp(l, u) == 0 {
                Option::Some(l)
            } else {
                Option::None
            },
            _ => Option::None,
        },
        _ => Option::None,
    }
}

/// A provide with range `prov` satisfies a wanted range `want`: any
/// provide satisfies an unconstrained want, and a pinned provide
/// satisfies a want that its pinned version lies within.
pub open spec fn provide_compatible(prov: ReqModel, want: ReqModel) -> bool {
    ||| (want.lower is None && want.upper is None)
    ||| (match pins_version(prov) {
        Option::Some(v) => req_within(want, v),
        Option::None => false,
    })
}

fn exec_provide_compatible(prov: &VersionRequirement, want: &VersionRequirement) -> (r: bool)
    ensures
        r == provide_compatible(prov@, want@),
{
    if want.lower_bond.is_none() && want.upper_bond.is_none() {
        return true;
    }
    match (&prov.lower_bond, &prov.upper_bond) {
        (Option::Some((l, true)), Option::Some((u, true))) => {
            if version_compare(l, u) == 0 {
                want.within(l)
            } else {
                false
            }
        },
        _ => false,
    }
}

/// Some entry of the list offers `name` under a range compatible with `want`.
pub open spec fn list_has_provide(l: Seq<(Seq<char>, ReqModel)>, name: Seq<char>, want: ReqModel) -> bool {
    exists|k: int|
        0 <= k < l.len() && #[trigger] l[k].0 == name && provide_compatible(l[k].1, want)
}

/// Some entry of the list names `name` with `ver` inside its range.
pub open spec fn list_has_match(l: Seq<(Seq<char>, ReqModel)>, name: Seq<char>, ver: VersionModel) -> bool {
    exists|k: int| 0 <= k < l.len() && #[trigger] l[k].0 == name && req_within(l[k].1, ver)
}

/// The record offers `name` under a provide entry compatible with `want`.
pub open spec fn has_provide(m: PkgMetaModel, name: Seq<char>, want: ReqModel) -> bool {
    match m.provides {
        Option::Some(l) => list_has_provide(l, name, want),
        Option::None => false,
    }
}

/// The record replaces `name` at version `ver`.
pub open spec fn has_replace(m: PkgMetaModel, name: Seq<char>, ver: VersionModel) -> bool {
    match m.replaces {
        Option::Some(l) => list_has_match(l, name, ver),
        Option::None => false,
    }
}

#[verifier::loop_isolation(false)]
pub fn meta_has_provide(m: &PkgMeta, name: &str, want: &VersionRequirement) -> (r: bool)
    ensures
        r == has_provide(m@, name@, want@),
{
    match &m.provides {
        Option::Some(l) => {
            let mut k: usize = 0;
            let k_end = l.len();
            while k < k_end
                invariant
                    0 <= k <= k_end,
                    k_end == l@.len(),
                    forall|j: int|
                        0 <= j < k ==> !(#[trigger] rel_view(l@)[j].0 == name@
                            && provide_compatible(rel_view(l@)[j].1, want@)),
                decreases k_end - k,
            {
                proof {
                    assert(rel_view(l@)[k as int] == (l@[k as int].0@, l@[k as int].1@));
                }
                if crate::text::str_eq(l[k].0.as_str(), name) && exec_provide_compatible(
                    &l[k].1,
                    want,
                ) {
                    proof {
                        assert(rel_view(l@)[k as int].0 == name@);
                        assert(provide_compatible(rel_view(l@)[k as int].1, want@));
                        assert(list_has_provide(rel_view(l@), name@, want@));
                        assert(m@.provides == Option::Some(rel_view(l@)));
                    }
                    return true;
                }
                k = k + 1;
            }
            false
        },
        Option::None => false,
    }
}

#[verifier::loop_isolation(false)]
fn meta_has_replace(m: &PkgMeta, name: &str, ver: &PkgVersion) -> (r: bool)
    ensures
        r == has_replace(m@, name@, ver@),
{
    match &m.replaces {
        Option::Some(l) => {
            let mut k: usize = 0;
            let k_end = l.len();
            while k < k_end
                invariant
                    0 <= k <= k_end,
                    k_end == l@.len(),
                    forall|j: int|
                        0 <= j < k ==> !(#[trigger] rel_view(l@)[j].0 == name@ && req_within(
                            rel_view(l@)[j].1,
                            ver@,
                        )),
                decreases k_end - k,
            {
                proof {
                    assert(rel_view(l@)[k as int] == (l@[k as int].0@, l@[k as int].1@));
                }
                if crate::text::str_eq(l[k].0.as_str(), name) && l[k].1.within(ver) {
                    proof {
                        assert(rel_view(l@)[k as int].0 == name@);
                        assert(req_within(rel_view(l@)[k as int].1, ver@));
                        assert(list_has_match(rel_view(l@), name@, ver@));
                        assert(m@.replaces == Option::Some(rel_view(l@)));
                    }
                    return true;
                }
                k = k + 1;
            }
            false
        },
        Option::None => false,
    }
}

impl PackagePool {
    /// First id, in insertion order, whose record provides `name` under
    /// a range compatible with `req`.
    pub fn find_provide(&self, name: &str, req: &VersionRequirement) -> (r: Option<usize>)
        ensures
            match r {
                Some(id) => valid_id(self@, id as int) && has_provide(
                    id_of(self@, id as int),
                    name@,
                    req@,
                ) && forall|i: int| 0 <= i < id - 1 ==> !has_provide(self@.pkgs[i], name@, req@),
                None => forall|i: int|
                    0 <= i < self@.pkgs.len() ==> !has_provide(#[trigger] self@.pkgs[i], name@, req@),
            },
    {
        let n = self.pkgs.len();
        let mut i: usize = 0;
        while i < n
            invariant
                0 <= i <= n,
                n == self@.pkgs.len(),
                forall|j: int| 0 <= j < i ==> !has_provide(#[trigger] self@.pkgs[j], name@, req@),
            decreases n - i,
        {
            if meta_has_provide(&self.pkgs[i], name, req) {
                return Some(i + 1);
            }
            i = i + 1;
        }
        None
    }

    /// First id, in insertion order, whose record replaces `name` at
    /// version `ver`.
    pub fn find_replacement(&self, name: &str, ver: &PkgVersion) -> (r: Option<usize>)
        ensures
            match r {
                Some(id) => valid_id(self@, id as int) && has_replace(
                    id_of(self@, id as int),
                    name@,
                    ver@,
                ) && forall|i: int| 0 <= i < id - 1 ==> !has_replace(self@.pkgs[i], name@, ver@),
                None => forall|i: int|
                    0 <= i < self@.pkgs.len() ==> !has_replace(#[trigger] self@.pkgs[i], name@, ver@),
            },
    {
        let n = self.pkgs.len();
        let mut i: usize = 0;
        while i < n
            invariant
                0 <= i <= n,
                n == self@.pkgs.len(),
                forall|j: int| 0 <= j < i ==> !has_replace(#[trigger] self@.pkgs[j], name@, ver@),
            decreases n - i,
        {
            if meta_has_replace(&self.pkgs[i], name, ver) {
                return Some(i + 1);
            }
            i = i + 1;
        }
        None
    }

}

} // verus!
