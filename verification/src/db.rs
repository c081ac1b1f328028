//! The local metadata database: where each repository's catalog files
//! live under the database root, and which of them are present.  The
//! caller scans the disk once and hands the listing in; every lookup
//! below is then pure.

use crate::config::{mirror_ok, repo_view, MirrorModel, RepoConfig, RepoModel};
use vstd::prelude::*;
use vstd::string::StrSliceExecFns;
use vstd::string::StringExecFns;
use vstd::string::StringSliceAdditionalSpecFns;

verus! {

/// The relative path of one catalog file:
/// `repo/Kind_distribution_component_arch` plus a suffix.
pub open spec fn rel_path(
    repo: Seq<char>,
    kind: Seq<char>,
    dist: Seq<char>,
    comp: Seq<char>,
    arch: Seq<char>,
    suffix: Seq<char>,
) -> Seq<char> {
    repo + "/"@ + kind + "_"@ + dist + "_"@ + comp + "_"@ + arch + suffix
}

/// Build the relative path of one catalog file.
fn build_rel_path(
    repo: &str,
    kind: &str,
    dist: &str,
    comp: &str,
    arch: &str,
    suffix: &str,
) -> (r: String)
    ensures
        r@ == rel_path(repo@, kind@, dist@, comp@, arch@, suffix@),
{
    let mut s = String::new();
    s.append(repo);
    s.append("/");
    s.append(kind);
    s.append("_");
    s.append(dist);
    s.append("_");
    s.append(comp);
    s.append("_");
    s.append(arch);
    s.append(suffix);
    s
}

/// The absolute form under the database root.
pub open spec fn abs_path(root: Seq<char>, rel: Seq<char>) -> Seq<char> {
    root + "/"@ + rel
}

fn build_abs_path(root: &str, rel: &str) -> (r: String)
    ensures
        r@ == abs_path(root@, rel@),
{
    let mut s = String::new();
    s.append(root);
    s.append("/");
    s.append(rel);
    s
}

/// The list holds this path.
pub open spec fn path_present(present: Seq<Seq<char>>, p: Seq<char>) -> bool {
    exists|i: int| 0 <= i < present.len() && #[trigger] present[i] == p
}

/// The catalog entries of one repository, for one kind of catalog: for
/// each component, the architecture-specific file and the `all` file,
/// each listed (with the repository's URL) when present on disk.
pub open spec fn repo_db_files(
    root: Seq<char>,
    name: Seq<char>,
    url: Seq<char>,
    dist: Seq<char>,
    comps: Seq<Seq<char>>,
    arch: Seq<char>,
    kind: Seq<char>,
    suffix: Seq<char>,
    present: Seq<Seq<char>>,
) -> Seq<(Seq<char>, Seq<char>)>
    decreases comps.len(),
{
    if comps.len() == 0 {
        Seq::<(Seq<char>, Seq<char>)>::empty()
    } else {
        let with_arch = rel_path(name, kind, dist, comps[0], arch, suffix);
        let with_all = rel_path(name, kind, dist, comps[0], "all"@, suffix);
        let head: Seq<(Seq<char>, Seq<char>)> = (if path_present(present, with_arch) {
            seq![(url, abs_path(root, with_arch))]
        } else {
            Seq::<(Seq<char>, Seq<char>)>::empty()
        }) + (if path_present(present, with_all) {
            seq![(url, abs_path(root, with_all))]
        } else {
            Seq::<(Seq<char>, Seq<char>)>::empty()
        });
        head + repo_db_files(root, name, url, dist, comps.skip(1), arch, kind, suffix, present)
    }
}

/// First configured repository with this name.
pub open spec fn repo_lookup(repos: Seq<(Seq<char>, RepoModel)>, name: Seq<char>) -> Option<
    RepoModel,
>
    decreases repos.len(),
{
    if repos.len() == 0 {
        Option::<RepoModel>::None
    } else if repos[0].0 == name {
        Option::Some(repos[0].1)
    } else {
        repo_lookup(repos.skip(1), name)
    }
}

/// Database lookups fail when the repository is unknown, lacks a
/// mirror, or has no catalog file on disk.
#[derive(Clone, Copy, Debug, PartialEq, Eq, Structural)]
pub enum DbError {
    NoSuchRepo,
    NoMirror,
    NoCatalog,
}

/// The local database: roots, architecture, repositories, and the
/// relative paths present on disk (as the caller scanned them).
pub struct LocalDb {
    pub root: String,
    pub key_root: String,
    pub arch: String,
    pub repos: Vec<(String, RepoConfig)>,
    pub present: Vec<String>,
}

impl LocalDb {
    /// Assemble the database over a directory listing.
    pub fn new(
        root: String,
        key_root: String,
        repos: Vec<(String, RepoConfig)>,
        arch: String,
        present: Vec<String>,
    ) -> (r: LocalDb)
        ensures
            r.root@ == root@,
            r.key_root@ == key_root@,
            r.arch@ == arch@,
            repo_view(r.repos@) == repo_view(repos@),
            r.present@.map(|_i: int, s: String| s@) == present@.map(|_i: int, s: String| s@),
    {
        LocalDb { root, key_root, arch, repos, present }
    }

    /// The (URL, absolute path) pairs of one repository's catalog files
    /// of one kind; an error when the repository is unknown, has no
    /// mirror, or yields no file at all.
    #[verifier::loop_isolation(false)]
    fn get_db_kind(&self, name: &str, kind: &str, suffix: &str) -> (r: Result<
        Vec<(String, String)>,
        DbError,
    >)
        ensures
            db_kind_post(self, name@, kind@, suffix@, r),
    {
        // find the repository
        let n = self.repos.len();
        let mut k: usize = 0;
        while k < n
            invariant
                0 <= k <= n,
                forall|x: int| 0 <= x < k ==> #[trigger] repo_view(self.repos@)[x].0 != name@,
            decreases n - k,
        {
            if crate::text::str_eq(self.repos[k].0.as_str(), name) {
                break ;
            }
            k = k + 1;
        }
        if k == n {
            proof {
                lemma_repo_lookup_none(repo_view(self.repos@), name@);
            }
            return Err(DbError::NoSuchRepo);
        }
        let repo = &self.repos[k].1;
        proof {
            assert(repo_view(self.repos@)[k as int].0 == name@);
            lemma_repo_lookup_first(repo_view(self.repos@), name@, k as int);
        }
        let url = match repo.get_url() {
            Some(u) => u.clone(),
            None => {
                proof {
                    assert(db_kind_err(self, name@, kind@, suffix@) == Some(DbError::NoMirror));
                }
                return Err(DbError::NoMirror);
            },
        };
        proof {
            assert(mirror_ok(repo@.url)) by {
                match repo@.url {
                    MirrorModel::Single(_) => {},
                    MirrorModel::Multiple(ms) => {
                        assert(ms.len() > 0);
                    },
                }
            }
        }
        let mut files: Vec<(String, String)> = Vec::new();
        let cn = repo.components.len();
        let mut c: usize = 0;
        let ghost presents = self.present@.map(|_i: int, s: String| s@);
        proof {
            assert(repo@.components.skip(0) =~= repo@.components);
        }
        while c < cn
            invariant
                0 <= c <= cn,
                cn == repo.components@.len(),
                url@ == spec_first_url(repo@.url),
                repo_db_files(
                    self.root@,
                    name@,
                    url@,
                    repo@.distribution,
                    repo@.components,
                    self.arch@,
                    kind@,
                    suffix@,
                    presents,
                ) == files@.map(|_i: int, p: (String, String)| (p.0@, p.1@)) + repo_db_files(
                    self.root@,
                    name@,
                    url@,
                    repo@.distribution,
                    repo@.components.skip(c as int),
                    self.arch@,
                    kind@,
                    suffix@,
                    presents,
                ),
            decreases cn - c,
        {
            let comp = &repo.components[c];
            let ghost before = files@;
            let with_arch = build_rel_path(
                name,
                kind,
                repo.distribution.as_str(),
                comp.as_str(),
                self.arch.as_str(),
                suffix,
            );
            let with_all = build_rel_path(
                name,
                kind,
                repo.distribution.as_str(),
                comp.as_str(),
                "all",
                suffix,
            );
            proof {
                assert(repo@.components.skip(c as int)[0] == repo@.components[c as int]);
                assert(repo@.components.skip(c as int).skip(1) =~= repo@.components.skip(c + 1));
                assert(comp@ == repo@.components[c as int]);
            }
            if self.path_is_present(&with_arch) {
                let a = build_abs_path(self.root.as_str(), with_arch.as_str());
                files.push((url.clone(), a));
            }
            if self.path_is_present(&with_all) {
                let a = build_abs_path(self.root.as_str(), with_all.as_str());
                files.push((url.clone(), a));
            }
            proof {
                assert(files@.map(|_i: int, p: (String, String)| (p.0@, p.1@)) =~= before.map(
                    |_i: int, p: (String, String)| (p.0@, p.1@),
                ) + (if path_present(presents, with_arch@) {
                    seq![(url@, abs_path(self.root@, with_arch@))]
                } else {
                    Seq::<(Seq<char>, Seq<char>)>::empty()
                }) + (if path_present(presents, with_all@) {
                    seq![(url@, abs_path(self.root@, with_all@))]
                } else {
                    Seq::<(Seq<char>, Seq<char>)>::empty()
                }));
            }
            c = c + 1;
        }
        proof {
            assert(repo@.components.skip(cn as int).len() == 0);
            assert(repo_db_files(
                self.root@,
                name@,
                url@,
                repo@.distribution,
                repo@.components.skip(cn as int),
                self.arch@,
                kind@,
                suffix@,
                presents,
            ) =~= Seq::<(Seq<char>, Seq<char>)>::empty());
            assert(files@.map(|_i: int, p: (String, String)| (p.0@, p.1@)) + Seq::<
                (Seq<char>, Seq<char>),
            >::empty() =~= files@.map(|_i: int, p: (String, String)| (p.0@, p.1@)));
        }
        if files.len() == 0 {
            proof {
                assert(repo_db_files(
                    self.root@,
                    name@,
                    url@,
                    repo@.distribution,
                    repo@.components,
                    self.arch@,
                    kind@,
                    suffix@,
                    presents,
                ).len() == 0);
                assert(db_kind_err(self, name@, kind@, suffix@) == Some(DbError::NoCatalog));
            }
            return Err(DbError::NoCatalog);
        }
        proof {
            assert(files@.map(|_i: int, p: (String, String)| (p.0@, p.1@)).len() > 0);
            assert(db_kind_err(self, name@, kind@, suffix@) is None);
        }
        Ok(files)
    }

    /// Is this relative path among those scanned on disk?
    #[verifier::loop_isolation(false)]
    fn path_is_present(&self, p: &String) -> (r: bool)
        ensures
            r == path_present(self.present@.map(|_i: int, s: String| s@), p@),
    {
        let n = self.present.len();
        let mut i: usize = 0;
        while i < n
            invariant
                0 <= i <= n,
                forall|m: int| 0 <= m < i ==> #[trigger] self.present@[m]@ != p@,
            decreases n - i,
        {
            if crate::text::str_eq(self.present[i].as_str(), p.as_str()) {
                proof {
                    assert(self.present@.map(|_i: int, s: String| s@)[i as int] == p@);
                }
                return true;
            }
            i = i + 1;
        }
        proof {
            let presents = self.present@.map(|_i: int, s: String| s@);
            assert forall|m: int| 0 <= m < presents.len() implies #[trigger] presents[m] != p@ by {
                assert(self.present@[m]@ != p@);
            }
        }
        false
    }

    /// Package catalogs of one repository.
    pub fn get_package_db(&self, name: &str) -> (r: Result<Vec<(String, String)>, DbError>)
        ensures
            db_kind_post(self, name@, "Packages"@, ""@, r),
    {
        self.get_db_kind(name, "Packages", "")
    }

    /// Contents catalogs of one repository.
    pub fn get_contents_db(&self, name: &str) -> (r: Result<Vec<(String, String)>, DbError>)
        ensures
            db_kind_post(self, name@, "Contents"@, ".gz"@, r),
    {
        self.get_db_kind(name, "Contents", ".gz")
    }

    /// Binary-contents catalogs of one repository.
    pub fn get_bincontents_db(&self, name: &str) -> (r: Result<Vec<(String, String)>, DbError>)
        ensures
            db_kind_post(self, name@, "BinContents"@, ""@, r),
    {
        self.get_db_kind(name, "BinContents", "")
    }

    /// Package catalogs of every repository.
    pub fn get_all_package_db(&self) -> (r: Result<Vec<(String, String)>, DbError>)
        ensures
            all_db_post(self, "Packages"@, ""@, r),
    {
        self.get_all_kind("Packages", "")
    }

    /// Contents catalogs of every repository.
    pub fn get_all_contents_db(&self) -> (r: Result<Vec<(String, String)>, DbError>)
        ensures
            all_db_post(self, "Contents"@, ".gz"@, r),
    {
        self.get_all_kind("Contents", ".gz")
    }

    /// Binary-contents catalogs of every repository.
    pub fn get_all_bincontents_db(&self) -> (r: Result<Vec<(String, String)>, DbError>)
        ensures
            all_db_post(self, "BinContents"@, ""@, r),
    {
        self.get_all_kind("BinContents", "")
    }

    /// All repositories' catalogs of one kind, in configuration order.
    #[verifier::loop_isolation(false)]
    fn get_all_kind(&self, kind: &str, suffix: &str) -> (r: Result<Vec<(String, String)>, DbError>)
        ensures
            all_db_post(self, kind@, suffix@, r),
    {
        let mut out: Vec<(String, String)> = Vec::new();
        let n = self.repos.len();
        let mut k: usize = 0;
        proof {
            assert(out@.map(|_i: int, p: (String, String)| (p.0@, p.1@)) =~= Seq::<
                (Seq<char>, Seq<char>),
            >::empty());
        }
        while k < n
            invariant
                0 <= k <= n,
                n == self.repos@.len(),
                out@.map(|_i: int, p: (String, String)| (p.0@, p.1@)) + all_db_files(
                    self,
                    k as int,
                    kind@,
                    suffix@,
                ) == all_db_files(self, 0, kind@, suffix@),
                forall|x: int|
                    0 <= x < k ==> db_kind_err(
                        self,
                        #[trigger] repo_view(self.repos@)[x].0,
                        kind@,
                        suffix@,
                    ) is None,
            decreases n - k,
        {
            let name = self.repos[k].0.clone();
            let ghost before = out@;
            match self.get_db_kind(name.as_str(), kind, suffix) {
                Ok(mut files) => {
                    let ghost fv = files@;
                    out.append(&mut files);
                    proof {
                        assert(name@ == repo_view(self.repos@)[k as int].0);
                        assert(fv.map(|_i: int, p: (String, String)| (p.0@, p.1@))
                            == repo_files_of(self, name@, kind@, suffix@));
                        assert(out@.map(|_i: int, p: (String, String)| (p.0@, p.1@)) =~= before.map(
                            |_i: int, p: (String, String)| (p.0@, p.1@),
                        ) + fv.map(|_i: int, p: (String, String)| (p.0@, p.1@)));
                        assert(before.map(|_i: int, p: (String, String)| (p.0@, p.1@)) + (
                        repo_files_of(self, name@, kind@, suffix@) + all_db_files(
                            self,
                            k + 1,
                            kind@,
                            suffix@,
                        )) =~= out@.map(|_i: int, p: (String, String)| (p.0@, p.1@))
                            + all_db_files(self, k + 1, kind@, suffix@));
                    }
                },
                Err(e) => {
                    proof {
                        assert(name@ == repo_view(self.repos@)[k as int].0);
                        assert(db_kind_err(
                            self,
                            repo_view(self.repos@)[k as int].0,
                            kind@,
                            suffix@,
                        ) == Some(e));
                    }
                    return Err(e);
                },
            }
            k = k + 1;
        }
        proof {
            assert(all_db_files(self, n as int, kind@, suffix@) =~= Seq::<
                (Seq<char>, Seq<char>),
            >::empty());
            assert(out@.map(|_i: int, p: (String, String)| (p.0@, p.1@)) + Seq::<
                (Seq<char>, Seq<char>),
            >::empty() =~= out@.map(|_i: int, p: (String, String)| (p.0@, p.1@)));
        }
        Ok(out)
    }
}

/// First release entry with this path.
pub open spec fn entry_lookup(
    es: Seq<crate::release::ReleaseEntryModel>,
    p: Seq<u8>,
) -> Option<crate::release::ReleaseEntryModel>
    decreases es.len(),
{
    if es.len() == 0 {
        Option::<crate::release::ReleaseEntryModel>::None
    } else if es[0].path == p {
        Option::Some(es[0])
    } else {
        entry_lookup(es.skip(1), p)
    }
}

/// Find the first release entry with this path.
#[verifier::loop_isolation(false)]
fn find_entry<'a>(es: &'a Vec<crate::release::ReleaseEntry>, p: &Vec<u8>) -> (r: Option<
    &'a crate::release::ReleaseEntry,
>)
    ensures
        match r {
            Some(e) => entry_lookup(es@.map(|_i: int, e2: crate::release::ReleaseEntry| e2@), p@)
                == Some(e@),
            None => entry_lookup(es@.map(|_i: int, e2: crate::release::ReleaseEntry| e2@), p@)
                is None,
        },
{
    let ghost esm = es@.map(|_i: int, e2: crate::release::ReleaseEntry| e2@);
    let n = es.len();
    let mut i: usize = 0;
    proof {
        assert(esm.skip(0) =~= esm);
    }
    while i < n
        invariant
            0 <= i <= n,
            n == esm.len(),
            entry_lookup(esm, p@) == entry_lookup(esm.skip(i as int), p@),
        decreases n - i,
    {
        proof {
            assert(esm.skip(i as int)[0] == esm[i as int]);
            assert(esm.skip(i as int).skip(1) =~= esm.skip(i + 1));
        }
        if crate::ctrl::bytes_eq(&es[i].path, p) {
            return Some(&es[i]);
        }
        i = i + 1;
    }
    proof {
        assert(esm.skip(n as int).len() == 0);
    }
    None
}

/// The verified release index vouches for this download job: its
/// expected size and transfer checksum are those of an entry of the
/// index, and — where the artifact is decompressed — the expected
/// decompressed checksum is also an entry's.
pub open spec fn job_vouched(
    j: crate::download::JobModel,
    es: Seq<crate::release::ReleaseEntryModel>,
) -> bool {
    match j.compression {
        crate::download::CompressionModel::Plain(c) => exists|k: int|
            0 <= k < es.len() && j.size == Some(#[trigger] es[k].size) && c == Some(es[k].checksum),
        crate::download::CompressionModel::Xz(c, d) => (exists|k: int|
            0 <= k < es.len() && j.size == Some(#[trigger] es[k].size) && c == Some(
                es[k].checksum,
            )) && (exists|k: int| 0 <= k < es.len() && d == Some(#[trigger] es[k].checksum)),
        crate::download::CompressionModel::Gz(d) => exists|k: int|
            0 <= k < es.len() && d == Some(#[trigger] es[k].checksum),
    }
}

/// A compressed catalog is listed without its decompressed form: the
/// remote repository is inconsistent and this repository's refresh
/// fails (others are not affected).
#[derive(Clone, Copy, Debug, PartialEq, Eq, Structural)]
pub enum RefreshError {
    MissingDecompressed,
    NoMirror,
}

/// The path of one component's compressed package catalog, relative to
/// the distribution tree.
pub open spec fn pkg_xz_rel(comp: Seq<char>, arch: Seq<char>) -> Seq<char> {
    comp + "/binary-"@ + arch + "/Packages.xz"@
}

/// The path of the decompressed package catalog.
pub open spec fn pkg_plain_rel(comp: Seq<char>, arch: Seq<char>) -> Seq<char> {
    comp + "/binary-"@ + arch + "/Packages"@
}

/// The path of the contents catalog.
pub open spec fn contents_rel(comp: Seq<char>, arch: Seq<char>) -> Seq<char> {
    comp + "/Contents-"@ + arch + ".gz"@
}

/// The path of the binary-contents catalog.
pub open spec fn bincontents_rel(comp: Seq<char>, arch: Seq<char>) -> Seq<char> {
    comp + "/BinContents-"@ + arch
}

/// The full URL of a file under the distribution tree.
pub open spec fn dist_url(url: Seq<char>, dist: Seq<char>, rel: Seq<char>) -> Seq<char> {
    url + "/dists/"@ + dist + "/"@ + rel
}

/// The view of a job list.
pub open spec fn jobs_view(s: Seq<crate::download::DownloadJob>) -> Seq<
    crate::download::JobModel,
> {
    s.map(|_i: int, j: crate::download::DownloadJob| j@)
}

/// The package-catalog job of one component and architecture: the
/// listed compressed catalog, fetched under its canonical local name
/// with both the compressed and the decompressed checksum; no job when
/// the index does not list the compressed catalog.
pub open spec fn spec_pkg_jobs(
    name: Seq<char>,
    url: Seq<char>,
    dist: Seq<char>,
    comp: Seq<char>,
    arch: Seq<char>,
    es: Seq<crate::release::ReleaseEntryModel>,
) -> Seq<crate::download::JobModel> {
    match entry_lookup(es, vstd::utf8::encode_utf8(pkg_xz_rel(comp, arch))) {
        Option::None => Seq::<crate::download::JobModel>::empty(),
        Option::Some(exz) => match entry_lookup(
            es,
            vstd::utf8::encode_utf8(pkg_plain_rel(comp, arch)),
        ) {
            Option::None => Seq::<crate::download::JobModel>::empty(),
            Option::Some(epl) => seq![
                crate::download::JobModel {
                    url: dist_url(url, dist, pkg_xz_rel(comp, arch)),
                    description: None,
                    filename: Some(rel_path(name, "Packages"@, dist, comp, arch, ""@)),
                    size: Some(exz.size),
                    compression: crate::download::CompressionModel::Xz(
                        Some(exz.checksum),
                        Some(epl.checksum),
                    ),
                },
            ],
        },
    }
}

/// The contents-catalog job of one component and architecture, when the
/// index lists the file.
pub open spec fn spec_cont_jobs(
    name: Seq<char>,
    url: Seq<char>,
    dist: Seq<char>,
    comp: Seq<char>,
    arch: Seq<char>,
    es: Seq<crate::release::ReleaseEntryModel>,
) -> Seq<crate::download::JobModel> {
    match entry_lookup(es, vstd::utf8::encode_utf8(contents_rel(comp, arch))) {
        Option::None => Seq::<crate::download::JobModel>::empty(),
        Option::Some(e) => seq![
            crate::download::JobModel {
                url: dist_url(url, dist, contents_rel(comp, arch)),
                description: None,
                filename: Some(rel_path(name, "Contents"@, dist, comp, arch, ".gz"@)),
                size: Some(e.size),
                compression: crate::download::CompressionModel::Plain(Some(e.checksum)),
            },
        ],
    }
}

/// The binary-contents-catalog job of one component and architecture,
/// when the index lists the file.
pub open spec fn spec_bin_jobs(
    name: Seq<char>,
    url: Seq<char>,
    dist: Seq<char>,
    comp: Seq<char>,
    arch: Seq<char>,
    es: Seq<crate::release::ReleaseEntryModel>,
) -> Seq<crate::download::JobModel> {
    match entry_lookup(es, vstd::utf8::encode_utf8(bincontents_rel(comp, arch))) {
        Option::None => Seq::<crate::download::JobModel>::empty(),
        Option::Some(e) => seq![
            crate::download::JobModel {
                url: dist_url(url, dist, bincontents_rel(comp, arch)),
                description: None,
                filename: Some(rel_path(name, "BinContents"@, dist, comp, arch, ""@)),
                size: Some(e.size),
                compression: crate::download::CompressionModel::Plain(Some(e.checksum)),
            },
        ],
    }
}

/// Every download job of one component for one architecture, in the
/// order they are planned.
pub open spec fn spec_arch_jobs(
    name: Seq<char>,
    url: Seq<char>,
    dist: Seq<char>,
    comp: Seq<char>,
    arch: Seq<char>,
    es: Seq<crate::release::ReleaseEntryModel>,
) -> Seq<crate::download::JobModel> {
    spec_pkg_jobs(name, url, dist, comp, arch, es) + spec_cont_jobs(
        name,
        url,
        dist,
        comp,
        arch,
        es,
    ) + spec_bin_jobs(name, url, dist, comp, arch, es)
}

/// The index lists the compressed package catalog but not its
/// decompressed counterpart: the repository is inconsistent.
pub open spec fn missing_plain(
    comp: Seq<char>,
    arch: Seq<char>,
    es: Seq<crate::release::ReleaseEntryModel>,
) -> bool {
    entry_lookup(es, vstd::utf8::encode_utf8(pkg_xz_rel(comp, arch))) is Some && entry_lookup(
        es,
        vstd::utf8::encode_utf8(pkg_plain_rel(comp, arch)),
    ) is None
}

/// The inconsistency above, for either planned architecture of one
/// component.
pub open spec fn comp_missing(
    comp: Seq<char>,
    march: Seq<char>,
    es: Seq<crate::release::ReleaseEntryModel>,
) -> bool {
    missing_plain(comp, march, es) || missing_plain(comp, "all"@, es)
}

/// Every download job of one component: the machine's architecture
/// first, then `all`.
pub open spec fn spec_comp_jobs(
    name: Seq<char>,
    url: Seq<char>,
    dist: Seq<char>,
    comp: Seq<char>,
    march: Seq<char>,
    es: Seq<crate::release::ReleaseEntryModel>,
) -> Seq<crate::download::JobModel> {
    spec_arch_jobs(name, url, dist, comp, march, es) + spec_arch_jobs(
        name,
        url,
        dist,
        comp,
        "all"@,
        es,
    )
}

/// Every download job of one repository's refresh, component by
/// component in configuration order.
pub open spec fn spec_refresh_jobs(
    name: Seq<char>,
    url: Seq<char>,
    dist: Seq<char>,
    comps: Seq<Seq<char>>,
    march: Seq<char>,
    es: Seq<crate::release::ReleaseEntryModel>,
) -> Seq<crate::download::JobModel>
    decreases comps.len(),
{
    if comps.len() == 0 {
        Seq::<crate::download::JobModel>::empty()
    } else {
        spec_comp_jobs(name, url, dist, comps[0], march, es) + spec_refresh_jobs(
            name,
            url,
            dist,
            comps.skip(1),
            march,
            es,
        )
    }
}

/// Plan the catalog downloads of one component for one architecture:
/// exactly the jobs of `spec_arch_jobs`, or the inconsistency error when
/// the compressed package catalog is listed without its decompressed
/// form.
#[verifier::loop_isolation(false)]
#[verifier::rlimit(100)]
fn plan_arch_jobs(
    name: &str,
    url: &str,
    dist: &str,
    comp: &str,
    arch: &str,
    entries: &Vec<crate::release::ReleaseEntry>,
) -> (r: Result<Vec<crate::download::DownloadJob>, RefreshError>)
    ensures
        ({
            let esm = entries@.map(|_i: int, e2: crate::release::ReleaseEntry| e2@);
            match r {
                Ok(jobs) => {
                    &&& jobs_view(jobs@) == spec_arch_jobs(name@, url@, dist@, comp@, arch@, esm)
                    &&& !missing_plain(comp@, arch@, esm)
                    &&& forall|k: int|
                        0 <= k < jobs@.len() ==> job_vouched(#[trigger] jobs@[k]@, esm)
                },
                Err(RefreshError::MissingDecompressed) => missing_plain(comp@, arch@, esm),
                Err(RefreshError::NoMirror) => false,
            }
        }),
{
    let ghost esm = entries@.map(|_i: int, e2: crate::release::ReleaseEntry| e2@);
    let mut jobs: Vec<crate::download::DownloadJob> = Vec::new();
    // the compressed package catalog and its decompressed form
    let mut pkg_rel = String::new();
    pkg_rel.append(comp);
    pkg_rel.append("/binary-");
    pkg_rel.append(arch);
    pkg_rel.append("/Packages.xz");
    let mut plain_rel = String::new();
    plain_rel.append(comp);
    plain_rel.append("/binary-");
    plain_rel.append(arch);
    plain_rel.append("/Packages");
    let pkg_bytes = crate::text::string_to_bytes(pkg_rel.as_str());
    let plain_bytes = crate::text::string_to_bytes(plain_rel.as_str());
    proof {
        assert(pkg_rel@ =~= pkg_xz_rel(comp@, arch@));
        assert(plain_rel@ =~= pkg_plain_rel(comp@, arch@));
        assert(pkg_bytes@ == vstd::utf8::encode_utf8(pkg_xz_rel(comp@, arch@)));
        assert(plain_bytes@ == vstd::utf8::encode_utf8(pkg_plain_rel(comp@, arch@)));
    }
    match find_entry(entries, &pkg_bytes) {
        Some(exz) => {
            let xz_size = exz.size;
            let xz_ck = exz.checksum.clone();
            let ghost exzm = exz@;
            let plain_ck = match find_entry(entries, &plain_bytes) {
                Some(epl) => epl.checksum.clone(),
                None => {
                    proof {
                        assert(missing_plain(comp@, arch@, esm));
                    }
                    return Err(RefreshError::MissingDecompressed);
                },
            };
            let dl_url = join_dist_url(url, dist, pkg_rel.as_str());
            let fname = build_rel_path(name, "Packages", dist, comp, arch, "");
            jobs.push(
                crate::download::DownloadJob {
                    url: dl_url,
                    description: None,
                    filename: Some(fname),
                    size: Some(xz_size),
                    compression: crate::download::Compression::Xz(Some(xz_ck), Some(plain_ck)),
                },
            );
            proof {
                assert(jobs_view(jobs@) =~~= spec_pkg_jobs(name@, url@, dist@, comp@, arch@, esm));
                lemma_entry_lookup_member(esm, pkg_bytes@);
                lemma_entry_lookup_member(esm, plain_bytes@);
                let kx = choose|k: int|
                    0 <= k < esm.len() && #[trigger] esm[k] == entry_lookup(
                        esm,
                        pkg_bytes@,
                    ).unwrap();
                let kp = choose|k: int|
                    0 <= k < esm.len() && #[trigger] esm[k] == entry_lookup(
                        esm,
                        plain_bytes@,
                    ).unwrap();
                assert(esm[kx] == exzm);
                assert(esm[kp].checksum == entry_lookup(esm, plain_bytes@).unwrap().checksum);
                assert(job_vouched(jobs@[0]@, esm));
            }
        },
        None => {
            proof {
                assert(jobs_view(jobs@) =~~= spec_pkg_jobs(name@, url@, dist@, comp@, arch@, esm));
            }
        },
    }
    let ghost after_pkg = jobs@;
    // the contents catalog, fetched as stored
    let mut cont_rel = String::new();
    cont_rel.append(comp);
    cont_rel.append("/Contents-");
    cont_rel.append(arch);
    cont_rel.append(".gz");
    let cont_bytes = crate::text::string_to_bytes(cont_rel.as_str());
    proof {
        assert(cont_rel@ =~= contents_rel(comp@, arch@));
        assert(cont_bytes@ == vstd::utf8::encode_utf8(contents_rel(comp@, arch@)));
    }
    match find_entry(entries, &cont_bytes) {
        Some(e) => {
            let ghost em = e@;
            let dl_url = join_dist_url(url, dist, cont_rel.as_str());
            let fname = build_rel_path(name, "Contents", dist, comp, arch, ".gz");
            let size = e.size;
            let ck = e.checksum.clone();
            jobs.push(
                crate::download::DownloadJob {
                    url: dl_url,
                    description: None,
                    filename: Some(fname),
                    size: Some(size),
                    compression: crate::download::Compression::Plain(Some(ck)),
                },
            );
            proof {
                assert(jobs_view(jobs@) =~~= jobs_view(after_pkg) + spec_cont_jobs(
                    name@,
                    url@,
                    dist@,
                    comp@,
                    arch@,
                    esm,
                ));
                lemma_entry_lookup_member(esm, cont_bytes@);
                let kc = choose|k: int|
                    0 <= k < esm.len() && #[trigger] esm[k] == entry_lookup(
                        esm,
                        cont_bytes@,
                    ).unwrap();
                assert(esm[kc] == em);
                assert(job_vouched(jobs@[jobs@.len() - 1]@, esm));
                assert forall|k: int| 0 <= k < jobs@.len() implies job_vouched(
                    #[trigger] jobs@[k]@,
                    esm,
                ) by {
                    if k < jobs@.len() - 1 {
                        assert(jobs@[k] == after_pkg[k]);
                    }
                }
            }
        },
        None => {
            proof {
                assert(jobs_view(jobs@) =~~= jobs_view(after_pkg) + spec_cont_jobs(
                    name@,
                    url@,
                    dist@,
                    comp@,
                    arch@,
                    esm,
                ));
            }
        },
    }
    let ghost after_cont = jobs@;
    // the binary-contents catalog
    let mut bin_rel = String::new();
    bin_rel.append(comp);
    bin_rel.append("/BinContents-");
    bin_rel.append(arch);
    let bin_bytes = crate::text::string_to_bytes(bin_rel.as_str());
    proof {
        assert(bin_rel@ =~= bincontents_rel(comp@, arch@));
        assert(bin_bytes@ == vstd::utf8::encode_utf8(bincontents_rel(comp@, arch@)));
    }
    match find_entry(entries, &bin_bytes) {
        Some(e) => {
            let ghost em = e@;
            let dl_url = join_dist_url(url, dist, bin_rel.as_str());
            let fname = build_rel_path(name, "BinContents", dist, comp, arch, "");
            let size = e.size;
            let ck = e.checksum.clone();
            jobs.push(
                crate::download::DownloadJob {
                    url: dl_url,
                    description: None,
                    filename: Some(fname),
                    size: Some(size),
                    compression: crate::download::Compression::Plain(Some(ck)),
                },
            );
            proof {
                assert(jobs_view(jobs@) =~~= jobs_view(after_cont) + spec_bin_jobs(
                    name@,
                    url@,
                    dist@,
                    comp@,
                    arch@,
                    esm,
                ));
                lemma_entry_lookup_member(esm, bin_bytes@);
                let kb = choose|k: int|
                    0 <= k < esm.len() && #[trigger] esm[k] == entry_lookup(
                        esm,
                        bin_bytes@,
                    ).unwrap();
                assert(esm[kb] == em);
                assert(job_vouched(jobs@[jobs@.len() - 1]@, esm));
                assert forall|k: int| 0 <= k < jobs@.len() implies job_vouched(
                    #[trigger] jobs@[k]@,
                    esm,
                ) by {
                    if k < jobs@.len() - 1 {
                        assert(jobs@[k] == after_cont[k]);
                    }
                }
            }
        },
        None => {
            proof {
                assert(jobs_view(jobs@) =~~= jobs_view(after_cont) + spec_bin_jobs(
                    name@,
                    url@,
                    dist@,
                    comp@,
                    arch@,
                    esm,
                ));
            }
        },
    }
    proof {
        assert(jobs_view(jobs@) =~~= spec_arch_jobs(name@, url@, dist@, comp@, arch@, esm));
    }
    Ok(jobs)
}

impl LocalDb {
    /// Plan the catalog downloads of one repository from its verified
    /// release index: for each component and for the machine's and the
    /// `all` architecture, exactly the jobs of `spec_refresh_jobs` — the
    /// listed compressed package catalog (with both checksums), the
    /// contents catalog and the binary-contents catalog, each under its
    /// canonical local name.  The inconsistency error comes exactly when
    /// some component lists a compressed package catalog without its
    /// decompressed form; a repository without a mirror is refused.
    #[verifier::loop_isolation(false)]
    pub fn plan_repo_refresh(&self, name: &str, repo: &RepoConfig, entries: &Vec<
        crate::release::ReleaseEntry,
    >) -> (r: Result<Vec<crate::download::DownloadJob>, RefreshError>)
        ensures
            ({
                let esm = entries@.map(|_i: int, e2: crate::release::ReleaseEntry| e2@);
                match r {
                    Ok(jobs) => {
                        &&& mirror_ok(repo@.url)
                        &&& jobs_view(jobs@) == spec_refresh_jobs(
                            name@,
                            spec_first_url(repo@.url),
                            repo@.distribution,
                            repo@.components,
                            self.arch@,
                            esm,
                        )
                        &&& forall|c: int|
                            0 <= c < repo@.components.len() ==> !comp_missing(
                                #[trigger] repo@.components[c],
                                self.arch@,
                                esm,
                            )
                        &&& forall|k: int|
                            0 <= k < jobs@.len() ==> job_vouched(#[trigger] jobs@[k]@, esm)
                    },
                    Err(RefreshError::NoMirror) => !mirror_ok(repo@.url),
                    Err(RefreshError::MissingDecompressed) => exists|c: int|
                        0 <= c < repo@.components.len() && comp_missing(
                            #[trigger] repo@.components[c],
                            self.arch@,
                            esm,
                        ),
                }
            }),
    {
        let ghost esm = entries@.map(|_i: int, e2: crate::release::ReleaseEntry| e2@);
        let url = match repo.get_url() {
            Some(u) => u.clone(),
            None => {
                return Err(RefreshError::NoMirror);
            },
        };
        let mut jobs: Vec<crate::download::DownloadJob> = Vec::new();
        let cn = repo.components.len();
        let mut c: usize = 0;
        proof {
            assert(repo@.components.skip(0) =~= repo@.components);
        }
        while c < cn
            invariant
                0 <= c <= cn,
                cn == repo.components@.len(),
                url@ == spec_first_url(repo@.url),
                spec_refresh_jobs(
                    name@,
                    url@,
                    repo@.distribution,
                    repo@.components,
                    self.arch@,
                    esm,
                ) == jobs_view(jobs@) + spec_refresh_jobs(
                    name@,
                    url@,
                    repo@.distribution,
                    repo@.components.skip(c as int),
                    self.arch@,
                    esm,
                ),
                forall|x: int|
                    0 <= x < c ==> !comp_missing(#[trigger] repo@.components[x], self.arch@, esm),
                forall|k: int| 0 <= k < jobs@.len() ==> job_vouched(#[trigger] jobs@[k]@, esm),
            decreases cn - c,
        {
            let comp = &repo.components[c];
            proof {
                assert(comp@ == repo@.components[c as int]);
                assert(repo@.components.skip(c as int)[0] == repo@.components[c as int]);
                assert(repo@.components.skip(c as int).skip(1) =~= repo@.components.skip(c + 1));
            }
            let ghost before = jobs@;
            let mut march_jobs = match plan_arch_jobs(
                name,
                url.as_str(),
                repo.distribution.as_str(),
                comp.as_str(),
                self.arch.as_str(),
                entries,
            ) {
                Ok(j) => j,
                Err(_) => {
                    return Err(RefreshError::MissingDecompressed);
                },
            };
            let ghost marchv = march_jobs@;
            jobs.append(&mut march_jobs);
            let mut all_jobs = match plan_arch_jobs(
                name,
                url.as_str(),
                repo.distribution.as_str(),
                comp.as_str(),
                "all",
                entries,
            ) {
                Ok(j) => j,
                Err(_) => {
                    return Err(RefreshError::MissingDecompressed);
                },
            };
            let ghost allv = all_jobs@;
            jobs.append(&mut all_jobs);
            proof {
                assert(jobs_view(jobs@) =~= jobs_view(before) + jobs_view(marchv) + jobs_view(
                    allv,
                ));
                assert(jobs_view(before) + spec_comp_jobs(
                    name@,
                    url@,
                    repo@.distribution,
                    repo@.components[c as int],
                    self.arch@,
                    esm,
                ) =~= jobs_view(jobs@));
                assert(jobs_view(jobs@) + spec_refresh_jobs(
                    name@,
                    url@,
                    repo@.distribution,
                    repo@.components.skip(c + 1),
                    self.arch@,
                    esm,
                ) =~= jobs_view(before) + spec_refresh_jobs(
                    name@,
                    url@,
                    repo@.distribution,
                    repo@.components.skip(c as int),
                    self.arch@,
                    esm,
                ));
            }
            c = c + 1;
        }
        proof {
            assert(spec_refresh_jobs(
                name@,
                url@,
                repo@.distribution,
                repo@.components.skip(cn as int),
                self.arch@,
                esm,
            ) =~= Seq::<crate::download::JobModel>::empty());
            assert(jobs_view(jobs@) + Seq::<crate::download::JobModel>::empty() =~= jobs_view(
                jobs@,
            ));
        }
        Ok(jobs)
    }
}

/// `base/dists/<distribution>/<relative>`.
fn join_dist_url(base: &str, dist: &str, rel: &str) -> (r: String)
    ensures
        r@ == base@ + "/dists/"@ + dist@ + "/"@ + rel@,
{
    let mut s = String::new();
    s.append(base);
    s.append("/dists/");
    s.append(dist);
    s.append("/");
    s.append(rel);
    s
}

/// A found entry is a member of the list.
proof fn lemma_entry_lookup_member(es: Seq<crate::release::ReleaseEntryModel>, p: Seq<u8>)
    ensures
        entry_lookup(es, p) is Some ==> exists|k: int|
            0 <= k < es.len() && #[trigger] es[k] == entry_lookup(es, p).unwrap(),
    decreases es.len(),
{
    if es.len() > 0 && es[0].path != p {
        lemma_entry_lookup_member(es.skip(1), p);
        if entry_lookup(es.skip(1), p) is Some {
            let k = choose|k: int|
                0 <= k < es.skip(1).len() && #[trigger] es.skip(1)[k] == entry_lookup(
                    es.skip(1),
                    p,
                ).unwrap();
            assert(es[k + 1] == entry_lookup(es, p).unwrap());
        }
    }
}

/// The URL the library talks to: the single URL or the preferred
/// (first) mirror.
pub open spec fn spec_first_url(m: MirrorModel) -> Seq<char> {
    match m {
        MirrorModel::Single(u) => u,
        MirrorModel::Multiple(us) => us[0],
    }
}

/// Why a per-repository catalog lookup must fail, if it must: the name
/// is unknown, the repository has no mirror, or no catalog file of the
/// kind is on disk.
pub open spec fn db_kind_err(
    db: &LocalDb,
    name: Seq<char>,
    kind: Seq<char>,
    suffix: Seq<char>,
) -> Option<DbError> {
    match repo_lookup(repo_view(db.repos@), name) {
        Option::None => Some(DbError::NoSuchRepo),
        Option::Some(repo) => if !mirror_ok(repo.url) {
            Some(DbError::NoMirror)
        } else if repo_db_files(
            db.root@,
            name,
            spec_first_url(repo.url),
            repo.distribution,
            repo.components,
            db.arch@,
            kind,
            suffix,
            db.present@.map(|_i: int, s: String| s@),
        ).len() == 0 {
            Some(DbError::NoCatalog)
        } else {
            None
        },
    }
}

/// What a per-repository catalog lookup guarantees: the exact file list
/// on success, and each error exactly when `db_kind_err` calls for it.
pub open spec fn db_kind_post(
    db: &LocalDb,
    name: Seq<char>,
    kind: Seq<char>,
    suffix: Seq<char>,
    r: Result<Vec<(String, String)>, DbError>,
) -> bool {
    match r {
        Ok(files) => {
            let repo = repo_lookup(repo_view(db.repos@), name);
            &&& db_kind_err(db, name, kind, suffix) is None
            &&& repo is Some
            &&& mirror_ok(repo.unwrap().url)
            &&& files@.map(|_i: int, p: (String, String)| (p.0@, p.1@)) == repo_db_files(
                db.root@,
                name,
                spec_first_url(repo.unwrap().url),
                repo.unwrap().distribution,
                repo.unwrap().components,
                db.arch@,
                kind,
                suffix,
                db.present@.map(|_i: int, s: String| s@),
            )
            &&& files@.len() > 0
        },
        Err(e) => db_kind_err(db, name, kind, suffix) == Some(e),
    }
}

/// One named repository's catalog files of one kind (empty when the
/// repository cannot be used).
pub open spec fn repo_files_of(db: &LocalDb, name: Seq<char>, kind: Seq<char>, suffix: Seq<char>) -> Seq<
    (Seq<char>, Seq<char>),
> {
    match repo_lookup(repo_view(db.repos@), name) {
        Option::Some(repo) => if mirror_ok(repo.url) {
            repo_db_files(
                db.root@,
                name,
                spec_first_url(repo.url),
                repo.distribution,
                repo.components,
                db.arch@,
                kind,
                suffix,
                db.present@.map(|_i: int, s: String| s@),
            )
        } else {
            Seq::<(Seq<char>, Seq<char>)>::empty()
        },
        Option::None => Seq::<(Seq<char>, Seq<char>)>::empty(),
    }
}

/// The catalog files of every repository from position `i` on.
pub open spec fn all_db_files(db: &LocalDb, i: int, kind: Seq<char>, suffix: Seq<char>) -> Seq<
    (Seq<char>, Seq<char>),
>
    decreases db.repos@.len() - i when 0 <= i <= db.repos@.len()
{
    if i < 0 || i >= db.repos@.len() {
        Seq::<(Seq<char>, Seq<char>)>::empty()
    } else {
        repo_files_of(db, repo_view(db.repos@)[i].0, kind, suffix) + all_db_files(
            db,
            i + 1,
            kind,
            suffix,
        )
    }
}

/// A whole-database lookup lists every repository's files in
/// configuration order; it succeeds exactly when every per-repository
/// lookup does, and otherwise carries the first failing repository's
/// error.
pub open spec fn all_db_post(
    db: &LocalDb,
    kind: Seq<char>,
    suffix: Seq<char>,
    r: Result<Vec<(String, String)>, DbError>,
) -> bool {
    match r {
        Ok(files) => {
            &&& files@.map(|_i: int, p: (String, String)| (p.0@, p.1@)) == all_db_files(
                db,
                0,
                kind,
                suffix,
            )
            &&& forall|k: int|
                0 <= k < repo_view(db.repos@).len() ==> db_kind_err(
                    db,
                    #[trigger] repo_view(db.repos@)[k].0,
                    kind,
                    suffix,
                ) is None
        },
        Err(e) => exists|k: int|
            0 <= k < repo_view(db.repos@).len() && db_kind_err(
                db,
                #[trigger] repo_view(db.repos@)[k].0,
                kind,
                suffix,
            ) == Some(e) && forall|x: int|
                0 <= x < k ==> db_kind_err(db, #[trigger] repo_view(db.repos@)[x].0, kind, suffix)
                    is None,
    }
}

/// The chosen repository is the first with the name.
proof fn lemma_repo_lookup_first(repos: Seq<(Seq<char>, RepoModel)>, name: Seq<char>, k: int)
    requires
        0 <= k < repos.len(),
        repos[k].0 == name,
        forall|x: int| 0 <= x < k ==> #[trigger] repos[x].0 != name,
    ensures
        repo_lookup(repos, name) == Some(repos[k].1),
    decreases k,
{
    if k > 0 {
        assert(repos[0].0 != name);
        assert forall|x: int| 0 <= x < k - 1 implies #[trigger] repos.skip(1)[x].0 != name by {
            assert(repos[x + 1].0 != name);
        }
        lemma_repo_lookup_first(repos.skip(1), name, k - 1);
    }
}

/// `None` only when no repository carries the name.
proof fn lemma_repo_lookup_none(repos: Seq<(Seq<char>, RepoModel)>, name: Seq<char>)
    requires
        forall|x: int| 0 <= x < repos.len() ==> #[trigger] repos[x].0 != name,
    ensures
        repo_lookup(repos, name) is None,
    decreases repos.len(),
{
    if repos.len() > 0 {
        assert forall|x: int| 0 <= x < repos.skip(1).len() implies #[trigger] repos.skip(1)[x].0
            != name by {
            assert(repos[x + 1].0 != name);
        }
        lemma_repo_lookup_none(repos.skip(1), name);
    }
}

} // verus!
