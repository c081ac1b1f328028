//! Configuration model: repositories with their mirrors, the safety
//! switches, and the command-line surface.  The reading of the
//! configuration file itself is the caller's business; the library
//! checks the values.

use crate::version::VersionRequirement;
use vstd::prelude::*;
use vstd::string::StringSliceAdditionalSpecFns;

verus! {

/// Where a repository lives: one URL, or a list of mirrors of which
/// the first is preferred.
pub enum Mirror {
    Single(String),
    Multiple(Vec<String>),
}

/// Model of a mirror choice.
pub enum MirrorModel {
    Single(Seq<char>),
    Multiple(Seq<Seq<char>>),
}

impl View for Mirror {
    type V = MirrorModel;

    open spec fn view(&self) -> MirrorModel {
        match self {
            Mirror::Single(u) => MirrorModel::Single(u@),
            Mirror::Multiple(us) => MirrorModel::Multiple(us@.map(|_i: int, s: String| s@)),
        }
    }
}

/// One configured repository.
pub struct RepoConfig {
    pub url: Mirror,
    pub distribution: String,
    pub components: Vec<String>,
    pub keys: Vec<String>,
}

/// Model of a repository.
pub struct RepoModel {
    pub url: MirrorModel,
    pub distribution: Seq<char>,
    pub components: Seq<Seq<char>>,
    pub keys: Seq<Seq<char>>,
}

impl View for RepoConfig {
    type V = RepoModel;

    open spec fn view(&self) -> RepoModel {
        RepoModel {
            url: self.url@,
            distribution: self.distribution@,
            components: self.components@.map(|_i: int, s: String| s@),
            keys: self.keys@.map(|_i: int, s: String| s@),
        }
    }
}

/// The switches that weaken safety checks.
pub struct UnsafeConfig {
    pub purge_on_remove: bool,
    pub unsafe_io: bool,
    pub allow_remove_essential: bool,
}

/// The whole configuration: the target architecture and the named
/// repositories.
pub struct Config {
    pub arch: String,
    pub repo: Vec<(String, RepoConfig)>,
    pub unsafe_flags: Option<UnsafeConfig>,
}

/// Model of the configuration.
pub open spec fn repo_view(s: Seq<(String, RepoConfig)>) -> Seq<(Seq<char>, RepoModel)> {
    s.map(|_i: int, p: (String, RepoConfig)| (p.0@, p.1@))
}

/// A character allowed in a public key file name.
pub open spec fn spec_key_filename_char(c: char) -> bool {
    ('a' <= c <= 'z') || ('A' <= c <= 'Z') || ('0' <= c <= '9') || c == '-' || c == '_' || c == '.'
}

/// Is the character allowed in a public key file name?
pub fn key_filename_char(c: char) -> (r: bool)
    ensures
        r == spec_key_filename_char(c),
{
    ('a' <= c && c <= 'z') || ('A' <= c && c <= 'Z') || ('0' <= c && c <= '9') || c == '-' || c
        == '_' || c == '.'
}

/// A configuration error found before any work starts; each variant
/// names the offending repository.
#[derive(Debug)]
pub enum ConfigError {
    /// The named repository has the named key file whose name holds a
    /// character outside the allowed set.
    BadKeyFilename(String, String),
    /// The named repository has a mirror list with no mirror at all.
    NoMirror(String),
}

/// The mirror choice names at least one URL.
pub open spec fn mirror_ok(m: MirrorModel) -> bool {
    match m {
        MirrorModel::Single(_) => true,
        MirrorModel::Multiple(us) => us.len() > 0,
    }
}

/// Every character of every key file name is allowed.
pub open spec fn keys_ok(r: RepoModel) -> bool {
    forall|i: int, j: int|
        0 <= i < r.keys.len() && 0 <= j < r.keys[i].len() ==> spec_key_filename_char(
            #[trigger] r.keys[i][j],
        )
}

impl RepoConfig {
    /// There is at least one mirror to talk to; the error carries the
    /// repository's name.
    pub fn check_sanity(&self, name: &str) -> (r: Result<(), ConfigError>)
        ensures
            match r {
                Ok(()) => mirror_ok(self@.url),
                Err(ConfigError::NoMirror(rn)) => !mirror_ok(self@.url) && rn@ == name@,
                Err(_) => false,
            },
    {
        match &self.url {
            Mirror::Single(_) => Ok(()),
            Mirror::Multiple(us) => {
                if us.len() == 0 {
                    Err(ConfigError::NoMirror(name.to_owned()))
                } else {
                    Ok(())
                }
            },
        }
    }

    /// The preferred mirror: the single URL, or the first of the list.
    pub fn get_url(&self) -> (r: Option<&String>)
        ensures
            match r {
                Some(u) => match self@.url {
                    MirrorModel::Single(m) => u@ == m,
                    MirrorModel::Multiple(ms) => ms.len() > 0 && u@ == ms[0],
                },
                None => !mirror_ok(self@.url),
            },
    {
        match &self.url {
            Mirror::Single(u) => Some(u),
            Mirror::Multiple(us) => {
                if us.len() == 0 {
                    None
                } else {
                    Some(&us[0])
                }
            },
        }
    }
}

impl Config {
    /// Check every repository: valid key file names and at least one
    /// mirror each.  An error names the offending repository, and the
    /// offending key file where a key file is at fault.
    #[verifier::loop_isolation(false)]
    pub fn check_sanity(&self) -> (r: Result<(), ConfigError>)
        ensures
            match r {
                Ok(()) => forall|k: int|
                    0 <= k < repo_view(self.repo@).len() ==> keys_ok(
                        #[trigger] repo_view(self.repo@)[k].1,
                    ) && mirror_ok(repo_view(self.repo@)[k].1.url),
                Err(ConfigError::BadKeyFilename(rn, key)) => exists|k: int, i: int|
                    0 <= k < repo_view(self.repo@).len() && #[trigger] repo_view(
                        self.repo@,
                    )[k].0 == rn@ && 0 <= i < repo_view(self.repo@)[k].1.keys.len()
                        && #[trigger] repo_view(self.repo@)[k].1.keys[i] == key@ && exists|j: int|
                        0 <= j < key@.len() && !spec_key_filename_char(#[trigger] key@[j]),
                Err(ConfigError::NoMirror(rn)) => exists|k: int|
                    0 <= k < repo_view(self.repo@).len() && #[trigger] repo_view(
                        self.repo@,
                    )[k].0 == rn@ && !mirror_ok(repo_view(self.repo@)[k].1.url),
            },
    {
        let n = self.repo.len();
        let mut k: usize = 0;
        while k < n
            invariant
                0 <= k <= n,
                forall|x: int|
                    0 <= x < k ==> keys_ok(#[trigger] repo_view(self.repo@)[x].1) && mirror_ok(
                        repo_view(self.repo@)[x].1.url,
                    ),
            decreases n - k,
        {
            let repo = &self.repo[k].1;
            // key file names
            let kn = repo.keys.len();
            let mut i: usize = 0;
            while i < kn
                invariant
                    0 <= i <= kn,
                    kn == repo.keys@.len(),
                    forall|x: int, j: int|
                        0 <= x < i && 0 <= j < repo@.keys[x].len() ==> spec_key_filename_char(
                            #[trigger] repo@.keys[x][j],
                        ),
            decreases kn - i,
            {
                let key = &repo.keys[i];
                let cn = key.as_str().unicode_len();
                let mut j: usize = 0;
                while j < cn
                    invariant
                        0 <= j <= cn,
                        cn == key@.len(),
                        forall|m: int| 0 <= m < j ==> spec_key_filename_char(#[trigger] key@[m]),
                    decreases cn - j,
                {
                    let c = key.as_str().get_char(j);
                    if !key_filename_char(c) {
                        let rn = self.repo[k].0.clone();
                        let bad = key.clone();
                        proof {
                            assert(!spec_key_filename_char(bad@[j as int]));
                            assert(rn@ == repo_view(self.repo@)[k as int].0);
                            assert(bad@ == repo_view(self.repo@)[k as int].1.keys[i as int]);
                            assert(exists|j2: int|
                                0 <= j2 < bad@.len() && !spec_key_filename_char(
                                    #[trigger] bad@[j2],
                                ));
                            assert(exists|k2: int, i2: int|
                                0 <= k2 < repo_view(self.repo@).len() && #[trigger] repo_view(
                                    self.repo@,
                                )[k2].0 == rn@ && 0 <= i2 < repo_view(self.repo@)[k2].1.keys.len()
                                    && #[trigger] repo_view(self.repo@)[k2].1.keys[i2] == bad@
                                    && exists|j2: int|
                                    0 <= j2 < bad@.len() && !spec_key_filename_char(
                                        #[trigger] bad@[j2],
                                    ));
                        }
                        return Err(ConfigError::BadKeyFilename(rn, bad));
                    }
                    j = j + 1;
                }
                proof {
                    assert(repo@.keys[i as int] == key@);
                }
                i = i + 1;
            }
            match repo.check_sanity(self.repo[k].0.as_str()) {
                Ok(()) => {},
                Err(e) => {
                    proof {
                        assert(!mirror_ok(repo_view(self.repo@)[k as int].1.url));
                        assert(repo_view(self.repo@)[k as int].0 == self.repo@[k as int].0@);
                    }
                    return Err(e);
                },
            }
            proof {
                assert(keys_ok(repo_view(self.repo@)[k as int].1));
            }
            k = k + 1;
        }
        Ok(())
    }
}

/// A requested package with optional recommendation pull-in and
/// version bound.
pub struct PkgRequirement {
    pub with_recommends: Option<bool>,
    pub version: Option<VersionRequirement>,
}

/// The command-line surface: global switches and the chosen
/// subcommand.
pub struct Opts {
    pub root: String,
    pub config_root: String,
    pub yes: bool,
    pub verbose: bool,
    pub no_pager: bool,
    pub subcmd: SubCmd,
}

/// The subcommands the tool offers.
pub enum SubCmd {
    Install(InstallPkg),
    Remove(RemovePkg),
    Pick(PickPkg),
    Refresh,
    Execute,
    Search(SearchPkg),
    Provide(ProvideFile),
    Clean(CleanConfig),
    Bench,
}

/// Arguments of the install subcommand.
pub struct InstallPkg {
    pub names: Vec<String>,
    pub no_recommends: bool,
    pub local: bool,
}

/// Arguments of the remove subcommand.
pub struct RemovePkg {
    pub names: Vec<String>,
    pub remove_recommends: bool,
}

/// Arguments of the pick subcommand.
pub struct PickPkg {
    pub name: String,
}

/// Arguments of the search subcommand.
pub struct SearchPkg {
    pub keyword: String,
}

/// Arguments of the provide subcommand.
pub struct ProvideFile {
    pub file: String,
    pub first_only: bool,
}

/// Arguments of the clean subcommand.
pub struct CleanConfig {
    pub all: bool,
}

/// Apply a blueprint-changing subcommand to the blueprints; the result
/// says whether they changed and must be written back.  Install leaves
/// the blueprints as the fold of adding every named package to the user
/// list; remove as the fold of dropping every named one.  Any other
/// subcommand leaves the blueprints alone.  The first failing name
/// stops the work with its error.
#[verifier::loop_isolation(false)]
pub fn fullfill_subcmd(subcmd: &SubCmd, blueprint: &mut crate::blueprint::Blueprints) -> (r:
    Result<bool, crate::blueprint::BlueprintError>)
    requires
        crate::blueprint::bp_names_unique(old(blueprint)@),
    ensures
        crate::blueprint::bp_names_unique(final(blueprint)@),
        match subcmd {
            SubCmd::Install(args) => {
                let names = args.names@.map(|_i: int, s: String| s@);
                match r {
                    Ok(changed) => changed && Some(final(blueprint)@)
                        == crate::blueprint::bp_after_installs(
                        old(blueprint)@,
                        names,
                        args.local,
                    ),
                    Err(_) => crate::blueprint::bp_after_installs(
                        old(blueprint)@,
                        names,
                        args.local,
                    ) is None,
                }
            },
            SubCmd::Remove(args) => {
                let names = args.names@.map(|_i: int, s: String| s@);
                match r {
                    Ok(changed) => changed && Some(final(blueprint)@)
                        == crate::blueprint::bp_after_removes(
                        old(blueprint)@,
                        names,
                        args.remove_recommends,
                    ),
                    Err(_) => crate::blueprint::bp_after_removes(
                        old(blueprint)@,
                        names,
                        args.remove_recommends,
                    ) is None,
                }
            },
            _ => r == Ok::<bool, crate::blueprint::BlueprintError>(false) && final(blueprint)@
                == old(blueprint)@,
        },
{
    match subcmd {
        SubCmd::Install(args) => {
            let ghost names = args.names@.map(|_i: int, s: String| s@);
            let n = args.names.len();
            let mut i: usize = 0;
            proof {
                assert(names.skip(0) =~= names);
            }
            while i < n
                invariant
                    0 <= i <= n,
                    n == names.len(),
                    crate::blueprint::bp_names_unique(blueprint@),
                    crate::blueprint::bp_after_installs(old(blueprint)@, names, args.local)
                        == crate::blueprint::bp_after_installs(
                        blueprint@,
                        names.skip(i as int),
                        args.local,
                    ),
                decreases n - i,
            {
                proof {
                    assert(names.skip(i as int)[0] == names[i as int]);
                    assert(names.skip(i as int).skip(1) =~= names.skip(i + 1));
                    assert(names[i as int] == args.names@[i as int]@);
                }
                match blueprint.add(args.names[i].as_str(), false, None, None, args.local) {
                    Ok(()) => {},
                    Err(e) => {
                        return Err(e);
                    },
                }
                i = i + 1;
            }
            proof {
                assert(names.skip(n as int).len() == 0);
            }
            Ok(true)
        },
        SubCmd::Remove(args) => {
            let ghost names = args.names@.map(|_i: int, s: String| s@);
            let n = args.names.len();
            let mut i: usize = 0;
            proof {
                assert(names.skip(0) =~= names);
            }
            while i < n
                invariant
                    0 <= i <= n,
                    n == names.len(),
                    crate::blueprint::bp_names_unique(blueprint@),
                    crate::blueprint::bp_after_removes(
                        old(blueprint)@,
                        names,
                        args.remove_recommends,
                    ) == crate::blueprint::bp_after_removes(
                        blueprint@,
                        names.skip(i as int),
                        args.remove_recommends,
                    ),
                decreases n - i,
            {
                proof {
                    assert(names.skip(i as int)[0] == names[i as int]);
                    assert(names.skip(i as int).skip(1) =~= names.skip(i + 1));
                    assert(names[i as int] == args.names@[i as int]@);
                }
                match blueprint.remove(args.names[i].as_str(), args.remove_recommends) {
                    Ok(()) => {},
                    Err(e) => {
                        return Err(e);
                    },
                }
                i = i + 1;
            }
            proof {
                assert(names.skip(n as int).len() == 0);
            }
            Ok(true)
        },
        _ => Ok(false),
    }
}

} // verus!
