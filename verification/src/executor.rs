//! Planning the calls to the installation backend: the ordered command
//! batches for a set of actions, and the guard that refuses to touch
//! essential packages without an explicit override.

use crate::actions::{spec_removes_essential, ActionsModel, PkgActions};
use crate::machine::{MachineStatus, StatusModel};
use vstd::prelude::*;
use vstd::string::StringSliceAdditionalSpecFns;

verus! {

/// One backend invocation: the operation flag followed by its package
/// names or file paths.
pub struct DpkgBatch {
    pub flag: String,
    pub items: Vec<String>,
}

/// Model of a batch.
pub struct BatchModel {
    pub flag: Seq<char>,
    pub items: Seq<Seq<char>>,
}

impl View for DpkgBatch {
    type V = BatchModel;

    open spec fn view(&self) -> BatchModel {
        BatchModel {
            flag: self.flag@,
            items: self.items@.map(|_i: int, s: String| s@),
        }
    }
}

/// Execution is allowed unless essential packages would leave the
/// system without the override having been granted.
pub open spec fn execution_allowed(
    ms: Seq<StatusModel>,
    a: ActionsModel,
    allow_remove_essential: bool,
) -> bool {
    spec_removes_essential(ms, a) ==> allow_remove_essential
}

/// Refuses to run when essential packages would be removed.
#[derive(Clone, Copy, Debug, PartialEq, Eq, Structural)]
pub enum ExecutionError {
    RemovesEssential,
}

/// Decide, before anything is invoked, whether these actions may be
/// executed on this machine.
pub fn check_execution_allowed(
    ms: &MachineStatus,
    actions: &PkgActions,
    allow_remove_essential: bool,
) -> (r: Result<(), ExecutionError>)
    ensures
        match r {
            Ok(()) => execution_allowed(ms@, actions@, allow_remove_essential),
            Err(_) => !execution_allowed(ms@, actions@, allow_remove_essential),
        },
{
    if ms.removes_essential(actions) && !allow_remove_essential {
        Err(ExecutionError::RemovesEssential)
    } else {
        Ok(())
    }
}

/// Copy a list of names.
fn copy_names(v: &Vec<String>) -> (r: Vec<String>)
    ensures
        r@.map(|_i: int, s: String| s@) == v@.map(|_i: int, s: String| s@),
{
    let mut out: Vec<String> = Vec::new();
    let mut i: usize = 0;
    while i < v.len()
        invariant
            0 <= i <= v@.len(),
            out@.map(|_i: int, s: String| s@) =~= v@.map(|_i: int, s: String| s@).take(i as int),
        decreases v@.len() - i,
    {
        let ghost before = out@;
        out.push(v[i].clone());
        proof {
            assert(out@.map(|_i: int, s: String| s@) =~= before.map(|_i: int, s: String| s@).push(
                v@[i as int]@,
            ));
            assert(v@.map(|_i: int, s: String| s@).take(i + 1) =~= v@.map(
                |_i: int, s: String| s@,
            ).take(i as int).push(v@.map(|_i: int, s: String| s@)[i as int]));
        }
        i = i + 1;
    }
    proof {
        assert(v@.map(|_i: int, s: String| s@).take(v@.len() as int) =~= v@.map(
            |_i: int, s: String| s@,
        ));
    }
    out
}

/// The names of the packages an install list touches, in order: these
/// become the backend's file arguments once the artifacts are staged.
pub open spec fn install_names(s: Seq<(crate::actions::InstallModel, Option<
    crate::version::VersionModel,
>)>) -> Seq<Seq<char>> {
    s.map(|_i: int, p: (crate::actions::InstallModel, Option<crate::version::VersionModel>)| p.0.name)
}

fn copy_install_names(v: &Vec<(crate::actions::PkgInstallAction, Option<
    crate::version::PkgVersion,
>)>) -> (r: Vec<String>)
    ensures
        r@.map(|_i: int, s: String| s@) == install_names(crate::actions::installs_view(v@)),
{
    let mut out: Vec<String> = Vec::new();
    let mut i: usize = 0;
    while i < v.len()
        invariant
            0 <= i <= v@.len(),
            out@.map(|_i: int, s: String| s@) =~= install_names(
                crate::actions::installs_view(v@),
            ).take(i as int),
        decreases v@.len() - i,
    {
        let ghost before = out@;
        out.push(v[i].0.name.clone());
        proof {
            assert(out@.map(|_i: int, s: String| s@) =~= before.map(|_i: int, s: String| s@).push(
                v@[i as int].0.name@,
            ));
            assert(install_names(crate::actions::installs_view(v@)).take(i + 1) =~= install_names(
                crate::actions::installs_view(v@),
            ).take(i as int).push(install_names(crate::actions::installs_view(v@))[i as int]));
        }
        i = i + 1;
    }
    proof {
        assert(install_names(crate::actions::installs_view(v@)).take(v@.len() as int)
            =~= install_names(crate::actions::installs_view(v@)));
    }
    out
}

/// The strict backend order: purge, then remove, then — in an
/// alternative root — unpack of everything staged, otherwise configure
/// and then install.  Empty batches are left out.
pub open spec fn spec_batches(a: ActionsModel, unpack_only: bool) -> Seq<BatchModel> {
    let purge_part: Seq<BatchModel> = if a.purge.len() > 0 {
        seq![BatchModel { flag: "--purge"@, items: a.purge }]
    } else {
        Seq::<BatchModel>::empty()
    };
    let remove_part: Seq<BatchModel> = if a.remove.len() > 0 {
        seq![BatchModel { flag: "--remove"@, items: a.remove }]
    } else {
        Seq::<BatchModel>::empty()
    };
    let tail: Seq<BatchModel> = if unpack_only {
        let staged = install_names(a.unpack) + install_names(a.install);
        if staged.len() > 0 {
            seq![BatchModel { flag: "--unpack"@, items: staged }]
        } else {
            Seq::<BatchModel>::empty()
        }
    } else {
        let cfg: Seq<BatchModel> = if a.configure.len() > 0 {
            seq![BatchModel { flag: "--configure"@, items: a.configure }]
        } else {
            Seq::<BatchModel>::empty()
        };
        let inst: Seq<BatchModel> = if a.install.len() > 0 {
            seq![BatchModel { flag: "--install"@, items: install_names(a.install) }]
        } else {
            Seq::<BatchModel>::empty()
        };
        cfg + inst
    };
    purge_part + remove_part + tail
}

/// Lay the actions out as backend batches in the strict order
/// purge, remove, then unpack (alternative root) or configure and
/// install.
pub fn plan_dpkg_batches(actions: &PkgActions, unpack_only: bool) -> (r: Vec<DpkgBatch>)
    ensures
        r@.map(|_i: int, b: DpkgBatch| b@) == spec_batches(actions@, unpack_only),
{
    let mut out: Vec<DpkgBatch> = Vec::new();
    if actions.purge.len() > 0 {
        out.push(DpkgBatch { flag: String::from_str("--purge"), items: copy_names(&actions.purge) });
    }
    if actions.remove.len() > 0 {
        out.push(
            DpkgBatch { flag: String::from_str("--remove"), items: copy_names(&actions.remove) },
        );
    }
    if unpack_only {
        let mut staged = copy_install_names(&actions.unpack);
        let mut more = copy_install_names(&actions.install);
        let ghost staged_before = staged@;
        staged.append(&mut more);
        proof {
            assert(staged@.map(|_i: int, s: String| s@) =~= install_names(actions@.unpack)
                + install_names(actions@.install));
        }
        if staged.len() > 0 {
            out.push(DpkgBatch { flag: String::from_str("--unpack"), items: staged });
        }
    } else {
        if actions.configure.len() > 0 {
            out.push(
                DpkgBatch {
                    flag: String::from_str("--configure"),
                    items: copy_names(&actions.configure),
                },
            );
        }
        if actions.install.len() > 0 {
            out.push(
                DpkgBatch {
                    flag: String::from_str("--install"),
                    items: copy_install_names(&actions.install),
                },
            );
        }
    }
    proof {
        reveal_strlit("--purge");
        reveal_strlit("--remove");
        reveal_strlit("--unpack");
        reveal_strlit("--configure");
        reveal_strlit("--install");
        assert(r_map_matches(out@, actions@, unpack_only)) by {
            assert(out@.map(|_i: int, b: DpkgBatch| b@) =~= spec_batches(actions@, unpack_only));
        }
    }
    out
}

/// The planned batches equal the specified layout.
pub open spec fn r_map_matches(out: Seq<DpkgBatch>, a: ActionsModel, unpack_only: bool) -> bool {
    out.map(|_i: int, b: DpkgBatch| b@) == spec_batches(a, unpack_only)
}

} // verus!
