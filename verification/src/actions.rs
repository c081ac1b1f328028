//! The action diff engine: comparing the solver's target set with the
//! observed machine state yields the ordered lists of installs,
//! removals, purges and configures that reconcile the two.

use crate::checksum::{Checksum, ChecksumModel};
use crate::machine::{status_of, MachineStatus, PkgState, StatusModel};
use crate::pool::{PkgMeta, PkgMetaModel, PkgSource, SourceModel};
use crate::version::{version_cmp, version_compare, PkgVersion, VersionModel};
use vstd::prelude::*;
use vstd::string::StringSliceAdditionalSpecFns;

verus! {

/// One fetch-and-install step.
pub struct PkgInstallAction {
    pub name: String,
    pub url: String,
    pub size: u64,
    /// Expected checksum of the artifact; a package installed from a
    /// local file carries none.
    pub checksum: Option<Checksum>,
    pub version: PkgVersion,
}

/// Model of an install step.
pub struct InstallModel {
    pub name: Seq<char>,
    pub url: Seq<char>,
    pub size: nat,
    pub checksum: Option<ChecksumModel>,
    pub version: VersionModel,
}

impl View for PkgInstallAction {
    type V = InstallModel;

    open spec fn view(&self) -> InstallModel {
        InstallModel {
            name: self.name@,
            url: self.url@,
            size: self.size as nat,
            checksum: match self.checksum {
                Option::None => Option::None,
                Option::Some(c) => Option::Some(c@),
            },
            version: self.version@,
        }
    }
}

impl Clone for PkgInstallAction {
    fn clone(&self) -> (res: Self)
        ensures
            res@ == self@,
    {
        PkgInstallAction {
            name: self.name.clone(),
            url: self.url.clone(),
            size: self.size,
            checksum: match &self.checksum {
                Option::None => Option::None,
                Option::Some(c) => Option::Some(c.clone()),
            },
            version: self.version.clone(),
        }
    }
}

/// The ordered action lists against the installation backend.
pub struct PkgActions {
    pub install: Vec<(PkgInstallAction, Option<PkgVersion>)>,
    pub unpack: Vec<(PkgInstallAction, Option<PkgVersion>)>,
    pub remove: Vec<String>,
    pub purge: Vec<String>,
    pub configure: Vec<String>,
}

/// Model of the action lists.
pub struct ActionsModel {
    pub install: Seq<(InstallModel, Option<VersionModel>)>,
    pub unpack: Seq<(InstallModel, Option<VersionModel>)>,
    pub remove: Seq<Seq<char>>,
    pub purge: Seq<Seq<char>>,
    pub configure: Seq<Seq<char>>,
}

pub open spec fn installs_view(s: Seq<(PkgInstallAction, Option<PkgVersion>)>) -> Seq<
    (InstallModel, Option<VersionModel>),
> {
    s.map(
        |_i: int, p: (PkgInstallAction, Option<PkgVersion>)|
            (
                p.0@,
                match p.1 {
                    Option::None => Option::<VersionModel>::None,
                    Option::Some(v) => Option::Some(v@),
                },
            ),
    )
}

pub open spec fn names_list_view(s: Seq<String>) -> Seq<Seq<char>> {
    s.map(|_i: int, n: String| n@)
}

impl View for PkgActions {
    type V = ActionsModel;

    open spec fn view(&self) -> ActionsModel {
        ActionsModel {
            install: installs_view(self.install@),
            unpack: installs_view(self.unpack@),
            remove: names_list_view(self.remove@),
            purge: names_list_view(self.purge@),
            configure: names_list_view(self.configure@),
        }
    }
}

/// All five lists are empty.
pub open spec fn actions_empty(a: ActionsModel) -> bool {
    a.install.len() == 0 && a.unpack.len() == 0 && a.remove.len() == 0 && a.purge.len() == 0
        && a.configure.len() == 0
}

/// Alters generated actions before execution (the alternative-root mode
/// turns installs into mere unpacks).
pub trait PkgActionModifier {
    fn apply(&self, actions: &mut PkgActions);
}

/// In an alternative root nothing can be configured, so every install
/// becomes an unpack.
pub struct UnpackOnly {}

impl Default for UnpackOnly {
    fn default() -> (r: UnpackOnly) {
        UnpackOnly {  }
    }
}

impl UnpackOnly {
    /// Move every install step to the unpack list.
    pub fn make_unpack_only(&self, actions: &mut PkgActions)
        ensures
            final(actions)@.install.len() == 0,
            final(actions)@.unpack == old(actions)@.unpack + old(actions)@.install,
            final(actions)@.remove == old(actions)@.remove,
            final(actions)@.purge == old(actions)@.purge,
            final(actions)@.configure == old(actions)@.configure,
    {
        let mut moved: Vec<(PkgInstallAction, Option<PkgVersion>)> = Vec::new();
        core::mem::swap(&mut moved, &mut actions.install);
        actions.unpack.append(&mut moved);
        proof {
            assert(installs_view(Seq::<(PkgInstallAction, Option<PkgVersion>)>::empty()) =~= Seq::<
                (InstallModel, Option<VersionModel>),
            >::empty());
            assert(installs_view(old(actions).unpack@ + old(actions).install@) =~= installs_view(
                old(actions).unpack@,
            ) + installs_view(old(actions).install@));
        }
    }
}

impl PkgActionModifier for UnpackOnly {
    fn apply(&self, actions: &mut PkgActions) {
        self.make_unpack_only(actions);
    }
}

impl PkgActions {
    /// An empty action set.
    pub fn new() -> (r: PkgActions)
        ensures
            actions_empty(r@),
    {
        PkgActions {
            install: Vec::new(),
            unpack: Vec::new(),
            remove: Vec::new(),
            purge: Vec::new(),
            configure: Vec::new(),
        }
    }

    /// Nothing at all to do?
    pub fn is_empty(&self) -> (r: bool)
        ensures
            r == actions_empty(self@),
    {
        self.install.len() == 0 && self.unpack.len() == 0 && self.remove.len() == 0
            && self.purge.len() == 0 && self.configure.len() == 0
    }

    /// Total bytes to fetch for the install and unpack steps,
    /// saturating at the integer limit.
    pub fn download_size(&self) -> (r: u64)
        ensures
            r as nat == cap_u64(spec_download_size(self@)),
    {
        let mut total: u64 = 0;
        let mut i: usize = 0;
        let n = self.install.len();
        proof {
            assert(installs_view(self.install@).take(0) =~= Seq::<
                (InstallModel, Option<VersionModel>),
            >::empty());
        }
        while i < n
            invariant
                0 <= i <= n,
                n == self.install@.len(),
                total as nat == cap_u64(sum_sizes(installs_view(self.install@).take(i as int))),
            decreases n - i,
        {
            let sz = self.install[i].0.size;
            proof {
                assert(installs_view(self.install@).take(i + 1) =~= installs_view(
                    self.install@,
                ).take(i as int).push(installs_view(self.install@)[i as int]));
                lemma_sum_sizes_push(
                    installs_view(self.install@).take(i as int),
                    installs_view(self.install@)[i as int],
                );
            }
            if u64::MAX - total >= sz {
                total = total + sz;
            } else {
                total = u64::MAX;
            }
            i = i + 1;
        }
        let mut j: usize = 0;
        let m = self.unpack.len();
        proof {
            assert(installs_view(self.install@).take(n as int) =~= installs_view(self.install@));
            assert(installs_view(self.unpack@).take(0) =~= Seq::<
                (InstallModel, Option<VersionModel>),
            >::empty());
            assert(sum_sizes(installs_view(self.unpack@).take(0)) == 0);
        }
        while j < m
            invariant
                0 <= j <= m,
                m == self.unpack@.len(),
                n == self.install@.len(),
                total as nat == cap_u64(
                    sum_sizes(installs_view(self.install@)) + sum_sizes(
                        installs_view(self.unpack@).take(j as int),
                    ),
                ),
            decreases m - j,
        {
            let sz = self.unpack[j].0.size;
            proof {
                assert(installs_view(self.unpack@).take(j + 1) =~= installs_view(
                    self.unpack@,
                ).take(j as int).push(installs_view(self.unpack@)[j as int]));
                lemma_sum_sizes_push(
                    installs_view(self.unpack@).take(j as int),
                    installs_view(self.unpack@)[j as int],
                );
            }
            if u64::MAX - total >= sz {
                total = total + sz;
            } else {
                total = u64::MAX;
            }
            j = j + 1;
        }
        proof {
            assert(installs_view(self.unpack@).take(m as int) =~= installs_view(self.unpack@));
        }
        total
    }
}

/// `n`, capped at the largest 64-bit value.
pub open spec fn cap_u64(n: nat) -> nat {
    if n > u64::MAX {
        u64::MAX as nat
    } else {
        n
    }
}

/// The characters of a version in its canonical written form.
pub open spec fn version_chars(v: VersionModel) -> Seq<char> {
    crate::text::bytes_as_chars(crate::version::spec_render_version(v))
}

/// The message line of one install step: `name(version)` for a fresh
/// install, `name(old -> new)` for a version change.
pub open spec fn install_line(m: InstallModel, old: Option<VersionModel>) -> Seq<char> {
    match old {
        Option::None => m.name + "("@ + version_chars(m.version) + ")"@,
        Option::Some(o) => m.name + "("@ + version_chars(o) + " -> "@ + version_chars(m.version)
            + ")"@,
    }
}

impl PkgActions {
    /// The message lines of the install (or unpack) steps, in order.
    #[verifier::loop_isolation(false)]
    pub fn render_install_lines(steps: &Vec<(PkgInstallAction, Option<PkgVersion>)>) -> (r: Vec<
        String,
    >)
        requires
            forall|k: int|
                0 <= k < steps@.len() ==> crate::version::wf_version(
                    #[trigger] steps@[k].0.version@,
                ) && (match steps@[k].1 {
                    Option::Some(o) => crate::version::wf_version(o@),
                    Option::None => true,
                }),
        ensures
            r@.map(|_i: int, s: String| s@) == installs_view(steps@).map(
                |_i: int, p: (InstallModel, Option<VersionModel>)| install_line(p.0, p.1),
            ),
    {
        let ghost goal = installs_view(steps@).map(
            |_i: int, p: (InstallModel, Option<VersionModel>)| install_line(p.0, p.1),
        );
        let mut out: Vec<String> = Vec::new();
        let n = steps.len();
        let mut k: usize = 0;
        proof {
            assert(out@.map(|_i: int, s: String| s@) =~= goal.take(0));
        }
        while k < n
            invariant
                0 <= k <= n,
                out@.map(|_i: int, s: String| s@) == goal.take(k as int),
            decreases n - k,
        {
            let step = &steps[k];
            proof {
                assert(crate::version::wf_version(steps@[k as int].0.version@));
            }
            let mut line = step.0.name.clone();
            line.append("(");
            match &step.1 {
                Option::Some(o) => {
                    let old_str = o.to_display_string();
                    line.append(old_str.as_str());
                    line.append(" -> ");
                },
                Option::None => {},
            }
            let new_str = step.0.version.to_display_string();
            line.append(new_str.as_str());
            line.append(")");
            let ghost before = out@;
            out.push(line);
            proof {
                assert(out@.map(|_i: int, s: String| s@) =~= before.map(
                    |_i: int, s: String| s@,
                ).push(out@[before.len() as int]@));
                assert(out@[before.len() as int]@ == install_line(
                    installs_view(steps@)[k as int].0,
                    installs_view(steps@)[k as int].1,
                ));
                assert(goal.take(k + 1) =~= goal.take(k as int).push(goal[k as int]));
            }
            k = k + 1;
        }
        proof {
            assert(goal.take(n as int) =~= goal);
        }
        out
    }
}

/// The fresh-install steps (no recorded old version), in order.
pub open spec fn fresh_steps(s: Seq<(InstallModel, Option<VersionModel>)>) -> Seq<
    (InstallModel, Option<VersionModel>),
> {
    s.filter(|p: (InstallModel, Option<VersionModel>)| p.1 is None)
}

/// The upgrade steps (an old version recorded), in order.
pub open spec fn upgrade_steps(s: Seq<(InstallModel, Option<VersionModel>)>) -> Seq<
    (InstallModel, Option<VersionModel>),
> {
    s.filter(|p: (InstallModel, Option<VersionModel>)| p.1 is Some)
}

proof fn lemma_steps_filter_push(
    s: Seq<(InstallModel, Option<VersionModel>)>,
    e: (InstallModel, Option<VersionModel>),
)
    ensures
        fresh_steps(s.push(e)) == if e.1 is None {
            fresh_steps(s).push(e)
        } else {
            fresh_steps(s)
        },
        upgrade_steps(s.push(e)) == if e.1 is Some {
            upgrade_steps(s).push(e)
        } else {
            upgrade_steps(s)
        },
{
    reveal(Seq::filter);
    assert(s.push(e).drop_last() =~= s);
    assert(s.push(e).last() == e);
}

/// Split the install steps into fresh installs and upgrades, each in its
/// original order: the two message chunks shown before execution.
#[verifier::loop_isolation(false)]
pub fn split_install_steps(steps: &Vec<(PkgInstallAction, Option<PkgVersion>)>) -> (r: (
    Vec<(PkgInstallAction, Option<PkgVersion>)>,
    Vec<(PkgInstallAction, Option<PkgVersion>)>,
))
    ensures
        installs_view(r.0@) == fresh_steps(installs_view(steps@)),
        installs_view(r.1@) == upgrade_steps(installs_view(steps@)),
{
    let ghost sv = installs_view(steps@);
    let mut fresh: Vec<(PkgInstallAction, Option<PkgVersion>)> = Vec::new();
    let mut upgrades: Vec<(PkgInstallAction, Option<PkgVersion>)> = Vec::new();
    let n = steps.len();
    let mut k: usize = 0;
    proof {
        reveal(Seq::filter);
        assert(installs_view(fresh@) =~= fresh_steps(sv.take(0)));
        assert(installs_view(upgrades@) =~= upgrade_steps(sv.take(0)));
    }
    while k < n
        invariant
            0 <= k <= n,
            n == sv.len(),
            installs_view(fresh@) == fresh_steps(sv.take(k as int)),
            installs_view(upgrades@) == upgrade_steps(sv.take(k as int)),
        decreases n - k,
    {
        proof {
            assert(sv.take(k + 1) =~= sv.take(k as int).push(sv[k as int]));
            lemma_steps_filter_push(sv.take(k as int), sv[k as int]);
        }
        let act = steps[k].0.clone();
        let old_v = match &steps[k].1 {
            Option::Some(v) => Option::Some(v.clone()),
            Option::None => Option::None,
        };
        let ghost before_f = fresh@;
        let ghost before_u = upgrades@;
        match &steps[k].1 {
            Option::None => {
                fresh.push((act, old_v));
                proof {
                    assert(installs_view(fresh@) =~= installs_view(before_f).push(sv[k as int]));
                }
            },
            Option::Some(_) => {
                upgrades.push((act, old_v));
                proof {
                    assert(installs_view(upgrades@) =~= installs_view(before_u).push(
                        sv[k as int],
                    ));
                }
            },
        }
        k = k + 1;
    }
    proof {
        assert(sv.take(n as int) =~= sv);
    }
    (fresh, upgrades)
}

/// Sum of the artifact sizes of install steps.
pub open spec fn sum_sizes(s: Seq<(InstallModel, Option<VersionModel>)>) -> nat
    decreases s.len(),
{
    if s.len() == 0 {
        0nat
    } else {
        (sum_sizes(s.drop_last()) + s.last().0.size) as nat
    }
}

proof fn lemma_sum_sizes_push(s: Seq<(InstallModel, Option<VersionModel>)>, e: (
    InstallModel,
    Option<VersionModel>,
))
    ensures
        sum_sizes(s.push(e)) == sum_sizes(s) + e.0.size,
{
    assert(s.push(e).drop_last() =~= s);
    assert(s.push(e).last() == e);
}

/// Total bytes the actions will download.
pub open spec fn spec_download_size(a: ActionsModel) -> nat {
    sum_sizes(a.install) + sum_sizes(a.unpack)
}

/// Model of a target list.
pub open spec fn metas_view(s: Seq<PkgMeta>) -> Seq<PkgMetaModel> {
    s.map(|_i: int, m: PkgMeta| m@)
}

/// Some target carries this name.
pub open spec fn covered(ts: Seq<PkgMetaModel>, name: Seq<char>) -> bool {
    exists|k: int| 0 <= k < ts.len() && #[trigger] ts[k].name == name
}

/// The install step a target record turns into.
pub open spec fn install_of(t: PkgMetaModel) -> InstallModel {
    match t.source {
        SourceModel::Http(url, size, ck) => InstallModel {
            name: t.name,
            url,
            size,
            checksum: Option::Some(ck),
            version: t.version,
        },
        SourceModel::Local(path) => InstallModel {
            name: t.name,
            url: path,
            size: 0,
            checksum: Option::None,
            version: t.version,
        },
    }
}

/// What one target demands against the machine state: nothing when the
/// exact version is already installed, otherwise an install step that
/// records the outgoing version, if any.
pub open spec fn target_step(ms: Seq<StatusModel>, t: PkgMetaModel) -> Option<
    (InstallModel, Option<VersionModel>),
> {
    match status_of(ms, t.name) {
        Option::Some(st) => if st.state == PkgState::Installed && version_cmp(
            st.version,
            t.version,
        ) == 0 {
            Option::None
        } else {
            Option::Some((install_of(t), Option::Some(st.version)))
        },
        Option::None => Option::Some((install_of(t), Option::None)),
    }
}

/// The install list the targets demand, in target order.
pub open spec fn gen_install(ms: Seq<StatusModel>, ts: Seq<PkgMetaModel>) -> Seq<
    (InstallModel, Option<VersionModel>),
>
    decreases ts.len(),
{
    if ts.len() == 0 {
        Seq::<(InstallModel, Option<VersionModel>)>::empty()
    } else {
        match target_step(ms, ts[0]) {
            Option::Some(a) => seq![a] + gen_install(ms, ts.skip(1)),
            Option::None => gen_install(ms, ts.skip(1)),
        }
    }
}

/// The installed bytes one target brings in: its installed size when the
/// diff installs it, nothing when the machine already has that exact
/// version.
pub open spec fn gain_of(ms: Seq<StatusModel>, t: PkgMetaModel) -> nat {
    if target_step(ms, t) is Some {
        t.install_size
    } else {
        0nat
    }
}

/// The installed bytes one target's installation displaces: the size the
/// status database records for the version it replaces.
pub open spec fn displaced_of(ms: Seq<StatusModel>, t: PkgMetaModel) -> nat {
    if target_step(ms, t) is Some {
        match status_of(ms, t.name) {
            Option::Some(st) => st.install_size,
            Option::None => 0nat,
        }
    } else {
        0nat
    }
}

/// Installed bytes the whole target set brings in.
pub open spec fn sum_gain(ms: Seq<StatusModel>, ts: Seq<PkgMetaModel>) -> nat
    decreases ts.len(),
{
    if ts.len() == 0 {
        0nat
    } else {
        (sum_gain(ms, ts.drop_last()) + gain_of(ms, ts.last())) as nat
    }
}

/// Installed bytes the target set's upgrades displace.
pub open spec fn sum_displaced(ms: Seq<StatusModel>, ts: Seq<PkgMetaModel>) -> nat
    decreases ts.len(),
{
    if ts.len() == 0 {
        0nat
    } else {
        (sum_displaced(ms, ts.drop_last()) + displaced_of(ms, ts.last())) as nat
    }
}

/// The installed bytes one machine record frees: its recorded size when
/// it is installed and no target covers it (it leaves the system).
pub open spec fn removal_of(m: StatusModel, ts: Seq<PkgMetaModel>) -> nat {
    if m.state == PkgState::Installed && !covered(ts, m.name) {
        m.install_size
    } else {
        0nat
    }
}

/// Installed bytes the records no target covers free.
pub open spec fn sum_removed(ms: Seq<StatusModel>, ts: Seq<PkgMetaModel>) -> nat
    decreases ms.len(),
{
    if ms.len() == 0 {
        0nat
    } else {
        (sum_removed(ms.drop_last(), ts) + removal_of(ms.last(), ts)) as nat
    }
}

proof fn lemma_sum_targets_push(ms: Seq<StatusModel>, ts: Seq<PkgMetaModel>, t: PkgMetaModel)
    ensures
        sum_gain(ms, ts.push(t)) == sum_gain(ms, ts) + gain_of(ms, t),
        sum_displaced(ms, ts.push(t)) == sum_displaced(ms, ts) + displaced_of(ms, t),
{
    assert(ts.push(t).drop_last() =~= ts);
    assert(ts.push(t).last() == t);
}

proof fn lemma_sum_removed_push(ms: Seq<StatusModel>, ts: Seq<PkgMetaModel>, m: StatusModel)
    ensures
        sum_removed(ms.push(m), ts) == sum_removed(ms, ts) + removal_of(m, ts),
{
    assert(ms.push(m).drop_last() =~= ms);
    assert(ms.push(m).last() == m);
}

/// The machine record's state is one of dpkg's half-done states.
pub open spec fn half_done(st: PkgState) -> bool {
    st == PkgState::HalfInstalled || st == PkgState::HalfConfigured || st == PkgState::Unpacked
        || st == PkgState::TriggersAwaited || st == PkgState::TriggersPending
}

/// Names of installed records no target covers: these leave the system.
pub open spec fn gen_removals(ms: Seq<StatusModel>, ts: Seq<PkgMetaModel>) -> Seq<Seq<char>>
    decreases ms.len(),
{
    if ms.len() == 0 {
        Seq::<Seq<char>>::empty()
    } else if ms[0].state == PkgState::Installed && !covered(ts, ms[0].name) {
        seq![ms[0].name] + gen_removals(ms.skip(1), ts)
    } else {
        gen_removals(ms.skip(1), ts)
    }
}

/// Names of half-done records no target covers: these get configured
/// to bring the system back to a coherent state.
pub open spec fn gen_configures(ms: Seq<StatusModel>, ts: Seq<PkgMetaModel>) -> Seq<Seq<char>>
    decreases ms.len(),
{
    if ms.len() == 0 {
        Seq::<Seq<char>>::empty()
    } else if half_done(ms[0].state) && !covered(ts, ms[0].name) {
        seq![ms[0].name] + gen_configures(ms.skip(1), ts)
    } else {
        gen_configures(ms.skip(1), ts)
    }
}

/// The full diff between the target set and the machine state.
pub open spec fn gen_model(ms: Seq<StatusModel>, ts: Seq<PkgMetaModel>, purge: bool) -> ActionsModel {
    ActionsModel {
        install: gen_install(ms, ts),
        unpack: Seq::<(InstallModel, Option<VersionModel>)>::empty(),
        remove: if purge {
            Seq::<Seq<char>>::empty()
        } else {
            gen_removals(ms, ts)
        },
        purge: if purge {
            gen_removals(ms, ts)
        } else {
            Seq::<Seq<char>>::empty()
        },
        configure: gen_configures(ms, ts),
    }
}

proof fn lemma_gen_install_push(ms: Seq<StatusModel>, ts: Seq<PkgMetaModel>, t: PkgMetaModel)
    ensures
        gen_install(ms, ts.push(t)) == (match target_step(ms, t) {
            Option::Some(a) => gen_install(ms, ts).push(a),
            Option::None => gen_install(ms, ts),
        }),
    decreases ts.len(),
{
    if ts.len() == 0 {
        assert(ts =~= Seq::<PkgMetaModel>::empty());
        assert(ts.push(t)[0] == t);
        assert(ts.push(t).skip(1) =~= ts);
        assert(gen_install(ms, ts) =~= Seq::<(InstallModel, Option<VersionModel>)>::empty());
        match target_step(ms, t) {
            Option::Some(a) => {
                assert(gen_install(ms, ts.push(t)) == seq![a] + gen_install(ms, ts));
                assert(seq![a] + gen_install(ms, ts) =~= gen_install(ms, ts).push(a));
            },
            Option::None => {},
        }
    } else {
        assert(ts.push(t)[0] == ts[0]);
        assert(ts.push(t).skip(1) =~= ts.skip(1).push(t));
        lemma_gen_install_push(ms, ts.skip(1), t);
        match target_step(ms, t) {
            Option::Some(a) => {
                assert(gen_install(ms, ts.push(t)) =~= gen_install(ms, ts).push(a));
            },
            Option::None => {},
        }
    }
}

proof fn lemma_gen_removals_push(ms: Seq<StatusModel>, ts: Seq<PkgMetaModel>, e: StatusModel)
    ensures
        gen_removals(ms.push(e), ts) == (if e.state == PkgState::Installed && !covered(ts, e.name) {
            gen_removals(ms, ts).push(e.name)
        } else {
            gen_removals(ms, ts)
        }),
    decreases ms.len(),
{
    if ms.len() == 0 {
        assert(ms =~= Seq::<StatusModel>::empty());
        assert(ms.push(e)[0] == e);
        assert(ms.push(e).skip(1) =~= ms);
        assert(gen_removals(ms, ts) =~= Seq::<Seq<char>>::empty());
        if e.state == PkgState::Installed && !covered(ts, e.name) {
            assert(gen_removals(ms.push(e), ts) == seq![e.name] + gen_removals(ms, ts));
            assert(seq![e.name] + gen_removals(ms, ts) =~= gen_removals(ms, ts).push(e.name));
        }
    } else {
        assert(ms.push(e)[0] == ms[0]);
        assert(ms.push(e).skip(1) =~= ms.skip(1).push(e));
        lemma_gen_removals_push(ms.skip(1), ts, e);
        if e.state == PkgState::Installed && !covered(ts, e.name) {
            assert(gen_removals(ms.push(e), ts) =~= gen_removals(ms, ts).push(e.name));
        }
    }
}

proof fn lemma_gen_configures_push(ms: Seq<StatusModel>, ts: Seq<PkgMetaModel>, e: StatusModel)
    ensures
        gen_configures(ms.push(e), ts) == (if half_done(e.state) && !covered(ts, e.name) {
            gen_configures(ms, ts).push(e.name)
        } else {
            gen_configures(ms, ts)
        }),
    decreases ms.len(),
{
    if ms.len() == 0 {
        assert(ms =~= Seq::<StatusModel>::empty());
        assert(ms.push(e)[0] == e);
        assert(ms.push(e).skip(1) =~= ms);
        assert(gen_configures(ms, ts) =~= Seq::<Seq<char>>::empty());
        if half_done(e.state) && !covered(ts, e.name) {
            assert(gen_configures(ms.push(e), ts) == seq![e.name] + gen_configures(ms, ts));
            assert(seq![e.name] + gen_configures(ms, ts) =~= gen_configures(ms, ts).push(e.name));
        }
    } else {
        assert(ms.push(e)[0] == ms[0]);
        assert(ms.push(e).skip(1) =~= ms.skip(1).push(e));
        lemma_gen_configures_push(ms.skip(1), ts, e);
        if half_done(e.state) && !covered(ts, e.name) {
            assert(gen_configures(ms.push(e), ts) =~= gen_configures(ms, ts).push(e.name));
        }
    }
}

/// Does some target carry this name?
#[verifier::loop_isolation(false)]
fn exec_covered(targets: &Vec<PkgMeta>, name: &str) -> (r: bool)
    ensures
        r == covered(metas_view(targets@), name@),
{
    let n = targets.len();
    let mut k: usize = 0;
    while k < n
        invariant
            0 <= k <= n,
            forall|j: int| 0 <= j < k ==> metas_view(targets@)[j].name != name@,
        decreases n - k,
    {
        if crate::text::str_eq(targets[k].name.as_str(), name) {
            proof {
                assert(metas_view(targets@)[k as int].name == name@);
            }
            return true;
        }
        k = k + 1;
    }
    false
}

/// The install step for one target.
fn exec_install_of(t: &PkgMeta) -> (r: PkgInstallAction)
    ensures
        r@ == install_of(t@),
{
    match &t.source {
        PkgSource::Http(url, size, ck) => PkgInstallAction {
            name: t.name.clone(),
            url: url.clone(),
            size: *size,
            checksum: Option::Some(ck.clone()),
            version: t.version.clone(),
        },
        PkgSource::Local(path) => PkgInstallAction {
            name: t.name.clone(),
            url: path.clone(),
            size: 0,
            checksum: Option::None,
            version: t.version.clone(),
        },
    }
}

impl MachineStatus {
    /// Diff the solver's target records against the machine state: an
    /// install step per target not already installed at its exact
    /// version, removal (or purge) of every installed package no target
    /// covers, and a configure for every half-done package no target
    /// covers.
    #[verifier::loop_isolation(false)]
    pub fn gen_actions(&self, targets: &Vec<PkgMeta>, purge_on_remove: bool) -> (r: PkgActions)
        ensures
            r@ == gen_model(self@, metas_view(targets@), purge_on_remove),
    {
        let tn = targets.len();
        let mut install: Vec<(PkgInstallAction, Option<PkgVersion>)> = Vec::new();
        let mut k: usize = 0;
        proof {
            assert(metas_view(targets@).take(0) =~= Seq::<PkgMetaModel>::empty());
            assert(installs_view(install@) =~= gen_install(self@, metas_view(targets@).take(0)));
        }
        while k < tn
            invariant
                0 <= k <= tn,
                installs_view(install@) == gen_install(self@, metas_view(targets@).take(k as int)),
            decreases tn - k,
        {
            let t = &targets[k];
            let ghost tm = metas_view(targets@)[k as int];
            let ghost before = install@;
            match self.get(t.name.as_str()) {
                Some(st) => {
                    let same = match st.state {
                        PkgState::Installed => version_compare(&st.version, &t.version) == 0,
                        _ => false,
                    };
                    if !same {
                        install.push((exec_install_of(t), Option::Some(st.version.clone())));
                        proof {
                            assert(installs_view(install@) =~= installs_view(before).push(
                                (install_of(tm), Option::Some(st@.version)),
                            ));
                        }
                    }
                },
                None => {
                    install.push((exec_install_of(t), Option::None));
                    proof {
                        assert(installs_view(install@) =~= installs_view(before).push(
                            (install_of(tm), Option::None),
                        ));
                    }
                },
            }
            proof {
                assert(metas_view(targets@).take(k + 1) =~= metas_view(targets@).take(
                    k as int,
                ).push(tm));
                lemma_gen_install_push(self@, metas_view(targets@).take(k as int), tm);
            }
            k = k + 1;
        }
        proof {
            assert(metas_view(targets@).take(tn as int) =~= metas_view(targets@));
        }
        // removals and configures from the machine's side
        let mut remove_names: Vec<String> = Vec::new();
        let mut configure: Vec<String> = Vec::new();
        let mn = self.pkgs.len();
        let mut m: usize = 0;
        proof {
            assert(self@.take(0) =~= Seq::<StatusModel>::empty());
            assert(names_list_view(remove_names@) =~= gen_removals(
                self@.take(0),
                metas_view(targets@),
            ));
            assert(names_list_view(configure@) =~= gen_configures(
                self@.take(0),
                metas_view(targets@),
            ));
        }
        while m < mn
            invariant
                0 <= m <= mn,
                names_list_view(remove_names@) == gen_removals(
                    self@.take(m as int),
                    metas_view(targets@),
                ),
                names_list_view(configure@) == gen_configures(
                    self@.take(m as int),
                    metas_view(targets@),
                ),
            decreases mn - m,
        {
            let e = &self.pkgs[m];
            let ghost em = self@[m as int];
            let is_covered = exec_covered(targets, e.name.as_str());
            let ghost rn_before = remove_names@;
            let ghost cf_before = configure@;
            if !is_covered {
                let installed = match e.state {
                    PkgState::Installed => true,
                    _ => false,
                };
                let half = match e.state {
                    PkgState::HalfInstalled => true,
                    PkgState::HalfConfigured => true,
                    PkgState::Unpacked => true,
                    PkgState::TriggersAwaited => true,
                    PkgState::TriggersPending => true,
                    _ => false,
                };
                if installed {
                    remove_names.push(e.name.clone());
                    proof {
                        assert(names_list_view(remove_names@) =~= names_list_view(rn_before).push(
                            em.name,
                        ));
                    }
                } else if half {
                    configure.push(e.name.clone());
                    proof {
                        assert(names_list_view(configure@) =~= names_list_view(cf_before).push(
                            em.name,
                        ));
                    }
                }
            }
            proof {
                assert(self@.take(m + 1) =~= self@.take(m as int).push(em));
                lemma_gen_removals_push(self@.take(m as int), metas_view(targets@), em);
                lemma_gen_configures_push(self@.take(m as int), metas_view(targets@), em);
            }
            m = m + 1;
        }
        proof {
            assert(self@.take(mn as int) =~= self@);
        }
        let mut remove: Vec<String> = Vec::new();
        let mut purge: Vec<String> = Vec::new();
        if purge_on_remove {
            purge = remove_names;
        } else {
            remove = remove_names;
        }
        let r = PkgActions { install, unpack: Vec::new(), remove, purge, configure };
        proof {
            assert(installs_view(Seq::<(PkgInstallAction, Option<PkgVersion>)>::empty()) =~= Seq::<
                (InstallModel, Option<VersionModel>),
            >::empty());
            assert(names_list_view(Seq::<String>::empty()) =~= Seq::<Seq<char>>::empty());
        }
        r
    }

    /// The installed-size swing of the diff against the target set: the
    /// bytes the planned installs add, and the bytes the replaced
    /// versions and the removed records free (as the status database
    /// records their sizes), each sum saturating at `u64::MAX`.  The
    /// operation's signed size change is the first minus the second.
    #[verifier::loop_isolation(false)]
    pub fn size_change(&self, targets: &Vec<PkgMeta>) -> (r: (u64, u64))
        ensures
            r.0 as nat == cap_u64(sum_gain(self@, metas_view(targets@))),
            r.1 as nat == cap_u64(
                sum_displaced(self@, metas_view(targets@)) + sum_removed(
                    self@,
                    metas_view(targets@),
                ),
            ),
    {
        let ghost tsv = metas_view(targets@);
        let mut gain: u64 = 0;
        let mut freed: u64 = 0;
        let tn = targets.len();
        let mut k: usize = 0;
        proof {
            assert(tsv.take(0) =~= Seq::<PkgMetaModel>::empty());
        }
        while k < tn
            invariant
                0 <= k <= tn,
                tn == tsv.len(),
                gain as nat == cap_u64(sum_gain(self@, tsv.take(k as int))),
                freed as nat == cap_u64(sum_displaced(self@, tsv.take(k as int))),
            decreases tn - k,
        {
            let t = &targets[k];
            proof {
                assert(tsv.take(k + 1) =~= tsv.take(k as int).push(tsv[k as int]));
                lemma_sum_targets_push(self@, tsv.take(k as int), tsv[k as int]);
                assert(tsv[k as int] == t@);
            }
            let (add, displaced) = match self.get(t.name.as_str()) {
                Some(st) => {
                    let same = match st.state {
                        PkgState::Installed => version_compare(&st.version, &t.version) == 0,
                        _ => false,
                    };
                    if same {
                        (0u64, 0u64)
                    } else {
                        (t.install_size, st.install_size)
                    }
                },
                None => (t.install_size, 0u64),
            };
            proof {
                assert(add as nat == gain_of(self@, tsv[k as int]));
                assert(displaced as nat == displaced_of(self@, tsv[k as int]));
            }
            if u64::MAX - gain >= add {
                gain = gain + add;
            } else {
                gain = u64::MAX;
            }
            if u64::MAX - freed >= displaced {
                freed = freed + displaced;
            } else {
                freed = u64::MAX;
            }
            k = k + 1;
        }
        proof {
            assert(tsv.take(tn as int) =~= tsv);
        }
        // what the uncovered installed records free
        let mn = self.pkgs.len();
        let mut m: usize = 0;
        proof {
            assert(self@.take(0) =~= Seq::<StatusModel>::empty());
        }
        while m < mn
            invariant
                0 <= m <= mn,
                mn == self@.len(),
                freed as nat == cap_u64(
                    sum_displaced(self@, tsv) + sum_removed(self@.take(m as int), tsv),
                ),
            decreases mn - m,
        {
            let e = &self.pkgs[m];
            proof {
                assert(self@.take(m + 1) =~= self@.take(m as int).push(self@[m as int]));
                lemma_sum_removed_push(self@.take(m as int), tsv, self@[m as int]);
                assert(self@[m as int] == e@);
            }
            let is_covered = exec_covered(targets, e.name.as_str());
            let installed = match e.state {
                PkgState::Installed => true,
                _ => false,
            };
            let gone: u64 = if installed && !is_covered {
                e.install_size
            } else {
                0
            };
            proof {
                assert(gone as nat == removal_of(self@[m as int], tsv));
            }
            if u64::MAX - freed >= gone {
                freed = freed + gone;
            } else {
                freed = u64::MAX;
            }
            m = m + 1;
        }
        proof {
            assert(self@.take(mn as int) =~= self@);
        }
        (gain, freed)
    }

    /// Do the actions remove or purge a package the machine marks
    /// essential?
    #[verifier::loop_isolation(false)]
    pub fn removes_essential(&self, actions: &PkgActions) -> (r: bool)
        ensures
            r == spec_removes_essential(self@, actions@),
    {
        let mut i: usize = 0;
        let rn = actions.remove.len();
        while i < rn
            invariant
                0 <= i <= rn,
                forall|j: int|
                    0 <= j < i ==> !name_essential(self@, #[trigger] actions@.remove[j]),
            decreases rn - i,
        {
            proof {
                assert(actions@.remove[i as int] == actions.remove@[i as int]@);
            }
            match self.get(actions.remove[i].as_str()) {
                Some(st) => {
                    if st.essential {
                        proof {
                            assert(name_essential(self@, actions@.remove[i as int]));
                        }
                        return true;
                    }
                },
                None => {},
            }
            i = i + 1;
        }
        let mut j: usize = 0;
        let pn = actions.purge.len();
        while j < pn
            invariant
                0 <= j <= pn,
                forall|x: int|
                    0 <= x < rn ==> !name_essential(self@, #[trigger] actions@.remove[x]),
                forall|x: int| 0 <= x < j ==> !name_essential(self@, #[trigger] actions@.purge[x]),
            decreases pn - j,
        {
            proof {
                assert(actions@.purge[j as int] == actions.purge@[j as int]@);
            }
            match self.get(actions.purge[j].as_str()) {
                Some(st) => {
                    if st.essential {
                        proof {
                            assert(name_essential(self@, actions@.purge[j as int]));
                        }
                        return true;
                    }
                },
                None => {},
            }
            j = j + 1;
        }
        false
    }
}

/// The list of names holds `n`.
pub open spec fn names_has(l: Seq<Seq<char>>, n: Seq<char>) -> bool {
    exists|i: int| 0 <= i < l.len() && #[trigger] l[i] == n
}

/// First install step for `n`.
pub open spec fn find_install(l: Seq<(InstallModel, Option<VersionModel>)>, n: Seq<char>) -> Option<
    InstallModel,
>
    decreases l.len(),
{
    if l.len() == 0 {
        Option::<InstallModel>::None
    } else if l[0].0.name == n {
        Option::Some(l[0].0)
    } else {
        find_install(l.skip(1), n)
    }
}

/// What the backend leaves of one status record after the actions ran:
/// a purge drops it, a removal keeps its configuration files, a
/// configure completes it, an install brings it to the new version,
/// anything else stays as it was.
pub open spec fn apply_entry(e: StatusModel, a: ActionsModel) -> Option<StatusModel> {
    if names_has(a.purge, e.name) {
        Option::<StatusModel>::None
    } else if names_has(a.remove, e.name) {
        Option::Some(
            StatusModel {
                name: e.name,
                version: e.version,
                state: PkgState::ConfigFiles,
                essential: e.essential,
                install_size: e.install_size,
            },
        )
    } else if names_has(a.configure, e.name) {
        Option::Some(
            StatusModel {
                name: e.name,
                version: e.version,
                state: PkgState::Installed,
                essential: e.essential,
                install_size: e.install_size,
            },
        )
    } else {
        match find_install(a.install, e.name) {
            Option::Some(ia) => Option::Some(
                StatusModel {
                    name: e.name,
                    version: ia.version,
                    state: PkgState::Installed,
                    essential: e.essential,
                    install_size: e.install_size,
                },
            ),
            Option::None => Option::Some(e),
        }
    }
}

/// The surviving records of the machine's old state.
pub open spec fn apply_existing(ms: Seq<StatusModel>, a: ActionsModel) -> Seq<StatusModel>
    decreases ms.len(),
{
    if ms.len() == 0 {
        Seq::<StatusModel>::empty()
    } else {
        match apply_entry(ms[0], a) {
            Option::Some(e) => seq![e] + apply_existing(ms.skip(1), a),
            Option::None => apply_existing(ms.skip(1), a),
        }
    }
}

/// The records of packages installed for the first time.
pub open spec fn fresh_installs(
    l: Seq<(InstallModel, Option<VersionModel>)>,
    ms: Seq<StatusModel>,
) -> Seq<StatusModel>
    decreases l.len(),
{
    if l.len() == 0 {
        Seq::<StatusModel>::empty()
    } else if status_of(ms, l[0].0.name) is None {
        seq![
            StatusModel {
                name: l[0].0.name,
                version: l[0].0.version,
                state: PkgState::Installed,
                essential: false,
                install_size: 0,
            },
        ] + fresh_installs(l.skip(1), ms)
    } else {
        fresh_installs(l.skip(1), ms)
    }
}

/// The machine state after the actions ran.
pub open spec fn apply_model(ms: Seq<StatusModel>, a: ActionsModel) -> Seq<StatusModel> {
    apply_existing(ms, a) + fresh_installs(a.install, ms)
}

/// All target names are pairwise distinct.
pub open spec fn targets_unique(ts: Seq<PkgMetaModel>) -> bool {
    forall|i: int, j: int| 0 <= i < j < ts.len() ==> #[trigger] ts[i].name != #[trigger] ts[j].name
}

/// First target carrying `n`.
pub open spec fn target_lookup(ts: Seq<PkgMetaModel>, n: Seq<char>) -> Option<PkgMetaModel>
    decreases ts.len(),
{
    if ts.len() == 0 {
        Option::<PkgMetaModel>::None
    } else if ts[0].name == n {
        Option::Some(ts[0])
    } else {
        target_lookup(ts.skip(1), n)
    }
}

proof fn lemma_status_of_none(ms: Seq<StatusModel>, n: Seq<char>)
    ensures
        (status_of(ms, n) is None) <==> (forall|i: int| 0 <= i < ms.len() ==> #[trigger] ms[i].name != n),
    decreases ms.len(),
{
    if ms.len() > 0 {
        lemma_status_of_none(ms.skip(1), n);
        if ms[0].name != n {
            if status_of(ms, n) is None {
                assert forall|i: int| 0 <= i < ms.len() implies #[trigger] ms[i].name != n by {
                    if i > 0 {
                        assert(ms.skip(1)[i - 1].name != n);
                    }
                }
            } else {
                if forall|i: int| 0 <= i < ms.len() ==> #[trigger] ms[i].name != n {
                    assert forall|i: int|
                        0 <= i < ms.skip(1).len() implies #[trigger] ms.skip(1)[i].name != n by {
                        assert(ms[i + 1].name != n);
                    }
                }
            }
        }
    }
}

proof fn lemma_status_of_name(ms: Seq<StatusModel>, n: Seq<char>)
    ensures
        status_of(ms, n) matches Some(e) ==> e.name == n,
    decreases ms.len(),
{
    if ms.len() > 0 && ms[0].name != n {
        lemma_status_of_name(ms.skip(1), n);
    }
}

proof fn lemma_status_of_member(ms: Seq<StatusModel>, i: int)
    requires
        crate::machine::status_names_unique(ms),
        0 <= i < ms.len(),
    ensures
        status_of(ms, ms[i].name) == Some(ms[i]),
    decreases ms.len(),
{
    if i > 0 {
        assert(ms[0].name != ms[i].name);
        assert forall|a: int, b: int|
            0 <= a < b < ms.skip(1).len() implies #[trigger] ms.skip(1)[a].name
            != #[trigger] ms.skip(1)[b].name by {
            assert(ms[a + 1].name != ms[b + 1].name);
        }
        lemma_status_of_member(ms.skip(1), i - 1);
    }
}

proof fn lemma_target_lookup_member(ts: Seq<PkgMetaModel>, i: int)
    requires
        targets_unique(ts),
        0 <= i < ts.len(),
    ensures
        target_lookup(ts, ts[i].name) == Some(ts[i]),
    decreases ts.len(),
{
    if i > 0 {
        assert(ts[0].name != ts[i].name);
        assert forall|a: int, b: int|
            0 <= a < b < ts.skip(1).len() implies #[trigger] ts.skip(1)[a].name
            != #[trigger] ts.skip(1)[b].name by {
            assert(ts[a + 1].name != ts[b + 1].name);
        }
        lemma_target_lookup_member(ts.skip(1), i - 1);
    }
}

/// Looking a name up in a concatenation reads the left part first.
proof fn lemma_status_of_concat(xs: Seq<StatusModel>, ys: Seq<StatusModel>, n: Seq<char>)
    ensures
        status_of(xs + ys, n) == (if status_of(xs, n) is Some {
            status_of(xs, n)
        } else {
            status_of(ys, n)
        }),
    decreases xs.len(),
{
    if xs.len() == 0 {
        assert(xs + ys =~= ys);
    } else {
        assert((xs + ys)[0] == xs[0]);
        assert((xs + ys).skip(1) =~= xs.skip(1) + ys);
        lemma_status_of_concat(xs.skip(1), ys, n);
    }
}

/// Under unique names, looking a name up after the actions ran gives
/// exactly what `apply_entry` leaves of the old record.
proof fn lemma_status_of_applied(ms: Seq<StatusModel>, a: ActionsModel, n: Seq<char>)
    requires
        crate::machine::status_names_unique(ms),
    ensures
        status_of(apply_existing(ms, a), n) == (match status_of(ms, n) {
            Option::Some(e) => apply_entry(e, a),
            Option::None => Option::<StatusModel>::None,
        }),
    decreases ms.len(),
{
    if ms.len() > 0 {
        assert forall|x: int, y: int|
            0 <= x < y < ms.skip(1).len() implies #[trigger] ms.skip(1)[x].name
            != #[trigger] ms.skip(1)[y].name by {
            assert(ms[x + 1].name != ms[y + 1].name);
        }
        lemma_status_of_applied(ms.skip(1), a, n);
        if ms[0].name == n {
            // other entries cannot carry n
            assert forall|i: int|
                0 <= i < ms.skip(1).len() implies #[trigger] ms.skip(1)[i].name != n by {
                assert(ms[0].name != ms[i + 1].name);
            }
            lemma_status_of_none(ms.skip(1), n);
            match apply_entry(ms[0], a) {
                Option::Some(e) => {
                    assert(e.name == n);
                    assert(apply_existing(ms, a) == seq![e] + apply_existing(ms.skip(1), a));
                    assert((seq![e] + apply_existing(ms.skip(1), a))[0] == e);
                },
                Option::None => {},
            }
        } else {
            match apply_entry(ms[0], a) {
                Option::Some(e) => {
                    assert(e.name == ms[0].name);
                    assert((seq![e] + apply_existing(ms.skip(1), a))[0] == e);
                    assert((seq![e] + apply_existing(ms.skip(1), a)).skip(1) =~= apply_existing(
                        ms.skip(1),
                        a,
                    ));
                },
                Option::None => {},
            }
        }
    }
}

/// Looking a name up among the fresh installs.
proof fn lemma_status_of_fresh(
    l: Seq<(InstallModel, Option<VersionModel>)>,
    ms: Seq<StatusModel>,
    n: Seq<char>,
)
    ensures
        status_of(fresh_installs(l, ms), n) == (if find_install(l, n) is Some && status_of(ms, n)
            is None {
            Option::Some(
                StatusModel {
                    name: n,
                    version: find_install(l, n).unwrap().version,
                    state: PkgState::Installed,
                    essential: false,
                    install_size: 0,
                },
            )
        } else {
            Option::<StatusModel>::None
        }),
    decreases l.len(),
{
    if l.len() > 0 {
        lemma_status_of_fresh(l.skip(1), ms, n);
        if status_of(ms, l[0].0.name) is None {
            let head = StatusModel {
                name: l[0].0.name,
                version: l[0].0.version,
                state: PkgState::Installed,
                essential: false,
                install_size: 0,
            };
            assert((seq![head] + fresh_installs(l.skip(1), ms))[0] == head);
            assert((seq![head] + fresh_installs(l.skip(1), ms)).skip(1) =~= fresh_installs(
                l.skip(1),
                ms,
            ));
        }
    }
}

/// A name appears among the removals exactly when its record is
/// installed and no target covers it.
proof fn lemma_removals_member(ms: Seq<StatusModel>, ts: Seq<PkgMetaModel>, n: Seq<char>)
    requires
        crate::machine::status_names_unique(ms),
    ensures
        names_has(gen_removals(ms, ts), n) <==> (match status_of(ms, n) {
            Option::Some(e) => e.state == PkgState::Installed && !covered(ts, n),
            Option::None => false,
        }),
    decreases ms.len(),
{
    if ms.len() > 0 {
        assert forall|x: int, y: int|
            0 <= x < y < ms.skip(1).len() implies #[trigger] ms.skip(1)[x].name
            != #[trigger] ms.skip(1)[y].name by {
            assert(ms[x + 1].name != ms[y + 1].name);
        }
        lemma_removals_member(ms.skip(1), ts, n);
        let rest = gen_removals(ms.skip(1), ts);
        if ms[0].state == PkgState::Installed && !covered(ts, ms[0].name) {
            assert(gen_removals(ms, ts) == seq![ms[0].name] + rest);
            assert((seq![ms[0].name] + rest)[0] == ms[0].name);
            if ms[0].name == n {
                assert(names_has(gen_removals(ms, ts), n));
            } else {
                assert forall|i: int|
                    0 <= i < gen_removals(ms, ts).len() && #[trigger] gen_removals(ms, ts)[i]
                        == n implies names_has(rest, n) by {
                    if i > 0 {
                        assert(rest[i - 1] == n);
                    }
                }
                if names_has(rest, n) {
                    let i = choose|i: int| 0 <= i < rest.len() && #[trigger] rest[i] == n;
                    assert(gen_removals(ms, ts)[i + 1] == n);
                }
            }
        } else {
            if ms[0].name == n {
                // n's record is the head; the head was not listed, and
                // no later record carries n
                assert forall|i: int|
                    0 <= i < ms.skip(1).len() implies #[trigger] ms.skip(1)[i].name != n by {
                    assert(ms[0].name != ms[i + 1].name);
                }
                lemma_status_of_none(ms.skip(1), n);
            }
        }
    }
}

/// A name appears among the configures exactly when its record is half
/// done and no target covers it.
proof fn lemma_configures_member(ms: Seq<StatusModel>, ts: Seq<PkgMetaModel>, n: Seq<char>)
    requires
        crate::machine::status_names_unique(ms),
    ensures
        names_has(gen_configures(ms, ts), n) <==> (match status_of(ms, n) {
            Option::Some(e) => half_done(e.state) && !covered(ts, n),
            Option::None => false,
        }),
    decreases ms.len(),
{
    if ms.len() > 0 {
        assert forall|x: int, y: int|
            0 <= x < y < ms.skip(1).len() implies #[trigger] ms.skip(1)[x].name
            != #[trigger] ms.skip(1)[y].name by {
            assert(ms[x + 1].name != ms[y + 1].name);
        }
        lemma_configures_member(ms.skip(1), ts, n);
        let rest = gen_configures(ms.skip(1), ts);
        if half_done(ms[0].state) && !covered(ts, ms[0].name) {
            assert(gen_configures(ms, ts) == seq![ms[0].name] + rest);
            assert((seq![ms[0].name] + rest)[0] == ms[0].name);
            if ms[0].name == n {
                assert(names_has(gen_configures(ms, ts), n));
            } else {
                assert forall|i: int|
                    0 <= i < gen_configures(ms, ts).len() && #[trigger] gen_configures(ms, ts)[i]
                        == n implies names_has(rest, n) by {
                    if i > 0 {
                        assert(rest[i - 1] == n);
                    }
                }
                if names_has(rest, n) {
                    let i = choose|i: int| 0 <= i < rest.len() && #[trigger] rest[i] == n;
                    assert(gen_configures(ms, ts)[i + 1] == n);
                }
            }
        } else {
            if ms[0].name == n {
                assert forall|i: int|
                    0 <= i < ms.skip(1).len() implies #[trigger] ms.skip(1)[i].name != n by {
                    assert(ms[0].name != ms[i + 1].name);
                }
                lemma_status_of_none(ms.skip(1), n);
            }
        }
    }
}

proof fn lemma_target_lookup_none(ts: Seq<PkgMetaModel>, n: Seq<char>)
    ensures
        (target_lookup(ts, n) is None) <==> (forall|i: int|
            0 <= i < ts.len() ==> #[trigger] ts[i].name != n),
    decreases ts.len(),
{
    if ts.len() > 0 {
        lemma_target_lookup_none(ts.skip(1), n);
        if ts[0].name != n {
            if target_lookup(ts, n) is None {
                assert forall|i: int| 0 <= i < ts.len() implies #[trigger] ts[i].name != n by {
                    if i > 0 {
                        assert(ts.skip(1)[i - 1].name != n);
                    }
                }
            } else {
                if forall|i: int| 0 <= i < ts.len() ==> #[trigger] ts[i].name != n {
                    assert forall|i: int|
                        0 <= i < ts.skip(1).len() implies #[trigger] ts.skip(1)[i].name != n by {
                        assert(ts[i + 1].name != n);
                    }
                }
            }
        }
    }
}

/// The install list holds exactly one step per demanding target.
proof fn lemma_find_gen_install(ms: Seq<StatusModel>, ts: Seq<PkgMetaModel>, n: Seq<char>)
    requires
        targets_unique(ts),
    ensures
        find_install(gen_install(ms, ts), n) == (match target_lookup(ts, n) {
            Option::Some(t) => match target_step(ms, t) {
                Option::Some(p) => Option::Some(p.0),
                Option::None => Option::<InstallModel>::None,
            },
            Option::None => Option::<InstallModel>::None,
        }),
    decreases ts.len(),
{
    if ts.len() > 0 {
        assert forall|x: int, y: int|
            0 <= x < y < ts.skip(1).len() implies #[trigger] ts.skip(1)[x].name
            != #[trigger] ts.skip(1)[y].name by {
            assert(ts[x + 1].name != ts[y + 1].name);
        }
        lemma_find_gen_install(ms, ts.skip(1), n);
        match target_step(ms, ts[0]) {
            Option::Some(p) => {
                assert(p.0.name == ts[0].name);
                assert(gen_install(ms, ts) == seq![p] + gen_install(ms, ts.skip(1)));
                assert((seq![p] + gen_install(ms, ts.skip(1)))[0] == p);
                assert((seq![p] + gen_install(ms, ts.skip(1))).skip(1) =~= gen_install(
                    ms,
                    ts.skip(1),
                ));
            },
            Option::None => {
                if ts[0].name == n {
                    // the exact version is already installed and no
                    // later target carries the name again
                    assert(target_lookup(ts, n) == Some(ts[0]));
                    assert forall|i: int|
                        0 <= i < ts.skip(1).len() implies #[trigger] ts.skip(1)[i].name != n by {
                        assert(ts[0].name != ts[i + 1].name);
                    }
                    lemma_target_lookup_none(ts.skip(1), n);
                }
            },
        }
    }
}

proof fn lemma_gen_install_none(ms: Seq<StatusModel>, ts: Seq<PkgMetaModel>)
    requires
        forall|i: int| 0 <= i < ts.len() ==> target_step(ms, #[trigger] ts[i]) is None,
    ensures
        gen_install(ms, ts) == Seq::<(InstallModel, Option<VersionModel>)>::empty(),
    decreases ts.len(),
{
    if ts.len() > 0 {
        assert(target_step(ms, ts[0]) is None);
        assert forall|i: int|
            0 <= i < ts.skip(1).len() implies target_step(ms, #[trigger] ts.skip(1)[i]) is None by {
            assert(ts.skip(1)[i] == ts[i + 1]);
        }
        lemma_gen_install_none(ms, ts.skip(1));
    }
}

proof fn lemma_gen_removals_none(ms: Seq<StatusModel>, ts: Seq<PkgMetaModel>)
    requires
        forall|j: int|
            0 <= j < ms.len() ==> !(#[trigger] ms[j].state == PkgState::Installed && !covered(
                ts,
                ms[j].name,
            )),
    ensures
        gen_removals(ms, ts) == Seq::<Seq<char>>::empty(),
    decreases ms.len(),
{
    if ms.len() > 0 {
        assert(!(ms[0].state == PkgState::Installed && !covered(ts, ms[0].name)));
        assert forall|j: int|
            0 <= j < ms.skip(1).len() implies !(#[trigger] ms.skip(1)[j].state
                == PkgState::Installed && !covered(ts, ms.skip(1)[j].name)) by {
            assert(ms.skip(1)[j] == ms[j + 1]);
        }
        lemma_gen_removals_none(ms.skip(1), ts);
    }
}

proof fn lemma_gen_configures_none(ms: Seq<StatusModel>, ts: Seq<PkgMetaModel>)
    requires
        forall|j: int|
            0 <= j < ms.len() ==> !(half_done(#[trigger] ms[j].state) && !covered(ts, ms[j].name)),
    ensures
        gen_configures(ms, ts) == Seq::<Seq<char>>::empty(),
    decreases ms.len(),
{
    if ms.len() > 0 {
        assert(!(half_done(ms[0].state) && !covered(ts, ms[0].name)));
        assert forall|j: int|
            0 <= j < ms.skip(1).len() implies !(half_done(#[trigger] ms.skip(1)[j].state)
                && !covered(ts, ms.skip(1)[j].name)) by {
            assert(ms.skip(1)[j] == ms[j + 1]);
        }
        lemma_gen_configures_none(ms.skip(1), ts);
    }
}

/// Every surviving record comes from an old record through
/// `apply_entry`.
proof fn lemma_apply_existing_elems(ms: Seq<StatusModel>, a: ActionsModel)
    ensures
        forall|j: int|
            0 <= j < apply_existing(ms, a).len() ==> exists|i: int|
                0 <= i < ms.len() && apply_entry(#[trigger] ms[i], a) == Some(
                    #[trigger] apply_existing(ms, a)[j],
                ),
    decreases ms.len(),
{
    if ms.len() > 0 {
        lemma_apply_existing_elems(ms.skip(1), a);
        assert forall|j: int|
            0 <= j < apply_existing(ms, a).len() implies exists|i: int|
            0 <= i < ms.len() && apply_entry(#[trigger] ms[i], a) == Some(
                #[trigger] apply_existing(ms, a)[j],
            ) by {
            match apply_entry(ms[0], a) {
                Option::Some(e) => {
                    if j == 0 {
                        assert((seq![e] + apply_existing(ms.skip(1), a))[0] == e);
                        assert(apply_entry(ms[0], a) == Some(apply_existing(ms, a)[j]));
                    } else {
                        assert((seq![e] + apply_existing(ms.skip(1), a))[j] == apply_existing(
                            ms.skip(1),
                            a,
                        )[j - 1]);
                        let i = choose|i: int|
                            0 <= i < ms.skip(1).len() && apply_entry(
                                #[trigger] ms.skip(1)[i],
                                a,
                            ) == Some(apply_existing(ms.skip(1), a)[j - 1]);
                        assert(ms[i + 1] == ms.skip(1)[i]);
                        assert(apply_entry(ms[i + 1], a) == Some(apply_existing(ms, a)[j]));
                    }
                },
                Option::None => {
                    let i = choose|i: int|
                        0 <= i < ms.skip(1).len() && apply_entry(#[trigger] ms.skip(1)[i], a)
                            == Some(apply_existing(ms.skip(1), a)[j]);
                    assert(ms[i + 1] == ms.skip(1)[i]);
                    assert(apply_entry(ms[i + 1], a) == Some(apply_existing(ms, a)[j]));
                },
            }
        }
    }
}

/// Every fresh record is an install step's record.
proof fn lemma_fresh_elems(l: Seq<(InstallModel, Option<VersionModel>)>, ms: Seq<StatusModel>)
    ensures
        forall|j: int|
            0 <= j < fresh_installs(l, ms).len() ==> exists|i: int|
                0 <= i < l.len() && #[trigger] fresh_installs(l, ms)[j] == (StatusModel {
                    name: l[i].0.name,
                    version: l[i].0.version,
                    state: PkgState::Installed,
                    essential: false,
                    install_size: 0,
                }),
    decreases l.len(),
{
    if l.len() > 0 {
        lemma_fresh_elems(l.skip(1), ms);
        assert forall|j: int|
            0 <= j < fresh_installs(l, ms).len() implies exists|i: int|
            0 <= i < l.len() && #[trigger] fresh_installs(l, ms)[j] == (StatusModel {
                name: l[i].0.name,
                version: l[i].0.version,
                state: PkgState::Installed,
                essential: false,
                install_size: 0,
            }) by {
            if status_of(ms, l[0].0.name) is None {
                let head = StatusModel {
                    name: l[0].0.name,
                    version: l[0].0.version,
                    state: PkgState::Installed,
                    essential: false,
                    install_size: 0,
                };
                if j == 0 {
                    assert((seq![head] + fresh_installs(l.skip(1), ms))[0] == head);
                    assert(fresh_installs(l, ms)[j] == (StatusModel {
                        name: l[0].0.name,
                        version: l[0].0.version,
                        state: PkgState::Installed,
                        essential: false,
                        install_size: 0,
                    }));
                } else {
                    assert((seq![head] + fresh_installs(l.skip(1), ms))[j] == fresh_installs(
                        l.skip(1),
                        ms,
                    )[j - 1]);
                    let i = choose|i: int|
                        0 <= i < l.skip(1).len() && #[trigger] fresh_installs(l.skip(1), ms)[j - 1]
                            == (StatusModel {
                            name: l.skip(1)[i].0.name,
                            version: l.skip(1)[i].0.version,
                            state: PkgState::Installed,
                            essential: false,
                            install_size: 0,
                        });
                    assert(l[i + 1] == l.skip(1)[i]);
                    assert(fresh_installs(l, ms)[j] == (StatusModel {
                        name: l[i + 1].0.name,
                        version: l[i + 1].0.version,
                        state: PkgState::Installed,
                        essential: false,
                        install_size: 0,
                    }));
                }
            } else {
                let i = choose|i: int|
                    0 <= i < l.skip(1).len() && #[trigger] fresh_installs(l.skip(1), ms)[j]
                        == (StatusModel {
                        name: l.skip(1)[i].0.name,
                        version: l.skip(1)[i].0.version,
                        state: PkgState::Installed,
                        essential: false,
                        install_size: 0,
                    });
                assert(l[i + 1] == l.skip(1)[i]);
                assert(fresh_installs(l, ms)[j] == (StatusModel {
                    name: l[i + 1].0.name,
                    version: l[i + 1].0.version,
                    state: PkgState::Installed,
                    essential: false,
                    install_size: 0,
                }));
            }
        }
    }
}

/// Every install step's package is a target.
proof fn lemma_gen_install_covered(ms: Seq<StatusModel>, ts: Seq<PkgMetaModel>)
    ensures
        forall|k: int|
            0 <= k < gen_install(ms, ts).len() ==> covered(
                ts,
                #[trigger] gen_install(ms, ts)[k].0.name,
            ),
    decreases ts.len(),
{
    if ts.len() > 0 {
        lemma_gen_install_covered(ms, ts.skip(1));
        assert forall|k: int|
            0 <= k < gen_install(ms, ts).len() implies covered(
            ts,
            #[trigger] gen_install(ms, ts)[k].0.name,
        ) by {
            match target_step(ms, ts[0]) {
                Option::Some(p) => {
                    if k == 0 {
                        assert((seq![p] + gen_install(ms, ts.skip(1)))[0] == p);
                        assert(p.0.name == ts[0].name);
                        assert(covered(ts, ts[0].name));
                    } else {
                        assert((seq![p] + gen_install(ms, ts.skip(1)))[k] == gen_install(
                            ms,
                            ts.skip(1),
                        )[k - 1]);
                        assert(covered(ts.skip(1), gen_install(ms, ts.skip(1))[k - 1].0.name));
                        let w = choose|w: int|
                            0 <= w < ts.skip(1).len() && #[trigger] ts.skip(1)[w].name
                                == gen_install(ms, ts.skip(1))[k - 1].0.name;
                        assert(ts[w + 1].name == gen_install(ms, ts)[k].0.name);
                    }
                },
                Option::None => {
                    assert(covered(ts.skip(1), gen_install(ms, ts.skip(1))[k].0.name));
                    let w = choose|w: int|
                        0 <= w < ts.skip(1).len() && #[trigger] ts.skip(1)[w].name == gen_install(
                            ms,
                            ts.skip(1),
                        )[k].0.name;
                    assert(ts[w + 1].name == gen_install(ms, ts)[k].0.name);
                },
            }
        }
    }
}

/// Diff idempotence: running the generated actions and diffing the
/// same targets against the machine's new state yields nothing more.
/// Half-done packages that no target covers are left out: their
/// configure step makes them installed packages that the next diff
/// would remove.
pub proof fn lemma_diff_idempotent(ms: Seq<StatusModel>, ts: Seq<PkgMetaModel>, purge: bool)
    requires
        crate::machine::status_names_unique(ms),
        targets_unique(ts),
        forall|i: int|
            0 <= i < ms.len() && half_done(#[trigger] ms[i].state) ==> covered(ts, ms[i].name),
    ensures
        actions_empty(gen_model(apply_model(ms, gen_model(ms, ts, purge)), ts, purge)),
{
    let a = gen_model(ms, ts, purge);
    let ae = apply_existing(ms, a);
    let fr = fresh_installs(a.install, ms);
    let ms2 = apply_model(ms, a);

    // every target finds its exact version installed afterwards
    assert forall|i: int| 0 <= i < ts.len() implies target_step(ms2, #[trigger] ts[i]) is None by {
        let t = ts[i];
        let n = t.name;
        lemma_target_lookup_member(ts, i);
        lemma_status_of_concat(ae, fr, n);
        lemma_status_of_applied(ms, a, n);
        lemma_status_of_fresh(a.install, ms, n);
        lemma_removals_member(ms, ts, n);
        lemma_configures_member(ms, ts, n);
        lemma_find_gen_install(ms, ts, n);
        assert(covered(ts, n));
        crate::version::lemma_version_cmp_total(t.version, t.version);
        lemma_status_of_name(ms, n);
        match status_of(ms, n) {
            Option::Some(e) => {
                assert(!names_has(a.purge, n));
                assert(!names_has(a.remove, n));
                assert(!names_has(a.configure, n));
                match target_step(ms, t) {
                    Option::Some(p) => {
                        assert(find_install(a.install, n) == Some(p.0));
                        assert(p.0.version == t.version);
                        assert(status_of(ms2, n) == Some(
                            StatusModel {
                                name: n,
                                version: t.version,
                                state: PkgState::Installed,
                                essential: e.essential,
                                install_size: e.install_size,
                            },
                        ));
                    },
                    Option::None => {
                        assert(find_install(a.install, n) is None);
                        assert(status_of(ms2, n) == Some(e));
                        assert(e.state == PkgState::Installed && version_cmp(e.version, t.version)
                            == 0);
                    },
                }
            },
            Option::None => {
                assert(target_step(ms, t) == Some(
                    (install_of(t), Option::<VersionModel>::None),
                ));
                assert(find_install(a.install, n) == Some(install_of(t)));
                assert(install_of(t).version == t.version);
                assert(status_of(ms2, n) == Some(
                    StatusModel {
                        name: n,
                        version: t.version,
                        state: PkgState::Installed,
                        essential: false,
                        install_size: 0,
                    },
                ));
            },
        }
    }
    lemma_gen_install_none(ms2, ts);

    // no record of the new state is removable or configurable
    lemma_apply_existing_elems(ms, a);
    lemma_fresh_elems(a.install, ms);
    lemma_gen_install_covered(ms, ts);
    assert forall|j: int|
        0 <= j < ms2.len() implies !(#[trigger] ms2[j].state == PkgState::Installed && !covered(
        ts,
        ms2[j].name,
    )) && !(half_done(ms2[j].state) && !covered(ts, ms2[j].name)) by {
        if j < ae.len() {
            assert(ms2[j] == ae[j]);
            let i = choose|i: int|
                0 <= i < ms.len() && apply_entry(#[trigger] ms[i], a) == Some(ae[j]);
            let e = ms[i];
            let n = e.name;
            lemma_status_of_member(ms, i);
            lemma_removals_member(ms, ts, n);
            lemma_configures_member(ms, ts, n);
            lemma_find_gen_install(ms, ts, n);
            assert(ae[j].name == n);
            if covered(ts, n) {
            } else {
                lemma_target_lookup_none(ts, n);
                assert(target_lookup(ts, n) is None);
                if e.state == PkgState::Installed {
                    // listed for removal or purge: the record either
                    // vanished or keeps only its configuration files
                    assert(names_has(if purge {
                        a.purge
                    } else {
                        a.remove
                    }, n));
                    if purge {
                        assert(apply_entry(e, a) is None);
                        assert(false);
                    } else {
                        assert(!names_has(a.purge, n));
                        assert(ae[j].state == PkgState::ConfigFiles);
                    }
                } else if half_done(e.state) {
                    assert(covered(ts, n));
                    assert(false);
                } else {
                    assert(!names_has(a.purge, n));
                    assert(!names_has(a.remove, n));
                    assert(!names_has(a.configure, n));
                    assert(find_install(a.install, n) is None);
                    assert(ae[j] == e);
                }
            }
        } else {
            assert(ms2[j] == fr[j - ae.len()]);
            let i = choose|i: int|
                0 <= i < a.install.len() && #[trigger] fr[j - ae.len()] == (StatusModel {
                    name: a.install[i].0.name,
                    version: a.install[i].0.version,
                    state: PkgState::Installed,
                    essential: false,
                    install_size: 0,
                });
            assert(covered(ts, a.install[i].0.name));
        }
    }
    lemma_gen_removals_none(ms2, ts);
    lemma_gen_configures_none(ms2, ts);
}

/// The machine marks `name` essential.
pub open spec fn name_essential(ms: Seq<StatusModel>, name: Seq<char>) -> bool {
    match status_of(ms, name) {
        Option::Some(st) => st.essential,
        Option::None => false,
    }
}

/// Some removed or purged name is essential on this machine.
pub open spec fn spec_removes_essential(ms: Seq<StatusModel>, a: ActionsModel) -> bool {
    (exists|i: int| 0 <= i < a.remove.len() && name_essential(ms, #[trigger] a.remove[i])) || (
    exists|i: int| 0 <= i < a.purge.len() && name_essential(ms, #[trigger] a.purge[i]))
}

} // verus!
