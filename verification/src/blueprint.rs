//! Blueprints: the user's and the vendor's declared package requests.
//!
//! A request names a package, optionally bounds its version, and records
//! who asked for it (`added_by` carries the name of the package whose
//! recommendation pulled it in).  Names are unique across the union of
//! the two lists; a vendor request yields only to a user request made
//! with `modify`.

use crate::version::{ReqModel, VersionRequirement};
use vstd::prelude::*;
use vstd::string::StringSliceAdditionalSpecFns;

verus! {

/// One requested package.
pub struct PkgRequest {
    pub name: String,
    pub modify: bool,
    pub added_by: Option<String>,
    pub ver_req: Option<VersionRequirement>,
    pub local: bool,
}

/// Model of a request.
pub struct RequestModel {
    pub name: Seq<char>,
    pub modify: bool,
    pub added_by: Option<Seq<char>>,
    pub ver_req: Option<ReqModel>,
    pub local: bool,
}

impl View for PkgRequest {
    type V = RequestModel;

    open spec fn view(&self) -> RequestModel {
        RequestModel {
            name: self.name@,
            modify: self.modify,
            added_by: match self.added_by {
                Option::None => Option::None,
                Option::Some(s) => Option::Some(s@),
            },
            ver_req: match self.ver_req {
                Option::None => Option::None,
                Option::Some(r) => Option::Some(r@),
            },
            local: self.local,
        }
    }
}

impl Clone for PkgRequest {
    fn clone(&self) -> (res: Self)
        ensures
            res@ == self@,
    {
        PkgRequest {
            name: self.name.clone(),
            modify: self.modify,
            added_by: match &self.added_by {
                Option::None => Option::None,
                Option::Some(s) => Option::Some(s.clone()),
            },
            ver_req: match &self.ver_req {
                Option::None => Option::None,
                Option::Some(r) => Option::Some(r.clone()),
            },
            local: self.local,
        }
    }
}

/// Model of a request list.
pub open spec fn reqs_view(s: Seq<PkgRequest>) -> Seq<RequestModel> {
    s.map(|_i: int, r: PkgRequest| r@)
}

/// The list holds a request for `name`.
pub open spec fn reqs_has_name(s: Seq<RequestModel>, name: Seq<char>) -> bool {
    exists|i: int| 0 <= i < s.len() && #[trigger] s[i].name == name
}

/// Model of the two blueprints.
pub struct BlueprintsModel {
    pub user: Seq<RequestModel>,
    pub vendor: Seq<RequestModel>,
}

/// No name occurs twice across the union of both lists.
pub open spec fn bp_names_unique(m: BlueprintsModel) -> bool {
    let all = m.user + m.vendor;
    forall|i: int, j: int| 0 <= i < j < all.len() ==> #[trigger] all[i].name != #[trigger] all[j].name
}

/// A failed blueprint operation.
#[derive(Clone, Copy, Debug, PartialEq, Eq, Structural)]
pub enum BlueprintError {
    /// The name is already requested and `modify` was not given.
    Duplicate,
    /// No request with that name exists.
    NotFound,
}

/// The blueprints grown by appending each request in turn to one list,
/// dropping any request whose name is already present in the union.
pub open spec fn bp_fold_requests(
    m: BlueprintsModel,
    reqs: Seq<RequestModel>,
    to_user: bool,
) -> BlueprintsModel
    decreases reqs.len(),
{
    if reqs.len() == 0 {
        m
    } else {
        let m2 = if reqs_has_name(m.user + m.vendor, reqs[0].name) {
            m
        } else if to_user {
            BlueprintsModel { user: m.user.push(reqs[0]), vendor: m.vendor }
        } else {
            BlueprintsModel { user: m.user, vendor: m.vendor.push(reqs[0]) }
        };
        bp_fold_requests(m2, reqs.skip(1), to_user)
    }
}

/// The blueprints after requesting each name in turn, as the install
/// subcommand does: a fresh name is appended to the user list, and a
/// name already present fails the run.
pub open spec fn bp_after_installs(
    m: BlueprintsModel,
    names: Seq<Seq<char>>,
    local: bool,
) -> Option<BlueprintsModel>
    decreases names.len(),
{
    if names.len() == 0 {
        Some(m)
    } else if reqs_has_name(m.user + m.vendor, names[0]) {
        None
    } else {
        bp_after_installs(
            BlueprintsModel {
                user: m.user.push(
                    RequestModel {
                        name: names[0],
                        modify: false,
                        added_by: None,
                        ver_req: None,
                        local,
                    },
                ),
                vendor: m.vendor,
            },
            names.skip(1),
            local,
        )
    }
}

/// The blueprints after removing each name in turn, as the remove
/// subcommand does: a name that is not present fails the run.
pub open spec fn bp_after_removes(
    m: BlueprintsModel,
    names: Seq<Seq<char>>,
    remove_recommends: bool,
) -> Option<BlueprintsModel>
    decreases names.len(),
{
    if names.len() == 0 {
        Some(m)
    } else if !reqs_has_name(m.user + m.vendor, names[0]) {
        None
    } else {
        bp_after_removes(
            BlueprintsModel {
                user: filtered_reqs(m.user, names[0], remove_recommends),
                vendor: filtered_reqs(m.vendor, names[0], remove_recommends),
            },
            names.skip(1),
            remove_recommends,
        )
    }
}

/// The user's and the vendor's request lists.
pub struct Blueprints {
    user: Vec<PkgRequest>,
    vendor: Vec<PkgRequest>,
}

impl View for Blueprints {
    type V = BlueprintsModel;

    closed spec fn view(&self) -> BlueprintsModel {
        BlueprintsModel { user: reqs_view(self.user@), vendor: reqs_view(self.vendor@) }
    }
}

impl Blueprints {
    /// Build the blueprints from lists read off disk: the result is the
    /// fold of appending every user request and then every vendor
    /// request, requests beyond the first with a given name dropped so
    /// that names stay unique.
    #[verifier::loop_isolation(false)]
    pub fn from_lists(user: Vec<PkgRequest>, vendor: Vec<PkgRequest>) -> (r: Blueprints)
        ensures
            bp_names_unique(r@),
            r@ == bp_fold_requests(
                bp_fold_requests(
                    BlueprintsModel {
                        user: Seq::<RequestModel>::empty(),
                        vendor: Seq::<RequestModel>::empty(),
                    },
                    reqs_view(user@),
                    true,
                ),
                reqs_view(vendor@),
                false,
            ),
    {
        let ghost userm = reqs_view(user@);
        let ghost vendorm = reqs_view(vendor@);
        let ghost empty_m = BlueprintsModel {
            user: Seq::<RequestModel>::empty(),
            vendor: Seq::<RequestModel>::empty(),
        };
        let mut out = Blueprints { user: Vec::new(), vendor: Vec::new() };
        proof {
            assert(out@.user =~= empty_m.user);
            assert(out@.vendor =~= empty_m.vendor);
            assert(out@ == empty_m);
            assert(userm.skip(0) =~= userm);
        }
        let mut i: usize = 0;
        while i < user.len()
            invariant
                0 <= i <= user@.len(),
                bp_names_unique(out@),
                bp_fold_requests(empty_m, userm, true) == bp_fold_requests(
                    out@,
                    userm.skip(i as int),
                    true,
                ),
            decreases user@.len() - i,
        {
            let req = user[i].clone();
            proof {
                assert(userm.skip(i as int)[0] == userm[i as int]);
                assert(userm.skip(i as int).skip(1) =~= userm.skip(i + 1));
                assert(req@ == userm[i as int]);
            }
            let _ = out.add_request(req, true);
            i = i + 1;
        }
        proof {
            assert(userm.skip(user@.len() as int).len() == 0);
            assert(vendorm.skip(0) =~= vendorm);
        }
        let mut j: usize = 0;
        while j < vendor.len()
            invariant
                0 <= j <= vendor@.len(),
                bp_names_unique(out@),
                bp_fold_requests(bp_fold_requests(empty_m, userm, true), vendorm, false)
                    == bp_fold_requests(out@, vendorm.skip(j as int), false),
            decreases vendor@.len() - j,
        {
            let req = vendor[j].clone();
            proof {
                assert(vendorm.skip(j as int)[0] == vendorm[j as int]);
                assert(vendorm.skip(j as int).skip(1) =~= vendorm.skip(j + 1));
                assert(req@ == vendorm[j as int]);
            }
            let _ = out.add_request(req, false);
            j = j + 1;
        }
        proof {
            assert(vendorm.skip(vendor@.len() as int).len() == 0);
        }
        out
    }

    /// An empty pair of blueprints.
    pub fn new() -> (r: Blueprints)
        ensures
            bp_names_unique(r@),
            r@.user.len() == 0,
            r@.vendor.len() == 0,
    {
        Blueprints { user: Vec::new(), vendor: Vec::new() }
    }

    /// Is some request with this name present in either list?
    pub fn contains_name(&self, name: &str) -> (r: bool)
        ensures
            r == reqs_has_name(self@.user + self@.vendor, name@),
    {
        let mut i: usize = 0;
        let n = self.user.len();
        while i < n
            invariant
                0 <= i <= n,
                n == self.user@.len(),
                forall|k: int| 0 <= k < i ==> reqs_view(self.user@)[k].name != name@,
            decreases n - i,
        {
            if crate::text::str_eq(self.user[i].name.as_str(), name) {
                proof {
                    let all = self@.user + self@.vendor;
                    assert(all[i as int].name == name@);
                }
                return true;
            }
            i = i + 1;
        }
        let mut j: usize = 0;
        let m = self.vendor.len();
        while j < m
            invariant
                0 <= j <= m,
                m == self.vendor@.len(),
                forall|k: int| 0 <= k < n ==> reqs_view(self.user@)[k].name != name@,
                n == self.user@.len(),
                forall|k: int| 0 <= k < j ==> reqs_view(self.vendor@)[k].name != name@,
            decreases m - j,
        {
            if crate::text::str_eq(self.vendor[j].name.as_str(), name) {
                proof {
                    let all = self@.user + self@.vendor;
                    assert(all[n + j] == reqs_view(self.vendor@)[j as int]);
                    assert(all[n + j].name == name@);
                }
                return true;
            }
            j = j + 1;
        }
        proof {
            let all = self@.user + self@.vendor;
            assert forall|k: int| 0 <= k < all.len() implies #[trigger] all[k].name != name@ by {
                if k < n {
                    assert(all[k] == reqs_view(self.user@)[k]);
                } else {
                    assert(all[k] == reqs_view(self.vendor@)[k - n]);
                }
            }
        }
        false
    }

    /// Append a request to one of the lists, refusing a duplicate name.
    fn add_request(&mut self, req: PkgRequest, to_user: bool) -> (r: Result<(), BlueprintError>)
        requires
            bp_names_unique(old(self)@),
        ensures
            bp_names_unique(final(self)@),
            match r {
                Ok(()) => !reqs_has_name(old(self)@.user + old(self)@.vendor, req@.name) && (
                if to_user {
                    final(self)@.user == old(self)@.user.push(req@) && final(self)@.vendor == old(self)@.vendor
                } else {
                    final(self)@.vendor == old(self)@.vendor.push(req@) && final(self)@.user
                        == old(self)@.user
                }),
                Err(_) => reqs_has_name(old(self)@.user + old(self)@.vendor, req@.name) && final(self)@ == old(self)@,
            },
    {
        if self.contains_name(req.name.as_str()) {
            return Err(BlueprintError::Duplicate);
        }
        let ghost old_user = self.user@;
        let ghost old_vendor = self.vendor@;
        if to_user {
            self.user.push(req);
            proof {
                assert(reqs_view(self.user@) =~= reqs_view(old_user).push(
                    self.user@[old_user.len() as int]@,
                ));
                lemma_unique_after_push(
                    reqs_view(old_user),
                    reqs_view(old_vendor),
                    self@.user[old_user.len() as int],
                    true,
                );
            }
        } else {
            self.vendor.push(req);
            proof {
                assert(reqs_view(self.vendor@) =~= reqs_view(old_vendor).push(
                    self.vendor@[old_vendor.len() as int]@,
                ));
                lemma_unique_after_push(
                    reqs_view(old_user),
                    reqs_view(old_vendor),
                    self@.vendor[old_vendor.len() as int],
                    false,
                );
            }
        }
        Ok(())
    }
}

/// A request survives `remove(name, also_recommends)`.
pub open spec fn keep_req(r: RequestModel, name: Seq<char>, also_recommends: bool) -> bool {
    r.name != name && !(also_recommends && r.added_by == Option::Some(name))
}

/// The requests surviving `remove(name, also_recommends)`, in order.
pub open spec fn filtered_reqs(s: Seq<RequestModel>, name: Seq<char>, also_recommends: bool) -> Seq<
    RequestModel,
> {
    s.filter(|r: RequestModel| keep_req(r, name, also_recommends))
}

/// All names in the list are pairwise distinct.
pub open spec fn names_unique(s: Seq<RequestModel>) -> bool {
    forall|i: int, j: int| 0 <= i < j < s.len() ==> #[trigger] s[i].name != #[trigger] s[j].name
}

proof fn lemma_filtered_push(
    s: Seq<RequestModel>,
    r: RequestModel,
    name: Seq<char>,
    also_recommends: bool,
)
    ensures
        keep_req(r, name, also_recommends) ==> filtered_reqs(s.push(r), name, also_recommends)
            == filtered_reqs(s, name, also_recommends).push(r),
        !keep_req(r, name, also_recommends) ==> filtered_reqs(s.push(r), name, also_recommends)
            == filtered_reqs(s, name, also_recommends),
{
    reveal(Seq::filter);
    assert(s.push(r).drop_last() =~= s);
    assert(s.push(r).last() == r);
}

proof fn lemma_filtered_sub(s: Seq<RequestModel>, name: Seq<char>, also_recommends: bool)
    ensures
        names_unique(s) ==> names_unique(filtered_reqs(s, name, also_recommends)),
        forall|x: RequestModel|
            filtered_reqs(s, name, also_recommends).contains(x) ==> s.contains(x) && keep_req(
                x,
                name,
                also_recommends,
            ),
    decreases s.len(),
{
    reveal(Seq::filter);
    let f = filtered_reqs(s, name, also_recommends);
    if s.len() == 0 {
        assert(f =~= Seq::<RequestModel>::empty());
    } else {
        let d = s.drop_last();
        lemma_filtered_sub(d, name, also_recommends);
        let fd = filtered_reqs(d, name, also_recommends);
        assert(d.push(s.last()) =~= s);
        lemma_filtered_push(d, s.last(), name, also_recommends);
        assert forall|x: RequestModel| f.contains(x) implies s.contains(x) && keep_req(
            x,
            name,
            also_recommends,
        ) by {
            let i = choose|i: int| 0 <= i < f.len() && f[i] == x;
            if keep_req(s.last(), name, also_recommends) && i == f.len() - 1 {
                assert(x == s.last());
                assert(s[s.len() - 1] == x);
            } else {
                assert(fd[i] == x);
                assert(fd.contains(x));
                assert(d.contains(x) && keep_req(x, name, also_recommends));
                let j = choose|j: int| 0 <= j < d.len() && d[j] == x;
                assert(s[j] == x);
            }
        }
        if names_unique(s) {
            assert forall|i: int, j: int| 0 <= i < j < d.len() implies #[trigger] d[i].name
                != #[trigger] d[j].name by {
                assert(s[i].name != s[j].name);
            }
            if keep_req(s.last(), name, also_recommends) {
                assert forall|i: int, j: int| 0 <= i < j < f.len() implies #[trigger] f[i].name
                    != #[trigger] f[j].name by {
                    if j < f.len() - 1 {
                        assert(fd[i].name != fd[j].name);
                    } else {
                        assert(fd.contains(f[i]));
                        assert(d.contains(f[i]));
                        let m = choose|m: int| 0 <= m < d.len() && d[m] == f[i];
                        assert(s[m].name != s[s.len() - 1].name);
                    }
                }
            }
        }
    }
}

/// The request as it stands after `modify` replaced its range and its
/// origin.
pub open spec fn mod_req(
    r: RequestModel,
    added_by: Option<Seq<char>>,
    ver_req: Option<ReqModel>,
) -> RequestModel {
    RequestModel { name: r.name, modify: r.modify, added_by, ver_req, local: r.local }
}

proof fn lemma_bp_unique_filtered(
    user: Seq<RequestModel>,
    vendor: Seq<RequestModel>,
    name: Seq<char>,
    also_recommends: bool,
)
    requires
        bp_names_unique(BlueprintsModel { user, vendor }),
    ensures
        bp_names_unique(
            BlueprintsModel {
                user: filtered_reqs(user, name, also_recommends),
                vendor: filtered_reqs(vendor, name, also_recommends),
            },
        ),
{
    let all = user + vendor;
    assert forall|i: int, j: int| 0 <= i < j < user.len() implies #[trigger] user[i].name
        != #[trigger] user[j].name by {
        assert(all[i] == user[i] && all[j] == user[j]);
    }
    assert forall|i: int, j: int| 0 <= i < j < vendor.len() implies #[trigger] vendor[i].name
        != #[trigger] vendor[j].name by {
        assert(all[user.len() + i] == vendor[i] && all[user.len() + j] == vendor[j]);
    }
    lemma_filtered_sub(user, name, also_recommends);
    lemma_filtered_sub(vendor, name, also_recommends);
    let fu = filtered_reqs(user, name, also_recommends);
    let fv = filtered_reqs(vendor, name, also_recommends);
    let all2 = fu + fv;
    assert forall|i: int, j: int| 0 <= i < j < all2.len() implies #[trigger] all2[i].name
        != #[trigger] all2[j].name by {
        let ul = fu.len() as int;
        if j < ul {
            assert(all2[i] == fu[i] && all2[j] == fu[j]);
        } else if i >= ul {
            assert(all2[i] == fv[i - ul] && all2[j] == fv[j - ul]);
        } else {
            assert(all2[i] == fu[i] && all2[j] == fv[j - ul]);
            assert(fu.contains(fu[i]));
            assert(fv.contains(fv[j - ul]));
            assert(user.contains(fu[i]));
            assert(vendor.contains(fv[j - ul]));
            let p = choose|p: int| 0 <= p < user.len() && user[p] == fu[i];
            let q = choose|q: int| 0 <= q < vendor.len() && vendor[q] == fv[j - ul];
            assert(all[p] == user[p]);
            assert(all[user.len() + q] == vendor[q]);
            assert(all[p].name != all[user.len() + q].name);
        }
    }
}

impl Blueprints {
    /// Record a request for `name`.  A fresh name is appended to the
    /// user list; an existing one is refused unless `modify` is set, in
    /// which case its version range and origin are replaced in place.
    #[verifier::loop_isolation(false)]
    pub fn add(
        &mut self,
        name: &str,
        modify: bool,
        added_by: Option<&str>,
        ver_req: Option<VersionRequirement>,
        local: bool,
    ) -> (r: Result<(), BlueprintError>)
        requires
            bp_names_unique(old(self)@),
        ensures
            bp_names_unique(final(self)@),
            ({
                let existed = reqs_has_name(old(self)@.user + old(self)@.vendor, name@);
                let ab = match added_by {
                    Option::None => Option::<Seq<char>>::None,
                    Option::Some(s) => Option::Some(s@),
                };
                let vr = match ver_req {
                    Option::None => Option::<ReqModel>::None,
                    Option::Some(v) => Option::Some(v@),
                };
                match r {
                    Ok(()) => if !existed {
                        final(self)@.user == old(self)@.user.push(
                            RequestModel { name: name@, modify, added_by: ab, ver_req: vr, local },
                        ) && final(self)@.vendor == old(self)@.vendor
                    } else {
                        modify && ((exists|i: int|
                            0 <= i < old(self)@.user.len() && #[trigger] old(self)@.user[i].name
                                == name@ && final(self)@.user == old(self)@.user.update(
                                i,
                                mod_req(old(self)@.user[i], ab, vr),
                            ) && final(self)@.vendor == old(self)@.vendor) || (exists|i: int|
                            0 <= i < old(self)@.vendor.len() && #[trigger] old(self)@.vendor[i].name == name@ && final(self)@.vendor == old(self)@.vendor.update(i, mod_req(old(self)@.vendor[i], ab, vr)) && final(self)@.user == old(self)@.user))
                    },
                    Err(_) => existed && !modify && final(self)@ == old(self)@,
                }
            }),
    {
        let ghost ab = match added_by {
            Option::None => Option::<Seq<char>>::None,
            Option::Some(s) => Option::Some(s@),
        };
        let ghost vr = match &ver_req {
            Option::None => Option::<ReqModel>::None,
            Option::Some(v) => Option::Some(v@),
        };
        let owned_added_by: Option<String> = match added_by {
            Option::None => Option::None,
            Option::Some(s) => Option::Some(s.to_owned()),
        };
        // look for the name in the user list
        let un = self.user.len();
        let mut i: usize = 0;
        while i < un && !crate::text::str_eq(self.user[i].name.as_str(), name)
            invariant
                0 <= i <= un,
                forall|k: int| 0 <= k < i ==> reqs_view(self.user@)[k].name != name@,
            decreases un - i,
        {
            i = i + 1;
        }
        if i < un {
            proof {
                let all = self@.user + self@.vendor;
                assert(all[i as int].name == name@);
            }
            if !modify {
                return Err(BlueprintError::Duplicate);
            }
            let ghost before = self@.user;
            self.user[i].added_by = owned_added_by;
            self.user[i].ver_req = ver_req;
            proof {
                assert(reqs_view(self.user@) =~= before.update(
                    i as int,
                    mod_req(before[i as int], ab, vr),
                ));
                assert(bp_names_unique(self@)) by {
                    let all_old = before + self@.vendor;
                    let all_new = self@.user + self@.vendor;
                    assert forall|a: int, b: int| 0 <= a < b < all_new.len() implies #[trigger] all_new[a].name
                        != #[trigger] all_new[b].name by {
                        assert(all_new[a].name == all_old[a].name);
                        assert(all_new[b].name == all_old[b].name);
                    }
                }
            }
            return Ok(());
        }
        // then in the vendor list
        let vn = self.vendor.len();
        let mut j: usize = 0;
        while j < vn && !crate::text::str_eq(self.vendor[j].name.as_str(), name)
            invariant
                0 <= j <= vn,
                forall|k: int| 0 <= k < j ==> reqs_view(self.vendor@)[k].name != name@,
            decreases vn - j,
        {
            j = j + 1;
        }
        if j < vn {
            proof {
                let all = self@.user + self@.vendor;
                assert(all[un + j] == reqs_view(self.vendor@)[j as int]);
                assert(all[un + j].name == name@);
            }
            if !modify {
                return Err(BlueprintError::Duplicate);
            }
            let ghost before = self@.vendor;
            self.vendor[j].added_by = owned_added_by;
            self.vendor[j].ver_req = ver_req;
            proof {
                assert(reqs_view(self.vendor@) =~= before.update(
                    j as int,
                    mod_req(before[j as int], ab, vr),
                ));
                assert(bp_names_unique(self@)) by {
                    let all_old = self@.user + before;
                    let all_new = self@.user + self@.vendor;
                    assert forall|a: int, b: int| 0 <= a < b < all_new.len() implies #[trigger] all_new[a].name
                        != #[trigger] all_new[b].name by {
                        assert(all_new[a].name == all_old[a].name);
                        assert(all_new[b].name == all_old[b].name);
                    }
                }
            }
            return Ok(());
        }
        // fresh name: append to the user list
        let req = PkgRequest {
            name: name.to_owned(),
            modify,
            added_by: owned_added_by,
            ver_req,
            local,
        };
        let ghost old_user = self@.user;
        let ghost old_vendor = self@.vendor;
        proof {
            let all = self@.user + self@.vendor;
            assert forall|k: int| 0 <= k < all.len() implies #[trigger] all[k].name != name@ by {
                if k < un {
                    assert(all[k] == reqs_view(self.user@)[k]);
                } else {
                    assert(all[k] == reqs_view(self.vendor@)[k - un]);
                }
            }
        }
        self.user.push(req);
        proof {
            assert(reqs_view(self.user@) =~= old_user.push(
                RequestModel { name: name@, modify, added_by: ab, ver_req: vr, local },
            ));
            lemma_unique_after_push(
                old_user,
                old_vendor,
                RequestModel { name: name@, modify, added_by: ab, ver_req: vr, local },
                true,
            );
        }
        Ok(())
    }

    /// Drop the request for `name`; with `remove_recommends` also every
    /// request that `name`'s recommendation pulled in.
    #[verifier::loop_isolation(false)]
    pub fn remove(&mut self, name: &str, remove_recommends: bool) -> (r: Result<
        (),
        BlueprintError,
    >)
        requires
            bp_names_unique(old(self)@),
        ensures
            bp_names_unique(final(self)@),
            match r {
                Ok(()) => reqs_has_name(old(self)@.user + old(self)@.vendor, name@) && final(self)@.user == filtered_reqs(old(self)@.user, name@, remove_recommends) && final(self)@.vendor == filtered_reqs(old(self)@.vendor, name@, remove_recommends),
                Err(_) => !reqs_has_name(old(self)@.user + old(self)@.vendor, name@) && final(self)@ == old(self)@,
            },
    {
        if !self.contains_name(name) {
            return Err(BlueprintError::NotFound);
        }
        let ghost old_user = self@.user;
        let ghost old_vendor = self@.vendor;
        let mut new_user: Vec<PkgRequest> = Vec::new();
        let mut i: usize = 0;
        let un = self.user.len();
        while i < un
            invariant
                0 <= i <= un,
                reqs_view(new_user@) =~= filtered_reqs(
                    old_user.take(i as int),
                    name@,
                    remove_recommends,
                ),
            decreases un - i,
        {
            let keep_name = !crate::text::str_eq(self.user[i].name.as_str(), name);
            let keep_origin = match &self.user[i].added_by {
                Option::None => true,
                Option::Some(origin) => !(remove_recommends && crate::text::str_eq(
                    origin.as_str(),
                    name,
                )),
            };
            proof {
                assert(old_user.take(i + 1) =~= old_user.take(i as int).push(old_user[i as int]));
                lemma_filtered_push(
                    old_user.take(i as int),
                    old_user[i as int],
                    name@,
                    remove_recommends,
                );
            }
            if keep_name && keep_origin {
                new_user.push(self.user[i].clone());
            }
            i = i + 1;
        }
        proof {
            assert(old_user.take(un as int) =~= old_user);
        }
        let mut new_vendor: Vec<PkgRequest> = Vec::new();
        let mut j: usize = 0;
        let vn = self.vendor.len();
        while j < vn
            invariant
                0 <= j <= vn,
                reqs_view(new_vendor@) =~= filtered_reqs(
                    old_vendor.take(j as int),
                    name@,
                    remove_recommends,
                ),
            decreases vn - j,
        {
            let keep_name = !crate::text::str_eq(self.vendor[j].name.as_str(), name);
            let keep_origin = match &self.vendor[j].added_by {
                Option::None => true,
                Option::Some(origin) => !(remove_recommends && crate::text::str_eq(
                    origin.as_str(),
                    name,
                )),
            };
            proof {
                assert(old_vendor.take(j + 1) =~= old_vendor.take(j as int).push(
                    old_vendor[j as int],
                ));
                lemma_filtered_push(
                    old_vendor.take(j as int),
                    old_vendor[j as int],
                    name@,
                    remove_recommends,
                );
            }
            if keep_name && keep_origin {
                new_vendor.push(self.vendor[j].clone());
            }
            j = j + 1;
        }
        proof {
            assert(old_vendor.take(vn as int) =~= old_vendor);
        }
        self.user = new_user;
        self.vendor = new_vendor;
        proof {
            lemma_bp_unique_filtered(old_user, old_vendor, name@, remove_recommends);
        }
        Ok(())
    }

    /// The union of the user's and the vendor's requests, user first.
    pub fn get_pkg_requests(&self) -> (r: Vec<PkgRequest>)
        ensures
            reqs_view(r@) == self@.user + self@.vendor,
    {
        let mut out: Vec<PkgRequest> = Vec::new();
        let mut i: usize = 0;
        let un = self.user.len();
        while i < un
            invariant
                0 <= i <= un,
                un == self.user@.len(),
                reqs_view(out@) =~= reqs_view(self.user@).take(i as int),
            decreases un - i,
        {
            let ghost before = out@;
            out.push(self.user[i].clone());
            proof {
                assert(reqs_view(out@) =~= reqs_view(before).push(self.user@[i as int]@));
                assert(reqs_view(self.user@).take(i + 1) =~= reqs_view(self.user@).take(
                    i as int,
                ).push(reqs_view(self.user@)[i as int]));
            }
            i = i + 1;
        }
        let mut j: usize = 0;
        let vn = self.vendor.len();
        while j < vn
            invariant
                0 <= j <= vn,
                vn == self.vendor@.len(),
                un == self.user@.len(),
                reqs_view(out@) =~= reqs_view(self.user@) + reqs_view(self.vendor@).take(j as int),
            decreases vn - j,
        {
            let ghost before = out@;
            out.push(self.vendor[j].clone());
            proof {
                assert(reqs_view(out@) =~= reqs_view(before).push(self.vendor@[j as int]@));
                assert(reqs_view(self.vendor@).take(j + 1) =~= reqs_view(self.vendor@).take(
                    j as int,
                ).push(reqs_view(self.vendor@)[j as int]));
            }
            j = j + 1;
        }
        proof {
            assert(reqs_view(self.user@).take(un as int) =~= reqs_view(self.user@));
            assert(reqs_view(self.vendor@).take(vn as int) =~= reqs_view(self.vendor@));
            assert(reqs_view(out@) =~= self@.user + self@.vendor);
        }
        out
    }
}

/// One blueprint-file line: a blank line or a comment carries nothing;
/// any other line is `NAME [VERSION_REQUIREMENT]`, the name running to
/// the first space.  A non-ASCII name or an unreadable requirement makes
/// the line malformed.
pub open spec fn spec_parse_blueprint_line(line: Seq<u8>) -> Option<Option<RequestModel>> {
    let t = crate::ctrl::trim_ws(line);
    if t.len() == 0 || t[0] == 0x23 {
        Some(Option::<RequestModel>::None)
    } else {
        let ne = crate::ctrl::find_first(t, 0x20);
        if !crate::text::all_ascii(t.take(ne)) {
            None
        } else {
            let name = crate::text::bytes_as_chars(t.take(ne));
            let rest = crate::ctrl::trim_ws(t.skip(ne));
            if rest.len() == 0 {
                Some(
                    Some(
                        RequestModel {
                            name,
                            modify: false,
                            added_by: None,
                            ver_req: None,
                            local: false,
                        },
                    ),
                )
            } else {
                match crate::index::spec_parse_constraint(rest) {
                    Some(r) => Some(
                        Some(
                            RequestModel {
                                name,
                                modify: false,
                                added_by: None,
                                ver_req: Some(r),
                                local: false,
                            },
                        ),
                    ),
                    None => None,
                }
            }
        }
    }
}

/// Read one line of a blueprint file.
#[verifier::loop_isolation(false)]
pub fn parse_blueprint_line(line: &Vec<u8>) -> (r: Option<Option<PkgRequest>>)
    ensures
        match r {
            Some(Some(req)) => spec_parse_blueprint_line(line@) == Some(Some(req@)),
            Some(None) => spec_parse_blueprint_line(line@) == Some(Option::<RequestModel>::None),
            None => spec_parse_blueprint_line(line@) is None,
        },
{
    let t = crate::ctrl::exec_trim_ws(line);
    if t.len() == 0 || t[0] == 0x23 {
        return Some(None);
    }
    // the name runs to the first space
    let n = t.len();
    let mut ne: usize = 0;
    while ne < n && t[ne] != 0x20
        invariant
            0 <= ne <= n,
            forall|m: int| 0 <= m < ne ==> #[trigger] t@[m] != 0x20,
        decreases n - ne,
    {
        ne = ne + 1;
    }
    proof {
        crate::ctrl::lemma_find_first_char(t@, 0x20, ne as int);
    }
    let name_bytes = crate::ctrl::copy_range(&t, 0, ne);
    proof {
        assert(name_bytes@ =~= t@.take(ne as int));
    }
    let mut i: usize = 0;
    while i < ne
        invariant
            0 <= i <= ne,
            ne == name_bytes@.len(),
            forall|m: int| 0 <= m < i ==> #[trigger] name_bytes@[m] < 0x80,
        decreases ne - i,
    {
        if name_bytes[i] >= 0x80 {
            proof {
                assert(!crate::text::all_ascii(t@.take(ne as int)));
            }
            return None;
        }
        i = i + 1;
    }
    let name = crate::text::ascii_to_string(&name_bytes);
    let tail = crate::ctrl::copy_range(&t, ne, t.len());
    proof {
        assert(tail@ =~= t@.skip(ne as int));
    }
    let rest = crate::ctrl::exec_trim_ws(&tail);
    if rest.len() == 0 {
        return Some(
            Some(PkgRequest { name, modify: false, added_by: None, ver_req: None, local: false }),
        );
    }
    match crate::index::parse_constraint(&rest) {
        Some(req) => Some(
            Some(
                PkgRequest {
                    name,
                    modify: false,
                    added_by: None,
                    ver_req: Some(req),
                    local: false,
                },
            ),
        ),
        None => None,
    }
}

/// Appending a fresh name to either list keeps the union's names unique.
proof fn lemma_unique_after_push(
    user: Seq<RequestModel>,
    vendor: Seq<RequestModel>,
    req: RequestModel,
    to_user: bool,
)
    requires
        bp_names_unique(BlueprintsModel { user, vendor }),
        !reqs_has_name(user + vendor, req.name),
    ensures
        to_user ==> bp_names_unique(BlueprintsModel { user: user.push(req), vendor }),
        !to_user ==> bp_names_unique(BlueprintsModel { user, vendor: vendor.push(req) }),
{
    let all = user + vendor;
    if to_user {
        let all2 = user.push(req) + vendor;
        assert forall|i: int, j: int| 0 <= i < j < all2.len() implies #[trigger] all2[i].name
            != #[trigger] all2[j].name by {
            let ul = user.len() as int;
            let pos = |x: int| if x < ul { all[x] } else if x == ul { req } else { all[x - 1] };
            assert(all2[i] == pos(i));
            assert(all2[j] == pos(j));
            if i < ul && j == ul {
                assert(all[i] == all2[i]);
                assert(!(all[i].name == req.name));
            } else if i == ul {
                assert(all2[j] == all[j - 1]);
                assert(!(all[j - 1].name == req.name));
            } else if i < ul && j > ul {
                assert(all2[i] == all[i] && all2[j] == all[j - 1]);
            } else if i > ul {
                assert(all2[i] == all[i - 1] && all2[j] == all[j - 1]);
            } else {
                assert(all2[i] == all[i] && all2[j] == all[j]);
            }
        }
    } else {
        let all2 = user + vendor.push(req);
        assert(all2 =~= all.push(req));
        assert forall|i: int, j: int| 0 <= i < j < all2.len() implies #[trigger] all2[i].name
            != #[trigger] all2[j].name by {
            if j == all.len() {
                assert(all2[i] == all[i]);
                assert(!(all[i].name == req.name));
            } else {
                assert(all2[i] == all[i] && all2[j] == all[j]);
            }
        }
    }
}

} // verus!
