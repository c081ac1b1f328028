//! Dependency resolution: the pool and the blueprint are encoded as CNF
//! clauses over pool ids, an outside SAT solver searches for a model,
//! and a verified checker validates every model before it is returned.
//!
//! Nothing is trusted about the solver's answers: a claimed model is
//! re-checked against the pool (`selection_ok`) and the requests
//! (`request_satisfied`), so a returned selection provably satisfies
//! every dependency, breaks no package, conflicts with nothing, and
//! holds at most one version of each name.

use crate::blueprint::{Blueprints, PkgRequest, RequestModel};
use crate::pool::{
    has_provide, id_of, valid_id, PackagePool, PkgMeta, PkgMetaModel, PoolModel, SourceModel,
};
use crate::version::{req_within, ReqModel, VersionRequirement};
use vstd::prelude::*;
use vstd::string::StringSliceAdditionalSpecFns;

verus! {

#[verifier::external_type_specification]
#[verifier::external_body]
pub struct ExSolver<'a>(varisat::Solver<'a>);

/// Relies on `varisat::Solver::new`: a fresh solver with an empty formula.
#[verifier::external_body]
fn solver_new() -> varisat::Solver<'static> {
    varisat::Solver::new()
}

/// Relies on varisat's `ExtendFormula::add_clause`; `Lit::from_dimacs`
/// converts each literal, so literals must be non-zero, and their
/// variable index (the magnitude minus one) must stay within varisat's
/// supported range, `u32::MAX >> 4`: a larger index panics under debug
/// assertions and collides with the variable map's sentinel otherwise.
#[verifier::external_body]
fn solver_add_clause(s: &mut varisat::Solver<'static>, clause: &Vec<i64>)
    requires
        forall|k: int|
            0 <= k < clause@.len() ==> #[trigger] clause@[k] != 0 && -0x1000_0000
                <= clause@[k] <= 0x1000_0000,
{
    let lits: Vec<varisat::Lit> = clause.iter().map(
        |x: &i64| varisat::Lit::from_dimacs(*x as isize),
    ).collect();
    varisat::ExtendFormula::add_clause(s, &lits);
}

/// Relies on `varisat::Solver::solve`: `Some(true)` when satisfiable
/// under the current assumptions, `Some(false)` when not, `None` when
/// the solver failed.  Nothing more is assumed of the answer.
#[verifier::external_body]
fn solver_solve(s: &mut varisat::Solver<'static>) -> (r: Option<bool>)
{
    match s.solve() {
        Ok(sat) => Some(sat),
        Err(_) => None,
    }
}

/// Relies on `varisat::Solver::model`: present after a satisfiable
/// solve; each entry is one variable as a non-zero DIMACS literal.
#[verifier::external_body]
fn solver_model(s: &varisat::Solver<'static>) -> (r: Option<Vec<i64>>)
    ensures
        match r {
            Some(m) => forall|k: int| 0 <= k < m@.len() ==> #[trigger] m@[k] != 0,
            None => true,
        },
{
    s.model().map(|lits| lits.iter().map(|l| l.to_dimacs() as i64).collect())
}

/// The selected id satisfies one dependency entry: some selected
/// package carries the wanted name at a version in range, or provides
/// it compatibly.
pub open spec fn dep_satisfied(p: PoolModel, sel: Seq<usize>, d: (Seq<char>, ReqModel)) -> bool {
    exists|k: int|
        0 <= k < sel.len() && valid_id(p, #[trigger] sel[k] as int) && (
        (id_of(p, sel[k] as int).name == d.0 && req_within(d.1, id_of(p, sel[k] as int).version))
            || has_provide(id_of(p, sel[k] as int), d.0, d.1))
}

/// No other selected id carries the named package at a version in the
/// entry's range: `id` may declare it broken or conflicting.
pub open spec fn entry_unopposed(p: PoolModel, sel: Seq<usize>, id: usize, e: (Seq<char>, ReqModel)) -> bool {
    forall|k: int|
        0 <= k < sel.len() && #[trigger] sel[k] != id ==> !(id_of(p, sel[k] as int).name == e.0
            && req_within(e.1, id_of(p, sel[k] as int).version))
}

/// The selection is sound against the pool: ids valid, at most one
/// version of a name, every dependency satisfied within the selection,
/// and no breaks or conflicts entry of a selected package matched by
/// another selected package.
pub open spec fn selection_ok(p: PoolModel, sel: Seq<usize>) -> bool {
    &&& forall|k: int| 0 <= k < sel.len() ==> valid_id(p, #[trigger] sel[k] as int)
    &&& forall|k1: int, k2: int|
        0 <= k1 < k2 < sel.len() ==> id_of(p, #[trigger] sel[k1] as int).name != id_of(
            p,
            #[trigger] sel[k2] as int,
        ).name
    &&& forall|k: int, d: int|
        0 <= k < sel.len() && 0 <= d < id_of(p, #[trigger] sel[k] as int).depends.len()
            ==> dep_satisfied(p, sel, #[trigger] id_of(p, sel[k] as int).depends[d])
    &&& forall|k: int, b: int|
        0 <= k < sel.len() && 0 <= b < id_of(p, #[trigger] sel[k] as int).breaks.len()
            ==> entry_unopposed(p, sel, sel[k], #[trigger] id_of(p, sel[k] as int).breaks[b])
    &&& forall|k: int, b: int|
        0 <= k < sel.len() && 0 <= b < id_of(p, #[trigger] sel[k] as int).conflicts.len()
            ==> entry_unopposed(p, sel, sel[k], #[trigger] id_of(p, sel[k] as int).conflicts[b])
}

/// The pool id can stand for the request: same name, version in the
/// requested range, and a local source when the request demands one.
pub open spec fn candidate_ok(p: PoolModel, req: RequestModel, id: usize) -> bool {
    &&& valid_id(p, id as int)
    &&& id_of(p, id as int).name == req.name
    &&& match req.ver_req {
        Option::Some(vr) => req_within(vr, id_of(p, id as int).version),
        Option::None => true,
    }
    &&& req.local ==> (id_of(p, id as int).source is Local)
}

/// Some selected id stands for the request.
pub open spec fn request_satisfied(p: PoolModel, sel: Seq<usize>, req: RequestModel) -> bool {
    exists|k: int| 0 <= k < sel.len() && candidate_ok(p, req, #[trigger] sel[k])
}

/// Does the selected id set satisfy this dependency entry?
#[verifier::loop_isolation(false)]
fn check_dep(pool: &PackagePool, sel: &Vec<usize>, dname: &String, dreq: &VersionRequirement) -> (r:
    bool)
    ensures
        r == dep_satisfied(pool@, sel@, (dname@, dreq@)),
{
    let n = sel.len();
    let mut k: usize = 0;
    while k < n
        invariant
            0 <= k <= n,
            forall|j: int|
                0 <= j < k ==> !(valid_id(pool@, #[trigger] sel@[j] as int) && ((id_of(
                    pool@,
                    sel@[j] as int,
                ).name == dname@ && req_within(dreq@, id_of(pool@, sel@[j] as int).version))
                    || has_provide(id_of(pool@, sel@[j] as int), dname@, dreq@))),
        decreases n - k,
    {
        match pool.get_pkg_by_id(sel[k]) {
            Some(meta) => {
                let name_matches = crate::text::str_eq(meta.name.as_str(), dname.as_str());
                if name_matches && dreq.within(&meta.version) {
                    return true;
                }
                if crate::pool::meta_has_provide(meta, dname.as_str(), dreq) {
                    return true;
                }
            },
            None => {},
        }
        k = k + 1;
    }
    false
}

/// Does any other selected id match this breaks/conflicts entry?
#[verifier::loop_isolation(false)]
fn check_unopposed(
    pool: &PackagePool,
    sel: &Vec<usize>,
    id: usize,
    ename: &String,
    ereq: &VersionRequirement,
) -> (r: bool)
    requires
        forall|k: int| 0 <= k < sel@.len() ==> valid_id(pool@, #[trigger] sel@[k] as int),
    ensures
        r == entry_unopposed(pool@, sel@, id, (ename@, ereq@)),
{
    let n = sel.len();
    let mut k: usize = 0;
    while k < n
        invariant
            0 <= k <= n,
            forall|j: int|
                0 <= j < k && #[trigger] sel@[j] != id ==> !(id_of(pool@, sel@[j] as int).name
                    == ename@ && req_within(ereq@, id_of(pool@, sel@[j] as int).version)),
        decreases n - k,
    {
        if sel[k] != id {
            match pool.get_pkg_by_id(sel[k]) {
                Some(meta) => {
                    let name_matches = crate::text::str_eq(meta.name.as_str(), ename.as_str());
                    if name_matches && ereq.within(&meta.version) {
                        return false;
                    }
                },
                None => {},
            }
        }
        k = k + 1;
    }
    true
}

/// Validate a claimed model: every clause family of the encoding,
/// re-checked directly against the pool.
#[verifier::loop_isolation(false)]
#[verifier::rlimit(60)]
pub fn check_selection(pool: &PackagePool, sel: &Vec<usize>) -> (r: bool)
    ensures
        r == selection_ok(pool@, sel@),
{
    let n = sel.len();
    // ids valid
    let mut k: usize = 0;
    while k < n
        invariant
            0 <= k <= n,
            forall|j: int| 0 <= j < k ==> valid_id(pool@, #[trigger] sel@[j] as int),
        decreases n - k,
    {
        if sel[k] == 0 || sel[k] > pool.len() {
            return false;
        }
        k = k + 1;
    }
    // at most one version of a name
    let mut k1: usize = 0;
    while k1 < n
        invariant
            0 <= k1 <= n,
            forall|j: int| 0 <= j < n ==> valid_id(pool@, #[trigger] sel@[j] as int),
            forall|a: int, b: int|
                0 <= a < b < n && a < k1 ==> id_of(pool@, #[trigger] sel@[a] as int).name != id_of(
                    pool@,
                    #[trigger] sel@[b] as int,
                ).name,
        decreases n - k1,
    {
        let meta1 = match pool.get_pkg_by_id(sel[k1]) {
            Some(m) => m,
            None => {
                return false;
            },
        };
        let mut k2: usize = k1 + 1;
        while k2 < n
            invariant
                0 <= k1 < k2 <= n,
                meta1@ == id_of(pool@, sel@[k1 as int] as int),
                forall|b: int|
                    k1 < b < k2 ==> id_of(pool@, sel@[k1 as int] as int).name != id_of(
                        pool@,
                        #[trigger] sel@[b] as int,
                    ).name,
            decreases n - k2,
        {
            let meta2 = match pool.get_pkg_by_id(sel[k2]) {
                Some(m) => m,
                None => {
                    return false;
                },
            };
            if crate::text::str_eq(meta1.name.as_str(), meta2.name.as_str()) {
                return false;
            }
            k2 = k2 + 1;
        }
        k1 = k1 + 1;
    }
    // dependencies, breaks and conflicts of every selected package
    let mut k: usize = 0;
    while k < n
        invariant
            0 <= k <= n,
            forall|j: int| 0 <= j < n ==> valid_id(pool@, #[trigger] sel@[j] as int),
            forall|a: int, b: int|
                0 <= a < b < n ==> id_of(pool@, #[trigger] sel@[a] as int).name != id_of(
                    pool@,
                    #[trigger] sel@[b] as int,
                ).name,
            forall|j: int, d: int|
                0 <= j < k && 0 <= d < id_of(pool@, #[trigger] sel@[j] as int).depends.len()
                    ==> dep_satisfied(pool@, sel@, #[trigger] id_of(pool@, sel@[j] as int).depends[d]),
            forall|j: int, b: int|
                0 <= j < k && 0 <= b < id_of(pool@, #[trigger] sel@[j] as int).breaks.len()
                    ==> entry_unopposed(
                    pool@,
                    sel@,
                    sel@[j],
                    #[trigger] id_of(pool@, sel@[j] as int).breaks[b],
                ),
            forall|j: int, b: int|
                0 <= j < k && 0 <= b < id_of(pool@, #[trigger] sel@[j] as int).conflicts.len()
                    ==> entry_unopposed(
                    pool@,
                    sel@,
                    sel@[j],
                    #[trigger] id_of(pool@, sel@[j] as int).conflicts[b],
                ),
        decreases n - k,
    {
        let meta = match pool.get_pkg_by_id(sel[k]) {
            Some(m) => m,
            None => {
                return false;
            },
        };
        let nd = meta.depends.len();
        let mut d: usize = 0;
        while d < nd
            invariant
                0 <= d <= nd,
                nd == meta.depends@.len(),
                meta@ == id_of(pool@, sel@[k as int] as int),
                forall|e: int|
                    0 <= e < d ==> dep_satisfied(
                        pool@,
                        sel@,
                        #[trigger] id_of(pool@, sel@[k as int] as int).depends[e],
                    ),
            decreases nd - d,
        {
            proof {
                assert(id_of(pool@, sel@[k as int] as int).depends[d as int] == (
                meta.depends@[d as int].0@,
                meta.depends@[d as int].1@,
                ));
            }
            if !check_dep(pool, sel, &meta.depends[d].0, &meta.depends[d].1) {
                proof {
                    assert(!dep_satisfied(
                        pool@,
                        sel@,
                        id_of(pool@, sel@[k as int] as int).depends[d as int],
                    ));
                }
                return false;
            }
            d = d + 1;
        }
        let nb = meta.breaks.len();
        let mut b: usize = 0;
        while b < nb
            invariant
                0 <= b <= nb,
                nb == meta.breaks@.len(),
                meta@ == id_of(pool@, sel@[k as int] as int),
                forall|e: int|
                    0 <= e < b ==> entry_unopposed(
                        pool@,
                        sel@,
                        sel@[k as int],
                        #[trigger] id_of(pool@, sel@[k as int] as int).breaks[e],
                    ),
            decreases nb - b,
        {
            proof {
                assert(id_of(pool@, sel@[k as int] as int).breaks[b as int] == (
                meta.breaks@[b as int].0@,
                meta.breaks@[b as int].1@,
                ));
            }
            if !check_unopposed(pool, sel, sel[k], &meta.breaks[b].0, &meta.breaks[b].1) {
                proof {
                    assert(!entry_unopposed(
                        pool@,
                        sel@,
                        sel@[k as int],
                        id_of(pool@, sel@[k as int] as int).breaks[b as int],
                    ));
                }
                return false;
            }
            b = b + 1;
        }
        let nc = meta.conflicts.len();
        let mut c: usize = 0;
        while c < nc
            invariant
                0 <= c <= nc,
                nc == meta.conflicts@.len(),
                meta@ == id_of(pool@, sel@[k as int] as int),
                forall|e: int|
                    0 <= e < c ==> entry_unopposed(
                        pool@,
                        sel@,
                        sel@[k as int],
                        #[trigger] id_of(pool@, sel@[k as int] as int).conflicts[e],
                    ),
            decreases nc - c,
        {
            proof {
                assert(id_of(pool@, sel@[k as int] as int).conflicts[c as int] == (
                meta.conflicts@[c as int].0@,
                meta.conflicts@[c as int].1@,
                ));
            }
            if !check_unopposed(pool, sel, sel[k], &meta.conflicts[c].0, &meta.conflicts[c].1) {
                proof {
                    assert(!entry_unopposed(
                        pool@,
                        sel@,
                        sel@[k as int],
                        id_of(pool@, sel@[k as int] as int).conflicts[c as int],
                    ));
                }
                return false;
            }
            c = c + 1;
        }
        k = k + 1;
    }
    true
}

/// Every literal of the clause can be handed to the SAT solver.
pub open spec fn clause_lits_ok(c: Seq<i64>) -> bool {
    forall|k: int| 0 <= k < c.len() ==> #[trigger] c[k] != 0 && -0x1000_0000 <= c[k] <= 0x1000_0000
}

/// The id can satisfy the dependency entry: it carries the wanted name
/// at a version in range, or provides it compatibly.
pub open spec fn dep_matches(p: PoolModel, q: int, d: (Seq<char>, ReqModel)) -> bool {
    (id_of(p, q).name == d.0 && req_within(d.1, id_of(p, q).version)) || has_provide(
        id_of(p, q),
        d.0,
        d.1,
    )
}

/// The positive literals of a dependency clause, ascending from id `q`:
/// every pool id that can satisfy the entry.
pub open spec fn dep_cands_from(p: PoolModel, d: (Seq<char>, ReqModel), q: int) -> Seq<i64>
    decreases p.pkgs.len() - q + 1 when 1 <= q <= p.pkgs.len() + 1
{
    if q < 1 || q > p.pkgs.len() {
        Seq::<i64>::empty()
    } else {
        (if dep_matches(p, q, d) {
            seq![q as i64]
        } else {
            Seq::<i64>::empty()
        }) + dep_cands_from(p, d, q + 1)
    }
}

/// The dependency clause of entry `d` of package `id`: not `id`, or one
/// of the candidates.
pub open spec fn dep_clause(p: PoolModel, id: int, d: (Seq<char>, ReqModel)) -> Seq<i64> {
    seq![(-(id as int)) as i64] + dep_cands_from(p, d, 1)
}

/// The dependency clauses of package `id`, from its entry `d` on.
pub open spec fn dep_clauses_from(p: PoolModel, id: int, d: int) -> Seq<Seq<i64>>
    decreases id_of(p, id).depends.len() - d when 0 <= d <= id_of(p, id).depends.len()
{
    if d < 0 || d >= id_of(p, id).depends.len() {
        Seq::<Seq<i64>>::empty()
    } else {
        seq![dep_clause(p, id, id_of(p, id).depends[d])] + dep_clauses_from(p, id, d + 1)
    }
}

/// The id matches a breaks or conflicts entry: the entry's name at a
/// version in the entry's range.
pub open spec fn opp_matches(p: PoolModel, q: int, e: (Seq<char>, ReqModel)) -> bool {
    id_of(p, q).name == e.0 && req_within(e.1, id_of(p, q).version)
}

/// One two-literal clause forbidding `id` together with each matching
/// id, ascending from `q`.
pub open spec fn opp_clauses_from(p: PoolModel, id: int, e: (Seq<char>, ReqModel), q: int) -> Seq<
    Seq<i64>,
>
    decreases p.pkgs.len() - q + 1 when 1 <= q <= p.pkgs.len() + 1
{
    if q < 1 || q > p.pkgs.len() {
        Seq::<Seq<i64>>::empty()
    } else {
        (if q != id && opp_matches(p, q, e) {
            seq![seq![(-(id as int)) as i64, (-(q as int)) as i64]]
        } else {
            Seq::<Seq<i64>>::empty()
        }) + opp_clauses_from(p, id, e, q + 1)
    }
}

/// The breaks clauses of package `id`, from its entry `b` on.
pub open spec fn brk_clauses_from(p: PoolModel, id: int, b: int) -> Seq<Seq<i64>>
    decreases id_of(p, id).breaks.len() - b when 0 <= b <= id_of(p, id).breaks.len()
{
    if b < 0 || b >= id_of(p, id).breaks.len() {
        Seq::<Seq<i64>>::empty()
    } else {
        opp_clauses_from(p, id, id_of(p, id).breaks[b], 1) + brk_clauses_from(p, id, b + 1)
    }
}

/// The conflicts clauses of package `id`, from its entry `b` on.
pub open spec fn cfl_clauses_from(p: PoolModel, id: int, b: int) -> Seq<Seq<i64>>
    decreases id_of(p, id).conflicts.len() - b when 0 <= b <= id_of(p, id).conflicts.len()
{
    if b < 0 || b >= id_of(p, id).conflicts.len() {
        Seq::<Seq<i64>>::empty()
    } else {
        opp_clauses_from(p, id, id_of(p, id).conflicts[b], 1) + cfl_clauses_from(p, id, b + 1)
    }
}

/// The at-most-one clauses of package `id`: one per same-name id above
/// it, ascending from `q`.
pub open spec fn amo_clauses_from(p: PoolModel, id: int, q: int) -> Seq<Seq<i64>>
    decreases p.pkgs.len() - q + 1 when 1 <= q <= p.pkgs.len() + 1
{
    if q < 1 || q > p.pkgs.len() {
        Seq::<Seq<i64>>::empty()
    } else {
        (if q > id && id_of(p, q).name == id_of(p, id).name {
            seq![seq![(-(id as int)) as i64, (-(q as int)) as i64]]
        } else {
            Seq::<Seq<i64>>::empty()
        }) + amo_clauses_from(p, id, q + 1)
    }
}

/// Every clause the pool's rules contribute for package `id`: its
/// dependency, breaks, conflicts and at-most-one clauses, in that order.
pub open spec fn id_clauses(p: PoolModel, id: int) -> Seq<Seq<i64>> {
    dep_clauses_from(p, id, 0) + brk_clauses_from(p, id, 0) + cfl_clauses_from(p, id, 0)
        + amo_clauses_from(p, id, 1)
}

/// The pool's whole CNF encoding, ascending from id `q`.
pub open spec fn pool_clauses_from(p: PoolModel, q: int) -> Seq<Seq<i64>>
    decreases p.pkgs.len() - q + 1 when 1 <= q <= p.pkgs.len() + 1
{
    if q < 1 || q > p.pkgs.len() {
        Seq::<Seq<i64>>::empty()
    } else {
        id_clauses(p, q) + pool_clauses_from(p, q + 1)
    }
}

/// The CNF encoding of the pool's rules, clause by clause.
pub open spec fn pool_clauses(p: PoolModel) -> Seq<Seq<i64>> {
    pool_clauses_from(p, 1)
}

/// The positive literals of a request clause, ascending from id `q`:
/// every pool id that can stand for the request.
pub open spec fn req_cands_from(p: PoolModel, req: RequestModel, q: int) -> Seq<i64>
    decreases p.pkgs.len() - q + 1 when 1 <= q <= p.pkgs.len() + 1
{
    if q < 1 || q > p.pkgs.len() {
        Seq::<i64>::empty()
    } else {
        (if candidate_ok(p, req, q as usize) {
            seq![q as i64]
        } else {
            Seq::<i64>::empty()
        }) + req_cands_from(p, req, q + 1)
    }
}

/// The clause demanding a candidate of one request.
pub open spec fn request_clause(p: PoolModel, req: RequestModel) -> Seq<i64> {
    req_cands_from(p, req, 1)
}

/// One clause per request, from request `i` on.
pub open spec fn request_clauses_from(p: PoolModel, reqs: Seq<RequestModel>, i: int) -> Seq<
    Seq<i64>,
>
    decreases reqs.len() - i when 0 <= i <= reqs.len()
{
    if i < 0 || i >= reqs.len() {
        Seq::<Seq<i64>>::empty()
    } else {
        seq![request_clause(p, reqs[i])] + request_clauses_from(p, reqs, i + 1)
    }
}

/// The CNF encoding of the blueprint's requests, clause by clause.
pub open spec fn request_clauses(p: PoolModel, reqs: Seq<RequestModel>) -> Seq<Seq<i64>> {
    request_clauses_from(p, reqs, 0)
}

/// The byte-for-byte content of a clause list.
pub open spec fn clauses_view(s: Seq<Vec<i64>>) -> Seq<Seq<i64>> {
    s.map(|_i: int, c: Vec<i64>| c@)
}

/// Encode the pool's rules as CNF clauses over pool ids: exactly the
/// dependency, breaks, conflicts and at-most-one clause families of
/// `pool_clauses`.
#[verifier::loop_isolation(false)]
#[verifier::rlimit(100)]
fn encode_pool(pool: &PackagePool) -> (r: Vec<Vec<i64>>)
    requires
        pool.wf(),
        pool@.pkgs.len() < 0x1000_0000,
    ensures
        clauses_view(r@) == pool_clauses(pool@),
        forall|j: int| 0 <= j < r@.len() ==> clause_lits_ok(#[trigger] r@[j]@),
{
    let n = pool.len();
    let mut clauses: Vec<Vec<i64>> = Vec::new();
    let mut id: usize = 1;
    proof {
        assert(clauses_view(clauses@) =~= Seq::<Seq<i64>>::empty());
    }
    while id <= n
        invariant
            1 <= id <= n + 1,
            forall|j: int| 0 <= j < clauses@.len() ==> clause_lits_ok(#[trigger] clauses@[j]@),
            pool_clauses(pool@) == clauses_view(clauses@) + pool_clauses_from(pool@, id as int),
        decreases n + 1 - id,
    {
        let meta = match pool.get_pkg_by_id(id) {
            Some(m) => m,
            None => {
                proof {
                    assert(false);
                }
                return clauses;
            },
        };
        let ghost base0 = clauses_view(clauses@);
        // dependency clauses
        let nd = meta.depends.len();
        let mut d: usize = 0;
        while d < nd
            invariant
                0 <= d <= nd,
                nd == id_of(pool@, id as int).depends.len(),
                meta@ == id_of(pool@, id as int),
                forall|j: int| 0 <= j < clauses@.len() ==> clause_lits_ok(#[trigger] clauses@[j]@),
                base0 + dep_clauses_from(pool@, id as int, 0) == clauses_view(clauses@)
                    + dep_clauses_from(pool@, id as int, d as int),
            decreases nd - d,
        {
            let dname = &meta.depends[d].0;
            let dreq = &meta.depends[d].1;
            let ghost dm = id_of(pool@, id as int).depends[d as int];
            proof {
                assert(dm == (dname@, dreq@));
            }
            let mut clause: Vec<i64> = Vec::new();
            clause.push(-(id as i64));
            let mut q: usize = 1;
            proof {
                assert(seq![(-(id as int)) as i64] + dep_cands_from(pool@, dm, 1) =~= clause@
                    + dep_cands_from(pool@, dm, 1));
            }
            while q <= n
                invariant
                    1 <= q <= n + 1,
                    clause_lits_ok(clause@),
                    seq![(-(id as int)) as i64] + dep_cands_from(pool@, dm, 1) == clause@ + dep_cands_from(
                        pool@,
                        dm,
                        q as int,
                    ),
                decreases n + 1 - q,
            {
                let qmeta = match pool.get_pkg_by_id(q) {
                    Some(m) => m,
                    None => {
                        proof {
                            assert(false);
                        }
                        return clauses;
                    },
                };
                let ghost before = clause@;
                let name_matches = crate::text::str_eq(qmeta.name.as_str(), dname.as_str());
                let hit = (name_matches && dreq.within(&qmeta.version)) || crate::pool::meta_has_provide(
                    qmeta,
                    dname.as_str(),
                    dreq,
                );
                if hit {
                    clause.push(q as i64);
                }
                proof {
                    assert(hit == dep_matches(pool@, q as int, dm));
                    if hit {
                        assert(clause@ =~= before + seq![q as i64]);
                        assert(before + dep_cands_from(pool@, dm, q as int) =~= clause@
                            + dep_cands_from(pool@, dm, q + 1));
                    } else {
                        assert(before + dep_cands_from(pool@, dm, q as int) =~= clause@
                            + dep_cands_from(pool@, dm, q + 1));
                    }
                }
                q = q + 1;
            }
            proof {
                assert(dep_cands_from(pool@, dm, n + 1) =~= Seq::<i64>::empty());
                assert(clause@ + Seq::<i64>::empty() =~= clause@);
                assert(clause@ == dep_clause(pool@, id as int, dm));
            }
            let ghost before_cl = clauses@;
            clauses.push(clause);
            proof {
                assert(clauses_view(clauses@) =~= clauses_view(before_cl) + seq![
                    dep_clause(pool@, id as int, dm),
                ]);
                assert(dep_clauses_from(pool@, id as int, d as int) == seq![
                    dep_clause(pool@, id as int, dm),
                ] + dep_clauses_from(pool@, id as int, d + 1));
                assert(base0 + dep_clauses_from(pool@, id as int, 0) =~= clauses_view(clauses@)
                    + dep_clauses_from(pool@, id as int, d + 1));
            }
            d = d + 1;
        }
        proof {
            assert(dep_clauses_from(pool@, id as int, nd as int) =~= Seq::<Seq<i64>>::empty());
            assert(clauses_view(clauses@) =~= base0 + dep_clauses_from(pool@, id as int, 0));
        }
        // breaks clauses
        let ghost base1 = clauses_view(clauses@);
        let nb = meta.breaks.len();
        let mut b: usize = 0;
        while b < nb
            invariant
                0 <= b <= nb,
                nb == id_of(pool@, id as int).breaks.len(),
                meta@ == id_of(pool@, id as int),
                forall|j: int| 0 <= j < clauses@.len() ==> clause_lits_ok(#[trigger] clauses@[j]@),
                base1 + brk_clauses_from(pool@, id as int, 0) == clauses_view(clauses@)
                    + brk_clauses_from(pool@, id as int, b as int),
            decreases nb - b,
        {
            let ename = &meta.breaks[b].0;
            let ereq = &meta.breaks[b].1;
            let ghost em = id_of(pool@, id as int).breaks[b as int];
            proof {
                assert(em == (ename@, ereq@));
            }
            push_opp_clauses(pool, &mut clauses, id, ename, ereq, Ghost(em));
            proof {
                assert(brk_clauses_from(pool@, id as int, b as int) == opp_clauses_from(
                    pool@,
                    id as int,
                    em,
                    1,
                ) + brk_clauses_from(pool@, id as int, b + 1));
                assert(base1 + brk_clauses_from(pool@, id as int, 0) =~= clauses_view(clauses@)
                    + brk_clauses_from(pool@, id as int, b + 1));
            }
            b = b + 1;
        }
        proof {
            assert(brk_clauses_from(pool@, id as int, nb as int) =~= Seq::<Seq<i64>>::empty());
            assert(clauses_view(clauses@) =~= base1 + brk_clauses_from(pool@, id as int, 0));
        }
        // conflicts clauses
        let ghost base2 = clauses_view(clauses@);
        let nc = meta.conflicts.len();
        let mut cc: usize = 0;
        while cc < nc
            invariant
                0 <= cc <= nc,
                nc == id_of(pool@, id as int).conflicts.len(),
                meta@ == id_of(pool@, id as int),
                forall|j: int| 0 <= j < clauses@.len() ==> clause_lits_ok(#[trigger] clauses@[j]@),
                base2 + cfl_clauses_from(pool@, id as int, 0) == clauses_view(clauses@)
                    + cfl_clauses_from(pool@, id as int, cc as int),
            decreases nc - cc,
        {
            let ename = &meta.conflicts[cc].0;
            let ereq = &meta.conflicts[cc].1;
            let ghost em = id_of(pool@, id as int).conflicts[cc as int];
            proof {
                assert(em == (ename@, ereq@));
            }
            push_opp_clauses(pool, &mut clauses, id, ename, ereq, Ghost(em));
            proof {
                assert(cfl_clauses_from(pool@, id as int, cc as int) == opp_clauses_from(
                    pool@,
                    id as int,
                    em,
                    1,
                ) + cfl_clauses_from(pool@, id as int, cc + 1));
                assert(base2 + cfl_clauses_from(pool@, id as int, 0) =~= clauses_view(clauses@)
                    + cfl_clauses_from(pool@, id as int, cc + 1));
            }
            cc = cc + 1;
        }
        proof {
            assert(cfl_clauses_from(pool@, id as int, nc as int) =~= Seq::<Seq<i64>>::empty());
            assert(clauses_view(clauses@) =~= base2 + cfl_clauses_from(pool@, id as int, 0));
        }
        // at most one id of this name
        let ghost base3 = clauses_view(clauses@);
        let mut q: usize = 1;
        while q <= n
            invariant
                1 <= q <= n + 1,
                meta@ == id_of(pool@, id as int),
                forall|j: int| 0 <= j < clauses@.len() ==> clause_lits_ok(#[trigger] clauses@[j]@),
                base3 + amo_clauses_from(pool@, id as int, 1) == clauses_view(clauses@)
                    + amo_clauses_from(pool@, id as int, q as int),
            decreases n + 1 - q,
        {
            let qmeta = match pool.get_pkg_by_id(q) {
                Some(m) => m,
                None => {
                    proof {
                        assert(false);
                    }
                    return clauses;
                },
            };
            let ghost before_cl = clauses@;
            if q > id && crate::text::str_eq(qmeta.name.as_str(), meta.name.as_str()) {
                let mut clause: Vec<i64> = Vec::new();
                clause.push(-(id as i64));
                clause.push(-(q as i64));
                proof {
                    assert(clause@ =~= seq![(-(id as int)) as i64, (-(q as int)) as i64]);
                    assert(clause_lits_ok(clause@));
                }
                clauses.push(clause);
                proof {
                    assert(clauses_view(clauses@) =~= clauses_view(before_cl) + seq![
                        seq![(-(id as int)) as i64, (-(q as int)) as i64],
                    ]);
                }
            }
            proof {
                assert(clauses_view(before_cl) + amo_clauses_from(pool@, id as int, q as int)
                    =~= clauses_view(clauses@) + amo_clauses_from(pool@, id as int, q + 1));
            }
            q = q + 1;
        }
        proof {
            assert(amo_clauses_from(pool@, id as int, n + 1) =~= Seq::<Seq<i64>>::empty());
            assert(clauses_view(clauses@) =~= base3 + amo_clauses_from(pool@, id as int, 1));
            assert(clauses_view(clauses@) =~= base0 + id_clauses(pool@, id as int));
            assert(pool_clauses_from(pool@, id as int) == id_clauses(pool@, id as int)
                + pool_clauses_from(pool@, id + 1));
            assert(pool_clauses(pool@) =~= clauses_view(clauses@) + pool_clauses_from(
                pool@,
                id + 1,
            ));
        }
        id = id + 1;
    }
    proof {
        assert(pool_clauses_from(pool@, n + 1) =~= Seq::<Seq<i64>>::empty());
        assert(clauses_view(clauses@) + Seq::<Seq<i64>>::empty() =~= clauses_view(clauses@));
    }
    clauses
}

/// Append the opposition clauses of one breaks or conflicts entry of
/// `id`: one two-literal clause per matching id, ascending.
#[verifier::loop_isolation(false)]
fn push_opp_clauses(
    pool: &PackagePool,
    clauses: &mut Vec<Vec<i64>>,
    id: usize,
    ename: &String,
    ereq: &VersionRequirement,
    Ghost(em): Ghost<(Seq<char>, ReqModel)>,
)
    requires
        pool.wf(),
        pool@.pkgs.len() < 0x1000_0000,
        1 <= id <= pool@.pkgs.len(),
        em == (ename@, ereq@),
        forall|j: int| 0 <= j < old(clauses)@.len() ==> clause_lits_ok(#[trigger] old(clauses)@[j]@),
    ensures
        clauses_view(final(clauses)@) == clauses_view(old(clauses)@) + opp_clauses_from(
            pool@,
            id as int,
            em,
            1,
        ),
        forall|j: int|
            0 <= j < final(clauses)@.len() ==> clause_lits_ok(#[trigger] final(clauses)@[j]@),
{
    let n = pool.len();
    let ghost base = clauses_view(clauses@);
    let mut q: usize = 1;
    while q <= n
        invariant
            1 <= q <= n + 1,
            forall|j: int| 0 <= j < clauses@.len() ==> clause_lits_ok(#[trigger] clauses@[j]@),
            base + opp_clauses_from(pool@, id as int, em, 1) == clauses_view(clauses@)
                + opp_clauses_from(pool@, id as int, em, q as int),
        decreases n + 1 - q,
    {
        let qmeta = match pool.get_pkg_by_id(q) {
            Some(m) => m,
            None => {
                proof {
                    assert(false);
                }
                return ;
            },
        };
        let ghost before_cl = clauses@;
        if q != id && crate::text::str_eq(qmeta.name.as_str(), ename.as_str()) && ereq.within(
            &qmeta.version,
        ) {
            let mut clause: Vec<i64> = Vec::new();
            clause.push(-(id as i64));
            clause.push(-(q as i64));
            proof {
                assert(clause@ =~= seq![(-(id as int)) as i64, (-(q as int)) as i64]);
                assert(clause_lits_ok(clause@));
            }
            clauses.push(clause);
            proof {
                assert(clauses_view(clauses@) =~= clauses_view(before_cl) + seq![
                    seq![(-(id as int)) as i64, (-(q as int)) as i64],
                ]);
            }
        }
        proof {
            assert(clauses_view(before_cl) + opp_clauses_from(pool@, id as int, em, q as int)
                =~= clauses_view(clauses@) + opp_clauses_from(pool@, id as int, em, q + 1));
        }
        q = q + 1;
    }
    proof {
        assert(opp_clauses_from(pool@, id as int, em, n + 1) =~= Seq::<Seq<i64>>::empty());
        assert(clauses_view(clauses@) =~= base + opp_clauses_from(pool@, id as int, em, 1));
    }
}

/// Encode the blueprint requests: exactly one clause per request,
/// demanding one of its candidates, as `request_clauses` lists them.
#[verifier::loop_isolation(false)]
#[verifier::rlimit(100)]
fn encode_requests(pool: &PackagePool, requests: &Vec<PkgRequest>) -> (r: Vec<Vec<i64>>)
    requires
        pool.wf(),
        pool@.pkgs.len() < 0x1000_0000,
    ensures
        clauses_view(r@) == request_clauses(pool@, crate::blueprint::reqs_view(requests@)),
        forall|j: int| 0 <= j < r@.len() ==> clause_lits_ok(#[trigger] r@[j]@),
{
    let ghost reqsm = crate::blueprint::reqs_view(requests@);
    let n = pool.len();
    let mut clauses: Vec<Vec<i64>> = Vec::new();
    let m = requests.len();
    let mut i: usize = 0;
    proof {
        assert(clauses_view(clauses@) =~= Seq::<Seq<i64>>::empty());
    }
    while i < m
        invariant
            0 <= i <= m,
            m == reqsm.len(),
            request_clauses(pool@, reqsm) == clauses_view(clauses@) + request_clauses_from(
                pool@,
                reqsm,
                i as int,
            ),
            forall|j: int| 0 <= j < clauses@.len() ==> clause_lits_ok(#[trigger] clauses@[j]@),
        decreases m - i,
    {
        let req = &requests[i];
        let ghost rm = reqsm[i as int];
        proof {
            assert(rm == req@);
        }
        let mut clause: Vec<i64> = Vec::new();
        let mut q: usize = 1;
        proof {
            assert(req_cands_from(pool@, rm, 1) =~= clause@ + req_cands_from(pool@, rm, 1));
        }
        while q <= n
            invariant
                1 <= q <= n + 1,
                clause_lits_ok(clause@),
                req_cands_from(pool@, rm, 1) == clause@ + req_cands_from(pool@, rm, q as int),
            decreases n + 1 - q,
        {
            let qmeta = match pool.get_pkg_by_id(q) {
                Some(meta) => meta,
                None => {
                    proof {
                        assert(false);
                    }
                    return clauses;
                },
            };
            let ghost before = clause@;
            let name_matches = crate::text::str_eq(qmeta.name.as_str(), req.name.as_str());
            let ver_matches = match &req.ver_req {
                Option::Some(vr) => vr.within(&qmeta.version),
                Option::None => true,
            };
            let local_matches = if req.local {
                match &qmeta.source {
                    crate::pool::PkgSource::Local(_) => true,
                    crate::pool::PkgSource::Http(_, _, _) => false,
                }
            } else {
                true
            };
            let hit = name_matches && ver_matches && local_matches;
            if hit {
                clause.push(q as i64);
            }
            proof {
                assert(hit == candidate_ok(pool@, rm, q));
                if hit {
                    assert(clause@ =~= before + seq![q as i64]);
                    assert(before + req_cands_from(pool@, rm, q as int) =~= clause@
                        + req_cands_from(pool@, rm, q + 1));
                } else {
                    assert(before + req_cands_from(pool@, rm, q as int) =~= clause@
                        + req_cands_from(pool@, rm, q + 1));
                }
            }
            q = q + 1;
        }
        proof {
            assert(req_cands_from(pool@, rm, n + 1) =~= Seq::<i64>::empty());
            assert(clause@ + Seq::<i64>::empty() =~= clause@);
            assert(clause@ == request_clause(pool@, rm));
        }
        let ghost before_cl = clauses@;
        clauses.push(clause);
        proof {
            assert(clauses_view(clauses@) =~= clauses_view(before_cl) + seq![
                request_clause(pool@, rm),
            ]);
            assert(request_clauses_from(pool@, reqsm, i as int) == seq![
                request_clause(pool@, rm),
            ] + request_clauses_from(pool@, reqsm, i + 1));
            assert(request_clauses(pool@, reqsm) =~= clauses_view(clauses@)
                + request_clauses_from(pool@, reqsm, i + 1));
        }
        i = i + 1;
    }
    proof {
        assert(request_clauses_from(pool@, reqsm, m as int) =~= Seq::<Seq<i64>>::empty());
        assert(clauses_view(clauses@) + Seq::<Seq<i64>>::empty() =~= clauses_view(clauses@));
    }
    clauses
}

/// Feed every clause of a family to the solver.
#[verifier::loop_isolation(false)]
fn add_clauses(s: &mut varisat::Solver<'static>, clauses: &Vec<Vec<i64>>)
    requires
        forall|j: int| 0 <= j < clauses@.len() ==> clause_lits_ok(#[trigger] clauses@[j]@),
{
    let m = clauses.len();
    let mut i: usize = 0;
    while i < m
        invariant
            0 <= i <= m,
        decreases m - i,
    {
        solver_add_clause(s, &clauses[i]);
        i = i + 1;
    }
}

/// Positive model literals that name pool ids, each at most once.
#[verifier::loop_isolation(false)]
fn decode_model(model: &Vec<i64>, n: usize) -> (r: Vec<usize>)
    ensures
        forall|k: int| 0 <= k < r@.len() ==> 1 <= #[trigger] r@[k] && r@[k] <= n,
        forall|k1: int, k2: int| 0 <= k1 < k2 < r@.len() ==> #[trigger] r@[k1] != #[trigger] r@[k2],
{
    let mut out: Vec<usize> = Vec::new();
    let m = model.len();
    let mut i: usize = 0;
    while i < m
        invariant
            0 <= i <= m,
            forall|k: int| 0 <= k < out@.len() ==> 1 <= #[trigger] out@[k] && out@[k] <= n,
            forall|k1: int, k2: int| 0 <= k1 < k2 < out@.len() ==> #[trigger] out@[k1] != #[trigger] out@[k2],
        decreases m - i,
    {
        let lit = model[i];
        if lit > 0 && lit <= n as i64 {
            let id = lit as usize;
            // keep each id once, whatever the solver handed back
            let mut seen = false;
            let mut k: usize = 0;
            while k < out.len()
                invariant
                    0 <= k <= out@.len(),
                    seen == (exists|j: int| 0 <= j < k && out@[j] == id),
                decreases out@.len() - k,
            {
                if out[k] == id {
                    seen = true;
                }
                k = k + 1;
            }
            if !seen {
                out.push(id);
            }
        }
        i = i + 1;
    }
    out
}

/// An exact copy of an id list.
fn copy_ids(v: &Vec<usize>) -> (r: Vec<usize>)
    ensures
        r@ == v@,
{
    let mut out: Vec<usize> = Vec::new();
    let mut i: usize = 0;
    while i < v.len()
        invariant
            0 <= i <= v@.len(),
            out@ =~= v@.take(i as int),
        decreases v@.len() - i,
    {
        out.push(v[i]);
        proof {
            assert(out@ =~= v@.take(i + 1));
        }
        i = i + 1;
    }
    proof {
        assert(v@.take(v@.len() as int) =~= v@);
    }
    out
}

/// Resolution failed.
#[derive(Debug)]
pub enum SolveError {
    /// No selection can satisfy the pool's rules together with these
    /// requests; the names of all pending requests are reported.
    Unsat(Vec<String>),
    /// The SAT solver failed, or returned a model the checker refused.
    SolverFailure,
    /// The pool has too many records to encode.
    TooLarge,
}

/// The resolver: drives the SAT solver over the pool's encoding.
pub struct Resolver {
    pub pool: PackagePool,
}

impl From<PackagePool> for Resolver {
    fn from(pool: PackagePool) -> (r: Resolver) {
        Resolver { pool }
    }
}

impl vstd::std_specs::convert::FromSpecImpl<PackagePool> for Resolver {
    open spec fn obeys_from_spec() -> bool {
        true
    }

    open spec fn from_spec(pool: PackagePool) -> Resolver {
        Resolver { pool }
    }
}

/// Solve a fresh formula made of the given clause families plus the
/// committed preference units; the model, if any, is decoded to ids.
#[verifier::loop_isolation(false)]
fn solve_formula(
    base: &Vec<Vec<i64>>,
    reqc: &Vec<Vec<i64>>,
    committed: &Vec<i64>,
    n: usize,
) -> (r: Option<Option<Vec<usize>>>)
    requires
        forall|j: int| 0 <= j < base@.len() ==> clause_lits_ok(#[trigger] base@[j]@),
        forall|j: int| 0 <= j < reqc@.len() ==> clause_lits_ok(#[trigger] reqc@[j]@),
        forall|k: int|
            0 <= k < committed@.len() ==> #[trigger] committed@[k] != 0 && -0x1000_0000
                <= committed@[k] <= 0x1000_0000,
    ensures
        match r {
            Some(Some(sel)) => (forall|k: int|
                0 <= k < sel@.len() ==> 1 <= #[trigger] sel@[k] && sel@[k] <= n) && (forall|
                k1: int,
                k2: int,
            |
                0 <= k1 < k2 < sel@.len() ==> #[trigger] sel@[k1] != #[trigger] sel@[k2]),
            _ => true,
        },
{
    let mut s = solver_new();
    add_clauses(&mut s, base);
    add_clauses(&mut s, reqc);
    let m = committed.len();
    let mut i: usize = 0;
    while i < m
        invariant
            0 <= i <= m,
        decreases m - i,
    {
        let mut unit: Vec<i64> = Vec::new();
        unit.push(committed[i]);
        proof {
            assert(clause_lits_ok(unit@));
        }
        solver_add_clause(&mut s, &unit);
        i = i + 1;
    }
    match solver_solve(&mut s) {
        Option::None => Option::None,
        Option::Some(false) => Option::Some(Option::None),
        Option::Some(true) => {
            match solver_model(&s) {
                Option::Some(model) => Option::Some(Option::Some(decode_model(&model, n))),
                Option::None => Option::None,
            }
        },
    }
}

impl Resolver {
    /// Resolve the blueprint against the pool.  The formula handed to
    /// the SAT solver is exactly `pool_clauses` plus `request_clauses`;
    /// a returned selection is checked, not believed: it provably
    /// satisfies every dependency of every selected package, opposes no
    /// breaks or conflicts entry, holds at most one version per name,
    /// and covers every request.  On unsatisfiability the error names
    /// the pending requests; a pool too large for the solver's variable
    /// range is refused, and only such a pool is.
    #[verifier::loop_isolation(false)]
    #[verifier::rlimit(60)]
    pub fn install(&self, blueprint: &Blueprints) -> (r: Result<Vec<usize>, SolveError>)
        requires
            self.pool.wf(),
        ensures
            match r {
                Ok(sel) => {
                    let all = blueprint@.user + blueprint@.vendor;
                    &&& self.pool@.pkgs.len() < 0x1000_0000
                    &&& selection_ok(self.pool@, sel@)
                    &&& forall|i: int|
                        0 <= i < all.len() ==> request_satisfied(self.pool@, sel@, #[trigger] all[i])
                },
                Err(SolveError::Unsat(names)) => {
                    let all = blueprint@.user + blueprint@.vendor;
                    &&& self.pool@.pkgs.len() < 0x1000_0000
                    &&& names@.map(|_i: int, s2: String| s2@) == all.map(
                        |_i: int, q: RequestModel| q.name,
                    )
                },
                Err(SolveError::SolverFailure) => self.pool@.pkgs.len() < 0x1000_0000,
                Err(SolveError::TooLarge) => self.pool@.pkgs.len() >= 0x1000_0000,
            },
    {
        let requests = blueprint.get_pkg_requests();
        let n = self.pool.len();
        if n >= 0x1000_0000 {
            return Err(SolveError::TooLarge);
        }
        let base = encode_pool(&self.pool);
        let reqc = encode_requests(&self.pool, &requests);
        let first = match solve_formula(&base, &reqc, &Vec::new(), n) {
            Option::None => {
                return Err(SolveError::SolverFailure);
            },
            Option::Some(Option::None) => {
                // unsatisfiable: report the names of all requests
                let ghost all = blueprint@.user + blueprint@.vendor;
                let mut names: Vec<String> = Vec::new();
                let mut i: usize = 0;
                proof {
                    assert(names@.map(|_i: int, s2: String| s2@) =~= all.map(
                        |_i: int, q: RequestModel| q.name,
                    ).take(0));
                }
                while i < requests.len()
                    invariant
                        0 <= i <= requests@.len(),
                        names@.map(|_i: int, s2: String| s2@) == all.map(
                            |_i: int, q: RequestModel| q.name,
                        ).take(i as int),
                    decreases requests@.len() - i,
                {
                    let ghost before = names@;
                    names.push(requests[i].name.clone());
                    proof {
                        assert(crate::blueprint::reqs_view(requests@)[i as int] == all[i as int]);
                        assert(names@.map(|_i: int, s2: String| s2@) =~= before.map(
                            |_i: int, s2: String| s2@,
                        ).push(all[i as int].name));
                        assert(all.map(|_i: int, q: RequestModel| q.name).take(i + 1) =~= all.map(
                            |_i: int, q: RequestModel| q.name,
                        ).take(i as int).push(all.map(|_i: int, q: RequestModel| q.name)[i as int]));
                    }
                    i = i + 1;
                }
                proof {
                    assert(all.map(|_i: int, q: RequestModel| q.name).take(all.len() as int)
                        =~= all.map(|_i: int, q: RequestModel| q.name));
                }
                return Err(SolveError::Unsat(names));
            },
            Option::Some(Option::Some(sel)) => sel,
        };
        // one improving pass: try to move every selected name to the
        // head (maximum-version) id of that name
        let scan = copy_ids(&first);
        let mut committed: Vec<i64> = Vec::new();
        let mut best = first;
        let mut k: usize = 0;
        while k < scan.len()
            invariant
                self.pool.wf(),
                n == self.pool@.pkgs.len(),
                n < 0x1000_0000,
                forall|j: int| 0 <= j < base@.len() ==> clause_lits_ok(#[trigger] base@[j]@),
                forall|j: int| 0 <= j < reqc@.len() ==> clause_lits_ok(#[trigger] reqc@[j]@),
                forall|j: int|
                    0 <= j < committed@.len() ==> #[trigger] committed@[j] != 0 && -0x1000_0000
                        <= committed@[j] <= 0x1000_0000,
                forall|j: int| 0 <= j < scan@.len() ==> 1 <= #[trigger] scan@[j] && scan@[j] <= n,
            decreases scan@.len() - k,
        {
            let id = scan[k];
            let head = match self.pool.get_pkg_by_id(id) {
                Some(meta) => {
                    let ids = self.pool.pkg_name_to_ids(meta.name.as_str());
                    if ids.len() > 0 {
                        ids[0].0
                    } else {
                        id
                    }
                },
                None => id,
            };
            if head != id && head >= 1 && head <= n {
                let mut trial = committed.clone();
                trial.push(head as i64);
                match solve_formula(&base, &reqc, &trial, n) {
                    Option::Some(Option::Some(sel)) => {
                        committed = trial;
                        best = sel;
                    },
                    _ => {},
                }
            }
            k = k + 1;
        }
        // believe nothing: re-check the final selection
        if !check_selection(&self.pool, &best) {
            return Err(SolveError::SolverFailure);
        }
        let mut i: usize = 0;
        let m = requests.len();
        while i < m
            invariant
                0 <= i <= m,
                m == requests@.len(),
                forall|j: int|
                    0 <= j < i ==> request_satisfied(
                        self.pool@,
                        best@,
                        #[trigger] crate::blueprint::reqs_view(requests@)[j],
                    ),
            decreases m - i,
        {
            if !check_request(&self.pool, &best, &requests[i]) {
                return Err(SolveError::SolverFailure);
            }
            i = i + 1;
        }
        Ok(best)
    }
}

/// The blueprints grown by one package's recommendation list: each
/// entry whose name is not yet requested becomes a user request carrying
/// the recommending package as its origin and the entry's version range;
/// entries already requested are left alone.
pub open spec fn bp_fold_recommends(
    m: crate::blueprint::BlueprintsModel,
    origin: Seq<char>,
    recs: Seq<(Seq<char>, ReqModel)>,
) -> crate::blueprint::BlueprintsModel
    decreases recs.len(),
{
    if recs.len() == 0 {
        m
    } else {
        let m2 = if crate::blueprint::reqs_has_name(m.user + m.vendor, recs[0].0) {
            m
        } else {
            crate::blueprint::BlueprintsModel {
                user: m.user.push(
                    RequestModel {
                        name: recs[0].0,
                        modify: false,
                        added_by: Some(origin),
                        ver_req: Some(recs[0].1),
                        local: false,
                    },
                ),
                vendor: m.vendor,
            }
        };
        bp_fold_recommends(m2, origin, recs.skip(1))
    }
}

/// Expand one requested package's recommendations into the blueprints:
/// the highest-version candidate of `name` is chosen, and each of its
/// recommends entries not yet requested is added with `added_by` set, so
/// that removing `name` can prune them again.  Returns whether the pool
/// knows the name at all; a name the pool does not know changes nothing.
#[verifier::loop_isolation(false)]
pub fn expand_recommends(
    pool: &PackagePool,
    blueprint: &mut Blueprints,
    name: &str,
) -> (r: bool)
    requires
        pool.wf(),
        crate::blueprint::bp_names_unique(old(blueprint)@),
    ensures
        crate::blueprint::bp_names_unique(final(blueprint)@),
        r == exists|i: int|
            0 <= i < pool@.pkgs.len() && #[trigger] pool@.pkgs[i].name == name@,
        !r ==> final(blueprint)@ == old(blueprint)@,
        r ==> exists|id: usize|
            {
                &&& valid_id(pool@, id as int)
                &&& #[trigger] id_of(pool@, id as int).name == name@
                &&& forall|j: int|
                    0 <= j < pool@.pkgs.len() && #[trigger] pool@.pkgs[j].name == name@
                        ==> crate::version::version_cmp(
                        id_of(pool@, id as int).version,
                        pool@.pkgs[j].version,
                    ) >= 0
                &&& final(blueprint)@ == bp_fold_recommends(
                    old(blueprint)@,
                    name@,
                    match id_of(pool@, id as int).recommends {
                        Option::Some(l) => l,
                        Option::None => Seq::<(Seq<char>, ReqModel)>::empty(),
                    },
                )
            },
{
    let pool_n = pool.len();
    let ids = pool.pkg_name_to_ids(name);
    if ids.len() == 0 {
        proof {
            assert forall|i: int|
                0 <= i < pool@.pkgs.len() implies #[trigger] pool@.pkgs[i].name != name@ by {
                if pool@.pkgs[i].name == name@ {
                    assert(exists|k: int| 0 <= k < ids@.len() && #[trigger] ids@[k].0 == (i
                        + 1) as usize);
                }
            }
        }
        return false;
    }
    let head = ids[0].0;
    let meta = match pool.get_pkg_by_id(head) {
        Some(m) => m,
        None => {
            proof {
                assert(false);
            }
            return false;
        },
    };
    proof {
        assert(pool@.pkgs[head - 1].name == name@);
        assert forall|j: int|
            0 <= j < pool@.pkgs.len() && #[trigger] pool@.pkgs[j].name == name@
                implies crate::version::version_cmp(
            id_of(pool@, head as int).version,
            pool@.pkgs[j].version,
        ) >= 0 by {
            assert(pool@.pkgs.len() == pool_n as int);
            assert(exists|k: int| 0 <= k < ids@.len() && #[trigger] ids@[k].0 == (j + 1) as usize);
            let k = choose|k: int| 0 <= k < ids@.len() && #[trigger] ids@[k].0 == (j + 1) as usize;
            assert(ids@[k].1@ == id_of(pool@, ids@[k].0 as int).version);
            assert(id_of(pool@, ids@[k].0 as int).version == pool@.pkgs[j].version);
            assert(ids@[0].1@ == id_of(pool@, head as int).version);
            assert(crate::version::version_cmp(ids@[0].1@, ids@[k].1@) >= 0);
        }
    }
    match &meta.recommends {
        Option::None => {
            proof {
                assert(blueprint@ == bp_fold_recommends(
                    old(blueprint)@,
                    name@,
                    Seq::<(Seq<char>, ReqModel)>::empty(),
                ));
                assert(id_of(pool@, head as int).name == name@);
            }
            true
        },
        Option::Some(recs) => {
            let ghost recsm = crate::pool::rel_view(recs@);
            proof {
                assert(id_of(pool@, head as int).recommends == Option::Some(recsm));
                assert(recsm.skip(0) =~= recsm);
            }
            let rn = recs.len();
            let mut i: usize = 0;
            while i < rn
                invariant
                    0 <= i <= rn,
                    rn == recsm.len(),
                    crate::blueprint::bp_names_unique(blueprint@),
                    bp_fold_recommends(old(blueprint)@, name@, recsm) == bp_fold_recommends(
                        blueprint@,
                        name@,
                        recsm.skip(i as int),
                    ),
                decreases rn - i,
            {
                proof {
                    assert(recsm.skip(i as int)[0] == recsm[i as int]);
                    assert(recsm.skip(i as int).skip(1) =~= recsm.skip(i + 1));
                    assert(recsm[i as int] == (recs@[i as int].0@, recs@[i as int].1@));
                }
                let req = recs[i].1.clone();
                let _ = blueprint.add(recs[i].0.as_str(), false, Some(name), Some(req), false);
                i = i + 1;
            }
            proof {
                assert(recsm.skip(rn as int).len() == 0);
            }
            true
        },
    }
}

/// Does some selected id stand for the request?
#[verifier::loop_isolation(false)]
fn check_request(pool: &PackagePool, sel: &Vec<usize>, req: &PkgRequest) -> (r: bool)
    ensures
        r == request_satisfied(pool@, sel@, req@),
{
    let n = sel.len();
    let mut k: usize = 0;
    while k < n
        invariant
            0 <= k <= n,
            forall|j: int| 0 <= j < k ==> !candidate_ok(pool@, req@, #[trigger] sel@[j]),
        decreases n - k,
    {
        match pool.get_pkg_by_id(sel[k]) {
            Some(meta) => {
                let name_matches = crate::text::str_eq(meta.name.as_str(), req.name.as_str());
                let ver_matches = match &req.ver_req {
                    Option::Some(vr) => vr.within(&meta.version),
                    Option::None => true,
                };
                let local_matches = if req.local {
                    match &meta.source {
                        crate::pool::PkgSource::Local(_) => true,
                        crate::pool::PkgSource::Http(_, _, _) => false,
                    }
                } else {
                    true
                };
                if name_matches && ver_matches && local_matches {
                    return true;
                }
            },
            None => {},
        }
        k = k + 1;
    }
    false
}

} // verus!
