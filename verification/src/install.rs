//! Deciding what installing a payload into pg_tle does.
//!
//! Only the default version's own lineage is installed: the versions that
//! can upgrade into it, and the upgrade paths between them. Versions on a
//! branch that cannot reach it would sit in the catalog implying an upgrade
//! path that was never published.
use vstd::prelude::*;

use crate::models::{InstallFile, Payload, UpgradeFile};
use crate::text::views_of;
use crate::version_graph::{contains_string, reaches, upgrade_pairs, VersionGraph};

verus! {

/// How an install script is installed.
#[derive(PartialEq, Eq, Structural, Clone, Copy, Debug)]
pub enum InstallKind {
    /// `pgtle.install_extension`, which registers the extension itself with
    /// its first version.
    Extension,
    /// `pgtle.install_extension_version_sql`, which adds a version to an
    /// extension that is already registered.
    Version,
}

/// One install script to install, by its index in the payload.
#[derive(PartialEq, Eq, Structural, Clone, Copy, Debug)]
pub struct InstallStep {
    pub file: usize,
    pub kind: InstallKind,
}

/// The install scripts to install, in order, and whether one of them is the
/// default version.
pub struct VersionPlan {
    pub steps: Vec<InstallStep>,
    pub installs_default: bool,
}

/// Whether install script `k` is installed: its version is required and not
/// installed yet.
pub open spec fn installs_version(
    files: Seq<InstallFile>,
    required: Seq<Seq<char>>,
    existing: Seq<Seq<char>>,
    k: int,
) -> bool {
    required.contains(files[k].version@) && !existing.contains(files[k].version@)
}

/// The indices, in order, of the first `n` install scripts that are
/// installed.
pub open spec fn version_installs(
    files: Seq<InstallFile>,
    required: Seq<Seq<char>>,
    existing: Seq<Seq<char>>,
    n: nat,
) -> Seq<int>
    decreases n,
{
    if n == 0 {
        Seq::empty()
    } else {
        let r = version_installs(files, required, existing, (n - 1) as nat);
        if installs_version(files, required, existing, n - 1) {
            r.push(n - 1)
        } else {
            r
        }
    }
}

/// Whether upgrade script `k` is installed: both of its versions are
/// required and its path is not installed yet.
pub open spec fn installs_update(
    files: Seq<UpgradeFile>,
    required: Seq<Seq<char>>,
    existing: Seq<(Seq<char>, Seq<char>)>,
    k: int,
) -> bool {
    &&& required.contains(files[k].from_version@)
    &&& required.contains(files[k].to_version@)
    &&& !existing.contains((files[k].from_version@, files[k].to_version@))
}

/// The indices, in order, of the first `n` upgrade scripts that are
/// installed.
pub open spec fn update_installs(
    files: Seq<UpgradeFile>,
    required: Seq<Seq<char>>,
    existing: Seq<(Seq<char>, Seq<char>)>,
    n: nat,
) -> Seq<int>
    decreases n,
{
    if n == 0 {
        Seq::empty()
    } else {
        let r = update_installs(files, required, existing, (n - 1) as nat);
        if installs_update(files, required, existing, n - 1) {
            r.push(n - 1)
        } else {
            r
        }
    }
}

/// The `(source, target)` pairs of a list of update paths.
pub open spec fn path_views(p: Seq<(String, String)>) -> Seq<(Seq<char>, Seq<char>)> {
    p.map_values(|x: (String, String)| (x.0@, x.1@))
}

/// The versions of the payload worth installing: the default version and
/// every version that can upgrade into it.
pub fn required_versions(payload: &Payload) -> (res: Vec<String>)
    ensures
        views_of(res@).no_duplicates(),
        forall|v: Seq<char>|
            #![trigger views_of(res@).contains(v)]
            views_of(res@).contains(v) <==> reaches(
                upgrade_pairs(payload.upgrade_files@),
                v,
                payload.metadata.default_version@,
            ),
{
    let graph = VersionGraph::from_payload(payload);
    graph.required_for(payload.metadata.default_version.as_str())
}

fn contains_path(paths: &Vec<(String, String)>, from: &String, to: &String) -> (res: bool)
    ensures
        res == path_views(paths@).contains((from@, to@)),
{
    for i in 0..paths.len()
        invariant
            forall|j: int| 0 <= j < i ==> path_views(paths@)[j] != (from@, to@),
    {
        if paths[i].0 == *from && paths[i].1 == *to {
            assert(path_views(paths@)[i as int] == (from@, to@));
            return true;
        }
    }
    false
}

/// Which install scripts to install, given the `required` versions and the
/// versions `existing` in the database, in payload order.
///
/// A script is installed when its version is required and does not exist
/// yet. When no version exists at all, the first one registers the extension
/// and the others add versions to it; otherwise every one adds a version.
pub fn plan_version_installs(
    payload: &Payload,
    required: &Vec<String>,
    existing_versions: &Vec<String>,
) -> (res: VersionPlan)
    ensures
        ({
            let files = payload.install_files@;
            let req = views_of(required@);
            let ex = views_of(existing_versions@);
            let d = payload.metadata.default_version@;
            let sel = version_installs(files, req, ex, files.len());
            &&& res.steps@.len() == sel.len()
            &&& forall|j: int|
                0 <= j < sel.len() ==> (#[trigger] res.steps@[j]).file == sel[j] && res.steps@[j].kind
                    == if j == 0 && ex.len() == 0 {
                    InstallKind::Extension
                } else {
                    InstallKind::Version
                }
            &&& res.installs_default == (req.contains(d) && !ex.contains(d) && exists|k: int|
                0 <= k < files.len() && (#[trigger] files[k]).version@ == d)
        }),
{
    let files = &payload.install_files;
    let ghost req = views_of(required@);
    let ghost ex = views_of(existing_versions@);
    let ghost d = payload.metadata.default_version@;
    let mut steps: Vec<InstallStep> = Vec::new();
    let mut installed_once = existing_versions.len() > 0;
    let mut installs_default = false;
    for k in 0..files.len()
        invariant
            files == &payload.install_files,
            req == views_of(required@),
            ex == views_of(existing_versions@),
            ex.len() == existing_versions@.len(),
            d == payload.metadata.default_version@,
            steps@.len() == version_installs(files@, req, ex, k as nat).len(),
            installed_once == (ex.len() > 0 || version_installs(files@, req, ex, k as nat).len()
                > 0),
            forall|j: int|
                0 <= j < steps@.len() ==> (#[trigger] steps@[j]).file == version_installs(
                    files@,
                    req,
                    ex,
                    k as nat,
                )[j] && steps@[j].kind == if j == 0 && ex.len() == 0 {
                    InstallKind::Extension
                } else {
                    InstallKind::Version
                },
            installs_default == (req.contains(d) && !ex.contains(d) && exists|m: int|
                0 <= m < k && (#[trigger] files@[m]).version@ == d),
    {
        let ghost prev = version_installs(files@, req, ex, k as nat);
        let version = &files[k].version;
        assert(version@ == files@[k as int].version@);
        if contains_string(required, version) && !contains_string(existing_versions, version) {
            let kind = if installed_once {
                InstallKind::Version
            } else {
                InstallKind::Extension
            };
            let ghost old_steps = steps@;
            steps.push(InstallStep { file: k, kind });
            installed_once = true;
            if files[k].version == payload.metadata.default_version {
                installs_default = true;
            }
            proof {
                let sel = version_installs(files@, req, ex, (k + 1) as nat);
                assert(sel == prev.push(k as int));
                assert forall|j: int|
                    0 <= j < steps@.len() implies (#[trigger] steps@[j]).file == sel[j]
                        && steps@[j].kind == if j == 0 && ex.len() == 0 {
                        InstallKind::Extension
                    } else {
                        InstallKind::Version
                    } by {
                    if j < old_steps.len() {
                        assert(steps@[j] == old_steps[j]);
                    }
                }
            }
        }
        proof {
            let inner = exists|m: int| 0 <= m < k + 1 && (#[trigger] files@[m]).version@ == d;
            if files@[k as int].version@ == d {
                assert(inner);
            }
            if exists|m: int| 0 <= m < k && (#[trigger] files@[m]).version@ == d {
                let m = choose|m: int| 0 <= m < k && (#[trigger] files@[m]).version@ == d;
                assert(inner);
            }
            if inner && files@[k as int].version@ != d {
                let m = choose|m: int| 0 <= m < k + 1 && (#[trigger] files@[m]).version@ == d;
                assert(m < k);
            }
        }
    }
    VersionPlan { steps, installs_default }
}

/// Which upgrade scripts to install, given the `required` versions and the
/// update paths `existing` in the database, in payload order: those whose two
/// versions are both required and whose path does not exist yet.
pub fn plan_update_paths(
    payload: &Payload,
    required: &Vec<String>,
    existing_paths: &Vec<(String, String)>,
) -> (res: Vec<usize>)
    ensures
        res@.len() == update_installs(
            payload.upgrade_files@,
            views_of(required@),
            path_views(existing_paths@),
            payload.upgrade_files@.len(),
        ).len(),
        forall|j: int|
            0 <= j < res@.len() ==> #[trigger] res@[j] == update_installs(
                payload.upgrade_files@,
                views_of(required@),
                path_views(existing_paths@),
                payload.upgrade_files@.len(),
            )[j],
{
    let files = &payload.upgrade_files;
    let ghost req = views_of(required@);
    let ghost ex = path_views(existing_paths@);
    let mut out: Vec<usize> = Vec::new();
    for k in 0..files.len()
        invariant
            files == &payload.upgrade_files,
            req == views_of(required@),
            ex == path_views(existing_paths@),
            out@.len() == update_installs(files@, req, ex, k as nat).len(),
            forall|j: int|
                0 <= j < out@.len() ==> #[trigger] out@[j] == update_installs(
                    files@,
                    req,
                    ex,
                    k as nat,
                )[j],
    {
        let f = &files[k];
        if VersionGraph::edge_is_required(required, f.from_version.as_str(), f.to_version.as_str())
            && !contains_path(existing_paths, &f.from_version, &f.to_version) {
            out.push(k);
        }
    }
    out
}

/// Every install and update that the plans make lies on the lineage of the
/// default version: each installed version, and both versions of each
/// installed update path, can upgrade into it.
pub proof fn lemma_plans_stay_in_lineage(
    payload: &Payload,
    required: Seq<Seq<char>>,
    existing_versions: Seq<Seq<char>>,
    existing_paths: Seq<(Seq<char>, Seq<char>)>,
)
    requires
        forall|v: Seq<char>|
            #![trigger required.contains(v)]
            required.contains(v) <==> reaches(
                upgrade_pairs(payload.upgrade_files@),
                v,
                payload.metadata.default_version@,
            ),
    ensures
        ({
            let es = upgrade_pairs(payload.upgrade_files@);
            let d = payload.metadata.default_version@;
            let vs = version_installs(
                payload.install_files@,
                required,
                existing_versions,
                payload.install_files@.len(),
            );
            let us = update_installs(
                payload.upgrade_files@,
                required,
                existing_paths,
                payload.upgrade_files@.len(),
            );
            &&& forall|j: int|
                0 <= j < vs.len() ==> reaches(es, payload.install_files@[#[trigger] vs[j]].version@, d)
            &&& forall|j: int|
                0 <= j < us.len() ==> reaches(es, payload.upgrade_files@[#[trigger] us[j]].from_version@, d)
                    && reaches(es, payload.upgrade_files@[us[j]].to_version@, d)
        }),
{
    lemma_version_installs_selected(
        payload.install_files@,
        required,
        existing_versions,
        payload.install_files@.len(),
    );
    lemma_update_installs_selected(
        payload.upgrade_files@,
        required,
        existing_paths,
        payload.upgrade_files@.len(),
    );
}

proof fn lemma_version_installs_selected(
    files: Seq<InstallFile>,
    required: Seq<Seq<char>>,
    existing: Seq<Seq<char>>,
    n: nat,
)
    requires
        n <= files.len(),
    ensures
        forall|j: int|
            0 <= j < version_installs(files, required, existing, n).len() ==> {
                let k = #[trigger] version_installs(files, required, existing, n)[j];
                0 <= k < n && installs_version(files, required, existing, k)
            },
    decreases n,
{
    if n > 0 {
        lemma_version_installs_selected(files, required, existing, (n - 1) as nat);
        let r = version_installs(files, required, existing, (n - 1) as nat);
        let s = version_installs(files, required, existing, n);
        assert forall|j: int| 0 <= j < s.len() implies {
            let k = #[trigger] s[j];
            0 <= k < n && installs_version(files, required, existing, k)
        } by {
            if j < r.len() {
                assert(s[j] == r[j]);
            }
        }
    }
}

proof fn lemma_update_installs_selected(
    files: Seq<UpgradeFile>,
    required: Seq<Seq<char>>,
    existing: Seq<(Seq<char>, Seq<char>)>,
    n: nat,
)
    requires
        n <= files.len(),
    ensures
        forall|j: int|
            0 <= j < update_installs(files, required, existing, n).len() ==> {
                let k = #[trigger] update_installs(files, required, existing, n)[j];
                0 <= k < n && installs_update(files, required, existing, k)
            },
    decreases n,
{
    if n > 0 {
        lemma_update_installs_selected(files, required, existing, (n - 1) as nat);
        let r = update_installs(files, required, existing, (n - 1) as nat);
        let s = update_installs(files, required, existing, n);
        assert forall|j: int| 0 <= j < s.len() implies {
            let k = #[trigger] s[j];
            0 <= k < n && installs_update(files, required, existing, k)
        } by {
            if j < r.len() {
                assert(s[j] == r[j]);
            }
        }
    }
}

/// The install scripts chosen are, in payload order and each once, exactly
/// those whose version is required and does not exist yet.
pub proof fn lemma_version_installs_exact(
    files: Seq<InstallFile>,
    required: Seq<Seq<char>>,
    existing: Seq<Seq<char>>,
    n: nat,
)
    requires
        n <= files.len(),
    ensures
        ({
            let sel = version_installs(files, required, existing, n);
            &&& forall|k: int|
                0 <= k < n ==> (sel.contains(k) <==> (required.contains(
                    #[trigger] files[k].version@,
                ) && !existing.contains(files[k].version@)))
            &&& forall|i: int, j: int| 0 <= i < j < sel.len() ==> sel[i] < sel[j]
            &&& forall|i: int| 0 <= i < sel.len() ==> 0 <= #[trigger] sel[i] < n
        }),
    decreases n,
{
    if n > 0 {
        lemma_version_installs_exact(files, required, existing, (n - 1) as nat);
        let r = version_installs(files, required, existing, (n - 1) as nat);
        let sel = version_installs(files, required, existing, n);
        assert forall|k: int|
            0 <= k < n implies (sel.contains(k) <==> (required.contains(
            #[trigger] files[k].version@,
        ) && !existing.contains(files[k].version@))) by {
            if sel.contains(k) {
                let w = choose|w: int| 0 <= w < sel.len() && sel[w] == k;
                if w < r.len() {
                    assert(r[w] == sel[w]);
                    assert(r.contains(k));
                }
            }
            if k < n - 1 && r.contains(k) {
                let w = choose|w: int| 0 <= w < r.len() && r[w] == k;
                assert(sel[w] == k);
            }
            if k == n - 1 && installs_version(files, required, existing, k) {
                assert(sel[r.len() as int] == k);
            }
        }
    }
}

/// The upgrade scripts chosen are, in payload order and each once, exactly
/// those whose two versions are both required and whose path does not exist
/// yet.
pub proof fn lemma_update_installs_exact(
    files: Seq<UpgradeFile>,
    required: Seq<Seq<char>>,
    existing: Seq<(Seq<char>, Seq<char>)>,
    n: nat,
)
    requires
        n <= files.len(),
    ensures
        ({
            let sel = update_installs(files, required, existing, n);
            &&& forall|k: int|
                0 <= k < n ==> (sel.contains(k) <==> (required.contains(
                    #[trigger] files[k].from_version@,
                ) && required.contains(files[k].to_version@) && !existing.contains(
                    (files[k].from_version@, files[k].to_version@),
                )))
            &&& forall|i: int, j: int| 0 <= i < j < sel.len() ==> sel[i] < sel[j]
            &&& forall|i: int| 0 <= i < sel.len() ==> 0 <= #[trigger] sel[i] < n
        }),
    decreases n,
{
    if n > 0 {
        lemma_update_installs_exact(files, required, existing, (n - 1) as nat);
        let r = update_installs(files, required, existing, (n - 1) as nat);
        let sel = update_installs(files, required, existing, n);
        assert forall|k: int|
            0 <= k < n implies (sel.contains(k) <==> (required.contains(
            #[trigger] files[k].from_version@,
        ) && required.contains(files[k].to_version@) && !existing.contains(
            (files[k].from_version@, files[k].to_version@),
        ))) by {
            if sel.contains(k) {
                let w = choose|w: int| 0 <= w < sel.len() && sel[w] == k;
                if w < r.len() {
                    assert(r[w] == sel[w]);
                    assert(r.contains(k));
                }
            }
            if k < n - 1 && r.contains(k) {
                let w = choose|w: int| 0 <= w < r.len() && r[w] == k;
                assert(sel[w] == k);
            }
            if k == n - 1 && installs_update(files, required, existing, k) {
                assert(sel[r.len() as int] == k);
            }
        }
    }
}

} // verus!
