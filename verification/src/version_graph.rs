//! The upgrade relationships between an extension's versions.
//!
//! A version reaches another when a chain of upgrade scripts leads from it to
//! the other; every version reaches itself.
use vstd::prelude::*;

use crate::models::{InstallFile, Payload, UpgradeFile};
use crate::text::views_of;

verus! {

/// The `(from, to)` pairs of a list of upgrade edges.
pub open spec fn edge_views(e: Seq<(String, String)>) -> Seq<(Seq<char>, Seq<char>)> {
    e.map_values(|p: (String, String)| (p.0@, p.1@))
}

/// `v` reaches `t` through at most `n` upgrades along `edges`.
pub open spec fn reaches_within(
    edges: Seq<(Seq<char>, Seq<char>)>,
    v: Seq<char>,
    t: Seq<char>,
    n: nat,
) -> bool
    decreases n,
{
    v == t || (n > 0 && exists|i: int|
        0 <= i < edges.len() && (#[trigger] edges[i]).0 == v && reaches_within(
            edges,
            edges[i].1,
            t,
            (n - 1) as nat,
        ))
}

/// `v` reaches `t` through upgrades along `edges`.
pub open spec fn reaches(edges: Seq<(Seq<char>, Seq<char>)>, v: Seq<char>, t: Seq<char>) -> bool {
    exists|n: nat| reaches_within(edges, v, t, n)
}

/// The versions of a payload's install scripts.
pub open spec fn install_versions(files: Seq<InstallFile>) -> Seq<Seq<char>> {
    files.map_values(|f: InstallFile| f.version@)
}

/// The `(from, to)` versions of a payload's upgrade scripts.
pub open spec fn upgrade_pairs(files: Seq<UpgradeFile>) -> Seq<(Seq<char>, Seq<char>)> {
    files.map_values(|f: UpgradeFile| (f.from_version@, f.to_version@))
}

/// `p` is an upgrade route from `v` to `t`: the indices of the edges taken,
/// listed from `t` back to `v` (the first one upgrades into `t`, the last one
/// leaves `v`).
pub open spec fn is_route(
    edges: Seq<(Seq<char>, Seq<char>)>,
    p: Seq<int>,
    v: Seq<char>,
    t: Seq<char>,
) -> bool
    decreases p.len(),
{
    if p.len() == 0 {
        v == t
    } else {
        0 <= p.last() < edges.len() && edges[p.last()].0 == v && is_route(
            edges,
            p.drop_last(),
            edges[p.last()].1,
            t,
        )
    }
}

/// Lexicographic order on equally long sequences of edge indices.
pub open spec fn lex_lt(a: Seq<int>, b: Seq<int>) -> bool
    decreases a.len(),
{
    if a.len() == 0 || a.len() != b.len() {
        false
    } else {
        lex_lt(a.drop_last(), b.drop_last()) || (a.drop_last() == b.drop_last() && a.last()
            < b.last())
    }
}

/// The order in which a breadth-first walk meets routes: shorter routes
/// first, and among equally long ones, by edge index, nearest `t` first.
pub open spec fn route_lt(a: Seq<int>, b: Seq<int>) -> bool {
    a.len() < b.len() || (a.len() == b.len() && lex_lt(a, b))
}

proof fn lemma_lex_total(a: Seq<int>, b: Seq<int>)
    requires
        a.len() == b.len(),
    ensures
        lex_lt(a, b) || a == b || lex_lt(b, a),
        !(lex_lt(a, b) && lex_lt(b, a)),
        !lex_lt(a, a),
    decreases a.len(),
{
    if a.len() > 0 {
        lemma_lex_total(a.drop_last(), b.drop_last());
        if a.drop_last() == b.drop_last() && a.last() == b.last() {
            assert(a =~= a.drop_last().push(a.last()));
            assert(b =~= b.drop_last().push(b.last()));
        }
    } else {
        assert(a =~= b);
    }
}

proof fn lemma_lex_trans(a: Seq<int>, b: Seq<int>, c: Seq<int>)
    requires
        lex_lt(a, b),
        lex_lt(b, c),
    ensures
        lex_lt(a, c),
    decreases a.len(),
{
    if a.len() > 0 {
        lemma_lex_total(a.drop_last(), b.drop_last());
        lemma_lex_total(b.drop_last(), c.drop_last());
        if lex_lt(a.drop_last(), b.drop_last()) && lex_lt(b.drop_last(), c.drop_last()) {
            lemma_lex_trans(a.drop_last(), b.drop_last(), c.drop_last());
        }
    }
}

/// `route_lt` is a strict total order.
pub proof fn lemma_route_order(a: Seq<int>, b: Seq<int>, c: Seq<int>)
    ensures
        !route_lt(a, a),
        route_lt(a, b) || a == b || route_lt(b, a),
        route_lt(a, b) && route_lt(b, c) ==> route_lt(a, c),
{
    lemma_lex_total(a, a);
    if a.len() == b.len() {
        lemma_lex_total(a, b);
    }
    if route_lt(a, b) && route_lt(b, c) && a.len() == c.len() {
        lemma_lex_trans(a, b, c);
    }
}

/// Extending two routes by one edge each keeps their order, or, for the
/// same route, takes the order of the edges.
proof fn lemma_route_push(a: Seq<int>, b: Seq<int>, x: int, y: int)
    ensures
        route_lt(a, b) ==> route_lt(a.push(x), b.push(y)),
        a == b && x < y ==> route_lt(a.push(x), b.push(y)),
        !route_lt(b, a) && x <= y ==> !route_lt(b.push(y), a.push(x)),
{
    assert(a.push(x).drop_last() =~= a);
    assert(b.push(y).drop_last() =~= b);
    lemma_route_order(a, b, a);
    lemma_route_order(a.push(x), b.push(y), a.push(x));
    if a.len() == b.len() {
        lemma_lex_total(a, b);
    }
}

/// A route from `v` to `t` puts `v` within its length of `t`.
proof fn lemma_route_reaches(
    edges: Seq<(Seq<char>, Seq<char>)>,
    p: Seq<int>,
    v: Seq<char>,
    t: Seq<char>,
)
    requires
        is_route(edges, p, v, t),
    ensures
        reaches_within(edges, v, t, p.len()),
    decreases p.len(),
{
    if p.len() > 0 {
        let x = p.last();
        lemma_route_reaches(edges, p.drop_last(), edges[x].1, t);
        lemma_within_mono(edges, edges[x].1, t, p.drop_last().len(), (p.len() - 1) as nat);
        assert(edges[x].0 == v);
    }
}

/// A version within `n` upgrades of `t` has a route to it no longer than `n`.
proof fn lemma_reaches_route(
    edges: Seq<(Seq<char>, Seq<char>)>,
    v: Seq<char>,
    t: Seq<char>,
    n: nat,
) -> (p: Seq<int>)
    requires
        reaches_within(edges, v, t, n),
    ensures
        is_route(edges, p, v, t),
        p.len() <= n,
    decreases n,
{
    if v == t {
        Seq::empty()
    } else {
        let i = choose|i: int|
            0 <= i < edges.len() && (#[trigger] edges[i]).0 == v && reaches_within(
                edges,
                edges[i].1,
                t,
                (n - 1) as nat,
            );
        let r = lemma_reaches_route(edges, edges[i].1, t, (n - 1) as nat);
        assert(r.push(i).drop_last() =~= r);
        r.push(i)
    }
}

/// Reaching within `n` upgrades implies reaching within any larger number.
pub proof fn lemma_within_mono(
    edges: Seq<(Seq<char>, Seq<char>)>,
    v: Seq<char>,
    t: Seq<char>,
    n: nat,
    m: nat,
)
    requires
        n <= m,
        reaches_within(edges, v, t, n),
    ensures
        reaches_within(edges, v, t, m),
    decreases n,
{
    if v != t {
        let i = choose|i: int|
            0 <= i < edges.len() && (#[trigger] edges[i]).0 == v && reaches_within(
                edges,
                edges[i].1,
                t,
                (n - 1) as nat,
            );
        lemma_within_mono(edges, edges[i].1, t, (n - 1) as nat, (m - 1) as nat);
        assert(edges[i].0 == v);
    }
}

/// Upgrade routes compose: `a` within `n` upgrades of `b`, and `b` within
/// `m` of `c`, puts `a` within `n + m` of `c`.
pub proof fn lemma_within_trans(
    edges: Seq<(Seq<char>, Seq<char>)>,
    a: Seq<char>,
    b: Seq<char>,
    c: Seq<char>,
    n: nat,
    m: nat,
)
    requires
        reaches_within(edges, a, b, n),
        reaches_within(edges, b, c, m),
    ensures
        reaches_within(edges, a, c, n + m),
    decreases n,
{
    if a == b {
        lemma_within_mono(edges, b, c, m, n + m);
    } else {
        let i = choose|i: int|
            0 <= i < edges.len() && (#[trigger] edges[i]).0 == a && reaches_within(
                edges,
                edges[i].1,
                b,
                (n - 1) as nat,
            );
        lemma_within_trans(edges, edges[i].1, b, c, (n - 1) as nat, m);
        assert(edges[i].0 == a);
        assert(((n + m) - 1) as nat == ((n - 1) as nat + m) as nat);
    }
}

/// What is required for a required version is required too: when `v` can
/// upgrade into `t`, every `w` that can upgrade into `v` can upgrade into
/// `t`, so `required_for(v)` lies within `required_for(t)`.
pub proof fn lemma_required_nested(
    edges: Seq<(Seq<char>, Seq<char>)>,
    t: Seq<char>,
    v: Seq<char>,
    w: Seq<char>,
)
    requires
        reaches(edges, v, t),
        reaches(edges, w, v),
    ensures
        reaches(edges, w, t),
{
    let n = choose|n: nat| reaches_within(edges, v, t, n);
    let m = choose|m: nat| reaches_within(edges, w, v, m);
    lemma_within_trans(edges, w, v, t, m, n);
}

/// A list of versions that holds `t` and, for each version in it, every
/// version with an upgrade into it, holds every version that reaches `t`.
proof fn lemma_closed_holds_reaching(
    edges: Seq<(Seq<char>, Seq<char>)>,
    q: Seq<Seq<char>>,
    t: Seq<char>,
    v: Seq<char>,
    n: nat,
)
    requires
        q.contains(t),
        forall|k: int, i: int|
            0 <= k < q.len() && 0 <= i < edges.len() && (#[trigger] edges[i]).1 == #[trigger] q[k]
                ==> q.contains(edges[i].0),
        reaches_within(edges, v, t, n),
    ensures
        q.contains(v),
    decreases n,
{
    if v != t {
        let i = choose|i: int|
            0 <= i < edges.len() && (#[trigger] edges[i]).0 == v && reaches_within(
                edges,
                edges[i].1,
                t,
                (n - 1) as nat,
            );
        lemma_closed_holds_reaching(edges, q, t, edges[i].1, (n - 1) as nat);
        let k = choose|k: int| 0 <= k < q.len() && q[k] == edges[i].1;
        assert(edges[i].1 == q[k]);
    }
}

/// In a breadth-first walk back from `t` that has expanded its first `h`
/// versions and, of version `h`, the edges before `i`, every route of a
/// version not found yet comes no earlier than the route `keys[h]` extended by
/// edge `i`.
proof fn lemma_unfound_routes(
    edges: Seq<(Seq<char>, Seq<char>)>,
    q: Seq<Seq<char>>,
    keys: Seq<Seq<int>>,
    h: int,
    i: int,
    t: Seq<char>,
    v: Seq<char>,
    p: Seq<int>,
)
    requires
        keys.len() == q.len(),
        0 <= h < q.len(),
        0 <= i <= edges.len(),
        q[0] == t,
        forall|k: int, r: Seq<int>|
            0 <= k < q.len() && #[trigger] is_route(edges, r, q[k], t) ==> !route_lt(r, keys[k]),
        forall|a: int, b: int| 0 <= a < b < q.len() ==> route_lt(#[trigger] keys[a], #[trigger] keys[b]),
        forall|k: int, j: int|
            0 <= k < h && 0 <= j < edges.len() && (#[trigger] edges[j]).1 == #[trigger] q[k]
                ==> q.contains(edges[j].0),
        forall|j: int| 0 <= j < i && (#[trigger] edges[j]).1 == q[h] ==> q.contains(edges[j].0),
        !q.contains(v),
        is_route(edges, p, v, t),
    ensures
        !route_lt(p, keys[h].push(i)),
    decreases p.len(),
{
    let bound = keys[h].push(i);
    if p.len() == 0 {
        assert(q[0] == v);
    } else {
        let x = p.last();
        let s = p.drop_last();
        let w = edges[x].1;
        assert(p =~= s.push(x));
        if q.contains(w) {
            let j = choose|j: int| 0 <= j < q.len() && q[j] == w;
            assert(is_route(edges, s, q[j], t));
            assert(!route_lt(s, keys[j]));
            if j < h {
                assert(edges[x].1 == q[j]);
                assert(q.contains(edges[x].0));
            } else if j == h {
                if x < i {
                    assert(edges[x].1 == q[h]);
                    assert(q.contains(edges[x].0));
                } else {
                    lemma_route_push(keys[h], s, i, x);
                }
            } else {
                assert(route_lt(keys[h], keys[j]));
                lemma_route_order(keys[h], keys[j], s);
                lemma_route_order(s, keys[j], s);
                assert(route_lt(keys[h], s));
                lemma_route_push(keys[h], s, i, x);
                lemma_route_order(p, bound, p);
            }
        } else {
            lemma_unfound_routes(edges, q, keys, h, i, t, w, s);
        }
    }
}

/// How many of the first `n` edges start at a version that `q` does not hold.
spec fn unseen(edges: Seq<(Seq<char>, Seq<char>)>, q: Seq<Seq<char>>, n: nat) -> nat
    decreases n,
{
    if n == 0 {
        0
    } else {
        unseen(edges, q, (n - 1) as nat) + if q.contains(edges[n - 1].0) {
            0nat
        } else {
            1nat
        }
    }
}

/// Adding `x` to `q`, when the edge `e` starts at `x` and `q` lacks it, leaves
/// fewer edges unseen.
proof fn lemma_unseen_push(
    edges: Seq<(Seq<char>, Seq<char>)>,
    q: Seq<Seq<char>>,
    x: Seq<char>,
    e: int,
    n: nat,
)
    requires
        n <= edges.len(),
        0 <= e < edges.len(),
        edges[e].0 == x,
        !q.contains(x),
    ensures
        unseen(edges, q.push(x), n) <= unseen(edges, q, n),
        e < n ==> unseen(edges, q.push(x), n) < unseen(edges, q, n),
    decreases n,
{
    if n > 0 {
        lemma_unseen_push(edges, q, x, e, (n - 1) as nat);
        let y = edges[n - 1].0;
        if q.contains(y) {
            let k = choose|k: int| 0 <= k < q.len() && q[k] == y;
            assert(q.push(x)[k] == y);
        }
        if n - 1 == e {
            assert(q.push(x)[q.len() as int] == x);
        }
    }
}

/// Whether `v` holds a string with the characters of `s`.
pub(crate) fn contains_string(v: &Vec<String>, s: &String) -> (res: bool)
    ensures
        res == views_of(v@).contains(s@),
{
    for i in 0..v.len()
        invariant
            forall|j: int| 0 <= j < i ==> views_of(v@)[j] != s@,
    {
        if v[i] == *s {
            assert(views_of(v@)[i as int] == s@);
            return true;
        }
    }
    false
}

/// The upgrade relationships between an extension's versions.
///
/// `bases` are versions that ship a base install script, so `create extension
/// ... version '<v>'` can name them directly. `edges` are upgrade paths, each
/// a `(from, to)` pair, in the order they were given.
///
/// Both are lists rather than a `HashSet<String>` and a `HashMap` from a
/// version to the versions that upgrade into it: vstd describes what those
/// hold only for key types whose hashing it models (`obeys_key_model`, which
/// it grants to integer keys and not to `String`). The bases are read as a
/// set; the versions that upgrade into `v` are those of the edges into `v`,
/// in edge order, as the map's lists held them.
pub struct VersionGraph {
    bases: Vec<String>,
    edges: Vec<(String, String)>,
}

impl VersionGraph {
    /// The versions that ship a base install script.
    pub closed spec fn base_versions(&self) -> Set<Seq<char>> {
        views_of(self.bases@).to_set()
    }

    /// The upgrade paths, as `(from, to)` pairs.
    pub closed spec fn upgrade_edges(&self) -> Seq<(Seq<char>, Seq<char>)> {
        edge_views(self.edges@)
    }

    /// The graph with base versions `bases` and upgrade paths `edges`.
    pub fn new(bases: Vec<String>, edges: Vec<(String, String)>) -> (res: Self)
        ensures
            res.base_versions() == views_of(bases@).to_set(),
            res.upgrade_edges() == edge_views(edges@),
    {
        VersionGraph { bases, edges }
    }

    /// The graph of a payload: one base per install script, one edge per
    /// upgrade script.
    pub fn from_payload(payload: &Payload) -> (res: Self)
        ensures
            res.base_versions() == install_versions(payload.install_files@).to_set(),
            res.upgrade_edges() == upgrade_pairs(payload.upgrade_files@),
    {
        let mut bases: Vec<String> = Vec::new();
        for i in 0..payload.install_files.len()
            invariant
                views_of(bases@) == install_versions(payload.install_files@).take(i as int),
        {
            let ghost before = bases@;
            let v = payload.install_files[i].version.clone();
            assert(v@ == payload.install_files@[i as int].version@);
            bases.push(v);
            assert(bases@ == before.push(v));
            assert(install_versions(payload.install_files@).take(i + 1) =~= install_versions(
                payload.install_files@,
            ).take(i as int).push(payload.install_files@[i as int].version@));
            assert(views_of(bases@) =~= views_of(before).push(v@));
        }
        let mut edges: Vec<(String, String)> = Vec::new();
        for i in 0..payload.upgrade_files.len()
            invariant
                edge_views(edges@) == upgrade_pairs(payload.upgrade_files@).take(i as int),
        {
            let f = &payload.upgrade_files[i];
            let ghost before = edges@;
            let pair = (f.from_version.clone(), f.to_version.clone());
            assert(pair.0@ == payload.upgrade_files@[i as int].from_version@);
            assert(pair.1@ == payload.upgrade_files@[i as int].to_version@);
            edges.push(pair);
            assert(edges@ == before.push(pair));
            assert(upgrade_pairs(payload.upgrade_files@).take(i + 1) =~= upgrade_pairs(
                payload.upgrade_files@,
            ).take(i as int).push(
                (
                    payload.upgrade_files@[i as int].from_version@,
                    payload.upgrade_files@[i as int].to_version@,
                ),
            ));
            assert(edge_views(edges@) =~= edge_views(before).push((pair.0@, pair.1@)));
        }
        assert(install_versions(payload.install_files@).take(
            payload.install_files.len() as int,
        ) =~= install_versions(payload.install_files@));
        assert(upgrade_pairs(payload.upgrade_files@).take(payload.upgrade_files.len() as int)
            =~= upgrade_pairs(payload.upgrade_files@));
        VersionGraph::new(bases, edges)
    }

    /// The versions worth installing when `target` is the one being asked
    /// for: `target` itself plus everything that can upgrade into it. Each
    /// comes once, so the list reads as a set (a list, not a `HashSet`, for
    /// the reason given on `VersionGraph`).
    ///
    /// Versions on a branch with no path to `target` are excluded: installing
    /// them would imply an upgrade route that does not exist.
    pub fn required_for(&self, target: &str) -> (res: Vec<String>)
        ensures
            views_of(res@).no_duplicates(),
            forall|v: Seq<char>|
                #![trigger views_of(res@).contains(v)]
                views_of(res@).contains(v) <==> reaches(self.upgrade_edges(), v, target@),
    {
        let ghost es = self.upgrade_edges();
        let t = target.to_owned();
        let mut found: Vec<String> = Vec::new();
        found.push(t.clone());
        assert(reaches_within(es, t@, t@, 0));
        assert(views_of(found@)[0] == t@);
        let mut head: usize = 0;
        while head < found.len()
            invariant
                es == self.upgrade_edges(),
                es.len() == self.edges@.len(),
                t@ == target@,
                head <= found.len(),
                found.len() >= 1,
                views_of(found@)[0] == t@,
                views_of(found@).no_duplicates(),
                forall|k: int|
                    0 <= k < found.len() ==> reaches(es, #[trigger] views_of(found@)[k], t@),
                forall|k: int, i: int|
                    0 <= k < head && 0 <= i < es.len() && (#[trigger] es[i]).1
                        == #[trigger] views_of(found@)[k] ==> views_of(found@).contains(es[i].0),
            decreases unseen(es, views_of(found@), es.len()) + found.len() - head,
        {
            let u = found[head].clone();
            let ghost q0 = views_of(found@);
            let mut i: usize = 0;
            while i < self.edges.len()
                invariant
                    es == self.upgrade_edges(),
                    es.len() == self.edges@.len(),
                    t@ == target@,
                    head < found.len(),
                    i <= es.len(),
                    views_of(found@)[0] == t@,
                    u@ == views_of(found@)[head as int],
                    views_of(found@).no_duplicates(),
                    q0 == views_of(found@).take(q0.len() as int),
                    q0.len() <= found.len(),
                    unseen(es, views_of(found@), es.len()) + found.len() <= unseen(es, q0, es.len())
                        + q0.len(),
                    forall|k: int|
                        0 <= k < found.len() ==> reaches(es, #[trigger] views_of(found@)[k], t@),
                    forall|k: int, j: int|
                        0 <= k < head && 0 <= j < es.len() && (#[trigger] es[j]).1
                            == #[trigger] views_of(found@)[k] ==> views_of(found@).contains(
                            es[j].0,
                        ),
                    forall|j: int|
                        0 <= j < i && (#[trigger] es[j]).1 == u@ ==> views_of(found@).contains(
                            es[j].0,
                        ),
                decreases es.len() - i,
            {
                assert(es[i as int] == (self.edges@[i as int].0@, self.edges@[i as int].1@));
                if self.edges[i].1 == u {
                    let a = &self.edges[i].0;
                    if !contains_string(&found, a) {
                        let ghost q = views_of(found@);
                        proof {
                            let n = choose|n: nat| reaches_within(es, u@, t@, n);
                            assert(es[i as int].0 == a@);
                            assert(reaches_within(es, a@, t@, n + 1));
                            lemma_unseen_push(es, q, a@, i as int, es.len());
                        }
                        found.push(a.clone());
                        assert(views_of(found@) =~= q.push(a@));
                        proof {
                            assert forall|k: int, j: int|
                                0 <= k < head && 0 <= j < es.len() && (#[trigger] es[j]).1
                                    == #[trigger] views_of(found@)[k] implies views_of(
                                found@,
                            ).contains(es[j].0) by {
                                assert(q[k] == views_of(found@)[k]);
                                let w = choose|w: int| 0 <= w < q.len() && q[w] == es[j].0;
                                assert(views_of(found@)[w] == es[j].0);
                            }
                            assert forall|j: int|
                                0 <= j < i + 1 && (#[trigger] es[j]).1 == u@ implies views_of(
                                found@,
                            ).contains(es[j].0) by {
                                if j < i {
                                    let w = choose|w: int| 0 <= w < q.len() && q[w] == es[j].0;
                                    assert(views_of(found@)[w] == es[j].0);
                                } else {
                                    assert(views_of(found@)[q.len() as int] == es[j].0);
                                }
                            }
                            assert(q0 =~= views_of(found@).take(q0.len() as int));
                        }
                    }
                }
                i += 1;
            }
            proof {
                assert forall|k: int, j: int|
                    0 <= k < head + 1 && 0 <= j < es.len() && (#[trigger] es[j]).1
                        == #[trigger] views_of(found@)[k] implies views_of(found@).contains(
                    es[j].0,
                ) by {
                    if k == head {
                        assert(es[j].1 == u@);
                    }
                }
            }
            head += 1;
        }
        proof {
            let q = views_of(found@);
            assert(q[0] == t@);
            assert forall|v: Seq<char>| #![trigger q.contains(v)] q.contains(v) <==> reaches(es, v, t@) by {
                if q.contains(v) {
                    let k = choose|k: int| 0 <= k < q.len() && q[k] == v;
                    assert(reaches(es, q[k], t@));
                }
                if reaches(es, v, t@) {
                    let n = choose|n: nat| reaches_within(es, v, t@, n);
                    lemma_closed_holds_reaching(es, q, t@, v, n);
                }
            }
        }
        found
    }

    /// The nearest base version that reaches `target`.
    ///
    /// `create extension ... version '<target>'` fails when `target` is only
    /// reachable by upgrade; creating at this base and then updating to
    /// `target` gets there instead.
    ///
    /// `None` when `target` is already a base, or when no base reaches it at
    /// all. Otherwise a base that reaches `target` through as few upgrades as
    /// any base does; among such bases, the one whose route, read from
    /// `target` outward, uses the earliest upgrade edges, which is the first
    /// a breadth-first walk back from `target` meets.
    pub fn base_for(&self, target: &str) -> (res: Option<String>)
        ensures
            self.base_versions().contains(target@) ==> res is None,
            match res {
                Some(b) => {
                    &&& !self.base_versions().contains(target@)
                    &&& self.base_versions().contains(b@)
                    &&& reaches(self.upgrade_edges(), b@, target@)
                    &&& forall|b2: Seq<char>, n: nat|
                        self.base_versions().contains(b2) && reaches_within(
                            self.upgrade_edges(),
                            b2,
                            target@,
                            n,
                        ) ==> reaches_within(self.upgrade_edges(), b@, target@, n)
                    &&& exists|p: Seq<int>|
                        is_route(self.upgrade_edges(), p, b@, target@) && forall|
                            b2: Seq<char>,
                            p2: Seq<int>,
                        |
                            self.base_versions().contains(b2) && b2 != b@ && is_route(
                                self.upgrade_edges(),
                                p2,
                                b2,
                                target@,
                            ) ==> route_lt(p, p2)
                },
                None => self.base_versions().contains(target@) || forall|b2: Seq<char>|
                    self.base_versions().contains(b2) ==> !reaches(
                        self.upgrade_edges(),
                        b2,
                        target@,
                    ),
            },
    {
        if self.is_base(target) {
            return None;
        }
        let ghost es = self.upgrade_edges();
        let ghost bs = self.base_versions();
        let t = target.to_owned();
        let mut found: Vec<String> = Vec::new();
        found.push(t.clone());
        let ghost mut keys: Seq<Seq<int>> = seq![Seq::<int>::empty()];
        assert(views_of(found@)[0] == t@);
        proof {
            assert forall|k: int, r: Seq<int>|
                0 <= k < 1 && #[trigger] is_route(es, r, views_of(found@)[k], t@) implies !route_lt(
                r,
                keys[k],
            ) by {}
            assert forall|k: int|
                0 <= k < 1 implies route_lt(keys[k], keys[0].push(0)) by {}
        }
        let mut head: usize = 0;
        // Breadth-first, so the first base found is the fewest upgrades away.
        while head < found.len()
            invariant
                es == self.upgrade_edges(),
                bs == self.base_versions(),
                bs == views_of(self.bases@).to_set(),
                es.len() == self.edges@.len(),
                t@ == target@,
                !bs.contains(t@),
                head <= found.len(),
                found.len() >= 1,
                keys.len() == found.len(),
                views_of(found@)[0] == t@,
                forall|k: int|
                    0 <= k < found.len() ==> is_route(es, keys[k], #[trigger] views_of(found@)[k], t@),
                forall|k: int, r: Seq<int>|
                    0 <= k < found.len() && #[trigger] is_route(es, r, views_of(found@)[k], t@)
                        ==> !route_lt(r, keys[k]),
                forall|a: int, b: int|
                    0 <= a < b < found.len() ==> route_lt(#[trigger] keys[a], #[trigger] keys[b]),
                head < found.len() ==> forall|k: int|
                    0 <= k < found.len() ==> route_lt(#[trigger] keys[k], keys[head as int].push(0)),
                forall|k: int| 0 <= k < found.len() ==> !bs.contains(#[trigger] views_of(found@)[k]),
                forall|k: int, i: int|
                    0 <= k < head && 0 <= i < es.len() && (#[trigger] es[i]).1
                        == #[trigger] views_of(found@)[k] ==> views_of(found@).contains(es[i].0),
            decreases unseen(es, views_of(found@), es.len()) + found.len() - head,
        {
            let u = found[head].clone();
            let ghost q0 = views_of(found@);
            let mut i: usize = 0;
            while i < self.edges.len()
                invariant
                    es == self.upgrade_edges(),
                    bs == self.base_versions(),
                    bs == views_of(self.bases@).to_set(),
                    es.len() == self.edges@.len(),
                    t@ == target@,
                    !bs.contains(t@),
                    head < found.len(),
                    i <= es.len(),
                    keys.len() == found.len(),
                    views_of(found@)[0] == t@,
                    u@ == views_of(found@)[head as int],
                    q0 == views_of(found@).take(q0.len() as int),
                    q0.len() <= found.len(),
                    unseen(es, views_of(found@), es.len()) + found.len() <= unseen(es, q0, es.len())
                        + q0.len(),
                    forall|k: int|
                        0 <= k < found.len() ==> is_route(
                            es,
                            keys[k],
                            #[trigger] views_of(found@)[k],
                            t@,
                        ),
                    forall|k: int, r: Seq<int>|
                        0 <= k < found.len() && #[trigger] is_route(es, r, views_of(found@)[k], t@)
                            ==> !route_lt(r, keys[k]),
                    forall|a: int, b: int|
                        0 <= a < b < found.len() ==> route_lt(#[trigger] keys[a], #[trigger] keys[b]),
                    forall|k: int|
                        0 <= k < found.len() ==> route_lt(
                            #[trigger] keys[k],
                            keys[head as int].push(i as int),
                        ),
                    forall|k: int|
                        0 <= k < found.len() ==> !bs.contains(#[trigger] views_of(found@)[k]),
                    forall|k: int, j: int|
                        0 <= k < head && 0 <= j < es.len() && (#[trigger] es[j]).1
                            == #[trigger] views_of(found@)[k] ==> views_of(found@).contains(
                            es[j].0,
                        ),
                    forall|j: int|
                        0 <= j < i && (#[trigger] es[j]).1 == u@ ==> views_of(found@).contains(
                            es[j].0,
                        ),
                decreases es.len() - i,
            {
                assert(es[i as int] == (self.edges@[i as int].0@, self.edges@[i as int].1@));
                let ghost kh = keys[head as int];
                proof {
                    lemma_route_push(kh, kh, i as int, i + 1);
                    assert forall|k: int|
                        0 <= k < found.len() implies route_lt(#[trigger] keys[k], kh.push(i + 1)) by {
                        lemma_route_order(keys[k], kh.push(i as int), kh.push(i + 1));
                    }
                }
                if self.edges[i].1 == u {
                    let a = &self.edges[i].0;
                    if !contains_string(&found, a) {
                        let ghost q = views_of(found@);
                        let ghost ka = kh.push(i as int);
                        assert(es[i as int].0 == a@);
                        assert(ka.drop_last() =~= kh);
                        assert(is_route(es, ka, a@, t@));
                        if contains_string(&self.bases, a) {
                            proof {
                                assert(bs.contains(a@));
                                assert forall|b2: Seq<char>, p2: Seq<int>|
                                    bs.contains(b2) && b2 != a@ && is_route(
                                        es,
                                        p2,
                                        b2,
                                        t@,
                                    ) implies route_lt(ka, p2) by {
                                    if q.contains(b2) {
                                        let k = choose|k: int| 0 <= k < q.len() && q[k] == b2;
                                        assert(!bs.contains(q[k]));
                                    }
                                    lemma_unfound_routes(
                                        es,
                                        q,
                                        keys,
                                        head as int,
                                        i as int,
                                        t@,
                                        b2,
                                        p2,
                                    );
                                    lemma_route_order(ka, p2, ka);
                                    if p2 == ka {
                                        assert(p2.last() == i);
                                    }
                                }
                                lemma_route_reaches(es, ka, a@, t@);
                                assert forall|b2: Seq<char>, n: nat|
                                    bs.contains(b2) && reaches_within(es, b2, t@, n) implies reaches_within(
                                    es,
                                    a@,
                                    t@,
                                    n,
                                ) by {
                                    if b2 == a@ {
                                    } else {
                                        let p2 = lemma_reaches_route(es, b2, t@, n);
                                        assert(route_lt(ka, p2));
                                        lemma_within_mono(es, a@, t@, ka.len(), n);
                                    }
                                }
                            }
                            return Some(a.clone());
                        }
                        proof {
                            lemma_unseen_push(es, q, a@, i as int, es.len());
                            assert forall|r: Seq<int>| #[trigger]
                                is_route(es, r, a@, t@) implies !route_lt(r, ka) by {
                                lemma_unfound_routes(es, q, keys, head as int, i as int, t@, a@, r);
                            }
                        }
                        found.push(a.clone());
                        proof {
                            keys = keys.push(ka);
                        }
                        assert(views_of(found@) =~= q.push(a@));
                        proof {
                            let q2 = views_of(found@);
                            assert(q2[q.len() as int] == a@);
                            assert forall|k: int, j: int|
                                0 <= k < head && 0 <= j < es.len() && (#[trigger] es[j]).1
                                    == #[trigger] q2[k] implies q2.contains(es[j].0) by {
                                assert(q[k] == q2[k]);
                                let w = choose|w: int| 0 <= w < q.len() && q[w] == es[j].0;
                                assert(q2[w] == es[j].0);
                            }
                            assert forall|j: int|
                                0 <= j < i + 1 && (#[trigger] es[j]).1 == u@ implies q2.contains(
                                es[j].0,
                            ) by {
                                if j < i {
                                    let w = choose|w: int| 0 <= w < q.len() && q[w] == es[j].0;
                                    assert(q2[w] == es[j].0);
                                } else {
                                    assert(q2[q.len() as int] == es[j].0);
                                }
                            }
                            assert forall|k: int|
                                0 <= k < q2.len() implies !bs.contains(#[trigger] q2[k]) by {
                                if k < q.len() {
                                    assert(q2[k] == q[k]);
                                } else {
                                    assert(views_of(self.bases@).to_set().contains(a@)
                                        == views_of(self.bases@).contains(a@));
                                }
                            }
                            assert forall|k: int|
                                0 <= k < q2.len() implies is_route(
                                es,
                                keys[k],
                                #[trigger] q2[k],
                                t@,
                            ) by {
                                if k < q.len() {
                                    assert(q2[k] == q[k]);
                                }
                            }
                            assert forall|k: int, r: Seq<int>|
                                0 <= k < q2.len() && #[trigger] is_route(es, r, q2[k], t@)
                                    implies !route_lt(r, keys[k]) by {
                                if k < q.len() {
                                    assert(q2[k] == q[k]);
                                }
                            }
                            assert forall|x: int, y: int|
                                0 <= x < y < q2.len() implies route_lt(
                                #[trigger] keys[x],
                                #[trigger] keys[y],
                            ) by {
                                if y == q.len() {
                                    assert(route_lt(keys.drop_last()[x], ka));
                                } else {
                                    assert(keys[x] == keys.drop_last()[x]);
                                    assert(keys[y] == keys.drop_last()[y]);
                                }
                            }
                            assert forall|k: int|
                                0 <= k < q2.len() implies route_lt(
                                #[trigger] keys[k],
                                keys[head as int].push(i + 1),
                            ) by {
                                if k < q.len() {
                                    assert(keys[k] == keys.drop_last()[k]);
                                }
                            }
                            assert(q0 =~= q2.take(q0.len() as int));
                        }
                    }
                }
                i += 1;
            }
            proof {
                let q = views_of(found@);
                assert forall|k: int, j: int|
                    0 <= k < head + 1 && 0 <= j < es.len() && (#[trigger] es[j]).1 == #[trigger] q[k]
                        implies q.contains(es[j].0) by {
                    if k == head {
                        assert(es[j].1 == u@);
                    }
                }
                if head + 1 < found.len() {
                    let kh = keys[head as int];
                    let kn = keys[head + 1];
                    assert(route_lt(kh, kn));
                    lemma_route_push(kh, kn, es.len() as int, 0);
                    assert forall|k: int|
                        0 <= k < found.len() implies route_lt(#[trigger] keys[k], kn.push(0)) by {
                        lemma_route_order(keys[k], kh.push(es.len() as int), kn.push(0));
                    }
                }
            }
            head += 1;
        }
        proof {
            let q = views_of(found@);
            assert(q[0] == t@);
            assert forall|b2: Seq<char>| bs.contains(b2) implies !reaches(es, b2, t@) by {
                if reaches(es, b2, t@) {
                    let n = choose|n: nat| reaches_within(es, b2, t@, n);
                    lemma_closed_holds_reaching(es, q, t@, b2, n);
                    let k = choose|k: int| 0 <= k < q.len() && q[k] == b2;
                    assert(!bs.contains(q[k]));
                }
            }
        }
        None
    }

    /// Whether `target` can be created directly, i.e. it ships a base install
    /// script of its own.
    pub fn is_base(&self, target: &str) -> (res: bool)
        ensures
            res == self.base_versions().contains(target@),
    {
        let t = target.to_owned();
        contains_string(&self.bases, &t)
    }

    /// Whether an upgrade edge is worth installing alongside `required`: both
    /// of its endpoints have to be versions we are keeping.
    pub fn edge_is_required(required: &Vec<String>, from: &str, to: &str) -> (res: bool)
        ensures
            res == (views_of(required@).contains(from@) && views_of(required@).contains(to@)),
    {
        let f = from.to_owned();
        let t = to.to_owned();
        contains_string(required, &f) && contains_string(required, &t)
    }
}

} // verus!
