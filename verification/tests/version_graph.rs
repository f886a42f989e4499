use dbdev::version_graph::VersionGraph;

fn v(versions: &[&str]) -> Vec<String> {
    versions.iter().map(|s| s.to_string()).collect()
}

fn e(edges: &[(&str, &str)]) -> Vec<(String, String)> {
    edges
        .iter()
        .map(|(f, t)| (f.to_string(), t.to_string()))
        .collect()
}

fn sorted(set: Vec<String>) -> Vec<String> {
    let mut out: Vec<String> = set.into_iter().collect();
    out.sort();
    out
}

#[test]
fn linear_chain_keeps_the_whole_lineage() {
    let graph = VersionGraph::new(
        v(&["1.0.0"]),
        e(&[("1.0.0", "1.1.0"), ("1.1.0", "1.2.0")]),
    );

    assert_eq!(
        sorted(graph.required_for("1.2.0")),
        v(&["1.0.0", "1.1.0", "1.2.0"])
    );
}

// 4.x and 5.x are separate lineages with no crossing upgrade. Asking for
// 5.1.0 must not drag every 4.x version into the catalog.
#[test]
fn disconnected_lineage_is_excluded() {
    let graph = VersionGraph::new(
        v(&["4.0.0", "5.0.0"]),
        e(&[
            ("4.0.0", "4.1.0"),
            ("4.1.0", "4.2.0"),
            ("5.0.0", "5.1.0"),
        ]),
    );

    assert_eq!(sorted(graph.required_for("5.1.0")), v(&["5.0.0", "5.1.0"]));

    let required = graph.required_for("5.1.0");
    assert!(VersionGraph::edge_is_required(
        &required, "5.0.0", "5.1.0"
    ));
    assert!(!VersionGraph::edge_is_required(
        &required, "4.0.0", "4.1.0"
    ));
}

#[test]
fn oldest_version_needs_nothing_before_it() {
    let graph = VersionGraph::new(v(&["1.0.0"]), e(&[("1.0.0", "1.1.0")]));

    assert_eq!(sorted(graph.required_for("1.0.0")), v(&["1.0.0"]));
}

// 2.1.0 ships only an upgrade script, so it has to be reached by creating
// 2.0.1 first.
#[test]
fn upgrade_only_version_resolves_to_its_base() {
    let graph = VersionGraph::new(v(&["2.0.1"]), e(&[("2.0.1", "2.1.0")]));

    assert!(!graph.is_base("2.1.0"));
    assert_eq!(graph.base_for("2.1.0"), Some("2.0.1".to_string()));
}

#[test]
fn base_for_picks_the_nearest_base() {
    let graph = VersionGraph::new(
        v(&["1.0.0", "1.2.0"]),
        e(&[
            ("1.0.0", "1.1.0"),
            ("1.1.0", "1.2.0"),
            ("1.2.0", "1.3.0"),
        ]),
    );

    assert_eq!(graph.base_for("1.3.0"), Some("1.2.0".to_string()));
}

#[test]
fn a_version_that_is_already_a_base_needs_no_route() {
    let graph = VersionGraph::new(v(&["1.0.0"]), e(&[]));

    assert!(graph.is_base("1.0.0"));
    assert_eq!(graph.base_for("1.0.0"), None);
}

#[test]
fn unreachable_version_has_no_base() {
    let graph = VersionGraph::new(v(&["1.0.0"]), e(&[("9.0.0", "9.1.0")]));

    assert_eq!(graph.base_for("9.1.0"), None);
}

#[test]
fn required_for_lists_each_version_once_despite_diamonds() {
    let graph = VersionGraph::new(
        v(&["1.0.0"]),
        e(&[
            ("1.0.0", "1.1.0"),
            ("1.0.0", "1.2.0"),
            ("1.1.0", "2.0.0"),
            ("1.2.0", "2.0.0"),
            ("1.1.0", "1.2.0"),
        ]),
    );

    let required = graph.required_for("2.0.0");
    assert_eq!(required.len(), 4);
    assert_eq!(sorted(required), v(&["1.0.0", "1.1.0", "1.2.0", "2.0.0"]));
}

#[test]
fn required_for_follows_cycles_without_looping() {
    let graph = VersionGraph::new(
        v(&[]),
        e(&[("1.0.0", "1.1.0"), ("1.1.0", "1.0.0"), ("0.9.0", "1.0.0")]),
    );

    assert_eq!(
        sorted(graph.required_for("1.1.0")),
        v(&["0.9.0", "1.0.0", "1.1.0"])
    );
}

#[test]
fn a_target_outside_the_graph_requires_only_itself() {
    let graph = VersionGraph::new(v(&["1.0.0"]), e(&[("1.0.0", "1.1.0")]));

    assert_eq!(sorted(graph.required_for("3.0.0")), v(&["3.0.0"]));
}

// Whatever is required for a required version is required too.
#[test]
fn required_sets_nest_along_the_lineage() {
    let graph = VersionGraph::new(
        v(&["1.0.0"]),
        e(&[("1.0.0", "1.1.0"), ("1.1.0", "1.2.0"), ("0.1.0", "0.2.0")]),
    );

    let outer = graph.required_for("1.2.0");
    for inner in graph.required_for("1.1.0") {
        assert!(outer.contains(&inner));
    }
}

#[test]
fn base_for_prefers_fewer_upgrades_over_edge_order() {
    let graph = VersionGraph::new(
        v(&["1.0.0", "2.0.0"]),
        e(&[
            ("1.0.0", "1.5.0"),
            ("1.5.0", "3.0.0"),
            ("2.0.0", "3.0.0"),
        ]),
    );

    assert_eq!(graph.base_for("3.0.0"), Some("2.0.0".to_string()));
}

#[test]
fn base_for_ignores_a_cycle_with_no_base() {
    let graph = VersionGraph::new(
        v(&["0.1.0"]),
        e(&[("1.0.0", "1.1.0"), ("1.1.0", "1.0.0")]),
    );

    assert_eq!(graph.base_for("1.1.0"), None);
}

#[test]
fn edge_is_required_needs_both_endpoints() {
    let required = v(&["1.0.0", "1.1.0"]);

    assert!(VersionGraph::edge_is_required(&required, "1.0.0", "1.1.0"));
    assert!(!VersionGraph::edge_is_required(&required, "1.0.0", "2.0.0"));
    assert!(!VersionGraph::edge_is_required(&required, "0.9.0", "1.1.0"));
}

// Among equally near bases, the first one met walking back from the target
// wins: the one whose upgrade into the target comes first.
#[test]
fn base_for_breaks_ties_by_edge_order() {
    let graph = VersionGraph::new(
        v(&["1.0.0", "2.0.0"]),
        e(&[("2.0.0", "3.0.0"), ("1.0.0", "3.0.0")]),
    );
    assert_eq!(graph.base_for("3.0.0"), Some("2.0.0".to_string()));

    let graph = VersionGraph::new(
        v(&["1.0.0", "2.0.0"]),
        e(&[("1.0.0", "3.0.0"), ("2.0.0", "3.0.0")]),
    );
    assert_eq!(graph.base_for("3.0.0"), Some("1.0.0".to_string()));
}

#[test]
fn base_for_ties_follow_the_route_nearest_the_target() {
    // 2.5.0 is met before 2.6.0, so 2.0.0 (behind 2.5.0) wins over 1.0.0
    // even though 1.0.0's own edge comes first.
    let graph = VersionGraph::new(
        v(&["1.0.0", "2.0.0"]),
        e(&[
            ("1.0.0", "2.6.0"),
            ("2.0.0", "2.5.0"),
            ("2.5.0", "3.0.0"),
            ("2.6.0", "3.0.0"),
        ]),
    );
    assert_eq!(graph.base_for("3.0.0"), Some("2.0.0".to_string()));
}
