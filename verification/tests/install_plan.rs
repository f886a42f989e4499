use dbdev::install::{plan_update_paths, plan_version_installs, required_versions, InstallKind};
use dbdev::models::{InstallFile, Metadata, Payload, ReadmeFile, UpgradeFile};
use dbdev::version_graph::VersionGraph;

fn payload(default_version: &str, installs: &[&str], upgrades: &[(&str, &str)]) -> Payload {
    Payload {
        metadata: Metadata {
            extension_name: "my_ext".to_string(),
            default_version: default_version.to_string(),
            comment: None,
            schema: None,
            relocatable: false,
            requires: vec![],
            repository: None,
        },
        install_files: installs
            .iter()
            .map(|v| InstallFile {
                filename: format!("my_ext--{}.sql", v),
                version: v.to_string(),
                body: String::new(),
            })
            .collect(),
        upgrade_files: upgrades
            .iter()
            .map(|(f, t)| UpgradeFile {
                filename: format!("my_ext--{}--{}.sql", f, t),
                from_version: f.to_string(),
                to_version: t.to_string(),
                body: String::new(),
            })
            .collect(),
        readme_file: Some(ReadmeFile {
            body: "# my_ext".to_string(),
        }),
    }
}

fn strings(items: &[&str]) -> Vec<String> {
    items.iter().map(|s| s.to_string()).collect()
}

#[test]
fn only_the_default_lineage_is_required() {
    let p = payload(
        "5.1.0",
        &["4.0.0", "5.0.0"],
        &[("4.0.0", "4.1.0"), ("5.0.0", "5.1.0")],
    );
    let mut required = required_versions(&p);
    required.sort();

    assert_eq!(required, strings(&["5.0.0", "5.1.0"]));
}

#[test]
fn first_install_registers_the_extension() {
    let p = payload(
        "1.1.0",
        &["1.0.0", "1.1.0", "9.0.0"],
        &[("1.0.0", "1.1.0")],
    );
    let required = required_versions(&p);
    let plan = plan_version_installs(&p, &required, &vec![]);

    assert_eq!(plan.steps.len(), 2);
    assert_eq!(plan.steps[0].file, 0);
    assert_eq!(plan.steps[0].kind, InstallKind::Extension);
    assert_eq!(plan.steps[1].file, 1);
    assert_eq!(plan.steps[1].kind, InstallKind::Version);
    assert!(plan.installs_default);
}

#[test]
fn existing_versions_are_not_installed_again() {
    let p = payload("1.1.0", &["1.0.0", "1.1.0"], &[("1.0.0", "1.1.0")]);
    let required = required_versions(&p);
    let plan = plan_version_installs(&p, &required, &strings(&["1.0.0"]));

    assert_eq!(plan.steps.len(), 1);
    assert_eq!(plan.steps[0].file, 1);
    assert_eq!(plan.steps[0].kind, InstallKind::Version);
    assert!(plan.installs_default);

    let plan = plan_version_installs(&p, &required, &strings(&["1.0.0", "1.1.0"]));
    assert!(plan.steps.is_empty());
    assert!(!plan.installs_default);
}

#[test]
fn update_paths_need_both_ends_required_and_missing() {
    let p = payload(
        "1.2.0",
        &["1.0.0"],
        &[("1.0.0", "1.1.0"), ("1.1.0", "1.2.0"), ("0.1.0", "0.2.0"), ("1.2.0", "1.3.0")],
    );
    let required = required_versions(&p);

    assert_eq!(plan_update_paths(&p, &required, &vec![]), vec![0, 1]);
    assert_eq!(
        plan_update_paths(
            &p,
            &required,
            &vec![("1.0.0".to_string(), "1.1.0".to_string())]
        ),
        vec![1]
    );
}

#[test]
fn graph_from_payload_uses_install_and_upgrade_scripts() {
    let p = payload("2.1.0", &["2.0.1"], &[("2.0.1", "2.1.0")]);
    let graph = VersionGraph::from_payload(&p);

    assert!(graph.is_base("2.0.1"));
    assert!(!graph.is_base("2.1.0"));
    assert_eq!(graph.base_for("2.1.0"), Some("2.0.1".to_string()));
    assert_eq!(p.readme_file.as_ref().unwrap().body(), "# my_ext");
}
