use std::collections::BTreeMap;

use antlir2_depgraph::fate::Fate;
use antlir2_depgraph::feature::ensure_usr;
use antlir2_depgraph::feature::Antlir1NoEquivalent;
use antlir2_depgraph::feature::Data;
use antlir2_depgraph::feature::EnsureDirExists;
use antlir2_depgraph::feature::Extract;
use antlir2_depgraph::feature::ExtractBuckBinary;
use antlir2_depgraph::feature::ExtractLayerBinaries;
use antlir2_depgraph::feature::Feature;
use antlir2_depgraph::feature::Genrule;
use antlir2_depgraph::feature::GroupAdd;
use antlir2_depgraph::feature::Remove;
use antlir2_depgraph::feature::Requires;
use antlir2_depgraph::feature::Rpm;
use antlir2_depgraph::feature::UserAdd;
use antlir2_depgraph::graph::Edge;
use antlir2_depgraph::graph::Error;
use antlir2_depgraph::graph::Graph;
use antlir2_depgraph::graph::GraphBuilder;
use antlir2_depgraph::graph::Node;
use antlir2_depgraph::item::FileType;
use antlir2_depgraph::item::FsEntry;
use antlir2_depgraph::item::Item;
use antlir2_depgraph::item::ItemKey;
use antlir2_depgraph::item::PathItem;
use antlir2_depgraph::phase::Phase;
use antlir2_depgraph::rpm::Package;
use antlir2_depgraph::unit_file::cast_params;
use antlir2_depgraph::unit_file::Environment;
use antlir2_depgraph::validator::Validator;

fn feature(label: &str, data: Data) -> Feature {
    Feature { label: label.to_owned(), data }
}

fn dir(label: &str, path: &str, user: &str, group: &str) -> Feature {
    feature(
        label,
        Data::EnsureDirExists(EnsureDirExists {
            group: group.to_owned(),
            dir: path.to_owned(),
            mode: 0o755,
            user: user.to_owned(),
        }),
    )
}

fn binary(label: &str, dst: &str) -> Feature {
    feature(
        label,
        Data::Extract(Extract::Buck(ExtractBuckBinary {
            src: "buck-out/bin".to_owned(),
            dst: dst.to_owned(),
        })),
    )
}

fn requires_files(label: &str, files: &[&str]) -> Feature {
    feature(
        label,
        Data::Requires(Requires {
            files: files.iter().map(|f| f.to_string()).collect(),
            users: vec![],
            groups: vec![],
        }),
    )
}

fn build(parent: Option<Graph>, features: Vec<Feature>) -> Result<Graph, Error> {
    let mut b = GraphBuilder::new(parent);
    for f in features {
        b.add_feature(f).expect("feature declares its items");
    }
    b.build()
}

fn labels(fs: &[Feature]) -> Vec<String> {
    fs.iter().map(|f| f.label.clone()).collect()
}

fn position(order: &[String], label: &str) -> usize {
    order.iter().position(|l| l == label).expect("label is in the order")
}

#[test]
fn consistent_layer_runs_every_feature_once_in_dependency_order() {
    let g = build(
        None,
        vec![
            dir("//t:sub", "/a/b", "alice", "staff"),
            dir("//t:a", "/a", "alice", "staff"),
            dir("//t:home", "/home", "root", "root"),
            dir("//t:home_alice", "/home/alice", "root", "root"),
            feature(
                "//t:user",
                Data::User(UserAdd {
                    name: "alice".to_owned(),
                    primary_group: "staff".to_owned(),
                    home_dir: "/home/alice".to_owned(),
                }),
            ),
            feature("//t:group", Data::Group(GroupAdd { name: "staff".to_owned() })),
        ],
    )
    .expect("layer resolves");
    let order = labels(&g.pending_features());
    assert_eq!(order.len(), 6);
    for l in ["//t:sub", "//t:a", "//t:home", "//t:home_alice", "//t:user", "//t:group"] {
        assert_eq!(order.iter().filter(|o| *o == l).count(), 1);
    }
    assert!(position(&order, "//t:group") < position(&order, "//t:user"));
    assert!(position(&order, "//t:home_alice") < position(&order, "//t:user"));
    assert!(position(&order, "//t:home") < position(&order, "//t:home_alice"));
    assert!(position(&order, "//t:user") < position(&order, "//t:a"));
    assert!(position(&order, "//t:a") < position(&order, "//t:sub"));
}

#[test]
fn os_packages_run_before_other_features() {
    let g = build(
        None,
        vec![
            dir("//t:etc", "/etc", "root", "root"),
            feature("//t:rpms", Data::Rpm(Rpm { items: vec!["bash".to_owned()] })),
        ],
    )
    .expect("layer resolves");
    assert_eq!(labels(&g.pending_features()), vec!["//t:rpms", "//t:etc"]);
    assert_eq!(
        feature("//t:rpms", Data::Rpm(Rpm { items: vec![] })).phase(),
        Phase::OsPackage
    );
}

fn mutual_pair() -> (Feature, Feature) {
    (
        dir("//t:home_alice", "/home/alice", "alice", "root"),
        feature(
            "//t:alice",
            Data::User(UserAdd {
                name: "alice".to_owned(),
                primary_group: "root".to_owned(),
                home_dir: "/home/alice".to_owned(),
            }),
        ),
    )
}

fn cycle_labels(r: Result<Graph, Error>) -> Vec<String> {
    match r {
        Err(Error::Cycle(c)) => labels(&c.0),
        other => panic!("expected a cycle, got {:?}", other.map(|_| ())),
    }
}

#[test]
fn mutual_requirement_is_a_cycle_reported_least_first() {
    let (a, b) = mutual_pair();
    let home = dir("//t:home", "/home", "root", "root");
    let first = cycle_labels(build(None, vec![home.clone(), a.clone(), b.clone()]));
    assert!(first.contains(&"//t:alice".to_owned()));
    assert!(first.contains(&"//t:home_alice".to_owned()));
    assert_eq!(first[0], "//t:alice");
    let unrelated = dir("//t:opt", "/opt", "root", "root");
    let second = cycle_labels(build(None, vec![unrelated.clone(), b.clone(), home.clone(), a.clone()]));
    assert_eq!(first, second);
    let third = cycle_labels(build(None, vec![a, unrelated, b, home]));
    assert_eq!(first, third);
}

#[test]
fn two_providers_of_one_path_conflict() {
    let r = build(
        None,
        vec![
            dir("//t:etc", "/etc", "root", "root"),
            binary("//t:foo_one", "/etc/foo"),
            binary("//t:foo_two", "/etc/foo"),
        ],
    );
    match r {
        Err(Error::Conflict { item, features }) => {
            let mut ls = labels(&features);
            ls.sort();
            assert_eq!(ls, vec!["//t:foo_one", "//t:foo_two"]);
            match item {
                Item::Path(PathItem::Entry(e)) => assert_eq!(e.path, "/etc/foo"),
                other => panic!("unexpected item {other:?}"),
            }
        }
        other => panic!("expected a conflict, got {:?}", other.map(|_| ())),
    }
}

#[test]
fn cycle_is_reported_before_conflict() {
    let (a, b) = mutual_pair();
    let r = build(
        None,
        vec![
            dir("//t:home", "/home", "root", "root"),
            a,
            b,
            binary("//t:x_one", "/home/x"),
            binary("//t:x_two", "/home/x"),
        ],
    );
    assert!(matches!(r, Err(Error::Cycle(_))));
}

#[test]
fn required_path_never_provided_is_missing() {
    let r = build(None, vec![requires_files("//t:req", &["/x"])]);
    match r {
        Err(Error::MissingItem { key: ItemKey::Path(p) }) => assert_eq!(p, "/x"),
        other => panic!("expected a missing item, got {:?}", other.map(|_| ())),
    }
}

#[test]
fn missing_parent_directory_is_reported_under_its_own_path() {
    let r = build(None, vec![dir("//t:ab", "/a/b", "root", "root")]);
    match r {
        Err(Error::MissingItem { key: ItemKey::Path(p) }) => assert_eq!(p, "/a"),
        other => panic!("expected a missing item, got {:?}", other.map(|_| ())),
    }
}

#[test]
fn directory_satisfies_directory_requirement() {
    let g = build(None, vec![dir("//t:a", "/a", "root", "root"), binary("//t:tool", "/a/tool")]);
    assert!(g.is_ok());
}

#[test]
fn regular_file_does_not_satisfy_directory_requirement() {
    let r = build(None, vec![binary("//t:a", "/a"), binary("//t:tool", "/a/tool")]);
    match r {
        Err(Error::Unsatisfied { item, validator }) => {
            assert!(matches!(validator, Validator::FileType(FileType::Directory)));
            match item {
                Item::Path(PathItem::Entry(e)) => {
                    assert_eq!(e.path, "/a");
                    assert_eq!(e.file_type, FileType::File);
                    assert_eq!(e.mode, 0o555);
                }
                other => panic!("unexpected item {other:?}"),
            }
        }
        other => panic!("expected unsatisfied, got {:?}", other.map(|_| ())),
    }
}

#[test]
fn parent_layer_items_satisfy_child_requirements() {
    let parent = build(
        None,
        vec![dir("//p:etc", "/etc", "root", "root"), binary("//p:passwd", "/etc/passwd")],
    )
    .expect("parent resolves");
    let child = build(Some(parent), vec![requires_files("//c:req", &["/etc/passwd"])])
        .expect("child resolves on its parent");
    assert_eq!(labels(&child.pending_features()), vec!["//c:req"]);
}

#[test]
fn child_may_provide_again_what_parent_provided() {
    let parent = build(None, vec![dir("//p:etc", "/etc", "root", "root")]).expect("parent resolves");
    let child = build(Some(parent), vec![dir("//c:etc", "/etc", "root", "root")]);
    assert!(child.is_ok());
}

#[test]
fn root_user_group_and_directory_always_exist() {
    let r = build(
        None,
        vec![feature(
            "//t:req",
            Data::Requires(Requires {
                files: vec!["/".to_owned()],
                users: vec!["root".to_owned()],
                groups: vec!["root".to_owned()],
            }),
        )],
    );
    assert!(r.is_ok());
}

#[test]
fn missing_user_is_reported() {
    let r = build(
        None,
        vec![feature(
            "//t:req",
            Data::Requires(Requires { files: vec![], users: vec!["nobody".to_owned()], groups: vec![] }),
        )],
    );
    assert!(matches!(r, Err(Error::MissingItem { key: ItemKey::User(u) }) if u == "nobody"));
}

#[test]
fn populate_dynamic_items_twice_adds_nothing_the_second_time() {
    let mut g = build(None, vec![dir("//t:etc", "/etc", "root", "root")]).expect("resolves");
    let before = g.node_count();
    let entries = vec![
        FsEntry { path: "/".to_owned(), file_type: FileType::Directory, mode: 0o755 },
        FsEntry { path: "/etc".to_owned(), file_type: FileType::Directory, mode: 0o755 },
        FsEntry { path: "/etc/os-release".to_owned(), file_type: FileType::File, mode: 0o644 },
    ];
    let users = vec!["root".to_owned(), "daemon".to_owned()];
    let groups = vec!["wheel".to_owned()];
    g.populate_dynamic_items(entries.clone(), users.clone(), groups.clone());
    let once = g.node_count();
    assert_eq!(once, before + 3);
    g.populate_dynamic_items(entries, users, groups);
    assert_eq!(g.node_count(), once);
    let child = build(
        Some(g),
        vec![feature(
            "//c:req",
            Data::Requires(Requires {
                files: vec!["/etc/os-release".to_owned()],
                users: vec!["daemon".to_owned()],
                groups: vec!["wheel".to_owned()],
            }),
        )],
    );
    assert!(child.is_ok());
}

#[test]
fn feature_without_declarations_is_refused() {
    let mut b = GraphBuilder::new(None);
    let r = b.add_feature(feature("//t:old", Data::Antlir1NoEquivalent(Antlir1NoEquivalent)));
    assert!(r.is_err());
    let g = b.build().expect("nothing was added");
    assert!(g.pending_features().is_empty());
}

#[test]
fn genrule_provides_and_requires_nothing() {
    let f = feature(
        "//t:gen",
        Data::Genrule(Genrule { cmd: vec!["true".to_owned()], user: "root".to_owned(), boot: false, bind_repo_ro: true }),
    );
    assert!(f.provides().unwrap().is_empty());
    assert!(f.requirements().unwrap().is_empty());
}

fn source_layer() -> Graph {
    build(
        None,
        vec![
            dir("//src:usr", "/usr", "root", "root"),
            dir("//src:bin", "/usr/bin", "root", "root"),
            binary("//src:tool", "/usr/bin/tool"),
        ],
    )
    .expect("source layer resolves")
}

fn extract_from_layer(binaries: &[&str]) -> Feature {
    feature(
        "//t:extract",
        Data::Extract(Extract::Layer(ExtractLayerBinaries {
            layer: "//src:layer".to_owned(),
            binaries: binaries.iter().map(|b| b.to_string()).collect(),
        })),
    )
}

#[test]
fn binary_found_in_other_layer_satisfies_item_in_layer() {
    let mut b = GraphBuilder::new(None);
    b.add_layer_dependency("//src:layer".to_owned(), source_layer());
    b.add_feature(dir("//t:usr", "/usr", "root", "root")).unwrap();
    b.add_feature(dir("//t:bin", "/usr/bin", "root", "root")).unwrap();
    b.add_feature(extract_from_layer(&["/usr/bin/tool"])).unwrap();
    assert!(b.build().is_ok());
}

#[test]
fn binary_absent_from_other_layer_is_unsatisfied() {
    let mut b = GraphBuilder::new(None);
    b.add_layer_dependency("//src:layer".to_owned(), source_layer());
    b.add_feature(dir("//t:usr", "/usr", "root", "root")).unwrap();
    b.add_feature(dir("//t:bin", "/usr/bin", "root", "root")).unwrap();
    b.add_feature(extract_from_layer(&["/usr/bin/other"])).unwrap();
    match b.build() {
        Err(Error::Unsatisfied { item: Item::Layer(l), validator: Validator::ItemInLayer { .. } }) => {
            assert_eq!(l.label, "//src:layer")
        }
        other => panic!("expected unsatisfied, got {:?}", other.map(|_| ())),
    }
}

#[test]
fn extract_requirements_name_layer_and_parent_directory() {
    let reqs = extract_from_layer(&["/usr/bin/tool"]).requirements().unwrap();
    assert_eq!(reqs.len(), 2);
    assert!(matches!(&reqs[0].key, ItemKey::Layer(l) if l == "//src:layer"));
    assert!(matches!(&reqs[1].key, ItemKey::Path(p) if p == "/usr/bin"));
    assert!(matches!(reqs[1].validator, Validator::FileType(FileType::Directory)));
}

#[test]
fn removal_then_recreation_is_no_conflict() {
    let r = build(
        None,
        vec![
            dir("//t:a", "/a", "root", "root"),
            feature("//t:rm", Data::Remove(Remove { path: "/a".to_owned() })),
        ],
    );
    assert!(r.is_ok());
}

#[test]
fn ensure_usr_moves_lib_directories() {
    assert_eq!(ensure_usr("/lib64/libc.so.6"), "/usr/lib64/libc.so.6");
    assert_eq!(ensure_usr("/lib/ld.so"), "/usr/lib/ld.so");
    assert_eq!(ensure_usr("/usr/lib/libz.so"), "/usr/lib/libz.so");
    assert_eq!(ensure_usr("/library/x"), "/library/x");
}

#[test]
fn cast_params_keeps_non_negative_values() {
    assert!(matches!(cast_params("open_fds", None), Ok(None)));
    assert!(matches!(cast_params("open_fds", Some(0)), Ok(Some(0))));
    assert!(matches!(cast_params("open_fds", Some(4096)), Ok(Some(4096))));
}

#[test]
fn cast_params_refuses_negative_values() {
    match cast_params("open_fds", Some(-1)) {
        Err(antlir2_depgraph::unit_file::Error::InvalidSetting { setting, value, message }) => {
            assert_eq!(setting, "open_fds");
            assert_eq!(value, "-1");
            assert_eq!(message, "\"open_fds\" must be positive");
        }
        other => panic!("expected an invalid setting, got {other:?}"),
    }
}

#[test]
fn nevra_joins_package_fields() {
    let p = Package {
        name: "bash".to_owned(),
        epoch: 0,
        version: "5.1.8".to_owned(),
        release: "6.el9".to_owned(),
        arch: "x86_64".to_owned(),
    };
    assert_eq!(p.nevra(), "bash-0:5.1.8-6.el9.x86_64");
    let q = Package { epoch: 12, ..p };
    assert_eq!(q.nevra(), "bash-12:5.1.8-6.el9.x86_64");
}

#[test]
fn environment_is_empty_without_variables() {
    assert!(Environment(BTreeMap::new()).is_empty());
    let mut m = BTreeMap::new();
    m.insert("RUST_LOG".to_owned(), "debug".to_owned());
    assert!(!Environment(m).is_empty());
}

#[test]
fn fate_defaults_to_continue() {
    assert_eq!(Fate::default(), Fate::Continue);
    assert_ne!(Fate::Exit(1), Fate::Abort);
}

#[test]
fn parts_of_a_resolved_graph_are_accepted() {
    let g = Graph::from_parts(
        vec![Node::PhaseStart(Phase::End), Node::PhaseEnd(Phase::End)],
        vec![(0, 1, Edge::After)],
        0,
        vec![],
        vec![0, 1],
        0,
        1,
    );
    assert!(g.is_some());
    assert_eq!(g.unwrap().end(), (0, 1));
}

#[test]
fn parts_out_of_order_are_refused() {
    let g = Graph::from_parts(
        vec![Node::PhaseStart(Phase::End), Node::PhaseEnd(Phase::End)],
        vec![(0, 1, Edge::After)],
        0,
        vec![],
        vec![1, 0],
        0,
        1,
    );
    assert!(g.is_none());
    let unnamed = Graph::from_parts(
        vec![Node::PhaseStart(Phase::End), Node::PhaseEnd(Phase::End)],
        vec![(0, 1, Edge::After)],
        0,
        vec![(ItemKey::Path("/".to_owned()), 0)],
        vec![0, 1],
        0,
        1,
    );
    assert!(unnamed.is_none());
}
