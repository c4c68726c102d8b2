use given::dependency_resolver::{
    collect_sbt_dependencies, group_version_updates, DependencyMap, Location,
    VersionWithLocations,
};
use given::entry_map::EntryMap;
use given::model::{Artifact, Group};
use given::parser::{Dependency, WithLocation};
use given::span::{Edit, Span};
use given::version::Version;

fn record(group: &str, artifact: &str, version: &str, path: &str, start: usize, end: usize) -> Dependency {
    Dependency {
        group: Group::new(group),
        artifact: Artifact::new(artifact),
        version: WithLocation {
            value: Version::new(version),
            location: Location::new(path.to_string(), Span::new(start, end)),
        },
    }
}

#[test]
fn test_collect_dependencies_from_dir() {
    // the project directory "/Users/kit/code/archive/scala-update-2/" does
    // not exist here, so no file contributes any text
    let files: Vec<(String, String)> = Vec::new();
    let deps = collect_sbt_dependencies(&files);
    for (_, dep) in deps.iter() {
        println!("{:?}", dep);
    }
    assert_eq!(deps.iter().len(), 0);
}

#[test]
fn test_full_stack_version_update() {
    let build_sbt_path = "build.sbt".to_string();
    let versions_scala_path = "project/versions.scala".to_string();
    let build_sbt = r#"
import Versions._
libraryDependencies ++= Seq(
    "dev.zio" %% "zio" % zio,
    "io.github.kitlangton" %% "neotype" % Versions.neotype,
    "org.postgresql" % "postgresql" % "42.5.1"
)
        "#;
    let versions_scala = r#"
object Versions {
    val zio = "2.0.0"
    val neotype = "0.1.0"
}
        "#;

    let files = vec![
        (build_sbt_path.clone(), build_sbt.to_string()),
        (versions_scala_path.clone(), versions_scala.to_string()),
    ];
    let dependencies = collect_sbt_dependencies(&files);
    println!("Dependencies read: {:?}", dependencies);

    let updates: Vec<(Version, Vec<Location>)> = dependencies
        .iter()
        .iter()
        .map(|(_, dep)| (Version::new("999.999.999"), dep.locations.clone()))
        .collect();
    println!("Updates selected: {:?}", updates);

    let batches = group_version_updates(&updates);
    let mut updated_build_sbt = build_sbt.to_string();
    let mut updated_versions_scala = versions_scala.to_string();
    for (path, edits) in batches {
        if path == build_sbt_path {
            let out = Edit::apply_edits(edits, updated_build_sbt.as_bytes());
            updated_build_sbt = String::from_utf8(out).unwrap();
        } else if path == versions_scala_path {
            let out = Edit::apply_edits(edits, updated_versions_scala.as_bytes());
            updated_versions_scala = String::from_utf8(out).unwrap();
        }
    }
    println!("Updated build.sbt content: {}", updated_build_sbt);
    println!("Updated versions.scala content: {}", updated_versions_scala);

    let expected_build_sbt = r#"
import Versions._
libraryDependencies ++= Seq(
    "dev.zio" %% "zio" % zio,
    "io.github.kitlangton" %% "neotype" % Versions.neotype,
    "org.postgresql" % "postgresql" % "999.999.999"
)
        "#;
    let expected_versions_scala = r#"
object Versions {
    val zio = "999.999.999"
    val neotype = "999.999.999"
}
        "#;

    assert_eq!(updated_build_sbt.trim(), expected_build_sbt.trim());
    assert_eq!(updated_versions_scala.trim(), expected_versions_scala.trim());
}

#[test]
fn test_merge_keeps_greater_version_and_all_locations() {
    let deps = vec![
        record("dev.zio", "zio", "1.0.0", "a.scala", 10, 15),
        record("dev.zio", "zio", "2.0.0", "b.scala", 20, 25),
        record("dev.zio", "zio", "1.5.0", "c.scala", 30, 35),
    ];
    let map = DependencyMap::from_dependencies(deps);
    let entries = map.iter();
    assert_eq!(entries.len(), 1);
    let (_, merged) = &entries[0];
    assert_eq!(merged.version, Version::new("2.0.0"));
    assert_eq!(
        merged.locations,
        vec![
            Location::new("a.scala".to_string(), Span::new(10, 15)),
            Location::new("b.scala".to_string(), Span::new(20, 25)),
            Location::new("c.scala".to_string(), Span::new(30, 35)),
        ]
    );
}

#[test]
fn test_merge_order_gives_same_version_and_location_set() {
    let forward = vec![
        record("dev.zio", "zio", "1.0.0", "a.scala", 10, 15),
        record("dev.zio", "zio", "2.0.0", "b.scala", 20, 25),
    ];
    let backward = vec![
        record("dev.zio", "zio", "2.0.0", "b.scala", 20, 25),
        record("dev.zio", "zio", "1.0.0", "a.scala", 10, 15),
    ];
    let m1 = DependencyMap::from_dependencies(forward);
    let m2 = DependencyMap::from_dependencies(backward);
    let e1 = &m1.iter()[0].1;
    let e2 = &m2.iter()[0].1;
    assert_eq!(e1.version, e2.version);
    let mut l1 = e1.locations.clone();
    let mut l2 = e2.locations.clone();
    l1.sort_by(|a, b| (a.span.start, a.span.end).cmp(&(b.span.start, b.span.end)));
    l2.sort_by(|a, b| (a.span.start, a.span.end).cmp(&(b.span.start, b.span.end)));
    assert_eq!(l1, l2);
}

#[test]
fn test_version_with_locations_add() {
    let first = Location::new("a.scala".to_string(), Span::new(1, 2));
    let second = Location::new("b.scala".to_string(), Span::new(3, 4));
    let mut merged = VersionWithLocations::new(&Version::new("2.0.0"), &first);
    merged.add(&Version::new("1.0.0"), &second);
    assert_eq!(merged.version, Version::new("2.0.0"));
    assert_eq!(merged.locations.len(), 2);
}

#[test]
fn test_entry_map_selection_flow() {
    let deps = vec![
        record("dev.zio", "zio", "1.0.0", "build.sbt", 10, 15),
        record("org.postgresql", "postgresql", "42.5.1", "build.sbt", 40, 48),
    ];
    let map = DependencyMap::from_dependencies(deps);
    let mut entries = EntryMap::from_dependency_map(&map);

    let zio = (Group::new("dev.zio"), Artifact::new("zio"));
    let pg = (Group::new("org.postgresql"), Artifact::new("postgresql"));
    assert!(entries.get(&zio.0, &zio.1).is_some());
    assert!(entries.get(&pg.0, &pg.1).is_some());
    assert_eq!(entries.groups_and_artifacts().len(), 2);

    let versions_map = vec![
        ((zio.0.clone(), zio.1.clone()), vec![Version::new("2.0.0"), Version::new("1.0.1")]),
    ];
    entries.add_versions(&versions_map);

    let listed = entries.with_updates();
    assert_eq!(listed.len(), 1);
    assert_eq!(listed[0].0, zio.0);
    let options = listed[0].2.update_options.as_ref().unwrap();
    assert_eq!(options.major, Some(Version::new("2.0.0")));
    assert_eq!(options.patch, Some(Version::new("1.0.1")));

    // nothing chosen yet
    assert_eq!(entries.selected().len(), 0);

    entries.toggle_selection(&zio.0, &zio.1);
    let chosen = entries.selected();
    assert_eq!(chosen.len(), 1);
    assert_eq!(chosen[0].2, Version::new("1.0.0"));
    assert_eq!(chosen[0].3, Version::new("2.0.0"));

    // stepping the tier skips the empty minor slot
    entries.next_version_type(&zio.0, &zio.1);
    let chosen = entries.selected();
    assert_eq!(chosen[0].3, Version::new("1.0.1"));

    entries.prev_version_type(&zio.0, &zio.1);
    let chosen = entries.selected();
    assert_eq!(chosen[0].3, Version::new("2.0.0"));

    entries.toggle_selection(&zio.0, &zio.1);
    assert_eq!(entries.selected().len(), 0);

    let removed = entries.remove(&pg.0, &pg.1);
    assert!(removed.is_some());
    assert_eq!(entries.groups_and_artifacts().len(), 1);
}

#[test]
fn test_entry_map_shared_location_toggle() {
    // two artifacts whose version literal is one shared constant
    let shared = Location::new("project/versions.scala".to_string(), Span::new(5, 12));
    let deps = vec![
        record("dev.zio", "zio-json", "1.0.0", "x.scala", 0, 0),
        record("dev.zio", "zio-schema", "1.0.0", "x.scala", 0, 0),
    ];
    let mut deps = deps;
    deps[0].version.location = shared.clone();
    deps[1].version.location = shared.clone();
    let map = DependencyMap::from_dependencies(deps);
    let mut entries = EntryMap::from_dependency_map(&map);
    let json = (Group::new("dev.zio"), Artifact::new("zio-json"));
    entries.toggle_selection(&json.0, &json.1);
    // the sibling entry flips too, since both rewrite the same span
    let schema = (Group::new("dev.zio"), Artifact::new("zio-schema"));
    assert!(entries.get(&schema.0, &schema.1).unwrap().is_selected);
}

#[test]
fn test_group_version_updates_quotes_versions() {
    let updates = vec![
        (
            Version::new("2.0.0"),
            vec![
                Location::new("build.sbt".to_string(), Span::new(3, 10)),
                Location::new("other.scala".to_string(), Span::new(0, 7)),
            ],
        ),
    ];
    let batches = group_version_updates(&updates);
    assert_eq!(batches.len(), 2);
    assert_eq!(batches[0].0, "build.sbt");
    assert_eq!(batches[0].1.len(), 1);
    assert_eq!(batches[0].1[0].span, Span::new(3, 10));
    assert_eq!(batches[0].1[0].text, "\"2.0.0\"".as_bytes().to_vec());
    assert_eq!(batches[1].0, "other.scala");
}

#[test]
fn test_collect_synthesizes_language_library() {
    let files = vec![(
        "build.sbt".to_string(),
        r#"
scalaVersion := "3.4.2"
libraryDependencies += "dev.zio" %% "zio" % "2.0.0"
        "#
        .to_string(),
    )];
    let map = collect_sbt_dependencies(&files);
    let entries = map.iter();
    assert_eq!(entries.len(), 2);
    let scala = entries
        .iter()
        .find(|((g, a), _)| g.value == "org.scala-lang" && a.value == "scala3-library_3")
        .unwrap();
    assert_eq!(scala.1.version, Version::new("3.4.2"));
}
