use given::dependency_resolver::Location;
use given::model::{Artifact, Group};
use given::parser::{
    extract_vals, find_scala_version, get_scala_version_from_build_sbt, parse_dependencies,
    Dependency, DependencyParser, WithLocation,
};
use given::span::Span;
use given::tree::parse_tree;
use given::version::Version;

#[test]
fn test_scala_parser() {
    let code = r#"
        val animusVersion = "0.4.0"
        object Versions {
            val neotype = "0.1.0"
        }

        libraryDependencies ++= Seq(
          "io.github.kitlangton" %% "neotype" % Versions.neotype,
          "dev.zio" %% "zio" % "2.0.0",
          "org.postgresql" % "postgresql" % "42.5.1",
          "io.github.kitlangton" % "animus" % animusVersion
        )

        val example = "example" %% "example" % "0.0.1"

        val falseExample = "hello" + "oops" + "0.0.1"

        libraryDependencies += "dev.zio" %% "zio-test" % "2.0.0" % Test
        "#;

    let source = "example.scala";
    let mut parser = DependencyParser::new();
    parser.parse_val_defs(source, code);
    parser.parse_dependencies(source, code);
    println!("{:?}", parser.dependencies);

    let expected_dependencies = vec![
        Dependency {
            group: Group::new("io.github.kitlangton"),
            artifact: Artifact::new("neotype"),
            version: WithLocation {
                value: Version::new("0.1.0"),
                location: Location::new(source.to_string(), Span::new(89, 96)),
            },
        },
        Dependency {
            group: Group::new("dev.zio"),
            artifact: Artifact::new("zio"),
            version: WithLocation {
                value: Version::new("2.0.0"),
                location: Location::new(source.to_string(), Span::new(242, 249)),
            },
        },
        Dependency {
            group: Group::new("org.postgresql"),
            artifact: Artifact::new("postgresql"),
            version: WithLocation {
                value: Version::new("42.5.1"),
                location: Location::new(source.to_string(), Span::new(295, 303)),
            },
        },
        Dependency {
            group: Group::new("io.github.kitlangton"),
            artifact: Artifact::new("animus"),
            version: WithLocation {
                value: Version::new("0.4.0"),
                location: Location::new(source.to_string(), Span::new(29, 36)),
            },
        },
        Dependency {
            group: Group::new("example"),
            artifact: Artifact::new("example"),
            version: WithLocation {
                value: Version::new("0.0.1"),
                location: Location::new(source.to_string(), Span::new(423, 430)),
            },
        },
        Dependency {
            group: Group::new("dev.zio"),
            artifact: Artifact::new("zio-test"),
            version: WithLocation {
                value: Version::new("2.0.0"),
                location: Location::new(source.to_string(), Span::new(544, 551)),
            },
        },
    ];
    assert_eq!(parser.dependencies, expected_dependencies);
}

#[test]
fn test_extract_vals() {
    let code = r#"
            object Outer {
                val example = "Hello"
                val falseExample = 123
                object Inner {
                    val anotherExample = "World"
                    val yetAnotherExample = 456
                }
                val complexExample = "Hello" + "World"
            }
            "#;

    let source = "example.scala";
    let tree = parse_tree(code);
    let val_defs = extract_vals(source, &tree, code);

    let expected = vec![
        ("example", "Hello", Span::new(58, 65)),
        ("falseExample", "123", Span::new(101, 104)),
        ("anotherExample", "World", Span::new(177, 184)),
        ("yetAnotherExample", "456", Span::new(229, 232)),
        ("complexExample", "Hello\" + \"World", Span::new(288, 305)),
    ];

    assert_eq!(val_defs.iter().len(), expected.len());
    for (name, value, span) in expected {
        let found = val_defs.get(name).unwrap();
        assert_eq!(found.value, value);
        assert_eq!(found.location, Location::new(source.to_string(), span));
    }
}

#[test]
fn test_scala_version_extraction() {
    let code = r#"
        scalaVersion := "2.13.6"
    "#;

    let source = "example.scala";
    let tree = parse_tree(code);
    let val_defs = extract_vals(source, &tree, code);
    let scala_version = find_scala_version(source, code, &val_defs);

    let found = scala_version.unwrap();
    assert_eq!(found.value, Version::new("2.13.6"));
    assert_eq!(found.location, Location::new(source.to_string(), Span::new(25, 33)));
}

#[test]
fn test_scala_version_in_common_settings() {
    let code = r#"
    commonSettings := Seq(
        scalaVersion := "2.12.8",
        organization := "com.example"
    )
    "#;

    let source = "example.scala";
    let tree = parse_tree(code);
    let val_defs = extract_vals(source, &tree, code);
    let scala_version = find_scala_version(source, code, &val_defs);

    let found = scala_version.unwrap();
    assert_eq!(found.value, Version::new("2.12.8"));
    assert_eq!(found.location, Location::new(source.to_string(), Span::new(52, 60)));
}

#[test]
fn test_scala_version_rhs_extraction_to_variable() {
    let code = r#"
        val scala3 = "3.4.2"
        scalaVersion := scala3
    "#;

    let source = "example.scala";
    let scala_version = get_scala_version_from_build_sbt(source, code);

    assert_eq!(
        scala_version,
        Some(Dependency {
            group: Group::new("org.scala-lang"),
            artifact: Artifact::new("scala3-library_3"),
            version: WithLocation {
                value: Version::new("3.4.2"),
                location: Location::new(source.to_string(), Span::new(22, 29)),
            },
        })
    );
}

#[test]
fn test_lazy_vals() {
    let code = r#"
        lazy val scala2 = "2.13.6"
        scalaVersion := scala2
    "#;

    let source = "example.scala";
    let tree = parse_tree(code);
    let val_defs = extract_vals(source, &tree, code);

    for (name, value) in val_defs.iter() {
        println!("Name: {}", name);
        println!("Value: {}", value.value);
        println!("Position: {:?}", value.location.span);
    }

    // the laziness qualifier is skipped when the bound name is read
    let found = val_defs.get("scala2").unwrap();
    assert_eq!(found.value, "2.13.6");
}

#[test]
fn test_extract_dependencies() {
    let code = r#"
        libraryDependencies += "dev.zio" %% "zio" % "1.0.0"
        libraryDependencies ++= Seq(
            "dev.zio" %% "zio-json" % "1.5.0",
            "dev.zio" %% "zio-test" % "2.0.0" % Test
        )
        libraryDependencies += "com.typesafe.akka" %% "akka-actor" % "2.6.14"
        libraryDependencies ++= Seq(
            "org.scalatest" %% "scalatest" % "3.2.9" % Test,
            "com.lihaoyi" %%% "upickle" % "1.4.0"A % "provided",
        )
        libraryDependencies += "org.typelevel" %% "cats-core" % "2.6.1"
        libraryDependencies ++= Seq(
            "org.http4s" %% "http4s-dsl" % "0.21.23",
            "org.http4s" % "http4s-blaze-server" % "0.21.23",
            "org.http4s" %% "http4s-circe" % "0.21.23"
        )
        "#;

    let source = "example.scala";
    let tree = parse_tree(code);
    let val_defs = extract_vals(source, &tree, code);
    let dependencies = parse_dependencies(source, code, &tree, &val_defs);
    for dependency in dependencies {
        println!(
            "Group: {}, Artifact: {}, Version: {}",
            dependency.group.value,
            dependency.artifact.value,
            dependency.version.value.display_string()
        );
    }
}

#[test]
fn test_unresolved_reference_dropped() {
    let code = r#"
        libraryDependencies += "dev.zio" %% "zio" % someUndefinedVersion
        "#;

    let source = "example.scala";
    let mut parser = DependencyParser::new();
    parser.parse_val_defs(source, code);
    parser.parse_dependencies(source, code);

    assert_eq!(parser.dependencies, Vec::new());
}

#[test]
fn test_scala_version_two_selects_plain_library() {
    let code = r#"
        scalaVersion := "2.13.6"
    "#;

    let source = "build.sbt";
    let dep = get_scala_version_from_build_sbt(source, code).unwrap();
    assert_eq!(dep.group, Group::new("org.scala-lang"));
    assert_eq!(dep.artifact, Artifact::new("scala-library"));
    assert_eq!(dep.version.value, Version::new("2.13.6"));
}

#[test]
fn test_scala_version_unresolved_identifier() {
    let code = r#"
        scalaVersion := someUndefinedName
    "#;

    let source = "build.sbt";
    let tree = parse_tree(code);
    let val_defs = extract_vals(source, &tree, code);
    assert!(find_scala_version(source, code, &val_defs).is_none());
    assert!(get_scala_version_from_build_sbt(source, code).is_none());
}

#[test]
fn test_scala_version_member_access() {
    let code = r#"
        object Versions {
            val scala3 = "3.4.2"
        }
        scalaVersion := Versions.scala3
    "#;

    let source = "build.sbt";
    let tree = parse_tree(code);
    let val_defs = extract_vals(source, &tree, code);
    let found = find_scala_version(source, code, &val_defs).unwrap();
    assert_eq!(found.value, Version::new("3.4.2"));
    // the recorded place is the definition's literal, quotes included
    let span = found.location.span;
    assert_eq!(&code.as_bytes()[span.start..span.end], "\"3.4.2\"".as_bytes());

    let dep = get_scala_version_from_build_sbt(source, code).unwrap();
    assert_eq!(dep.group, Group::new("org.scala-lang"));
    assert_eq!(dep.artifact, Artifact::new("scala3-library_3"));
    assert_eq!(dep.version.value, Version::new("3.4.2"));
}
