use std::collections::HashSet;

use deploy::{DependencyAnalyzer, Score};

fn value(s: &Score) -> f64 {
    if s.part + s.rest == 0 {
        0.0
    } else {
        s.part as f64 / (s.part + s.rest) as f64
    }
}

fn analyzer_of(sources: &[&str]) -> DependencyAnalyzer {
    let mut analyzer = DependencyAnalyzer::new();
    for source in sources {
        analyzer.analyze_file(source).unwrap();
    }
    analyzer
}

#[test]
fn test_single_file_analysis() {
    let go_source = r#"
            package main
            import (
                "fmt"
                "os"
            )
            func main() {
                fmt.Println("Hello World")
                os.Exit(1)
            }
        "#;

    let mut analyzer = DependencyAnalyzer::new();
    analyzer
        .analyze_file(go_source)
        .expect("Failed to analyze temp file");

    assert_eq!(analyzer.len(), 1);

    let pkg_main = analyzer.package("main").unwrap();
    assert_eq!(pkg_main.name, "main");
    assert_eq!(pkg_main.imports.len(), 2);

    let expected_imports: HashSet<String> = ["fmt", "os"].iter().map(|s| s.to_string()).collect();
    let imports: HashSet<String> = pkg_main.imports.iter().cloned().collect();
    assert_eq!(imports, expected_imports);
}

#[test]
fn test_coupling_scores() {
    let main_code = r#"
            package main
            import "foo"
        "#;
    let foo_code = r#"
            package foo
            import "bar"
        "#;
    let bar_code = r#"
            package bar
        "#;

    let mut analyzer = analyzer_of(&[main_code, foo_code, bar_code]);
    analyzer.calculate_coupling_scores();

    let pkg_main = analyzer.package("main").unwrap();
    let pkg_foo = analyzer.package("foo").unwrap();
    let pkg_bar = analyzer.package("bar").unwrap();

    println!("Package main imports: {:?}", pkg_main.imports);
    println!("Package foo imports: {:?}", pkg_foo.imports);
    println!("Package bar imports: {:?}", pkg_bar.imports);

    assert!((value(&pkg_main.coupling_score) - 1.0).abs() < f64::EPSILON);
    assert!((value(&pkg_foo.coupling_score) - 0.5).abs() < f64::EPSILON);
    assert!((value(&pkg_bar.coupling_score) - 0.0).abs() < f64::EPSILON);

    let sorted = analyzer.get_sorted_packages();
    assert_eq!(sorted[0].name, "main");
    assert_eq!(sorted[1].name, "foo");
    assert_eq!(sorted[2].name, "bar");
}

#[test]
fn test_deployment_order() {
    let mut analyzer = analyzer_of(&["package A\nimport \"B\"", "package B\nimport \"C\"", "package C"]);
    analyzer.calculate_coupling_scores();

    let deployment_order = analyzer.generate_deployment_order();

    assert_eq!(deployment_order.len(), 3);
    assert_eq!(deployment_order[0].name, "C");
    assert_eq!(deployment_order[1].name, "B");
    assert_eq!(deployment_order[2].name, "A");
}

#[test]
fn test_complex_dependency_graph() {
    let mut analyzer = analyzer_of(&[
        "package A\nimport (\n\"B\"\n\"C\"\n)",
        "package B\nimport \"D\"",
        "package C\nimport \"D\"",
        "package D",
        "package E\nimport (\n\"A\"\n\"D\"\n)",
    ]);
    analyzer.calculate_coupling_scores();

    let deployment_order = analyzer.generate_deployment_order();

    assert_eq!(deployment_order.len(), 5);

    let d_pos = deployment_order.iter().position(|p| p.name == "D").unwrap();
    let b_pos = deployment_order.iter().position(|p| p.name == "B").unwrap();
    let c_pos = deployment_order.iter().position(|p| p.name == "C").unwrap();
    let a_pos = deployment_order.iter().position(|p| p.name == "A").unwrap();
    let e_pos = deployment_order.iter().position(|p| p.name == "E").unwrap();

    assert!(d_pos < b_pos);
    assert!(d_pos < c_pos);
    assert!(b_pos < a_pos);
    assert!(c_pos < a_pos);
    assert!(a_pos < e_pos);
}

#[test]
fn test_cyclic_dependencies() {
    let mut analyzer = analyzer_of(&["package X\nimport \"Y\"", "package Y\nimport \"X\""]);
    analyzer.calculate_coupling_scores();

    let deployment_order = analyzer.generate_deployment_order();
    assert_eq!(deployment_order.len(), 2);

    let has_x = deployment_order.iter().any(|p| p.name == "X");
    let has_y = deployment_order.iter().any(|p| p.name == "Y");
    assert!(has_x);
    assert!(has_y);
}
