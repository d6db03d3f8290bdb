use std::collections::HashSet;

use deploy::{
    facts_from_captures, Capture, DependencyAnalyzer, ExportError, Report, ReportFormat, Score,
};

fn strings(names: &[&str]) -> Vec<String> {
    names.iter().map(|s| s.to_string()).collect()
}

fn registry(entries: &[(&str, &[&str])]) -> DependencyAnalyzer {
    let mut analyzer = DependencyAnalyzer::new();
    for (name, imports) in entries {
        analyzer.ingest(name.to_string(), strings(imports));
    }
    analyzer
}

fn names_in_order(analyzer: &DependencyAnalyzer, order: &[usize]) -> Vec<String> {
    order.iter().map(|&i| analyzer.get(i).name.clone()).collect()
}

fn value(s: &Score) -> f64 {
    if s.part + s.rest == 0 {
        0.0
    } else {
        s.part as f64 / (s.part + s.rest) as f64
    }
}

#[test]
fn chain_instabilities_and_ranking() {
    let mut a = registry(&[("A", &["B"]), ("B", &["C"]), ("C", &[])]);
    a.calculate_coupling_scores();
    assert_eq!(a.package("A").unwrap().coupling_score, Score { part: 1, rest: 0 });
    assert_eq!(a.package("B").unwrap().coupling_score, Score { part: 1, rest: 1 });
    assert_eq!(a.package("C").unwrap().coupling_score, Score { part: 0, rest: 1 });
    let ranked = a.ranking();
    assert_eq!(names_in_order(&a, &ranked), strings(&["A", "B", "C"]));
}

#[test]
fn instability_stays_in_unit_range() {
    let mut a = registry(&[
        ("A", &["B", "fmt", "os"]),
        ("B", &["C"]),
        ("C", &[]),
        ("D", &[]),
        ("E", &["A", "B", "C"]),
    ]);
    a.calculate_coupling_scores();
    for i in 0..a.len() {
        let p = a.get(i);
        let v = value(&p.coupling_score);
        assert!((0.0..=1.0).contains(&v));
        assert_eq!(v == 0.0, p.imports.is_empty());
    }
    // no coupling at all: zero
    assert_eq!(a.package("D").unwrap().coupling_score, Score { part: 0, rest: 0 });
    // external imports count toward efferent coupling only
    assert_eq!(a.package("A").unwrap().coupling_score, Score { part: 3, rest: 1 });
    assert_eq!(a.importer_count(&"C".to_string()), 2);
    assert_eq!(a.importer_count(&"fmt".to_string()), 1);
}

#[test]
fn coupling_twice_gives_same_values() {
    let mut a = registry(&[("X", &["Y", "Z"]), ("Y", &["Z"]), ("Z", &["X"])]);
    a.calculate_coupling_scores();
    let first: Vec<Score> = (0..a.len()).map(|i| a.get(i).coupling_score).collect();
    a.calculate_coupling_scores();
    let second: Vec<Score> = (0..a.len()).map(|i| a.get(i).coupling_score).collect();
    assert_eq!(first, second);
}

#[test]
fn deployment_plan_of_diamond() {
    let a = registry(&[
        ("A", &["B", "C"]),
        ("B", &["D"]),
        ("C", &["D"]),
        ("D", &[]),
        ("E", &["A", "D"]),
    ]);
    let plan = a.deployment_plan();
    assert!(!plan.cycle_detected());
    assert_eq!(plan.resolved, 5);
    // Kahn's queue: D seeds it, then B and C, then A, then E
    assert_eq!(names_in_order(&a, &plan.order), strings(&["D", "B", "C", "A", "E"]));
}

#[test]
fn two_node_cycle_is_signalled() {
    let a = registry(&[("X", &["Y"]), ("Y", &["X"])]);
    let plan = a.deployment_plan();
    assert!(plan.cycle_detected());
    assert_eq!(plan.resolved, 0);
    assert_eq!(plan.order, vec![0, 1]);
}

#[test]
fn cycle_remainder_follows_resolved_packages() {
    let a = registry(&[("P", &["Q"]), ("Q", &["P"]), ("R", &["S"]), ("S", &[]), ("T", &["P"])]);
    let plan = a.deployment_plan();
    assert!(plan.cycle_detected());
    assert_eq!(names_in_order(&a, &plan.order), strings(&["S", "R", "P", "Q", "T"]));
    assert_eq!(plan.resolved, 2);
    assert_eq!(a.generate_deployment_order().len(), 5);
}

#[test]
fn self_import_blocks_only_itself() {
    let a = registry(&[("S", &["S"]), ("T", &[]), ("U", &["T"]), ("V", &["S"])]);
    let plan = a.deployment_plan();
    assert_eq!(names_in_order(&a, &plan.order), strings(&["T", "U", "S", "V"]));
    assert_eq!(plan.resolved, 2);
    assert!(plan.cycle_detected());
}

#[test]
fn self_import_counts_toward_own_afferent_coupling() {
    let mut a = registry(&[("S", &["S"])]);
    a.calculate_coupling_scores();
    assert_eq!(a.get(0).coupling_score, Score { part: 1, rest: 1 });
}

#[test]
fn ingest_drops_empty_names_and_replaces_in_place() {
    let mut a = DependencyAnalyzer::new();
    a.ingest(String::new(), strings(&["x"]));
    assert_eq!(a.len(), 0);
    a.ingest("A".to_string(), strings(&["x", "y", "x"]));
    a.ingest("B".to_string(), strings(&[]));
    assert_eq!(a.get(0).imports, strings(&["x", "y"]));
    a.calculate_coupling_scores();
    a.ingest("A".to_string(), strings(&["B"]));
    assert_eq!(a.len(), 2);
    assert_eq!(a.get(0).name, "A");
    assert_eq!(a.get(0).imports, strings(&["B"]));
    assert_eq!(a.get(0).coupling_score, Score::zero());
    assert!(a.package("C").is_none());
}

#[test]
fn unsupported_format_is_an_error() {
    let mut a = registry(&[("A", &["B"]), ("B", &[])]);
    a.calculate_coupling_scores();
    assert!(matches!(a.export_analysis("xml", false), Err(ExportError::UnsupportedFormat)));
    assert!(matches!(a.export_analysis("JSON", true), Err(ExportError::UnsupportedFormat)));
    assert!(matches!(ReportFormat::parse("json"), Ok(ReportFormat::Json)));
    assert!(matches!(ReportFormat::parse("text"), Ok(ReportFormat::Text)));
    assert!(matches!(ReportFormat::parse(""), Err(ExportError::UnsupportedFormat)));
}

#[test]
fn text_report_plain_and_detailed() {
    let mut a = registry(&[("main", &["foo", "fmt"]), ("foo", &[])]);
    a.calculate_coupling_scores();
    match a.export_analysis("text", false) {
        Ok(Report::Text(t)) => {
            assert_eq!(t, "Package: main\nCoupling Score: 1.00\n\nPackage: foo\nCoupling Score: 0.00\n\n")
        }
        _ => panic!("expected a text report"),
    }
    match a.export_analysis("text", true) {
        Ok(Report::Text(t)) => assert_eq!(
            t,
            "Package: main\nCoupling Score: 1.00\nAfferent Coupling: 0\nEfferent Coupling: 2\nImports:\n  - foo\n  - fmt\n\n\
             Package: foo\nCoupling Score: 0.00\nAfferent Coupling: 1\nEfferent Coupling: 0\nImports:\n\n"
        ),
        _ => panic!("expected a text report"),
    }
}

#[test]
fn structured_report_matches_registry() {
    let mut a = registry(&[("A", &["B", "C"]), ("B", &["C"]), ("C", &[]), ("D", &["A", "ext"])]);
    a.calculate_coupling_scores();
    let recs = match a.export_analysis("json", true) {
        Ok(Report::Json(recs)) => recs,
        _ => panic!("expected records"),
    };
    assert_eq!(recs.len(), a.len());
    let names: Vec<&str> = recs.iter().map(|r| r.name.as_str()).collect();
    assert_eq!(names, vec!["D", "A", "B", "C"]);
    for rec in &recs {
        let p = a.package(&rec.name).unwrap();
        assert_eq!(rec.coupling_score, p.coupling_score);
        assert_eq!(rec.metrics.instability, p.coupling_score);
        assert_eq!(rec.metrics.efferent_coupling, p.imports.len());
        assert_eq!(rec.metrics.abstractness, Score::zero());
        assert_eq!(rec.metrics.distance, Score::zero());
        let got: HashSet<&String> = rec.imports.iter().collect();
        let want: HashSet<&String> = p.imports.iter().collect();
        assert_eq!(got, want);
    }
    assert_eq!(recs[3].metrics.afferent_coupling, 2);
}

#[test]
fn structured_report_survives_json_round_trip() {
    let mut a = registry(&[("A", &["B"]), ("B", &["C"]), ("C", &[])]);
    a.calculate_coupling_scores();
    let recs = match a.export_analysis("json", false) {
        Ok(Report::Json(recs)) => recs,
        _ => panic!("expected records"),
    };
    let mut items = Vec::new();
    for rec in &recs {
        let mut obj = serde_json::Map::new();
        obj.insert("name".to_string(), serde_json::Value::from(rec.name.clone()));
        obj.insert("coupling_score".to_string(), serde_json::Value::from(value(&rec.coupling_score)));
        obj.insert("imports".to_string(), serde_json::Value::from(rec.imports.clone()));
        items.push(serde_json::Value::Object(obj));
    }
    let text = serde_json::to_string_pretty(&serde_json::Value::Array(items)).unwrap();
    let back: serde_json::Value = serde_json::from_str(&text).unwrap();
    let back = back.as_array().unwrap();
    assert_eq!(back.len(), a.len());
    for item in back {
        let name = item["name"].as_str().unwrap();
        let p = a.package(name).unwrap();
        assert!((item["coupling_score"].as_f64().unwrap() - value(&p.coupling_score)).abs() < 1e-12);
        let imports: HashSet<String> = item["imports"]
            .as_array()
            .unwrap()
            .iter()
            .map(|v| v.as_str().unwrap().to_string())
            .collect();
        let want: HashSet<String> = p.imports.iter().cloned().collect();
        assert_eq!(imports, want);
    }
}

#[test]
fn score_text_rounds_half_to_even() {
    assert_eq!(Score { part: 1, rest: 2 }.to_text(), "0.33");
    assert_eq!(Score { part: 2, rest: 1 }.to_text(), "0.67");
    assert_eq!(Score { part: 1, rest: 7 }.to_text(), "0.12");
    assert_eq!(Score { part: 3, rest: 5 }.to_text(), "0.38");
    assert_eq!(Score { part: 1, rest: 0 }.to_text(), "1.00");
    assert_eq!(Score { part: 0, rest: 0 }.to_text(), "0.00");
    assert_eq!(Score { part: 1, rest: 19 }.to_text(), "0.05");
    assert_eq!(Score { part: 7, rest: 3 }.hundredths(), 70);
}

#[test]
fn score_comparison_by_value() {
    assert!(Score { part: 1, rest: 1 }.at_most(&Score { part: 2, rest: 2 }));
    assert!(Score { part: 2, rest: 2 }.at_most(&Score { part: 1, rest: 1 }));
    assert!(Score { part: 0, rest: 0 }.at_most(&Score { part: 0, rest: 5 }));
    assert!(!Score { part: 1, rest: 0 }.at_most(&Score { part: 0, rest: 0 }));
    assert!(Score { part: 1, rest: 3 }.at_most(&Score { part: 1, rest: 2 }));
}

#[test]
fn ties_keep_registry_order() {
    let mut a = registry(&[("P", &[]), ("Q", &["P"]), ("R", &[]), ("S", &["R"])]);
    a.calculate_coupling_scores();
    let sorted: Vec<String> = a.get_sorted_packages().iter().map(|p| p.name.clone()).collect();
    assert_eq!(sorted, strings(&["Q", "S", "P", "R"]));
}

#[test]
fn captures_give_package_and_unquoted_imports() {
    let caps = vec![
        Capture { name: "package".to_string(), text: "main".to_string() },
        Capture { name: "import".to_string(), text: "\"fmt\"".to_string() },
        Capture { name: "other".to_string(), text: "\"x\"".to_string() },
        Capture { name: "import".to_string(), text: "\"net/http\"".to_string() },
    ];
    let (name, imports) = facts_from_captures(&caps);
    assert_eq!(name, "main");
    assert_eq!(imports, strings(&["fmt", "net/http"]));
    let (none, empty) = facts_from_captures(&Vec::new());
    assert_eq!(none, "");
    assert!(empty.is_empty());
}

#[test]
fn file_without_package_clause_changes_nothing() {
    let mut a = DependencyAnalyzer::new();
    assert!(a.analyze_file("import \"fmt\"\n").is_ok());
    assert_eq!(a.len(), 0);
    a.analyze_file("package web\n\nimport (\n\t\"net/http\"\n\t\"fmt\"\n)\n").unwrap();
    assert_eq!(a.len(), 1);
    assert_eq!(a.get(0).name, "web");
    let imports: HashSet<String> = a.get(0).imports.iter().cloned().collect();
    let want: HashSet<String> = ["net/http", "fmt"].iter().map(|s| s.to_string()).collect();
    assert_eq!(imports, want);
}
