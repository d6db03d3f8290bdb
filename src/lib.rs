//! Dependency-graph analysis of Go packages: coupling metrics, an instability
//! ranking and a dependency-first deployment order.
//!
//! `DependencyAnalyzer` holds the registry of packages. Each analyzed source
//! file records its package and imports; `calculate_coupling_scores` computes
//! every package's instability Ce / (Ca + Ce) as an exact `Score`;
//! `get_sorted_packages` ranks packages by it; `generate_deployment_order`
//! orders them dependencies first by Kahn's algorithm, keeping every package
//! when cycles occur; `export_analysis` renders the ranked report.
pub mod analyzer;
pub mod extract;
pub mod graph;
pub mod rank;
pub mod report;
pub mod score;

pub use analyzer::{AnalyzeError, DependencyAnalyzer, DeploymentPlan, Package};
pub use extract::{facts_from_captures, Capture, GO_IMPORTS_QUERY};
pub use report::{DetailedMetrics, ExportError, PackageAnalysis, Report, ReportFormat};
pub use score::Score;
