//! The ranked report: one record per package, as data or as text.
use vstd::prelude::*;

use crate::analyzer::texts;
use crate::score::{decimal, decimal_text, Score};

verus! {

/// Coupling metrics of one package. Abstractness and distance from the main
/// sequence are not computed and stay zero.
pub struct DetailedMetrics {
    pub afferent_coupling: usize,
    pub efferent_coupling: usize,
    pub instability: Score,
    pub abstractness: Score,
    pub distance: Score,
}

/// The report's record of one package.
pub struct PackageAnalysis {
    pub name: String,
    pub coupling_score: Score,
    pub imports: Vec<String>,
    pub metrics: DetailedMetrics,
}

/// The output formats of the report.
#[derive(Clone, Copy, Debug, PartialEq, Eq, Structural)]
pub enum ReportFormat {
    Json,
    Text,
}

/// Why the report could not be produced.
#[derive(Clone, Copy, Debug, PartialEq, Eq, Structural)]
pub enum ExportError {
    /// The format is neither `json` nor `text`.
    UnsupportedFormat,
}

/// A rendered report: the records, for a structured encoding, or the text.
pub enum Report {
    Json(Vec<PackageAnalysis>),
    Text(String),
}

impl ReportFormat {
    /// Reads a format name: `json` or `text`; anything else is refused.
    pub fn parse(format: &str) -> (r: Result<ReportFormat, ExportError>)
        ensures
            format@ == "json"@ ==> r == Ok::<ReportFormat, ExportError>(ReportFormat::Json),
            format@ == "text"@ ==> r == Ok::<ReportFormat, ExportError>(ReportFormat::Text),
            format@ != "json"@ && format@ != "text"@ ==> r == Err::<ReportFormat, ExportError>(ExportError::UnsupportedFormat),
    {
        let f = String::from_str(format);
        let json = String::from_str("json");
        let text = String::from_str("text");
        proof {
            reveal_strlit("json");
            reveal_strlit("text");
            assert("json"@[0] != "text"@[0]);
        }
        if f == json {
            Ok(ReportFormat::Json)
        } else if f == text {
            Ok(ReportFormat::Text)
        } else {
            Err(ExportError::UnsupportedFormat)
        }
    }
}

/// The import list of a detailed record, one `  - name` line each.
pub open spec fn import_lines(imps: Seq<Seq<char>>) -> Seq<char>
    decreases imps.len(),
{
    if imps.len() == 0 {
        Seq::empty()
    } else {
        import_lines(imps.drop_last()) + "  - "@ + imps.last() + "\n"@
    }
}

/// The text block of one record, followed by a blank line.
pub open spec fn record_text(rec: PackageAnalysis, detailed: bool) -> Seq<char> {
    "Package: "@ + rec.name@ + "\n"@ + "Coupling Score: "@ + rec.coupling_score.spec_text() + "\n"@ + (if detailed {
        "Afferent Coupling: "@ + decimal(rec.metrics.afferent_coupling as nat) + "\n"@ + "Efferent Coupling: "@
            + decimal(rec.metrics.efferent_coupling as nat) + "\n"@ + "Imports:\n"@ + import_lines(texts(rec.imports@))
    } else {
        Seq::empty()
    }) + "\n"@
}

/// The text report: the records' blocks in order.
pub open spec fn text_report(recs: Seq<PackageAnalysis>, detailed: bool) -> Seq<char>
    decreases recs.len(),
{
    if recs.len() == 0 {
        Seq::empty()
    } else {
        text_report(recs.drop_last(), detailed) + record_text(recs.last(), detailed)
    }
}

/// Renders one record as text.
fn render_record(rec: &PackageAnalysis, detailed: bool) -> (r: String)
    ensures
        r@ == record_text(*rec, detailed),
{
    let mut out = String::new();
    out.append("Package: ");
    out.append(rec.name.as_str());
    out.append("\n");
    out.append("Coupling Score: ");
    let score = rec.coupling_score.to_text();
    out.append(score.as_str());
    out.append("\n");
    let ghost head = out@;
    if detailed {
        out.append("Afferent Coupling: ");
        let a = decimal_text(rec.metrics.afferent_coupling);
        out.append(a.as_str());
        out.append("\n");
        out.append("Efferent Coupling: ");
        let e = decimal_text(rec.metrics.efferent_coupling);
        out.append(e.as_str());
        out.append("\n");
        out.append("Imports:\n");
        let ghost mid = out@;
        let ghost imps = texts(rec.imports@);
        for k in 0..rec.imports.len()
            invariant
                imps == texts(rec.imports@),
                out@ == mid + import_lines(imps.take(k as int)),
        {
            proof {
                assert(imps.take(k + 1).drop_last() =~= imps.take(k as int));
                assert(imps.take(k + 1).last() == rec.imports@[k as int]@);
            }
            out.append("  - ");
            out.append(rec.imports[k].as_str());
            out.append("\n");
            proof {
                assert(out@ =~= mid + import_lines(imps.take(k + 1)));
            }
        }
        proof {
            assert(imps.take(imps.len() as int) =~= imps);
        }
    }
    out.append("\n");
    proof {
        assert(out@ =~= record_text(*rec, detailed));
    }
    out
}

/// Renders the records as text, one block each.
pub fn render_text(recs: &Vec<PackageAnalysis>, detailed: bool) -> (r: String)
    ensures
        r@ == text_report(recs@, detailed),
{
    let mut out = String::new();
    for k in 0..recs.len()
        invariant
            out@ == text_report(recs@.take(k as int), detailed),
    {
        proof {
            assert(recs@.take(k + 1).drop_last() =~= recs@.take(k as int));
            assert(recs@.take(k + 1).last() == recs@[k as int]);
        }
        let block = render_record(&recs[k], detailed);
        out.append(block.as_str());
    }
    proof {
        assert(recs@.take(recs@.len() as int) =~= recs@);
    }
    out
}

} // verus!
