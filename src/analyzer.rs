//! The package registry: building it, coupling metrics, ranking and
//! deployment order.
use vstd::prelude::*;

use crate::graph::{
    deployment_ok, graph_ok, is_permutation, lemma_permutation_bound, lemma_push_contains, linearize, placed_before,
    waits_on_outside,
};
use crate::extract::{
    capture_views, declared_package, facts_from_captures, go_captures, go_query_captures, imported,
    Capture,
};
use crate::rank::{rank, ranked};
use crate::report::{
    render_text, text_report, DetailedMetrics, ExportError, PackageAnalysis, Report, ReportFormat,
};
use crate::score::Score;

verus! {

/// A package: its name, the names it imports (no repeats) and its instability.
pub struct Package {
    pub name: String,
    pub imports: Vec<String>,
    pub coupling_score: Score,
}

/// The imported names of `p`.
pub open spec fn import_names(p: Package) -> Seq<Seq<char>> {
    p.imports@.map_values(|s: String| s@)
}

/// The text of each string.
pub open spec fn texts(v: Seq<String>) -> Seq<Seq<char>> {
    v.map_values(|s: String| s@)
}

/// The package names of a registry, in registry order.
pub open spec fn names(pk: Seq<Package>) -> Seq<Seq<char>> {
    pk.map_values(|p: Package| p.name@)
}

/// A well-formed registry: names are non-empty and distinct, and no package
/// lists an import twice.
pub open spec fn registry_ok(pk: Seq<Package>) -> bool {
    &&& forall|i: int| 0 <= i < pk.len() ==> (#[trigger] pk[i]).name@.len() > 0
    &&& names(pk).no_duplicates()
    &&& forall|i: int| 0 <= i < pk.len() ==> import_names(#[trigger] pk[i]).no_duplicates()
}

/// Afferent coupling: how many packages of `pk` import the name `n`.
pub open spec fn importers(pk: Seq<Package>, n: Seq<char>) -> nat
    decreases pk.len(),
{
    if pk.len() == 0 {
        0
    } else {
        importers(pk.drop_last(), n) + if import_names(pk.last()).contains(n) {
            1nat
        } else {
            0nat
        }
    }
}

/// The instability of package `i`: its efferent coupling (all of its imports)
/// over that plus its afferent coupling.
pub open spec fn coupling_of(pk: Seq<Package>, i: int) -> Score {
    Score { part: pk[i].imports.len(), rest: importers(pk, pk[i].name@) as usize }
}

/// `after` is `before` with every package's instability computed.
pub open spec fn scored(before: Seq<Package>, after: Seq<Package>) -> bool {
    &&& after.len() == before.len()
    &&& forall|i: int|
        0 <= i < after.len() ==> {
            &&& (#[trigger] after[i]).name == before[i].name
            &&& after[i].imports == before[i].imports
            &&& after[i].coupling_score == coupling_of(before, i)
        }
}

/// Package `i` imports the registered package `j`, which must be deployed first.
pub open spec fn depends_on(pk: Seq<Package>, i: int, j: int) -> bool {
    import_names(pk[i]).contains(pk[j].name@)
}

/// Package `i` imports a registered package that `placed` does not hold.
pub open spec fn held_up(pk: Seq<Package>, placed: Seq<usize>, i: usize) -> bool {
    exists|j: int| 0 <= j < pk.len() && #[trigger] depends_on(pk, i as int, j) && !placed.contains(j as usize)
}

/// `order` is a deployment order of the registry: each package once; in the
/// first `resolved` entries every package follows the registered packages it
/// imports; each later package (held up by a cycle) imports a registered
/// package outside that prefix, and these come in registry order.
pub open spec fn deployment_order_ok(pk: Seq<Package>, order: Seq<usize>, resolved: int) -> bool {
    &&& is_permutation(order, pk.len())
    &&& 0 <= resolved <= order.len()
    &&& forall|k: int, j: int|
        0 <= k < resolved && 0 <= j < pk.len() && #[trigger] depends_on(pk, order[k] as int, j)
            ==> placed_before(order, j as usize, k)
    &&& forall|k: int| resolved <= k < order.len() ==> held_up(pk, order.take(resolved), #[trigger] order[k])
    &&& forall|a: int, b: int| resolved <= a < b < order.len() ==> order[a] < order[b]
}

/// The instabilities of a registry, in registry order.
pub open spec fn scores(pk: Seq<Package>) -> Seq<Score> {
    pk.map_values(|p: Package| p.coupling_score)
}

/// A deployment order: positions in the registry, and how many of them lead
/// in dependency order before the packages that a cycle holds up.
pub struct DeploymentPlan {
    pub order: Vec<usize>,
    pub resolved: usize,
}

impl DeploymentPlan {
    /// Whether a cycle held some packages up.
    pub fn cycle_detected(&self) -> (r: bool)
        ensures
            r == (self.resolved < self.order@.len()),
    {
        self.resolved < self.order.len()
    }
}

/// `after` is `before` once a file declaring package `name` with these
/// imports is recorded: an empty name changes nothing; a registered name has
/// its entry replaced in place; a new name is appended. The entry holds the
/// imports as a set, and its instability restarts at zero.
pub open spec fn ingested(before: Seq<Package>, after: Seq<Package>, name: Seq<char>, imports: Seq<Seq<char>>) -> bool {
    &&& name.len() == 0 ==> after == before
    &&& name.len() > 0 ==> names(after) == if names(before).contains(name) {
        names(before)
    } else {
        names(before).push(name)
    }
    &&& name.len() > 0 ==> forall|i: int|
        0 <= i < after.len() ==> if (#[trigger] after[i]).name@ == name {
            &&& import_names(after[i]).to_set() == imports.to_set()
            &&& after[i].coupling_score == Score::zero_spec()
        } else {
            after[i] == before[i]
        }
}

/// `rec` is the report's record of package `i`.
pub open spec fn describes(pk: Seq<Package>, i: int, rec: PackageAnalysis) -> bool {
    &&& rec.name@ == pk[i].name@
    &&& rec.coupling_score == pk[i].coupling_score
    &&& texts(rec.imports@) == import_names(pk[i])
    &&& rec.metrics.afferent_coupling == importers(pk, pk[i].name@)
    &&& rec.metrics.efferent_coupling == pk[i].imports@.len()
    &&& rec.metrics.instability == pk[i].coupling_score
    &&& rec.metrics.abstractness == Score::zero_spec()
    &&& rec.metrics.distance == Score::zero_spec()
}

/// `recs` is the ranked report of the registry: one record per package, in
/// the order of `ranked`.
pub open spec fn report_records(pk: Seq<Package>, recs: Seq<PackageAnalysis>) -> bool {
    exists|order: Seq<usize>|
        {
            &&& ranked(scores(pk), order)
            &&& recs.len() == order.len()
            &&& forall|k: int| 0 <= k < order.len() ==> describes(pk, order[k] as int, #[trigger] recs[k])
        }
}

/// Why a source file could not be analyzed.
#[derive(Clone, Copy, Debug, PartialEq, Eq, Structural)]
pub enum AnalyzeError {
    /// The Go source could not be parsed or queried.
    Parse,
}

/// A copy of the strings.
pub fn copy_texts(v: &Vec<String>) -> (r: Vec<String>)
    ensures
        r@ == v@,
{
    let mut r: Vec<String> = Vec::new();
    for k in 0..v.len()
        invariant
            r@ == v@.take(k as int),
    {
        r.push(v[k].clone());
        proof {
            assert(r@ =~= v@.take(k + 1));
        }
    }
    proof {
        assert(v@.take(v@.len() as int) =~= v@);
    }
    r
}

/// Whether `v` holds a string with the text of `s`.
pub fn holds_text(v: &Vec<String>, s: &String) -> (r: bool)
    ensures
        r == texts(v@).contains(s@),
{
    for k in 0..v.len()
        invariant
            forall|m: int| 0 <= m < k ==> v@[m]@ != s@,
    {
        if v[k] == *s {
            assert(texts(v@)[k as int] == s@);
            return true;
        }
    }
    proof {
        if texts(v@).contains(s@) {
            let m = choose|m: int| 0 <= m < texts(v@).len() && texts(v@)[m] == s@;
            assert(v@[m]@ == s@);
        }
    }
    false
}

/// Analyzes dependencies between Go packages and computes coupling metrics.
pub struct DependencyAnalyzer {
    packages: Vec<Package>,
}

impl DependencyAnalyzer {
    /// The registry, in registry order.
    pub closed spec fn packages(&self) -> Seq<Package> {
        self.packages@
    }

    /// The registry is well formed.
    pub open spec fn wf(&self) -> bool {
        registry_ok(self.packages())
    }

    /// An empty registry.
    pub fn new() -> (r: Self)
        ensures
            r.wf(),
            r.packages().len() == 0,
    {
        DependencyAnalyzer { packages: Vec::new() }
    }

    /// The number of registered packages.
    pub fn len(&self) -> (r: usize)
        ensures
            r == self.packages().len(),
    {
        self.packages.len()
    }

    /// The package at position `i` of the registry.
    pub fn get(&self, i: usize) -> (r: &Package)
        requires
            i < self.packages().len(),
        ensures
            *r == self.packages()[i as int],
    {
        &self.packages[i]
    }

    /// The position of the package named `name`, if it is registered.
    pub fn find(&self, name: &String) -> (r: Option<usize>)
        ensures
            r is None ==> !names(self.packages()).contains(name@),
            r matches Some(i) ==> i < self.packages().len() && self.packages()[i as int].name@ == name@,
    {
        for i in 0..self.packages.len()
            invariant
                forall|m: int| 0 <= m < i ==> self.packages@[m].name@ != name@,
        {
            if self.packages[i].name == *name {
                return Some(i);
            }
        }
        proof {
            if names(self.packages()).contains(name@) {
                let m = choose|m: int| 0 <= m < self.packages@.len() && names(self.packages@)[m] == name@;
                assert(self.packages@[m].name@ == name@);
            }
        }
        None
    }

    /// The package named `name`, if it is registered.
    pub fn package(&self, name: &str) -> (r: Option<&Package>)
        ensures
            r is None ==> !names(self.packages()).contains(name@),
            r matches Some(p) ==> p.name@ == name@ && self.packages().contains(*p),
    {
        let key = String::from_str(name);
        match self.find(&key) {
            Some(i) => {
                assert(self.packages@[i as int] == self.packages()[i as int]);
                Some(&self.packages[i])
            },
            None => None,
        }
    }

    /// Records what one source file declares: the package `name` and the names
    /// it imports. An empty name is dropped; a name seen before has its entry
    /// replaced in place; a new name is appended. Imports keep set semantics
    /// and the instability restarts at zero.
    pub fn ingest(&mut self, name: String, imports: Vec<String>)
        requires
            old(self).wf(),
        ensures
            final(self).wf(),
            ingested(old(self).packages(), final(self).packages(), name@, texts(imports@)),
    {
        if name.as_str().is_empty() {
            return;
        }
        let mut set: Vec<String> = Vec::new();
        for k in 0..imports.len()
            invariant
                texts(set@).no_duplicates(),
                texts(set@).to_set() == texts(imports@).take(k as int).to_set(),
        {
            let ghost before = set@;
            let ghost x = imports@[k as int]@;
            proof {
                assert(texts(imports@).take(k + 1) =~= texts(imports@).take(k as int).push(x));
                texts(imports@).take(k as int).lemma_push_to_set_commute(x);
            }
            if !holds_text(&set, &imports[k]) {
                set.push(imports[k].clone());
                proof {
                    assert(texts(set@) =~= texts(before).push(x));
                    texts(before).lemma_push_to_set_commute(x);
                    assert forall|a: int, b: int| 0 <= a < b < texts(set@).len() implies texts(set@)[a] != texts(set@)[b] by {
                        if b == texts(before).len() {
                            assert(texts(before)[a] == texts(set@)[a]);
                        }
                    }
                }
            } else {
                proof {
                    assert(texts(set@).to_set().contains(x));
                    assert(texts(imports@).take(k + 1).to_set() =~= texts(imports@).take(k as int).to_set());
                }
            }
        }
        proof {
            assert(texts(imports@).take(imports@.len() as int) =~= texts(imports@));
        }
        let fresh = Package { name: name.clone(), imports: set, coupling_score: Score::zero() };
        let ghost pk = old(self).packages@;
        match self.find(&name) {
            Some(j) => {
                self.packages.set(j, fresh);
                proof {
                    assert(names(pk)[j as int] == name@);
                    assert(names(self.packages@) =~= names(pk));
                    assert forall|i: int| 0 <= i < pk.len() && i != j implies pk[i].name@ != name@ by {
                        assert(names(pk)[i] != names(pk)[j as int]);
                    }
                }
            },
            None => {
                self.packages.push(fresh);
                proof {
                    assert(names(self.packages@) =~= names(pk).push(name@));
                    assert forall|i: int| 0 <= i < pk.len() implies pk[i].name@ != name@ by {
                        assert(names(pk)[i] == pk[i].name@);
                    }
                    assert forall|a: int, b: int| 0 <= a < b < self.packages@.len() implies
                        names(self.packages@)[a] != names(self.packages@)[b] by {
                        if b == pk.len() {
                            assert(names(pk)[a] == pk[a].name@);
                        } else {
                            assert(names(pk)[a] != names(pk)[b]);
                        }
                    }
                }
            },
        }
        proof {
            assert(registry_ok(self.packages@));
        }
    }

    /// Records the package and imports that the import query captured in one
    /// source file (see `ingest`).
    pub fn analyze_captures(&mut self, caps: &Vec<Capture>)
        requires
            old(self).wf(),
        ensures
            final(self).wf(),
            ingested(
                old(self).packages(),
                final(self).packages(),
                declared_package(capture_views(caps@)),
                imported(capture_views(caps@)),
            ),
    {
        let (name, imports) = facts_from_captures(caps);
        self.ingest(name, imports);
    }

    /// Parses one Go source text and records the package it declares with its
    /// imports. A source that declares no package changes nothing; one that
    /// tree-sitter cannot parse or query is an error and changes nothing.
    pub fn analyze_file(&mut self, source: &str) -> (r: Result<(), AnalyzeError>)
        requires
            old(self).wf(),
        ensures
            final(self).wf(),
            r is Err <==> go_query_captures(source@) is None,
            r is Err ==> final(self).packages() == old(self).packages(),
            r is Ok ==> ingested(
                old(self).packages(),
                final(self).packages(),
                declared_package(go_query_captures(source@)->0),
                imported(go_query_captures(source@)->0),
            ),
    {
        match go_captures(source) {
            Some(caps) => {
                self.analyze_captures(&caps);
                Ok(())
            },
            None => Err(AnalyzeError::Parse),
        }
    }

    /// The report's records, ranked by instability (see `ranking`).
    pub fn analyses(&self) -> (r: Vec<PackageAnalysis>)
        requires
            self.wf(),
        ensures
            report_records(self.packages(), r@),
    {
        let order = self.ranking();
        let ghost pk = self.packages@;
        let mut recs: Vec<PackageAnalysis> = Vec::new();
        for k in 0..order.len()
            invariant
                pk == self.packages@,
                ranked(scores(pk), order@),
                recs@.len() == k,
                forall|m: int| 0 <= m < k ==> describes(pk, order@[m] as int, #[trigger] recs@[m]),
        {
            let i = order[k];
            let p = &self.packages[i];
            let afferent = self.importer_count(&p.name);
            let imports = copy_texts(&p.imports);
            let rec = PackageAnalysis {
                name: p.name.clone(),
                coupling_score: p.coupling_score,
                imports,
                metrics: DetailedMetrics {
                    afferent_coupling: afferent,
                    efferent_coupling: p.imports.len(),
                    instability: p.coupling_score,
                    abstractness: Score::zero(),
                    distance: Score::zero(),
                },
            };
            recs.push(rec);
        }
        recs
    }

    /// The ranked report in the named format: `json` gives the records for a
    /// structured encoding, `text` one text block per record (with the
    /// coupling counts and imports when `detailed`); any other format is an
    /// error.
    pub fn export_analysis(&self, format: &str, detailed: bool) -> (r: Result<Report, ExportError>)
        requires
            self.wf(),
        ensures
            format@ != "json"@ && format@ != "text"@ ==> r == Err::<Report, ExportError>(ExportError::UnsupportedFormat),
            format@ == "json"@ ==> (r matches Ok(Report::Json(recs)) && report_records(self.packages(), recs@)),
            format@ == "text"@ ==> (r matches Ok(Report::Text(t)) && exists|recs: Seq<PackageAnalysis>|
                report_records(self.packages(), recs) && t@ == text_report(recs, detailed)),
    {
        let recs = self.analyses();
        match ReportFormat::parse(format) {
            Ok(ReportFormat::Json) => Ok(Report::Json(recs)),
            Ok(ReportFormat::Text) => {
                let t = render_text(&recs, detailed);
                Ok(Report::Text(t))
            },
            Err(e) => Err(e),
        }
    }

    /// How many registered packages import `name` (afferent coupling).
    pub fn importer_count(&self, name: &String) -> (r: usize)
        ensures
            r == importers(self.packages(), name@),
    {
        let ghost pk = self.packages@;
        let mut count: usize = 0;
        for m in 0..self.packages.len()
            invariant
                pk == self.packages@,
                count == importers(pk.take(m as int), name@),
                count <= m,
        {
            proof {
                assert(pk.take(m + 1).drop_last() =~= pk.take(m as int));
                assert(pk.take(m + 1).last() == pk[m as int]);
            }
            if holds_text(&self.packages[m].imports, name) {
                count = count + 1;
            }
        }
        proof {
            assert(pk.take(pk.len() as int) =~= pk);
        }
        count
    }

    /// Computes every package's instability: efferent coupling (the number of
    /// its imports, registered or not) over efferent plus afferent coupling
    /// (the number of registered packages that import it); zero where both
    /// are zero.
    pub fn calculate_coupling_scores(&mut self)
        requires
            old(self).wf(),
        ensures
            final(self).wf(),
            scored(old(self).packages(), final(self).packages()),
    {
        let ghost pk = self.packages@;
        let n = self.packages.len();
        let mut fresh: Vec<Score> = Vec::new();
        for i in 0..n
            invariant
                pk == self.packages@,
                n == pk.len(),
                fresh@.len() == i,
                forall|k: int| 0 <= k < i ==> fresh@[k] == coupling_of(pk, k),
        {
            let afferent = self.importer_count(&self.packages[i].name);
            fresh.push(Score { part: self.packages[i].imports.len(), rest: afferent });
        }
        for i in 0..n
            invariant
                n == pk.len(),
                fresh@.len() == n,
                forall|k: int| 0 <= k < n ==> fresh@[k] == coupling_of(pk, k),
                self.packages@.len() == n,
                forall|k: int| 0 <= k < n ==> (#[trigger] self.packages@[k]).name == pk[k].name,
                forall|k: int| 0 <= k < n ==> (#[trigger] self.packages@[k]).imports == pk[k].imports,
                forall|k: int| 0 <= k < i ==> (#[trigger] self.packages@[k]).coupling_score == fresh@[k],
        {
            let mut p = self.packages.remove(i);
            p.coupling_score = fresh[i];
            self.packages.insert(i, p);
        }
        proof {
            assert(names(self.packages@) =~= names(pk));
            assert forall|k: int| 0 <= k < n implies import_names(#[trigger] self.packages@[k]).no_duplicates() by {
                assert(import_names(self.packages@[k]) == import_names(pk[k]));
            }
            assert forall|k: int| 0 <= k < n implies (#[trigger] self.packages@[k]).name@.len() > 0 by {
                assert(self.packages@[k].name == pk[k].name);
            }
        }
    }

    /// Positions of the registry ordered by instability, highest first;
    /// packages of equal instability keep their registry order.
    pub fn ranking(&self) -> (r: Vec<usize>)
        ensures
            ranked(scores(self.packages()), r@),
    {
        let mut sc: Vec<Score> = Vec::new();
        for i in 0..self.packages.len()
            invariant
                sc@.len() == i,
                i <= self.packages@.len(),
                forall|k: int| 0 <= k < i ==> sc@[k] == self.packages@[k].coupling_score,
        {
            sc.push(self.packages[i].coupling_score);
        }
        proof {
            assert(sc@ =~= scores(self.packages()));
        }
        rank(&sc)
    }

    /// The packages ordered by instability, highest first; packages of equal
    /// instability keep their registry order.
    pub fn get_sorted_packages(&self) -> (r: Vec<&Package>)
        ensures
            exists|order: Seq<usize>|
                {
                    &&& ranked(scores(self.packages()), order)
                    &&& r@.len() == order.len()
                    &&& forall|k: int| 0 <= k < order.len() ==> *r@[k] == self.packages()[order[k] as int]
                },
    {
        let order = self.ranking();
        let r = self.pick(&order);
        proof {
            assert(ranked(scores(self.packages()), order@));
        }
        r
    }

    /// The packages at the given positions.
    fn pick(&self, order: &Vec<usize>) -> (r: Vec<&Package>)
        requires
            forall|k: int| 0 <= k < order@.len() ==> order@[k] < self.packages().len(),
        ensures
            r@.len() == order@.len(),
            forall|k: int| 0 <= k < order@.len() ==> *r@[k] == self.packages()[order@[k] as int],
    {
        let mut r: Vec<&Package> = Vec::new();
        for k in 0..order.len()
            invariant
                r@.len() == k,
                forall|m: int| 0 <= m < order@.len() ==> order@[m] < self.packages@.len(),
                forall|m: int| 0 <= m < k ==> *r@[m] == self.packages@[order@[m] as int],
        {
            r.push(&self.packages[order[k]]);
        }
        r
    }

    /// For each package, the positions of the registered packages it imports.
    fn dependency_lists(&self) -> (r: Vec<Vec<usize>>)
        requires
            self.wf(),
        ensures
            graph_ok(r@.map_values(|d: Vec<usize>| d@)),
            r@.len() == self.packages().len(),
            forall|i: int, j: usize|
                0 <= i < r@.len() ==> ((#[trigger] r@[i]@.contains(j)) <==> (j < r@.len() && depends_on(self.packages(), i, j as int))),
    {
        let ghost pk = self.packages@;
        let n = self.packages.len();
        let mut r: Vec<Vec<usize>> = Vec::new();
        for i in 0..n
            invariant
                pk == self.packages@,
                registry_ok(pk),
                n == pk.len(),
                r@.len() == i,
                forall|a: int| 0 <= a < i ==> {
                    &&& (#[trigger] r@[a])@.no_duplicates()
                    &&& forall|k: int| 0 <= k < r@[a]@.len() ==> r@[a]@[k] < n
                    &&& forall|j: usize| r@[a]@.contains(j) <==> (j < n && depends_on(pk, a, j as int))
                },
        {
            let imports = &self.packages[i].imports;
            let ghost im = import_names(pk[i as int]);
            let mut ds: Vec<usize> = Vec::new();
            for k in 0..imports.len()
                invariant
                    pk == self.packages@,
                    registry_ok(pk),
                    n == pk.len(),
                    i < n,
                    imports == pk[i as int].imports,
                    im == import_names(pk[i as int]),
                    ds@.no_duplicates(),
                    forall|m: int| 0 <= m < ds@.len() ==> ds@[m] < n,
                    forall|j: usize| ds@.contains(j) <==> (j < n && im.take(k as int).contains(pk[j as int].name@)),
            {
                let ghost pre = im.take(k as int);
                let ghost cur = im.take(k + 1);
                proof {
                    assert(cur =~= pre.push(im[k as int]));
                    assert(im[k as int] == imports@[k as int]@);
                    assert(im.no_duplicates());
                }
                match self.find(&imports[k]) {
                    Some(j) => {
                        proof {
                            assert(!ds@.contains(j)) by {
                                if ds@.contains(j) {
                                    let m = choose|m: int| 0 <= m < k && pre[m] == pk[j as int].name@;
                                    assert(im[m] == im[k as int]);
                                }
                            }
                            lemma_push_contains(ds@, j);
                            lemma_push_contains(pre, im[k as int]);
                            assert(cur == pre.push(im[k as int]));
                            assert forall|x: usize| x < n && pk[x as int].name@ == im[k as int] implies x == j by {
                                assert(names(pk)[x as int] == names(pk)[j as int]);
                            }
                        }
                        ds.push(j);
                    },
                    None => {
                        proof {
                            assert forall|x: usize| x < n implies
                                (cur.contains(pk[x as int].name@) == pre.contains(pk[x as int].name@)) by {
                                assert(names(pk)[x as int] == pk[x as int].name@);
                                if cur.contains(pk[x as int].name@) {
                                    let m = choose|m: int| 0 <= m < k + 1 && cur[m] == pk[x as int].name@;
                                    if m < k {
                                        assert(pre[m] == pk[x as int].name@);
                                    }
                                }
                            }
                        }
                    },
                }
            }
            proof {
                assert(im.take(im.len() as int) =~= im);
            }
            r.push(ds);
        }
        proof {
            let g = r@.map_values(|d: Vec<usize>| d@);
            assert forall|a: int| 0 <= a < g.len() implies {
                &&& (#[trigger] g[a]).no_duplicates()
                &&& forall|k: int| 0 <= k < g[a].len() ==> g[a][k] < g.len()
            } by {
                assert(g[a] == r@[a]@);
            }
        }
        r
    }

    /// A deployment order by Kahn's algorithm: packages that import no
    /// registered package seed a queue in registry order; taking a package off
    /// the queue releases each importer whose last pending dependency it was.
    /// Packages never released (a cycle, a self-import, or a dependency on
    /// either) follow in registry order.
    pub fn deployment_plan(&self) -> (r: DeploymentPlan)
        requires
            self.wf(),
        ensures
            deployment_order_ok(self.packages(), r.order@, r.resolved as int),
    {
        let deps = self.dependency_lists();
        let lin = linearize(&deps);
        proof {
            assert(deps@.len() == deps.len());
            lemma_plan_from_graph(self.packages(), deps@.map_values(|d: Vec<usize>| d@), lin.order@, lin.resolved as int);
        }
        DeploymentPlan { order: lin.order, resolved: lin.resolved }
    }

    /// The packages in deployment order: dependencies first, every package
    /// exactly once, cycles tolerated (see `deployment_plan`).
    pub fn generate_deployment_order(&self) -> (r: Vec<&Package>)
        requires
            self.wf(),
        ensures
            r@.len() == self.packages().len(),
            exists|order: Seq<usize>, resolved: int|
                {
                    &&& deployment_order_ok(self.packages(), order, resolved)
                    &&& forall|k: int| 0 <= k < order.len() ==> *r@[k] == self.packages()[order[k] as int]
                },
    {
        let plan = self.deployment_plan();
        let r = self.pick(&plan.order);
        proof {
            assert(deployment_order_ok(self.packages(), plan.order@, plan.resolved as int));
        }
        r
    }
}

impl Default for DependencyAnalyzer {
    /// An empty registry.
    fn default() -> (r: Self)
        ensures
            r.wf(),
            r.packages().len() == 0,
    {
        DependencyAnalyzer::new()
    }
}

/// A deployment order of the dependency graph of a registry is one of the
/// registry.
proof fn lemma_plan_from_graph(pk: Seq<Package>, g: Seq<Seq<usize>>, order: Seq<usize>, resolved: int)
    requires
        g.len() == pk.len(),
        g.len() <= usize::MAX,
        forall|i: int, j: usize| 0 <= i < g.len() ==> ((#[trigger] g[i].contains(j)) <==> (j < g.len() && depends_on(pk, i, j as int))),
        deployment_ok(g, order, resolved),
    ensures
        deployment_order_ok(pk, order, resolved),
{
    assert forall|k: int, j: int|
        0 <= k < resolved && 0 <= j < pk.len() && #[trigger] depends_on(pk, order[k] as int, j)
            implies placed_before(order, j as usize, k) by {
        let i = order[k] as int;
        assert(g[i].contains(j as usize));
        let m = choose|m: int| 0 <= m < g[i].len() && g[i][m] == j as usize;
        assert(placed_before(order, g[order[k] as int][m], k));
    }
    assert forall|k: int| resolved <= k < order.len() implies held_up(pk, order.take(resolved), #[trigger] order[k]) by {
        assert(waits_on_outside(g, order.take(resolved), order[k]));
        let i = order[k] as int;
        let m = choose|m: int| 0 <= m < g[i].len() && !order.take(resolved).contains(#[trigger] g[i][m]);
        let j = g[i][m];
        assert(g[i].contains(j));
        assert(depends_on(pk, i, j as int));
    }
}

/// Every registered package that package `i` imports is in `placed`.
pub open spec fn imports_placed(pk: Seq<Package>, placed: Seq<usize>, i: usize) -> bool {
    forall|j: int| 0 <= j < pk.len() && #[trigger] depends_on(pk, i as int, j) ==> placed.contains(j as usize)
}

/// A package whose only import is itself is never resolved: it lands among
/// the packages that a cycle holds up. It holds up no other package by itself:
/// every package whose registered imports are all resolved is resolved.
pub proof fn law_self_import_blocks_only_itself(pk: Seq<Package>, order: Seq<usize>, resolved: int, s: usize)
    requires
        deployment_order_ok(pk, order, resolved),
        s < pk.len(),
        import_names(pk[s as int]) == seq![pk[s as int].name@],
    ensures
        !order.take(resolved).contains(s),
        forall|i: usize|
            i < pk.len() && #[trigger] imports_placed(pk, order.take(resolved), i) ==> order.take(resolved).contains(i),
{
    let placed = order.take(resolved);
    if placed.contains(s) {
        let k = choose|k: int| 0 <= k < resolved && placed[k] == s;
        assert(order[k] == s);
        assert(import_names(pk[s as int])[0] == pk[s as int].name@);
        assert(import_names(pk[s as int]).contains(pk[s as int].name@));
        assert(depends_on(pk, order[k] as int, s as int));
        assert(placed_before(order, s, k));
        let k2 = choose|k2: int| 0 <= k2 < k && order.take(k)[k2] == s;
        assert(order[k2] == order[k]);
    }
    assert forall|i: usize| i < pk.len() && #[trigger] imports_placed(pk, placed, i) implies placed.contains(i) by {
        assert(order.contains(i));
        let k = choose|k: int| 0 <= k < order.len() && order[k] == i;
        if k >= resolved {
            assert(held_up(pk, placed, order[k]));
        } else {
            assert(placed[k] == i);
        }
    }
}

/// The record `rec` gives back the name, instability and import set of `p`.
pub open spec fn same_entry(p: Package, rec: PackageAnalysis) -> bool {
    &&& rec.name@ == p.name@
    &&& rec.coupling_score == p.coupling_score
    &&& texts(rec.imports@).to_set() == import_names(p).to_set()
}

/// Some record of `recs` gives back `p`.
pub open spec fn has_record(recs: Seq<PackageAnalysis>, p: Package) -> bool {
    exists|k: int| 0 <= k < recs.len() && same_entry(p, #[trigger] recs[k])
}

/// Some package of `pk` is given back by `rec`.
pub open spec fn has_package(pk: Seq<Package>, rec: PackageAnalysis) -> bool {
    exists|i: int| 0 <= i < pk.len() && same_entry(#[trigger] pk[i], rec)
}

/// The report's records carry the registry itself: one record per package,
/// and each package's name, instability and import set come back from its
/// record.
pub proof fn law_report_matches_registry(pk: Seq<Package>, recs: Seq<PackageAnalysis>)
    requires
        report_records(pk, recs),
    ensures
        recs.len() == pk.len(),
        forall|i: int| 0 <= i < pk.len() ==> has_record(recs, #[trigger] pk[i]),
        forall|k: int| 0 <= k < recs.len() ==> has_package(pk, #[trigger] recs[k]),
{
    let order = choose|order: Seq<usize>|
        {
            &&& ranked(scores(pk), order)
            &&& recs.len() == order.len()
            &&& forall|k: int| 0 <= k < order.len() ==> describes(pk, order[k] as int, #[trigger] recs[k])
        };
    assert forall|i: int| 0 <= i < pk.len() implies has_record(recs, #[trigger] pk[i]) by {
        lemma_permutation_bound(order, pk.len());
        assert(order.contains(i as usize));
        let k = choose|k: int| 0 <= k < order.len() && order[k] == i as usize;
        assert(describes(pk, order[k] as int, recs[k]));
        assert(same_entry(pk[i], recs[k]));
    }
    assert forall|k: int| 0 <= k < recs.len() implies has_package(pk, #[trigger] recs[k]) by {
        assert(describes(pk, order[k] as int, recs[k]));
        assert(same_entry(pk[order[k] as int], recs[k]));
    }
}

/// Afferent coupling reads only names and imports.
pub proof fn lemma_importers_same(a: Seq<Package>, b: Seq<Package>, n: Seq<char>)
    requires
        a.len() == b.len(),
        forall|i: int| 0 <= i < a.len() ==> (#[trigger] a[i]).imports == b[i].imports,
    ensures
        importers(a, n) == importers(b, n),
    decreases a.len(),
{
    if a.len() > 0 {
        lemma_importers_same(a.drop_last(), b.drop_last(), n);
        assert(a.last().imports == b.last().imports);
    }
}

/// No more packages import a name than there are packages.
pub proof fn lemma_importers_bound(pk: Seq<Package>, n: Seq<char>)
    ensures
        importers(pk, n) <= pk.len(),
    decreases pk.len(),
{
    if pk.len() > 0 {
        lemma_importers_bound(pk.drop_last(), n);
    }
}

/// Every instability lies between zero and one. It is zero exactly when the
/// package imports nothing, so always when the package has no coupling at
/// all; and, for a package that imports something or that nothing imports,
/// exactly when its total coupling is zero.
pub proof fn law_instability_in_unit_range(before: Seq<Package>, after: Seq<Package>, i: int)
    requires
        scored(before, after),
        0 <= i < after.len(),
    ensures
        Score::zero_spec().spec_le(after[i].coupling_score),
        after[i].coupling_score.spec_le(Score { part: 1, rest: 0 }),
        after[i].coupling_score.equals(0, 1) <==> after[i].imports@.len() == 0,
        after[i].imports@.len() + importers(before, after[i].name@) == 0 ==> after[i].coupling_score.equals(0, 1),
        (after[i].imports@.len() > 0 || importers(before, after[i].name@) == 0) ==> (
            after[i].coupling_score.equals(0, 1) <==> after[i].imports@.len() + importers(before, after[i].name@) == 0),
{
    lemma_importers_bound(before, after[i].name@);
    let s = after[i].coupling_score;
    assert(after[i].imports.len() == after[i].imports@.len());
    assert(s == coupling_of(before, i));
    assert(s.part <= s.total());
}

/// Computing the instabilities a second time on an unchanged registry gives
/// the same values.
pub proof fn law_coupling_idempotent(first: Seq<Package>, once: Seq<Package>, twice: Seq<Package>)
    requires
        scored(first, once),
        scored(once, twice),
    ensures
        scores(twice) == scores(once),
        twice == once,
{
    assert forall|i: int| 0 <= i < once.len() implies #[trigger] twice[i] == once[i] by {
        lemma_importers_same(once, first, once[i].name@);
    }
    assert(twice =~= once);
}

} // verus!
