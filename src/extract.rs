//! What a Go source file declares: its package name and its imports.
use vstd::prelude::*;

use tree_sitter::{Parser, Query, QueryCursor, StreamingIterator};

use crate::analyzer::texts;

verus! {

/// The tree-sitter query that captures the package clause (`@package`) and
/// every imported path, single or grouped (`@import`).
pub const GO_IMPORTS_QUERY: &'static str = "
(package_clause
  (package_identifier) @package)

(import_declaration
  (import_spec
    (interpreted_string_literal) @import))

(import_declaration
  (import_spec_list
    (import_spec
      (interpreted_string_literal) @import)))
";

/// One capture of the query: the capture's name and the source text it spans.
pub struct Capture {
    pub name: String,
    pub text: String,
}

/// The name and text of each capture.
pub open spec fn capture_views(v: Seq<Capture>) -> Seq<(Seq<char>, Seq<char>)> {
    v.map_values(|c: Capture| (c.name@, c.text@))
}

/// The captures that the Go grammar and the import query give for a source
/// text, in match order; `None` where tree-sitter fails.
pub uninterp spec fn go_query_captures(source: Seq<char>) -> Option<Seq<(Seq<char>, Seq<char>)>>;

/// Relies on tree-sitter (`Parser::parse` with `tree_sitter_go::LANGUAGE`,
/// `Query::new`, `QueryCursor::matches`, `Node::utf8_text`): the captures of
/// the import query over the parsed source, each as its capture name and text.
#[verifier::external_body]
pub(crate) fn go_captures(source: &str) -> (r: Option<Vec<Capture>>)
    ensures
        r is Some <==> go_query_captures(source@) is Some,
        r matches Some(v) ==> capture_views(v@) == go_query_captures(source@)->0,
{
    let language: tree_sitter::Language = tree_sitter_go::LANGUAGE.into();
    let mut parser = Parser::new();
    parser.set_language(&language).ok()?;
    let tree = parser.parse(source, None)?;
    let query = Query::new(&language, GO_IMPORTS_QUERY).ok()?;
    let mut cursor = QueryCursor::new();
    let mut matches = cursor.matches(&query, tree.root_node(), source.as_bytes());
    let mut out = Vec::new();
    while let Some(m) = matches.next() {
        for c in m.captures {
            let text = c.node.utf8_text(source.as_bytes()).ok()?.to_string();
            out.push(Capture { name: query.capture_names()[c.index as usize].to_string(), text });
        }
    }
    Some(out)
}

/// `s` without its leading and trailing double quotes.
pub open spec fn unquote(s: Seq<char>) -> Seq<char>
    decreases s.len(),
{
    if s.len() > 0 && s[0] == '"' {
        unquote(s.drop_first())
    } else if s.len() > 0 && s.last() == '"' {
        unquote(s.drop_last())
    } else {
        s
    }
}

/// Relies on `str::trim_matches`: every leading and trailing `"` removed.
#[verifier::external_body]
fn trim_quotes(s: &str) -> (r: String)
    ensures
        r@ == unquote(s@),
{
    s.trim_matches('"').to_string()
}

/// The capture name of the package clause.
pub open spec fn package_tag() -> Seq<char> {
    seq!['p', 'a', 'c', 'k', 'a', 'g', 'e']
}

/// The capture name of an imported path.
pub open spec fn import_tag() -> Seq<char> {
    seq!['i', 'm', 'p', 'o', 'r', 't']
}

/// The declared package: the unquoted text of the last package capture, or
/// empty where there is none.
pub open spec fn declared_package(cs: Seq<(Seq<char>, Seq<char>)>) -> Seq<char>
    decreases cs.len(),
{
    if cs.len() == 0 {
        Seq::empty()
    } else if cs.last().0 == package_tag() {
        unquote(cs.last().1)
    } else {
        declared_package(cs.drop_last())
    }
}

/// The unquoted texts of the import captures, in order.
pub open spec fn imported(cs: Seq<(Seq<char>, Seq<char>)>) -> Seq<Seq<char>>
    decreases cs.len(),
{
    if cs.len() == 0 {
        Seq::empty()
    } else if cs.last().0 == import_tag() {
        imported(cs.drop_last()).push(unquote(cs.last().1))
    } else {
        imported(cs.drop_last())
    }
}

/// Reads the package name and the imported paths off the query's captures.
pub fn facts_from_captures(caps: &Vec<Capture>) -> (r: (String, Vec<String>))
    ensures
        r.0@ == declared_package(capture_views(caps@)),
        texts(r.1@) == imported(capture_views(caps@)),
{
    let package_name = String::from_str("package");
    let import_name = String::from_str("import");
    proof {
        reveal_strlit("package");
        reveal_strlit("import");
        assert(package_name@ =~= package_tag());
        assert(import_name@ =~= import_tag());
    }
    let ghost cs = capture_views(caps@);
    let mut name = String::new();
    let mut imports: Vec<String> = Vec::new();
    for k in 0..caps.len()
        invariant
            cs == capture_views(caps@),
            package_name@ == package_tag(),
            import_name@ == import_tag(),
            name@ == declared_package(cs.take(k as int)),
            texts(imports@) == imported(cs.take(k as int)),
    {
        proof {
            assert(cs.take(k + 1).drop_last() =~= cs.take(k as int));
            assert(cs.take(k + 1).last() == cs[k as int]);
        }
        let c = &caps[k];
        if c.name == package_name {
            name = trim_quotes(c.text.as_str());
        } else if c.name == import_name {
            let ghost before = imports@;
            imports.push(trim_quotes(c.text.as_str()));
            proof {
                assert(texts(imports@) =~= texts(before).push(imports@.last()@));
            }
        }
    }
    proof {
        assert(cs.take(cs.len() as int) =~= cs);
    }
    (name, imports)
}

} // verus!
