//! Trusted boundary to the `regex` and `markdown` crates: each heuristic
//! text pattern of the extractor is one wrapper whose result is named by an
//! uninterpreted function of the inputs, since the full matching semantics
//! would take pages to state.
use vstd::prelude::*;

use crate::text::opt_view;

verus! {

/// What the line-anchored definition pattern finds in `content` for a
/// function called `name`: the first stretch from a line start (free of
/// comment slashes) through `name` and a parenthesised argument list up to
/// an opening brace, if any.
pub uninterp spec fn proto_def_text(content: Seq<char>, name: Seq<char>) -> Option<Seq<char>>;

/// Relies on `regex::Regex::find` with the pattern
/// `(?m)^[^/\n]*\b<name>\s*\([^{]*\)\s*{` (the name escaped with
/// `regex::escape`): returns the leftmost match, a function of `content`
/// and `name` alone.
#[verifier::external_body]
pub(crate) fn find_proto_def(content: &str, name: &str) -> (r: Option<String>)
    ensures
        opt_view(r) == proto_def_text(content@, name@),
{
    let pat = format!(r"(?m)^[^/\n]*\b{}\s*\([^{{]*\)\s*{{", regex::escape(name));
    match regex::Regex::new(&pat) {
        Ok(re) => re.find(content).map(|m| m.as_str().to_string()),
        Err(_) => None,
    }
}

/// What the declaration pattern finds in `content` for `name`: the first
/// stretch from a line start through `name` and an argument list up to a
/// terminating semicolon, if any.
pub uninterp spec fn proto_decl_text(content: Seq<char>, name: Seq<char>) -> Option<Seq<char>>;

/// Relies on `regex::Regex::find` with the pattern
/// `(?m)^[^/\n]*\b<name>\s*\([^;]*\);` (the name escaped with
/// `regex::escape`): returns the leftmost match, a function of `content`
/// and `name` alone.
#[verifier::external_body]
pub(crate) fn find_proto_decl(content: &str, name: &str) -> (r: Option<String>)
    ensures
        opt_view(r) == proto_decl_text(content@, name@),
{
    let pat = format!(r"(?m)^[^/\n]*\b{}\s*\([^;]*\);", regex::escape(name));
    match regex::Regex::new(&pat) {
        Ok(re) => re.find(content).map(|m| m.as_str().to_string()),
        Err(_) => None,
    }
}

/// What the loose pattern finds in `content` for `name`: the first
/// stretch from `name` through an argument list, stopped before any brace
/// or semicolon, if any.
pub uninterp spec fn proto_loose_text(content: Seq<char>, name: Seq<char>) -> Option<Seq<char>>;

/// Relies on `regex::Regex::find` with the pattern
/// `(?m)<name>\s*\([^{;]*` (the name escaped with `regex::escape`):
/// returns the leftmost match, a function of `content` and `name` alone.
#[verifier::external_body]
pub(crate) fn find_proto_loose(content: &str, name: &str) -> (r: Option<String>)
    ensures
        opt_view(r) == proto_loose_text(content@, name@),
{
    let pat = format!(r"(?m){}\s*\([^{{;]*", regex::escape(name));
    match regex::Regex::new(&pat) {
        Ok(re) => re.find(content).map(|m| m.as_str().to_string()),
        Err(_) => None,
    }
}

/// The declarations that the header pattern finds in `content`, in match
/// order: for each, the whole matched line and the captured function name
/// (a `ft_`-prefixed identifier before an argument list and semicolon).
pub uninterp spec fn header_decl_list(content: Seq<char>) -> Seq<(Seq<char>, Seq<char>)>;

/// Relies on `regex::Regex::captures_iter` with the pattern
/// `(?m)^\s*[A-Za-z_][\w\s\*\(\)]*\s+(ft_[A-Za-z0-9_]+)\s*\([^;{]*\)\s*;`:
/// yields the successive non-overlapping matches with capture group 1, a
/// function of `content` alone.
#[verifier::external_body]
pub(crate) fn find_header_decls(content: &str) -> (r: Vec<(String, String)>)
    ensures
        r@.len() == header_decl_list(content@).len(),
        forall|i: int|
            0 <= i < r@.len() ==> (#[trigger] r@[i].0@, r@[i].1@) == header_decl_list(content@)[i],
{
    let pat = r"(?m)^\s*[A-Za-z_][\w\s\*\(\)]*\s+(ft_[A-Za-z0-9_]+)\s*\([^;{]*\)\s*;";
    match regex::Regex::new(pat) {
        Ok(re) => re
            .captures_iter(content)
            .map(|c| (c.get(0).unwrap().as_str().to_string(), c.get(1).unwrap().as_str().to_string()))
            .collect(),
        Err(_) => Vec::new(),
    }
}

/// What the starred block-comment pattern captures from `content`: the
/// text between `/**` and `*/` of the first such comment, if any.
pub uninterp spec fn doc_comment_text(content: Seq<char>) -> Option<Seq<char>>;

/// Relies on `regex::Regex::captures` with the pattern
/// `/\*\*\s*(.*?)\s*\*/`: returns capture group 1 of the first match, a
/// function of `content` alone.
#[verifier::external_body]
pub(crate) fn find_doc_comment(content: &str) -> (r: Option<String>)
    ensures
        opt_view(r) == doc_comment_text(content@),
{
    match regex::Regex::new(r"/\*\*\s*(.*?)\s*\*/") {
        Ok(re) => re.captures(content).and_then(|c| c.get(1)).map(|m| m.as_str().to_string()),
        Err(_) => None,
    }
}

/// What the plain block-comment pattern captures from `content`: the text
/// between `/*` and `*/` of the first such comment, if any.
pub uninterp spec fn block_comment_text(content: Seq<char>) -> Option<Seq<char>>;

/// Relies on `regex::Regex::captures` with the pattern
/// `/\*\s*(.*?)\s*\*/`: returns capture group 1 of the first match, a
/// function of `content` alone.
#[verifier::external_body]
pub(crate) fn find_block_comment(content: &str) -> (r: Option<String>)
    ensures
        opt_view(r) == block_comment_text(content@),
{
    match regex::Regex::new(r"/\*\s*(.*?)\s*\*/") {
        Ok(re) => re.captures(content).and_then(|c| c.get(1)).map(|m| m.as_str().to_string()),
        Err(_) => None,
    }
}

/// What the line-comment pattern captures from `content`: the rest of the
/// line after the first `//`, if any.
pub uninterp spec fn line_comment_text(content: Seq<char>) -> Option<Seq<char>>;

/// Relies on `regex::Regex::captures` with the pattern `//\s*(.*)`:
/// returns capture group 1 of the first match, a function of `content`
/// alone.
#[verifier::external_body]
pub(crate) fn find_line_comment(content: &str) -> (r: Option<String>)
    ensures
        opt_view(r) == line_comment_text(content@),
{
    match regex::Regex::new(r"//\s*(.*)") {
        Ok(re) => re.captures(content).and_then(|c| c.get(1)).map(|m| m.as_str().to_string()),
        Err(_) => None,
    }
}

/// The HTML rendering of a Markdown document.
pub uninterp spec fn html_of(md: Seq<char>) -> Seq<char>;

/// Relies on `markdown::to_html`: converts Markdown text to HTML with the
/// default options; the result depends on the input text alone.
#[verifier::external_body]
pub(crate) fn render_markdown(md: &str) -> (r: String)
    ensures
        r@ == html_of(md@),
{
    markdown::to_html(md)
}

} // verus!
