//! Dialect grammars and their structural queries: parsing a document with
//! tree-sitter and reducing each query match to plain row ranges and text.

use vstd::prelude::*;
use vstd::string::StringSliceAdditionalSpecFns;
use crate::utils::{str_eq, parse_usize, parse_usize_spec};

verus! {

#[verifier::external_type_specification]
#[verifier::external_body]
pub struct ExLanguage(tree_sitter::Language);

#[verifier::external_type_specification]
#[verifier::external_body]
pub struct ExParser(tree_sitter::Parser);

#[verifier::external_type_specification]
#[verifier::external_body]
pub struct ExTree(tree_sitter::Tree);

#[verifier::external_type_specification]
#[verifier::external_body]
pub struct ExQuery(tree_sitter::Query);

/// One captured node of a structural query match, reduced to plain values:
/// the capture's name, the node's row span, and the text it covers.
pub struct RawCapture {
    pub name: String,
    pub start_row: usize,
    pub end_row: usize,
    pub text: String,
}

/// The mathematical shape of a capture.
pub ghost struct RawCaptureV {
    pub name: Seq<char>,
    pub start_row: int,
    pub end_row: int,
    pub text: Seq<char>,
}

impl View for RawCapture {
    type V = RawCaptureV;

    open spec fn view(&self) -> RawCaptureV {
        RawCaptureV {
            name: self.name@,
            start_row: self.start_row as int,
            end_row: self.end_row as int,
            text: self.text@,
        }
    }
}

/// One match of a structural query. Matches arrive in document order.
pub struct RawMatch {
    pub captures: Vec<RawCapture>,
}

/// The mathematical shape of a match.
pub ghost struct RawMatchV {
    pub captures: Seq<RawCaptureV>,
}

impl View for RawMatch {
    type V = RawMatchV;

    open spec fn view(&self) -> RawMatchV {
        RawMatchV { captures: self.captures@.map_values(|c: RawCapture| c@) }
    }
}

/// The views of a match list.
pub open spec fn matches_view(ms: Seq<RawMatch>) -> Seq<RawMatchV> {
    ms.map_values(|m: RawMatch| m@)
}

/// Whether the engine carries a structural query for this dialect name.
pub open spec fn dialect_supported(s: Seq<char>) -> bool {
    s == "markdown"@ || s == "org"@ || s == "restructuredtext"@
}

/// The parser state the extraction relies on: the named dialect's grammar is
/// set, and no timeout or cancellation flag is. Only the wrappers below
/// establish it.
pub uninterp spec fn parser_ready(p: tree_sitter::Parser, dialect: Seq<char>) -> bool;

/// `t` is the named dialect's parse of the byte sequence `src`; tree-sitter
/// parsing is deterministic in the grammar and the text.
pub uninterp spec fn dialect_tree(t: tree_sitter::Tree, dialect: Seq<char>, src: Seq<u8>) -> bool;

/// `q` is the named dialect's compiled structural query (the fixed source
/// below, compiled for that dialect's grammar).
pub uninterp spec fn dialect_query(q: tree_sitter::Query, dialect: Seq<char>) -> bool;

/// What running the named dialect's structural query over its parse of
/// `src` yields: a function of the dialect and the source text alone.
pub uninterp spec fn dialect_matches_of(dialect: Seq<char>, src: Seq<char>) -> Seq<RawMatchV>;

/// A parser with the markdown grammar set.
///
/// Relies on `tree_sitter::Parser::new` and `Parser::set_language`: the
/// vendored markdown grammar's ABI version is accepted by this tree-sitter,
/// so loading cannot fail, and a fresh parser carries no timeout or
/// cancellation flag.
#[verifier::external_body]
fn md_parser() -> (p: tree_sitter::Parser)
    ensures
        parser_ready(p, "markdown"@),
{
    let mut p = tree_sitter::Parser::new();
    p.set_language(tree_sitter_md::language()).expect("the markdown grammar version is accepted");
    p
}

/// A parser with the org grammar set.
///
/// Relies on `tree_sitter::Parser::new` and `Parser::set_language`, as for
/// the markdown parser.
#[verifier::external_body]
fn org_parser() -> (p: tree_sitter::Parser)
    ensures
        parser_ready(p, "org"@),
{
    let mut p = tree_sitter::Parser::new();
    p.set_language(tree_sitter_org::language()).expect("the org grammar version is accepted");
    p
}

/// A parser with the restructuredtext grammar set.
///
/// Relies on `tree_sitter::Parser::new` and `Parser::set_language`, as for
/// the markdown parser.
#[verifier::external_body]
fn rst_parser() -> (p: tree_sitter::Parser)
    ensures
        parser_ready(p, "restructuredtext"@),
{
    let mut p = tree_sitter::Parser::new();
    p.set_language(tree_sitter_rst::language()).expect(
        "the restructuredtext grammar version is accepted",
    );
    p
}

/// Relies on `tree_sitter::Parser::parse`, run without a previous tree: with
/// a language set and no timeout or cancellation flag it returns a tree, and
/// the tree is a deterministic function of the grammar and the text.
#[verifier::external_body]
fn ts_parse(p: &mut tree_sitter::Parser, text: &[u8]) -> (r: Option<tree_sitter::Tree>)
    ensures
        parser_ready(*old(p), "markdown"@) ==> r is Some && dialect_tree(
            r.unwrap(),
            "markdown"@,
            text@,
        ),
        parser_ready(*old(p), "org"@) ==> r is Some && dialect_tree(r.unwrap(), "org"@, text@),
        parser_ready(*old(p), "restructuredtext"@) ==> r is Some && dialect_tree(
            r.unwrap(),
            "restructuredtext"@,
            text@,
        ),
{
    p.parse(text, None)
}

/// The characters of the fenced-code-block query for markdown documents.
pub open spec fn md_query_chars() -> Seq<char> {
    "(fenced_code_block (info_string (language) @language) (code_fence_content) @content) @codeblock"@
}

/// The fenced-code-block query for markdown documents.
pub fn md_query_source() -> (s: &'static str)
    ensures
        s@ == md_query_chars(),
{
    "(fenced_code_block (info_string (language) @language) (code_fence_content) @content) @codeblock"
}

/// The characters of the source-block query for org documents.
pub open spec fn org_query_chars() -> Seq<char> {
    "(block name: (expr) @_name (#match? @_name \"(SRC|src)\") parameter: (expr) @language contents: (contents) @content) @codeblock"@
}

/// The source-block query for org documents: named blocks whose name
/// matches SRC or src, with a language parameter.
pub fn org_query_source() -> (s: &'static str)
    ensures
        s@ == org_query_chars(),
{
    "(block name: (expr) @_name (#match? @_name \"(SRC|src)\") parameter: (expr) @language contents: (contents) @content) @codeblock"
}

/// The characters of the code-directive query for restructuredtext
/// documents.
pub open spec fn rst_query_chars() -> Seq<char> {
    "(directive name: (type) @_name (#match? @_name \"code\") body: (body (arguments) @language (content) @content (#offset! @content 0 0 1 0))) @codeblock"@
}

/// The code-directive query for restructuredtext documents.
pub fn rst_query_source() -> (s: &'static str)
    ensures
        s@ == rst_query_chars(),
{
    "(directive name: (type) @_name (#match? @_name \"code\") body: (body (arguments) @language (content) @content (#offset! @content 0 0 1 0))) @codeblock"
}

/// Compiles the fenced-code-block query.
///
/// Relies on `tree_sitter::Query::new`: deterministic in the grammar and
/// the source, and the fixed query source above is accepted by the
/// markdown grammar.
#[verifier::external_body]
fn md_query_new(source: &str) -> (q: tree_sitter::Query)
    requires
        source@ == md_query_chars(),
    ensures
        dialect_query(q, "markdown"@),
{
    tree_sitter::Query::new(tree_sitter_md::language(), source).expect(
        "the markdown grammar accepts the fenced-code-block query",
    )
}

/// Compiles the source-block query.
///
/// Relies on `tree_sitter::Query::new`, as for the markdown query.
#[verifier::external_body]
fn org_query_new(source: &str) -> (q: tree_sitter::Query)
    requires
        source@ == org_query_chars(),
    ensures
        dialect_query(q, "org"@),
{
    tree_sitter::Query::new(tree_sitter_org::language(), source).expect(
        "the org grammar accepts the source-block query",
    )
}

/// Compiles the code-directive query.
///
/// Relies on `tree_sitter::Query::new`, as for the markdown query.
#[verifier::external_body]
fn rst_query_new(source: &str) -> (q: tree_sitter::Query)
    requires
        source@ == rst_query_chars(),
    ensures
        dialect_query(q, "restructuredtext"@),
{
    tree_sitter::Query::new(tree_sitter_rst::language(), source).expect(
        "the restructuredtext grammar accepts the code-directive query",
    )
}

/// Runs `query` over the parsed `tree` and collects every match, in the
/// order the cursor yields them (document order), with each capture reduced
/// to its name, row span and covered text. For a dialect's query over that
/// dialect's parse of `src`, the result is the dialect's match list of
/// `src`, a function of the source alone.
///
/// Relies on `tree_sitter::QueryCursor::new` and `QueryCursor::matches`
/// (which drops matches whose text predicates fail), on `Tree::root_node`,
/// `Node::range` and `Query::capture_names`, and on slicing the source at
/// each node's byte range.
#[verifier::external_body]
pub(crate) fn ts_collect_matches(
    query: &tree_sitter::Query,
    tree: &tree_sitter::Tree,
    src: &str,
) -> (r: Vec<RawMatch>)
    ensures
        dialect_query(*query, "markdown"@) && dialect_tree(*tree, "markdown"@, src.spec_bytes())
            ==> matches_view(r@) == dialect_matches_of("markdown"@, src@),
        dialect_query(*query, "org"@) && dialect_tree(*tree, "org"@, src.spec_bytes())
            ==> matches_view(r@) == dialect_matches_of("org"@, src@),
        dialect_query(*query, "restructuredtext"@) && dialect_tree(
            *tree,
            "restructuredtext"@,
            src.spec_bytes(),
        ) ==> matches_view(r@) == dialect_matches_of("restructuredtext"@, src@),
{
    let mut cursor = tree_sitter::QueryCursor::new();
    let names = query.capture_names();
    let conv = |c: &tree_sitter::QueryCapture| RawCapture {
        name: names.get(c.index as usize).cloned().unwrap_or_default(),
        start_row: c.node.range().start_point.row,
        end_row: c.node.range().end_point.row,
        text: src.get(c.node.range().start_byte..c.node.range().end_byte).unwrap_or("").to_string(),
    };
    cursor.matches(query, tree.root_node(), src.as_bytes()).map(
        |m| RawMatch { captures: m.captures.iter().map(conv).collect() },
    ).collect()
}

/// Parses `text` with the grammar of the named dialect: a tree for each of
/// the three supported dialects, `None` for any other name.
pub fn get_tree(parser_lang: &str, text: &[u8]) -> (r: Option<tree_sitter::Tree>)
    ensures
        !dialect_supported(parser_lang@) ==> r is None,
        dialect_supported(parser_lang@) ==> r is Some,
        parser_lang@ == "markdown"@ ==> dialect_tree(r.unwrap(), "markdown"@, text@),
        parser_lang@ == "org"@ ==> dialect_tree(r.unwrap(), "org"@, text@),
        parser_lang@ == "restructuredtext"@ ==> dialect_tree(
            r.unwrap(),
            "restructuredtext"@,
            text@,
        ),
{
    let mut parser = if str_eq(parser_lang, "markdown") {
        md_parser()
    } else if str_eq(parser_lang, "org") {
        org_parser()
    } else if str_eq(parser_lang, "restructuredtext") {
        rst_parser()
    } else {
        return None;
    };
    match ts_parse(&mut parser, text) {
        Some(tree) => Some(tree),
        None => {
            proof {
                assert(false);
            }
            None
        },
    }
}

/// The compiled structural query of the named dialect: one for each of the
/// three supported dialects, `None` for any other name.
pub fn get_query(parser_lang: &str) -> (r: Option<tree_sitter::Query>)
    ensures
        !dialect_supported(parser_lang@) ==> r is None,
        dialect_supported(parser_lang@) ==> r is Some,
        parser_lang@ == "markdown"@ ==> dialect_query(r.unwrap(), "markdown"@),
        parser_lang@ == "org"@ ==> dialect_query(r.unwrap(), "org"@),
        parser_lang@ == "restructuredtext"@ ==> dialect_query(r.unwrap(), "restructuredtext"@),
{
    if str_eq(parser_lang, "markdown") {
        Some(md_query_new(md_query_source()))
    } else if str_eq(parser_lang, "org") {
        Some(org_query_new(org_query_source()))
    } else if str_eq(parser_lang, "restructuredtext") {
        Some(rst_query_new(rst_query_source()))
    } else {
        None
    }
}

/// Case-insensitive match of an ASCII character: `a` equals the pattern
/// character `p` directly, or `p` is a lower-case ASCII letter and `a` its
/// upper-case form.
pub open spec fn eq_ci(a: char, p: char) -> bool {
    a == p || (97 <= p as u32 && p as u32 <= 122 && (a as u32) + 32 == (p as u32))
}

/// Whether `s` ends with the lower-case ASCII pattern `pat`, matched
/// case-insensitively.
pub open spec fn suffix_ci(s: Seq<char>, pat: Seq<char>) -> bool {
    s.len() >= pat.len() && forall|k: int|
        0 <= k < pat.len() ==> eq_ci(s[s.len() - pat.len() + k], pat[k])
}

/// Whether `s` ends with `pat`, matched case-insensitively; `pat` is a
/// lower-case ASCII pattern.
pub fn ends_with_ci(s: &str, pat: &str) -> (b: bool)
    ensures
        b == suffix_ci(s@, pat@),
{
    let sv = crate::utils::str_chars(s);
    let pv = crate::utils::str_chars(pat);
    if sv.len() < pv.len() {
        return false;
    }
    let off = sv.len() - pv.len();
    let mut k: usize = 0;
    while k < pv.len()
        invariant
            0 <= k <= pv@.len(),
            pv@.len() <= sv@.len(),
            off == sv@.len() - pv@.len(),
            sv@.len() <= usize::MAX,
            sv@ == s@,
            pv@ == pat@,
            forall|j: int| 0 <= j < k ==> eq_ci(s@[s@.len() - pat@.len() + j], pat@[j]),
        decreases pv@.len() - k,
    {
        proof {
            assert(off + k < sv@.len());
        }
        let a = sv[off + k];
        let p = pv[k];
        let pu = p as u32;
        if !(a == p || (97 <= pu && pu <= 122 && (a as u32) == pu - 32)) {
            return false;
        }
        k += 1;
    }
    true
}

/// The dialect name a file name implies, if any: `.md`, `.org` and `.rst`
/// endings, matched case-insensitively, name markdown, org and
/// restructuredtext.
pub open spec fn lang_of_filename(f: Seq<char>) -> Option<Seq<char>> {
    if suffix_ci(f, ".md"@) {
        Some("markdown"@)
    } else if suffix_ci(f, ".org"@) {
        Some("org"@)
    } else if suffix_ci(f, ".rst"@) {
        Some("restructuredtext"@)
    } else {
        None
    }
}

/// The dialect a file name implies: `.md`, `.org` and `.rst` endings,
/// matched case-insensitively, name markdown, org and restructuredtext.
pub fn get_parser_lang_from_filename(filename: &str) -> (r: Option<&str>)
    ensures
        (r is Some) == (lang_of_filename(filename@) is Some),
        r is Some ==> r.unwrap()@ == lang_of_filename(filename@).unwrap(),
{
    if ends_with_ci(filename, ".md") {
        return Some("markdown");
    }
    if ends_with_ci(filename, ".org") {
        return Some("org");
    }
    if ends_with_ci(filename, ".rst") {
        return Some("restructuredtext");
    }
    None
}

/// A node's position in the source, in bytes and in rows and columns.
pub struct SrcRange {
    pub start_byte: usize,
    pub end_byte: usize,
    pub start_row: usize,
    pub start_column: usize,
    pub end_row: usize,
    pub end_column: usize,
}

/// One argument of a query directive: literal text, or a capture id.
pub enum DirectiveArg {
    Text(String),
    Capture(u32),
}

/// The numeral an argument carries, if it is text holding one.
pub open spec fn arg_num(a: DirectiveArg) -> Option<usize> {
    match a {
        DirectiveArg::Text(t) => parse_usize_spec(t@),
        DirectiveArg::Capture(_) => None,
    }
}

/// Applies a query directive to a captured node's range. Only `offset!` is
/// known: its four numeric arguments shift the start and end positions;
/// arguments past the fourth are ignored.
pub fn handle_directive(directive: &str, range: &SrcRange, args: &Vec<DirectiveArg>) -> (r: Option<
    SrcRange,
>)
    requires
        directive@ == "offset!"@ ==> args@.len() >= 5 && (forall|k: int|
            1 <= k < 5 ==> arg_num(#[trigger] args@[k]) is Some) && range.start_row + arg_num(
            args@[1],
        ).unwrap() <= usize::MAX && range.start_column + arg_num(args@[2]).unwrap() <= usize::MAX
            && range.end_row + arg_num(args@[3]).unwrap() <= usize::MAX && range.end_column
            + arg_num(args@[4]).unwrap() <= usize::MAX,
    ensures
        directive@ != "offset!"@ ==> r is None,
        directive@ == "offset!"@ ==> r is Some && {
            let out = r.unwrap();
            &&& out.start_byte == range.start_byte
            &&& out.end_byte == range.end_byte
            &&& out.start_row == range.start_row + arg_num(args@[1]).unwrap()
            &&& out.start_column == range.start_column + arg_num(args@[2]).unwrap()
            &&& out.end_row == range.end_row + arg_num(args@[3]).unwrap()
            &&& out.end_column == range.end_column + arg_num(args@[4]).unwrap()
        },
{
    if !str_eq(directive, "offset!") {
        return None;
    }
    let start_row_offset = directive_num(args, 1);
    let start_col_offset = directive_num(args, 2);
    let end_row_offset = directive_num(args, 3);
    let end_col_offset = directive_num(args, 4);
    Some(
        SrcRange {
            start_byte: range.start_byte,
            end_byte: range.end_byte,
            start_row: range.start_row + start_row_offset,
            start_column: range.start_column + start_col_offset,
            end_row: range.end_row + end_row_offset,
            end_column: range.end_column + end_col_offset,
        },
    )
}

/// The numeral carried by the directive argument at `k`.
fn directive_num(args: &Vec<DirectiveArg>, k: usize) -> (n: usize)
    requires
        k < args@.len(),
        arg_num(args@[k as int]) is Some,
    ensures
        n == arg_num(args@[k as int]).unwrap(),
{
    match &args[k] {
        DirectiveArg::Text(t) => {
            match parse_usize(t.as_str()) {
                Some(v) => v,
                None => {
                    proof {
                        assert(false);
                    }
                    0
                },
            }
        },
        DirectiveArg::Capture(_) => {
            proof {
                assert(false);
            }
            0
        },
    }
}

} // verus!
