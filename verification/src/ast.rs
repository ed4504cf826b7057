//! Flattened view of a parsed syntax tree.
//!
//! Parsing is done by the tree-sitter grammars; everything this crate reads
//! from a parse tree is brought into `AstNode` records, plain values over
//! which the chunk extraction is verified. Nodes come in depth-first
//! pre-order, the order in which chunks are to be emitted. Parsing is a
//! function of the content alone, so each grammar's flattened node list is
//! a named result (`rust_nodes_of` and its siblings) that ties the chunker's
//! output to its inputs.

use vstd::prelude::*;

use crate::language::Language;

verus! {

/// One node of a parse tree: its grammar kind, its byte span in the source,
/// and the byte span of the child labeled "name", if the grammar gives the
/// node one.
pub struct AstNode {
    pub kind: String,
    pub start_byte: usize,
    pub end_byte: usize,
    pub name_span: Option<(usize, usize)>,
}

impl AstNode {
    /// Byte spans a parser hands out are ordered.
    pub open spec fn wf(&self) -> bool {
        self.start_byte <= self.end_byte && match self.name_span {
            Some(sp) => sp.0 <= sp.1,
            None => true,
        }
    }
}

/// What parsing `content` with the Rust grammar yields: the pre-order node
/// records of the tree, or `None` when the parser yields none.
pub uninterp spec fn rust_nodes_of(content: Seq<u8>) -> Option<Seq<AstNode>>;

/// The same, for the Python grammar.
pub uninterp spec fn python_nodes_of(content: Seq<u8>) -> Option<Seq<AstNode>>;

/// The same, for the JavaScript grammar.
pub uninterp spec fn javascript_nodes_of(content: Seq<u8>) -> Option<Seq<AstNode>>;

/// The same, for the TypeScript grammar.
pub uninterp spec fn typescript_nodes_of(content: Seq<u8>) -> Option<Seq<AstNode>>;

/// The same, for the Go grammar.
pub uninterp spec fn go_nodes_of(content: Seq<u8>) -> Option<Seq<AstNode>>;

#[verifier::external_type_specification]
#[verifier::external_body]
pub struct ExTree(tree_sitter::Tree);

/// Copy each node of the opaque tree — via tree_sitter::Node's kind,
/// start_byte, end_byte, child_by_field_name and children — into a plain
/// record, in depth-first pre-order.
#[verifier::external_body]
fn flatten_tree(tree: &tree_sitter::Tree) -> Vec<AstNode> {
    let (mut out, mut stack) = (Vec::new(), vec![tree.root_node()]);
    while let Some(n) = stack.pop() {
        let name_span = n.child_by_field_name("name").map(|c| (c.start_byte(), c.end_byte()));
        let (kind, start_byte, end_byte) = (n.kind().to_string(), n.start_byte(), n.end_byte());
        out.push(AstNode { kind, start_byte, end_byte, name_span });
        let mut cur = n.walk();
        for c in n.children(&mut cur).collect::<Vec<_>>().into_iter().rev() {
            stack.push(c);
        }
    }
    out
}

/// Relies on tree_sitter::Parser with the Rust grammar, flattened through
/// `flatten_tree`: parsing depends on the content alone, so the result is
/// the named `rust_nodes_of`; per the parser's node interface every span it
/// reports is ordered. Contents beyond tree-sitter's 32-bit byte offsets
/// are left out by the `requires`.
#[verifier::external_body]
fn parse_rust(content: &[u8]) -> (res: Option<Vec<AstNode>>)
    requires
        content@.len() <= u32::MAX,
    ensures
        match res {
            Some(nodes) => rust_nodes_of(content@) == Some(nodes@) && forall|i: int|
                0 <= i < nodes@.len() ==> (#[trigger] nodes@[i]).wf(),
            None => rust_nodes_of(content@) is None,
        },
{
    let mut parser = tree_sitter::Parser::new();
    parser.set_language(&tree_sitter_rust::LANGUAGE.into()).ok()?;
    Some(flatten_tree(&parser.parse(content, None)?))
}

/// Relies on tree_sitter::Parser with the Python grammar; as `parse_rust`.
#[verifier::external_body]
fn parse_python(content: &[u8]) -> (res: Option<Vec<AstNode>>)
    requires
        content@.len() <= u32::MAX,
    ensures
        match res {
            Some(nodes) => python_nodes_of(content@) == Some(nodes@) && forall|i: int|
                0 <= i < nodes@.len() ==> (#[trigger] nodes@[i]).wf(),
            None => python_nodes_of(content@) is None,
        },
{
    let mut parser = tree_sitter::Parser::new();
    parser.set_language(&tree_sitter_python::LANGUAGE.into()).ok()?;
    Some(flatten_tree(&parser.parse(content, None)?))
}

/// Relies on tree_sitter::Parser with the JavaScript grammar; as
/// `parse_rust`.
#[verifier::external_body]
fn parse_javascript(content: &[u8]) -> (res: Option<Vec<AstNode>>)
    requires
        content@.len() <= u32::MAX,
    ensures
        match res {
            Some(nodes) => javascript_nodes_of(content@) == Some(nodes@) && forall|i: int|
                0 <= i < nodes@.len() ==> (#[trigger] nodes@[i]).wf(),
            None => javascript_nodes_of(content@) is None,
        },
{
    let mut parser = tree_sitter::Parser::new();
    parser.set_language(&tree_sitter_javascript::LANGUAGE.into()).ok()?;
    Some(flatten_tree(&parser.parse(content, None)?))
}

/// Relies on tree_sitter::Parser with the TypeScript grammar; as
/// `parse_rust`.
#[verifier::external_body]
fn parse_typescript(content: &[u8]) -> (res: Option<Vec<AstNode>>)
    requires
        content@.len() <= u32::MAX,
    ensures
        match res {
            Some(nodes) => typescript_nodes_of(content@) == Some(nodes@) && forall|i: int|
                0 <= i < nodes@.len() ==> (#[trigger] nodes@[i]).wf(),
            None => typescript_nodes_of(content@) is None,
        },
{
    let mut parser = tree_sitter::Parser::new();
    parser.set_language(&tree_sitter_typescript::LANGUAGE_TYPESCRIPT.into()).ok()?;
    Some(flatten_tree(&parser.parse(content, None)?))
}

/// Relies on tree_sitter::Parser with the Go grammar; as `parse_rust`.
#[verifier::external_body]
fn parse_go(content: &[u8]) -> (res: Option<Vec<AstNode>>)
    requires
        content@.len() <= u32::MAX,
    ensures
        match res {
            Some(nodes) => go_nodes_of(content@) == Some(nodes@) && forall|i: int|
                0 <= i < nodes@.len() ==> (#[trigger] nodes@[i]).wf(),
            None => go_nodes_of(content@) is None,
        },
{
    let mut parser = tree_sitter::Parser::new();
    parser.set_language(&tree_sitter_go::LANGUAGE.into()).ok()?;
    Some(flatten_tree(&parser.parse(content, None)?))
}

/// The node list parsing yields for a language and content: the named
/// result of that language's grammar; `None` for the unknown language, for
/// contents beyond tree-sitter's 32-bit byte offsets, and when the parser
/// yields no tree.
pub open spec fn spec_parse_nodes(language: Language, content: Seq<u8>) -> Option<Seq<AstNode>> {
    if content.len() > u32::MAX {
        None
    } else {
        match language {
            Language::Rust => rust_nodes_of(content),
            Language::Python => python_nodes_of(content),
            Language::JavaScript => javascript_nodes_of(content),
            Language::TypeScript => typescript_nodes_of(content),
            Language::Go => go_nodes_of(content),
            Language::Unknown => None,
        }
    }
}

/// Parse `content` with the grammar of `language`, flattened to pre-order
/// node records: exactly `spec_parse_nodes`, so equal inputs yield equal
/// node lists.
pub fn parse_nodes(language: Language, content: &[u8]) -> (res: Option<Vec<AstNode>>)
    ensures
        match res {
            Some(nodes) => spec_parse_nodes(language, content@) == Some(nodes@) && forall|i: int|
                0 <= i < nodes@.len() ==> (#[trigger] nodes@[i]).wf(),
            None => spec_parse_nodes(language, content@) is None,
        },
{
    if content.len() > u32::MAX as usize {
        return None;
    }
    match language {
        Language::Rust => parse_rust(content),
        Language::Python => parse_python(content),
        Language::JavaScript => parse_javascript(content),
        Language::TypeScript => parse_typescript(content),
        Language::Go => parse_go(content),
        Language::Unknown => None,
    }
}

} // verus!
