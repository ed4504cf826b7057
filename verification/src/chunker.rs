//! Semantic code chunker.
//!
//! A source file is cut into chunks along its syntax: one chunk per
//! function, class, method, struct, impl or module node of the parse tree,
//! each carrying the node's exact byte span of the source. Files whose
//! language is unknown, or whose parse yields nothing, fall back to a
//! sliding byte window with configurable size and overlap. Every chunk's
//! content equals the source bytes of its span, and its line numbers count
//! the newlines before the span.

use vstd::prelude::*;

use crate::ast::{parse_nodes, spec_parse_nodes, AstNode};
use crate::language::{spec_from_path, Language};
use crate::text::{count_newlines, digits_u64, spec_digits, spec_newlines};

verus! {

use vstd::slice::{slice_subrange, slice_to_vec};
use vstd::string::StringExecFns;

/// One whole unit of overlap ratio, in millionths.
pub const RATIO_SCALE: u64 = 1_000_000;

/// Largest accepted window size, in bytes.
pub const MAX_WINDOW: usize = 1_000_000_000;

/// Smallest content, in bytes, that a syntax-derived chunk may have;
/// anything shorter is dropped.
pub const MIN_SYNTAX_CHUNK: usize = 50;

/// What kind of source construct a chunk covers. `Block` marks a chunk cut
/// by the sliding window rather than the syntax tree.
#[derive(Debug, Clone, Copy, PartialEq, Eq, Structural)]
pub enum ChunkType {
    Function,
    Class,
    Method,
    Struct,
    Impl,
    Module,
    Block,
}

/// What `ChunkType::name` returns for each kind.
pub open spec fn spec_type_name(t: ChunkType) -> Seq<char> {
    match t {
        ChunkType::Function => "function"@,
        ChunkType::Class => "class"@,
        ChunkType::Method => "method"@,
        ChunkType::Struct => "struct"@,
        ChunkType::Impl => "impl"@,
        ChunkType::Module => "module"@,
        ChunkType::Block => "block"@,
    }
}

/// The chunk type's name as single bytes (every name is plain ASCII).
pub open spec fn spec_type_name_bytes(t: ChunkType) -> Seq<u8> {
    spec_type_name(t).map_values(|c: char| c as u8)
}

impl ChunkType {
    /// The chunk type's lower-case name.
    pub fn name(&self) -> (res: &'static str)
        ensures
            res@ == spec_type_name(*self),
    {
        match self {
            ChunkType::Function => "function",
            ChunkType::Class => "class",
            ChunkType::Method => "method",
            ChunkType::Struct => "struct",
            ChunkType::Impl => "impl",
            ChunkType::Module => "module",
            ChunkType::Block => "block",
        }
    }

    /// The chunk type a persisted lower-case name selects.
    pub fn from_label(label: &str) -> (res: ChunkType)
        ensures
            res == spec_type_from_label(label@),
    {
        let owned = label.to_owned();
        if owned == String::from_str("function") {
            ChunkType::Function
        } else if owned == String::from_str("class") {
            ChunkType::Class
        } else if owned == String::from_str("method") {
            ChunkType::Method
        } else if owned == String::from_str("struct") {
            ChunkType::Struct
        } else if owned == String::from_str("impl") {
            ChunkType::Impl
        } else if owned == String::from_str("module") {
            ChunkType::Module
        } else {
            ChunkType::Block
        }
    }

    /// The chunk type's lower-case name as bytes.
    pub fn name_bytes(&self) -> (res: Vec<u8>)
        ensures
            res@ == spec_type_name_bytes(*self),
    {
        let s = self.name();
        proof {
            lemma_type_names_ascii(*self);
        }
        crate::language::ascii_str_bytes(s)
    }
}

/// The chunk type a lower-case name selects: the inverse of
/// `spec_type_name`; an unrecognized name reads as `Block`.
pub open spec fn spec_type_from_label(s: Seq<char>) -> ChunkType {
    if s == "function"@ {
        ChunkType::Function
    } else if s == "class"@ {
        ChunkType::Class
    } else if s == "method"@ {
        ChunkType::Method
    } else if s == "struct"@ {
        ChunkType::Struct
    } else if s == "impl"@ {
        ChunkType::Impl
    } else if s == "module"@ {
        ChunkType::Module
    } else {
        ChunkType::Block
    }
}

/// Reading a chunk type's name back yields the chunk type.
pub proof fn lemma_type_label_round_trip(t: ChunkType)
    ensures
        spec_type_from_label(spec_type_name(t)) == t,
{
    reveal_strlit("function");
    reveal_strlit("class");
    reveal_strlit("method");
    reveal_strlit("struct");
    reveal_strlit("impl");
    reveal_strlit("module");
    reveal_strlit("block");
    // the names differ pairwise in their first two characters
    assert("function"@[0] == 'f');
    assert("class"@[0] == 'c');
    assert("method"@[0] == 'm');
    assert("struct"@[0] == 's');
    assert("impl"@[0] == 'i');
    assert("module"@[0] == 'm');
    assert("block"@[0] == 'b');
    assert("method"@[1] == 'e');
    assert("module"@[1] == 'o');
}

/// Every chunk type name consists of ASCII characters only.
proof fn lemma_type_names_ascii(t: ChunkType)
    ensures
        forall|i: int| 0 <= i < spec_type_name(t).len() ==> (spec_type_name(t)[i] as u32) < 128,
{
    reveal_strlit("function");
    reveal_strlit("class");
    reveal_strlit("method");
    reveal_strlit("struct");
    reveal_strlit("impl");
    reveal_strlit("module");
    reveal_strlit("block");
}

/// A semantic chunk of code extracted from a file. Content is kept as
/// bytes, exactly the source bytes `[start_byte, end_byte)`.
#[derive(Debug)]
pub struct CodeChunk {
    pub file_path: String,
    pub language: Language,
    pub chunk_type: ChunkType,
    pub name: Option<Vec<u8>>,
    pub start_byte: usize,
    pub end_byte: usize,
    pub start_line: usize,
    pub end_line: usize,
    pub content: Vec<u8>,
}

/// Copy a byte vector, keeping its exact contents.
pub(crate) fn clone_bytes(v: &Vec<u8>) -> (res: Vec<u8>)
    ensures
        res@ == v@,
{
    vstd::slice::slice_to_vec(v.as_slice())
}

impl Clone for CodeChunk {
    fn clone(&self) -> (res: Self)
        ensures
            res.file_path == self.file_path,
            res.language == self.language,
            res.chunk_type == self.chunk_type,
            res.start_byte == self.start_byte,
            res.end_byte == self.end_byte,
            res.start_line == self.start_line,
            res.end_line == self.end_line,
            res.content@ == self.content@,
            res.name is Some <==> self.name is Some,
            res.name is Some ==> res.name.unwrap()@ == self.name.unwrap()@,
    {
        let name = match &self.name {
            None => None,
            Some(n) => Some(clone_bytes(n)),
        };
        CodeChunk {
            file_path: self.file_path.clone(),
            language: self.language,
            chunk_type: self.chunk_type,
            name,
            start_byte: self.start_byte,
            end_byte: self.end_byte,
            start_line: self.start_line,
            end_line: self.end_line,
            content: clone_bytes(&self.content),
        }
    }
}

/// A chunk is faithful to its file: its span lies within the content, its
/// content equals the source bytes of the span, its 1-indexed line numbers
/// count the newlines before each end of the span, and a chunk cut along
/// the syntax carries at least `MIN_SYNTAX_CHUNK` bytes.
pub open spec fn chunk_wf(c: CodeChunk, path: Seq<char>, content: Seq<u8>) -> bool {
    &&& c.file_path@ == path
    &&& c.start_byte <= c.end_byte <= content.len()
    &&& c.content@ == content.subrange(c.start_byte as int, c.end_byte as int)
    &&& c.start_line == spec_newlines(content, c.start_byte as int) + 1
    &&& c.end_line == spec_newlines(content, c.end_byte as int) + 1
    &&& (c.chunk_type != ChunkType::Block ==> c.content@.len() >= MIN_SYNTAX_CHUNK)
}

/// The node-kind table: which grammar node kinds yield a chunk, and of
/// which type, for each language.
pub open spec fn spec_kind_table(lang: Language, kind: Seq<char>) -> Option<ChunkType> {
    match lang {
        Language::Rust => if kind == "function_item"@ {
            Some(ChunkType::Function)
        } else if kind == "impl_item"@ {
            Some(ChunkType::Impl)
        } else if kind == "struct_item"@ {
            Some(ChunkType::Struct)
        } else if kind == "mod_item"@ {
            Some(ChunkType::Module)
        } else {
            None
        },
        Language::Python => if kind == "function_definition"@ {
            Some(ChunkType::Function)
        } else if kind == "class_definition"@ {
            Some(ChunkType::Class)
        } else {
            None
        },
        Language::JavaScript | Language::TypeScript => if kind == "function_declaration"@ || kind
            == "arrow_function"@ || kind == "function"@ {
            Some(ChunkType::Function)
        } else if kind == "class_declaration"@ {
            Some(ChunkType::Class)
        } else if kind == "method_definition"@ {
            Some(ChunkType::Method)
        } else {
            None
        },
        Language::Go => if kind == "function_declaration"@ || kind == "method_declaration"@ {
            Some(ChunkType::Function)
        } else if kind == "type_declaration"@ {
            Some(ChunkType::Struct)
        } else {
            None
        },
        Language::Unknown => None,
    }
}

/// Map a grammar node kind to the chunk type it yields, per the table.
fn node_to_chunk_type(kind: &String, language: Language) -> (res: Option<ChunkType>)
    ensures
        res == spec_kind_table(language, kind@),
{
    match language {
        Language::Rust => {
            if *kind == "function_item".to_owned() {
                Some(ChunkType::Function)
            } else if *kind == "impl_item".to_owned() {
                Some(ChunkType::Impl)
            } else if *kind == "struct_item".to_owned() {
                Some(ChunkType::Struct)
            } else if *kind == "mod_item".to_owned() {
                Some(ChunkType::Module)
            } else {
                None
            }
        },
        Language::Python => {
            if *kind == "function_definition".to_owned() {
                Some(ChunkType::Function)
            } else if *kind == "class_definition".to_owned() {
                Some(ChunkType::Class)
            } else {
                None
            }
        },
        Language::JavaScript | Language::TypeScript => {
            if *kind == "function_declaration".to_owned() || *kind == "arrow_function".to_owned()
                || *kind == "function".to_owned() {
                Some(ChunkType::Function)
            } else if *kind == "class_declaration".to_owned() {
                Some(ChunkType::Class)
            } else if *kind == "method_definition".to_owned() {
                Some(ChunkType::Method)
            } else {
                None
            }
        },
        Language::Go => {
            if *kind == "function_declaration".to_owned() || *kind
                == "method_declaration".to_owned() {
                Some(ChunkType::Function)
            } else if *kind == "type_declaration".to_owned() {
                Some(ChunkType::Struct)
            } else {
                None
            }
        },
        Language::Unknown => None,
    }
}

/// The kind table never yields a `Block`: block chunks come only from the
/// sliding window.
pub proof fn lemma_kind_table_no_block(lang: Language, kind: Seq<char>)
    ensures
        spec_kind_table(lang, kind) != Some(ChunkType::Block),
{
}

/// Whether node `n` yields a chunk: its kind is in the table, its span lies
/// within the content and covers at least `MIN_SYNTAX_CHUNK` bytes.
pub open spec fn node_emits(n: AstNode, content: Seq<u8>, lang: Language) -> bool {
    &&& spec_kind_table(lang, n.kind@) is Some
    &&& n.start_byte <= n.end_byte <= content.len()
    &&& n.end_byte - n.start_byte >= MIN_SYNTAX_CHUNK
}

/// The name a chunk takes from node `n`: the source bytes of the node's
/// name span, when the grammar gives it one that lies within the content.
pub open spec fn name_matches_node(name: Option<Vec<u8>>, n: AstNode, content: Seq<u8>) -> bool {
    match n.name_span {
        Some(sp) => if sp.0 <= sp.1 <= content.len() {
            name is Some && name.unwrap()@ == content.subrange(sp.0 as int, sp.1 as int)
        } else {
            name is None
        },
        None => name is None,
    }
}

/// The chunk that node `n` yields.
pub open spec fn chunk_matches_node(
    c: CodeChunk,
    n: AstNode,
    path: Seq<char>,
    content: Seq<u8>,
    lang: Language,
) -> bool {
    &&& chunk_wf(c, path, content)
    &&& c.language == lang
    &&& spec_kind_table(lang, n.kind@) == Some(c.chunk_type)
    &&& c.start_byte == n.start_byte
    &&& c.end_byte == n.end_byte
    &&& name_matches_node(c.name, n, content)
}

/// How many of the first `upto` nodes yield a chunk.
pub open spec fn spec_emit_count(
    nodes: Seq<AstNode>,
    content: Seq<u8>,
    lang: Language,
    upto: int,
) -> int
    decreases upto,
{
    if upto <= 0 {
        0
    } else {
        spec_emit_count(nodes, content, lang, upto - 1) + if 0 <= upto - 1 < nodes.len()
            && node_emits(nodes[upto - 1], content, lang) {
            1int
        } else {
            0int
        }
    }
}

/// What extraction yields from a node list: one chunk per emitting node, in
/// node order, the chunk of the `j`-th emitting node standing at position
/// `spec_emit_count(.., j)`.
pub open spec fn extraction_result(
    res: Seq<CodeChunk>,
    nodes: Seq<AstNode>,
    path: Seq<char>,
    content: Seq<u8>,
    lang: Language,
) -> bool {
    &&& res.len() == spec_emit_count(nodes, content, lang, nodes.len() as int)
    &&& forall|j: int|
        0 <= j < nodes.len() && node_emits(#[trigger] nodes[j], content, lang)
            ==> chunk_matches_node(
            res[spec_emit_count(nodes, content, lang, j)],
            nodes[j],
            path,
            content,
            lang,
        )
}

/// Emit counts lie between zero and the number of nodes seen.
proof fn lemma_emit_count_bounds(nodes: Seq<AstNode>, content: Seq<u8>, lang: Language, upto: int)
    ensures
        0 <= spec_emit_count(nodes, content, lang, upto) <= (if upto >= 0 {
            upto
        } else {
            0
        }),
    decreases (if upto >= 0 { upto } else { 0 }),
{
    if upto > 0 {
        lemma_emit_count_bounds(nodes, content, lang, upto - 1);
    }
}

/// Emit counts never decrease along the node list.
proof fn lemma_emit_count_mono(nodes: Seq<AstNode>, content: Seq<u8>, lang: Language, a: int, b: int)
    requires
        a <= b,
    ensures
        spec_emit_count(nodes, content, lang, a) <= spec_emit_count(nodes, content, lang, b),
    decreases b - a,
{
    if a < b {
        lemma_emit_count_mono(nodes, content, lang, a, b - 1);
    }
}

/// Extract one chunk per emitting node, in node order: the chunk of the
/// `j`-th emitting node stands at output position `spec_emit_count(.., j)`.
#[verifier::rlimit(50)]
pub fn extract_chunks(
    nodes: &Vec<AstNode>,
    file_path: &String,
    content: &[u8],
    language: Language,
) -> (res: Vec<CodeChunk>)
    requires
        content@.len() < usize::MAX,
    ensures
        extraction_result(res@, nodes@, file_path@, content@, language),
        forall|i: int|
            0 <= i < res@.len() ==> chunk_wf(#[trigger] res@[i], file_path@, content@)
                && res@[i].chunk_type != ChunkType::Block && res@[i].language == language,
{
    let n = nodes.len();
    let mut res: Vec<CodeChunk> = Vec::new();
    let mut i: usize = 0;
    while i < n
        invariant
            i <= n,
            n == nodes@.len(),
            content@.len() < usize::MAX,
            res@.len() == spec_emit_count(nodes@, content@, language, i as int),
            forall|j: int|
                0 <= j < i && node_emits(#[trigger] nodes@[j], content@, language)
                    ==> chunk_matches_node(
                    res@[spec_emit_count(nodes@, content@, language, j)],
                    nodes@[j],
                    file_path@,
                    content@,
                    language,
                ),
            forall|x: int|
                0 <= x < res@.len() ==> chunk_wf(#[trigger] res@[x], file_path@, content@)
                    && res@[x].chunk_type != ChunkType::Block && res@[x].language == language,
        decreases n - i,
    {
        proof {
            lemma_emit_count_bounds(nodes@, content@, language, i as int);
        }
        let node = &nodes[i];
        let kind_type = node_to_chunk_type(&node.kind, language);
        match kind_type {
            Some(ct) => {
                let emit = node.start_byte <= node.end_byte && node.end_byte <= content.len()
                    && node.end_byte - node.start_byte >= MIN_SYNTAX_CHUNK;
                if emit {
                    let ghost prev = res@;
                    let name: Option<Vec<u8>> = match node.name_span {
                        Some((a, b)) => {
                            if a <= b && b <= content.len() {
                                Some(slice_to_vec(slice_subrange(content, a, b)))
                            } else {
                                None
                            }
                        },
                        None => None,
                    };
                    let body = slice_to_vec(slice_subrange(content, node.start_byte, node.end_byte));
                    proof {
                        crate::text::lemma_newlines_bounds(content@, node.start_byte as int);
                        crate::text::lemma_newlines_bounds(content@, node.end_byte as int);
                        lemma_kind_table_no_block(language, node.kind@);
                    }
                    let start_line = count_newlines(content, node.start_byte) + 1;
                    let end_line = count_newlines(content, node.end_byte) + 1;
                    let chunk = CodeChunk {
                        file_path: file_path.clone(),
                        language,
                        chunk_type: ct,
                        name,
                        start_byte: node.start_byte,
                        end_byte: node.end_byte,
                        start_line,
                        end_line,
                        content: body,
                    };
                    res.push(chunk);
                    proof {
                        assert(res@[prev.len() as int] == chunk);
                        assert(chunk_matches_node(
                            chunk,
                            nodes@[i as int],
                            file_path@,
                            content@,
                            language,
                        ));
                        assert forall|j: int|
                            0 <= j < i + 1 && node_emits(
                                #[trigger] nodes@[j],
                                content@,
                                language,
                            ) implies chunk_matches_node(
                            res@[spec_emit_count(nodes@, content@, language, j)],
                            nodes@[j],
                            file_path@,
                            content@,
                            language,
                        ) by {
                            lemma_emit_count_bounds(nodes@, content@, language, j);
                            if j < i {
                                lemma_emit_count_mono(nodes@, content@, language, j + 1, i as int);
                                assert(res@[spec_emit_count(nodes@, content@, language, j)]
                                    == prev[spec_emit_count(nodes@, content@, language, j)]);
                            }
                        }
                    }
                }
            },
            None => {},
        }
        i = i + 1;
    }
    res
}

/// The byte windows the sliding fallback cuts: each starts `step` after the
/// one before and spans at most `max` bytes; cutting stops early when the
/// remainder falls under a quarter window.
pub open spec fn spec_windows(len: int, max: int, step: int, start: int) -> Seq<(int, int)>
    decreases len - start,
{
    if start >= len || step <= 0 || max <= 0 {
        Seq::empty()
    } else {
        let end = if start + max <= len {
            start + max
        } else {
            len
        };
        let next = start + step;
        if len - next < max / 4 {
            seq![(start, end)]
        } else {
            seq![(start, end)] + spec_windows(len, max, step, next)
        }
    }
}

/// The name of the `i`-th window chunk: `block_` and the index in decimal.
pub open spec fn spec_block_name(i: int) -> Seq<u8> {
    seq!['b' as u8, 'l' as u8, 'o' as u8, 'c' as u8, 'k' as u8, '_' as u8] + spec_digits(i)
}

/// The chunk the `i`-th window yields.
pub open spec fn chunk_matches_window(
    c: CodeChunk,
    w: (int, int),
    i: int,
    path: Seq<char>,
    content: Seq<u8>,
    lang: Language,
) -> bool {
    &&& chunk_wf(c, path, content)
    &&& c.language == lang
    &&& c.chunk_type == ChunkType::Block
    &&& c.start_byte == w.0
    &&& c.end_byte == w.1
    &&& c.name is Some && c.name.unwrap()@ == spec_block_name(i)
}

/// A window list never outgrows the bytes it covers.
proof fn lemma_windows_len(len: int, max: int, step: int, start: int)
    ensures
        spec_windows(len, max, step, start).len() <= (if len - start >= 0 {
            len - start
        } else {
            0
        }),
    decreases len - start,
{
    if start < len && step > 0 && max > 0 {
        let next = start + step;
        if !(len - next < max / 4) {
            lemma_windows_len(len, max, step, next);
        }
    }
}

/// Main chunker that cuts files into semantic units.
pub struct Chunker {
    max_chunk_size: usize,
    overlap_ppm: u64,
}

impl Chunker {
    /// The window can hold at least one byte, stays within range, and the
    /// overlap ratio is below one.
    pub closed spec fn wf(&self) -> bool {
        1 <= self.max_chunk_size <= MAX_WINDOW && self.overlap_ppm < RATIO_SCALE
    }

    /// The window size, in bytes.
    pub closed spec fn spec_max_chunk_size(&self) -> int {
        self.max_chunk_size as int
    }

    /// The overlap between consecutive windows, in bytes.
    pub closed spec fn spec_overlap(&self) -> int {
        self.spec_max_chunk_size() * (self.overlap_ppm as int) / (RATIO_SCALE as int)
    }

    /// How far consecutive windows lie apart.
    pub open spec fn spec_step(&self) -> int {
        self.spec_max_chunk_size() - self.spec_overlap()
    }

    /// A chunker cutting windows of `max_chunk_size` bytes that overlap by
    /// the ratio `overlap_ppm` millionths.
    pub fn new(max_chunk_size: usize, overlap_ppm: u64) -> (res: Chunker)
        requires
            1 <= max_chunk_size <= MAX_WINDOW,
            overlap_ppm < RATIO_SCALE,
        ensures
            res.wf(),
            res.spec_max_chunk_size() == max_chunk_size,
            res.spec_overlap() == max_chunk_size * (overlap_ppm as int) / (RATIO_SCALE as int),
    {
        Chunker { max_chunk_size, overlap_ppm }
    }
}

impl Default for Chunker {
    /// Windows of 2000 bytes with a twenty percent overlap.
    fn default() -> (res: Self)
        ensures
            res.wf(),
            res.spec_max_chunk_size() == 2000,
            res.spec_step() == 1600,
    {
        let res = Chunker { max_chunk_size: 2000, overlap_ppm: 200_000 };
        proof {
            assert(res.spec_overlap() == 400);
        }
        res
    }
}

/// Everything the sliding fallback promises: one chunk per window, in
/// order, each a block chunk named `block_<i>` covering exactly its window.
pub open spec fn window_result(
    res: Seq<CodeChunk>,
    path: Seq<char>,
    content: Seq<u8>,
    lang: Language,
    max: int,
    step: int,
) -> bool {
    let ws = spec_windows(content.len() as int, max, step, 0);
    &&& res.len() == ws.len()
    &&& forall|i: int|
        0 <= i < res.len() ==> chunk_matches_window(#[trigger] res[i], ws[i], i, path, content, lang)
}

impl Chunker {
    /// Cut `content` into overlapping byte windows.
    fn chunk_sliding_window(&self, file_path: &String, content: &[u8], language: Language) -> (res:
        Vec<CodeChunk>)
        requires
            self.wf(),
            content@.len() < usize::MAX,
        ensures
            window_result(
                res@,
                file_path@,
                content@,
                language,
                self.spec_max_chunk_size(),
                self.spec_step(),
            ),
            content@.len() > 0 ==> res@.len() > 0,
    {
        let len = content.len();
        let max = self.max_chunk_size;
        proof {
            assert((max as u64) * self.overlap_ppm <= 1_000_000_000u64 * 999_999u64)
                by (nonlinear_arith)
                requires
                    max as u64 <= 1_000_000_000u64,
                    self.overlap_ppm <= 999_999u64,
            ;
            let m = max as int;
            let ppm = self.overlap_ppm as int;
            let scale = RATIO_SCALE as int;
            assert(m * ppm <= m * (scale - 1)) by {
                vstd::arithmetic::mul::lemma_mul_inequality(ppm, scale - 1, m);
                vstd::arithmetic::mul::lemma_mul_is_commutative(ppm, m);
                vstd::arithmetic::mul::lemma_mul_is_commutative(scale - 1, m);
            }
            assert(m * (scale - 1) == m * scale - m) by {
                vstd::arithmetic::mul::lemma_mul_is_distributive_sub(m, scale, 1);
                vstd::arithmetic::mul::lemma_mul_basics(m);
            }
            assert(m * ppm / scale <= (m * scale - 1) / scale) by {
                vstd::arithmetic::div_mod::lemma_div_is_ordered(m * ppm, m * scale - 1, scale);
            }
            assert((m * scale - 1) / scale == m - 1) by {
                assert(m * scale - 1 == (m - 1) * scale + (scale - 1)) by {
                    vstd::arithmetic::mul::lemma_mul_is_distributive_sub_other_way(scale, m, 1);
                }
                vstd::arithmetic::div_mod::lemma_fundamental_div_mod_converse(
                    m * scale - 1,
                    scale,
                    m - 1,
                    scale - 1,
                );
            }
        }
        let prod = (max as u64) * self.overlap_ppm;
        let ov64 = prod / RATIO_SCALE;
        let overlap = ov64 as usize;
        let step = max - overlap;
        proof {
            assert(step as int == self.spec_step());
        }
        let ghost ws = spec_windows(len as int, max as int, step as int, 0);
        let mut res: Vec<CodeChunk> = Vec::new();
        if len == 0 {
            return res;
        }
        let mut start: usize = 0;
        let mut stop: bool = false;
        proof {
            assert(ws.skip(0) =~= ws);
        }
        while !stop
            invariant
                len == content@.len(),
                len < usize::MAX,
                0 < len,
                1 <= max,
                1 <= step <= max,
                ws == spec_windows(len as int, max as int, step as int, 0),
                res@.len() <= ws.len(),
                forall|i: int|
                    0 <= i < res@.len() ==> chunk_matches_window(
                        #[trigger] res@[i],
                        ws[i],
                        i,
                        file_path@,
                        content@,
                        language,
                    ),
                !stop ==> start < len && spec_windows(
                    len as int,
                    max as int,
                    step as int,
                    start as int,
                ) == ws.skip(res@.len() as int),
                stop ==> res@.len() == ws.len(),
                start <= len,
            decreases len - start,
        {
            let ghost idx = res@.len() as int;
            let ghost sw = spec_windows(len as int, max as int, step as int, start as int);
            let remaining = len - start;
            let end = if remaining > max {
                start + max
            } else {
                len
            };
            proof {
                lemma_windows_len(len as int, max as int, step as int, start as int);
                assert(sw.len() >= 1);
                assert(sw[0] == (start as int, end as int));
                assert(ws[idx] == sw[0]);
            }
            let body = slice_to_vec(slice_subrange(content, start, end));
            proof {
                crate::text::lemma_newlines_bounds(content@, start as int);
                crate::text::lemma_newlines_bounds(content@, end as int);
            }
            let start_line = count_newlines(content, start) + 1;
            let end_line = count_newlines(content, end) + 1;
            let mut nb: Vec<u8> = Vec::new();
            nb.push('b' as u8);
            nb.push('l' as u8);
            nb.push('o' as u8);
            nb.push('c' as u8);
            nb.push('k' as u8);
            nb.push('_' as u8);
            let mut ds = digits_u64(res.len() as u64);
            nb.append(&mut ds);
            proof {
                assert(nb@ =~= spec_block_name(idx));
            }
            let chunk = CodeChunk {
                file_path: file_path.clone(),
                language,
                chunk_type: ChunkType::Block,
                name: Some(nb),
                start_byte: start,
                end_byte: end,
                start_line,
                end_line,
                content: body,
            };
            let ghost prev = res@;
            res.push(chunk);
            proof {
                assert(chunk_matches_window(chunk, ws[idx], idx, file_path@, content@, language));
                assert forall|i: int|
                    0 <= i < res@.len() implies chunk_matches_window(
                    #[trigger] res@[i],
                    ws[i],
                    i,
                    file_path@,
                    content@,
                    language,
                ) by {
                    if i < idx {
                        assert(res@[i] == prev[i]);
                    }
                }
            }
            let ghost start0 = start as int;
            if step >= len - start {
                stop = true;
                start = len;
                proof {
                    let nxt = start0 + step as int;
                    if !((len as int) - nxt < (max as int) / 4) {
                        assert(spec_windows(len as int, max as int, step as int, nxt)
                            =~= Seq::<(int, int)>::empty());
                    }
                    assert(sw =~= seq![sw[0]]);
                    assert(ws.skip(idx) =~= seq![ws[idx]]);
                    assert(res@.len() == ws.len());
                }
            } else {
                let next = start + step;
                start = next;
                if len - start < max / 4 {
                    stop = true;
                    proof {
                        assert(sw =~= seq![sw[0]]);
                        assert(ws.skip(idx) =~= seq![ws[idx]]);
                        assert(res@.len() == ws.len());
                    }
                } else {
                    proof {
                        let tail = spec_windows(len as int, max as int, step as int, next as int);
                        assert(sw == seq![sw[0]] + tail);
                        assert(ws.skip(idx + 1).len() == tail.len());
                        assert forall|j: int| 0 <= j < tail.len() implies ws.skip(idx + 1)[j]
                            == tail[j] by {
                            assert(ws.skip(idx + 1)[j] == ws[idx + 1 + j]);
                            assert(ws.skip(idx)[1 + j] == ws[idx + 1 + j]);
                            assert(sw[1 + j] == tail[j]);
                        }
                        assert(ws.skip(idx + 1) =~= tail);
                    }
                }
            }
        }
        proof {
            assert(ws.len() >= 1);
        }
        res
    }

    /// Cut a file into chunks: one per syntax node the language's kind table
    /// names, spanning at least `MIN_SYNTAX_CHUNK` bytes; files of unknown
    /// language, and files whose parse yields no such node, fall back to the
    /// sliding byte window.
    ///
    /// Every chunk is faithful to the file (`chunk_wf`): its content equals
    /// the source bytes of its span and its line numbers count the newlines
    /// before the span. Non-empty content always yields at least one chunk.
    /// The result is pinned by the inputs alone: when the language's named
    /// node list (`spec_parse_nodes`) exists and yields at least one
    /// emitting node, the chunks are exactly its extraction; in every other
    /// case they are exactly the sliding windows.
    pub fn chunk_file(&self, file_path: &String, content: &[u8]) -> (res: Vec<CodeChunk>)
        requires
            self.wf(),
            content@.len() < usize::MAX,
        ensures
            forall|i: int|
                0 <= i < res@.len() ==> chunk_wf(#[trigger] res@[i], file_path@, content@)
                    && res@[i].language == spec_from_path(file_path@),
            content@.len() > 0 ==> res@.len() > 0,
            ({
                let lang = spec_from_path(file_path@);
                let parsed = spec_parse_nodes(lang, content@);
                if lang != Language::Unknown && parsed is Some && spec_emit_count(
                    parsed.unwrap(),
                    content@,
                    lang,
                    parsed.unwrap().len() as int,
                ) > 0 {
                    extraction_result(res@, parsed.unwrap(), file_path@, content@, lang)
                } else {
                    window_result(
                        res@,
                        file_path@,
                        content@,
                        lang,
                        self.spec_max_chunk_size(),
                        self.spec_step(),
                    )
                }
            }),
    {
        let language = Language::from_path(file_path.as_str());
        let is_known = match language {
            Language::Unknown => false,
            _ => true,
        };
        if is_known {
            match parse_nodes(language, content) {
                Some(nodes) => {
                    let chunks = extract_chunks(&nodes, file_path, content, language);
                    if chunks.len() > 0 {
                        proof {
                            assert(spec_parse_nodes(language, content@) == Some(nodes@));
                            assert(spec_parse_nodes(language, content@).unwrap() == nodes@);
                        }
                        return chunks;
                    }
                    proof {
                        assert(spec_emit_count(nodes@, content@, language, nodes@.len() as int)
                            == 0);
                    }
                },
                None => {},
            }
        }
        self.chunk_sliding_window(file_path, content, language)
    }
}

/// With no overlap — the step equals the window — windows abut: each one
/// ends exactly where the next begins, the first starting at `start`.
pub proof fn lemma_windows_tile(len: int, max: int, start: int)
    requires
        0 < max,
        0 <= start < len,
    ensures
        spec_windows(len, max, max, start).len() > 0,
        spec_windows(len, max, max, start)[0].0 == start,
        forall|i: int|
            0 <= i < spec_windows(len, max, max, start).len() ==> {
                let w = #[trigger] spec_windows(len, max, max, start)[i];
                w.0 < w.1 <= len && w.1 == (if w.0 + max <= len {
                    w.0 + max
                } else {
                    len
                })
            },
        forall|i: int|
            0 <= i < spec_windows(len, max, max, start).len() - 1
                ==> (#[trigger] spec_windows(len, max, max, start)[i]).1 == spec_windows(
                len,
                max,
                max,
                start,
            )[i + 1].0,
    decreases len - start,
{
    let ws = spec_windows(len, max, max, start);
    let next = start + max;
    let end = if start + max <= len {
        start + max
    } else {
        len
    };
    if len - next < max / 4 {
        assert(ws =~= seq![(start, end)]);
    } else {
        vstd::arithmetic::div_mod::lemma_div_pos_is_pos(max, 4);
        assert(next < len || (len - next == 0 && max / 4 == 0));
        if next >= len {
            assert(spec_windows(len, max, max, next) =~= Seq::empty());
            assert(ws =~= seq![(start, end)]);
        } else {
            lemma_windows_tile(len, max, next);
            let tail = spec_windows(len, max, max, next);
            assert(ws == seq![(start, end)] + tail);
            assert(end == start + max);
            assert(ws[0].1 == tail[0].0 - 0) by {
                assert(ws[0] == (start, end));
                assert(ws[1] == tail[0]);
            }
            assert forall|i: int|
                0 <= i < ws.len() implies {
                let w = #[trigger] ws[i];
                w.0 < w.1 <= len && w.1 == (if w.0 + max <= len {
                    w.0 + max
                } else {
                    len
                })
            } by {
                if i > 0 {
                    assert(ws[i] == tail[i - 1]);
                }
            }
            assert forall|i: int|
                0 <= i < ws.len() - 1 implies (#[trigger] ws[i]).1 == ws[i + 1].0 by {
                if i == 0 {
                    assert(ws[1] == tail[0]);
                } else {
                    assert(ws[i] == tail[i - 1]);
                    assert(ws[i + 1] == tail[i]);
                    assert(tail[i - 1].1 == tail[i].0);
                }
            }
        }
    }
}

/// The concatenation of the content spans of `ws`, left to right.
pub open spec fn concat_spans(content: Seq<u8>, ws: Seq<(int, int)>) -> Seq<u8>
    decreases ws.len(),
{
    if ws.len() == 0 {
        Seq::empty()
    } else {
        content.subrange(ws[0].0, ws[0].1) + concat_spans(content, ws.drop_first())
    }
}

/// The concatenation of a single span is that span's content.
proof fn lemma_concat_single(content: Seq<u8>, ws: Seq<(int, int)>, start: int, end: int)
    requires
        ws == seq![(start, end)],
    ensures
        concat_spans(content, ws) == content.subrange(start, end),
{
    assert(ws.drop_first() =~= Seq::<(int, int)>::empty());
    assert(concat_spans(content, ws.drop_first()) =~= Seq::<u8>::empty());
    assert(ws[0] == (start, end));
    assert(content.subrange(start, end) + Seq::<u8>::empty() =~= content.subrange(start, end));
}

/// Law (window coverage): with no overlap, the concatenation of the window
/// contents equals the content's prefix up to the last window's end.
pub proof fn lemma_windows_cover(content: Seq<u8>, max: int, start: int)
    requires
        0 < max,
        0 <= start < content.len(),
    ensures
        concat_spans(content, spec_windows(content.len() as int, max, max, start)) == content.subrange(
            start,
            spec_windows(content.len() as int, max, max, start).last().1,
        ),
    decreases content.len() - start,
{
    let len = content.len() as int;
    let ws = spec_windows(len, max, max, start);
    lemma_windows_tile(len, max, start);
    let next = start + max;
    let end = if start + max <= len {
        start + max
    } else {
        len
    };
    if len - next < max / 4 {
        assert(ws =~= seq![(start, end)]);
        lemma_concat_single(content, ws, start, end);
    } else {
        vstd::arithmetic::div_mod::lemma_div_pos_is_pos(max, 4);
        if next >= len {
            assert(spec_windows(len, max, max, next) =~= Seq::empty());
            assert(ws =~= seq![(start, end)]);
            lemma_concat_single(content, ws, start, end);
        } else {
            lemma_windows_cover(content, max, next);
            let tail = spec_windows(len, max, max, next);
            assert(ws == seq![(start, end)] + tail);
            assert(ws.drop_first() =~= tail);
            assert(end == start + max);
            assert(ws[0] == (start, end));
            assert(ws.last() == tail.last());
            lemma_windows_tile(len, max, next);
            assert(end <= tail.last().1) by {
                assert(tail[0].0 == end);
                lemma_windows_ends_grow(len, max, next);
            }
            assert(content.subrange(start, end) + content.subrange(end, tail.last().1)
                =~= content.subrange(start, tail.last().1));
            assert(concat_spans(content, ws) == content.subrange(start, end) + concat_spans(
                content,
                tail,
            ));
        }
    }
}

/// Window ends never precede the first window's start.
proof fn lemma_windows_ends_grow(len: int, max: int, start: int)
    requires
        0 < max,
        0 <= start < len,
    ensures
        spec_windows(len, max, max, start).last().1 >= start,
    decreases len - start,
{
    let ws = spec_windows(len, max, max, start);
    let next = start + max;
    let end = if start + max <= len {
        start + max
    } else {
        len
    };
    if len - next < max / 4 {
        assert(ws =~= seq![(start, end)]);
    } else {
        vstd::arithmetic::div_mod::lemma_div_pos_is_pos(max, 4);
        if next >= len {
            assert(spec_windows(len, max, max, next) =~= Seq::empty());
            assert(ws =~= seq![(start, end)]);
        } else {
            lemma_windows_ends_grow(len, max, next);
            let tail = spec_windows(len, max, max, next);
            assert(ws == seq![(start, end)] + tail);
            assert(ws.last() == tail.last());
        }
    }
}

} // verus!
