//! The semantic indexing pipeline's decisions.
//!
//! Chunks flow to the embedding runtime in batches; each chunk is embedded
//! as the byte string `[<language>] <chunk type>: <content prefix>`. The
//! embedding call itself, a floating-point affair, belongs to the
//! application; this module builds the exact inputs, sizes the batches, and
//! projects resolved vector hits into results.

use vstd::prelude::*;

use crate::chunker::{clone_bytes, spec_type_name_bytes, ChunkType, CodeChunk};
use crate::language::{spec_name_bytes, Language};
use crate::vector_store::SearchResult;

verus! {

/// How many chunks go into one embedding batch.
pub const EMBED_BATCH_SIZE: usize = 32;

/// How many bytes of a chunk's content enter its embedding input.
pub const EMBED_SNIPPET_BYTES: usize = 500;

/// Statistics from a semantic indexing run.
#[derive(Debug, Clone, Copy, PartialEq, Eq, Structural)]
pub struct SemanticIndexStats {
    pub files_processed: usize,
    pub chunks_created: usize,
    pub embeddings_generated: usize,
    pub duration_ms: u64,
}

impl Default for SemanticIndexStats {
    /// All counts at zero.
    fn default() -> (res: Self)
        ensures
            res.files_processed == 0,
            res.chunks_created == 0,
            res.embeddings_generated == 0,
            res.duration_ms == 0,
    {
        SemanticIndexStats {
            files_processed: 0,
            chunks_created: 0,
            embeddings_generated: 0,
            duration_ms: 0,
        }
    }
}

/// A semantic search result: one vector hit, resolved and projected.
#[derive(Debug)]
pub struct SemanticResult {
    pub file_path: String,
    pub chunk_type: ChunkType,
    pub name: Option<Vec<u8>>,
    pub start_line: usize,
    pub end_line: usize,
    pub language: Language,
    pub content_preview: Vec<u8>,
    pub similarity_score: i64,
}

/// The embedding input of a chunk: `[`, the language name, `] `, the chunk
/// type name, `: `, and the first `EMBED_SNIPPET_BYTES` bytes of content.
pub open spec fn spec_embedding_text(lang: Language, t: ChunkType, content: Seq<u8>) -> Seq<u8> {
    seq!['[' as u8] + spec_name_bytes(lang) + seq![']' as u8, ' ' as u8] + spec_type_name_bytes(t)
        + seq![':' as u8, ' ' as u8] + content.take(
        if content.len() <= EMBED_SNIPPET_BYTES {
            content.len() as int
        } else {
            EMBED_SNIPPET_BYTES as int
        },
    )
}

/// Build the embedding input for one chunk.
pub fn embedding_text(chunk: &CodeChunk) -> (res: Vec<u8>)
    ensures
        res@ == spec_embedding_text(chunk.language, chunk.chunk_type, chunk.content@),
{
    let mut res: Vec<u8> = Vec::new();
    res.push('[' as u8);
    let mut lang = chunk.language.name_bytes();
    res.append(&mut lang);
    res.push(']' as u8);
    res.push(' ' as u8);
    let mut ty = chunk.chunk_type.name_bytes();
    res.append(&mut ty);
    res.push(':' as u8);
    res.push(' ' as u8);
    let cut = if chunk.content.len() <= EMBED_SNIPPET_BYTES {
        chunk.content.len()
    } else {
        EMBED_SNIPPET_BYTES
    };
    let mut snippet = vstd::slice::slice_to_vec(
        vstd::slice::slice_subrange(chunk.content.as_slice(), 0, cut),
    );
    res.append(&mut snippet);
    proof {
        assert(chunk.content@.subrange(0, cut as int) =~= chunk.content@.take(cut as int));
        assert(res@ =~= spec_embedding_text(chunk.language, chunk.chunk_type, chunk.content@));
    }
    res
}

/// How many batches a run of `n` chunks needs: `n` divided by the batch
/// size, rounded up.
pub fn batch_count(n: usize) -> (res: usize)
    ensures
        res == (n + EMBED_BATCH_SIZE - 1) / (EMBED_BATCH_SIZE as int),
        n > 0 ==> res >= 1,
    {
    let full = n / EMBED_BATCH_SIZE;
    let rem = n % EMBED_BATCH_SIZE;
    if rem == 0 {
        proof {
            vstd::arithmetic::div_mod::lemma_fundamental_div_mod(n as int, EMBED_BATCH_SIZE as int);
            vstd::arithmetic::div_mod::lemma_fundamental_div_mod_converse(
                n as int + EMBED_BATCH_SIZE - 1,
                EMBED_BATCH_SIZE as int,
                n as int / (EMBED_BATCH_SIZE as int),
                EMBED_BATCH_SIZE as int - 1,
            );
        }
        full
    } else {
        proof {
            vstd::arithmetic::div_mod::lemma_fundamental_div_mod(n as int, EMBED_BATCH_SIZE as int);
            vstd::arithmetic::div_mod::lemma_fundamental_div_mod_converse(
                n as int + EMBED_BATCH_SIZE - 1,
                EMBED_BATCH_SIZE as int,
                n as int / (EMBED_BATCH_SIZE as int) + 1,
                n as int % (EMBED_BATCH_SIZE as int) - 1,
            );
        }
        full + 1
    }
}

/// Project one resolved vector hit into a semantic result.
pub fn project_hit(hit: &SearchResult) -> (res: SemanticResult)
    ensures
        res.file_path == hit.metadata.file_path,
        res.chunk_type == hit.metadata.chunk_type,
        res.name is Some <==> hit.metadata.name is Some,
        res.name is Some ==> res.name.unwrap()@ == hit.metadata.name.unwrap()@,
        res.start_line == hit.metadata.start_line,
        res.end_line == hit.metadata.end_line,
        res.language == hit.metadata.language,
        res.content_preview@ == hit.metadata.content_preview@,
        res.similarity_score == hit.score,
{
    SemanticResult {
        file_path: hit.metadata.file_path.clone(),
        chunk_type: hit.metadata.chunk_type,
        name: match &hit.metadata.name {
            None => None,
            Some(n) => Some(clone_bytes(n)),
        },
        start_line: hit.metadata.start_line,
        end_line: hit.metadata.end_line,
        language: hit.metadata.language,
        content_preview: clone_bytes(&hit.metadata.content_preview),
        similarity_score: hit.score,
    }
}

} // verus!
