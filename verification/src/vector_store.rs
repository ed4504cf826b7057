//! The vector store's bookkeeping: keys, metadata rows and capacity.
//!
//! The approximate-nearest-neighbor index itself holds floating-point
//! vectors and lives with the application; this module owns everything the
//! store decides: key assignment (each vector's key is the position of its
//! metadata row), capacity growth, and the projection of raw search hits
//! onto metadata. The invariant throughout is that row `k` of the metadata
//! belongs to the vector stored under key `k`.

use vstd::prelude::*;

use crate::chunker::{clone_bytes, ChunkType, CodeChunk};
use crate::language::Language;

verus! {

/// How many characters of a chunk's content the metadata keeps for display.
pub const PREVIEW_CHARS: usize = 200;

/// How many keys a capacity reservation adds at a time.
pub const CAPACITY_STEP: usize = 1000;

/// Whether a byte begins a UTF-8 character: anything but a continuation
/// byte.
pub open spec fn is_char_start(b: u8) -> bool {
    !(128 <= b < 192)
}

/// The byte length of the prefix of `s` from position `i` holding at most
/// `budget` more characters: the position of the character start after the
/// budget is spent, or the end of `s`. A multi-byte character is never
/// split.
pub open spec fn spec_char_prefix_end(s: Seq<u8>, budget: int, i: int) -> int
    decreases s.len() - i,
{
    if i < 0 || i >= s.len() {
        s.len() as int
    } else if is_char_start(s[i]) {
        if budget <= 0 {
            i
        } else {
            spec_char_prefix_end(s, budget - 1, i + 1)
        }
    } else {
        spec_char_prefix_end(s, budget, i + 1)
    }
}

/// The character-prefix end lies between the scan position and the end.
proof fn lemma_char_prefix_bounds(s: Seq<u8>, budget: int, i: int)
    requires
        0 <= i <= s.len(),
    ensures
        i <= spec_char_prefix_end(s, budget, i) <= s.len(),
    decreases s.len() - i,
{
    if i < s.len() {
        if is_char_start(s[i]) {
            if budget > 0 {
                lemma_char_prefix_bounds(s, budget - 1, i + 1);
            }
        } else {
            lemma_char_prefix_bounds(s, budget, i + 1);
        }
    }
}

/// The byte length of `s`'s prefix of at most `budget` characters.
fn char_prefix_end(s: &[u8], budget: usize) -> (res: usize)
    ensures
        res as int == spec_char_prefix_end(s@, budget as int, 0),
        res <= s@.len(),
{
    let n = s.len();
    let mut i: usize = 0;
    let mut left: usize = budget;
    while i < n
        invariant
            i <= n,
            n == s@.len(),
            spec_char_prefix_end(s@, budget as int, 0) == spec_char_prefix_end(
                s@,
                left as int,
                i as int,
            ),
        decreases n - i,
    {
        let b = s[i];
        if !(128 <= b && b < 192) {
            if left == 0 {
                proof {
                    lemma_char_prefix_bounds(s@, budget as int, 0);
                }
                return i;
            }
            left = left - 1;
        }
        i = i + 1;
    }
    n
}

/// Metadata stored alongside each vector.
#[derive(Debug)]
pub struct ChunkMetadata {
    pub file_path: String,
    pub chunk_type: ChunkType,
    pub name: Option<Vec<u8>>,
    pub start_line: usize,
    pub end_line: usize,
    pub language: Language,
    pub content_preview: Vec<u8>,
}

/// `a` carries the same row as `b`, byte for byte.
pub open spec fn metadata_eq(a: ChunkMetadata, b: ChunkMetadata) -> bool {
    &&& a.file_path == b.file_path
    &&& a.chunk_type == b.chunk_type
    &&& (a.name is Some <==> b.name is Some)
    &&& (a.name is Some ==> a.name.unwrap()@ == b.name.unwrap()@)
    &&& a.start_line == b.start_line
    &&& a.end_line == b.end_line
    &&& a.language == b.language
    &&& a.content_preview@ == b.content_preview@
}

impl Clone for ChunkMetadata {
    fn clone(&self) -> (res: Self)
        ensures
            metadata_eq(res, *self),
    {
        ChunkMetadata {
            file_path: self.file_path.clone(),
            chunk_type: self.chunk_type,
            name: match &self.name {
                None => None,
                Some(n) => Some(clone_bytes(n)),
            },
            start_line: self.start_line,
            end_line: self.end_line,
            language: self.language,
            content_preview: clone_bytes(&self.content_preview),
        }
    }
}

impl ChunkMetadata {
    /// The metadata row of a chunk: its fields, with the content cut to its
    /// first `PREVIEW_CHARS` characters as the preview, never splitting a
    /// multi-byte character.
    pub fn from_chunk(chunk: &CodeChunk) -> (res: ChunkMetadata)
        ensures
            res.file_path == chunk.file_path,
            res.chunk_type == chunk.chunk_type,
            res.name is Some <==> chunk.name is Some,
            res.name is Some ==> res.name.unwrap()@ == chunk.name.unwrap()@,
            res.start_line == chunk.start_line,
            res.end_line == chunk.end_line,
            res.language == chunk.language,
            res.content_preview@ == chunk.content@.take(
                spec_char_prefix_end(chunk.content@, PREVIEW_CHARS as int, 0),
            ),
    {
        let cut = char_prefix_end(chunk.content.as_slice(), PREVIEW_CHARS);
        let preview = vstd::slice::slice_to_vec(
            vstd::slice::slice_subrange(chunk.content.as_slice(), 0, cut),
        );
        proof {
            lemma_char_prefix_bounds(chunk.content@, PREVIEW_CHARS as int, 0);
            assert(chunk.content@.subrange(0, cut as int) =~= chunk.content@.take(cut as int));
        }
        ChunkMetadata {
            file_path: chunk.file_path.clone(),
            chunk_type: chunk.chunk_type,
            name: match &chunk.name {
                None => None,
                Some(n) => Some(clone_bytes(n)),
            },
            start_line: chunk.start_line,
            end_line: chunk.end_line,
            language: chunk.language,
            content_preview: preview,
        }
    }
}

/// A raw search hit resolved against the metadata: the similarity score in
/// millionths (negative when the engine reports a distance beyond one) and
/// the matching row.
#[derive(Debug)]
pub struct SearchResult {
    pub score: i64,
    pub metadata: ChunkMetadata,
}

/// The bookkeeping side of the vector store.
pub struct VectorStore {
    metadata: Vec<ChunkMetadata>,
    capacity: usize,
    dimension: usize,
}

/// How many of the first `upto` keys are valid, that is, below `len`.
pub open spec fn spec_valid_count(keys: Seq<u64>, len: int, upto: int) -> int
    decreases upto,
{
    if upto <= 0 {
        0
    } else {
        spec_valid_count(keys, len, upto - 1) + if 0 <= upto - 1 < keys.len() && (keys[upto - 1] as int)
            < len {
            1int
        } else {
            0int
        }
    }
}

/// Valid-key counts lie between zero and the number of keys seen.
proof fn lemma_valid_count_bounds(keys: Seq<u64>, len: int, upto: int)
    ensures
        0 <= spec_valid_count(keys, len, upto) <= (if upto >= 0 {
            upto
        } else {
            0
        }),
    decreases (if upto >= 0 { upto } else { 0 }),
{
    if upto > 0 {
        lemma_valid_count_bounds(keys, len, upto - 1);
    }
}

/// Valid-key counts never decrease along the key list.
proof fn lemma_valid_count_mono(keys: Seq<u64>, len: int, a: int, b: int)
    requires
        a <= b,
    ensures
        spec_valid_count(keys, len, a) <= spec_valid_count(keys, len, b),
    decreases b - a,
{
    if a < b {
        lemma_valid_count_mono(keys, len, a, b - 1);
    }
}

impl VectorStore {
    /// The metadata rows, in key order.
    pub closed spec fn spec_metadata(&self) -> Seq<ChunkMetadata> {
        self.metadata@
    }

    /// How many keys the underlying index has room for.
    pub closed spec fn spec_capacity(&self) -> int {
        self.capacity as int
    }

    /// The vector dimension the store was opened with.
    pub closed spec fn spec_dimension(&self) -> int {
        self.dimension as int
    }

    /// An empty store for vectors of the given dimension.
    pub fn new(dimension: usize) -> (res: VectorStore)
        ensures
            res.spec_metadata() == Seq::<ChunkMetadata>::empty(),
            res.spec_capacity() == 0,
            res.spec_dimension() == dimension,
    {
        VectorStore { metadata: Vec::new(), capacity: 0, dimension }
    }

    /// A store rebuilt from persisted metadata rows and the capacity the
    /// underlying index reports.
    pub fn from_parts(dimension: usize, metadata: Vec<ChunkMetadata>, capacity: usize) -> (res:
        VectorStore)
        ensures
            res.spec_metadata() == metadata@,
            res.spec_capacity() == capacity,
            res.spec_dimension() == dimension,
    {
        VectorStore { metadata, capacity, dimension }
    }

    /// The key the next added vector will take: the position its metadata
    /// row will hold.
    pub fn next_key(&self) -> (res: u64)
        requires
            self.spec_metadata().len() <= u64::MAX,
        ensures
            res as int == self.spec_metadata().len(),
    {
        self.metadata.len() as u64
    }

    /// The capacity to reserve before the next insert, if the index is full:
    /// the current capacity grown by `CAPACITY_STEP`, never less than
    /// `CAPACITY_STEP` itself.
    pub fn reserve_needed(&self) -> (res: Option<usize>)
        requires
            self.spec_capacity() + CAPACITY_STEP <= usize::MAX,
        ensures
            match res {
                Some(c) => self.spec_metadata().len() >= self.spec_capacity() && c
                    == self.spec_capacity() + CAPACITY_STEP,
                None => self.spec_metadata().len() < self.spec_capacity(),
            },
    {
        if self.metadata.len() >= self.capacity {
            Some(self.capacity + CAPACITY_STEP)
        } else {
            None
        }
    }

    /// Record a granted capacity reservation.
    pub fn set_capacity(&mut self, capacity: usize)
        ensures
            final(self).spec_metadata() == old(self).spec_metadata(),
            final(self).spec_capacity() == capacity,
            final(self).spec_dimension() == old(self).spec_dimension(),
    {
        self.capacity = capacity;
    }

    /// Append one vector's metadata row; the returned key is the index the
    /// row now holds, which is also the key the vector was inserted under.
    pub fn add(&mut self, metadata: ChunkMetadata) -> (key: u64)
        requires
            old(self).spec_metadata().len() < u64::MAX,
        ensures
            key as int == old(self).spec_metadata().len(),
            final(self).spec_metadata() == old(self).spec_metadata().push(metadata),
            final(self).spec_metadata()[key as int] == metadata,
            final(self).spec_capacity() == old(self).spec_capacity(),
            final(self).spec_dimension() == old(self).spec_dimension(),
    {
        let key = self.metadata.len() as u64;
        self.metadata.push(metadata);
        key
    }

    /// The metadata rows, in key order, for persisting.
    pub fn rows(&self) -> (res: &Vec<ChunkMetadata>)
        ensures
            res@ == self.spec_metadata(),
    {
        &self.metadata
    }

    /// How many keys the underlying index has room for.
    pub fn capacity(&self) -> (res: usize)
        ensures
            res == self.spec_capacity(),
    {
        self.capacity
    }

    /// The vector dimension the store was opened with.
    pub fn dimension(&self) -> (res: usize)
        ensures
            res == self.spec_dimension(),
    {
        self.dimension
    }

    /// How many vectors the store holds.
    pub fn len(&self) -> (res: usize)
        ensures
            res == self.spec_metadata().len(),
    {
        self.metadata.len()
    }

    /// Whether the store holds no vector.
    pub fn is_empty(&self) -> (res: bool)
        ensures
            res == (self.spec_metadata().len() == 0),
    {
        self.metadata.len() == 0
    }

    /// Drop every row and all reserved room.
    pub fn clear(&mut self)
        ensures
            final(self).spec_metadata() == Seq::<ChunkMetadata>::empty(),
            final(self).spec_capacity() == 0,
            final(self).spec_dimension() == old(self).spec_dimension(),
    {
        self.metadata = Vec::new();
        self.capacity = 0;
        proof {
            assert(self.metadata@ =~= Seq::<ChunkMetadata>::empty());
        }
    }

    /// Resolve the engine's raw hits — parallel keys and scores, best hit
    /// first — against the metadata: hits with a key beyond the metadata are
    /// dropped, the rest keep their order, score and row.
    pub fn resolve_hits(&self, keys: &Vec<u64>, scores: &Vec<i64>) -> (res: Vec<SearchResult>)
        requires
            keys@.len() == scores@.len(),
        ensures
            res@.len() == spec_valid_count(keys@, self.spec_metadata().len() as int, keys@.len() as int),
            forall|j: int|
                0 <= j < keys@.len() && (#[trigger] keys@[j] as int) < self.spec_metadata().len()
                    ==> {
                    let out = res@[spec_valid_count(keys@, self.spec_metadata().len() as int, j)];
                    out.score == scores@[j] && metadata_eq(
                        out.metadata,
                        self.spec_metadata()[keys@[j] as int],
                    )
                },
    {
        let ghost len = self.spec_metadata().len() as int;
        let n = keys.len();
        let mut res: Vec<SearchResult> = Vec::new();
        let mut i: usize = 0;
        while i < n
            invariant
                i <= n,
                n == keys@.len(),
                keys@.len() == scores@.len(),
                len == self.spec_metadata().len(),
                res@.len() == spec_valid_count(keys@, len, i as int),
                forall|j: int|
                    0 <= j < i && (#[trigger] keys@[j] as int) < len ==> {
                        let out = res@[spec_valid_count(keys@, len, j)];
                        out.score == scores@[j] && metadata_eq(
                            out.metadata,
                            self.spec_metadata()[keys@[j] as int],
                        )
                    },
            decreases n - i,
        {
            proof {
                lemma_valid_count_bounds(keys@, len, i as int);
            }
            let key = keys[i];
            if (key as usize) < self.metadata.len() && key <= usize::MAX as u64 {
                let ghost prev = res@;
                let row = self.metadata[key as usize].clone();
                res.push(SearchResult { score: scores[i], metadata: row });
                proof {
                    assert forall|j: int|
                        0 <= j < i + 1 && (#[trigger] keys@[j] as int) < len implies {
                        let out = res@[spec_valid_count(keys@, len, j)];
                        out.score == scores@[j] && metadata_eq(
                            out.metadata,
                            self.spec_metadata()[keys@[j] as int],
                        )
                    } by {
                        lemma_valid_count_bounds(keys@, len, j);
                        if j < i {
                            lemma_valid_count_mono(keys@, len, j + 1, i as int);
                            assert(res@[spec_valid_count(keys@, len, j)] == prev[spec_valid_count(
                                keys@,
                                len,
                                j,
                            )]);
                        }
                    }
                }
            }
            i = i + 1;
        }
        res
    }
}

/// The metadata rows after a run of adds, and the key each add returned.
pub open spec fn spec_rows_after(start: Seq<ChunkMetadata>, added: Seq<ChunkMetadata>) -> Seq<
    ChunkMetadata,
> {
    start + added
}

/// Law (key/metadata parity): a run of `n` adds starting from an empty
/// store leaves exactly `n` rows, the `i`-th add returned key `i`, and the
/// row under that key is the one the `i`-th add appended. This is the
/// spec-level image of `add`, whose contract hands out the store's size as
/// the key and appends the row there.
pub proof fn lemma_key_metadata_parity(added: Seq<ChunkMetadata>, i: int)
    requires
        0 <= i < added.len(),
    ensures
        spec_rows_after(Seq::<ChunkMetadata>::empty(), added).len() == added.len(),
        spec_rows_after(Seq::<ChunkMetadata>::empty(), added.take(i)).len() == i,
        spec_rows_after(Seq::<ChunkMetadata>::empty(), added)[i] == added[i],
{
    assert(Seq::<ChunkMetadata>::empty() + added =~= added);
    assert(Seq::<ChunkMetadata>::empty() + added.take(i) =~= added.take(i));
}

} // verus!
