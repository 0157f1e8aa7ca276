//! The embedding store, and the resolution of similarity scores into matches.
use vstd::prelude::*;

use crate::cache::{cache_image, decode_image, encode_image, fits, image_fits, read_image, rows_view};
use crate::corpus::{Corpus, Page};
use crate::score::{at_least, is_strictly_negative, score_at_least, strictly_negative, ScoreBits};

verus! {

/// One embedding: binary32 bit patterns, one per dimension.
pub type Embedding = Vec<u32>;

/// Degree of resolution for a similarity set.
#[derive(Clone, Copy, Debug, PartialEq, Eq, Structural)]
pub enum ResolveLevel {
    First,
    Mid,
    Last,
    To,
}

/// Failures of the embedding store.
#[derive(Clone, Copy, Debug, PartialEq, Eq, Structural)]
pub enum EngineError {
    /// The embedding provider failed on some document.
    EmbeddingGeneration,
    /// Embeddings and documents do not line up, or an embedding is empty.
    DataIntegrity,
    /// A cache image could not be read as a sequence of embeddings.
    Format,
}

/// A document together with its similarity to the query.
#[derive(Clone, Debug, PartialEq, Eq)]
pub struct ResolvedMatch {
    pub page: Page,
    pub similarity: ScoreBits,
}

/// Every score is strictly below zero (neither zero nor NaN).
pub open spec fn all_negative(scores: Seq<u32>) -> bool {
    forall|i: int| 0 <= i < scores.len() ==> strictly_negative(#[trigger] scores[i])
}

/// The matches found among the first `n` positions, in position order.
pub open spec fn matches_within(pages: Seq<Page>, scores: Seq<u32>, threshold: u32, n: nat) -> Seq<
    ResolvedMatch,
>
    decreases n,
{
    if n == 0 {
        Seq::empty()
    } else {
        let before = matches_within(pages, scores, threshold, (n - 1) as nat);
        let i = n - 1;
        if at_least(scores[i], threshold) {
            before.push(ResolvedMatch { page: pages[i], similarity: scores[i] })
        } else {
            before
        }
    }
}

/// Number of positions the resolver scans.
pub open spec fn scan_length(scores: Seq<u32>, window_size: usize) -> nat {
    if window_size < scores.len() {
        window_size as nat
    } else {
        scores.len()
    }
}

/// What resolving `scores` against `pages` yields: nothing when every score is
/// negative, otherwise each scanned position whose score reaches the
/// threshold, in position order.
pub open spec fn resolved(pages: Seq<Page>, scores: Seq<u32>, threshold: u32, window_size: usize) -> Seq<
    ResolvedMatch,
> {
    if all_negative(scores) {
        Seq::empty()
    } else {
        matches_within(pages, scores, threshold, scan_length(scores, window_size))
    }
}

/// Every embedding holds at least one component.
pub open spec fn all_non_empty(store: Seq<Seq<u32>>) -> bool {
    forall|i: int| 0 <= i < store.len() ==> #[trigger] store[i].len() > 0
}

/// The outcome of an embedding pass that is owed for a corpus of `doc_count`
/// documents.
pub open spec fn build_outcome(failed: bool, collected: Seq<Seq<u32>>, doc_count: nat) -> Result<
    (),
    EngineError,
> {
    if failed {
        Err(EngineError::EmbeddingGeneration)
    } else if collected.len() != doc_count || !all_non_empty(collected) {
        Err(EngineError::DataIntegrity)
    } else {
        Ok(())
    }
}

/// An embedding pass over the corpus, one document at a time in corpus order.
///
/// The caller asks which document to embed next, runs the embedding provider
/// on its body, and records what came back.
pub struct EmbeddingBuild {
    expected: usize,
    collected: Vec<Embedding>,
    failed: bool,
}

impl EmbeddingBuild {
    pub closed spec fn expected(&self) -> nat {
        self.expected as nat
    }

    pub closed spec fn collected(&self) -> Seq<Seq<u32>> {
        rows_view(self.collected@)
    }

    pub closed spec fn failed(&self) -> bool {
        self.failed
    }

    /// A pass over `expected` documents, with nothing embedded yet.
    pub fn new(expected: usize) -> (r: EmbeddingBuild)
        ensures
            r.expected() == expected,
            r.collected() == Seq::<Seq<u32>>::empty(),
            !r.failed(),
    {
        let r = EmbeddingBuild { expected, collected: Vec::new(), failed: false };
        assert(r.collected() =~= Seq::<Seq<u32>>::empty());
        r
    }

    /// Index of the document to embed next; `None` once every document has
    /// been embedded or the provider has failed.
    pub fn next_document(&self) -> (r: Option<usize>)
        ensures
            r == (if self.failed() || self.collected().len() >= self.expected() {
                None
            } else {
                Some(self.collected().len() as usize)
            }),
    {
        if self.failed || self.collected.len() >= self.expected {
            None
        } else {
            Some(self.collected.len())
        }
    }

    /// Records the provider's answer for the pending document: its embedding,
    /// or `None` when the provider failed. After a failure nothing more is
    /// collected.
    pub fn record(&mut self, outcome: Option<Embedding>)
        ensures
            final(self).expected() == old(self).expected(),
            final(self).failed() == (old(self).failed() || outcome is None),
            final(self).collected() == (if !old(self).failed() && outcome is Some {
                old(self).collected().push(outcome->Some_0@)
            } else {
                old(self).collected()
            }),
    {
        match outcome {
            Some(e) => {
                if !self.failed {
                    let ghost before = self.collected@;
                    let ghost v = e@;
                    self.collected.push(e);
                    assert(self.collected@.map_values(|e: Vec<u32>| e@) =~= before.map_values(
                        |e: Vec<u32>| e@,
                    ).push(v));
                }
            },
            None => {
                self.failed = true;
            },
        }
    }
}

/// The corpus with one embedding per document, in corpus order.
pub struct Engine {
    corpus: Corpus,
    page_embeddings: Vec<Embedding>,
}

impl Engine {
    /// The documents, in corpus order.
    pub closed spec fn pages(&self) -> Seq<Page> {
        self.corpus.pages@
    }

    /// The stored embeddings, in corpus order; empty when the store is empty.
    pub closed spec fn store(&self) -> Seq<Seq<u32>> {
        rows_view(self.page_embeddings@)
    }

    /// An engine over `corpus` with an empty store.
    pub fn new(corpus: Corpus) -> (r: Engine)
        ensures
            r.pages() == corpus.pages@,
            r.store() == Seq::<Seq<u32>>::empty(),
    {
        let r = Engine { corpus, page_embeddings: Vec::new() };
        assert(r.store() =~= Seq::<Seq<u32>>::empty());
        r
    }

    /// The documents, in corpus order.
    pub fn documents(&self) -> (r: &Vec<Page>)
        ensures
            r@ == self.pages(),
    {
        &self.corpus.pages
    }

    /// The stored embeddings, in corpus order.
    pub fn embeddings(&self) -> (r: &Vec<Embedding>)
        ensures
            rows_view(r@) == self.store(),
    {
        &self.page_embeddings
    }

    /// A fresh embedding pass over this engine's corpus.
    pub fn start_build(&self) -> (r: EmbeddingBuild)
        ensures
            r.expected() == self.pages().len(),
            r.collected() == Seq::<Seq<u32>>::empty(),
            !r.failed(),
    {
        EmbeddingBuild::new(self.corpus.pages.len())
    }

    /// Installs the embeddings of a finished pass. Fails with
    /// `EmbeddingGeneration` when the provider failed, and with
    /// `DataIntegrity` when the count differs from the number of documents or
    /// some embedding is empty; on failure the store is left empty.
    pub fn build_embeddings(&mut self, build: EmbeddingBuild) -> (r: Result<(), EngineError>)
        ensures
            r == build_outcome(build.failed(), build.collected(), old(self).pages().len()),
            final(self).pages() == old(self).pages(),
            r is Ok ==> final(self).store() == build.collected(),
            r is Err ==> final(self).store() == Seq::<Seq<u32>>::empty(),
    {
        if build.failed {
            self.page_embeddings = Vec::new();
            assert(self.store() =~= Seq::<Seq<u32>>::empty());
            return Err(EngineError::EmbeddingGeneration);
        }
        let n = build.collected.len();
        let ok_count = n == self.corpus.pages.len();
        let mut i: usize = 0;
        let mut all_filled = true;
        while i < n
            invariant
                i <= n,
                n == build.collected@.len(),
                all_filled == (forall|j: int| 0 <= j < i ==> #[trigger] build.collected@[j]@.len() > 0),
            decreases n - i,
        {
            if build.collected[i].len() == 0 {
                all_filled = false;
            }
            i = i + 1;
        }
        assert(all_filled == all_non_empty(build.collected())) by {
            if all_filled {
                assert forall|j: int| 0 <= j < build.collected().len() implies #[trigger] build.collected()[j].len() > 0 by {
                    assert(build.collected@[j]@.len() > 0);
                }
            } else {
                let j = choose|j: int| 0 <= j < n && !(#[trigger] build.collected@[j]@.len() > 0);
                assert(build.collected()[j].len() == 0);
            }
        }
        if !ok_count || !all_filled {
            self.page_embeddings = Vec::new();
            assert(self.store() =~= Seq::<Seq<u32>>::empty());
            return Err(EngineError::DataIntegrity);
        }
        self.page_embeddings = build.collected;
        Ok(())
    }

    /// Discards every embedding; the store becomes empty.
    pub fn clear_embeddings(&mut self) -> (r: Result<(), EngineError>)
        ensures
            r is Ok,
            final(self).pages() == old(self).pages(),
            final(self).store() == Seq::<Seq<u32>>::empty(),
    {
        self.page_embeddings.clear();
        assert(self.store() =~= Seq::<Seq<u32>>::empty());
        Ok(())
    }

    /// Whether the store can be written as a cache image: the count and every
    /// length fit in a word.
    pub fn cacheable(&self) -> (r: bool)
        ensures
            r == fits(self.store()),
    {
        assert(self.store() == rows_view(self.page_embeddings@));
        image_fits(&self.page_embeddings)
    }

    /// The cache image of the store.
    pub fn cache_embeddings(&self) -> (r: Vec<u8>)
        requires
            fits(self.store()),
        ensures
            r@ == cache_image(self.store()),
    {
        assert(self.store() == rows_view(self.page_embeddings@));
        encode_image(&self.page_embeddings)
    }

    /// Replaces the store with the embeddings that a cache image holds. Fails
    /// with `Format` when the bytes are not an image, and then leaves the store
    /// empty. The count is not held against the corpus.
    pub fn load_embeddings(&mut self, image: &[u8]) -> (r: Result<(), EngineError>)
        ensures
            r is Ok <==> read_image(image@) is Some,
            r is Err ==> r == Err::<(), EngineError>(EngineError::Format),
            final(self).pages() == old(self).pages(),
            r is Ok ==> final(self).store() == read_image(image@)->Some_0,
            r is Err ==> final(self).store() == Seq::<Seq<u32>>::empty(),
    {
        match decode_image(image) {
            Some(rows) => {
                self.page_embeddings = rows;
                Ok(())
            },
            None => {
                self.page_embeddings = Vec::new();
                assert(self.store() =~= Seq::<Seq<u32>>::empty());
                Err(EngineError::Format)
            },
        }
    }

    /// Whether every score is strictly below zero (vacuously so for none).
    pub fn all_are_negative(&self, data: &[ScoreBits]) -> (r: bool)
        ensures
            r == all_negative(data@),
    {
        let mut i: usize = 0;
        while i < data.len()
            invariant
                i <= data@.len(),
                forall|j: int| 0 <= j < i ==> strictly_negative(#[trigger] data@[j]),
            decreases data@.len() - i,
        {
            if !is_strictly_negative(data[i]) {
                return false;
            }
            i = i + 1;
        }
        true
    }

    /// The documents that match a score set: none when every score is
    /// strictly negative; otherwise, among the first `window_size` positions,
    /// each one whose score is at least `temperature`, in corpus order. Every
    /// scanned position must have a document.
    pub fn resolve(&self, set: Vec<ScoreBits>, temperature: ScoreBits, window_size: usize) -> (r: Vec<
        ResolvedMatch,
    >)
        requires
            scan_length(set@, window_size) <= self.pages().len(),
        ensures
            r@ == resolved(self.pages(), set@, temperature, window_size),
    {
        let mut resolved_pages: Vec<ResolvedMatch> = Vec::new();
        if self.all_are_negative(set.as_slice()) {
            return resolved_pages;
        }
        let n: usize = if window_size < set.len() { window_size } else { set.len() };
        let mut index: usize = 0;
        while index < n
            invariant
                n == scan_length(set@, window_size),
                n <= set@.len(),
                n <= self.pages().len(),
                index <= n,
                resolved_pages@ == matches_within(self.pages(), set@, temperature, index as nat),
            decreases n - index,
        {
            let similarity = set[index];
            if score_at_least(similarity, temperature) {
                let page = self.corpus.pages[index].duplicate();
                resolved_pages.push(ResolvedMatch { page, similarity });
            }
            index = index + 1;
        }
        resolved_pages
    }
}

/// Resolving is a function of its inputs: two resolutions of the same scores
/// against the same documents, threshold and window agree.
pub proof fn lemma_resolve_deterministic(
    pages: Seq<Page>,
    scores: Seq<u32>,
    threshold: u32,
    window_size: usize,
    first: Seq<ResolvedMatch>,
    second: Seq<ResolvedMatch>,
)
    requires
        first == resolved(pages, scores, threshold, window_size),
        second == resolved(pages, scores, threshold, window_size),
    ensures
        first == second,
{
}

/// When every score is negative nothing is resolved, whatever the threshold
/// and the window.
pub proof fn lemma_resolve_all_negative(
    pages: Seq<Page>,
    scores: Seq<u32>,
    threshold: u32,
    window_size: usize,
)
    requires
        all_negative(scores),
    ensures
        resolved(pages, scores, threshold, window_size) == Seq::<ResolvedMatch>::empty(),
{
}

/// The positions, in increasing order, of the matches among the first `n`.
pub open spec fn match_positions(scores: Seq<u32>, threshold: u32, n: nat) -> Seq<int>
    decreases n,
{
    if n == 0 {
        Seq::empty()
    } else {
        let before = match_positions(scores, threshold, (n - 1) as nat);
        if at_least(scores[n - 1], threshold) {
            before.push(n - 1)
        } else {
            before
        }
    }
}

/// The positions of the documents that resolving yields.
pub open spec fn resolved_positions(scores: Seq<u32>, threshold: u32, window_size: usize) -> Seq<int> {
    if all_negative(scores) {
        Seq::empty()
    } else {
        match_positions(scores, threshold, scan_length(scores, window_size))
    }
}

proof fn lemma_matches_at_positions(pages: Seq<Page>, scores: Seq<u32>, threshold: u32, n: nat)
    ensures
        matches_within(pages, scores, threshold, n).len() == match_positions(
            scores,
            threshold,
            n,
        ).len(),
        match_positions(scores, threshold, n).len() <= n,
        forall|k: int|
            0 <= k < match_positions(scores, threshold, n).len() ==> {
                let i = #[trigger] match_positions(scores, threshold, n)[k];
                &&& 0 <= i < n
                &&& matches_within(pages, scores, threshold, n)[k] == (ResolvedMatch {
                    page: pages[i],
                    similarity: scores[i],
                })
                &&& at_least(scores[i], threshold)
            },
        forall|k1: int, k2: int|
            0 <= k1 < k2 < match_positions(scores, threshold, n).len() ==> #[trigger] match_positions(
                scores,
                threshold,
                n,
            )[k1] < #[trigger] match_positions(scores, threshold, n)[k2],
    decreases n,
{
    if n > 0 {
        lemma_matches_at_positions(pages, scores, threshold, (n - 1) as nat);
        let p0 = match_positions(scores, threshold, (n - 1) as nat);
        let p = match_positions(scores, threshold, n);
        let m0 = matches_within(pages, scores, threshold, (n - 1) as nat);
        let m = matches_within(pages, scores, threshold, n);
        assert forall|k: int| 0 <= k < p.len() implies {
            let i = #[trigger] p[k];
            &&& 0 <= i < n
            &&& m[k] == (ResolvedMatch { page: pages[i], similarity: scores[i] })
            &&& at_least(scores[i], threshold)
        } by {
            if k < p0.len() {
                assert(p[k] == p0[k]);
                assert(m[k] == m0[k]);
            }
        }
        assert forall|k1: int, k2: int| 0 <= k1 < k2 < p.len() implies #[trigger] p[k1] < #[trigger] p[k2] by {
            if k2 < p0.len() {
                assert(p[k1] == p0[k1] && p[k2] == p0[k2]);
            } else {
                assert(p[k1] == p0[k1]);
                assert(0 <= p0[k1] < n - 1);
            }
        }
    }
}

/// What resolving yields is, in order, the documents at strictly increasing
/// scanned positions whose scores reach the threshold, each with its score:
/// every match is a document of the corpus, none twice, and no more of them
/// than positions scanned.
pub proof fn lemma_resolved_positions(
    pages: Seq<Page>,
    scores: Seq<u32>,
    threshold: u32,
    window_size: usize,
)
    ensures
        resolved(pages, scores, threshold, window_size).len() == resolved_positions(
            scores,
            threshold,
            window_size,
        ).len(),
        resolved(pages, scores, threshold, window_size).len() <= scan_length(scores, window_size),
        forall|k: int|
            0 <= k < resolved_positions(scores, threshold, window_size).len() ==> {
                let i = #[trigger] resolved_positions(scores, threshold, window_size)[k];
                &&& 0 <= i < scan_length(scores, window_size)
                &&& resolved(pages, scores, threshold, window_size)[k] == (ResolvedMatch {
                    page: pages[i],
                    similarity: scores[i],
                })
                &&& at_least(scores[i], threshold)
            },
        forall|k1: int, k2: int|
            0 <= k1 < k2 < resolved_positions(scores, threshold, window_size).len()
                ==> #[trigger] resolved_positions(scores, threshold, window_size)[k1]
                < #[trigger] resolved_positions(scores, threshold, window_size)[k2],
{
    lemma_matches_at_positions(pages, scores, threshold, scan_length(scores, window_size));
}

/// A pass in which the provider never failed either yields exactly one
/// non-empty embedding per document or fails with `DataIntegrity`.
pub proof fn lemma_build_integrity(collected: Seq<Seq<u32>>, doc_count: nat)
    ensures
        build_outcome(false, collected, doc_count) is Ok ==> collected.len() == doc_count
            && all_non_empty(collected),
        build_outcome(false, collected, doc_count) is Err ==> build_outcome(
            false,
            collected,
            doc_count,
        ) == Err::<(), EngineError>(EngineError::DataIntegrity),
{
}

} // verus!
