//! Fixed-size windows with a fixed overlap over the grapheme clusters of a text.

use crate::chars::texts;
use crate::words::{normalized, trim_whitespace};
use unicode_segmentation::UnicodeSegmentation;
use vstd::arithmetic::div_mod::lemma_fundamental_div_mod;
use vstd::prelude::*;

verus! {

/// Why a text could not be cut into windows.
#[derive(Debug, Clone, Copy, PartialEq, Eq, Structural)]
pub enum ChunkError {
    /// The window size is zero, or the overlap is not smaller than the window.
    InvalidParameter,
}

impl ChunkError {
    /// A sentence that says what was wrong.
    pub fn message(&self) -> (r: String)
        ensures
            r@ == "Chunk size must be greater than zero and greater than overlap size"@,
    {
        "Chunk size must be greater than zero and greater than overlap size".to_owned()
    }
}

/// The extended grapheme clusters of `text`, in order, as the Unicode text
/// segmentation rules cut them.
pub uninterp spec fn grapheme_clusters(text: Seq<char>) -> Seq<Seq<char>>;

/// The window parameters that are accepted: a window of at least one cluster,
/// and an overlap smaller than the window.
pub open spec fn valid_window(chunk_size: nat, overlap: nat) -> bool {
    0 < chunk_size && overlap < chunk_size
}

/// How many windows of `chunk_size` clusters, each starting
/// `chunk_size - overlap` after the one before, end within the first
/// `available` clusters.
pub open spec fn window_count(available: nat, chunk_size: nat, overlap: nat) -> nat
    recommends
        valid_window(chunk_size, overlap),
{
    if chunk_size > available {
        0
    } else {
        ((available - chunk_size) / (chunk_size - overlap) + 1) as nat
    }
}

/// The clusters from position `start` on, at most `size` of them: fewer where
/// `clusters` ends before.
pub open spec fn window(clusters: Seq<Seq<char>>, start: int, size: int) -> Seq<Seq<char>>
    recommends
        0 <= start,
        0 <= size,
{
    let lo = if start < clusters.len() {
        start
    } else {
        clusters.len() as int
    };
    let hi = if start + size < clusters.len() {
        start + size
    } else {
        clusters.len() as int
    };
    clusters.subrange(lo, hi)
}

/// Where window number `k` starts.
pub open spec fn window_start(k: int, chunk_size: nat, overlap: nat) -> int {
    k * (chunk_size - overlap)
}

/// The chunks cut from `clusters`: as many as `window_count` gives for
/// `available`, the one of number `k` being the text of the window that starts
/// at `window_start(k, ..)`.
pub open spec fn windows(
    clusters: Seq<Seq<char>>,
    available: nat,
    chunk_size: nat,
    overlap: nat,
) -> Seq<Seq<char>> {
    Seq::new(
        window_count(available, chunk_size, overlap),
        |k: int| window(clusters, window_start(k, chunk_size, overlap), chunk_size as int).flatten(),
    )
}

/// Window number `k` is counted exactly when it ends within `available`.
pub proof fn lemma_window_counted(available: nat, chunk_size: nat, overlap: nat, k: int)
    requires
        valid_window(chunk_size, overlap),
        0 <= k,
    ensures
        k < window_count(available, chunk_size, overlap) <==> window_start(k, chunk_size, overlap)
            + chunk_size <= available,
        window_start(k + 1, chunk_size, overlap) == window_start(k, chunk_size, overlap)
            + chunk_size - overlap,
        0 <= window_start(k, chunk_size, overlap),
{
    let step = chunk_size - overlap;
    assert((k + 1) * step == k * step + step) by (nonlinear_arith);
    assert(0 <= k * step) by (nonlinear_arith)
        requires
            0 <= k,
            0 < step,
    ;
    if chunk_size <= available {
        let d = available - chunk_size;
        let q = d / step;
        lemma_fundamental_div_mod(d, step);
        assert(0 <= d % step < step);
        assert(d == step * q + d % step);
        if k <= q {
            assert(k * step <= step * q) by (nonlinear_arith)
                requires
                    k <= q,
                    0 < step,
            ;
        } else {
            assert(k * step >= step * q + step) by (nonlinear_arith)
                requires
                    k >= q + 1,
                    0 < step,
            ;
        }
    }
}

/// Two windows in a row share `overlap` clusters: the last `overlap` clusters
/// of the first are the first `overlap` clusters of the second, where
/// `clusters` is long enough to fill both.
pub proof fn lemma_windows_overlap(
    clusters: Seq<Seq<char>>,
    chunk_size: nat,
    overlap: nat,
    k: int,
)
    requires
        valid_window(chunk_size, overlap),
        0 <= k,
        window_start(k + 1, chunk_size, overlap) + chunk_size <= clusters.len(),
    ensures
        ({
            let first = window(clusters, window_start(k, chunk_size, overlap), chunk_size as int);
            let second = window(
                clusters,
                window_start(k + 1, chunk_size, overlap),
                chunk_size as int,
            );
            &&& first.len() == chunk_size
            &&& second.len() == chunk_size
            &&& first.skip(chunk_size - overlap) == second.take(overlap as int)
            &&& first.skip(chunk_size - overlap).len() == overlap
        }),
{
    lemma_window_counted(0, chunk_size, overlap, k);
}

/// Every chunk is the text of a run of neighbouring clusters, of at most
/// `chunk_size` of them.
pub proof fn lemma_windows_bounded(
    clusters: Seq<Seq<char>>,
    available: nat,
    chunk_size: nat,
    overlap: nat,
    k: int,
)
    requires
        valid_window(chunk_size, overlap),
        0 <= k < windows(clusters, available, chunk_size, overlap).len(),
    ensures
        ({
            let run = window(clusters, window_start(k, chunk_size, overlap), chunk_size as int);
            &&& windows(clusters, available, chunk_size, overlap)[k] == run.flatten()
            &&& run.len() <= chunk_size
            &&& available <= clusters.len() ==> run.len() == chunk_size
        }),
{
    lemma_window_counted(available, chunk_size, overlap, k);
}

/// Calls `UnicodeSegmentation::graphemes` of the crate unicode-segmentation on
/// `text`, asking for extended clusters, and copies each cluster into a string
/// of its own. The contract only gives the result its name: what the clusters
/// are is left to that crate.
#[verifier::external_body]
fn graphemes_of(text: &str) -> (r: Vec<String>)
    ensures
        texts(r@) == grapheme_clusters(text@),
{
    UnicodeSegmentation::graphemes(text, true).map(String::from).collect()
}

/// The text of `clusters[lo..hi]`, put together.
fn concat_range(clusters: &Vec<String>, lo: usize, hi: usize) -> (r: String)
    requires
        lo <= hi <= clusters.len(),
    ensures
        r@ == texts(clusters@).subrange(lo as int, hi as int).flatten(),
{
    let mut out = String::new();
    let mut j: usize = lo;
    while j < hi
        invariant
            lo <= j <= hi <= clusters.len(),
            out@ == texts(clusters@).subrange(lo as int, j as int).flatten(),
        decreases hi - j,
    {
        proof {
            let run = texts(clusters@).subrange(lo as int, j as int);
            assert(texts(clusters@).subrange(lo as int, j as int + 1) == run.push(clusters@[j as int]@));
            run.lemma_flatten_push(clusters@[j as int]@);
        }
        out.append(clusters[j].as_str());
        j = j + 1;
    }
    out
}

/// Cuts `clusters` into windows of `chunk_size` clusters, each starting
/// `chunk_size - overlap` clusters after the one before. Windows are cut as
/// long as they end within the first `available` positions; a window that
/// reaches past the end of `clusters` holds what is there.
pub fn window_clusters(
    clusters: &Vec<String>,
    available: usize,
    chunk_size: usize,
    overlap: usize,
) -> (r: Result<Vec<String>, ChunkError>)
    ensures
        r is Err <==> !valid_window(chunk_size as nat, overlap as nat),
        r matches Ok(chunks) ==> texts(chunks@) == windows(
            texts(clusters@),
            available as nat,
            chunk_size as nat,
            overlap as nat,
        ),
        r matches Ok(chunks) ==> chunks.len() == window_count(
            available as nat,
            chunk_size as nat,
            overlap as nat,
        ),
{
    if chunk_size == 0 || overlap >= chunk_size {
        return Err(ChunkError::InvalidParameter);
    }
    let mut chunks: Vec<String> = Vec::new();
    let ghost all = texts(clusters@);
    let ghost want = windows(all, available as nat, chunk_size as nat, overlap as nat);
    if chunk_size > available {
        proof {
            assert(texts(chunks@) == want);
        }
        return Ok(chunks);
    }
    let step: usize = chunk_size - overlap;
    let last: usize = available - chunk_size;
    let n: usize = clusters.len();
    let mut start: usize = 0;
    let ghost mut k: int = 0;
    proof {
        lemma_window_counted(available as nat, chunk_size as nat, overlap as nat, 0);
    }
    while start <= last
        invariant
            valid_window(chunk_size as nat, overlap as nat),
            chunk_size <= available,
            step == chunk_size - overlap,
            last == available - chunk_size,
            n == clusters.len(),
            all == texts(clusters@),
            want == windows(all, available as nat, chunk_size as nat, overlap as nat),
            0 <= k <= want.len(),
            start == window_start(k, chunk_size as nat, overlap as nat),
            start <= available,
            chunks.len() == k,
            texts(chunks@) == want.take(k),
        decreases available - start,
    {
        proof {
            lemma_window_counted(available as nat, chunk_size as nat, overlap as nat, k);
            lemma_window_counted(available as nat, chunk_size as nat, overlap as nat, k + 1);
        }
        let lo: usize = if start < n {
            start
        } else {
            n
        };
        let hi: usize = if chunk_size < n - lo {
            start + chunk_size
        } else {
            n
        };
        let chunk = concat_range(clusters, lo, hi);
        let ghost before = texts(chunks@);
        chunks.push(chunk);
        proof {
            assert(chunk@ == window(all, start as int, chunk_size as int).flatten());
            assert(texts(chunks@) == before.push(chunk@));
            assert(want.take(k + 1) == want.take(k).push(want[k]));
            k = k + 1;
        }
        start = start + step;
    }
    proof {
        lemma_window_counted(available as nat, chunk_size as nat, overlap as nat, k);
        assert(want.take(k) == want);
    }
    Ok(chunks)
}

/// Cuts `text` into chunks of `chunk_size` grapheme clusters, each starting
/// `chunk_size - overlap` clusters after the one before.
///
/// The chunks are cut from `text` as it stands. How many there are is set by
/// the number of clusters that `text` has once its whitespace is normalized:
/// windows are cut as long as they end within that number.
pub fn chunk_text_with_overlap(text: &str, chunk_size: usize, overlap: usize) -> (r: Result<
    Vec<String>,
    ChunkError,
>)
    ensures
        r is Err <==> !valid_window(chunk_size as nat, overlap as nat),
        r matches Ok(chunks) ==> texts(chunks@) == windows(
            grapheme_clusters(text@),
            grapheme_clusters(normalized(text@)).len(),
            chunk_size as nat,
            overlap as nat,
        ),
{
    if chunk_size == 0 || overlap >= chunk_size {
        return Err(ChunkError::InvalidParameter);
    }
    let trimmed = trim_whitespace(text);
    let available = graphemes_of(trimmed.as_str()).len();
    let clusters = graphemes_of(text);
    window_clusters(&clusters, available, chunk_size, overlap)
}

} // verus!
