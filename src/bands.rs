//! The tile scheduler's partition of an image's rows into contiguous bands,
//! one per worker.
use vstd::prelude::*;

verus! {

/// The first row of band `k` when `height` rows are dealt to `workers`
/// bands: each band gets `height / workers` rows, and the first
/// `height % workers` bands one more.
pub open spec fn band_start(height: nat, workers: nat, k: nat) -> nat
    recommends
        workers > 0,
{
    let q = height / workers;
    let extra = height % workers;
    k * q + if k < extra {
        k
    } else {
        extra
    }
}

/// The bands start at row 0, end at the last row, follow each other, and
/// differ in size by at most one row.
pub proof fn lemma_bands_cover(height: nat, workers: nat, k: nat)
    requires
        workers > 0,
        k < workers,
    ensures
        band_start(height, workers, 0) == 0,
        band_start(height, workers, workers) == height,
        band_start(height, workers, k) <= band_start(height, workers, k + 1),
        band_start(height, workers, k + 1) - band_start(height, workers, k) == height / workers
            || band_start(height, workers, k + 1) - band_start(height, workers, k) == height
            / workers + 1,
{
    let q = height / workers;
    let extra = height % workers;
    assert(height == workers * q + extra) by (nonlinear_arith)
        requires
            workers > 0,
            q == height / workers,
            extra == height % workers,
    ;
    assert(extra < workers);
    assert((k + 1) * q == k * q + q) by (nonlinear_arith);
    assert(workers * q == q * workers) by (nonlinear_arith);
}

proof fn lemma_band_start_bound(height: nat, workers: nat, k: nat)
    requires
        workers > 0,
        k <= workers,
    ensures
        band_start(height, workers, k) <= height,
        k * (height / workers) <= height,
{
    let q = height / workers;
    let extra = height % workers;
    assert(height == workers * q + extra) by (nonlinear_arith)
        requires
            workers > 0,
            q == height / workers,
            extra == height % workers,
    ;
    assert(k * q <= workers * q) by (nonlinear_arith)
        requires
            k <= workers,
    ;
}

/// The bands of `height` rows for `workers` workers, as `(first row, end
/// row)`, band `k` being `[band_start(k), band_start(k + 1))`.
pub fn row_bands(height: usize, workers: usize) -> (r: Vec<(usize, usize)>)
    requires
        workers > 0,
    ensures
        r@.len() == workers,
        forall|k: int|
            0 <= k < workers ==> r@[k] == (
                band_start(height as nat, workers as nat, k as nat) as usize,
                band_start(height as nat, workers as nat, (k + 1) as nat) as usize,
            ),
{
    let q = height / workers;
    let extra = height % workers;
    let mut r: Vec<(usize, usize)> = Vec::new();
    let mut start: usize = 0;
    let mut k: usize = 0;
    while k < workers
        invariant
            k <= workers,
            workers > 0,
            q == height / workers,
            extra == height % workers,
            start == band_start(height as nat, workers as nat, k as nat),
            r@.len() == k,
            forall|j: int|
                0 <= j < k ==> r@[j] == (
                    band_start(height as nat, workers as nat, j as nat) as usize,
                    band_start(height as nat, workers as nat, (j + 1) as nat) as usize,
                ),
        decreases workers - k,
    {
        proof {
            lemma_band_start_bound(height as nat, workers as nat, (k + 1) as nat);
            lemma_bands_cover(height as nat, workers as nat, k as nat);
            assert((k + 1) * q == k * q + q) by (nonlinear_arith);
        }
        let size = if k < extra {
            q + 1
        } else {
            q
        };
        let end = start + size;
        r.push((start, end));
        start = end;
        k = k + 1;
    }
    r
}

} // verus!
