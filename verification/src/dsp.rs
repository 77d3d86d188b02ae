//! The integer side of spectral analysis: grouping samples into analysis
//! windows, and choosing which spectral peaks to report.

use vstd::prelude::*;

verus! {

/// One step of windowing: `samples` join what is `pending`; when the
/// total reaches `size`, the oldest `size` samples come out as a window and
/// the rest stays pending, otherwise all of it stays pending.
pub open spec fn window_step<T>(pending: Seq<T>, samples: Seq<T>, size: nat) -> (Option<Seq<T>>, Seq<T>) {
    let all = pending + samples;
    if all.len() < size {
        (None, all)
    } else {
        (Some(all.take(size as int)), all.skip(size as int))
    }
}

/// The windows that come out, and the samples left pending, when the
/// chunks are pushed in order into an empty buffer.
pub open spec fn windows_after<T>(chunks: Seq<Seq<T>>, size: nat) -> (Seq<Seq<T>>, Seq<T>)
    decreases chunks.len(),
{
    if chunks.len() == 0 {
        (Seq::empty(), Seq::empty())
    } else {
        let earlier = windows_after(chunks.drop_last(), size);
        let step = window_step(earlier.1, chunks.last(), size);
        match step.0 {
            Some(w) => (earlier.0.push(w), step.1),
            None => (earlier.0, step.1),
        }
    }
}

/// No sample is lost, repeated or reordered by windowing: after any run of
/// pushes into an empty buffer, the windows that came out, one after the
/// other, followed by the pending samples, are exactly the samples pushed;
/// and every window holds `size` samples.
pub proof fn lemma_windows_keep_every_sample<T>(chunks: Seq<Seq<T>>, size: nat)
    ensures
        windows_after(chunks, size).0.flatten() + windows_after(chunks, size).1 == chunks.flatten(),
        forall|i: int|
            0 <= i < windows_after(chunks, size).0.len() ==> (#[trigger] windows_after(chunks, size).0[i]).len() == size,
    decreases chunks.len(),
{
    if chunks.len() > 0 {
        let rest = chunks.drop_last();
        lemma_windows_keep_every_sample(rest, size);
        let earlier = windows_after(rest, size);
        let step = window_step(earlier.1, chunks.last(), size);
        assert(rest.push(chunks.last()) == chunks);
        rest.lemma_flatten_push(chunks.last());
        let all = earlier.1 + chunks.last();
        match step.0 {
            Some(w) => {
                earlier.0.lemma_flatten_push(w);
                assert(all.take(size as int) + all.skip(size as int) == all);
                assert(windows_after(chunks, size).0 == earlier.0.push(w));
                assert(earlier.0.flatten() + w + step.1 == earlier.0.flatten() + earlier.1 + chunks.last());
            },
            None => {
                assert(earlier.0.flatten() + step.1 == earlier.0.flatten() + earlier.1 + chunks.last());
            },
        }
    }
}

/// Windowing hands out a window exactly when the pending samples and the
/// new ones together number at least a window's size; the window then
/// holds exactly `size` samples, and the window followed by what stays
/// pending is what was pending followed by the new samples. Otherwise
/// everything stays pending.
pub proof fn lemma_window_comes_out_when_full<T>(pending: Seq<T>, samples: Seq<T>, size: nat)
    ensures
        window_step(pending, samples, size).0 is None <==> pending.len() + samples.len() < size,
        window_step(pending, samples, size).0 is None ==> window_step(pending, samples, size).1
            == pending + samples,
        window_step(pending, samples, size).0 matches Some(w) ==> {
            &&& w.len() == size
            &&& w + window_step(pending, samples, size).1 == pending + samples
        },
{
    let all = pending + samples;
    if all.len() >= size {
        assert(all.take(size as int) + all.skip(size as int) == all);
    }
}

/// The samples of an optional window.
pub open spec fn optional_samples<T>(w: Option<Vec<T>>) -> Option<Seq<T>> {
    match w {
        Some(v) => Some(v@),
        None => None,
    }
}

/// Collects incoming samples until a full analysis window is available.
pub struct SampleWindow<T> {
    buffered: Vec<T>,
    window_size: usize,
}

impl<T: Copy> SampleWindow<T> {
    /// Samples received and not yet handed out in a window, oldest first.
    pub closed spec fn pending(&self) -> Seq<T> {
        self.buffered@
    }

    /// Number of samples in one analysis window.
    pub closed spec fn size(&self) -> nat {
        self.window_size as nat
    }

    /// An empty buffer for windows of `window_size` samples.
    pub fn new(window_size: usize) -> (w: Self)
        ensures
            w.pending() == Seq::<T>::empty(),
            w.size() == window_size,
    {
        SampleWindow { buffered: Vec::with_capacity(window_size), window_size }
    }

    /// Number of samples in one analysis window.
    pub fn window_size(&self) -> (n: usize)
        ensures
            n == self.size(),
    {
        self.window_size
    }

    /// Appends `samples` to what is pending. While fewer than a window's
    /// worth of samples are pending, nothing comes out; otherwise the oldest
    /// window's worth comes out (one window per call) and the rest stays
    /// pending. What comes out, followed by what stays, is exactly what was
    /// pending followed by `samples`.
    pub fn push_samples(&mut self, samples: &[T]) -> (window: Option<Vec<T>>)
        ensures
            final(self).size() == old(self).size(),
            (optional_samples(window), final(self).pending()) == window_step(
                old(self).pending(),
                samples@,
                old(self).size(),
            ),
            window is None <==> old(self).pending().len() + samples@.len() < old(self).size(),
            window is None ==> final(self).pending() == old(self).pending() + samples@,
            window matches Some(w) ==> {
                &&& w@.len() == old(self).size()
                &&& w@ + final(self).pending() == old(self).pending() + samples@
            },
    {
        let ghost before = self.buffered@;
        let mut k: usize = 0;
        while k < samples.len()
            invariant
                k <= samples.len(),
                self.window_size == old(self).window_size,
                self.buffered@ == before + samples@.take(k as int),
            decreases samples.len() - k,
        {
            self.buffered.push(samples[k]);
            assert(samples@.take(k + 1) == samples@.take(k as int).push(samples@[k as int]));
            k = k + 1;
        }
        assert(samples@.take(samples.len() as int) == samples@);
        proof {
            lemma_window_comes_out_when_full(before, samples@, self.window_size as nat);
        }
        if self.buffered.len() < self.window_size {
            return None;
        }
        let mut rest = self.buffered.split_off(self.window_size);
        std::mem::swap(&mut self.buffered, &mut rest);
        Some(rest)
    }
}


/// Most peaks reported for one window (simultaneous notes and overtones).
pub const MAX_PEAKS: usize = 6;

/// Peaks closer than this many bins to a stronger accepted peak are taken
/// for sidelobes or leakage of the same note rather than a distinct pitch.
pub const MIN_PEAK_SEPARATION_BINS: usize = 2;

/// Distance between two bins.
pub open spec fn bin_distance(a: int, b: int) -> int {
    if a >= b {
        a - b
    } else {
        b - a
    }
}

/// `bin` lies at least the minimum separation away from every peak.
pub open spec fn clear_of(peaks: Seq<usize>, bin: int) -> bool {
    forall|i: int| 0 <= i < peaks.len() ==> bin_distance(bin, peaks[i] as int) >= MIN_PEAK_SEPARATION_BINS
}

/// The peaks accepted from candidate bins given strongest first: each
/// candidate in turn is accepted while fewer than the maximum are accepted
/// and it is clear of every peak accepted before it.
pub open spec fn accepted_peaks(candidates: Seq<usize>) -> Seq<usize>
    decreases candidates.len(),
{
    if candidates.len() == 0 {
        Seq::empty()
    } else {
        let before = accepted_peaks(candidates.drop_last());
        if before.len() < MAX_PEAKS && clear_of(before, candidates.last() as int) {
            before.push(candidates.last())
        } else {
            before
        }
    }
}

proof fn lemma_saturated_peaks_stay(candidates: Seq<usize>, k: int, n: int)
    requires
        0 <= k <= n <= candidates.len(),
        accepted_peaks(candidates.take(k)).len() >= MAX_PEAKS,
    ensures
        accepted_peaks(candidates.take(n)) == accepted_peaks(candidates.take(k)),
    decreases n - k,
{
    if n > k {
        lemma_saturated_peaks_stay(candidates, k, n - 1);
        assert(candidates.take(n).drop_last() == candidates.take(n - 1));
    }
}

/// Chooses the peaks to report from candidate bins ordered strongest
/// first: a candidate is kept when it lies at least
/// `MIN_PEAK_SEPARATION_BINS` from every peak already kept, and the choice
/// stops once `MAX_PEAKS` are kept.
pub fn select_peaks(candidates: &[usize]) -> (peaks: Vec<usize>)
    ensures
        peaks@ == accepted_peaks(candidates@),
{
    let mut peaks: Vec<usize> = Vec::new();
    let mut k: usize = 0;
    while k < candidates.len()
        invariant
            k <= candidates.len(),
            peaks@ == accepted_peaks(candidates@.take(k as int)),
        decreases candidates.len() - k,
    {
        assert(candidates@.take(k + 1).drop_last() == candidates@.take(k as int));
        if peaks.len() >= MAX_PEAKS {
            proof {
                lemma_saturated_peaks_stay(candidates@, k as int, candidates.len() as int);
                assert(candidates@.take(candidates.len() as int) == candidates@);
            }
            return peaks;
        }
        let bin = candidates[k];
        let mut clear = true;
        let mut j: usize = 0;
        while j < peaks.len()
            invariant
                j <= peaks.len(),
                clear == (forall|i: int| 0 <= i < j ==> bin_distance(bin as int, peaks@[i] as int) >= MIN_PEAK_SEPARATION_BINS),
            decreases peaks.len() - j,
        {
            let p = peaks[j];
            let distance = if bin >= p { bin - p } else { p - bin };
            if distance < MIN_PEAK_SEPARATION_BINS {
                clear = false;
            }
            j = j + 1;
        }
        if clear {
            peaks.push(bin);
        }
        k = k + 1;
    }
    assert(candidates@.take(candidates.len() as int) == candidates@);
    peaks
}


/// The peak choice is greedy, taken one candidate at a time: with one more
/// (weaker) candidate `bin` after `candidates`, the choice is the earlier
/// one with `bin` added when fewer than six peaks are kept and `bin` lies at
/// least two bins away, on either side, from every kept peak; otherwise the
/// earlier choice is unchanged. With no candidate, nothing is chosen.
pub proof fn lemma_peak_choice_is_greedy(candidates: Seq<usize>, bin: usize)
    ensures
        accepted_peaks(Seq::<usize>::empty()) == Seq::<usize>::empty(),
        ({
            let kept = accepted_peaks(candidates);
            let fits = kept.len() < 6 && forall|i: int|
                0 <= i < kept.len() ==> bin >= kept[i] + 2 || kept[i] >= bin + 2;
            accepted_peaks(candidates.push(bin)) == if fits {
                kept.push(bin)
            } else {
                kept
            }
        }),
{
    let kept = accepted_peaks(candidates);
    assert(candidates.push(bin).drop_last() == candidates);
    assert(clear_of(kept, bin as int) == forall|i: int|
        0 <= i < kept.len() ==> bin >= kept[i] + 2 || kept[i] >= bin + 2);
}

/// `peaks` are entries of `candidates` taken in their order (a
/// subsequence).
pub open spec fn kept_in_order(peaks: Seq<usize>, candidates: Seq<usize>) -> bool {
    exists|idx: Seq<int>| #[trigger] taken_at(peaks, candidates, idx)
}

/// `peaks[i]` is `candidates[idx[i]]`, with `idx` strictly increasing.
pub open spec fn taken_at(peaks: Seq<usize>, candidates: Seq<usize>, idx: Seq<int>) -> bool {
    &&& idx.len() == peaks.len()
    &&& forall|i: int| 0 <= i < idx.len() ==> 0 <= #[trigger] idx[i] < candidates.len() && peaks[i] == candidates[idx[i]]
    &&& forall|i: int, j: int| 0 <= i < j < idx.len() ==> idx[i] < idx[j]
}

/// The peak choice reports at most `MAX_PEAKS` peaks, any two of them at
/// least `MIN_PEAK_SEPARATION_BINS` apart, and each of them a candidate,
/// in the candidates' (strongest first) order.
pub proof fn lemma_peak_choice(candidates: Seq<usize>)
    ensures
        accepted_peaks(candidates).len() <= MAX_PEAKS,
        forall|i: int, j: int|
            0 <= i < j < accepted_peaks(candidates).len() ==> bin_distance(
                accepted_peaks(candidates)[i] as int,
                accepted_peaks(candidates)[j] as int,
            ) >= MIN_PEAK_SEPARATION_BINS,
        kept_in_order(accepted_peaks(candidates), candidates),
    decreases candidates.len(),
{
    let peaks = accepted_peaks(candidates);
    if candidates.len() == 0 {
        assert(kept_in_order(peaks, candidates)) by {
            let idx = Seq::<int>::empty();
            assert(taken_at(peaks, candidates, idx));
        }
    } else {
        let rest = candidates.drop_last();
        let before = accepted_peaks(rest);
        lemma_peak_choice(rest);
        let idx0 = choose|idx: Seq<int>| taken_at(before, rest, idx);
        if before.len() < MAX_PEAKS && clear_of(before, candidates.last() as int) {
            let idx = idx0.push(candidates.len() - 1);
            assert forall|i: int| 0 <= i < idx.len() implies 0 <= #[trigger] idx[i] < candidates.len()
                && peaks[i] == candidates[idx[i]] by {
                if i < idx0.len() {
                    assert(idx[i] == idx0[i]);
                    assert(rest[idx0[i]] == candidates[idx0[i]]);
                }
            }
            assert forall|i: int, j: int| 0 <= i < j < idx.len() implies idx[i] < idx[j] by {
                if j < idx0.len() {
                    assert(idx[i] == idx0[i] && idx[j] == idx0[j]);
                } else {
                    assert(idx[i] == idx0[i]);
                }
            }
            assert forall|i: int, j: int| 0 <= i < j < peaks.len() implies bin_distance(
                peaks[i] as int,
                peaks[j] as int,
            ) >= MIN_PEAK_SEPARATION_BINS by {
                if j == peaks.len() - 1 {
                    assert(bin_distance(candidates.last() as int, before[i] as int) >= MIN_PEAK_SEPARATION_BINS);
                } else {
                    assert(peaks[i] == before[i] && peaks[j] == before[j]);
                }
            }
            assert(taken_at(peaks, candidates, idx));
        } else {
            assert forall|i: int| 0 <= i < idx0.len() implies 0 <= #[trigger] idx0[i] < candidates.len()
                && peaks[i] == candidates[idx0[i]] by {
                assert(rest[idx0[i]] == candidates[idx0[i]]);
            }
            assert(taken_at(peaks, candidates, idx0));
        }
    }
}

} // verus!
