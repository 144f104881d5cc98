//! The extraction of peaks from the folded spectrum.
//!
//! The spectrum of one octave is taken apart greedily. The strongest bin that
//! is left gives a bell curve: as high as the bin, of the width that the
//! settings give, its mean refined from the middle of the bin towards the
//! weighted centre of the spectrum around it. Height and width are not
//! refined: they are fixed by the bin and by the settings. The curve is counted, its share
//! is taken out of the spectrum, and the search goes on until no bin exceeds
//! the least amplitude of a new note or as many curves are counted as there
//! are slots for notes.

use vstd::prelude::*;
use crate::config::Configuration;
use crate::fixed::{
    bell,
    clamp_amp,
    clamp_amplitude,
    div_rem_floor,
    gap_round,
    gaussian,
    lemma_bell_bounds,
    lemma_product_bound,
    lemma_quotient_bound,
    signed_gap,
    wrap,
    wrapped,
    AMP_MAX,
    ONE,
    SPAN_MAX,
};
use crate::spectrum::{copy_spectrum, spectrum_wf};
use crate::tracker::NoteDists;

verus! {

/// Half a bin: the farthest that the mean of a curve lies from the middle of
/// its bin.
pub const HALF: i64 = 500_000;

/// The largest weight of a bin: the largest amplitude, in millionths of a
/// millionth.
pub const WEIGHT_MAX: i128 = 1_000_000_000_000_000_000;

/// The largest weight of a bin times the largest way to it.
pub const PULL_MAX: i128 = 1_000_000_000_000_000_000_000_000_000;

/// The index of the largest of the first `n` values, the lowest such index if
/// several are as large; -1 if `n` is not positive.
pub open spec fn strongest(work: Seq<i64>, n: int) -> int
    decreases n,
{
    if n <= 0 {
        -1
    } else {
        let best = strongest(work, n - 1);
        if best < 0 || work[n - 1] > work[best] {
            n - 1
        } else {
            best
        }
    }
}

/// The way from the place `m` to the middle of bin `k`, the shortest way round
/// the octave.
pub open spec fn offset(m: int, k: int, circ: int) -> int {
    signed_gap(m, k * ONE, circ)
}

/// The weight that bin `k` has for a curve of width `sigma` with its mean at
/// `m`: its value times the height of the curve there.
pub open spec fn weight_at(work: Seq<i64>, m: int, sigma: int, circ: int, k: int) -> int {
    bell(offset(m, k, circ), sigma) * work[k]
}

/// The weights of the first `n` bins, summed.
pub open spec fn mass(work: Seq<i64>, m: int, sigma: int, circ: int, n: int) -> int
    decreases n,
{
    if n <= 0 {
        0
    } else {
        mass(work, m, sigma, circ, n - 1) + weight_at(work, m, sigma, circ, n - 1)
    }
}

/// The weights of the first `n` bins, each times the way from `m` to its bin,
/// summed.
pub open spec fn pull(work: Seq<i64>, m: int, sigma: int, circ: int, n: int) -> int
    decreases n,
{
    if n <= 0 {
        0
    } else {
        pull(work, m, sigma, circ, n - 1) + weight_at(work, m, sigma, circ, n - 1) * offset(
            m,
            n - 1,
            circ,
        )
    }
}

/// `x` brought into the range from `lo` to `hi`.
pub open spec fn bounded(x: int, lo: int, hi: int) -> int {
    if x < lo {
        lo
    } else if x > hi {
        hi
    } else {
        x
    }
}

/// One step of refinement: the mean `m` moved to the weighted centre of the
/// spectrum around it, but no farther than half a bin from the middle of bin
/// `peak`.
pub open spec fn shifted(work: Seq<i64>, peak: int, m: int, sigma: int, circ: int) -> int {
    let total = mass(work, m, sigma, circ, work.len() as int);
    if total <= 0 {
        m
    } else {
        bounded(
            m + pull(work, m, sigma, circ, work.len() as int) / total,
            peak * ONE - HALF,
            peak * ONE + HALF,
        )
    }
}

/// The mean after at most `steps` steps of refinement, fewer if a step leaves
/// it where it is.
pub open spec fn refined(
    work: Seq<i64>,
    peak: int,
    m: int,
    sigma: int,
    circ: int,
    steps: nat,
) -> int
    decreases steps,
{
    if steps == 0 {
        m
    } else {
        let next = shifted(work, peak, m, sigma, circ);
        if next == m {
            m
        } else {
            refined(work, peak, next, sigma, circ, (steps - 1) as nat)
        }
    }
}

/// The curve fitted to bin `peak` of the spectrum `work`. Of its three
/// numbers only the mean is refined, step by step. The height is the height of
/// the bin, so that a curve is exactly as strong as the bin that it was found
/// in and is counted if and only if that bin exceeds the least amplitude of a
/// new note. The width is the width that the settings give: the settings are
/// the one place where the shape of a peak is chosen.
pub open spec fn fitted(work: Seq<i64>, peak: int, cfg: Configuration) -> NoteDists {
    NoteDists {
        amp: work[peak],
        mean: wrapped(
            refined(
                work,
                peak,
                peak * ONE,
                cfg.default_sigma as int,
                cfg.circle(),
                cfg.decompose_iterations as nat,
            ),
            cfg.circle(),
        ) as i64,
        sigma: cfg.default_sigma,
        taken: false,
    }
}

/// The spectrum `work` without the curve `d` that was fitted to bin `peak`:
/// that bin is cleared, and every other bin loses the height of the curve at
/// its middle, as far as it has it.
pub open spec fn without(work: Seq<i64>, peak: int, d: NoteDists, circ: int) -> Seq<i64> {
    Seq::new(
        work.len(),
        |k: int|
            if k == peak {
                0i64
            } else {
                clamp_amp(
                    work[k] - (d.amp * bell(offset(d.mean as int, k, circ), d.sigma as int)) / (
                    ONE as int),
                ) as i64
            },
    )
}

/// The curves taken out of the spectrum `work`, at most `room` of them, in the
/// order in which they are found.
pub open spec fn extracted(work: Seq<i64>, cfg: Configuration, room: nat) -> Seq<NoteDists>
    decreases room,
{
    let peak = strongest(work, work.len() as int);
    if room == 0 || peak < 0 || work[peak] <= cfg.note_minimum_new_distribution_value {
        Seq::empty()
    } else {
        let d = fitted(work, peak, cfg);
        seq![d] + extracted(without(work, peak, d, cfg.circle()), cfg, (room - 1) as nat)
    }
}

/// The peaks of a folded spectrum: at most one for every two bins.
pub open spec fn peaks(spectrum: Seq<i64>, cfg: Configuration) -> Seq<NoteDists> {
    extracted(spectrum, cfg, (spectrum.len() / 2) as nat)
}

/// The curve is a peak as the tracker expects it: higher than the least
/// amplitude of a new note, its mean within the octave, of the width that the
/// settings give, and not taken.
pub open spec fn is_peak(d: NoteDists, cfg: Configuration) -> bool {
    &&& cfg.note_minimum_new_distribution_value < d.amp <= AMP_MAX
    &&& 0 <= d.mean < cfg.circle()
    &&& d.sigma == cfg.default_sigma
    &&& !d.taken
}

fn strongest_bin(work: &Vec<i64>) -> (r: (bool, usize))
    ensures
        r.0 ==> r.1 < work.len() && r.1 == strongest(work@, work.len() as int),
        !r.0 ==> strongest(work@, work.len() as int) == -1,
{
    let mut found = false;
    let mut best: usize = 0;
    let mut k: usize = 0;
    while k < work.len()
        invariant
            k <= work.len(),
            found ==> best < k && best == strongest(work@, k as int),
            !found ==> strongest(work@, k as int) == -1,
        decreases work.len() - k,
    {
        if !found || work[k] > work[best] {
            found = true;
            best = k;
        }
        k += 1;
    }
    (found, best)
}

proof fn lemma_weight_bounds(work: Seq<i64>, m: int, sigma: int, circ: int, k: int)
    requires
        0 <= k < work.len(),
        spectrum_wf(work),
        circ > 0,
    ensures
        0 <= weight_at(work, m, sigma, circ, k) <= WEIGHT_MAX,
        circ <= SPAN_MAX ==> -PULL_MAX <= weight_at(work, m, sigma, circ, k) * offset(
            m,
            k,
            circ,
        ) <= PULL_MAX,
{
    let g = bell(offset(m, k, circ), sigma);
    lemma_bell_bounds(offset(m, k, circ), sigma);
    let h = work[k] as int;
    assert(0 <= g * h <= ONE * AMP_MAX) by (nonlinear_arith)
        requires
            0 <= g <= ONE,
            0 <= h <= AMP_MAX,
    ;
    vstd::arithmetic::div_mod::lemma_mod_bound(k * ONE - m, circ);
    if circ <= SPAN_MAX {
        lemma_product_bound(
            g * h,
            offset(m, k, circ),
            WEIGHT_MAX as int,
            SPAN_MAX as int,
        );
    }
}

fn shift(work: &Vec<i64>, peak: usize, m: i64, sigma: i64, circ: i64) -> (next: i64)
    requires
        spectrum_wf(work@),
        peak < work.len(),
        0 < circ <= SPAN_MAX,
        work.len() <= 1000,
        sigma <= SPAN_MAX,
    ensures
        next == shifted(work@, peak as int, m as int, sigma as int, circ as int),
{
    let mut total: i128 = 0;
    let mut drawn: i128 = 0;
    let mut k: usize = 0;
    while k < work.len()
        invariant
            k <= work.len(),
            work.len() <= 1000,
            spectrum_wf(work@),
            0 < circ <= SPAN_MAX,
            sigma <= SPAN_MAX,
            total == mass(work@, m as int, sigma as int, circ as int, k as int),
            drawn == pull(work@, m as int, sigma as int, circ as int, k as int),
            0 <= total <= k * WEIGHT_MAX,
            -(k * PULL_MAX) <= drawn <= k * PULL_MAX,
        decreases work.len() - k,
    {
        let delta: i64 = gap_round(m, k as i64 * ONE, circ);
        let g: i64 = gaussian(delta, sigma);
        proof {
            lemma_weight_bounds(work@, m as int, sigma as int, circ as int, k as int);
        }
        let weight: i128 = g as i128 * work[k] as i128;
        total = total + weight;
        drawn = drawn + weight * (delta as i128);
        k += 1;
    }
    if total <= 0 {
        m
    } else {
        let (step, _) = div_rem_floor(drawn, total);
        proof {
            lemma_quotient_bound(drawn as int, total as int, 1000 * PULL_MAX);
        }
        let moved: i128 = m as i128 + step;
        let lo: i128 = peak as i128 * ONE as i128 - HALF as i128;
        let hi: i128 = peak as i128 * ONE as i128 + HALF as i128;
        if moved < lo {
            lo as i64
        } else if moved > hi {
            hi as i64
        } else {
            moved as i64
        }
    }
}

fn fit(work: &Vec<i64>, peak: usize, cfg: &Configuration) -> (d: NoteDists)
    requires
        cfg.valid(),
        spectrum_wf(work@),
        peak < work.len(),
        work.len() == cfg.frequency_bins,
    ensures
        d == fitted(work@, peak as int, *cfg),
        d.amp == work[peak as int],
        0 <= d.mean < cfg.circle(),
        d.sigma == cfg.default_sigma,
        !d.taken,
{
    let circ = cfg.circumference();
    let sigma = cfg.default_sigma;
    let mut m: i64 = peak as i64 * ONE;
    let mut left: i32 = cfg.decompose_iterations;
    let mut still = false;
    let ghost start = m as int;
    let ghost all = cfg.decompose_iterations as nat;
    while left > 0 && !still
        invariant
            0 <= left,
            cfg.valid(),
            circ == cfg.circle(),
            sigma == cfg.default_sigma,
            spectrum_wf(work@),
            peak < work.len(),
            work.len() == cfg.frequency_bins,
            still ==> refined(work@, peak as int, m as int, sigma as int, circ as int, left as nat)
                == m,
            refined(work@, peak as int, start, sigma as int, circ as int, all) == refined(
                work@,
                peak as int,
                m as int,
                sigma as int,
                circ as int,
                left as nat,
            ),
        decreases left + if still { 0int } else { 1int },
    {
        let next = shift(work, peak, m, sigma, circ);
        if next == m {
            still = true;
        } else {
            m = next;
            left = left - 1;
        }
    }
    NoteDists { amp: work[peak], mean: wrap(m, circ), sigma, taken: false }
}

fn subtract(work: &mut Vec<i64>, peak: usize, d: &NoteDists, circ: i64)
    requires
        spectrum_wf(old(work)@),
        peak < old(work).len(),
        0 < circ <= SPAN_MAX,
        old(work).len() <= 1000,
        d.sigma <= SPAN_MAX,
    ensures
        final(work)@ == without(old(work)@, peak as int, *d, circ as int),
        spectrum_wf(final(work)@),
{
    let n = work.len();
    let mut k: usize = 0;
    while k < n
        invariant
            k <= n,
            n == work.len(),
            n == old(work).len(),
            n <= 1000,
            0 < circ <= SPAN_MAX,
            d.sigma <= SPAN_MAX,
            spectrum_wf(work@),
            forall|j: int|
                0 <= j < k ==> #[trigger] work@[j] == without(
                    old(work)@,
                    peak as int,
                    *d,
                    circ as int,
                )[j],
            forall|j: int| k <= j < n ==> #[trigger] work@[j] == old(work)@[j],
        decreases n - k,
    {
        if k == peak {
            work[k] = 0;
        } else {
            let delta: i64 = gap_round(d.mean, k as i64 * ONE, circ);
            let g: i64 = gaussian(delta, d.sigma);
            proof {
                lemma_product_bound(d.amp as int, g as int, 0x8000_0000_0000_0000, ONE as int);
            }
            let (share, _) = div_rem_floor(d.amp as i128 * g as i128, ONE as i128);
            proof {
                vstd::arithmetic::div_mod::lemma_div_is_ordered(
                    -(0x8000_0000_0000_0000 * ONE),
                    d.amp * g,
                    ONE as int,
                );
                vstd::arithmetic::div_mod::lemma_div_is_ordered(
                    d.amp * g,
                    0x8000_0000_0000_0000 * ONE,
                    ONE as int,
                );
            }
            let v = clamp_amplitude(work[k] as i128 - share);
            work[k] = v;
        }
        k += 1;
    }
    assert(work@ =~= without(old(work)@, peak as int, *d, circ as int));
}

/// Takes the folded spectrum apart into its peaks, strongest first.
pub fn decompose(spectrum: &Vec<i64>, cfg: &Configuration) -> (dists: Vec<NoteDists>)
    requires
        cfg.valid(),
        spectrum_wf(spectrum@),
        spectrum.len() == cfg.frequency_bins,
    ensures
        dists@ == peaks(spectrum@, *cfg),
        dists@.len() <= spectrum@.len() / 2,
        forall|j: int| 0 <= j < dists@.len() ==> is_peak(#[trigger] dists@[j], *cfg),
{
    let circ = cfg.circumference();
    let mut work = copy_spectrum(spectrum);
    let room: usize = spectrum.len() / 2;
    let mut dists: Vec<NoteDists> = Vec::new();
    let mut done = false;
    while !done && dists.len() < room
        invariant
            cfg.valid(),
            circ == cfg.circle(),
            spectrum_wf(work@),
            work.len() == cfg.frequency_bins,
            room == spectrum@.len() / 2,
            dists@.len() <= room,
            done ==> extracted(work@, *cfg, (room - dists@.len()) as nat) == Seq::<
                NoteDists,
            >::empty(),
            dists@ + extracted(work@, *cfg, (room - dists@.len()) as nat) == peaks(
                spectrum@,
                *cfg,
            ),
            forall|j: int| 0 <= j < dists@.len() ==> is_peak(#[trigger] dists@[j], *cfg),
        decreases room - dists.len() + if done { 0int } else { 1int },
    {
        let (found, peak) = strongest_bin(&work);
        if !found || work[peak] <= cfg.note_minimum_new_distribution_value {
            done = true;
        } else {
            let d = fit(&work, peak, cfg);
            let ghost before = work@;
            let ghost counted = dists@;
            subtract(&mut work, peak, &d, circ);
            dists.push(d);
            proof {
                let rest = extracted(work@, *cfg, (room - dists@.len()) as nat);
                assert(extracted(before, *cfg, (room - counted.len()) as nat) == seq![d] + rest);
                assert(dists@ + rest =~= counted + (seq![d] + rest));
            }
        }
    }
    proof {
        let rest = extracted(work@, *cfg, (room - dists@.len()) as nat);
        assert(rest == Seq::<NoteDists>::empty());
        assert(dists@ + rest =~= dists@);
    }
    dists
}

/// What `strongest` picks among one value or more: a value that none
/// exceeds, with only smaller values before it.
pub proof fn lemma_strongest_is_largest(work: Seq<i64>, n: int)
    requires
        1 <= n <= work.len(),
    ensures
        0 <= strongest(work, n) < n,
        forall|k: int| 0 <= k < n ==> #[trigger] work[k] <= work[strongest(work, n)],
        forall|k: int|
            0 <= k < strongest(work, n) ==> #[trigger] work[k] < work[strongest(work, n)],
    decreases n,
{
    if n > 1 {
        lemma_strongest_is_largest(work, n - 1);
    } else {
        assert(strongest(work, 0) == -1);
    }
}

proof fn lemma_without_lowers(work: Seq<i64>, peak: int, d: NoteDists, circ: int)
    requires
        spectrum_wf(work),
        d.amp >= 0,
    ensures
        without(work, peak, d, circ).len() == work.len(),
        spectrum_wf(without(work, peak, d, circ)),
        forall|k: int|
            0 <= k < work.len() ==> #[trigger] without(work, peak, d, circ)[k] <= work[k],
{
    assert forall|k: int| 0 <= k < work.len() implies 0 <= #[trigger] without(
        work,
        peak,
        d,
        circ,
    )[k] <= work[k] by {
        let g = bell(offset(d.mean as int, k, circ), d.sigma as int);
        lemma_bell_bounds(offset(d.mean as int, k, circ), d.sigma as int);
        assert(d.amp * g >= 0) by (nonlinear_arith)
            requires
                d.amp >= 0,
                g >= 0,
        ;
        vstd::arithmetic::div_mod::lemma_div_pos_is_pos(d.amp * g, ONE as int);
    }
}

/// The curves come strongest first, and each is a peak: in what is taken out
/// of a spectrum there are no more curves than there is room for, every curve
/// is higher than the least amplitude of a new note and no higher than the
/// highest bin, its mean lies within the octave, and no curve is higher than
/// one found before it.
pub proof fn lemma_peaks_descend(work: Seq<i64>, cfg: Configuration, room: nat)
    requires
        cfg.valid(),
        spectrum_wf(work),
    ensures
        extracted(work, cfg, room).len() <= room,
        forall|j: int|
            0 <= j < extracted(work, cfg, room).len() ==> is_peak(
                #[trigger] extracted(work, cfg, room)[j],
                cfg,
            ),
        forall|j: int|
            0 <= j < extracted(work, cfg, room).len() ==> (#[trigger] extracted(
                work,
                cfg,
                room,
            )[j]).amp <= work[strongest(work, work.len() as int)],
        forall|j: int, k: int|
            0 <= j <= k < extracted(work, cfg, room).len() ==> (#[trigger] extracted(
                work,
                cfg,
                room,
            )[j]).amp >= (#[trigger] extracted(work, cfg, room)[k]).amp,
    decreases room,
{
    let peak = strongest(work, work.len() as int);
    let found = extracted(work, cfg, room);
    if room == 0 || peak < 0 || work[peak] <= cfg.note_minimum_new_distribution_value {
        assert(found.len() == 0);
    } else {
        lemma_strongest_is_largest(work, work.len() as int);
        let d = fitted(work, peak, cfg);
        let left = without(work, peak, d, cfg.circle());
        let rest = extracted(left, cfg, (room - 1) as nat);
        assert(found == seq![d] + rest);
        lemma_without_lowers(work, peak, d, cfg.circle());
        lemma_peaks_descend(left, cfg, (room - 1) as nat);
        lemma_strongest_is_largest(left, left.len() as int);
        vstd::arithmetic::div_mod::lemma_mod_bound(
            refined(
                work,
                peak,
                peak * ONE,
                cfg.default_sigma as int,
                cfg.circle(),
                cfg.decompose_iterations as nat,
            ),
            cfg.circle(),
        );
        assert(is_peak(d, cfg));
        let top = left[strongest(left, left.len() as int)];
        assert(top <= work[strongest(left, left.len() as int)]);
        assert(top <= d.amp);
        assert forall|j: int| 0 <= j < found.len() implies is_peak(#[trigger] found[j], cfg)
            && found[j].amp <= work[peak] by {
            if j > 0 {
                assert(found[j] == rest[j - 1]);
            }
        }
        assert forall|j: int, k: int| 0 <= j <= k < found.len() implies (
        #[trigger] found[j]).amp >= (#[trigger] found[k]).amp by {
            if j > 0 {
                assert(found[j] == rest[j - 1]);
                assert(found[k] == rest[k - 1]);
            } else if k > 0 {
                assert(found[k] == rest[k - 1]);
            }
        }
    }
}

proof fn lemma_no_pull(work: Seq<i64>, k: int, sigma: int, circ: int, n: int)
    requires
        0 <= k < work.len(),
        n <= work.len(),
        circ > 0,
        0 <= k * ONE < circ,
        forall|j: int| 0 <= j < work.len() && j != k ==> #[trigger] work[j] == 0,
    ensures
        pull(work, k * ONE, sigma, circ, n) == 0,
    decreases n,
{
    if n > 0 {
        lemma_no_pull(work, k, sigma, circ, n - 1);
        let j = n - 1;
        let g = bell(offset(k * ONE, j, circ), sigma);
        let h = work[j] as int;
        let away = offset(k * ONE, j, circ);
        if j == k {
            vstd::arithmetic::div_mod::lemma_small_mod(0, circ as nat);
            assert(away == 0);
            assert((g * h) * away == 0) by (nonlinear_arith)
                requires
                    away == 0,
            ;
        } else {
            assert((g * h) * away == 0) by (nonlinear_arith)
                requires
                    h == 0,
            ;
        }
    }
}

/// A spectrum with energy in one bin only has one peak, in the middle of that
/// bin and as high as it: where that bin exceeds the least amplitude of a new
/// note, what is taken out of the spectrum is that one curve.
pub proof fn lemma_single_bin_peak(spectrum: Seq<i64>, k: int, cfg: Configuration)
    requires
        cfg.valid(),
        spectrum.len() == cfg.frequency_bins,
        0 <= k < spectrum.len(),
        cfg.note_minimum_new_distribution_value < spectrum[k] <= AMP_MAX,
        forall|j: int| 0 <= j < spectrum.len() && j != k ==> #[trigger] spectrum[j] == 0,
    ensures
        peaks(spectrum, cfg) == seq![
            NoteDists {
                amp: spectrum[k],
                mean: (k * ONE) as i64,
                sigma: cfg.default_sigma,
                taken: false,
            },
        ],
        is_peak(peaks(spectrum, cfg)[0], cfg),
{
    let circ = cfg.circle();
    let sigma = cfg.default_sigma as int;
    let len = spectrum.len() as int;
    let room = (spectrum.len() / 2) as nat;
    assert(0 <= k * ONE < circ) by (nonlinear_arith)
        requires
            0 <= k < len,
            circ == len * ONE,
            ONE > 0,
    ;
    lemma_strongest_is_largest(spectrum, len);
    let peak = strongest(spectrum, len);
    assert(spectrum[peak] >= spectrum[k]);
    assert(peak == k);
    let m = k * ONE;
    lemma_no_pull(spectrum, k, sigma, circ, len);
    let total = mass(spectrum, m, sigma, circ, len);
    if total > 0 {
        vstd::arithmetic::div_mod::lemma_div_basics_1(total);
        assert(0int / total == 0);
    }
    assert(shifted(spectrum, k, m, sigma, circ) == m);
    assert(refined(spectrum, k, m, sigma, circ, cfg.decompose_iterations as nat) == m);
    vstd::arithmetic::div_mod::lemma_small_mod(m as nat, circ as nat);
    let d = fitted(spectrum, k, cfg);
    assert(d == NoteDists {
        amp: spectrum[k],
        mean: (k * ONE) as i64,
        sigma: cfg.default_sigma,
        taken: false,
    });
    let left = without(spectrum, k, d, circ);
    assert forall|j: int| 0 <= j < left.len() implies #[trigger] left[j] == 0 by {
        if j != k {
            let g = bell(offset(d.mean as int, j, circ), d.sigma as int);
            lemma_bell_bounds(offset(d.mean as int, j, circ), d.sigma as int);
            assert(d.amp * g >= 0) by (nonlinear_arith)
                requires
                    d.amp >= 0,
                    g >= 0,
            ;
            vstd::arithmetic::div_mod::lemma_div_pos_is_pos(d.amp * g, ONE as int);
        }
    }
    lemma_strongest_is_largest(left, len);
    let rest = extracted(left, cfg, (room - 1) as nat);
    assert(rest == Seq::<NoteDists>::empty());
    assert(extracted(spectrum, cfg, room) == seq![d] + rest);
    assert(seq![d] + rest =~= seq![d]);
}

} // verus!
