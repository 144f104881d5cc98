//! The folding of the bins of several octaves into the bins of one.

use vstd::prelude::*;
use crate::fixed::{clamp_amp, clamp_amplitude, halved, smooth, smoothed, AMP_MAX, ONE};

verus! {

/// The energy in bin `k` of a transform; zero where the transform has no such
/// bin.
pub open spec fn bin_at(bins: Seq<u32>, k: int) -> int {
    if 0 <= k < bins.len() {
        bins[k] as int
    } else {
        0
    }
}

/// The sum, over the first `octaves` octaves, of the energy in bin `i` of the
/// octave, where an octave has `per_octave` bins.
pub open spec fn octave_sum(bins: Seq<u32>, octaves: int, per_octave: int, i: int) -> int
    decreases octaves,
{
    if octaves <= 0 {
        0
    } else {
        octave_sum(bins, octaves - 1, per_octave, i) + bin_at(
            bins,
            (octaves - 1) * per_octave + i,
        )
    }
}

/// The spectrum of one octave that the transform `bins` folds into, before it
/// is smoothed: `per_octave` sums, each kept in the range of amplitudes.
pub open spec fn folded(bins: Seq<u32>, octaves: int, per_octave: int) -> Seq<i64> {
    Seq::new(
        if per_octave >= 0 {
            per_octave as nat
        } else {
            0
        },
        |i: int| clamp_amp(octave_sum(bins, octaves, per_octave, i)) as i64,
    )
}

/// The folded spectrum `fresh` with the fraction `retain` of the difference to
/// the previous spectrum `prev` left in it. Where `prev` has no such bin, the
/// bin of `fresh` stands as it is.
pub open spec fn blended(prev: Seq<i64>, fresh: Seq<i64>, retain: int) -> Seq<i64> {
    Seq::new(
        fresh.len(),
        |i: int|
            if i < prev.len() {
                smoothed(fresh[i] as int, prev[i] as int, retain) as i64
            } else {
                clamp_amp(fresh[i] as int) as i64
            },
    )
}

/// The spectrum of `n` bins without energy.
pub open spec fn silence(n: nat) -> Seq<i64> {
    Seq::new(n, |i: int| 0i64)
}

/// Every value of the spectrum is an amplitude.
pub open spec fn spectrum_wf(spectrum: Seq<i64>) -> bool {
    forall|i: int| 0 <= i < spectrum.len() ==> 0 <= #[trigger] spectrum[i] <= AMP_MAX
}

proof fn lemma_octave_sum_bounds(bins: Seq<u32>, octaves: int, per_octave: int, i: int)
    ensures
        0 <= octave_sum(bins, octaves, per_octave, i),
        octaves >= 0 ==> octave_sum(bins, octaves, per_octave, i) <= octaves * 0xffff_ffff,
        octaves <= 0 ==> octave_sum(bins, octaves, per_octave, i) == 0,
    decreases octaves,
{
    if octaves > 0 {
        lemma_octave_sum_bounds(bins, octaves - 1, per_octave, i);
    }
}

/// The spectrum of `n` bins without energy.
pub fn silent(n: usize) -> (spectrum: Vec<i64>)
    ensures
        spectrum@ == silence(n as nat),
        spectrum_wf(spectrum@),
{
    let mut spectrum: Vec<i64> = Vec::new();
    let mut i: usize = 0;
    while i < n
        invariant
            i <= n,
            spectrum@ == silence(i as nat),
        decreases n - i,
    {
        spectrum.push(0);
        i += 1;
        assert(spectrum@ =~= silence(i as nat));
    }
    spectrum
}

/// A copy of the spectrum.
pub fn copy_spectrum(spectrum: &Vec<i64>) -> (copy: Vec<i64>)
    ensures
        copy@ == spectrum@,
{
    let mut copy: Vec<i64> = Vec::with_capacity(spectrum.len());
    let mut i: usize = 0;
    while i < spectrum.len()
        invariant
            i <= spectrum.len(),
            copy@ == spectrum@.subrange(0, i as int),
        decreases spectrum.len() - i,
    {
        copy.push(spectrum[i]);
        i += 1;
        assert(copy@ =~= spectrum@.subrange(0, i as int));
    }
    assert(copy@ =~= spectrum@);
    copy
}

/// Folds the bins of `octaves` octaves of `per_octave` bins each into one
/// octave: bin `i` of the result is the sum of bin `i` of every octave.
pub fn fold(bins: &[u32], octaves: i32, per_octave: i32) -> (spectrum: Vec<i64>)
    ensures
        spectrum@ == folded(bins@, octaves as int, per_octave as int),
        spectrum_wf(spectrum@),
{
    let mut spectrum: Vec<i64> = Vec::new();
    let mut i: i32 = 0;
    while i < per_octave
        invariant
            0 <= i,
            i <= per_octave || i == 0,
            spectrum@.len() == i,
            forall|k: int|
                0 <= k < i ==> #[trigger] spectrum@[k] == clamp_amp(
                    octave_sum(bins@, octaves as int, per_octave as int, k),
                ),
        decreases per_octave - i,
    {
        let mut sum: i128 = 0;
        let mut o: i32 = 0;
        while o < octaves
            invariant
                0 <= o,
                o <= octaves || o == 0,
                0 <= i < per_octave,
                sum == octave_sum(bins@, o as int, per_octave as int, i as int),
                0 <= sum <= o * 0xffff_ffff,
            decreases octaves - o,
        {
            proof {
                lemma_octave_sum_bounds(bins@, o as int, per_octave as int, i as int);
                assert(0 <= o * per_octave <= 0x7fff_ffff * 0x7fff_ffff) by (nonlinear_arith)
                    requires
                        0 <= o <= 0x7fff_ffff,
                        0 <= per_octave <= 0x7fff_ffff,
                ;
            }
            let at: i64 = o as i64 * per_octave as i64 + i as i64;
            if (at as u64) < bins.len() as u64 {
                sum = sum + bins[at as usize] as i128;
            }
            o += 1;
        }
        proof {
            lemma_octave_sum_bounds(bins@, octaves as int, per_octave as int, i as int);
        }
        spectrum.push(clamp_amplitude(sum));
        i += 1;
    }
    assert(spectrum@ =~= folded(bins@, octaves as int, per_octave as int));
    spectrum
}

/// Leaves in the folded spectrum `fresh` the fraction `retain` of its
/// difference to the previous spectrum `prev`.
pub fn blend(prev: &Vec<i64>, fresh: &Vec<i64>, retain: i64) -> (spectrum: Vec<i64>)
    ensures
        spectrum@ == blended(prev@, fresh@, retain as int),
        spectrum@.len() == fresh@.len(),
        spectrum_wf(spectrum@),
{
    let mut spectrum: Vec<i64> = Vec::new();
    let mut i: usize = 0;
    while i < fresh.len()
        invariant
            i <= fresh.len(),
            spectrum@.len() == i,
            spectrum_wf(spectrum@),
            forall|k: int|
                0 <= k < i ==> #[trigger] spectrum@[k] == blended(
                    prev@,
                    fresh@,
                    retain as int,
                )[k],
        decreases fresh.len() - i,
    {
        let v: i64 = if i < prev.len() {
            smooth(fresh[i], prev[i], retain)
        } else {
            clamp_amplitude(fresh[i] as i128)
        };
        spectrum.push(v);
        i += 1;
    }
    assert(spectrum@ =~= blended(prev@, fresh@, retain as int));
    spectrum
}

/// The spectrum after one frame without energy: of every bin the fraction
/// `retain` is left.
pub open spec fn faded(spectrum: Seq<i64>, retain: int) -> Seq<i64> {
    blended(spectrum, silence(spectrum.len()), retain)
}

/// The spectrum after `n` frames without energy.
pub open spec fn faded_often(spectrum: Seq<i64>, retain: int, n: nat) -> Seq<i64>
    decreases n,
{
    if n == 0 {
        spectrum
    } else {
        faded(faded_often(spectrum, retain, (n - 1) as nat), retain)
    }
}

/// No bin of the spectrum is higher than `cap`.
pub open spec fn no_higher(spectrum: Seq<i64>, cap: int) -> bool {
    forall|i: int| 0 <= i < spectrum.len() ==> #[trigger] spectrum[i] <= cap
}

/// The number of frames without energy within which the highest bin loses
/// half its height, where less than all of the previous spectrum is left in
/// the next.
pub open spec fn spectrum_half_time(retain: int) -> int {
    (ONE as int) / (ONE - retain) + 1
}

/// The number of frames without energy after which the spectrum is silent:
/// forty half times.
pub open spec fn spectrum_fade_time(retain: int) -> int {
    40 * spectrum_half_time(retain)
}

proof fn lemma_faded_bin(x: int, retain: int)
    requires
        0 <= x <= AMP_MAX,
        0 <= retain < ONE,
    ensures
        0 <= smoothed(0, x, retain) <= x,
        smoothed(0, x, retain) * ONE <= x * ONE - x * (ONE - retain),
{
    let y = (x - 0) * retain;
    assert(0 <= y <= x * ONE && y == x * ONE - x * (ONE - retain)) by (nonlinear_arith)
        requires
            y == (x - 0) * retain,
            0 <= x,
            0 <= retain < ONE,
    ;
    vstd::arithmetic::div_mod::lemma_fundamental_div_mod(y, ONE as int);
    vstd::arithmetic::div_mod::lemma_mod_bound(y, ONE as int);
    vstd::arithmetic::div_mod::lemma_div_pos_is_pos(y, ONE as int);
    assert((y / (ONE as int)) * ONE <= y);
}

proof fn lemma_faded_steps_down(
    spectrum: Seq<i64>,
    retain: int,
    top: int,
    floor: int,
    step: int,
    m: nat,
)
    requires
        spectrum_wf(spectrum),
        0 <= retain < ONE,
        no_higher(spectrum, top),
        0 <= floor <= top,
        step >= 0,
        forall|x: int|
            floor < x <= top && x <= AMP_MAX ==> #[trigger] smoothed(0, x, retain) <= x - step,
    ensures
        faded_often(spectrum, retain, m).len() == spectrum.len(),
        spectrum_wf(faded_often(spectrum, retain, m)),
        no_higher(
            faded_often(spectrum, retain, m),
            if top - m * step >= floor {
                top - m * step
            } else {
                floor
            },
        ),
    decreases m,
{
    if m > 0 {
        let before = faded_often(spectrum, retain, (m - 1) as nat);
        lemma_faded_steps_down(spectrum, retain, top, floor, step, (m - 1) as nat);
        assert(m * step == (m - 1) * step + step) by (nonlinear_arith);
        assert((m - 1) * step >= 0) by (nonlinear_arith)
            requires
                m >= 1,
                step >= 0,
        ;
        let after = faded(before, retain);
        let next: int = if top - m * step >= floor {
            top - m * step
        } else {
            floor
        };
        assert forall|i: int| 0 <= i < after.len() implies 0 <= #[trigger] after[i] <= AMP_MAX
            && after[i] <= next by {
            lemma_faded_bin(before[i] as int, retain);
            assert(after[i] == smoothed(0, before[i] as int, retain));
        }
    }
}

proof fn lemma_faded_halves(spectrum: Seq<i64>, retain: int, top: int)
    requires
        spectrum_wf(spectrum),
        0 <= retain < ONE,
        no_higher(spectrum, top),
        0 <= top,
    ensures
        spectrum_half_time(retain) >= 1,
        faded_often(spectrum, retain, spectrum_half_time(retain) as nat).len() == spectrum.len(),
        spectrum_wf(faded_often(spectrum, retain, spectrum_half_time(retain) as nat)),
        no_higher(faded_often(spectrum, retain, spectrum_half_time(retain) as nat), top / 2),
{
    let c = ONE - retain;
    let one = ONE as int;
    let half = top / 2;
    let h = spectrum_half_time(retain);
    let x = (half + 1) * c;
    let step = (x + one - 1) / one;
    vstd::arithmetic::div_mod::lemma_fundamental_div_mod(one, c);
    vstd::arithmetic::div_mod::lemma_mod_bound(one, c);
    vstd::arithmetic::div_mod::lemma_div_pos_is_pos(one, c);
    assert(h * c > one) by (nonlinear_arith)
        requires
            h == one / c + 1,
            one == c * (one / c) + one % c,
            0 <= one % c < c,
    ;
    assert(x >= c) by (nonlinear_arith)
        requires
            x == (half + 1) * c,
            half >= 0,
            c > 0,
    ;
    vstd::arithmetic::div_mod::lemma_fundamental_div_mod(x + one - 1, one);
    vstd::arithmetic::div_mod::lemma_mod_bound(x + one - 1, one);
    assert(step * one <= x + one - 1 && step * one >= x);
    assert(step >= 1);
    assert forall|a: int| half < a <= top && a <= AMP_MAX implies #[trigger] smoothed(
        0,
        a,
        retain,
    ) <= a - step by {
        lemma_faded_bin(a, retain);
        let d = smoothed(0, a, retain);
        assert(a * c >= x) by (nonlinear_arith)
            requires
                a >= half + 1,
                c > 0,
                x == (half + 1) * c,
        ;
        assert(d * one <= (a - step) * one + one - 1) by (nonlinear_arith)
            requires
                d * one <= a * one - a * c,
                a * c >= x,
                step * one <= x + one - 1,
        ;
    }
    lemma_faded_steps_down(spectrum, retain, top, half, step, h as nat);
    assert(h * step >= half + 1) by (nonlinear_arith)
        requires
            h * c > one,
            step * one >= (half + 1) * c,
            half >= 0,
            h >= 1,
            step >= 1,
            c > 0,
    ;
}

proof fn lemma_faded_add(spectrum: Seq<i64>, retain: int, a: nat, b: nat)
    ensures
        faded_often(spectrum, retain, a + b) == faded_often(
            faded_often(spectrum, retain, a),
            retain,
            b,
        ),
    decreases b,
{
    if b > 0 {
        lemma_faded_add(spectrum, retain, a, (b - 1) as nat);
        assert((a + b - 1) as nat == a + (b - 1) as nat);
    }
}

proof fn lemma_faded_halves_often(spectrum: Seq<i64>, retain: int, top: int, times: nat)
    requires
        spectrum_wf(spectrum),
        0 <= retain < ONE,
        no_higher(spectrum, top),
        0 <= top,
    ensures
        times * spectrum_half_time(retain) >= 0,
        faded_often(spectrum, retain, (times * spectrum_half_time(retain)) as nat).len()
            == spectrum.len(),
        spectrum_wf(faded_often(spectrum, retain, (times * spectrum_half_time(retain)) as nat)),
        no_higher(
            faded_often(spectrum, retain, (times * spectrum_half_time(retain)) as nat),
            halved(top, times),
        ),
        0 <= halved(top, times),
    decreases times,
{
    let h = spectrum_half_time(retain);
    vstd::arithmetic::div_mod::lemma_div_pos_is_pos(ONE as int, ONE - retain);
    assert(times * h >= 0) by (nonlinear_arith)
        requires
            h >= 1,
            times >= 0,
    ;
    if times > 0 {
        lemma_faded_halves_often(spectrum, retain, top, (times - 1) as nat);
        let done = ((times - 1) * h) as nat;
        lemma_faded_halves(
            faded_often(spectrum, retain, done),
            retain,
            halved(top, (times - 1) as nat),
        );
        lemma_faded_add(spectrum, retain, done, h as nat);
        assert(times * h == (times - 1) * h + h) by (nonlinear_arith);
    } else {
        assert(times * h == 0) by (nonlinear_arith)
            requires
                times == 0,
        ;
    }
}

pub(crate) proof fn lemma_silence_stays(spectrum: Seq<i64>, retain: int, n: nat)
    requires
        spectrum == silence(spectrum.len()),
    ensures
        faded_often(spectrum, retain, n) == spectrum,
    decreases n,
{
    if n > 0 {
        lemma_silence_stays(spectrum, retain, (n - 1) as nat);
        let after = faded(spectrum, retain);
        assert forall|i: int| 0 <= i < after.len() implies #[trigger] after[i] == 0 by {
            assert((0 - 0) * retain == 0) by (nonlinear_arith);
        }
        assert(after =~= spectrum);
    }
}

/// Without energy the spectrum falls silent within a number of frames that
/// the settings give. Where less than all of the previous spectrum is left in
/// the next, after `spectrum_fade_time` frames without energy, and after any
/// number of such frames beyond that, every bin is zero.
pub proof fn lemma_spectrum_fades(spectrum: Seq<i64>, retain: int, n: nat)
    requires
        spectrum_wf(spectrum),
        0 <= retain < ONE,
        n >= spectrum_fade_time(retain),
    ensures
        spectrum_fade_time(retain) >= 1,
        faded_often(spectrum, retain, n) == silence(spectrum.len()),
{
    let k = spectrum_fade_time(retain);
    lemma_faded_halves_often(spectrum, retain, AMP_MAX as int, 40);
    assert(halved(AMP_MAX as int, 40) == 0) by {
        reveal_with_fuel(halved, 41);
    }
    let quiet = faded_often(spectrum, retain, k as nat);
    assert(quiet =~= silence(spectrum.len()));
    lemma_silence_stays(quiet, retain, (n - k) as nat);
    lemma_faded_add(spectrum, retain, k as nat, (n - k) as nat);
}

} // verus!
