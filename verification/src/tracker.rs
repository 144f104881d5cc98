//! The tracking of notes from frame to frame.
//!
//! The tracker keeps a fixed row of slots. A slot is vacant or holds one note:
//! its position in the octave, its amplitude, a second and slower amplitude,
//! the amplitude last given out, and the number of frames it has followed a
//! peak. Each frame brings the peaks of the folded spectrum. In the order in
//! which they come, a peak goes to the closest note within reach that has no
//! peak yet, or else, if it is strong enough, to the first vacant slot as a new
//! note. Notes that then lie too close become one. A note without a peak
//! decays, and a note whose amplitude has reached zero leaves its slot.

use vstd::prelude::*;
use crate::config::Configuration;
use crate::fixed::{
    clamp_amp,
    clamp_amplitude,
    cyclic_distance,
    distance_round,
    smooth,
    smooth_position,
    smoothed,
    smoothed_position,
    wrap,
    wrapped,
    AMP_MAX,
    ONE,
};

verus! {

/// A bell curve fitted to a peak of the folded spectrum.
#[derive(Debug, Clone, Copy, PartialEq, Eq)]
pub struct NoteDists {
    /// The height of the curve.
    pub amp: i64,
    /// The place of its mean, in millionths of a bin.
    pub mean: i64,
    /// Its width, in millionths of a bin.
    pub sigma: i64,
    /// Whether a note has taken this curve in the present frame.
    pub taken: bool,
}

impl NoteDists {
    /// The curve of a slot that has no peak.
    pub open spec fn none() -> NoteDists {
        NoteDists { amp: 0, mean: 0, sigma: 0, taken: false }
    }

    /// This curve with its height taken into the range of amplitudes, its mean
    /// onto the circle of circumference `circ`, and not yet taken.
    pub open spec fn tidied(self, circ: int) -> NoteDists {
        NoteDists {
            amp: clamp_amp(self.amp as int) as i64,
            mean: wrapped(self.mean as int, circ) as i64,
            sigma: self.sigma,
            taken: false,
        }
    }

    /// This curve as taken by a note.
    pub open spec fn claimed(self) -> NoteDists {
        NoteDists { amp: self.amp, mean: self.mean, sigma: self.sigma, taken: true }
    }
}

/// One place in the row of notes.
#[derive(Debug, Clone, Copy, PartialEq, Eq)]
pub struct Slot {
    /// Where the note lies in the octave, in millionths of a bin.
    pub position: i64,
    /// The smoothed amplitude of the note; zero in a vacant slot.
    pub amplitude: i64,
    /// The second, slower amplitude.
    pub amplitude2: i64,
    /// The amplitude last given out.
    pub amplitude_out: i64,
    /// The number of frames in which the note has followed a peak.
    pub age: i32,
    /// The curve that the note took in the present frame, if it took one.
    pub dist: NoteDists,
}

impl Slot {
    /// The slot that holds no note.
    pub open spec fn vacant() -> Slot {
        Slot {
            position: 0,
            amplitude: 0,
            amplitude2: 0,
            amplitude_out: 0,
            age: 0,
            dist: NoteDists::none(),
        }
    }

    /// The slot holds a note.
    pub open spec fn live(self) -> bool {
        self.amplitude > 0
    }

    /// The slot's numbers lie in their ranges, for an octave of circumference
    /// `circ`.
    pub open spec fn wf(self, circ: int) -> bool {
        &&& 0 <= self.position < circ
        &&& 0 <= self.amplitude <= AMP_MAX
        &&& 0 <= self.amplitude2 <= AMP_MAX
        &&& 0 <= self.amplitude_out <= AMP_MAX
        &&& 0 <= self.age
    }

    /// The slot stands as the end of a frame leaves it: it holds a note that
    /// is given out, or it is vacant.
    pub open spec fn rested(self) -> bool {
        if self.live() {
            self.amplitude_out > 0
        } else {
            self == Slot::vacant()
        }
    }

    /// The slot may receive a new note: it holds none and has not been given
    /// one in the present frame.
    pub open spec fn free(self) -> bool {
        !self.live() && !self.dist.taken
    }

    /// The note can follow the curve `c`: it has no curve yet and lies within
    /// reach of the mean of `c`.
    pub open spec fn follows(self, c: NoteDists, cfg: Configuration) -> bool {
        &&& self.live()
        &&& !self.dist.taken
        &&& cyclic_distance(self.position as int, c.mean as int, cfg.circle())
            <= cfg.note_jumpability
    }

    /// The slot at the start of a frame: as it was, with no curve.
    pub open spec fn opened(self) -> Slot {
        Slot { dist: NoteDists::none(), ..self }
    }

    /// The note after it has followed the curve `c`: position and amplitude
    /// drawn towards the curve's, one frame older.
    pub open spec fn attached(self, c: NoteDists, cfg: Configuration) -> Slot {
        Slot {
            position: smoothed_position(
                self.position as int,
                c.mean as int,
                cfg.note_attach_freq_iir as int,
                cfg.circle(),
            ) as i64,
            amplitude: smoothed(
                self.amplitude as int,
                c.amp as int,
                cfg.note_attach_amp_iir as int,
            ) as i64,
            amplitude2: self.amplitude2,
            amplitude_out: self.amplitude_out,
            age: if self.age < i32::MAX {
                (self.age + 1) as i32
            } else {
                self.age
            },
            dist: c.claimed(),
        }
    }

    /// The new note that the curve `c` gives rise to.
    pub open spec fn created(c: NoteDists) -> Slot {
        Slot {
            position: c.mean,
            amplitude: c.amp,
            amplitude2: 0,
            amplitude_out: 0,
            age: 0,
            dist: c.claimed(),
        }
    }

    /// The two notes lie closer than the distance below which notes become one.
    pub open spec fn close(self, other: Slot, cfg: Configuration) -> bool {
        &&& self.live()
        &&& other.live()
        &&& cyclic_distance(self.position as int, other.position as int, cfg.circle())
            < cfg.note_combine_distance
    }

    /// Of two notes that become one, this one stays: it is the older, or as old
    /// and at least as loud.
    pub open spec fn outlives(self, other: Slot) -> bool {
        self.age > other.age || (self.age == other.age && self.amplitude >= other.amplitude)
    }

    /// This note after it has taken `other` in: it keeps its position and its
    /// age, has the larger of the two amplitudes, and its own curve or, if it
    /// has none, the other's.
    pub open spec fn merged(self, other: Slot) -> Slot {
        Slot {
            amplitude: if self.amplitude >= other.amplitude {
                self.amplitude
            } else {
                other.amplitude
            },
            dist: if self.dist.taken {
                self.dist
            } else {
                other.dist
            },
            ..self
        }
    }

    /// The amplitude with which the note ends the frame: unchanged if it has a
    /// curve, else drawn towards zero and lowered by the slope.
    pub open spec fn faded(self, cfg: Configuration) -> int {
        if self.dist.taken {
            self.amplitude as int
        } else {
            clamp_amp(
                smoothed(self.amplitude as int, 0, cfg.note_attach_amp_iir as int) - cfg.slope,
            )
        }
    }

    /// The slot at the end of a frame.
    pub open spec fn settled(self, cfg: Configuration) -> Slot {
        let amp = self.faded(cfg);
        if amp <= 0 {
            Slot::vacant()
        } else {
            Slot {
                amplitude: amp as i64,
                amplitude2: smoothed(
                    self.amplitude2 as int,
                    amp,
                    cfg.note_attach_amp_iir2 as int,
                ) as i64,
                amplitude_out: chopped(self.amplitude_out as int, amp, cfg.note_out_chop as int)
                    as i64,
                ..self
            }
        }
    }
}

/// The amplitude given out for a note of amplitude `amp` whose last output was
/// `prev`: the last output is held while the amplitude stays within the
/// fraction `chop` of it.
pub open spec fn chopped(prev: int, amp: int, chop: int) -> int {
    let change = if amp >= prev {
        amp - prev
    } else {
        prev - amp
    };
    if prev > 0 && change * ONE < chop * prev {
        prev
    } else {
        amp
    }
}

/// Every slot's numbers lie in their ranges.
pub open spec fn slots_wf(slots: Seq<Slot>, circ: int) -> bool {
    forall|i: int| 0 <= i < slots.len() ==> (#[trigger] slots[i]).wf(circ)
}

/// Every slot stands as the end of a frame leaves it.
pub open spec fn slots_rested(slots: Seq<Slot>) -> bool {
    forall|i: int| 0 <= i < slots.len() ==> (#[trigger] slots[i]).rested()
}

/// A row of `n` vacant slots.
pub open spec fn vacant_row(n: nat) -> Seq<Slot> {
    Seq::new(n, |i: int| Slot::vacant())
}

/// The row at the start of a frame.
pub open spec fn opened(slots: Seq<Slot>) -> Seq<Slot> {
    Seq::new(slots.len(), |i: int| slots[i].opened())
}

/// The index, among the first `n` slots, of the note closest to the mean of
/// `c` that can follow it, the lowest such index if several are as close; -1
/// if none can.
pub open spec fn closest(slots: Seq<Slot>, c: NoteDists, cfg: Configuration, n: int) -> int
    decreases n,
{
    if n <= 0 {
        -1
    } else {
        let best = closest(slots, c, cfg, n - 1);
        let k = n - 1;
        if slots[k].follows(c, cfg) && (best < 0 || cyclic_distance(
            slots[k].position as int,
            c.mean as int,
            cfg.circle(),
        ) < cyclic_distance(slots[best].position as int, c.mean as int, cfg.circle())) {
            k
        } else {
            best
        }
    }
}

/// The lowest index of a free slot among the first `n`; -1 if there is none.
pub open spec fn first_free(slots: Seq<Slot>, n: int) -> int
    decreases n,
{
    if n <= 0 {
        -1
    } else {
        let earlier = first_free(slots, n - 1);
        if earlier >= 0 {
            earlier
        } else if slots[n - 1].free() {
            n - 1
        } else {
            -1
        }
    }
}

/// The row after the curve `d` has been dealt with: the closest note within
/// reach follows it; if there is none and the curve exceeds the least
/// amplitude of a new note, the first free slot receives a new note; else the
/// curve is dropped.
pub open spec fn absorbed(slots: Seq<Slot>, d: NoteDists, cfg: Configuration) -> Seq<Slot> {
    let c = d.tidied(cfg.circle());
    let i = closest(slots, c, cfg, slots.len() as int);
    let k = first_free(slots, slots.len() as int);
    if i >= 0 {
        slots.update(i, slots[i].attached(c, cfg))
    } else if c.amp > cfg.note_minimum_new_distribution_value && k >= 0 {
        slots.update(k, Slot::created(c))
    } else {
        slots
    }
}

/// The row after the first `n` curves of `cands` have been dealt with in turn.
pub open spec fn absorbed_all(
    slots: Seq<Slot>,
    cands: Seq<NoteDists>,
    cfg: Configuration,
    n: int,
) -> Seq<Slot>
    decreases n,
{
    if n <= 0 {
        slots
    } else {
        absorbed(absorbed_all(slots, cands, cfg, n - 1), cands[n - 1], cfg)
    }
}

/// The row after the notes in slots `i` and `j` have become one, if they lie
/// close: the one that outlives the other stays, the other's slot is vacated.
pub open spec fn merged_pair(slots: Seq<Slot>, i: int, j: int, cfg: Configuration) -> Seq<
    Slot,
> {
    if slots[i].close(slots[j], cfg) {
        if slots[i].outlives(slots[j]) {
            slots.update(i, slots[i].merged(slots[j])).update(j, Slot::vacant())
        } else {
            slots.update(j, slots[j].merged(slots[i])).update(i, Slot::vacant())
        }
    } else {
        slots
    }
}

/// The row after slot `i` has been paired with each slot from `i + 1` up to,
/// not including, `n`.
pub open spec fn merged_row(slots: Seq<Slot>, i: int, n: int, cfg: Configuration) -> Seq<Slot>
    decreases n - i,
{
    if n <= i + 1 {
        slots
    } else {
        merged_pair(merged_row(slots, i, n - 1, cfg), i, n - 1, cfg)
    }
}

/// The row after each of the first `m` slots has been paired with every slot
/// behind it.
pub open spec fn merged_rows(slots: Seq<Slot>, m: int, cfg: Configuration) -> Seq<Slot>
    decreases m,
{
    if m <= 0 {
        slots
    } else {
        merged_row(merged_rows(slots, m - 1, cfg), m - 1, slots.len() as int, cfg)
    }
}

/// The row after every pair of close notes has become one.
pub open spec fn combined(slots: Seq<Slot>, cfg: Configuration) -> Seq<Slot> {
    merged_rows(slots, slots.len() as int, cfg)
}

/// The row at the end of a frame.
pub open spec fn settled(slots: Seq<Slot>, cfg: Configuration) -> Seq<Slot> {
    Seq::new(slots.len(), |i: int| slots[i].settled(cfg))
}

/// The row after one frame that brought the curves `cands`.
pub open spec fn after_frame(slots: Seq<Slot>, cands: Seq<NoteDists>, cfg: Configuration) -> Seq<
    Slot,
> {
    settled(combined(absorbed_all(opened(slots), cands, cfg, cands.len() as int), cfg), cfg)
}

impl NoteDists {
    /// This curve with its height taken into the range of amplitudes, its mean
    /// onto the circle of circumference `circ`, and not yet taken.
    pub fn tidy(&self, circ: i64) -> (c: NoteDists)
        requires
            circ > 0,
        ensures
            c == self.tidied(circ as int),
            0 <= c.amp <= AMP_MAX,
            0 <= c.mean < circ,
    {
        NoteDists {
            amp: clamp_amplitude(self.amp as i128),
            mean: wrap(self.mean, circ),
            sigma: self.sigma,
            taken: false,
        }
    }
}

impl Slot {
    /// The slot that holds no note.
    pub fn empty() -> (s: Slot)
        ensures
            s == Slot::vacant(),
    {
        Slot {
            position: 0,
            amplitude: 0,
            amplitude2: 0,
            amplitude_out: 0,
            age: 0,
            dist: NoteDists { amp: 0, mean: 0, sigma: 0, taken: false },
        }
    }

    fn attach(&self, c: &NoteDists, cfg: &Configuration) -> (s: Slot)
        requires
            cfg.valid(),
            self.wf(cfg.circle()),
        ensures
            s == self.attached(*c, *cfg),
            s.wf(cfg.circle()),
    {
        let circ = cfg.circumference();
        Slot {
            position: smooth_position(self.position, c.mean, cfg.note_attach_freq_iir, circ),
            amplitude: smooth(self.amplitude, c.amp, cfg.note_attach_amp_iir),
            amplitude2: self.amplitude2,
            amplitude_out: self.amplitude_out,
            age: if self.age < i32::MAX {
                self.age + 1
            } else {
                self.age
            },
            dist: NoteDists { amp: c.amp, mean: c.mean, sigma: c.sigma, taken: true },
        }
    }

    fn merge(&self, other: &Slot) -> (s: Slot)
        ensures
            s == self.merged(*other),
    {
        Slot {
            position: self.position,
            amplitude: if self.amplitude >= other.amplitude {
                self.amplitude
            } else {
                other.amplitude
            },
            amplitude2: self.amplitude2,
            amplitude_out: self.amplitude_out,
            age: self.age,
            dist: if self.dist.taken {
                self.dist
            } else {
                other.dist
            },
        }
    }

    fn settle(&self, cfg: &Configuration) -> (s: Slot)
        requires
            cfg.valid(),
            self.wf(cfg.circle()),
        ensures
            s == self.settled(*cfg),
            s.wf(cfg.circle()),
            s.rested(),
    {
        let amp: i64 = if self.dist.taken {
            self.amplitude
        } else {
            clamp_amplitude(
                smooth(self.amplitude, 0, cfg.note_attach_amp_iir) as i128 - cfg.slope as i128,
            )
        };
        if amp <= 0 {
            Slot::empty()
        } else {
            Slot {
                position: self.position,
                amplitude: amp,
                amplitude2: smooth(self.amplitude2, amp, cfg.note_attach_amp_iir2),
                amplitude_out: chop(self.amplitude_out, amp, cfg.note_out_chop),
                age: self.age,
                dist: self.dist,
            }
        }
    }
}

/// A row of `n` vacant slots.
pub fn vacancies(n: usize) -> (slots: Vec<Slot>)
    ensures
        slots@ == vacant_row(n as nat),
{
    let mut slots: Vec<Slot> = Vec::new();
    let mut i: usize = 0;
    while i < n
        invariant
            i <= n,
            slots@ == vacant_row(i as nat),
        decreases n - i,
    {
        slots.push(Slot::empty());
        i += 1;
        assert(slots@ =~= vacant_row(i as nat));
    }
    slots
}

/// A copy of the row.
pub fn copy_row(slots: &Vec<Slot>) -> (row: Vec<Slot>)
    ensures
        row@ == slots@,
{
    let mut row: Vec<Slot> = Vec::with_capacity(slots.len());
    let mut i: usize = 0;
    while i < slots.len()
        invariant
            i <= slots.len(),
            row@ == slots@.subrange(0, i as int),
        decreases slots.len() - i,
    {
        row.push(slots[i]);
        i += 1;
        assert(row@ =~= slots@.subrange(0, i as int));
    }
    assert(row@ =~= slots@);
    row
}

/// The amplitude given out for a note of amplitude `amp` whose last output was
/// `prev`.
pub fn chop(prev: i64, amp: i64, fraction: i64) -> (out: i64)
    ensures
        out == chopped(prev as int, amp as int, fraction as int),
        out == prev || out == amp,
{
    let change: i128 = if amp >= prev {
        amp as i128 - prev as i128
    } else {
        prev as i128 - amp as i128
    };
    proof {
        crate::fixed::lemma_product_bound(
            change as int,
            ONE as int,
            0x1_0000_0000_0000_0000,
            ONE as int,
        );
        crate::fixed::lemma_product_bound(
            fraction as int,
            prev as int,
            0x8000_0000_0000_0000,
            0x8000_0000_0000_0000,
        );
    }
    let moved: i128 = change * (ONE as i128);
    let held: i128 = (fraction as i128) * (prev as i128);
    if prev > 0 && moved < held {
        prev
    } else {
        amp
    }
}

fn find_closest(slots: &Vec<Slot>, c: &NoteDists, cfg: &Configuration) -> (r: (bool, usize))
    requires
        cfg.valid(),
    ensures
        r.0 ==> r.1 < slots.len() && r.1 == closest(slots@, *c, *cfg, slots.len() as int),
        !r.0 ==> closest(slots@, *c, *cfg, slots.len() as int) == -1,
{
    let circ = cfg.circumference();
    let mut found = false;
    let mut best: usize = 0;
    let mut reach: i64 = 0;
    let mut k: usize = 0;
    while k < slots.len()
        invariant
            k <= slots.len(),
            cfg.valid(),
            circ == cfg.circle(),
            found ==> best < k && best == closest(slots@, *c, *cfg, k as int) && reach
                == cyclic_distance(slots[best as int].position as int, c.mean as int, circ as int),
            !found ==> closest(slots@, *c, *cfg, k as int) == -1,
        decreases slots.len() - k,
    {
        let s = slots[k];
        if s.amplitude > 0 && !s.dist.taken {
            let d = distance_round(s.position, c.mean, circ);
            if d <= cfg.note_jumpability && (!found || d < reach) {
                found = true;
                best = k;
                reach = d;
            }
        }
        k += 1;
    }
    (found, best)
}

fn find_free(slots: &Vec<Slot>) -> (r: (bool, usize))
    ensures
        r.0 ==> r.1 < slots.len() && r.1 == first_free(slots@, slots.len() as int),
        !r.0 ==> first_free(slots@, slots.len() as int) == -1,
{
    let mut k: usize = 0;
    while k < slots.len()
        invariant
            k <= slots.len(),
            first_free(slots@, k as int) == -1,
        decreases slots.len() - k,
    {
        let s = slots[k];
        if s.amplitude <= 0 && !s.dist.taken {
            proof {
                lemma_first_free_stays(slots@, k as int + 1, slots.len() as int);
            }
            return (true, k);
        }
        k += 1;
    }
    (false, 0)
}

proof fn lemma_first_free_stays(slots: Seq<Slot>, n: int, m: int)
    requires
        n <= m,
        first_free(slots, n) >= 0,
    ensures
        first_free(slots, m) == first_free(slots, n),
    decreases m - n,
{
    if n < m {
        lemma_first_free_stays(slots, n, m - 1);
    }
}

fn absorb(slots: &mut Vec<Slot>, d: &NoteDists, cfg: &Configuration)
    requires
        cfg.valid(),
        slots_wf(old(slots)@, cfg.circle()),
    ensures
        final(slots)@ == absorbed(old(slots)@, *d, *cfg),
        final(slots)@.len() == old(slots)@.len(),
        slots_wf(final(slots)@, cfg.circle()),
{
    let circ = cfg.circumference();
    let c = d.tidy(circ);
    let (found, i) = find_closest(slots, &c, cfg);
    if found {
        let s = slots[i].attach(&c, cfg);
        slots[i] = s;
    } else if c.amp > cfg.note_minimum_new_distribution_value {
        let (any, k) = find_free(slots);
        if any {
            slots[k] = Slot {
                position: c.mean,
                amplitude: c.amp,
                amplitude2: 0,
                amplitude_out: 0,
                age: 0,
                dist: NoteDists { amp: c.amp, mean: c.mean, sigma: c.sigma, taken: true },
            };
        }
    }
}

fn merge_pair(slots: &mut Vec<Slot>, i: usize, j: usize, cfg: &Configuration)
    requires
        cfg.valid(),
        i < j < old(slots).len(),
        slots_wf(old(slots)@, cfg.circle()),
    ensures
        final(slots)@ == merged_pair(old(slots)@, i as int, j as int, *cfg),
        final(slots)@.len() == old(slots)@.len(),
        slots_wf(final(slots)@, cfg.circle()),
{
    let a = slots[i];
    let b = slots[j];
    if a.amplitude > 0 && b.amplitude > 0 && distance_round(
        a.position,
        b.position,
        cfg.circumference(),
    ) < cfg.note_combine_distance {
        if a.age > b.age || (a.age == b.age && a.amplitude >= b.amplitude) {
            slots[i] = a.merge(&b);
            slots[j] = Slot::empty();
        } else {
            slots[j] = b.merge(&a);
            slots[i] = Slot::empty();
        }
    }
}

fn combine(slots: &mut Vec<Slot>, cfg: &Configuration)
    requires
        cfg.valid(),
        slots_wf(old(slots)@, cfg.circle()),
    ensures
        final(slots)@ == combined(old(slots)@, *cfg),
        final(slots)@.len() == old(slots)@.len(),
        slots_wf(final(slots)@, cfg.circle()),
{
    let n = slots.len();
    let mut i: usize = 0;
    while i < n
        invariant
            i <= n,
            n == slots.len(),
            n == old(slots).len(),
            cfg.valid(),
            slots_wf(slots@, cfg.circle()),
            slots@ == merged_rows(old(slots)@, i as int, *cfg),
        decreases n - i,
    {
        let ghost row = slots@;
        let mut j: usize = i + 1;
        while j < n
            invariant
                i < j <= n || (j == i + 1 && j == n + 1),
                i < n,
                n == slots.len(),
                n == row.len(),
                cfg.valid(),
                slots_wf(slots@, cfg.circle()),
                slots@ == merged_row(row, i as int, j as int, *cfg),
            decreases n - j,
        {
            merge_pair(slots, i, j, cfg);
            j += 1;
        }
        proof {
            assert(slots@ == merged_row(row, i as int, n as int, *cfg));
        }
        i += 1;
    }
}

/// Carries the row of notes through one frame that brought the curves
/// `candidates`.
pub fn track_frame(slots: &mut Vec<Slot>, candidates: &[NoteDists], cfg: &Configuration)
    requires
        cfg.valid(),
        slots_wf(old(slots)@, cfg.circle()),
    ensures
        final(slots)@ == after_frame(old(slots)@, candidates@, *cfg),
        final(slots)@.len() == old(slots)@.len(),
        slots_wf(final(slots)@, cfg.circle()),
        slots_rested(final(slots)@),
{
    let n = slots.len();
    let mut i: usize = 0;
    while i < n
        invariant
            i <= n,
            n == slots.len(),
            n == old(slots).len(),
            slots_wf(slots@, cfg.circle()),
            forall|k: int| 0 <= k < i ==> slots[k] == old(slots)[k].opened(),
            forall|k: int| i <= k < n ==> slots[k] == old(slots)[k],
        decreases n - i,
    {
        let s = slots[i];
        slots[i] = Slot {
            position: s.position,
            amplitude: s.amplitude,
            amplitude2: s.amplitude2,
            amplitude_out: s.amplitude_out,
            age: s.age,
            dist: NoteDists { amp: 0, mean: 0, sigma: 0, taken: false },
        };
        i += 1;
    }
    assert(slots@ =~= opened(old(slots)@));
    let mut j: usize = 0;
    while j < candidates.len()
        invariant
            j <= candidates.len(),
            cfg.valid(),
            slots_wf(slots@, cfg.circle()),
            slots@.len() == old(slots)@.len(),
            slots@ == absorbed_all(opened(old(slots)@), candidates@, *cfg, j as int),
        decreases candidates.len() - j,
    {
        absorb(slots, &candidates[j], cfg);
        j += 1;
    }
    combine(slots, cfg);
    let ghost merged = slots@;
    let n = slots.len();
    let mut i: usize = 0;
    while i < n
        invariant
            i <= n,
            n == slots.len(),
            n == merged.len(),
            cfg.valid(),
            slots_wf(merged, cfg.circle()),
            slots_wf(slots@, cfg.circle()),
            forall|k: int| 0 <= k < i ==> slots[k] == merged[k].settled(*cfg),
            forall|k: int| 0 <= k < i ==> (#[trigger] slots[k]).rested(),
            forall|k: int| i <= k < n ==> slots[k] == merged[k],
        decreases n - i,
    {
        let s = slots[i].settle(cfg);
        slots[i] = s;
        i += 1;
    }
    assert(slots@ =~= settled(merged, *cfg));
}

/// What `closest` picks: a note that can follow the curve, none that can
/// follow it lies closer to its mean, and none as close stands in a lower
/// slot; it picks none only where no note can follow the curve.
pub proof fn lemma_closest_is_nearest(slots: Seq<Slot>, c: NoteDists, cfg: Configuration, n: int)
    requires
        0 <= n <= slots.len(),
    ensures
        -1 <= closest(slots, c, cfg, n) < n,
        closest(slots, c, cfg, n) >= 0 ==> slots[closest(slots, c, cfg, n)].follows(c, cfg),
        forall|k: int|
            0 <= k < n && (#[trigger] slots[k]).follows(c, cfg) ==> {
                let i = closest(slots, c, cfg, n);
                let near = cyclic_distance(slots[i].position as int, c.mean as int, cfg.circle());
                let far = cyclic_distance(slots[k].position as int, c.mean as int, cfg.circle());
                i >= 0 && (near < far || (near == far && i <= k))
            },
    decreases n,
{
    if n > 0 {
        lemma_closest_is_nearest(slots, c, cfg, n - 1);
    }
}

/// What `first_free` picks: a free slot with no free slot before it; it picks
/// none only where no slot is free.
pub proof fn lemma_first_free_is_first(slots: Seq<Slot>, n: int)
    requires
        0 <= n <= slots.len(),
    ensures
        -1 <= first_free(slots, n) < n,
        first_free(slots, n) >= 0 ==> slots[first_free(slots, n)].free(),
        forall|k: int|
            0 <= k < n && (#[trigger] slots[k]).free() ==> 0 <= first_free(slots, n) <= k,
    decreases n,
{
    if n > 0 {
        lemma_first_free_is_first(slots, n - 1);
    }
}

} // verus!
