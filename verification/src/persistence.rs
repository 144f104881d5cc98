//! What holds of the row of notes from one frame to the next.

use vstd::prelude::*;
use crate::config::Configuration;
use crate::fixed::{
    clamp_amp,
    cyclic_distance,
    halved,
    smoothed,
    smoothed_position,
    AMP_MAX,
    ONE,
};
use crate::tracker::{
    absorbed,
    absorbed_all,
    after_frame,
    closest,
    combined,
    first_free,
    merged_pair,
    merged_row,
    merged_rows,
    opened,
    settled,
    slots_wf,
    vacant_row,
    NoteDists,
    Slot,
};

verus! {

/// No two notes of the row lie closer than the distance below which notes
/// become one.
pub open spec fn separated(slots: Seq<Slot>, cfg: Configuration) -> bool {
    forall|i: int, j: int|
        0 <= i < j < slots.len() ==> !(#[trigger] slots[i]).close(#[trigger] slots[j], cfg)
}

/// The slot `after` holds no note, or the note of `before`: at its position
/// and of its age, no quieter than it was and no louder than `top`.
pub open spec fn kept(before: Slot, after: Slot, top: int) -> bool {
    !after.live() || {
        &&& before.live()
        &&& after.position == before.position
        &&& after.age == before.age
        &&& after.amplitude2 == before.amplitude2
        &&& after.amplitude_out == before.amplitude_out
        &&& before.amplitude <= after.amplitude <= top
    }
}

/// The row `after` holds only notes of the row `before`, each in its slot, at
/// its position and of its age, none quieter than it was and none louder than
/// `top`.
pub open spec fn thinned(before: Seq<Slot>, after: Seq<Slot>, top: int) -> bool {
    &&& after.len() == before.len()
    &&& forall|i: int| 0 <= i < after.len() ==> kept(before[i], #[trigger] after[i], top)
}

/// No note of the row is louder than `top`, and if one has a curve,
/// `with_curve` holds.
pub open spec fn capped(slots: Seq<Slot>, top: int, with_curve: bool) -> bool {
    forall|i: int|
        0 <= i < slots.len() ==> (#[trigger] slots[i]).amplitude <= top && (slots[i].dist.taken
            ==> with_curve)
}

/// The row after `n` frames that each brought the curves `cands`.
pub open spec fn after_frames(
    slots: Seq<Slot>,
    cands: Seq<NoteDists>,
    cfg: Configuration,
    n: nat,
) -> Seq<Slot>
    decreases n,
{
    if n == 0 {
        slots
    } else {
        after_frame(after_frames(slots, cands, cfg, (n - 1) as nat), cands, cfg)
    }
}

proof fn lemma_pair_thins(
    slots: Seq<Slot>,
    i: int,
    j: int,
    cfg: Configuration,
    top: int,
    with_curve: bool,
)
    requires
        0 <= i < j < slots.len(),
        capped(slots, top, with_curve),
    ensures
        thinned(slots, merged_pair(slots, i, j, cfg), top),
        capped(merged_pair(slots, i, j, cfg), top, with_curve),
        !merged_pair(slots, i, j, cfg)[i].close(merged_pair(slots, i, j, cfg)[j], cfg),
        !slots[i].close(slots[j], cfg) ==> merged_pair(slots, i, j, cfg) == slots,
{
    let after = merged_pair(slots, i, j, cfg);
    assert forall|k: int| 0 <= k < after.len() implies kept(slots[k], #[trigger] after[k], top) by {
        assert(slots[k].amplitude <= top);
    }
    assert forall|k: int| 0 <= k < after.len() implies (#[trigger] after[k]).amplitude <= top && (
    after[k].dist.taken ==> with_curve) by {
        assert(slots[k].amplitude <= top);
        assert(slots[i].amplitude <= top);
        assert(slots[j].amplitude <= top);
    }
}

proof fn lemma_thinned_twice(a: Seq<Slot>, b: Seq<Slot>, c: Seq<Slot>, top: int)
    requires
        thinned(a, b, top),
        thinned(b, c, top),
    ensures
        thinned(a, c, top),
{
    assert forall|k: int| 0 <= k < c.len() implies kept(a[k], #[trigger] c[k], top) by {
        assert(kept(a[k], b[k], top));
        assert(kept(b[k], c[k], top));
    }
}

proof fn lemma_row_thins(
    slots: Seq<Slot>,
    i: int,
    n: int,
    cfg: Configuration,
    top: int,
    with_curve: bool,
)
    requires
        0 <= i,
        n <= slots.len(),
        capped(slots, top, with_curve),
    ensures
        thinned(slots, merged_row(slots, i, n, cfg), top),
        capped(merged_row(slots, i, n, cfg), top, with_curve),
        forall|b: int|
            i < b < n ==> !merged_row(slots, i, n, cfg)[i].close(
                #[trigger] merged_row(slots, i, n, cfg)[b],
                cfg,
            ),
        (forall|b: int| i < b < n ==> !slots[i].close(#[trigger] slots[b], cfg)) ==> merged_row(
            slots,
            i,
            n,
            cfg,
        ) == slots,
    decreases n - i,
{
    if n <= i + 1 {
        assert forall|k: int| 0 <= k < slots.len() implies kept(
            slots[k],
            #[trigger] slots[k],
            top,
        ) by {
            assert(slots[k].amplitude <= top);
        }
    } else {
        let prev = merged_row(slots, i, n - 1, cfg);
        let row = merged_pair(prev, i, n - 1, cfg);
        lemma_row_thins(slots, i, n - 1, cfg, top, with_curve);
        lemma_pair_thins(prev, i, n - 1, cfg, top, with_curve);
        lemma_thinned_twice(slots, prev, row, top);
        assert forall|b: int| i < b < n implies !row[i].close(#[trigger] row[b], cfg) by {
            if b < n - 1 {
                assert(!prev[i].close(prev[b], cfg));
                assert(kept(prev[i], row[i], top));
                assert(kept(prev[b], row[b], top));
            }
        }
        if forall|b: int| i < b < n ==> !slots[i].close(#[trigger] slots[b], cfg) {
            assert(prev == slots);
            assert(!slots[i].close(slots[n - 1], cfg));
        }
    }
}

proof fn lemma_rows_thin(
    slots: Seq<Slot>,
    m: int,
    cfg: Configuration,
    top: int,
    with_curve: bool,
)
    requires
        m <= slots.len(),
        capped(slots, top, with_curve),
    ensures
        thinned(slots, merged_rows(slots, m, cfg), top),
        capped(merged_rows(slots, m, cfg), top, with_curve),
        forall|a: int, b: int|
            0 <= a < m && a < b < slots.len() ==> !(#[trigger] merged_rows(slots, m, cfg)[a]).close(
                #[trigger] merged_rows(slots, m, cfg)[b],
                cfg,
            ),
        separated(slots, cfg) ==> merged_rows(slots, m, cfg) == slots,
    decreases m,
{
    if m <= 0 {
        assert forall|k: int| 0 <= k < slots.len() implies kept(
            slots[k],
            #[trigger] slots[k],
            top,
        ) by {
            assert(slots[k].amplitude <= top);
        }
    } else {
        let prev = merged_rows(slots, m - 1, cfg);
        let rows = merged_row(prev, m - 1, slots.len() as int, cfg);
        lemma_rows_thin(slots, m - 1, cfg, top, with_curve);
        lemma_row_thins(prev, m - 1, slots.len() as int, cfg, top, with_curve);
        lemma_thinned_twice(slots, prev, rows, top);
        assert forall|a: int, b: int| 0 <= a < m && a < b < slots.len() implies !(
        #[trigger] rows[a]).close(#[trigger] rows[b], cfg) by {
            if a < m - 1 {
                assert(!prev[a].close(prev[b], cfg));
                assert(kept(prev[a], rows[a], top));
                assert(kept(prev[b], rows[b], top));
            }
        }
        if separated(slots, cfg) {
            assert(prev == slots);
            assert forall|b: int| m - 1 < b < slots.len() implies !slots[m - 1].close(
                #[trigger] slots[b],
                cfg,
            ) by {}
        }
    }
}

/// Once the close notes of a row have become one, no two notes of it are
/// close; the notes that are left are notes of the row, in their slots; and a
/// row without close notes is left as it is.
pub proof fn lemma_combined(slots: Seq<Slot>, cfg: Configuration, top: int, with_curve: bool)
    requires
        capped(slots, top, with_curve),
    ensures
        separated(combined(slots, cfg), cfg),
        thinned(slots, combined(slots, cfg), top),
        capped(combined(slots, cfg), top, with_curve),
        separated(slots, cfg) ==> combined(slots, cfg) == slots,
{
    lemma_rows_thin(slots, slots.len() as int, cfg, top, with_curve);
}

/// What the end of a frame does to one slot: a note is left only where one
/// was, at its position and of its age; a slot without a note is left vacant;
/// and a note without a curve grows no louder, and quieter if the settings
/// make notes decay.
pub proof fn lemma_settled_slot(s: Slot, cfg: Configuration)
    requires
        cfg.valid(),
    ensures
        s.settled(cfg).live() ==> s.live() && s.settled(cfg).position == s.position
            && s.settled(cfg).age == s.age && s.settled(cfg).amplitude_out > 0,
        !s.settled(cfg).live() ==> s.settled(cfg) == Slot::vacant(),
        0 <= s.settled(cfg).amplitude,
        s.amplitude <= AMP_MAX ==> s.settled(cfg).amplitude <= AMP_MAX,
        0 <= s.settled(cfg).amplitude2 <= AMP_MAX,
        s.dist.taken && 0 <= s.amplitude ==> s.settled(cfg).amplitude == s.amplitude,
        !s.dist.taken && 0 <= s.amplitude ==> s.settled(cfg).amplitude <= s.amplitude,
        !s.dist.taken && 0 < s.amplitude && (cfg.note_attach_amp_iir > 0 || cfg.slope > 0)
            ==> s.settled(cfg).amplitude < s.amplitude,
{
    let p = clamp_amp(s.amplitude as int);
    let c = cfg.note_attach_amp_iir as int;
    let step = ((0 - p) * c) / (ONE as int);
    assert((0 - p) * c <= 0) by (nonlinear_arith)
        requires
            p >= 0,
            c >= 0,
    ;
    if p > 0 && c > 0 {
        assert((0 - p) * c < 0) by (nonlinear_arith)
            requires
                p > 0,
                c > 0,
        ;
    }
    if p == 0 {
        assert((0 - p) * c == 0) by (nonlinear_arith)
            requires
                p == 0,
        ;
    }
    assert(smoothed(s.amplitude as int, 0, c) == clamp_amp(p + step));
}

/// Whatever curves a frame brings, at its end no two notes lie closer than
/// the distance below which notes become one.
pub proof fn lemma_frame_separates(slots: Seq<Slot>, cands: Seq<NoteDists>, cfg: Configuration)
    requires
        cfg.valid(),
    ensures
        separated(after_frame(slots, cands, cfg), cfg),
{
    let mid = absorbed_all(opened(slots), cands, cfg, cands.len() as int);
    let one = combined(mid, cfg);
    let last = settled(one, cfg);
    let top = i64::MAX as int;
    lemma_combined(mid, cfg, top, true);
    assert forall|i: int, j: int| 0 <= i < j < last.len() implies !(#[trigger] last[i]).close(
        #[trigger] last[j],
        cfg,
    ) by {
        lemma_settled_slot(one[i], cfg);
        lemma_settled_slot(one[j], cfg);
        assert(!one[i].close(one[j], cfg));
    }
}

/// A frame that brings no curve creates no note: a note is left only where
/// one was, at its position and of its age, and none is louder than it was.
/// Where the settings make notes decay, every note that is left is quieter
/// than the loudest was.
pub proof fn lemma_silent_frame(slots: Seq<Slot>, cfg: Configuration, top: int)
    requires
        cfg.valid(),
        slots_wf(slots, cfg.circle()),
        capped(slots, top, true),
    ensures
        after_frame(slots, Seq::empty(), cfg).len() == slots.len(),
        slots_wf(after_frame(slots, Seq::empty(), cfg), cfg.circle()),
        forall|i: int|
            0 <= i < slots.len() && (#[trigger] after_frame(slots, Seq::empty(), cfg)[i]).live()
                ==> slots[i].live() && after_frame(slots, Seq::empty(), cfg)[i].position
                == slots[i].position && after_frame(slots, Seq::empty(), cfg)[i].age
                == slots[i].age,
        capped(after_frame(slots, Seq::empty(), cfg), top, true),
        cfg.note_attach_amp_iir > 0 || cfg.slope > 0 ==> capped(
            after_frame(slots, Seq::empty(), cfg),
            if top >= 1 {
                top - 1
            } else {
                0
            },
            true,
        ),
        separated(slots, cfg) ==> forall|i: int|
            0 <= i < slots.len() ==> (#[trigger] after_frame(slots, Seq::empty(), cfg)[i]).amplitude
                <= slots[i].amplitude,
{
    let none = Seq::<NoteDists>::empty();
    let start = opened(slots);
    assert(absorbed_all(start, none, cfg, 0) == start);
    let one = combined(start, cfg);
    let last = settled(one, cfg);
    assert(last == after_frame(slots, none, cfg));
    assert forall|i: int| 0 <= i < start.len() implies (#[trigger] start[i]).amplitude <= top && (
    start[i].dist.taken ==> false) by {
        assert(slots[i].amplitude <= top);
    }
    lemma_combined(start, cfg, top, false);
    assert forall|i: int| 0 <= i < last.len() implies {
        &&& (#[trigger] last[i]).wf(cfg.circle())
        &&& (last[i].live() ==> slots[i].live() && last[i].position == slots[i].position
            && last[i].age == slots[i].age)
        &&& last[i].amplitude <= top
        &&& (cfg.note_attach_amp_iir > 0 || cfg.slope > 0 ==> last[i].amplitude <= if top >= 1 {
            top - 1
        } else {
            0
        })
    } by {
        lemma_settled_slot(one[i], cfg);
        assert(kept(start[i], one[i], top));
        assert(slots[i].wf(cfg.circle()));
        assert(one[i].amplitude <= top && !one[i].dist.taken);
    }
    if separated(slots, cfg) {
        assert forall|i: int, j: int| 0 <= i < j < start.len() implies !(#[trigger] start[i]).close(
            #[trigger] start[j],
            cfg,
        ) by {
            assert(!slots[i].close(slots[j], cfg));
        }
        assert(one == start);
        assert forall|i: int| 0 <= i < slots.len() implies (#[trigger] last[i]).amplitude
            <= slots[i].amplitude by {
            lemma_settled_slot(one[i], cfg);
            assert(slots[i].wf(cfg.circle()));
        }
    }
}

/// Silence ages every note out. Where the settings make notes decay and no
/// note is louder than `top`, after `n` frames without a curve no note is
/// louder than `top - n`, no slot holds a note that it did not hold before,
/// and after `top` such frames no slot holds a note.
pub proof fn lemma_silence_clears(slots: Seq<Slot>, cfg: Configuration, top: int, n: nat)
    requires
        cfg.valid(),
        slots_wf(slots, cfg.circle()),
        capped(slots, top, true),
        cfg.note_attach_amp_iir > 0 || cfg.slope > 0,
    ensures
        after_frames(slots, Seq::empty(), cfg, n).len() == slots.len(),
        slots_wf(after_frames(slots, Seq::empty(), cfg, n), cfg.circle()),
        capped(
            after_frames(slots, Seq::empty(), cfg, n),
            if top >= n {
                top - n
            } else {
                0
            },
            true,
        ),
        forall|i: int|
            0 <= i < slots.len() && (#[trigger] after_frames(slots, Seq::empty(), cfg, n)[i]).live()
                ==> slots[i].live(),
        n >= top ==> forall|i: int|
            0 <= i < slots.len() ==> !(#[trigger] after_frames(
                slots,
                Seq::empty(),
                cfg,
                n,
            )[i]).live(),
    decreases n,
{
    if n > 0 {
        let before = after_frames(slots, Seq::empty(), cfg, (n - 1) as nat);
        lemma_silence_clears(slots, cfg, top, (n - 1) as nat);
        lemma_silent_frame(
            before,
            cfg,
            if top >= n - 1 {
                top - (n - 1)
            } else {
                0
            },
        );
        let after = after_frames(slots, Seq::empty(), cfg, n);
        assert forall|i: int| 0 <= i < slots.len() && (
        #[trigger] after[i]).live() implies slots[i].live() by {
            assert(before[i].live());
        }
    }
    let after = after_frames(slots, Seq::empty(), cfg, n);
    if n >= top {
        assert forall|i: int| 0 <= i < slots.len() implies !(#[trigger] after[i]).live() by {
            assert(after[i].amplitude <= 0);
        }
    }
}

/// The row holds exactly one note: in slot `k`, where the curve `c` lies and
/// as loud as it, of the age `age`, and given out; every other slot is vacant.
pub open spec fn only(slots: Seq<Slot>, k: int, c: NoteDists, age: int) -> bool {
    &&& 0 <= k < slots.len()
    &&& slots[k].position == c.mean
    &&& slots[k].amplitude == c.amp
    &&& slots[k].age == age
    &&& slots[k].amplitude_out > 0
    &&& forall|i: int| 0 <= i < slots.len() && i != k ==> (#[trigger] slots[i]) == Slot::vacant()
}

/// The row holds exactly one note, in slot 0.
pub open spec fn lone(slots: Seq<Slot>, c: NoteDists, age: int) -> bool {
    only(slots, 0, c, age)
}

/// The amplitude given out stands as the last frame left it under the
/// settings `cfg`: it is the amplitude itself, or it is held and the amplitude
/// lies within the fraction of it that the settings give.
pub open spec fn steady(s: Slot, cfg: Configuration) -> bool {
    let change = if s.amplitude >= s.amplitude_out {
        s.amplitude - s.amplitude_out
    } else {
        s.amplitude_out - s.amplitude
    };
    s.amplitude_out == s.amplitude || (s.amplitude_out > 0 && change * ONE < cfg.note_out_chop
        * s.amplitude_out)
}

proof fn lemma_closest_lone(slots: Seq<Slot>, c: NoteDists, cfg: Configuration, n: int)
    requires
        1 <= n <= slots.len(),
        forall|i: int| 1 <= i < slots.len() ==> !(#[trigger] slots[i]).live(),
    ensures
        closest(slots, c, cfg, n) == if slots[0].follows(c, cfg) {
            0int
        } else {
            -1
        },
    decreases n,
{
    if n > 1 {
        lemma_closest_lone(slots, c, cfg, n - 1);
        assert(!slots[n - 1].live());
    } else {
        assert(closest(slots, c, cfg, 0) == -1);
    }
}

proof fn lemma_first_free_lone(slots: Seq<Slot>, n: int)
    requires
        1 <= n <= slots.len(),
        slots[0].free(),
    ensures
        first_free(slots, n) == 0,
    decreases n,
{
    if n > 1 {
        lemma_first_free_lone(slots, n - 1);
    } else {
        assert(first_free(slots, 0) == -1);
    }
}

proof fn lemma_tone_frame(slots: Seq<Slot>, d: NoteDists, cfg: Configuration, age: int)
    requires
        cfg.valid(),
        d.tidied(cfg.circle()).amp > cfg.note_minimum_new_distribution_value,
        slots.len() >= 1,
        slots == vacant_row(slots.len()) || (lone(slots, d.tidied(cfg.circle()), age) && 0 <= age
            < i32::MAX && slots_wf(slots, cfg.circle())),
    ensures
        after_frame(slots, seq![d], cfg).len() == slots.len(),
        slots_wf(after_frame(slots, seq![d], cfg), cfg.circle()),
        lone(
            after_frame(slots, seq![d], cfg),
            d.tidied(cfg.circle()),
            if slots == vacant_row(slots.len()) {
                0
            } else {
                age + 1
            },
        ),
{
    let circ = cfg.circle();
    let c = d.tidied(circ);
    let cands = seq![d];
    let start = opened(slots);
    vstd::arithmetic::div_mod::lemma_mod_bound(d.mean as int, circ);
    assert(0 <= c.mean < circ);
    assert(0 < c.amp <= AMP_MAX);
    assert(absorbed_all(start, cands, cfg, 0) == start);
    assert(cands[0] == d);
    let mid = absorbed(start, d, cfg);
    assert(absorbed_all(start, cands, cfg, 1) == mid);
    assert forall|i: int| 1 <= i < start.len() implies !(#[trigger] start[i]).live() by {
        assert(slots[i] == Slot::vacant());
    }
    lemma_closest_lone(start, c, cfg, start.len() as int);
    let f = cfg.note_attach_freq_iir as int;
    let k = cfg.note_attach_amp_iir as int;
    if slots == vacant_row(slots.len()) {
        assert(slots[0] == Slot::vacant());
        assert(!start[0].live());
        lemma_first_free_lone(start, start.len() as int);
        assert(mid == start.update(0, Slot::created(c)));
    } else {
        vstd::arithmetic::div_mod::lemma_small_mod(0, circ as nat);
        vstd::arithmetic::div_mod::lemma_small_mod(c.mean as nat, circ as nat);
        assert(cyclic_distance(c.mean as int, c.mean as int, circ) == 0);
        assert(start[0].follows(c, cfg));
        assert(0 * f == 0 && 0 * k == 0) by (nonlinear_arith);
        assert(smoothed_position(c.mean as int, c.mean as int, f, circ) == c.mean);
        assert(smoothed(c.amp as int, c.amp as int, k) == c.amp);
        assert(mid == start.update(0, start[0].attached(c, cfg)));
    }
    assert(mid[0].position == c.mean && mid[0].amplitude == c.amp && mid[0].dist.taken);
    assert forall|i: int, j: int| 0 <= i < j < mid.len() implies !(#[trigger] mid[i]).close(
        #[trigger] mid[j],
        cfg,
    ) by {
        assert(mid[j] == start[j]);
        assert(!start[j].live());
    }
    lemma_combined(mid, cfg, i64::MAX as int, true);
    let last = settled(mid, cfg);
    assert(last == after_frame(slots, cands, cfg));
    lemma_settled_slot(mid[0], cfg);
    assert forall|i: int| 1 <= i < last.len() implies (#[trigger] last[i]) == Slot::vacant() by {
        lemma_settled_slot(mid[i], cfg);
        assert(mid[i] == start[i]);
        assert(!start[i].live());
    }
    if slots != vacant_row(slots.len()) {
        assert(slots[0].wf(circ));
    }
    assert forall|i: int| 0 <= i < last.len() implies (#[trigger] last[i]).wf(circ) by {
        lemma_settled_slot(mid[i], cfg);
    }
}

/// A steady tone holds exactly one note. From a vacant row, `n` frames that
/// each bring the same single curve, strong enough for a new note, leave one
/// note, where the curve lies and as loud as it, given out, and of the age
/// `n - 1`: one frame older with every frame.
pub proof fn lemma_tone_holds_one_note(len: nat, d: NoteDists, cfg: Configuration, n: nat)
    requires
        cfg.valid(),
        len >= 1,
        1 <= n <= i32::MAX,
        d.tidied(cfg.circle()).amp > cfg.note_minimum_new_distribution_value,
    ensures
        after_frames(vacant_row(len), seq![d], cfg, n).len() == len,
        slots_wf(after_frames(vacant_row(len), seq![d], cfg, n), cfg.circle()),
        lone(after_frames(vacant_row(len), seq![d], cfg, n), d.tidied(cfg.circle()), n - 1),
    decreases n,
{
    let before = after_frames(vacant_row(len), seq![d], cfg, (n - 1) as nat);
    if n == 1 {
        assert(before == vacant_row(len));
        assert(vacant_row(len).len() == len);
        lemma_tone_frame(before, d, cfg, 0);
    } else {
        lemma_tone_holds_one_note(len, d, cfg, (n - 1) as nat);
        assert(before[0].amplitude > 0);
        assert(vacant_row(before.len())[0] == Slot::vacant());
        assert(before != vacant_row(before.len()));
        lemma_tone_frame(before, d, cfg, n - 2);
    }
}

/// A note sounds exactly while its slot holds it: at the end of every frame
/// the amplitude given out is above zero in the slots that hold a note, and
/// the other slots are vacant.
pub proof fn lemma_frame_marks_active(slots: Seq<Slot>, cands: Seq<NoteDists>, cfg: Configuration)
    requires
        cfg.valid(),
    ensures
        forall|i: int|
            0 <= i < after_frame(slots, cands, cfg).len() ==> {
                let s = #[trigger] after_frame(slots, cands, cfg)[i];
                if s.live() {
                    s.amplitude_out > 0
                } else {
                    s == Slot::vacant()
                }
            },
{
    let one = combined(absorbed_all(opened(slots), cands, cfg, cands.len() as int), cfg);
    assert forall|i: int| 0 <= i < after_frame(slots, cands, cfg).len() implies {
        let s = #[trigger] after_frame(slots, cands, cfg)[i];
        if s.live() {
            s.amplitude_out > 0
        } else {
            s == Slot::vacant()
        }
    } by {
        lemma_settled_slot(one[i], cfg);
    }
}

/// When a steady tone stops, its note is gone within a number of frames that
/// the settings give. Where they make notes decay, a row that has held the
/// note of one curve for `n` frames holds no note after `fade_time` frames of
/// silence, nor after any number of such frames beyond that.
pub proof fn lemma_tone_fades(
    len: nat,
    d: NoteDists,
    cfg: Configuration,
    n: nat,
    silent_frames: nat,
)
    requires
        cfg.valid(),
        len >= 1,
        1 <= n <= i32::MAX,
        d.tidied(cfg.circle()).amp > cfg.note_minimum_new_distribution_value,
        cfg.note_attach_amp_iir > 0 || cfg.slope > 0,
        silent_frames >= fade_time(cfg),
    ensures
        forall|i: int|
            0 <= i < len ==> !(#[trigger] after_frames(
                after_frames(vacant_row(len), seq![d], cfg, n),
                Seq::empty(),
                cfg,
                silent_frames,
            )[i]).live(),
{
    let held = after_frames(vacant_row(len), seq![d], cfg, n);
    lemma_tone_holds_one_note(len, d, cfg, n);
    lemma_silence_ends_in_time(held, cfg, silent_frames);
}

proof fn lemma_row_after_first_pair(slots: Seq<Slot>, n: int, cfg: Configuration)
    requires
        2 <= n <= slots.len(),
        forall|j: int| 2 <= j < slots.len() ==> !(#[trigger] slots[j]).live(),
    ensures
        merged_row(slots, 0, n, cfg) == merged_pair(slots, 0, 1, cfg),
    decreases n,
{
    if n > 2 {
        lemma_row_after_first_pair(slots, n - 1, cfg);
        assert(!slots[n - 1].live());
    } else {
        assert(merged_row(slots, 0, 1, cfg) == slots);
    }
}

proof fn lemma_rows_after_first_pair(slots: Seq<Slot>, m: int, cfg: Configuration)
    requires
        1 <= m <= slots.len(),
        2 <= slots.len(),
        slots[0].close(slots[1], cfg),
        forall|j: int| 2 <= j < slots.len() ==> !(#[trigger] slots[j]).live(),
    ensures
        merged_rows(slots, m, cfg) == merged_pair(slots, 0, 1, cfg),
    decreases m,
{
    let one = merged_pair(slots, 0, 1, cfg);
    lemma_row_after_first_pair(slots, slots.len() as int, cfg);
    assert(merged_rows(slots, 0, cfg) == slots);
    if m > 1 {
        lemma_rows_after_first_pair(slots, m - 1, cfg);
        let k: int = if slots[0].outlives(slots[1]) {
            0
        } else {
            1
        };
        assert forall|j: int| 0 <= j < one.len() && j != k implies !(#[trigger] one[j]).live() by {
            if j >= 2 {
                assert(one[j] == slots[j]);
            }
        }
        assert forall|b: int| m - 1 < b < one.len() implies !one[m - 1].close(
            #[trigger] one[b],
            cfg,
        ) by {
            if m - 1 != k {
                assert(!one[m - 1].live());
            } else {
                assert(!one[b].live());
            }
        }
        assert forall|i: int| 0 <= i < one.len() implies (#[trigger] one[i]).amplitude
            <= i64::MAX && (one[i].dist.taken ==> true) by {}
        lemma_row_thins(one, m - 1, one.len() as int, cfg, i64::MAX as int, true);
    }
}

/// Two peaks that lie closer than the distance below which notes become one
/// give one note within the frame that brings them. On a vacant row of two
/// slots or more, a frame that brings two such curves, each strong enough for
/// a new note, leaves exactly one note: where the higher curve lies and as
/// loud as it (the first of the two if they are as high), in the slot that the
/// curve was given.
pub proof fn lemma_close_pair_becomes_one(
    len: nat,
    d1: NoteDists,
    d2: NoteDists,
    cfg: Configuration,
)
    requires
        cfg.valid(),
        len >= 2,
        d1.tidied(cfg.circle()).amp > cfg.note_minimum_new_distribution_value,
        d2.tidied(cfg.circle()).amp > cfg.note_minimum_new_distribution_value,
        cyclic_distance(
            d1.tidied(cfg.circle()).mean as int,
            d2.tidied(cfg.circle()).mean as int,
            cfg.circle(),
        ) < cfg.note_combine_distance,
    ensures
        d1.tidied(cfg.circle()).amp >= d2.tidied(cfg.circle()).amp ==> only(
            after_frame(vacant_row(len), seq![d1, d2], cfg),
            0,
            d1.tidied(cfg.circle()),
            0,
        ),
        d1.tidied(cfg.circle()).amp < d2.tidied(cfg.circle()).amp ==> only(
            after_frame(vacant_row(len), seq![d1, d2], cfg),
            1,
            d2.tidied(cfg.circle()),
            0,
        ),
{
    let circ = cfg.circle();
    let c1 = d1.tidied(circ);
    let c2 = d2.tidied(circ);
    let cands = seq![d1, d2];
    let row = vacant_row(len);
    let start = opened(row);
    assert(start =~= row);
    vstd::arithmetic::div_mod::lemma_mod_bound(d1.mean as int, circ);
    vstd::arithmetic::div_mod::lemma_mod_bound(d2.mean as int, circ);
    assert(absorbed_all(start, cands, cfg, 0) == start);
    let a1 = absorbed(start, d1, cfg);
    assert(cands[0] == d1 && cands[1] == d2);
    assert(absorbed_all(start, cands, cfg, 1) == a1);
    let a2 = absorbed(a1, d2, cfg);
    assert(absorbed_all(start, cands, cfg, 2) == a2);
    assert forall|i: int| 1 <= i < start.len() implies !(#[trigger] start[i]).live() by {}
    lemma_closest_lone(start, c1, cfg, len as int);
    lemma_first_free_lone(start, len as int);
    assert(a1 == start.update(0, Slot::created(c1)));
    assert forall|i: int| 1 <= i < a1.len() implies !(#[trigger] a1[i]).live() by {
        assert(a1[i] == start[i]);
    }
    lemma_closest_lone(a1, c2, cfg, len as int);
    crate::tracker::lemma_first_free_is_first(a1, len as int);
    assert(a1[1].free());
    assert(!a1[0].free());
    assert(first_free(a1, len as int) == 1);
    assert(a2 == a1.update(1, Slot::created(c2)));
    assert(a2[0] == Slot::created(c1));
    assert(a2[1] == Slot::created(c2));
    assert forall|j: int| 2 <= j < a2.len() implies !(#[trigger] a2[j]).live() by {
        assert(a2[j] == start[j]);
    }
    assert(a2[0].close(a2[1], cfg));
    lemma_rows_after_first_pair(a2, len as int, cfg);
    let one = merged_pair(a2, 0, 1, cfg);
    assert(combined(a2, cfg) == one);
    let last = settled(one, cfg);
    assert(last == after_frame(row, cands, cfg));
    let k: int = if c1.amp >= c2.amp {
        0
    } else {
        1
    };
    lemma_settled_slot(one[k], cfg);
    assert forall|i: int| 0 <= i < last.len() && i != k implies (#[trigger] last[i])
        == Slot::vacant() by {
        lemma_settled_slot(one[i], cfg);
        if i >= 2 {
            assert(one[i] == a2[i]);
        }
    }
}

/// At the end of every frame the amplitude given out stands as the settings
/// of that frame leave it.
pub proof fn lemma_frame_steadies(slots: Seq<Slot>, cands: Seq<NoteDists>, cfg: Configuration)
    requires
        cfg.valid(),
    ensures
        forall|i: int|
            0 <= i < after_frame(slots, cands, cfg).len() ==> steady(
                #[trigger] after_frame(slots, cands, cfg)[i],
                cfg,
            ),
{
}

/// In silence what is given out only falls. Where no two notes are close and
/// the amplitudes given out stand as the settings leave them, as they do at
/// the end of every frame, a frame that brings no curve gives out no
/// amplitude above the one given out before.
pub proof fn lemma_silent_output_falls(slots: Seq<Slot>, cfg: Configuration)
    requires
        cfg.valid(),
        slots_wf(slots, cfg.circle()),
        separated(slots, cfg),
        forall|i: int| 0 <= i < slots.len() ==> steady(#[trigger] slots[i], cfg),
    ensures
        forall|i: int|
            0 <= i < slots.len() ==> (#[trigger] after_frame(
                slots,
                Seq::empty(),
                cfg,
            )[i]).amplitude_out <= slots[i].amplitude_out,
{
    let none = Seq::<NoteDists>::empty();
    let start = opened(slots);
    assert(absorbed_all(start, none, cfg, 0) == start);
    assert forall|i: int, j: int| 0 <= i < j < start.len() implies !(#[trigger] start[i]).close(
        #[trigger] start[j],
        cfg,
    ) by {
        assert(!slots[i].close(slots[j], cfg));
    }
    assert forall|i: int| 0 <= i < start.len() implies (#[trigger] start[i]).amplitude
        <= i64::MAX && (start[i].dist.taken ==> true) by {}
    lemma_combined(start, cfg, i64::MAX as int, true);
    let last = settled(start, cfg);
    assert(last == after_frame(slots, none, cfg));
    assert forall|i: int| 0 <= i < slots.len() implies (#[trigger] last[i]).amplitude_out
        <= slots[i].amplitude_out by {
        lemma_settled_slot(start[i], cfg);
        assert(slots[i].wf(cfg.circle()));
        assert(steady(slots[i], cfg));
    }
}

proof fn lemma_absorbed_wf(slots: Seq<Slot>, d: NoteDists, cfg: Configuration)
    requires
        cfg.valid(),
        slots_wf(slots, cfg.circle()),
    ensures
        absorbed(slots, d, cfg).len() == slots.len(),
        slots_wf(absorbed(slots, d, cfg), cfg.circle()),
{
    let circ = cfg.circle();
    let c = d.tidied(circ);
    let i = closest(slots, c, cfg, slots.len() as int);
    let k = first_free(slots, slots.len() as int);
    crate::tracker::lemma_closest_is_nearest(slots, c, cfg, slots.len() as int);
    crate::tracker::lemma_first_free_is_first(slots, slots.len() as int);
    vstd::arithmetic::div_mod::lemma_mod_bound(d.mean as int, circ);
    let after = absorbed(slots, d, cfg);
    if i >= 0 {
        assert(slots[i].wf(circ));
        let gap = crate::fixed::signed_gap(slots[i].position as int, c.mean as int, circ);
        vstd::arithmetic::div_mod::lemma_mod_bound(
            slots[i].position + (gap * cfg.note_attach_freq_iir) / (ONE as int),
            circ,
        );
        assert(slots[i].attached(c, cfg).wf(circ));
    }
    assert forall|j: int| 0 <= j < after.len() implies (#[trigger] after[j]).wf(circ) by {
        assert(slots[j].wf(circ));
    }
}

proof fn lemma_absorbed_all_wf(
    slots: Seq<Slot>,
    cands: Seq<NoteDists>,
    cfg: Configuration,
    n: int,
)
    requires
        cfg.valid(),
        slots_wf(slots, cfg.circle()),
    ensures
        absorbed_all(slots, cands, cfg, n).len() == slots.len(),
        slots_wf(absorbed_all(slots, cands, cfg, n), cfg.circle()),
    decreases n,
{
    if n > 0 {
        lemma_absorbed_all_wf(slots, cands, cfg, n - 1);
        lemma_absorbed_wf(absorbed_all(slots, cands, cfg, n - 1), cands[n - 1], cfg);
    }
}

proof fn lemma_row_wf(slots: Seq<Slot>, i: int, n: int, cfg: Configuration)
    requires
        0 <= i,
        n <= slots.len(),
        slots_wf(slots, cfg.circle()),
        cfg.valid(),
    ensures
        merged_row(slots, i, n, cfg).len() == slots.len(),
        slots_wf(merged_row(slots, i, n, cfg), cfg.circle()),
    decreases n - i,
{
    if n > i + 1 {
        lemma_row_wf(slots, i, n - 1, cfg);
        let prev = merged_row(slots, i, n - 1, cfg);
        let row = merged_pair(prev, i, n - 1, cfg);
        assert(prev[i].wf(cfg.circle()));
        assert(prev[n - 1].wf(cfg.circle()));
        assert forall|k: int| 0 <= k < row.len() implies (#[trigger] row[k]).wf(cfg.circle()) by {
            assert(prev[k].wf(cfg.circle()));
        }
    }
}

proof fn lemma_rows_wf(slots: Seq<Slot>, m: int, cfg: Configuration)
    requires
        m <= slots.len(),
        slots_wf(slots, cfg.circle()),
        cfg.valid(),
    ensures
        merged_rows(slots, m, cfg).len() == slots.len(),
        slots_wf(merged_rows(slots, m, cfg), cfg.circle()),
    decreases m,
{
    if m > 0 {
        lemma_rows_wf(slots, m - 1, cfg);
        lemma_row_wf(merged_rows(slots, m - 1, cfg), m - 1, slots.len() as int, cfg);
    }
}

/// A frame leaves the row as long as it was and every number of it in its
/// range.
pub proof fn lemma_frame_keeps_wf(slots: Seq<Slot>, cands: Seq<NoteDists>, cfg: Configuration)
    requires
        cfg.valid(),
        slots_wf(slots, cfg.circle()),
    ensures
        after_frame(slots, cands, cfg).len() == slots.len(),
        slots_wf(after_frame(slots, cands, cfg), cfg.circle()),
{
    let circ = cfg.circle();
    let start = opened(slots);
    assert forall|i: int| 0 <= i < start.len() implies (#[trigger] start[i]).wf(circ) by {
        assert(slots[i].wf(circ));
    }
    lemma_absorbed_all_wf(start, cands, cfg, cands.len() as int);
    let mid = absorbed_all(start, cands, cfg, cands.len() as int);
    lemma_rows_wf(mid, mid.len() as int, cfg);
    let one = combined(mid, cfg);
    let last = settled(one, cfg);
    assert forall|i: int| 0 <= i < last.len() implies (#[trigger] last[i]).wf(circ) by {
        lemma_settled_slot(one[i], cfg);
        assert(one[i].wf(circ));
    }
}

/// Two notes that lie close once the curves of a frame are dealt with are
/// one note at the end of that frame, whatever the row held before: of their
/// two slots at most one still holds a note.
pub proof fn lemma_close_notes_become_one(
    slots: Seq<Slot>,
    cands: Seq<NoteDists>,
    cfg: Configuration,
    a: int,
    b: int,
)
    requires
        cfg.valid(),
        0 <= a < b < slots.len(),
        absorbed_all(opened(slots), cands, cfg, cands.len() as int).len() == slots.len(),
        absorbed_all(opened(slots), cands, cfg, cands.len() as int)[a].close(
            absorbed_all(opened(slots), cands, cfg, cands.len() as int)[b],
            cfg,
        ),
    ensures
        !(after_frame(slots, cands, cfg)[a].live() && after_frame(slots, cands, cfg)[b].live()),
{
    let mid = absorbed_all(opened(slots), cands, cfg, cands.len() as int);
    let one = combined(mid, cfg);
    let top = i64::MAX as int;
    lemma_combined(mid, cfg, top, true);
    assert(kept(mid[a], one[a], top));
    assert(kept(mid[b], one[b], top));
    assert(!one[a].close(one[b], cfg));
    lemma_settled_slot(one[a], cfg);
    lemma_settled_slot(one[b], cfg);
}

/// The amplitude that a note of amplitude `a` has after one frame without a
/// curve.
pub open spec fn decay_of(a: int, cfg: Configuration) -> int {
    clamp_amp(smoothed(a, 0, cfg.note_attach_amp_iir as int) - cfg.slope)
}

/// The number of frames of silence within which the loudest note loses half
/// its amplitude, where the settings draw amplitudes towards zero.
pub open spec fn half_time(cfg: Configuration) -> int {
    (ONE as int) / (cfg.note_attach_amp_iir as int) + 1
}

/// The number of frames of silence after which no note sounds: forty half
/// times where the settings draw amplitudes towards zero, else the frames in
/// which the slope uses up the largest amplitude.
pub open spec fn fade_time(cfg: Configuration) -> int {
    if cfg.note_attach_amp_iir > 0 {
        40 * half_time(cfg)
    } else {
        (AMP_MAX as int) / (cfg.slope as int) + 1
    }
}

proof fn lemma_decay_of(a: int, cfg: Configuration)
    requires
        cfg.valid(),
        0 <= a <= AMP_MAX,
    ensures
        0 <= decay_of(a, cfg) <= a,
        decay_of(a, cfg) == 0 || decay_of(a, cfg) * ONE <= a * ONE - a * cfg.note_attach_amp_iir,
        decay_of(a, cfg) == 0 || decay_of(a, cfg) <= a - cfg.slope,
{
    let c = cfg.note_attach_amp_iir as int;
    let x = (0 - a) * c;
    let step = x / (ONE as int);
    assert(x == -(a * c) && x <= 0) by (nonlinear_arith)
        requires
            x == (0 - a) * c,
            a >= 0,
            c >= 0,
    ;
    vstd::arithmetic::div_mod::lemma_fundamental_div_mod(x, ONE as int);
    vstd::arithmetic::div_mod::lemma_mod_bound(x, ONE as int);
    assert(step * ONE <= x);
    assert(smoothed(a, 0, c) == clamp_amp(a + step));
}

proof fn lemma_silent_frame_to(slots: Seq<Slot>, cfg: Configuration, cap: int, next: int)
    requires
        cfg.valid(),
        slots_wf(slots, cfg.circle()),
        capped(slots, cap, true),
        next >= 0,
        forall|a: int| 0 <= a <= cap && a <= AMP_MAX ==> #[trigger] decay_of(a, cfg) <= next,
    ensures
        after_frame(slots, Seq::empty(), cfg).len() == slots.len(),
        slots_wf(after_frame(slots, Seq::empty(), cfg), cfg.circle()),
        capped(after_frame(slots, Seq::empty(), cfg), next, true),
{
    let none = Seq::<NoteDists>::empty();
    let start = opened(slots);
    assert(absorbed_all(start, none, cfg, 0) == start);
    assert forall|i: int| 0 <= i < start.len() implies (#[trigger] start[i]).amplitude <= cap && (
    start[i].dist.taken ==> false) && start[i].wf(cfg.circle()) by {
        assert(slots[i].amplitude <= cap);
        assert(slots[i].wf(cfg.circle()));
    }
    lemma_combined(start, cfg, cap, false);
    lemma_rows_wf(start, start.len() as int, cfg);
    let one = combined(start, cfg);
    let last = settled(one, cfg);
    assert(last == after_frame(slots, none, cfg));
    lemma_frame_keeps_wf(slots, none, cfg);
    assert forall|i: int| 0 <= i < last.len() implies (#[trigger] last[i]).amplitude <= next && (
    last[i].dist.taken ==> true) by {
        assert(one[i].wf(cfg.circle()));
        assert(one[i].amplitude <= cap && !one[i].dist.taken);
        assert(decay_of(one[i].amplitude as int, cfg) <= next);
    }
}

proof fn lemma_silent_frames_to_zero(slots: Seq<Slot>, cfg: Configuration, n: nat)
    requires
        cfg.valid(),
        slots_wf(slots, cfg.circle()),
        capped(slots, 0, true),
    ensures
        after_frames(slots, Seq::empty(), cfg, n).len() == slots.len(),
        slots_wf(after_frames(slots, Seq::empty(), cfg, n), cfg.circle()),
        capped(after_frames(slots, Seq::empty(), cfg, n), 0, true),
    decreases n,
{
    if n > 0 {
        lemma_silent_frames_to_zero(slots, cfg, (n - 1) as nat);
        lemma_silent_frame(after_frames(slots, Seq::empty(), cfg, (n - 1) as nat), cfg, 0);
    }
}

proof fn lemma_frames_add(
    slots: Seq<Slot>,
    cands: Seq<NoteDists>,
    cfg: Configuration,
    a: nat,
    b: nat,
)
    ensures
        after_frames(slots, cands, cfg, a + b) == after_frames(
            after_frames(slots, cands, cfg, a),
            cands,
            cfg,
            b,
        ),
    decreases b,
{
    if b > 0 {
        lemma_frames_add(slots, cands, cfg, a, (b - 1) as nat);
        assert((a + b - 1) as nat == a + (b - 1) as nat);
    }
}

proof fn lemma_silence_steps_down(
    slots: Seq<Slot>,
    cfg: Configuration,
    top: int,
    floor: int,
    step: int,
    m: nat,
)
    requires
        cfg.valid(),
        slots_wf(slots, cfg.circle()),
        capped(slots, top, true),
        0 <= floor <= top,
        step >= 0,
        forall|a: int|
            floor < a <= top && a <= AMP_MAX ==> #[trigger] decay_of(a, cfg) <= a - step
                || decay_of(a, cfg) == 0,
    ensures
        after_frames(slots, Seq::empty(), cfg, m).len() == slots.len(),
        slots_wf(after_frames(slots, Seq::empty(), cfg, m), cfg.circle()),
        capped(
            after_frames(slots, Seq::empty(), cfg, m),
            if top - m * step >= floor {
                top - m * step
            } else {
                floor
            },
            true,
        ),
    decreases m,
{
    if m > 0 {
        let before = after_frames(slots, Seq::empty(), cfg, (m - 1) as nat);
        lemma_silence_steps_down(slots, cfg, top, floor, step, (m - 1) as nat);
        assert(m * step == (m - 1) * step + step) by (nonlinear_arith);
        assert((m - 1) * step >= 0) by (nonlinear_arith)
            requires
                m >= 1,
                step >= 0,
        ;
        let cap: int = if top - (m - 1) * step >= floor {
            top - (m - 1) * step
        } else {
            floor
        };
        let next: int = if top - m * step >= floor {
            top - m * step
        } else {
            floor
        };
        assert forall|a: int| 0 <= a <= cap && a <= AMP_MAX implies #[trigger] decay_of(a, cfg)
            <= next by {
            lemma_decay_of(a, cfg);
        }
        lemma_silent_frame_to(before, cfg, cap, next);
    }
}

proof fn lemma_silence_halves(slots: Seq<Slot>, cfg: Configuration, top: int)
    requires
        cfg.valid(),
        cfg.note_attach_amp_iir > 0,
        slots_wf(slots, cfg.circle()),
        capped(slots, top, true),
        0 <= top,
    ensures
        half_time(cfg) >= 1,
        after_frames(slots, Seq::empty(), cfg, half_time(cfg) as nat).len() == slots.len(),
        slots_wf(after_frames(slots, Seq::empty(), cfg, half_time(cfg) as nat), cfg.circle()),
        capped(after_frames(slots, Seq::empty(), cfg, half_time(cfg) as nat), top / 2, true),
{
    let c = cfg.note_attach_amp_iir as int;
    let half = top / 2;
    let h = half_time(cfg);
    let x = (half + 1) * c;
    let step = (x + ONE - 1) / (ONE as int);
    vstd::arithmetic::div_mod::lemma_fundamental_div_mod(ONE as int, c);
    vstd::arithmetic::div_mod::lemma_mod_bound(ONE as int, c);
    vstd::arithmetic::div_mod::lemma_div_pos_is_pos(ONE as int, c);
    let one = ONE as int;
    assert(h * c > one) by (nonlinear_arith)
        requires
            h == one / c + 1,
            one == c * (one / c) + one % c,
            0 <= one % c < c,
    ;
    assert(x >= c) by (nonlinear_arith)
        requires
            x == (half + 1) * c,
            half >= 0,
            c > 0,
    ;
    vstd::arithmetic::div_mod::lemma_fundamental_div_mod(x + ONE - 1, ONE as int);
    vstd::arithmetic::div_mod::lemma_mod_bound(x + ONE - 1, ONE as int);
    assert(step * ONE <= x + ONE - 1 && step * ONE >= x);
    assert(step >= 1);
    assert forall|a: int| half < a <= top && a <= AMP_MAX implies #[trigger] decay_of(a, cfg) <= a
        - step || decay_of(a, cfg) == 0 by {
        lemma_decay_of(a, cfg);
        let d = decay_of(a, cfg);
        if d != 0 {
            assert(a * c >= x) by (nonlinear_arith)
                requires
                    a >= half + 1,
                    c > 0,
                    x == (half + 1) * c,
            ;
            assert(d * ONE <= a * ONE - x);
            assert(d * ONE <= (a - step) * ONE + ONE - 1) by (nonlinear_arith)
                requires
                    d * ONE <= a * ONE - x,
                    step * ONE <= x + ONE - 1,
            ;
        }
    }
    lemma_silence_steps_down(slots, cfg, top, half, step, h as nat);
    assert(h * step >= half + 1) by (nonlinear_arith)
        requires
            h * c > ONE,
            step * ONE >= (half + 1) * c,
            half >= 0,
            h >= 1,
            step >= 1,
            c > 0,
    ;
    assert(top - h * step < half || top - h * step == half);
}

proof fn lemma_silence_halves_often(slots: Seq<Slot>, cfg: Configuration, top: int, times: nat)
    requires
        cfg.valid(),
        cfg.note_attach_amp_iir > 0,
        slots_wf(slots, cfg.circle()),
        capped(slots, top, true),
        0 <= top,
    ensures
        times * half_time(cfg) >= 0,
        after_frames(slots, Seq::empty(), cfg, (times * half_time(cfg)) as nat).len()
            == slots.len(),
        slots_wf(
            after_frames(slots, Seq::empty(), cfg, (times * half_time(cfg)) as nat),
            cfg.circle(),
        ),
        capped(
            after_frames(slots, Seq::empty(), cfg, (times * half_time(cfg)) as nat),
            halved(top, times),
            true,
        ),
        0 <= halved(top, times),
    decreases times,
{
    let h = half_time(cfg);
    vstd::arithmetic::div_mod::lemma_div_pos_is_pos(ONE as int, cfg.note_attach_amp_iir as int);
    assert(times * h >= 0) by (nonlinear_arith)
        requires
            h >= 1,
            times >= 0,
    ;
    if times > 0 {
        lemma_silence_halves_often(slots, cfg, top, (times - 1) as nat);
        let done = ((times - 1) * h) as nat;
        let before = after_frames(slots, Seq::empty(), cfg, done);
        lemma_silence_halves(before, cfg, halved(top, (times - 1) as nat));
        lemma_frames_add(slots, Seq::empty(), cfg, done, h as nat);
        assert(times * h == (times - 1) * h + h) by (nonlinear_arith);
    } else {
        assert(times * h == 0) by (nonlinear_arith)
            requires
                times == 0,
        ;
    }
}

proof fn lemma_forty_halvings()
    ensures
        halved(AMP_MAX as int, 40) == 0,
{
    reveal_with_fuel(halved, 41);
}

/// Silence ends every note within a number of frames that the settings give.
/// Where they make notes decay, a row holds no note after `fade_time` frames
/// without a curve, nor after any number of such frames beyond that.
pub proof fn lemma_silence_ends_in_time(slots: Seq<Slot>, cfg: Configuration, n: nat)
    requires
        cfg.valid(),
        slots_wf(slots, cfg.circle()),
        cfg.note_attach_amp_iir > 0 || cfg.slope > 0,
        n >= fade_time(cfg),
    ensures
        fade_time(cfg) >= 1,
        after_frames(slots, Seq::empty(), cfg, n).len() == slots.len(),
        forall|i: int|
            0 <= i < slots.len() ==> !(#[trigger] after_frames(
                slots,
                Seq::empty(),
                cfg,
                n,
            )[i]).live(),
{
    let k = fade_time(cfg);
    let none = Seq::<NoteDists>::empty();
    assert forall|i: int| 0 <= i < slots.len() implies (#[trigger] slots[i]).amplitude <= AMP_MAX
        && (slots[i].dist.taken ==> true) by {
        assert(slots[i].wf(cfg.circle()));
    }
    if cfg.note_attach_amp_iir > 0 {
        lemma_silence_halves_often(slots, cfg, AMP_MAX as int, 40);
        lemma_forty_halvings();
    } else {
        let step = cfg.slope as int;
        vstd::arithmetic::div_mod::lemma_fundamental_div_mod(AMP_MAX as int, step);
        vstd::arithmetic::div_mod::lemma_mod_bound(AMP_MAX as int, step);
        vstd::arithmetic::div_mod::lemma_div_pos_is_pos(AMP_MAX as int, step);
        let most = AMP_MAX as int;
        assert(k * step > most) by (nonlinear_arith)
            requires
                k == most / step + 1,
                most == step * (most / step) + most % step,
                0 <= most % step < step,
        ;
        assert forall|a: int| 0 < a <= AMP_MAX && a <= AMP_MAX implies #[trigger] decay_of(a, cfg)
            <= a - step || decay_of(a, cfg) == 0 by {
            lemma_decay_of(a, cfg);
        }
        lemma_silence_steps_down(slots, cfg, AMP_MAX as int, 0, step, k as nat);
    }
    let faded = after_frames(slots, none, cfg, k as nat);
    assert(capped(faded, 0, true));
    lemma_silent_frames_to_zero(faded, cfg, (n - k) as nat);
    lemma_frames_add(slots, none, cfg, k as nat, (n - k) as nat);
    let last = after_frames(slots, none, cfg, n);
    assert forall|i: int| 0 <= i < slots.len() implies !(#[trigger] last[i]).live() by {
        assert(last[i].amplitude <= 0);
    }
}

} // verus!
