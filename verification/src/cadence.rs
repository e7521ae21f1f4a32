//! When an animation's curves come to rest or start going round, and how a
//! playhead that keeps running folds back onto the frames that show it all.

use std::ops::Range;

use vstd::prelude::*;

use crate::text::{decimal, decimal_text};

verus! {

/// The last frame the engine can address.
pub const REACH: i64 = 2147483647;

/// A value pinned to what an `i64` holds, as the saturating operations pin it.
pub open spec fn pinned(value: int) -> int {
    if value > i64::MAX {
        i64::MAX as int
    } else if value < i64::MIN {
        i64::MIN as int
    } else {
        value
    }
}

/// A value pinned to what an `i32` holds.
pub open spec fn clipped(value: int) -> int {
    if value > i32::MAX {
        i32::MAX as int
    } else if value < i32::MIN {
        i32::MIN as int
    } else {
        value
    }
}

/// The smaller of two values.
pub open spec fn least(left: int, right: int) -> int {
    if left <= right { left } else { right }
}

/// The larger of two values.
pub open spec fn most(left: int, right: int) -> int {
    if left >= right { left } else { right }
}

proof fn lemma_sign_of_product(left: int, right: int)
    by (nonlinear_arith)
    ensures
        left > 0 && right > 0 ==> left * right > 0,
        left < 0 && right < 0 ==> left * right > 0,
        left > 0 && right < 0 ==> left * right < 0,
        left < 0 && right > 0 ==> left * right < 0,
        left == 0 || right == 0 ==> left * right == 0,
{
}

/// `i64::saturating_add`, which the standard library pins at either end.
fn pinned_sum(left: i64, right: i64) -> (sum: i64)
    ensures
        sum == pinned(left + right),
{
    match left.checked_add(right) {
        Some(sum) => sum,
        None => if right > 0 { i64::MAX } else { i64::MIN },
    }
}

/// `i64::saturating_mul`, which the standard library pins at either end.
fn pinned_product(left: i64, right: i64) -> (product: i64)
    ensures
        product == pinned(left * right),
{
    match left.checked_mul(right) {
        Some(product) => product,
        None => {
            proof {
                lemma_sign_of_product(left as int, right as int);
            }
            if (left < 0) == (right < 0) {
                i64::MAX
            } else {
                i64::MIN
            }
        },
    }
}

/// Whether an animation goes round forever, and if so how often.
#[derive(Clone, Copy, PartialEq, Eq, Debug, Structural)]
pub enum Cycle {
    /// Every curve comes to rest.
    Still,
    /// The curves that loop forever line up again after this many frames.
    Every(i64),
    /// The curves that loop forever never line up within what an `i64` holds.
    Beyond,
}

impl Cycle {
    /// What a cycle is shown as: `none`, its period, or `???`.
    pub open spec fn label_text(self) -> Seq<char> {
        match self {
            Cycle::Still => seq!['n', 'o', 'n', 'e'],
            Cycle::Every(period) => decimal(period as int),
            Cycle::Beyond => seq!['?', '?', '?'],
        }
    }

    /// The label of a cycle; see [`Cycle::label_text`].
    pub fn label(self) -> (text: String)
        ensures
            text@ == self.label_text(),
    {
        match self {
            Cycle::Still => {
                let text = "none".to_owned();
                proof {
                    reveal_strlit("none");
                }
                text
            },
            Cycle::Every(period) => {
                let digits = decimal_text(period as i128);
                crate::text::text_string(digits.as_slice())
            },
            Cycle::Beyond => {
                let text = "???".to_owned();
                proof {
                    reveal_strlit("???");
                }
                text
            },
        }
    }
}

/// One animated channel of a part: how often it repeats, and the frames of its
/// keys in the order the file lists them.
#[derive(Clone, Debug)]
pub struct Curve {
    /// Which property the channel drives.
    pub kind: i32,
    /// `-1` for a channel that loops forever, a count above one for one that
    /// plays that many passes, anything else for a single pass.
    pub loop_count: i32,
    /// The frames of the keys.
    pub frames: Vec<i32>,
}

/// The timing of one curve: where its keys start and end, how long a pass
/// takes, and how many passes it plays (none for a curve that never stops).
#[derive(Clone, Copy, PartialEq, Eq, Debug, Structural)]
pub struct Beat {
    /// The frame of the first key.
    pub first: i32,
    /// The frame of the last key.
    pub last: i32,
    /// The frames between them, pinned to what an `i32` holds.
    pub span: i32,
    /// How many passes play, or none for a curve that loops forever.
    pub passes: Option<i64>,
}

/// The beat of a curve whose keys run from `first` to `last`: one pass for a
/// curve that does not move forward, none for one that loops forever, and
/// otherwise its count where that is above one.
pub open spec fn beat_of(first: i32, last: i32, loop_count: i32) -> Beat {
    let span = clipped(last - first);
    Beat {
        first,
        last,
        span: span as i32,
        passes: if span <= 0 {
            Some(1i64)
        } else if loop_count == -1 {
            None
        } else if loop_count > 1 {
            Some(loop_count as i64)
        } else {
            Some(1i64)
        },
    }
}

impl Curve {
    /// The beat of this curve, or none where it holds no keys.
    pub open spec fn beat(self) -> Option<Beat> {
        if self.frames@.len() == 0 {
            None
        } else {
            Some(beat_of(self.frames@[0], self.frames@.last(), self.loop_count))
        }
    }
}

impl Beat {
    /// Reads the timing of a curve; see [`Curve::beat`].
    pub fn of(curve: &Curve) -> (beat: Option<Beat>)
        ensures
            beat == curve.beat(),
    {
        if curve.frames.len() == 0 {
            return None;
        }
        let first = curve.frames[0];
        let last = curve.frames[curve.frames.len() - 1];
        let wide = last as i64 - first as i64;
        let span: i32 = if wide > i32::MAX as i64 {
            i32::MAX
        } else if wide < i32::MIN as i64 {
            i32::MIN
        } else {
            wide as i32
        };
        let passes = if span <= 0 {
            Some(1i64)
        } else if curve.loop_count == -1 {
            None
        } else if curve.loop_count > 1 {
            Some(curve.loop_count as i64)
        } else {
            Some(1i64)
        };
        Some(Beat { first, last, span, passes })
    }

    /// The frame the curve comes to rest on: its first key moved on by every
    /// pass, pinned to what an `i64` holds; none for a curve that never rests.
    pub open spec fn settles_at(self) -> Option<i64> {
        match self.passes {
            Some(passes) => Some(pinned(self.first + pinned(passes * self.span)) as i64),
            None => None,
        }
    }

    /// See [`Beat::settles_at`].
    pub fn settles(self) -> (at: Option<i64>)
        ensures
            at == self.settles_at(),
    {
        match self.passes {
            Some(passes) => Some(pinned_sum(self.first as i64, pinned_product(passes, self.span as i64))),
            None => None,
        }
    }

    /// Where the curve rests, or its first key for one that never does.
    pub open spec fn steady_at(self) -> i64 {
        match self.settles_at() {
            Some(at) => at,
            None => self.first as i64,
        }
    }

    /// See [`Beat::steady_at`].
    pub fn steady(self) -> (at: i64)
        ensures
            at == self.steady_at(),
    {
        match self.settles() {
            Some(at) => at,
            None => self.first as i64,
        }
    }

    /// Whether the window `from..=to` can be measured from the first key
    /// without leaving what an `i64` holds.
    pub open spec fn measures(self, from: int, to: int) -> bool {
        self.span > 0 ==> {
            &&& i64::MIN <= from - self.first <= i64::MAX
            &&& i64::MIN <= to - self.first <= i64::MAX
        }
    }

    /// The passes that reach the window `from..=to`, as the first and the one
    /// past the last: every pass from the one running at `from` through the one
    /// running at `to`, none before the first and, for a curve that stops, none
    /// from its pass count on. A curve that does not move forward has the one
    /// pass.
    pub open spec fn passes_over(self, from: int, to: int) -> (int, int) {
        if self.span <= 0 {
            (0, 1)
        } else {
            let low = most((from - self.first) / (self.span as int), 0);
            let reached = pinned((to - self.first) / (self.span as int) + 1);
            let high = match self.passes {
                Some(passes) => least(reached, passes as int),
                None => reached,
            };
            (low, most(high, low))
        }
    }

    /// See [`Beat::passes_over`].
    pub fn repeats(self, from: i64, to: i64) -> (passes: Range<i64>)
        requires
            self.measures(from as int, to as int),
        ensures
            passes.start == self.passes_over(from as int, to as int).0,
            passes.end == self.passes_over(from as int, to as int).1,
    {
        let span = self.span as i64;
        if span <= 0 {
            return 0..1;
        }
        let first = self.first as i64;
        let low = whole_passes(from - first, span);
        let low = if low < 0 { 0 } else { low };
        let high = pinned_sum(whole_passes(to - first, span), 1);
        let high = match self.passes {
            Some(passes) => if passes < high { passes } else { high },
            None => high,
        };
        let high = if high < low { low } else { high };
        low..high
    }

    /// How far pass number `pass` sits from the first, pinned to what an
    /// `i64` holds.
    pub fn shifted(self, pass: i64) -> (offset: i64)
        ensures
            offset == pinned(pass * self.span),
    {
        pinned_product(pass, self.span as i64)
    }
}

/// `i64::div_euclid` by a positive span.
fn whole_passes(elapsed: i64, span: i64) -> (passes: i64)
    requires
        span > 0,
    ensures
        passes == elapsed as int / span as int,
{
    assert(i64::MIN <= elapsed as int / span as int <= i64::MAX) by (nonlinear_arith)
        requires
            span > 0,
            i64::MIN <= elapsed <= i64::MAX,
    {
        if elapsed >= 0 {
            assert(elapsed as int / span as int <= elapsed);
        }
    }
    match elapsed.checked_div_euclid(span) {
        Some(passes) => passes,
        None => 0,
    }
}

/// How an animation's curves play out together: the earliest key, the frame
/// by which every curve that stops has stopped, whether the rest go round, and
/// the frames a timeline has to show to hold all of it.
#[derive(Clone, Copy, PartialEq, Eq, Debug, Structural)]
pub struct Cadence {
    /// The earliest first key, or zero where none comes before it.
    pub lead: i64,
    /// The latest frame a curve rests on (or, looping forever, starts on).
    pub settled: i64,
    /// How the looping curves line up.
    pub cycle: Cycle,
    /// The frame past the last one that shows something new.
    pub extent: i64,
}

/// What a walk over curves has gathered so far: the earliest first key, the
/// latest resting frame, the period of the curves that loop forever, and
/// whether that period ever left what an `i64` holds.
#[derive(Clone, Copy, PartialEq, Eq, Debug, Structural)]
pub struct Tally {
    /// The earliest first key, starting from zero.
    pub lead: i64,
    /// The latest resting frame, once a curve held keys.
    pub settled: Option<i64>,
    /// The least common multiple of the looping spans, once there was one.
    pub period: Option<i64>,
    /// Whether that multiple ever overflowed.
    pub beyond: bool,
}

/// Euclid's greatest common divisor.
pub open spec fn divisor(left: nat, right: nat) -> nat
    decreases right,
{
    if right == 0 {
        left
    } else {
        divisor(right, left % right)
    }
}

/// The least common multiple of two positive periods, where an `i64` holds it.
pub open spec fn common_period(left: int, right: int) -> Option<i64> {
    let product = (left / divisor(left as nat, right as nat) as int) * right;
    if product <= i64::MAX {
        Some(product as i64)
    } else {
        None
    }
}

/// The walk before any curve.
pub open spec fn fresh_tally() -> Tally {
    Tally { lead: 0, settled: None, period: None, beyond: false }
}

/// One more curve taken into the walk. A curve without keys changes nothing;
/// any other can only pull the lead back and the rest forward; one that loops
/// forever also has its span folded into the period.
pub open spec fn taken_in(tally: Tally, curve: Curve) -> Tally {
    match curve.beat() {
        None => tally,
        Some(beat) => {
            let lead = least(tally.lead as int, beat.first as int) as i64;
            let settled = Some(
                match tally.settled {
                    Some(held) => most(held as int, beat.steady_at() as int) as i64,
                    None => beat.steady_at(),
                },
            );
            if beat.passes is Some || beat.span <= 0 {
                Tally { lead, settled, period: tally.period, beyond: tally.beyond }
            } else {
                let joined = match tally.period {
                    Some(held) => common_period(held as int, beat.span as int),
                    None => Some(beat.span as i64),
                };
                match joined {
                    Some(found) => Tally { lead, settled, period: Some(found), beyond: tally.beyond },
                    None => Tally { lead, settled, period: tally.period, beyond: true },
                }
            }
        },
    }
}

/// The walk over a list of curves, in order.
pub open spec fn tally_of(curves: Seq<Curve>) -> Tally
    decreases curves.len(),
{
    if curves.len() == 0 {
        fresh_tally()
    } else {
        taken_in(tally_of(curves.drop_last()), curves.last())
    }
}

/// The cadence a finished walk describes: it rests at zero where no curve held
/// keys; it goes round beyond reach once a period overflowed, every period
/// frames where one was found, and not at all otherwise; and it shows up to its
/// resting frame, up to one more period past it (but not past [`REACH`]), or
/// everything the engine can reach.
pub open spec fn cadence_of(tally: Tally) -> Cadence {
    let settled = match tally.settled {
        Some(held) => held,
        None => 0i64,
    };
    let cycle = if tally.beyond {
        Cycle::Beyond
    } else {
        match tally.period {
            Some(period) => Cycle::Every(period),
            None => Cycle::Still,
        }
    };
    let extent = match cycle {
        Cycle::Still => settled as int,
        Cycle::Beyond => REACH as int,
        Cycle::Every(period) => least(pinned(settled + period), REACH as int),
    };
    Cadence { lead: tally.lead, settled, cycle, extent: extent as i64 }
}

impl Cadence {
    /// The cadence of a list of curves; see [`cadence_of`] and [`taken_in`].
    pub open spec fn reading(curves: Seq<Curve>) -> Cadence {
        cadence_of(tally_of(curves))
    }

    /// Measures a list of curves; see [`Cadence::reading`].
    pub fn of(curves: &[Curve]) -> (cadence: Cadence)
        ensures
            cadence == Cadence::reading(curves@),
    {
        let mut tally = Tally { lead: 0, settled: None, period: None, beyond: false };
        let mut at: usize = 0;
        while at < curves.len()
            invariant
                at <= curves.len(),
                tally == tally_of(curves@.take(at as int)),
            decreases curves.len() - at,
        {
            proof {
                lemma_walk_periods(curves@.take(at as int));
            }
            tally = take_in(tally, &curves[at]);
            assert(curves@.take(at as int + 1).drop_last() == curves@.take(at as int));
            at = at + 1;
        }
        assert(curves@.take(curves.len() as int) == curves@);
        let settled = match tally.settled {
            Some(held) => held,
            None => 0,
        };
        let cycle = if tally.beyond {
            Cycle::Beyond
        } else {
            match tally.period {
                Some(period) => Cycle::Every(period),
                None => Cycle::Still,
            }
        };
        let extent = match cycle {
            Cycle::Still => settled,
            Cycle::Beyond => REACH,
            Cycle::Every(period) => {
                let reached = pinned_sum(settled, period);
                if reached < REACH { reached } else { REACH }
            },
        };
        Cadence { lead: tally.lead, settled, cycle, extent }
    }

    /// Where a frame lands once folded onto the frames the cadence shows: a
    /// still animation holds its resting frame, one beyond reach is left as it
    /// is, and from its extent on a cycling one goes round its period from the
    /// resting frame.
    pub open spec fn folded(self, frame: int) -> int {
        match self.cycle {
            Cycle::Still => least(frame, self.settled as int),
            Cycle::Beyond => frame,
            Cycle::Every(period) => if period > 0 && frame >= self.extent {
                self.settled + (frame - self.settled) % (period as int)
            } else {
                frame
            },
        }
    }

    /// Whether folding `frame` stays within what an `i64` holds.
    pub open spec fn folds(self, frame: int) -> bool {
        match self.cycle {
            Cycle::Every(period) => period > 0 && frame >= self.extent ==> {
                &&& i64::MIN <= frame - self.settled <= i64::MAX
                &&& self.settled + (frame - self.settled) % (period as int) <= i64::MAX
            },
            _ => true,
        }
    }

    /// Folds a frame; see [`Cadence::folded`].
    pub fn fold(self, frame: i64) -> (at: i64)
        requires
            self.folds(frame as int),
        ensures
            at == self.folded(frame as int),
    {
        match self.cycle {
            Cycle::Still => if frame < self.settled { frame } else { self.settled },
            Cycle::Beyond => frame,
            Cycle::Every(period) => {
                if period > 0 && frame >= self.extent {
                    let elapsed = frame - self.settled;
                    let into = match elapsed.checked_rem_euclid(period) {
                        Some(into) => into,
                        None => 0,
                    };
                    self.settled + into
                } else {
                    frame
                }
            },
        }
    }
}

/// Takes one curve into a walk; see [`taken_in`].
fn take_in(tally: Tally, curve: &Curve) -> (next: Tally)
    requires
        tally.period matches Some(held) ==> held > 0,
    ensures
        next == taken_in(tally, *curve),
{
    let beat = match Beat::of(curve) {
        Some(beat) => beat,
        None => return tally,
    };
    let steady = beat.steady();
    let lead = if (beat.first as i64) < tally.lead { beat.first as i64 } else { tally.lead };
    let settled = Some(
        match tally.settled {
            Some(held) => if held >= steady { held } else { steady },
            None => steady,
        },
    );
    if beat.passes.is_some() || beat.span <= 0 {
        return Tally { lead, settled, period: tally.period, beyond: tally.beyond };
    }
    let joined = match tally.period {
        Some(held) => common_multiple(held, beat.span as i64),
        None => Some(beat.span as i64),
    };
    match joined {
        Some(found) => Tally { lead, settled, period: Some(found), beyond: tally.beyond },
        None => Tally { lead, settled, period: tally.period, beyond: true },
    }
}

/// Euclid's algorithm on two positive values.
fn greatest_divisor(left: i64, right: i64) -> (found: i64)
    requires
        left > 0,
        right > 0,
    ensures
        found == divisor(left as nat, right as nat),
        found > 0,
{
    let mut held: u64 = left as u64;
    let mut rest: u64 = right as u64;
    let ghost bound: int = most(left as int, right as int);
    while rest != 0
        invariant
            0 < held <= bound,
            rest <= bound,
            bound <= i64::MAX,
            divisor(held as nat, rest as nat) == divisor(left as nat, right as nat),
        decreases rest,
    {
        let carried = rest;
        rest = held % rest;
        held = carried;
    }
    held as i64
}

/// The least common multiple of two positive periods, where an `i64` holds it.
fn common_multiple(left: i64, right: i64) -> (found: Option<i64>)
    requires
        left > 0,
        right > 0,
    ensures
        found == common_period(left as int, right as int),
{
    let shared = greatest_divisor(left, right);
    let part = ((left as u64) / (shared as u64)) as i64;
    part.checked_mul(right)
}

/// A sum of multiples of `d` is a multiple of `d`.
proof fn lemma_multiples_add(x: int, y: int, q: int, d: int)
    requires
        d > 0,
        x % d == 0,
        y % d == 0,
    ensures
        (x * q + y) % d == 0,
{
    vstd::arithmetic::div_mod::lemma_fundamental_div_mod(x, d);
    vstd::arithmetic::div_mod::lemma_fundamental_div_mod(y, d);
    let xd = x / d;
    let yd = y / d;
    let k = xd * q + yd;
    assert(x * q + y == k * d) by (nonlinear_arith)
        requires
            x == d * xd,
            y == d * yd,
            k == xd * q + yd,
    ;
    vstd::arithmetic::div_mod::lemma_mod_multiples_basic(k, d);
}

/// Euclid's divisor of two values, not both zero, is positive and divides both.
pub proof fn lemma_divisor(left: nat, right: nat)
    requires
        left > 0 || right > 0,
    ensures
        divisor(left, right) > 0,
        left % divisor(left, right) == 0,
        right % divisor(left, right) == 0,
    decreases right,
{
    if right == 0 {
        vstd::arithmetic::div_mod::lemma_mod_self_0(left as int);
        assert(0int % (left as int) == 0) by (nonlinear_arith) requires left > 0;
    } else {
        let rest = left % right;
        lemma_divisor(right, rest);
        let d = divisor(right, rest) as int;
        vstd::arithmetic::div_mod::lemma_fundamental_div_mod(left as int, right as int);
        lemma_multiples_add(right as int, rest as int, left as int / right as int, d);
        assert(right * (left as int / right as int) == (right as int) * (left as int / right as int));
    }
}

/// The least common multiple of two positive periods, where it exists, is
/// positive and a multiple of both.
pub proof fn lemma_common_period(left: int, right: int)
    requires
        left > 0,
        right > 0,
    ensures
        common_period(left, right) matches Some(found) ==> {
            &&& found > 0
            &&& (found as int) % left == 0
            &&& (found as int) % right == 0
        },
{
    lemma_divisor(left as nat, right as nat);
    let d = divisor(left as nat, right as nat) as int;
    vstd::arithmetic::div_mod::lemma_fundamental_div_mod(left, d);
    vstd::arithmetic::div_mod::lemma_fundamental_div_mod(right, d);
    let ld = left / d;
    let rd = right / d;
    assert(ld > 0 && ld * right > 0 && ld * right == left * rd) by (nonlinear_arith)
        requires
            left == d * ld,
            right == d * rd,
            left > 0,
            right > 0,
            d > 0,
    ;
    vstd::arithmetic::div_mod::lemma_mod_multiples_basic(ld, right);
    vstd::arithmetic::div_mod::lemma_mod_multiples_basic(rd, left);
    assert(rd * left == left * rd) by (nonlinear_arith);
}

/// Every period a walk holds is positive.
proof fn lemma_walk_periods(curves: Seq<Curve>)
    ensures
        tally_of(curves).period matches Some(held) ==> held > 0,
    decreases curves.len(),
{
    if curves.len() > 0 {
        lemma_walk_periods(curves.drop_last());
        let before = tally_of(curves.drop_last());
        if let Some(beat) = curves.last().beat() {
            if let Some(held) = before.period {
                if beat.passes is None && beat.span > 0 {
                    lemma_common_period(held as int, beat.span as int);
                }
            }
        }
    }
}

/// The frame the engine's timeline shows for a curve keyed from `first` to
/// `last` when the playhead is at `frame`, as nyanko's
/// `graphics::tools::timeline::local_frame` works it out: a curve whose keys
/// share one frame holds it once reached; before its last key a curve plays
/// the frame as it is; after it, one that loops forever (or has passes left)
/// wraps round from its first key, and any other holds its last.
pub open spec fn engine_frame(first: i32, last: i32, loop_count: i32, frame: i32) -> i32 {
    let span = last.wrapping_sub(first);
    if span == 0 && last <= frame {
        last
    } else if last > frame {
        frame
    } else {
        let elapsed = frame.wrapping_sub(first) as i64;
        let into = match elapsed.checked_rem(span as i64) {
            Some(into) => into,
            None => 0i64,
        };
        let whole = match elapsed.checked_div(span as i64) {
            Some(whole) => whole,
            None => 0i64,
        };
        let wrapped = first.wrapping_add(into as i32);
        if loop_count == -1 || (loop_count > 0 && whole < loop_count as i64) {
            wrapped
        } else {
            last
        }
    }
}

impl Curve {
    /// The frame the engine shows for this curve at `frame`, or none for a
    /// curve without keys; see [`engine_frame`].
    pub open spec fn resolved(self, frame: i32) -> Option<i32> {
        if self.frames@.len() == 0 {
            None
        } else {
            Some(engine_frame(self.frames@[0], self.frames@.last(), self.loop_count, frame))
        }
    }

    /// Whether this curve loops forever over keys that move forward.
    pub open spec fn loops_forever(self) -> bool {
        match self.beat() {
            Some(beat) => beat.passes is None && beat.span > 0,
            None => false,
        }
    }

    /// Whether the engine reads this curve at `frame` without its arithmetic
    /// wrapping round: the keys run forward, and neither their span nor the
    /// time since the first of them passes what an `i32` holds.
    pub open spec fn reads_plainly(self, frame: int) -> bool {
        self.frames@.len() > 0 ==> {
            let first = self.frames@[0] as int;
            let last = self.frames@.last() as int;
            &&& first <= last
            &&& last - first <= i32::MAX
            &&& frame - first <= i32::MAX
        }
    }

    /// Works out the frame the engine shows; see [`Curve::resolved`].
    pub fn local_frame(&self, frame: i32) -> (at: Option<i32>)
        ensures
            at == self.resolved(frame),
    {
        if self.frames.len() == 0 {
            return None;
        }
        let first = self.frames[0];
        let last = self.frames[self.frames.len() - 1];
        let span = last.wrapping_sub(first);
        if span == 0 && last <= frame {
            return Some(last);
        }
        if last > frame {
            return Some(frame);
        }
        let elapsed = frame.wrapping_sub(first) as i64;
        let into = match elapsed.checked_rem(span as i64) {
            Some(into) => into,
            None => 0,
        };
        let whole = match elapsed.checked_div(span as i64) {
            Some(whole) => whole,
            None => 0,
        };
        let wrapped = first.wrapping_add(into as i32);
        if self.loop_count == -1 || (self.loop_count > 0 && whole < self.loop_count as i64) {
            Some(wrapped)
        } else {
            Some(last)
        }
    }
}

/// A value at least `count` spans past zero holds at least `count` whole spans.
proof fn lemma_whole_spans(elapsed: int, span: int, count: int)
    requires
        span > 0,
        elapsed >= count * span,
    ensures
        elapsed / span >= count,
{
    vstd::arithmetic::div_mod::lemma_fundamental_div_mod(elapsed, span);
    let whole = elapsed / span;
    let into = elapsed % span;
    assert(whole >= count) by (nonlinear_arith)
        requires
            elapsed == span * whole + into,
            0 <= into < span,
            elapsed >= count * span,
            span > 0,
    ;
}

/// The passes and the frame a curve rests on, for keys that run forward
/// within what an `i32` holds.
proof fn lemma_forward_beat(curve: Curve)
    requires
        curve.frames@.len() > 0,
        curve.frames@[0] <= curve.frames@.last(),
        curve.frames@.last() - curve.frames@[0] <= i32::MAX,
    ensures
        curve.beat()->0.span == curve.frames@.last() - curve.frames@[0],
        curve.beat()->0.passes matches Some(passes) ==> {
            &&& 1 <= passes <= i32::MAX
            &&& curve.beat()->0.steady_at() == curve.frames@[0] + passes * (curve.frames@.last() - curve.frames@[0])
            &&& curve.beat()->0.steady_at() >= curve.frames@.last()
        },
        curve.beat()->0.passes is None ==> curve.beat()->0.steady_at() == curve.frames@[0],
{
    let first = curve.frames@[0] as int;
    let last = curve.frames@.last() as int;
    let beat = curve.beat()->0;
    if let Some(passes) = beat.passes {
        let span = last - first;
        assert(0 <= passes * span <= 0x3fff_ffff_0000_0001 && passes * span >= span) by (nonlinear_arith)
            requires
                1 <= passes <= 2147483647,
                0 <= span <= 2147483647,
        ;
    }
}

/// Once a curve that stops has played all its passes, the engine holds its
/// last key.
proof fn lemma_engine_rests(curve: Curve, frame: i32)
    requires
        curve.frames@.len() > 0,
        curve.reads_plainly(frame as int),
        !curve.loops_forever(),
        frame >= curve.beat()->0.steady_at(),
    ensures
        curve.resolved(frame) == Some(curve.frames@.last()),
{
    lemma_forward_beat(curve);
    let first = curve.frames@[0];
    let last = curve.frames@.last();
    let beat = curve.beat()->0;
    let passes = beat.passes->0 as int;
    let span = last - first;
    if span > 0 {
        let elapsed = frame - first;
        assert(last.wrapping_sub(first) == span);
        assert(frame.wrapping_sub(first) == elapsed);
        assert(curve.loop_count != -1);
        lemma_whole_spans(elapsed, span, passes);
        let whole = match (elapsed as i64).checked_div(span as i64) {
            Some(whole) => whole,
            None => 0i64,
        };
        assert(whole == elapsed / span);
    } else {
        assert(last.wrapping_sub(first) == 0);
    }
}

/// Past its last key, a curve that loops forever goes round from its first.
proof fn lemma_engine_wraps(curve: Curve, frame: i32)
    requires
        curve.frames@.len() > 0,
        curve.reads_plainly(frame as int),
        curve.loops_forever(),
        frame >= curve.frames@.last(),
    ensures
        curve.resolved(frame) == Some(
            (curve.frames@[0] + (frame - curve.frames@[0]) % (curve.frames@.last() - curve.frames@[0])) as i32,
        ),
{
    lemma_forward_beat(curve);
    let first = curve.frames@[0];
    let last = curve.frames@.last();
    let span = last - first;
    let elapsed = frame - first;
    assert(last.wrapping_sub(first) == span);
    assert(frame.wrapping_sub(first) == elapsed);
    assert(curve.loop_count == -1);
    let into = match (elapsed as i64).checked_rem(span as i64) {
        Some(into) => into,
        None => 0i64,
    };
    assert(into == elapsed % span);
    assert(0 <= into < span);
    assert(first.wrapping_add(into as i32) == first + into);
}

/// Divisibility carries through a chain of multiples.
proof fn lemma_divides_through(small: int, middle: int, large: int)
    requires
        small > 0,
        middle > 0,
        middle % small == 0,
        large % middle == 0,
    ensures
        large % small == 0,
{
    vstd::arithmetic::div_mod::lemma_fundamental_div_mod(large, middle);
    assert(0int % small == 0) by (nonlinear_arith)
        requires
            small > 0,
    ;
    lemma_multiples_add(middle, 0, large / middle, small);
    assert(middle * (large / middle) == large);
}

/// A positive multiple of a positive value is at least that value.
proof fn lemma_multiple_at_least(multiple: int, of: int)
    requires
        multiple > 0,
        of > 0,
        multiple % of == 0,
    ensures
        multiple >= of,
{
    vstd::arithmetic::div_mod::lemma_fundamental_div_mod(multiple, of);
    let times = multiple / of;
    assert(multiple >= of) by (nonlinear_arith)
        requires
            multiple == of * times,
            multiple > 0,
            of > 0,
    ;
}

/// What a walk keeps of every curve it took in: its resting frame is at least
/// that of each curve with keys, and unless the period overflowed, every
/// curve that loops forever has a span that divides the period.
proof fn lemma_walk(curves: Seq<Curve>)
    ensures
        forall|i: int|
            0 <= i < curves.len() && (#[trigger] curves[i]).frames@.len() > 0 ==> {
                &&& tally_of(curves).settled is Some
                &&& tally_of(curves).settled->0 >= curves[i].beat()->0.steady_at()
            },
        forall|i: int|
            0 <= i < curves.len() && (#[trigger] curves[i]).loops_forever() && !tally_of(curves).beyond ==> {
                &&& tally_of(curves).period is Some
                &&& (tally_of(curves).period->0 as int) % (curves[i].beat()->0.span as int) == 0
            },
    decreases curves.len(),
{
    if curves.len() > 0 {
        let earlier = curves.drop_last();
        lemma_walk(earlier);
        lemma_walk_periods(earlier);
        let before = tally_of(earlier);
        let after = tally_of(curves);
        let newest = curves.last();
        assert forall|i: int|
            0 <= i < curves.len() && (#[trigger] curves[i]).frames@.len() > 0 implies {
                &&& after.settled is Some
                &&& after.settled->0 >= curves[i].beat()->0.steady_at()
            } by {
            if i < curves.len() - 1 {
                assert(earlier[i] == curves[i]);
            }
        }
        assert forall|i: int|
            0 <= i < curves.len() && (#[trigger] curves[i]).loops_forever() && !after.beyond implies {
                &&& after.period is Some
                &&& (after.period->0 as int) % (curves[i].beat()->0.span as int) == 0
            } by {
            let span = curves[i].beat()->0.span as int;
            if i < curves.len() - 1 {
                assert(earlier[i] == curves[i]);
                if newest.loops_forever() {
                    let held = before.period->0 as int;
                    lemma_common_period(held, newest.beat()->0.span as int);
                    lemma_divides_through(span, held, after.period->0 as int);
                }
            } else {
                match before.period {
                    Some(held) => {
                        lemma_common_period(held as int, span);
                    },
                    None => {
                        vstd::arithmetic::div_mod::lemma_mod_self_0(span);
                    },
                }
            }
        }
    }
}

/// The law for a single curve, given what the walk keeps of it.
proof fn lemma_curve_keeps(tally: Tally, curve: Curve, frame: i32)
    requires
        tally.period matches Some(period) ==> period > 0,
        curve.frames@.len() > 0 ==> {
            &&& tally.settled is Some
            &&& tally.settled->0 >= curve.beat()->0.steady_at()
        },
        curve.loops_forever() && !tally.beyond ==> {
            &&& tally.period is Some
            &&& (tally.period->0 as int) % (curve.beat()->0.span as int) == 0
        },
        curve.reads_plainly(frame as int),
        cadence_of(tally).folded(frame as int) <= REACH,
    ensures
        curve.resolved(frame) == curve.resolved(cadence_of(tally).folded(frame as int) as i32),
{
    let cadence = cadence_of(tally);
    let x = frame as int;
    let y = cadence.folded(x);
    if curve.frames@.len() > 0 && y != x {
        lemma_curve_moves(tally, curve, frame);
    }
}

/// The law for a single curve with keys, at a frame the fold moves.
proof fn lemma_curve_moves(tally: Tally, curve: Curve, frame: i32)
    requires
        tally.period matches Some(period) ==> period > 0,
        curve.frames@.len() > 0,
        tally.settled is Some,
        tally.settled->0 >= curve.beat()->0.steady_at(),
        curve.loops_forever() && !tally.beyond ==> {
            &&& tally.period is Some
            &&& (tally.period->0 as int) % (curve.beat()->0.span as int) == 0
        },
        curve.reads_plainly(frame as int),
        cadence_of(tally).folded(frame as int) <= REACH,
        cadence_of(tally).folded(frame as int) != frame,
    ensures
        curve.resolved(frame) == curve.resolved(cadence_of(tally).folded(frame as int) as i32),
{
    let cadence = cadence_of(tally);
    let x = frame as int;
    let y = cadence.folded(x);
    lemma_forward_beat(curve);
    let first = curve.frames@[0] as int;
    let last = curve.frames@.last() as int;
    let settled = cadence.settled as int;
    assert(settled >= first);
    match cadence.cycle {
        Cycle::Still => {
            assert(!curve.loops_forever());
            lemma_engine_rests(curve, frame);
            lemma_engine_rests(curve, y as i32);
        },
        Cycle::Beyond => {},
        Cycle::Every(period) => {
            let period = period as int;
            assert(x >= cadence.extent);
            if settled + period > REACH {
                assert(x == REACH);
                if settled <= REACH {
                    vstd::arithmetic::div_mod::lemma_small_mod((x - settled) as nat, period as nat);
                }
                assert(false);
            }
            assert(cadence.extent == settled + period);
            vstd::arithmetic::div_mod::lemma_fundamental_div_mod(x - settled, period);
            assert(settled <= y <= x);
            if curve.loops_forever() {
                let span = last - first;
                lemma_multiple_at_least(period, span);
                lemma_engine_wraps(curve, frame);
                vstd::arithmetic::div_mod::lemma_fundamental_div_mod(period, span);
                let turns = (x - settled) / period;
                let laps = period / span;
                assert(x - first == span * (laps * turns) + (y - first)) by (nonlinear_arith)
                    requires
                        x - settled == period * turns + (y - settled),
                        period == span * laps + 0,
                ;
                vstd::arithmetic::div_mod::lemma_mod_multiples_vanish(laps * turns, y - first, span);
                if y >= last {
                    lemma_engine_wraps(curve, y as i32);
                } else {
                    vstd::arithmetic::div_mod::lemma_small_mod((y - first) as nat, span as nat);
                }
            } else {
                lemma_engine_rests(curve, frame);
                lemma_engine_rests(curve, y as i32);
            }
        },
    }
}

/// Folding a frame never changes what any curve resolves to: the playhead
/// may run on as far as it likes, and read at the frame it folds back to,
/// every curve the cadence was measured from shows exactly what it shows at
/// the frame itself. Keys that run backwards, spans that leave what an `i32`
/// holds, and a folded frame past [`REACH`] make the engine's own arithmetic
/// wrap, and are left out.
pub proof fn lemma_folding_keeps_every_curve(curves: Seq<Curve>, frame: i32)
    requires
        forall|i: int| 0 <= i < curves.len() ==> (#[trigger] curves[i]).reads_plainly(frame as int),
        Cadence::reading(curves).folded(frame as int) <= REACH,
    ensures
        forall|i: int|
            0 <= i < curves.len() ==> (#[trigger] curves[i]).resolved(frame) == curves[i].resolved(
                Cadence::reading(curves).folded(frame as int) as i32,
            ),
{
    lemma_walk(curves);
    lemma_walk_periods(curves);
    assert forall|i: int| 0 <= i < curves.len() implies (#[trigger] curves[i]).resolved(frame)
        == curves[i].resolved(Cadence::reading(curves).folded(frame as int) as i32) by {
        lemma_curve_keeps(tally_of(curves), curves[i], frame);
    }
}

/// A frame short of [`REACH`] folds onto the frames a timeline draws: no later
/// than the resting frame of an animation that comes to rest, and strictly
/// before the extent of one that goes round.
pub proof fn lemma_fold_stays_on_axis(curves: Seq<Curve>, frame: int)
    requires
        frame < REACH,
    ensures
        Cadence::reading(curves).folded(frame) <= Cadence::reading(curves).extent,
        !(Cadence::reading(curves).cycle is Still) ==> Cadence::reading(curves).folded(frame)
            < Cadence::reading(curves).extent,
{
    lemma_walk_periods(curves);
    let cadence = Cadence::reading(curves);
    if let Cycle::Every(period) = cadence.cycle {
        if frame >= cadence.extent {
            vstd::arithmetic::div_mod::lemma_fundamental_div_mod(frame - cadence.settled, period as int);
        }
    }
}

/// The lead of a list of curves is where the earliest of them starts: no later
/// than frame zero or the first key of any curve that has keys, and either
/// zero or one of those first keys.
pub proof fn lemma_lead_is_earliest_key(curves: Seq<Curve>)
    ensures
        Cadence::reading(curves).lead <= 0,
        forall|i: int|
            0 <= i < curves.len() && curves[i].frames@.len() > 0 ==> Cadence::reading(curves).lead
                <= #[trigger] curves[i].frames@[0],
        Cadence::reading(curves).lead == 0 || exists|i: int|
            0 <= i < curves.len() && curves[i].frames@.len() > 0 && #[trigger] curves[i].frames@[0]
                == Cadence::reading(curves).lead,
    decreases curves.len(),
{
    if curves.len() > 0 {
        let prior = curves.drop_last();
        lemma_lead_is_earliest_key(prior);
        assert forall|i: int| 0 <= i < prior.len() implies #[trigger] prior[i] == curves[i] by {}
        let last = curves.len() - 1;
        assert(curves[last] == curves.last());
        assert(tally_of(curves) == taken_in(tally_of(prior), curves.last()));
        assert(Cadence::reading(curves).lead <= Cadence::reading(prior).lead);
        assert forall|i: int|
            0 <= i < curves.len() && curves[i].frames@.len() > 0 implies Cadence::reading(curves).lead
                <= #[trigger] curves[i].frames@[0] by {
            if i < last {
                assert(prior[i] == curves[i]);
            }
        }
        if Cadence::reading(prior).lead != 0 {
            let i = choose|i: int|
                0 <= i < prior.len() && prior[i].frames@.len() > 0 && #[trigger] prior[i].frames@[0]
                    == Cadence::reading(prior).lead;
            assert(curves[i] == prior[i]);
        }
    }
}

/// Where a list of curves settles is where the last of them comes to rest:
/// no earlier than the resting frame of any curve that has keys (its first
/// key, for one that never rests), and one of those frames, or zero where no
/// curve has keys.
pub proof fn lemma_settled_is_latest_rest(curves: Seq<Curve>)
    ensures
        forall|i: int|
            0 <= i < curves.len() && curves[i].frames@.len() > 0 ==> Cadence::reading(curves).settled
                >= (#[trigger] curves[i]).beat()->Some_0.steady_at(),
        (Cadence::reading(curves).settled == 0 && forall|i: int|
            0 <= i < curves.len() ==> (#[trigger] curves[i]).frames@.len() == 0) || exists|i: int|
            0 <= i < curves.len() && curves[i].frames@.len() > 0 && (#[trigger] curves[i]).beat()->Some_0.steady_at()
                == Cadence::reading(curves).settled,
        (tally_of(curves).settled is None) == (forall|i: int| 0 <= i < curves.len() ==> (#[trigger] curves[i]).frames@.len() == 0),
    decreases curves.len(),
{
    if curves.len() > 0 {
        let prior = curves.drop_last();
        lemma_settled_is_latest_rest(prior);
        assert forall|i: int| 0 <= i < prior.len() implies #[trigger] prior[i] == curves[i] by {}
        let last = curves.len() - 1;
        assert(curves[last] == curves.last());
        assert(tally_of(curves) == taken_in(tally_of(prior), curves.last()));
        if curves.last().frames@.len() > 0 {
            assert(tally_of(curves).settled is Some);
        } else {
            assert(tally_of(curves) == tally_of(prior));
        }
        assert forall|i: int|
            0 <= i < curves.len() && curves[i].frames@.len() > 0 implies Cadence::reading(curves).settled
                >= (#[trigger] curves[i]).beat()->Some_0.steady_at() by {
            if i < last {
                assert(prior[i] == curves[i]);
            }
        }
        if tally_of(prior).settled is Some && (curves.last().frames@.len() == 0 || Cadence::reading(curves).settled
            != curves.last().beat()->Some_0.steady_at()) {
            let i = choose|i: int|
                0 <= i < prior.len() && prior[i].frames@.len() > 0 && (#[trigger] prior[i]).beat()->Some_0.steady_at()
                    == Cadence::reading(prior).settled;
            assert(curves[i] == prior[i]);
        }
        if tally_of(curves).settled is None {
            assert forall|i: int| 0 <= i < curves.len() implies (#[trigger] curves[i]).frames@.len() == 0 by {
                if i < last {
                    assert(prior[i] == curves[i]);
                }
            }
        }
    }
}

/// The curves that loop forever decide whether an animation goes round: it
/// is still exactly where none of them loops forever, and where it goes round
/// every so many frames, that period is a whole number of passes of each of
/// them.
pub proof fn lemma_period_covers_every_loop(curves: Seq<Curve>)
    ensures
        (Cadence::reading(curves).cycle is Still) == (forall|i: int|
            0 <= i < curves.len() ==> !(#[trigger] curves[i]).loops_forever()),
        Cadence::reading(curves).cycle matches Cycle::Every(period) ==> {
            &&& period > 0
            &&& forall|i: int|
                0 <= i < curves.len() && (#[trigger] curves[i]).loops_forever() ==> (period as int) % (
                curves[i].beat()->Some_0.span as int) == 0
        },
    decreases curves.len(),
{
    lemma_walk(curves);
    lemma_walk_periods(curves);
    if curves.len() > 0 {
        let prior = curves.drop_last();
        lemma_period_covers_every_loop(prior);
        assert forall|i: int| 0 <= i < prior.len() implies #[trigger] prior[i] == curves[i] by {}
        let last = curves.len() - 1;
        assert(curves[last] == curves.last());
        assert(tally_of(curves) == taken_in(tally_of(prior), curves.last()));
        if Cadence::reading(curves).cycle is Still {
            assert forall|i: int| 0 <= i < curves.len() implies !(#[trigger] curves[i]).loops_forever() by {
                if i < last {
                    assert(prior[i] == curves[i]);
                }
            }
        } else if !(Cadence::reading(prior).cycle is Still) {
            let i = choose|i: int| 0 <= i < prior.len() && (#[trigger] prior[i]).loops_forever();
            assert(curves[i] == prior[i]);
        } else {
            assert(curves[last].loops_forever());
        }
    }
}

} // verus!
