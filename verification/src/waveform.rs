//! Waveforms: the outline of a recording, one byte for every stretch of samples, and its picture.
//!
//! Samples are single-precision numbers, handed over as their encodings.

use crate::rounding;
use crate::rounding::{round_ratio, whole_of, SINGLE};
use vstd::arithmetic::power2::*;
use vstd::prelude::*;

verus! {

/// The width of the picture, in pixels.
pub const WIDTH: u32 = 800;

/// The height of the picture, in pixels.
pub const HEIGHT: u32 = 100;

/// The number of samples that one byte of a waveform stands for.
pub const SAMPLES_PER_POINT: usize = 200;

/// The number of points from which on no further packet is looked at.
pub const ENOUGH_POINTS: usize = 4000;

/// Which point of a waveform of `len` points is drawn in column `x`. A waveform no longer than the
/// picture is wide is drawn point by point; a longer one is drawn in steps of `len / WIDTH`, worked
/// out in single precision: the length, the step and the position are each rounded.
pub open spec fn point_at(len: nat, x: nat) -> nat {
    if len <= WIDTH || x == 0 {
        x
    } else {
        let l = rounding::round(len, 1, SINGLE as nat);
        let step = rounding::round(l.m, WIDTH as nat, SINGLE as nat);
        let at = rounding::round(x * step.m, 1, SINGLE as nat);
        rounding::whole_part(at.m, at.e + step.e + l.e)
    }
}

/// The height of the bar that is drawn for a point.
pub open spec fn bar_height(point: u8) -> int {
    point as int * HEIGHT as int / 255
}

/// The row in which a bar of height `h` begins: bars stand in the middle.
pub open spec fn bar_top(h: int) -> int {
    (HEIGHT - h) / 2
}

/// The pixel in column `x` and row `y` belongs to a bar.
pub open spec fn is_lit(waveform: Seq<u8>, x: int, y: int) -> bool {
    let i = point_at(waveform.len(), x as nat) as int;
    &&& i < waveform.len()
    &&& bar_top(bar_height(waveform[i])) <= y < bar_top(bar_height(waveform[i])) + bar_height(
        waveform[i],
    )
}

/// Red, green, blue and opacity, in this order, of the pixel in column `x` and row `y`.
pub open spec fn channel(waveform: Seq<u8>, x: int, y: int, c: int) -> u8 {
    if c == 3 {
        255
    } else if !is_lit(waveform, x, y) || c == 0 {
        0
    } else if c == 1 {
        180
    } else {
        255
    }
}

/// The picture of a waveform, row by row, four bytes for each pixel.
pub open spec fn picture(waveform: Seq<u8>) -> Seq<u8> {
    Seq::new(
        (4 * WIDTH * HEIGHT) as nat,
        |k: int| channel(waveform, (k / 4) % (WIDTH as int), (k / 4) / (WIDTH as int), k % 4),
    )
}

/// Finds the point that is drawn in a column.
pub fn point_for(len: usize, x: u32) -> (r: u128)
    requires
        x < WIDTH,
    ensures
        r == point_at(len as nat, x as nat),
{
    if len <= WIDTH as usize || x == 0 {
        return x as u128;
    }
    proof {
        lemma2_to64();
        lemma2_to64_rest();
    }
    let (lm, le): (u64, i32) = round_ratio(len as u64, 1, SINGLE);
    let (sm, se): (u64, i32) = round_ratio(lm, WIDTH as u64, SINGLE);
    proof {
        assert(0 < x * sm <= 800 * 0x100_0000) by (nonlinear_arith)
            requires
                0 < x < 800,
                0 < sm <= 0x100_0000,
        ;
    }
    let (am, ae): (u64, i32) = round_ratio(x as u64 * sm, 1, SINGLE);
    proof {
        assert(le <= 41) by {
            if le > 41 {
                lemma_pow2_strictly_increases(40, (le - 1) as nat);
                assert(1 * pow2(24) * pow2((le - 1) as nat) > 0x100_0000 * 0x100_0000_0000)
                    by (nonlinear_arith)
                    requires
                        pow2(24) == 0x100_0000,
                        pow2((le - 1) as nat) > 0x100_0000_0000,
                ;
            }
        }
        assert(se <= 0) by {
            if se > 0 {
                lemma_pow2_pos((se - 1) as nat);
                assert(800 * pow2(24) * pow2((se - 1) as nat) >= 800 * 0x100_0000)
                    by (nonlinear_arith)
                    requires
                        pow2(24) == 0x100_0000,
                        pow2((se - 1) as nat) >= 1,
                ;
            }
        }
        assert(ae <= 20) by {
            if ae > 20 {
                lemma_pow2_strictly_increases(19, (ae - 1) as nat);
                assert(1 * pow2(24) * pow2((ae - 1) as nat) > 0x100_0000 * 0x8_0000)
                    by (nonlinear_arith)
                    requires
                        pow2(24) == 0x100_0000,
                        pow2((ae - 1) as nat) > 0x8_0000,
                ;
            }
        }
    }
    whole_of(am, ae + se + le)
}

/// The rows that are lit in a column: from the first up to but not including the second.
fn lit_rows(waveform: &[u8], x: u32) -> (r: (u32, u32))
    requires
        x < WIDTH,
    ensures
        r.0 <= HEIGHT,
        r.1 <= HEIGHT,
        forall|y: int| is_lit(waveform@, x as int, y) <==> r.0 <= y < r.1,
{
    let i: u128 = point_for(waveform.len(), x);
    if i < waveform.len() as u128 {
        let h: u32 = waveform[i as usize] as u32 * HEIGHT / 255;
        let top: u32 = (HEIGHT - h) / 2;
        (top, top + h)
    } else {
        (0, 0)
    }
}

/// Draws a waveform: blue bars on black, a column for each. Returns the width and the height of the
/// picture and its bytes.
pub fn create_waveform_pixels(waveform: &[u8]) -> (r: (u32, u32, Vec<u8>))
    ensures
        r.0 == WIDTH,
        r.1 == HEIGHT,
        r.2@ == picture(waveform@),
{
    let mut columns: Vec<(u32, u32)> = Vec::new();
    let mut x: u32 = 0;
    while x < WIDTH
        invariant
            x <= WIDTH,
            columns@.len() == x,
            forall|i: int, y: int|
                0 <= i < x ==> (#[trigger] is_lit(waveform@, i, y) <==> columns@[i].0 <= y
                    < columns@[i].1),
        decreases WIDTH - x,
    {
        columns.push(lit_rows(waveform, x));
        x += 1;
    }
    let ghost whole = picture(waveform@);
    let mut pixels: Vec<u8> = Vec::new();
    let mut y: u32 = 0;
    while y < HEIGHT
        invariant
            y <= HEIGHT,
            whole == picture(waveform@),
            columns@.len() == WIDTH,
            forall|i: int, y: int|
                0 <= i < WIDTH ==> (#[trigger] is_lit(waveform@, i, y) <==> columns@[i].0 <= y
                    < columns@[i].1),
            pixels@.len() == 3200 * y,
            forall|k: int| 0 <= k < pixels@.len() ==> pixels@[k] == whole[k],
        decreases HEIGHT - y,
    {
        let mut x: u32 = 0;
        while x < WIDTH
            invariant
                y < HEIGHT,
                x <= WIDTH,
                whole == picture(waveform@),
                columns@.len() == WIDTH,
                forall|i: int, y: int|
                    0 <= i < WIDTH ==> (#[trigger] is_lit(waveform@, i, y) <==> columns@[i].0 <= y
                        < columns@[i].1),
                pixels@.len() == 3200 * y + 4 * x,
                forall|k: int| 0 <= k < pixels@.len() ==> pixels@[k] == whole[k],
            decreases WIDTH - x,
        {
            let (top, bottom): (u32, u32) = columns[x as usize];
            let lit: bool = top <= y && y < bottom;
            assert(lit == is_lit(waveform@, x as int, y as int));
            let ghost at = pixels@.len() as int;
            assert(at / 4 == 800 * y + x);
            assert((at + 1) / 4 == at / 4 && (at + 2) / 4 == at / 4 && (at + 3) / 4 == at / 4);
            assert((at / 4) % 800 == x && (at / 4) / 800 == y);
            pixels.push(0);
            pixels.push(if lit {
                180
            } else {
                0
            });
            pixels.push(if lit {
                255
            } else {
                0
            });
            pixels.push(255);
            x += 1;
        }
        y += 1;
    }
    assert(pixels@ =~= whole);
    (WIDTH, HEIGHT, pixels)
}

/// Every pixel of a picture is opaque, and a bar leaves as many dark rows above it as below it, give
/// or take one.
pub proof fn picture_is_opaque_and_centred(waveform: Seq<u8>, x: int, y: int, point: u8)
    requires
        0 <= x < WIDTH,
        0 <= y < HEIGHT,
    ensures
        picture(waveform)[4 * (WIDTH * y + x) + 3] == 255,
        0 <= bar_top(bar_height(point)),
        0 <= HEIGHT - (bar_top(bar_height(point)) + bar_height(point)) - bar_top(bar_height(point))
            <= 1,
{
    let k = 4 * (800 * y + x) + 3;
    assert(k / 4 == 800 * y + x);
}

/// A waveform no longer than the picture is wide is drawn point by point: column `x` shows point
/// `x`, and the columns behind the last point stay dark.
pub proof fn short_waveforms_are_drawn_point_by_point(waveform: Seq<u8>, x: int, y: int)
    requires
        waveform.len() <= WIDTH,
        0 <= x < WIDTH,
    ensures
        is_lit(waveform, x, y) <==> x < waveform.len() && bar_top(bar_height(waveform[x])) <= y
            < bar_top(bar_height(waveform[x])) + bar_height(waveform[x]),
{
}

/// The encoding of infinity in single precision.
pub const SINGLE_INFINITY: u32 = 0x7f80_0000;

/// The encoding of a sample without its sign, which is that of its absolute value. As whole
/// numbers, such encodings are ordered as the numbers that they stand for.
pub open spec fn strength(sample: u32) -> u32 {
    if sample >= 0x8000_0000 {
        (sample - 0x8000_0000) as u32
    } else {
        sample
    }
}

/// The greatest absolute value among the samples, as its encoding; zero where there is none.
/// Samples that are no number count for nothing.
pub open spec fn peak(samples: Seq<u32>) -> u32
    decreases samples.len(),
{
    if samples.len() == 0 {
        0
    } else {
        let before = peak(samples.drop_last());
        let last = strength(samples.last());
        if last <= SINGLE_INFINITY && last > before {
            last
        } else {
            before
        }
    }
}

/// The `m` of the non-negative single-precision number `m * 2^e` with the given encoding.
pub open spec fn single_m(s: u32) -> nat {
    if s < 0x80_0000 {
        s as nat
    } else {
        (0x80_0000 + s % 0x80_0000) as nat
    }
}

/// The `e` of the non-negative single-precision number `m * 2^e` with the given encoding.
pub open spec fn single_e(s: u32) -> int {
    if s < 0x80_0000 {
        -149
    } else {
        s as int / 0x80_0000 - 150
    }
}

/// The byte that stands for a peak: 255 times the peak, worked out in single precision, its
/// fraction cut off, and no more than 255.
pub open spec fn level(s: u32) -> u8 {
    if s == 0 {
        0
    } else if s >= SINGLE_INFINITY {
        255
    } else {
        let y = rounding::round(single_m(s) * 255, 1, SINGLE as nat);
        let whole = rounding::whole_part(y.m, y.e + single_e(s));
        if whole < 255 {
            whole as u8
        } else {
            255
        }
    }
}

/// The samples that point `i` of the waveform stands for.
pub open spec fn stretch(samples: Seq<u32>, i: int) -> Seq<u32> {
    samples.subrange(i * SAMPLES_PER_POINT, i * SAMPLES_PER_POINT + SAMPLES_PER_POINT)
}

/// The waveform of the samples of a recording: a byte for every full stretch of samples.
pub open spec fn waveform_of(samples: Seq<u32>) -> Seq<u8> {
    Seq::new(
        samples.len() / SAMPLES_PER_POINT as nat,
        |i: int| level(peak(stretch(samples, i))),
    )
}

/// Works out the byte that stands for a peak.
fn level_of(s: u32) -> (r: u8)
    ensures
        r == level(s),
{
    if s == 0 {
        return 0;
    }
    if s >= SINGLE_INFINITY {
        return 255;
    }
    let (m, e): (u64, i32) = if s < 0x80_0000 {
        (s as u64, -149)
    } else {
        (0x80_0000 + (s % 0x80_0000) as u64, (s / 0x80_0000) as i32 - 150)
    };
    let (ym, ye): (u64, i32) = round_ratio(m * 255, 1, SINGLE);
    let at: i32 = ye + e;
    proof {
        lemma2_to64();
        lemma2_to64_rest();
    }
    if at >= 0 {
        proof {
            lemma_pow2_pos(at as nat);
            let k = pow2(at as nat);
            assert(ym * k >= 255) by (nonlinear_arith)
                requires
                    ym >= 0x80_0000,
                    k >= 1,
            ;
        }
        255
    } else {
        let whole: u128 = whole_of(ym, at);
        if whole < 255 {
            whole as u8
        } else {
            255
        }
    }
}

/// The peak is at least as strong as every sample that is a number, and is the strength of one of
/// them, or zero.
pub proof fn peak_is_the_strongest(samples: Seq<u32>)
    ensures
        forall|i: int|
            0 <= i < samples.len() && strength(#[trigger] samples[i]) <= SINGLE_INFINITY
                ==> strength(samples[i]) <= peak(samples),
        peak(samples) <= SINGLE_INFINITY,
        peak(samples) == 0 || exists|i: int|
            0 <= i < samples.len() && #[trigger] strength(samples[i]) == peak(samples),
    decreases samples.len(),
{
    if samples.len() > 0 {
        let front = samples.drop_last();
        peak_is_the_strongest(front);
        assert forall|i: int|
            0 <= i < samples.len() && strength(#[trigger] samples[i])
                <= SINGLE_INFINITY implies strength(samples[i]) <= peak(samples) by {
            if i < front.len() {
                assert(front[i] == samples[i]);
            }
        }
        if peak(samples) != 0 {
            if peak(samples) == peak(front) {
                let i = choose|i: int|
                    0 <= i < front.len() && #[trigger] strength(front[i]) == peak(front);
                assert(strength(samples[i]) == peak(samples));
            } else {
                assert(strength(samples[samples.len() - 1]) == peak(samples));
            }
        }
    }
}

/// What became of a packet of a recording.
pub enum Packet {
    /// It belongs to another track.
    OtherTrack,
    /// It was decoded to these samples, those of all channels in turn.
    Decoded(Vec<u32>),
    /// It was damaged and could not be decoded.
    Damaged,
    /// Decoding failed for good.
    Failed,
}

/// How to go on after a packet.
#[derive(Clone, Copy, PartialEq, Eq, Structural, Debug)]
pub enum WaveformStep {
    /// Read the next packet.
    More,
    /// The waveform is long enough.
    Enough,
    /// Give the recording up.
    Abort,
}

/// A waveform in the making. Its view is the samples that it has taken in.
pub struct WaveformBuilder {
    waveform: Vec<u8>,
    sample_count: usize,
    current_max: u32,
    heard: Ghost<Seq<u32>>,
}

impl View for WaveformBuilder {
    type V = Seq<u32>;

    closed spec fn view(&self) -> Seq<u32> {
        self.heard@
    }
}

impl WaveformBuilder {
    /// The points so far are those of the samples so far, and the rest is kept in mind.
    pub closed spec fn wf(&self) -> bool {
        let n = self@.len() as int;
        &&& self.waveform@ == waveform_of(self@)
        &&& self.sample_count == n % SAMPLES_PER_POINT as int
        &&& self.current_max == peak(self@.skip(n - n % SAMPLES_PER_POINT as int))
    }

    /// A waveform of no samples.
    pub fn new() -> (r: Self)
        ensures
            r.wf(),
            r@ == Seq::<u32>::empty(),
    {
        let r = WaveformBuilder {
            waveform: Vec::new(),
            sample_count: 0,
            current_max: 0,
            heard: Ghost(Seq::empty()),
        };
        assert(r.waveform@ =~= waveform_of(r@));
        r
    }

    /// Takes in one sample.
    fn push(&mut self, sample: u32)
        requires
            old(self).wf(),
        ensures
            final(self).wf(),
            final(self)@ == old(self)@.push(sample),
    {
        let ghost before = self@;
        let ghost n = before.len() as int;
        let ghost start = n - n % 200;
        let s: u32 = if sample >= 0x8000_0000 {
            sample - 0x8000_0000
        } else {
            sample
        };
        if s <= SINGLE_INFINITY && s > self.current_max {
            self.current_max = s;
        }
        self.sample_count = self.sample_count + 1;
        self.heard = Ghost(before.push(sample));
        let ghost after = before.push(sample);
        proof {
            assert(after.skip(start).drop_last() =~= before.skip(start));
            assert(after.skip(start).last() == sample);
            assert(self.current_max == peak(after.skip(start)));
            assert forall|i: int| 0 <= i < n / 200 implies #[trigger] stretch(before, i) == stretch(
                after,
                i,
            ) by {
                assert(stretch(before, i) =~= stretch(after, i));
            }
        }
        if self.sample_count >= SAMPLES_PER_POINT {
            let point: u8 = level_of(self.current_max);
            self.waveform.push(point);
            self.current_max = 0;
            self.sample_count = 0;
            proof {
                assert(after.len() / 200 == n / 200 + 1);
                assert(after.skip(start) =~= stretch(after, n / 200));
                assert(after.skip(after.len() as int) =~= Seq::<u32>::empty());
                assert(self.waveform@ =~= waveform_of(after));
            }
        } else {
            assert(self.waveform@ =~= waveform_of(after));
        }
    }

    /// Takes in what became of a packet and says how to go on.
    pub fn on_packet(&mut self, packet: &Packet) -> (step: WaveformStep)
        requires
            old(self).wf(),
        ensures
            final(self).wf(),
            match *packet {
                Packet::OtherTrack | Packet::Damaged => {
                    &&& final(self)@ == old(self)@
                    &&& step == WaveformStep::More
                },
                Packet::Failed => {
                    &&& final(self)@ == old(self)@
                    &&& step == WaveformStep::Abort
                },
                Packet::Decoded(samples) => {
                    &&& final(self)@ == old(self)@ + samples@
                    &&& step == if waveform_of(final(self)@).len() >= ENOUGH_POINTS {
                        WaveformStep::Enough
                    } else {
                        WaveformStep::More
                    }
                },
            },
    {
        match packet {
            Packet::OtherTrack => WaveformStep::More,
            Packet::Damaged => WaveformStep::More,
            Packet::Failed => WaveformStep::Abort,
            Packet::Decoded(samples) => {
                let ghost before = self@;
                let mut k: usize = 0;
                assert(before + samples@.take(0) =~= before);
                while k < samples.len()
                    invariant
                        self.wf(),
                        k <= samples@.len(),
                        self@ == before + samples@.take(k as int),
                    decreases samples@.len() - k,
                {
                    self.push(samples[k]);
                    assert(before + samples@.take(k + 1) =~= (before + samples@.take(
                        k as int,
                    )).push(samples@[k as int]));
                    k += 1;
                }
                assert(samples@.take(samples@.len() as int) =~= samples@);
                if self.waveform.len() >= ENOUGH_POINTS {
                    WaveformStep::Enough
                } else {
                    WaveformStep::More
                }
            },
        }
    }

    /// Hands the waveform over.
    pub fn finish(self) -> (r: Vec<u8>)
        requires
            self.wf(),
        ensures
            r@ == waveform_of(self@),
    {
        self.waveform
    }
}

/// Samples taken in later do not change the points that stand already.
pub proof fn points_stand(heard: Seq<u32>, more: Seq<u32>)
    ensures
        waveform_of(heard).is_prefix_of(waveform_of(heard + more)),
        waveform_of(heard + more).len() <= waveform_of(heard).len() + more.len() / 200 + 1,
{
    let a = waveform_of(heard);
    let b = waveform_of(heard + more);
    assert forall|i: int| 0 <= i < a.len() implies a[i] == b[i] by {
        assert(stretch(heard, i) =~= stretch(heard + more, i));
    }
    assert(a =~= b.take(a.len() as int));
}

/// The samples of a track: those of its packets one after the other, damaged ones left out.
pub open spec fn decoded(packets: Seq<Packet>) -> Seq<u32>
    decreases packets.len(),
{
    if packets.len() == 0 {
        Seq::empty()
    } else {
        match packets[0] {
            Packet::Decoded(samples) => samples@ + decoded(packets.drop_first()),
            _ => decoded(packets.drop_first()),
        }
    }
}

/// The samples that a waveform has taken in after packets were handed to it until it was long
/// enough or there were no more, starting with those that it had before; nothing if it was given
/// up.
pub open spec fn taken_in(heard: Seq<u32>, packets: Seq<Packet>) -> Option<Seq<u32>>
    decreases packets.len(),
{
    if packets.len() == 0 {
        Some(heard)
    } else {
        match packets[0] {
            Packet::OtherTrack | Packet::Damaged => taken_in(heard, packets.drop_first()),
            Packet::Failed => None,
            Packet::Decoded(samples) => if waveform_of(heard + samples@).len() >= ENOUGH_POINTS {
                Some(heard + samples@)
            } else {
                taken_in(heard + samples@, packets.drop_first())
            },
        }
    }
}

/// A waveform is that of the beginning of its track, and that of the whole track where it has fewer
/// points than are enough.
pub proof fn a_waveform_is_that_of_its_track(heard: Seq<u32>, packets: Seq<Packet>)
    ensures
        taken_in(heard, packets) matches Some(all) ==> {
            &&& all.is_prefix_of(heard + decoded(packets))
            &&& heard.is_prefix_of(all)
            &&& waveform_of(all).len() < ENOUGH_POINTS ==> all == heard + decoded(packets)
        },
    decreases packets.len(),
{
    if packets.len() == 0 {
        assert(heard + decoded(packets) =~= heard);
    } else {
        let rest = packets.drop_first();
        match packets[0] {
            Packet::OtherTrack | Packet::Damaged => {
                a_waveform_is_that_of_its_track(heard, rest);
            },
            Packet::Failed => {},
            Packet::Decoded(samples) => {
                let more = heard + samples@;
                assert(heard + decoded(packets) =~= more + decoded(rest));
                a_waveform_is_that_of_its_track(more, rest);
            },
        }
    }
}

/// 255 times a single-precision number that is not zero, rounded, with two hundred binary digits
/// behind the point, before the exponent of the number is taken into account.
spec fn product_at_scale(s: u32) -> nat {
    let y = rounding::round(single_m(s) * 255, 1, SINGLE as nat);
    y.m * pow2((y.e + 200) as nat)
}

/// The whole part of 255 times a single-precision number.
spec fn whole_level(s: u32) -> nat {
    let y = rounding::round(single_m(s) * 255, 1, SINGLE as nat);
    rounding::whole_part(y.m, y.e + single_e(s))
}

proof fn product_facts(s: u32)
    requires
        0 < s < SINGLE_INFINITY,
    ensures
        -149 <= single_e(s) <= 104,
        0 < single_m(s) < 0x100_0000,
        s >= 0x80_0000 ==> single_m(s) >= 0x80_0000,
        rounding::shift_up(single_m(s) * 255, 1, 24) <= 23,
        whole_level(s) == product_at_scale(s) / pow2((200 - single_e(s)) as nat),
        0x100_0000 * rounding::distance(product_at_scale(s), single_m(s) * 255 * pow2(200))
            <= single_m(s) * 255 * pow2(200),
        pow2((200 - single_e(s)) as nat) > 0,
{
    lemma2_to64();
    let n = single_m(s) * 255;
    let y = rounding::round(n, 1, 24);
    assert(n * pow2(23) >= 1 * pow2(23)) by (nonlinear_arith)
        requires
            n >= 1,
    ;
    rounding::shift_up_is_at_most(n, 1, 24, 23);
    rounding::rounding_at_scale(n, 1, 24, 200);
    rounding::whole_part_at_scale(y.m, y.e, 200, single_e(s));
    let g = pow2((y.e + 200) as nat);
    assert(y.m * g * 1 == y.m * g);
}

proof fn scaled_exactly(c: nat, j: nat)
    requires
        0 < c <= 255,
        j <= 24,
    ensures
        ({
            let y = rounding::round(c * pow2(j), 1, 24);
            &&& rounding::shift_up(c * pow2(j), 1, 24) <= 23
            &&& y.m * pow2((y.e + 200) as nat) == c * pow2(j + 200)
        }),
{
    lemma2_to64();
    lemma_pow2_pos(j);
    let n = c * pow2(j);
    let pj = pow2(j);
    assert(n >= 1 && n * pow2(23) >= 1 * pow2(23) && n * 1 == n) by (nonlinear_arith)
        requires
            n == c * pj,
            c >= 1,
            pj >= 1,
            pow2(23) > 0,
    ;
    rounding::shift_up_is_at_most(n, 1, 24, 23);
    rounding::short_quotients_are_exact(c, j, 1, 24, 200);
}

proof fn whole_level_grows(a: u32, b: u32)
    requires
        0 < a <= b < SINGLE_INFINITY,
    ensures
        whole_level(a) <= whole_level(b),
{
    lemma2_to64();
    product_facts(a);
    product_facts(b);
    let (ea, eb) = (single_e(a), single_e(b));
    let (x, y) = (product_at_scale(a), product_at_scale(b));
    let ca = pow2((200 - ea) as nat);
    let cb = pow2((200 - eb) as nat);
    if ea == eb {
        assert(single_m(a) <= single_m(b));
        rounding::rounding_keeps_the_order(single_m(a) * 255, single_m(b) * 255, 1, 24, 200);
        assert(x / ca <= y / ca) by (nonlinear_arith)
            requires
                x <= y,
                ca > 0,
        ;
    } else {
        assert(ea < eb);
        assert(255 * pow2(24) == 255 * 0x100_0000 && 255 * pow2(23) == 255 * 0x80_0000);
        scaled_exactly(255, 24);
        scaled_exactly(255, 23);
        rounding::rounding_keeps_the_order(single_m(a) * 255, 255 * pow2(24), 1, 24, 200);
        rounding::rounding_keeps_the_order(255 * pow2(23), single_m(b) * 255, 1, 24, 200);
        lemma_pow2_unfold(224);
        lemma_pow2_unfold((200 - eb + 1) as nat);
        if ea + 1 < eb {
            lemma_pow2_strictly_increases((200 - eb + 1) as nat, (200 - ea) as nat);
        }
        let z = 255 * pow2(223);
        assert(2 * cb <= ca);
        assert(x <= 2 * z && z <= y);
        let q = y / cb;
        assert(x / ca <= q) by (nonlinear_arith)
            requires
                x <= 2 * y,
                2 * cb <= ca,
                cb > 0,
                q == y / cb,
        {
            assert(y < (q + 1) * cb);
            assert(2 * y < (q + 1) * (2 * cb));
            assert((q + 1) * (2 * cb) <= (q + 1) * ca);
            assert(x < (q + 1) * ca);
        }
    }
}

proof fn full_level()
    ensures
        whole_level(0x3f80_0000) == 255,
{
    lemma2_to64();
    product_facts(0x3f80_0000);
    assert(single_m(0x3f80_0000) == 0x80_0000 && single_e(0x3f80_0000) == -23);
    assert(255 * pow2(23) == 255 * 0x80_0000);
    scaled_exactly(255, 23);
    let c = pow2(223);
    lemma_pow2_pos(223);
    assert(255 * c / c == 255) by (nonlinear_arith)
        requires
            c > 0,
    ;
}

/// A stronger peak has no lower level.
pub proof fn levels_grow(a: u32, b: u32)
    requires
        a <= b,
    ensures
        level(a) <= level(b),
{
    if 0 < a && b < SINGLE_INFINITY {
        whole_level_grows(a, b);
    }
}

/// The level of a peak is 255 times the number that its encoding stands for, without the fraction,
/// but for the rounding of a single-precision product, and 255 from one on. The number is `m / 2^j`.
pub proof fn levels_are_255_times_the_peak(s: u32, m: nat, j: nat)
    requires
        s < 0x3f80_0000,
        s < 0x80_0000 ==> m == s && j == 149,
        s >= 0x80_0000 ==> m == 0x80_0000 + s % 0x80_0000 && j == 150 - s / 0x80_0000,
    ensures
        0x100_0000 * (level(s) * pow2(j)) <= (0x100_0000 + 1) * (255 * m),
        0x100_0000 * ((level(s) + 1) * pow2(j)) > (0x100_0000 - 1) * (255 * m),
        forall|t: u32| t >= 0x3f80_0000 ==> #[trigger] level(t) == 255,
{
    assert forall|t: u32| t >= 0x3f80_0000 implies #[trigger] level(t) == 255 by {
        if t < SINGLE_INFINITY {
            full_level();
            whole_level_grows(0x3f80_0000, t);
        }
    }
    lemma_pow2_pos(j);
    let pj = pow2(j);
    if s == 0 {
        assert(0 * pj == 0 && 1 * pj > 0) by (nonlinear_arith)
            requires
                pj > 0,
        ;
    } else {
        product_facts(s);
        full_level();
        whole_level_grows(s, 0x3f80_0000);
        assert(level(s) == whole_level(s));
        assert(single_m(s) == m && single_e(s) == -(j as int));
        let n = m * 255;
        let w = product_at_scale(s);
        let u = pow2(200);
        lemma_pow2_pos(200);
        lemma_pow2_adds(200, j);
        let c = pow2(200 + j);
        let l = level(s) as nat;
        assert(l * c <= w < (l + 1) * c) by (nonlinear_arith)
            requires
                l == w / c,
                c > 0,
        ;
        let x = n * u;
        let gap = rounding::distance(w, x);
        assert(0x100_0000 * gap <= x);
        assert(w <= x + gap && x <= w + gap);
        assert(0x100_0000 * w <= (0x100_0000 + 1) * x && 0x100_0000 * w >= (0x100_0000 - 1) * x)
            by (nonlinear_arith)
            requires
                0x100_0000 * gap <= x,
                w <= x + gap,
                x <= w + gap,
        ;
        assert(0x100_0000 * (l * pj) <= (0x100_0000 + 1) * n) by (nonlinear_arith)
            requires
                l * c <= w,
                c == u * pj,
                0x100_0000 * w <= (0x100_0000 + 1) * x,
                x == n * u,
                u > 0,
        {
            assert(0x100_0000 * (l * pj) * u == 0x100_0000 * (l * c));
            assert(0x100_0000 * (l * pj) * u <= (0x100_0000 + 1) * n * u);
        }
        assert(0x100_0000 * ((l + 1) * pj) > (0x100_0000 - 1) * n) by (nonlinear_arith)
            requires
                w < (l + 1) * c,
                c == u * pj,
                0x100_0000 * w >= (0x100_0000 - 1) * x,
                x == n * u,
                u > 0,
        {
            assert(0x100_0000 * ((l + 1) * pj) * u == 0x100_0000 * ((l + 1) * c));
            assert(0x100_0000 * ((l + 1) * pj) * u > (0x100_0000 - 1) * n * u);
        }
    }
}

/// Every sample counts: the byte for two hundred samples is at least the level of each of them that
/// is a number, without its sign, and is the level of one of them, or zero.
pub proof fn every_sample_counts(samples: Seq<u32>, i: int, j: int)
    requires
        0 <= i < samples.len() / 200,
        200 * i <= j < 200 * i + 200,
    ensures
        waveform_of(samples).len() == samples.len() / 200,
        samples[j] % 0x8000_0000 <= 0x7f80_0000 ==> waveform_of(samples)[i] >= level(
            samples[j] % 0x8000_0000,
        ),
        waveform_of(samples)[i] == 0 || exists|k: int|
            200 * i <= k < 200 * i + 200 && #[trigger] samples[k] % 0x8000_0000 <= 0x7f80_0000
                && waveform_of(samples)[i] == level(samples[k] % 0x8000_0000),
{
    let part = stretch(samples, i);
    let top = peak(part);
    peak_is_the_strongest(part);
    assert(waveform_of(samples)[i] == level(top));
    assert(part[j - 200 * i] == samples[j]);
    assert(strength(samples[j]) == samples[j] % 0x8000_0000);
    if strength(samples[j]) <= SINGLE_INFINITY {
        levels_grow(strength(samples[j]), top);
    }
    if top != 0 {
        let k = choose|k: int| 0 <= k < part.len() && #[trigger] strength(part[k]) == top;
        assert(part[k] == samples[200 * i + k]);
        assert(strength(part[k]) == samples[200 * i + k] % 0x8000_0000);
    }
}

/// The three roundings by which a column finds its point, each with two hundred binary digits behind
/// the point.
proof fn point_facts(len: nat, x: nat) -> (v: (nat, nat, nat))
    requires
        800 < len,
        0 < x < 800,
    ensures
        0x100_0000 * rounding::distance(v.0, len * pow2(200)) <= len * pow2(200),
        0x100_0000 * rounding::distance(v.1 * 800, v.0) <= v.0,
        0x100_0000 * rounding::distance(v.2, x * v.1) <= x * v.1,
        point_at(len, x) == v.2 / pow2(200),
        pow2(200) > 0,
{
    lemma2_to64();
    let l = rounding::round(len, 1, 24);
    assert(len * pow2(23) >= 1 * pow2(23)) by (nonlinear_arith)
        requires
            len >= 1,
    ;
    rounding::shift_up_is_at_most(len, 1, 24, 23);
    rounding::rounding_at_scale(len, 1, 24, 200);
    let k1 = (l.e + 200) as nat;
    let v0 = l.m * pow2(k1);
    assert(v0 * 1 == v0);
    let step = rounding::round(l.m, 800, 24);
    assert(l.m * pow2(10) >= 800 * pow2(23)) by (nonlinear_arith)
        requires
            l.m >= pow2(23),
            pow2(10) == 1024,
            pow2(23) > 0,
    ;
    rounding::shift_up_is_at_most(l.m, 800, 24, 10);
    rounding::rounding_at_scale(l.m, 800, 24, k1);
    let k2 = (step.e + k1) as nat;
    let v1 = step.m * pow2(k2);
    let n = x * step.m;
    assert(n > 0 && n * pow2(23) >= 1 * pow2(23)) by (nonlinear_arith)
        requires
            n == x * step.m,
            x >= 1,
            step.m >= pow2(23),
            pow2(23) >= 1,
    ;
    rounding::shift_up_is_at_most(n, 1, 24, 23);
    rounding::rounding_at_scale(n, 1, 24, k2);
    let at = rounding::round(n, 1, 24);
    let v2 = at.m * pow2((at.e + k2) as nat);
    assert(v2 * 1 == v2);
    let p2 = pow2(k2);
    assert(n * p2 == x * v1) by (nonlinear_arith)
        requires
            n == x * step.m,
            v1 == step.m * p2,
    ;
    rounding::whole_part_at_scale(at.m, at.e, k2, step.e + l.e);
    (v0, v1, v2)
}

proof fn three_roundings(v: nat, y: nat, z: nat)
    requires
        0x100_0000 * v <= 0x100_0001 * y,
        0x100_0000 * v >= 0xff_ffff * y,
        0x1_0000_0000_0000 * (800 * y) <= 0x1_0000_0200_0001 * z,
        0x1_0000_0000_0000 * (800 * y) >= 0xffff_fe00_0001 * z,
    ensures
        0x40_0000 * (800 * v) <= (0x40_0000 + 1) * z,
        0x40_0000 * (800 * v) >= (0x40_0000 - 1) * z,
{
    let w = 800 * y;
    let a = 800 * v;
    assert(0x100_0000 * a <= 0x100_0001 * w && 0x100_0000 * a >= 0xff_ffff * w);
    assert(0x400_0000 * w <= 0x400_0009 * z);
    assert(0x80_0000 * w >= 0x7f_ffff * z);
    assert(0x4_0000_0000_0000 * a <= 0x4_0000_0400_0000 * w);
    assert(0x4_0000_0400_0000 * w <= 0x4_0000_0d00_0009 * z);
    assert(0x4_0000_0d00_0009 * z <= 0x4_0000_1000_0000 * z);
    assert(0x40_0000 * a <= 0x40_0001 * z) by (nonlinear_arith)
        requires
            0x4_0000_0000_0000 * a <= 0x4_0000_1000_0000 * z,
    ;
    assert(0x40_0000 * a >= (0x40_0000 - 1) * z);
}

/// The columns are spread evenly over a long waveform: column `x` shows the point at `x / 800` of
/// its length, but for the rounding of single precision.
pub proof fn columns_are_spread_evenly(len: nat, x: nat)
    requires
        800 < len,
        x < 800,
    ensures
        0x40_0000 * (800 * point_at(len, x)) <= (0x40_0000 + 1) * (x * len),
        0x40_0000 * (800 * (point_at(len, x) + 1)) > (0x40_0000 - 1) * (x * len),
{
    if x == 0 {
        assert(0 * len == 0);
    } else {
        let (v0, v1, v2) = point_facts(len, x);
        let u = pow2(200);
        let p = point_at(len, x);
        assert(p * u <= v2 < (p + 1) * u) by (nonlinear_arith)
            requires
                p == v2 / u,
                u > 0,
        ;
        let exact = len * u;
        let b: nat = 0x100_0000;
        let g0 = rounding::distance(v0, exact);
        let g1 = rounding::distance(v1 * 800, v0);
        let g2 = rounding::distance(v2, x * v1);
        assert(b * v0 <= (b + 1) * exact && b * v0 >= (b - 1) * exact) by (nonlinear_arith)
            requires
                b * g0 <= exact,
                v0 <= exact + g0,
                exact <= v0 + g0,
        ;
        assert(b * (v1 * 800) <= (b + 1) * v0 && b * (v1 * 800) >= (b - 1) * v0)
            by (nonlinear_arith)
            requires
                b * g1 <= v0,
                v1 * 800 <= v0 + g1,
                v0 <= v1 * 800 + g1,
        ;
        let y = x * v1;
        assert(0x100_0000 * v2 <= 0x100_0001 * y && 0x100_0000 * v2 >= 0xff_ffff * y)
            by (nonlinear_arith)
            requires
                0x100_0000 * g2 <= y,
                v2 <= y + g2,
                y <= v2 + g2,
        ;
        let z = x * exact;
        assert(0x1_0000_0000_0000 * (800 * y) <= 0x1_0000_0200_0001 * z && 0x1_0000_0000_0000 * (800
            * y) >= 0xffff_fe00_0001 * z) by (nonlinear_arith)
            requires
                y == x * v1,
                z == x * exact,
                b == 0x100_0000,
                b * v0 <= (b + 1) * exact,
                b * v0 >= (b - 1) * exact,
                b * (v1 * 800) <= (b + 1) * v0,
                b * (v1 * 800) >= (b - 1) * v0,
        {
            assert(b * (800 * y) == x * (b * (v1 * 800)));
            assert(x * (b * (v1 * 800)) <= x * ((b + 1) * v0));
            assert(x * (b * (v1 * 800)) >= x * ((b - 1) * v0));
            assert(b * (x * ((b + 1) * v0)) == (b + 1) * (x * (b * v0)));
            assert(b * (x * ((b - 1) * v0)) == (b - 1) * (x * (b * v0)));
            assert(x * (b * v0) <= x * ((b + 1) * exact));
            assert(x * (b * v0) >= x * ((b - 1) * exact));
            assert(x * ((b + 1) * exact) == (b + 1) * z);
            assert(x * ((b - 1) * exact) == (b - 1) * z);
        }
        // Three roundings are off by less than a part in 2^22.
        three_roundings(v2, y, z);
        let w = x * len;
        assert(z == w * u) by (nonlinear_arith)
            requires
                z == x * exact,
                exact == len * u,
                w == x * len,
        ;
        assert(0x40_0000 * (800 * p) <= (0x40_0000 + 1) * w) by (nonlinear_arith)
            requires
                p * u <= v2,
                0x40_0000 * (800 * v2) <= (0x40_0000 + 1) * z,
                z == w * u,
                u > 0,
        {
            assert(0x40_0000 * (800 * p) * u == 0x40_0000 * (800 * (p * u)));
            assert(0x40_0000 * (800 * p) * u <= (0x40_0000 + 1) * w * u);
        }
        assert(0x40_0000 * (800 * (p + 1)) > (0x40_0000 - 1) * w) by (nonlinear_arith)
            requires
                v2 < (p + 1) * u,
                0x40_0000 * (800 * v2) >= (0x40_0000 - 1) * z,
                z == w * u,
                u > 0,
        {
            assert(0x40_0000 * (800 * (p + 1)) * u == 0x40_0000 * (800 * ((p + 1) * u)));
            assert(0x40_0000 * (800 * (p + 1)) * u > (0x40_0000 - 1) * w * u);
        }
    }
}

/// A waveform of `k` times as many points as the picture has columns is drawn by every `k`-th point.
pub proof fn every_kth_point_is_drawn(k: nat, x: nat)
    requires
        k > 0,
        800 * k < 0x100_0000,
        x < 800,
    ensures
        point_at(800 * k, x) == k * x,
{
    if k == 1 || x == 0 {
        assert(k * x == x || k * 0 == 0);
    } else {
        lemma2_to64();
        let len = 800 * k;
        let l = rounding::round(len, 1, 24);
        assert(len * pow2(23) >= 1 * pow2(23)) by (nonlinear_arith)
            requires
                len >= 1,
        ;
        rounding::shift_up_is_at_most(len, 1, 24, 23);
        let up = rounding::shift_up(len, 1, 24);
        let pu = pow2(up);
        lemma_pow2_pos(up);
        assert(1 * pow2(24) == pow2(24));
        assert(rounding::shift_down(len, 1, 24) == 0);
        assert(l.m == len * pu && l.e == -(up as int)) by {
            assert(1 * pow2(0) == 1);
        }
        // The step is k, up to the doublings.
        rounding::rounding_is_nearest(len, 1, 24);
        let c = k * pu;
        assert(c * pow2(0) * 800 == l.m && c > 0 && 800 * c == l.m) by (nonlinear_arith)
            requires
                pow2(0) == 1,
                c == k * pu,
                l.m == (800 * k) * pu,
                k > 0,
                pu > 0,
        ;
        assert(l.m * pow2(10) >= 800 * pow2(23)) by (nonlinear_arith)
            requires
                l.m >= pow2(23),
                pow2(10) == 1024,
                pow2(23) > 0,
        ;
        rounding::shift_up_is_at_most(l.m, 800, 24, 10);
        let step = rounding::round(l.m, 800, 24);
        rounding::short_quotients_are_exact(c, 0, 800, 24, 10);
        let up2 = rounding::shift_up(l.m, 800, 24);
        assert(rounding::shift_down(l.m, 800, 24) == 0);
        let pv = pow2(up2);
        lemma_pow2_pos(up2);
        assert(step.e == -(up2 as int));
        lemma_pow2_adds(up2, (10 - up2) as nat);
        let r = pow2((10 - up2) as nat);
        lemma_pow2_pos((10 - up2) as nat);
        assert(step.m == c * pv) by (nonlinear_arith)
            requires
                step.m * r == c * (pv * r),
                r > 0,
        ;
        // The position is k times x.
        lemma_pow2_adds(up, up2);
        let j = up + up2;
        lemma_pow2_pos(j);
        let n = x * step.m;
        let d = k * x;
        assert(n == d * pow2(j) * 1) by (nonlinear_arith)
            requires
                n == x * step.m,
                step.m == c * pv,
                c == k * pu,
                pow2(j) == pu * pv,
                d == k * x,
        ;
        assert(0 < d < 0x100_0000) by (nonlinear_arith)
            requires
                d == k * x,
                0 < x < 800,
                800 * k < 0x100_0000,
                k > 0,
        ;
        assert(n * pow2(23) >= 1 * pow2(23) && n > 0) by (nonlinear_arith)
            requires
                n == d * pow2(j) * 1,
                d >= 1,
                pow2(j) >= 1,
                pow2(23) >= 1,
        ;
        rounding::shift_up_is_at_most(n, 1, 24, 23);
        rounding::short_quotients_are_exact(d, j, 1, 24, 100);
        let at = rounding::round(n, 1, 24);
        rounding::whole_part_at_scale(at.m, at.e, 100, step.e + l.e);
        let t = pow2(j + 100);
        lemma_pow2_pos(j + 100);
        assert(d * t / t == d) by (nonlinear_arith)
            requires
                t > 0,
        ;
    }
}

/// A picture shows its points: every pixel is opaque, and is blue where it lies in a bar that stands
/// in the middle of its column and is as high as the point of that column says, and black elsewhere.
pub proof fn a_picture_shows_its_points(waveform: Seq<u8>, x: int, y: int)
    requires
        0 <= x < 800,
        0 <= y < 100,
    ensures
        ({
            let pixels = picture(waveform);
            let at = 4 * (800 * y + x);
            let i = if waveform.len() <= 800 {
                x
            } else {
                point_at(waveform.len(), x as nat) as int
            };
            let high = waveform[i] as int * 100 / 255;
            let top = (100 - high) / 2;
            let lit = i < waveform.len() && top <= y < top + high;
            &&& pixels.len() == 320000
            &&& pixels[at] == 0
            &&& pixels[at + 1] == if lit {
                180u8
            } else {
                0u8
            }
            &&& pixels[at + 2] == if lit {
                255u8
            } else {
                0u8
            }
            &&& pixels[at + 3] == 255
        }),
{
    let at = 4 * (800 * y + x);
    assert(at / 4 == 800 * y + x && (at + 1) / 4 == 800 * y + x);
    assert((at + 2) / 4 == 800 * y + x && (at + 3) / 4 == 800 * y + x);
    assert((800 * y + x) % 800 == x && (800 * y + x) / 800 == y);
}

} // verus!
