//! Sources of sound: the order in which samples leave a source, and what it asks for when it has
//! none.
//!
//! A source is driven by events: it is polled for a sample, and told what became of what it asked
//! for. It answers each event with an action. The type of a sample is left open.

use crate::scanner::DEFAULT_SAMPLE_RATE;
use vstd::prelude::*;

verus! {

/// The number of frames that a synthesizer renders at a time.
pub const RENDERED_FRAMES: usize = 512;

/// Something that happens to a source.
pub enum PlaybackEvent<T> {
    /// A sample is wanted; `seek` tells that the position in the sound was changed before.
    Poll { seek: bool },
    /// A packet of a track was read.
    Packet { track_id: u32 },
    /// The packet was decoded to these samples, those of all channels in turn.
    Decoded(Vec<T>),
    /// The packet was damaged and could not be decoded.
    Damaged,
    /// Decoding failed for good.
    Failed,
    /// A left and a right channel were rendered.
    Rendered(Vec<T>, Vec<T>),
    /// There is nothing more to read or to render.
    Ended,
}

/// What a source answers.
pub enum PlaybackAction<T> {
    /// This is the sample.
    Emit(T),
    /// Read the next packet.
    ReadPacket,
    /// Decode the packet.
    Decode,
    /// Render the next frames, unless the score has ended.
    Render,
    /// There is no sample.
    Finish,
}

/// The samples of two channels in turn, the left one first.
pub open spec fn interleaved<T>(left: Seq<T>, right: Seq<T>) -> Seq<T> {
    Seq::new(
        2 * left.len(),
        |i: int|
            if i % 2 == 0 {
                left[i / 2]
            } else {
                right[i / 2]
            },
    )
}

/// Hands out the first of the samples that are there: what is left, and the action.
pub open spec fn handing_out<T>(samples: Seq<T>, none_left: PlaybackAction<T>) -> (
    Seq<T>,
    PlaybackAction<T>,
) {
    if samples.len() > 0 {
        (samples.drop_first(), PlaybackAction::Emit(samples[0]))
    } else {
        (samples, none_left)
    }
}

/// How a recording answers an event: the samples that wait from then on, and the action. `waiting`
/// are those that waited before, and `track` is the track that is played.
pub open spec fn recording_step<T>(waiting: Seq<T>, track: u32, event: PlaybackEvent<T>) -> (
    Seq<T>,
    PlaybackAction<T>,
) {
    match event {
        PlaybackEvent::Poll { seek } => handing_out(
            if seek {
                Seq::empty()
            } else {
                waiting
            },
            PlaybackAction::ReadPacket,
        ),
        PlaybackEvent::Packet { track_id } => if track_id == track {
            (waiting, PlaybackAction::Decode)
        } else {
            (waiting, PlaybackAction::ReadPacket)
        },
        PlaybackEvent::Decoded(samples) => handing_out(samples@, PlaybackAction::Finish),
        PlaybackEvent::Damaged => (waiting, PlaybackAction::ReadPacket),
        PlaybackEvent::Failed | PlaybackEvent::Ended | PlaybackEvent::Rendered(_, _) => (
            waiting,
            PlaybackAction::Finish,
        ),
    }
}

/// How a score answers an event: the samples that wait from then on, and the action. `waiting` are
/// those that waited before.
pub open spec fn score_step<T>(waiting: Seq<T>, event: PlaybackEvent<T>) -> (
    Seq<T>,
    PlaybackAction<T>,
) {
    match event {
        PlaybackEvent::Poll { seek } => handing_out(
            if seek {
                Seq::empty()
            } else {
                waiting
            },
            PlaybackAction::Render,
        ),
        PlaybackEvent::Rendered(left, right) => handing_out(
            interleaved(left@, right@),
            PlaybackAction::Finish,
        ),
        _ => (waiting, PlaybackAction::Finish),
    }
}

/// The samples that a source hands out on `n` polls in a row without a change of the position, as
/// far as those that wait reach.
pub open spec fn handed_out<T>(waiting: Seq<T>, n: nat) -> Seq<T>
    decreases n,
{
    if n == 0 || waiting.len() == 0 {
        Seq::empty()
    } else {
        seq![waiting[0]] + handed_out(waiting.drop_first(), (n - 1) as nat)
    }
}

/// Samples that wait are handed out in order, each once.
pub proof fn samples_leave_in_order<T>(waiting: Seq<T>, n: nat)
    requires
        n <= waiting.len(),
    ensures
        handed_out(waiting, n) == waiting.take(n as int),
    decreases n,
{
    if n > 0 {
        samples_leave_in_order(waiting.drop_first(), (n - 1) as nat);
        assert(seq![waiting[0]] + waiting.drop_first().take(n - 1) =~= waiting.take(n as int));
    } else {
        assert(waiting.take(0) =~= Seq::<T>::empty());
    }
}

/// What is rendered leaves frame by frame: the first frames of a chunk are handed out left channel
/// first, right channel second.
pub proof fn frames_leave_together<T>(left: Seq<T>, right: Seq<T>, frame: int)
    requires
        left.len() == right.len(),
        0 <= frame < left.len(),
    ensures
        handed_out(interleaved(left, right), 2 * left.len())[2 * frame] == left[frame],
        handed_out(interleaved(left, right), 2 * left.len())[2 * frame + 1] == right[frame],
{
    samples_leave_in_order(interleaved(left, right), 2 * left.len());
}

/// A recording that is played: a track of it, and the samples decoded last.
pub struct SymphoniaSource<T> {
    pub track_id: u32,
    pub sample_rate: u32,
    pub channels: u16,
    pub sample_buf: Option<Vec<T>>,
    pub buf_index: usize,
}

impl<T: Copy> SymphoniaSource<T> {
    /// The decoded samples that have not been handed out.
    pub open spec fn waiting(&self) -> Seq<T> {
        match self.sample_buf {
            Some(buf) => if self.buf_index <= buf@.len() {
                buf@.skip(self.buf_index as int)
            } else {
                Seq::empty()
            },
            None => Seq::empty(),
        }
    }

    /// A recording of which nothing has been decoded. Where it does not say, it is taken to have
    /// two channels and the default sample rate.
    pub fn new(track_id: u32, sample_rate: Option<u32>, channels: Option<usize>) -> (r: Self)
        ensures
            r.track_id == track_id,
            r.sample_rate == match sample_rate {
                Some(rate) => rate,
                None => DEFAULT_SAMPLE_RATE,
            },
            r.channels == match channels {
                Some(n) => n as u16,
                None => 2u16,
            },
            r.waiting() == Seq::<T>::empty(),
    {
        SymphoniaSource {
            track_id,
            sample_rate: match sample_rate {
                Some(rate) => rate,
                None => DEFAULT_SAMPLE_RATE,
            },
            channels: match channels {
                Some(n) => n as u16,
                None => 2,
            },
            sample_buf: None,
            buf_index: 0,
        }
    }

    /// Hands out the next sample that waits.
    fn take_waiting(&mut self) -> (r: Option<T>)
        ensures
            final(self).track_id == old(self).track_id,
            final(self).sample_rate == old(self).sample_rate,
            final(self).channels == old(self).channels,
            old(self).waiting().len() == 0 ==> {
                &&& r is None
                &&& final(self).waiting() == Seq::<T>::empty()
            },
            old(self).waiting().len() > 0 ==> {
                &&& r == Some(old(self).waiting()[0])
                &&& final(self).waiting() == old(self).waiting().drop_first()
            },
    {
        let ghost before = self.waiting();
        let next: Option<T> = match &self.sample_buf {
            Some(buf) => if self.buf_index < buf.len() {
                Some(buf[self.buf_index])
            } else {
                None
            },
            None => None,
        };
        if next.is_some() {
            self.buf_index = self.buf_index + 1;
            assert(self.waiting() =~= before.drop_first());
        } else {
            self.sample_buf = None;
            self.buf_index = 0;
        }
        next
    }

    /// Answers an event.
    pub fn next(&mut self, event: PlaybackEvent<T>) -> (action: PlaybackAction<T>)
        ensures
            (final(self).waiting(), action) == recording_step(
                old(self).waiting(),
                old(self).track_id,
                event,
            ),
            final(self).track_id == old(self).track_id,
            final(self).sample_rate == old(self).sample_rate,
            final(self).channels == old(self).channels,
    {
        match event {
            PlaybackEvent::Poll { seek } => {
                if seek {
                    self.sample_buf = None;
                    self.buf_index = 0;
                }
                match self.take_waiting() {
                    Some(sample) => PlaybackAction::Emit(sample),
                    None => PlaybackAction::ReadPacket,
                }
            },
            PlaybackEvent::Packet { track_id } => {
                if track_id == self.track_id {
                    PlaybackAction::Decode
                } else {
                    PlaybackAction::ReadPacket
                }
            },
            PlaybackEvent::Decoded(samples) => {
                assert(samples@.skip(0) =~= samples@);
                self.sample_buf = Some(samples);
                self.buf_index = 0;
                match self.take_waiting() {
                    Some(sample) => PlaybackAction::Emit(sample),
                    None => {
                        assert(samples@ =~= Seq::<T>::empty());
                        PlaybackAction::Finish
                    },
                }
            },
            PlaybackEvent::Damaged => PlaybackAction::ReadPacket,
            PlaybackEvent::Failed => PlaybackAction::Finish,
            PlaybackEvent::Rendered(_, _) => PlaybackAction::Finish,
            PlaybackEvent::Ended => PlaybackAction::Finish,
        }
    }

    /// The number of channels.
    pub fn channels(&self) -> (r: u16)
        ensures
            r == self.channels,
    {
        self.channels
    }

    /// The number of samples of a channel in a second.
    pub fn sample_rate(&self) -> (r: u32)
        ensures
            r == self.sample_rate,
    {
        self.sample_rate
    }

    /// How many samples come before the format changes: it never does.
    pub fn current_frame_len(&self) -> (r: Option<usize>)
        ensures
            r is None,
    {
        None
    }
}

/// A packet of a recording and what decoding makes of it: samples, or a failure that is final or
/// not.
pub struct StreamPacket<T> {
    pub track_id: u32,
    pub decoded: Result<Vec<T>, bool>,
}

/// What a packet is reported as once it was decoded.
pub open spec fn decoding_event<T>(packet: StreamPacket<T>) -> PlaybackEvent<T> {
    match packet.decoded {
        Ok(samples) => PlaybackEvent::Decoded(samples),
        Err(is_final) => if is_final {
            PlaybackEvent::Failed
        } else {
            PlaybackEvent::Damaged
        },
    }
}

/// Reads packets until the recording has a sample or is at its end: the sample, the samples that
/// wait, and the packets that are left.
pub open spec fn read_on<T>(waiting: Seq<T>, track: u32, packets: Seq<StreamPacket<T>>) -> (
    Option<T>,
    Seq<T>,
    Seq<StreamPacket<T>>,
)
    decreases packets.len(),
{
    if packets.len() == 0 {
        (None, recording_step(waiting, track, PlaybackEvent::Ended).0, packets)
    } else {
        let rest = packets.drop_first();
        let (seen, asked) = recording_step(
            waiting,
            track,
            PlaybackEvent::Packet { track_id: packets[0].track_id },
        );
        if asked is Decode {
            let (kept, action) = recording_step(seen, track, decoding_event(packets[0]));
            match action {
                PlaybackAction::Emit(sample) => (Some(sample), kept, rest),
                PlaybackAction::ReadPacket => read_on(kept, track, rest),
                _ => (None, kept, rest),
            }
        } else {
            read_on(seen, track, rest)
        }
    }
}

/// Polls a recording for a sample, and reads packets where none waits.
pub open spec fn pull<T>(waiting: Seq<T>, track: u32, packets: Seq<StreamPacket<T>>) -> (
    Option<T>,
    Seq<T>,
    Seq<StreamPacket<T>>,
) {
    let (kept, action) = recording_step(waiting, track, PlaybackEvent::Poll { seek: false });
    match action {
        PlaybackAction::Emit(sample) => (Some(sample), kept, packets),
        _ => read_on(kept, track, packets),
    }
}

/// The samples of a track: those of its packets one after the other, damaged ones left out, up to
/// the first that fails for good or holds no samples.
pub open spec fn sound_of<T>(track: u32, packets: Seq<StreamPacket<T>>) -> Seq<T>
    decreases packets.len(),
{
    if packets.len() == 0 {
        Seq::empty()
    } else if packets[0].track_id != track {
        sound_of(track, packets.drop_first())
    } else {
        match packets[0].decoded {
            Ok(samples) => if samples@.len() == 0 {
                Seq::empty()
            } else {
                samples@ + sound_of(track, packets.drop_first())
            },
            Err(is_final) => if is_final {
                Seq::empty()
            } else {
                sound_of(track, packets.drop_first())
            },
        }
    }
}

proof fn read_on_takes_the_next_sample<T>(track: u32, packets: Seq<StreamPacket<T>>)
    ensures
        ({
            let none = Seq::<T>::empty();
            let sound = sound_of(track, packets);
            let (sample, kept, rest) = read_on(none, track, packets);
            &&& sound.len() == 0 ==> sample is None
            &&& sound.len() > 0 ==> sample == Some(sound[0]) && kept + sound_of(track, rest)
                == sound.drop_first()
        }),
    decreases packets.len(),
{
    let none = Seq::<T>::empty();
    if packets.len() > 0 {
        let rest = packets.drop_first();
        read_on_takes_the_next_sample(track, rest);
        if packets[0].track_id == track {
            if let Ok(samples) = packets[0].decoded {
                if samples@.len() > 0 {
                    let sound = sound_of(track, packets);
                    assert(samples@.drop_first() + sound_of(track, rest) =~= sound.drop_first());
                }
            }
        }
    }
}

/// Polling a recording again and again, with no change of the position, yields the samples that
/// wait and then those of its track, in order and each once, and then none.
pub proof fn a_recording_is_played_in_order<T>(
    waiting: Seq<T>,
    track: u32,
    packets: Seq<StreamPacket<T>>,
)
    ensures
        ({
            let due = waiting + sound_of(track, packets);
            let (sample, kept, rest) = pull(waiting, track, packets);
            &&& due.len() == 0 ==> sample is None
            &&& due.len() > 0 ==> sample == Some(due[0]) && kept + sound_of(track, rest)
                == due.drop_first()
        }),
{
    let due = waiting + sound_of(track, packets);
    if waiting.len() > 0 {
        assert(waiting.drop_first() + sound_of(track, packets) =~= due.drop_first());
    } else {
        assert(waiting =~= Seq::<T>::empty());
        assert(due =~= sound_of(track, packets));
        read_on_takes_the_next_sample(track, packets);
    }
}

/// After a change of the position, none of the samples that waited is handed out: a recording is
/// read on, and a score rendered, from the new position.
pub proof fn a_change_of_position_drops_what_waits<T>(waiting: Seq<T>, track: u32)
    ensures
        recording_step(waiting, track, PlaybackEvent::Poll { seek: true }) == (
            Seq::<T>::empty(),
            PlaybackAction::<T>::ReadPacket,
        ),
        score_step(waiting, PlaybackEvent::Poll { seek: true }) == (
            Seq::<T>::empty(),
            PlaybackAction::<T>::Render,
        ),
{
}

/// Polls a score for a sample, and renders the next chunk where none waits: the sample, the samples
/// that wait, and the chunks that are left, each a left and a right channel.
pub open spec fn pull_score<T>(waiting: Seq<T>, chunks: Seq<(Vec<T>, Vec<T>)>) -> (
    Option<T>,
    Seq<T>,
    Seq<(Vec<T>, Vec<T>)>,
) {
    let (kept, action) = score_step(waiting, PlaybackEvent::Poll { seek: false });
    match action {
        PlaybackAction::Emit(sample) => (Some(sample), kept, chunks),
        _ => if chunks.len() == 0 {
            (None, score_step(kept, PlaybackEvent::<T>::Ended).0, chunks)
        } else {
            let (rest, answer) = score_step(
                kept,
                PlaybackEvent::Rendered(chunks[0].0, chunks[0].1),
            );
            match answer {
                PlaybackAction::Emit(sample) => (Some(sample), rest, chunks.drop_first()),
                _ => (None, rest, chunks.drop_first()),
            }
        },
    }
}

/// The samples of a score: those of its chunks one after the other.
pub open spec fn score_sound<T>(chunks: Seq<(Vec<T>, Vec<T>)>) -> Seq<T>
    decreases chunks.len(),
{
    if chunks.len() == 0 {
        Seq::empty()
    } else {
        interleaved(chunks[0].0@, chunks[0].1@) + score_sound(chunks.drop_first())
    }
}

/// Polling a score again and again, with no change of the position, yields the samples that wait and
/// then those of the chunks that are rendered, in order and each once, and then none.
pub proof fn a_score_is_played_in_order<T>(waiting: Seq<T>, chunks: Seq<(Vec<T>, Vec<T>)>)
    requires
        forall|i: int| 0 <= i < chunks.len() ==> (#[trigger] chunks[i]).0@.len() > 0,
    ensures
        ({
            let due = waiting + score_sound(chunks);
            let (sample, kept, rest) = pull_score(waiting, chunks);
            &&& due.len() == 0 ==> sample is None
            &&& due.len() > 0 ==> sample == Some(due[0]) && kept + score_sound(rest)
                == due.drop_first()
        }),
{
    let due = waiting + score_sound(chunks);
    if waiting.len() > 0 {
        assert(waiting.drop_first() + score_sound(chunks) =~= due.drop_first());
    } else if chunks.len() > 0 {
        let first = interleaved(chunks[0].0@, chunks[0].1@);
        assert(first.len() > 0);
        assert(due =~= score_sound(chunks));
        assert(first.drop_first() + score_sound(chunks.drop_first()) =~= due.drop_first());
    }
}

/// Where a sound font is looked for.
#[derive(Debug, Clone, Copy, PartialEq, Eq, Structural)]
pub enum SoundFontPlace {
    CurrentDirectory,
    BesideExecutable,
}

/// Chooses the sound font: the one in the current directory, or else the one beside the executable.
pub fn choose_soundfont(in_current_directory: bool, beside_executable: bool) -> (r: Option<
    SoundFontPlace,
>)
    ensures
        r == if in_current_directory {
            Some(SoundFontPlace::CurrentDirectory)
        } else if beside_executable {
            Some(SoundFontPlace::BesideExecutable)
        } else {
            None
        },
{
    if in_current_directory {
        Some(SoundFontPlace::CurrentDirectory)
    } else if beside_executable {
        Some(SoundFontPlace::BesideExecutable)
    } else {
        None
    }
}

/// A score that is played by a synthesizer, and the frames rendered last.
pub struct MidiSource<T> {
    pub left_buf: Vec<T>,
    pub right_buf: Vec<T>,
    pub buf_index: usize,
    pub sample_rate: u32,
    pub channels: u16,
}

impl<T: Copy> MidiSource<T> {
    /// Both channels hold as many samples, and all of them can be counted.
    pub open spec fn wf(&self) -> bool {
        &&& self.left_buf@.len() == self.right_buf@.len()
        &&& 2 * self.left_buf@.len() <= usize::MAX
        &&& self.buf_index <= 2 * self.left_buf@.len()
    }

    /// The samples rendered last.
    pub open spec fn chunk(&self) -> Seq<T> {
        interleaved(self.left_buf@, self.right_buf@)
    }

    /// The rendered samples that have not been handed out.
    pub open spec fn waiting(&self) -> Seq<T> {
        self.chunk().skip(self.buf_index as int)
    }

    /// A score of which nothing has been rendered: no sample waits, so that the first one that is
    /// wanted is rendered.
    pub fn new(silence: T) -> (r: Self)
        ensures
            r.wf(),
            r.left_buf@ == Seq::new(RENDERED_FRAMES as nat, |i: int| silence),
            r.right_buf@ == Seq::new(RENDERED_FRAMES as nat, |i: int| silence),
            r.buf_index == 2 * RENDERED_FRAMES,
            r.waiting() == Seq::<T>::empty(),
            r.sample_rate == DEFAULT_SAMPLE_RATE,
            r.channels == 2,
    {
        let mut left_buf: Vec<T> = Vec::new();
        let mut right_buf: Vec<T> = Vec::new();
        let mut k: usize = 0;
        while k < RENDERED_FRAMES
            invariant
                k <= RENDERED_FRAMES,
                left_buf@ == Seq::new(k as nat, |i: int| silence),
                right_buf@ == Seq::new(k as nat, |i: int| silence),
            decreases RENDERED_FRAMES - k,
        {
            left_buf.push(silence);
            right_buf.push(silence);
            k += 1;
            assert(left_buf@ =~= Seq::new(k as nat, |i: int| silence));
            assert(right_buf@ =~= Seq::new(k as nat, |i: int| silence));
        }
        MidiSource {
            left_buf,
            right_buf,
            buf_index: 2 * RENDERED_FRAMES,
            sample_rate: DEFAULT_SAMPLE_RATE,
            channels: 2,
        }
    }

    /// Hands out the next sample that waits.
    fn take_waiting(&mut self) -> (r: Option<T>)
        requires
            old(self).wf(),
        ensures
            final(self).wf(),
            final(self).chunk() == old(self).chunk(),
            final(self).left_buf == old(self).left_buf,
            final(self).right_buf == old(self).right_buf,
            final(self).sample_rate == old(self).sample_rate,
            final(self).channels == old(self).channels,
            old(self).waiting().len() == 0 ==> {
                &&& r is None
                &&& final(self).waiting() == old(self).waiting()
            },
            old(self).waiting().len() > 0 ==> {
                &&& r == Some(old(self).waiting()[0])
                &&& final(self).waiting() == old(self).waiting().drop_first()
            },
    {
        let ghost before = self.waiting();
        let at: usize = self.buf_index;
        if at < self.left_buf.len() * 2 {
            let sample: T = if at % 2 == 0 {
                self.left_buf[at / 2]
            } else {
                self.right_buf[at / 2]
            };
            self.buf_index = at + 1;
            assert(self.waiting() =~= before.drop_first());
            Some(sample)
        } else {
            None
        }
    }

    /// Answers an event. Frames are rendered as many at a time as were rendered last.
    pub fn next(&mut self, event: PlaybackEvent<T>) -> (action: PlaybackAction<T>)
        requires
            old(self).wf(),
            event matches PlaybackEvent::Rendered(left, right) ==> left@.len() == right@.len()
                == old(self).left_buf@.len(),
        ensures
            final(self).wf(),
            (final(self).waiting(), action) == score_step(old(self).waiting(), event),
            match event {
                PlaybackEvent::Rendered(left, right) => {
                    &&& final(self).left_buf == left
                    &&& final(self).right_buf == right
                },
                _ => {
                    &&& final(self).left_buf == old(self).left_buf
                    &&& final(self).right_buf == old(self).right_buf
                },
            },
            final(self).sample_rate == old(self).sample_rate,
            final(self).channels == old(self).channels,
    {
        match event {
            PlaybackEvent::Poll { seek } => {
                if seek {
                    self.buf_index = self.left_buf.len() * 2;
                }
                match self.take_waiting() {
                    Some(sample) => PlaybackAction::Emit(sample),
                    None => PlaybackAction::Render,
                }
            },
            PlaybackEvent::Rendered(left, right) => {
                self.left_buf = left;
                self.right_buf = right;
                self.buf_index = 0;
                assert(self.waiting() =~= interleaved(left@, right@));
                match self.take_waiting() {
                    Some(sample) => PlaybackAction::Emit(sample),
                    None => PlaybackAction::Finish,
                }
            },
            _ => PlaybackAction::Finish,
        }
    }

    /// The number of channels.
    pub fn channels(&self) -> (r: u16)
        ensures
            r == self.channels,
    {
        self.channels
    }

    /// The number of samples of a channel in a second.
    pub fn sample_rate(&self) -> (r: u32)
        ensures
            r == self.sample_rate,
    {
        self.sample_rate
    }

    /// How many samples come before the format changes: it never does.
    pub fn current_frame_len(&self) -> (r: Option<usize>)
        ensures
            r is None,
    {
        None
    }
}

/// A source of either kind.
pub enum DynamicSource<T> {
    Symphonia(SymphoniaSource<T>),
    Midi(MidiSource<T>),
}

impl<T: Copy> DynamicSource<T> {
    /// What the source needs of an event to answer it.
    pub open spec fn accepts(&self, event: PlaybackEvent<T>) -> bool {
        match self {
            DynamicSource::Symphonia(_) => true,
            DynamicSource::Midi(s) => {
                &&& s.wf()
                &&& event matches PlaybackEvent::Rendered(left, right) ==> left@.len()
                    == right@.len() == s.left_buf@.len()
            },
        }
    }

    /// Answers an event as the source of its kind does.
    pub fn next(&mut self, event: PlaybackEvent<T>) -> (action: PlaybackAction<T>)
        requires
            old(self).accepts(event),
        ensures
            match *old(self) {
                DynamicSource::Symphonia(s) => {
                    &&& *final(self) matches DynamicSource::Symphonia(t)
                    &&& (t.waiting(), action) == recording_step(s.waiting(), s.track_id, event)
                    &&& t.track_id == s.track_id
                    &&& t.sample_rate == s.sample_rate
                    &&& t.channels == s.channels
                },
                DynamicSource::Midi(s) => {
                    &&& *final(self) matches DynamicSource::Midi(t)
                    &&& t.wf()
                    &&& (t.waiting(), action) == score_step(s.waiting(), event)
                    &&& match event {
                        PlaybackEvent::Rendered(left, right) => {
                            &&& t.left_buf == left
                            &&& t.right_buf == right
                        },
                        _ => {
                            &&& t.left_buf == s.left_buf
                            &&& t.right_buf == s.right_buf
                        },
                    }
                    &&& t.sample_rate == s.sample_rate
                    &&& t.channels == s.channels
                },
            },
    {
        match self {
            DynamicSource::Symphonia(s) => s.next(event),
            DynamicSource::Midi(s) => s.next(event),
        }
    }

    /// The number of channels.
    pub fn channels(&self) -> (r: u16)
        ensures
            r == match *self {
                DynamicSource::Symphonia(s) => s.channels,
                DynamicSource::Midi(s) => s.channels,
            },
    {
        match self {
            DynamicSource::Symphonia(s) => s.channels(),
            DynamicSource::Midi(s) => s.channels(),
        }
    }

    /// The number of samples of a channel in a second.
    pub fn sample_rate(&self) -> (r: u32)
        ensures
            r == match *self {
                DynamicSource::Symphonia(s) => s.sample_rate,
                DynamicSource::Midi(s) => s.sample_rate,
            },
    {
        match self {
            DynamicSource::Symphonia(s) => s.sample_rate(),
            DynamicSource::Midi(s) => s.sample_rate(),
        }
    }

    /// How many samples come before the format changes: it never does.
    pub fn current_frame_len(&self) -> (r: Option<usize>)
        ensures
            r is None,
    {
        match self {
            DynamicSource::Symphonia(s) => s.current_frame_len(),
            DynamicSource::Midi(s) => s.current_frame_len(),
        }
    }
}

} // verus!
