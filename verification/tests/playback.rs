use sample_library::audio::{
    choose_soundfont, DynamicSource, MidiSource, PlaybackAction, PlaybackEvent, SoundFontPlace,
    SymphoniaSource,
};

enum Decoded {
    Samples(Vec<f32>),
    Damaged,
    Failed,
}

struct Reader {
    packets: Vec<(u32, Decoded)>,
    at: usize,
}

impl Reader {
    fn new(packets: Vec<(u32, Decoded)>) -> Self {
        Reader { packets, at: 0 }
    }

    fn pull(&mut self, source: &mut SymphoniaSource<f32>, seek: bool) -> Option<f32> {
        let mut event = PlaybackEvent::Poll { seek };
        loop {
            event = match source.next(event) {
                PlaybackAction::Emit(sample) => return Some(sample),
                PlaybackAction::Finish => return None,
                PlaybackAction::ReadPacket => match self.packets.get(self.at) {
                    Some((track_id, _)) => {
                        self.at += 1;
                        PlaybackEvent::Packet { track_id: *track_id }
                    }
                    None => PlaybackEvent::Ended,
                },
                PlaybackAction::Decode => match &self.packets[self.at - 1].1 {
                    Decoded::Samples(samples) => PlaybackEvent::Decoded(samples.clone()),
                    Decoded::Damaged => PlaybackEvent::Damaged,
                    Decoded::Failed => PlaybackEvent::Failed,
                },
                PlaybackAction::Render => unreachable!(),
            };
        }
    }
}

#[test]
fn a_recording_yields_the_samples_of_its_track() {
    let mut reader = Reader::new(vec![
        (1, Decoded::Samples(vec![0.1, 0.2])),
        (2, Decoded::Samples(vec![9.0])),
        (1, Decoded::Damaged),
        (1, Decoded::Samples(vec![0.3])),
    ]);
    let mut source = SymphoniaSource::new(1, Some(48000), Some(1));
    let mut heard = Vec::new();
    while let Some(sample) = reader.pull(&mut source, false) {
        heard.push(sample);
    }
    assert_eq!(heard, vec![0.1, 0.2, 0.3]);
    assert_eq!(reader.pull(&mut source, false), None);
}

#[test]
fn a_final_failure_or_an_empty_packet_yields_no_sample() {
    let mut reader = Reader::new(vec![
        (1, Decoded::Failed),
        (1, Decoded::Samples(vec![])),
        (1, Decoded::Samples(vec![0.5])),
    ]);
    let mut source = SymphoniaSource::new(1, None, None);
    assert_eq!(reader.pull(&mut source, false), None);
    assert_eq!(reader.pull(&mut source, false), None);
    assert_eq!(reader.pull(&mut source, false), Some(0.5));
}

#[test]
fn a_change_of_the_position_drops_decoded_samples() {
    let mut reader = Reader::new(vec![
        (1, Decoded::Samples(vec![0.1, 0.2, 0.3])),
        (1, Decoded::Samples(vec![0.7, 0.8])),
    ]);
    let mut source = SymphoniaSource::new(1, None, None);
    assert_eq!(reader.pull(&mut source, false), Some(0.1));
    assert_eq!(reader.pull(&mut source, true), Some(0.7));
    assert_eq!(reader.pull(&mut source, false), Some(0.8));
}

#[test]
fn a_recording_that_does_not_say_is_taken_to_be_stereo() {
    let source: SymphoniaSource<f32> = SymphoniaSource::new(1, None, None);
    assert_eq!((source.sample_rate(), source.channels()), (44100, 2));
    assert_eq!(source.current_frame_len(), None);
    let source: SymphoniaSource<f32> = SymphoniaSource::new(1, Some(96000), Some(6));
    assert_eq!((source.sample_rate(), source.channels()), (96000, 6));
}

fn poll(source: &mut DynamicSource<f32>) -> Option<f32> {
    match source.next(PlaybackEvent::Poll { seek: false }) {
        PlaybackAction::Emit(sample) => Some(sample),
        PlaybackAction::Render => None,
        _ => unreachable!(),
    }
}

#[test]
fn the_first_sample_of_a_score_is_rendered() {
    let mut source = DynamicSource::Midi(MidiSource::new(0.0f32));
    let action = source.next(PlaybackEvent::Poll { seek: false });
    assert!(matches!(action, PlaybackAction::Render));
    let mut left = vec![0.0f32; 512];
    left[0] = 0.75;
    let action = source.next(PlaybackEvent::Rendered(left, vec![0.5; 512]));
    assert!(matches!(action, PlaybackAction::Emit(s) if s == 0.75));
    assert_eq!(poll(&mut source), Some(0.5));
}

#[test]
fn rendered_frames_leave_left_first() {
    let mut source = DynamicSource::Midi(MidiSource::new(0.0f32));
    let left: Vec<f32> = (0..512).map(|i| i as f32).collect();
    let right: Vec<f32> = (0..512).map(|i| -(i as f32)).collect();
    let first = source.next(PlaybackEvent::Rendered(left.clone(), right.clone()));
    assert!(matches!(first, PlaybackAction::Emit(s) if s == 0.0));
    for i in 0..512 {
        if i > 0 {
            assert_eq!(poll(&mut source), Some(left[i]));
        }
        assert_eq!(poll(&mut source), Some(right[i]));
    }
    assert_eq!(poll(&mut source), None);
    assert!(matches!(source.next(PlaybackEvent::Ended), PlaybackAction::Finish));
}

#[test]
fn a_change_of_the_position_renders_a_score_anew() {
    let mut source = DynamicSource::Midi(MidiSource::new(0.0f32));
    let action = source.next(PlaybackEvent::Rendered(vec![1.0; 512], vec![2.0; 512]));
    assert!(matches!(action, PlaybackAction::Emit(s) if s == 1.0));
    let action = source.next(PlaybackEvent::Poll { seek: true });
    assert!(matches!(action, PlaybackAction::Render));
    let action = source.next(PlaybackEvent::Rendered(vec![3.0; 512], vec![4.0; 512]));
    assert!(matches!(action, PlaybackAction::Emit(s) if s == 3.0));
    for _ in 0..511 {
        assert_eq!(poll(&mut source), Some(4.0));
        assert_eq!(poll(&mut source), Some(3.0));
    }
    assert_eq!(poll(&mut source), Some(4.0));
    assert_eq!(poll(&mut source), None);
}

#[test]
fn a_source_of_either_kind_tells_its_format() {
    let midi: DynamicSource<f32> = DynamicSource::Midi(MidiSource::new(0.0));
    assert_eq!((midi.channels(), midi.sample_rate(), midi.current_frame_len()), (2, 44100, None));
    let wav: DynamicSource<f32> =
        DynamicSource::Symphonia(SymphoniaSource::new(3, Some(8000), Some(1)));
    assert_eq!((wav.channels(), wav.sample_rate(), wav.current_frame_len()), (1, 8000, None));
}

#[test]
fn the_sound_font_in_the_current_directory_comes_first() {
    assert_eq!(choose_soundfont(true, true), Some(SoundFontPlace::CurrentDirectory));
    assert_eq!(choose_soundfont(true, false), Some(SoundFontPlace::CurrentDirectory));
    assert_eq!(choose_soundfont(false, true), Some(SoundFontPlace::BesideExecutable));
    assert_eq!(choose_soundfont(false, false), None);
}
