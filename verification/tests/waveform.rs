use sample_library::waveform::{
    create_waveform_pixels, point_for, Packet, WaveformBuilder, WaveformStep,
};

fn drawn_by_floats(waveform: &[u8]) -> Vec<u8> {
    let mut pixels = vec![0u8; 800 * 100 * 4];
    for p in 0..800 * 100 {
        pixels[4 * p + 3] = 255;
    }
    if !waveform.is_empty() {
        let step = (waveform.len() as f32 / 800f32).max(1.0);
        for x in 0..800u32 {
            let idx = (x as f32 * step) as usize;
            if idx < waveform.len() {
                let h = (waveform[idx] as f32 / 255.0 * 100f32) as u32;
                let top = (100 - h) / 2;
                for y in top..top + h {
                    let p = (y * 800 + x) as usize * 4;
                    pixels[p + 1] = 180;
                    pixels[p + 2] = 255;
                }
            }
        }
    }
    pixels
}

#[test]
fn an_empty_waveform_is_drawn_black() {
    let (width, height, pixels) = create_waveform_pixels(&[]);
    assert_eq!((width, height), (800, 100));
    assert_eq!(pixels.len(), 800 * 100 * 4);
    for p in pixels.chunks(4) {
        assert_eq!(p, [0, 0, 0, 255]);
    }
}

#[test]
fn a_bar_stands_in_the_middle() {
    let (_, _, pixels) = create_waveform_pixels(&[51]);
    for y in 0..100 {
        for x in 0..800 {
            let lit = x == 0 && (40..60).contains(&y);
            let p = 4 * (800 * y + x);
            let expected = if lit { [0, 180, 255, 255] } else { [0, 0, 0, 255] };
            assert_eq!(&pixels[p..p + 4], &expected, "{x} {y}");
        }
    }
}

#[test]
fn every_level_is_drawn_as_high_as_by_floats() {
    let all: Vec<u8> = (0..=255).collect();
    assert_eq!(create_waveform_pixels(&all).2, drawn_by_floats(&all));
}

#[test]
fn long_waveforms_are_drawn_as_by_floats() {
    for len in [799usize, 800, 801, 1000, 1601, 4000, 4096, 7777, 65537] {
        let waveform: Vec<u8> = (0..len).map(|i| (i * 37 % 256) as u8).collect();
        assert!(create_waveform_pixels(&waveform).2 == drawn_by_floats(&waveform), "{len}");
    }
}

#[test]
fn the_point_of_a_column_is_that_of_floats() {
    for len in [1usize, 800, 801, 4000, 123_457, 16_777_217, 1 << 40, usize::MAX] {
        let step = (len as f32 / 800f32).max(1.0);
        for x in 0..800u32 {
            assert_eq!(point_for(len, x), (x as f32 * step) as u128, "{len} {x}");
        }
    }
}

fn encoded(samples: &[f32]) -> Vec<u32> {
    samples.iter().map(|s| s.to_bits()).collect()
}

#[test]
fn a_point_is_the_peak_of_two_hundred_samples() {
    let mut samples = vec![0.0f32; 200];
    samples[17] = -0.5;
    samples[99] = 0.25;
    samples.extend(vec![0.1f32; 199]);
    let mut builder = WaveformBuilder::new();
    assert_eq!(builder.on_packet(&Packet::Decoded(encoded(&samples))), WaveformStep::More);
    assert_eq!(builder.on_packet(&Packet::OtherTrack), WaveformStep::More);
    assert_eq!(builder.on_packet(&Packet::Damaged), WaveformStep::More);
    assert_eq!(builder.on_packet(&Packet::Decoded(encoded(&[2.0]))), WaveformStep::More);
    assert_eq!(builder.finish(), vec![127, 255]);
}

#[test]
fn levels_are_those_of_floats() {
    let samples = [
        0.0f32,
        -0.0,
        1e-45,
        1e-40,
        f32::MIN_POSITIVE,
        0.003,
        1.0 / 255.0,
        0.00392157,
        0.1,
        0.333_333_34,
        0.5,
        0.7,
        0.999_999_94,
        0.998,
        1.0,
        1.000_000_1,
        1.5,
        1e30,
        f32::MAX,
        f32::INFINITY,
        f32::NAN,
    ];
    for s in samples {
        for sign in [1.0f32, -1.0] {
            let mut stretch = vec![0.0f32; 199];
            stretch.push(s * sign);
            let mut builder = WaveformBuilder::new();
            builder.on_packet(&Packet::Decoded(encoded(&stretch)));
            let peak = 0.0f32.max((s * sign).abs());
            assert_eq!(builder.finish(), vec![(peak * 255.0) as u8], "{s}");
        }
    }
}

#[test]
fn a_waveform_ends_when_it_is_long_enough() {
    let mut builder = WaveformBuilder::new();
    let packet = Packet::Decoded(encoded(&vec![1.0; 200 * 3999 + 199]));
    assert_eq!(builder.on_packet(&packet), WaveformStep::More);
    assert_eq!(builder.on_packet(&Packet::Decoded(encoded(&[0.0]))), WaveformStep::Enough);
    let waveform = builder.finish();
    assert_eq!(waveform.len(), 4000);
    assert!(waveform.iter().all(|p| *p == 255));
}

#[test]
fn a_final_failure_gives_the_waveform_up() {
    let mut builder = WaveformBuilder::new();
    assert_eq!(builder.on_packet(&Packet::Failed), WaveformStep::Abort);
}

#[test]
fn a_short_waveform_is_that_of_the_whole_track() {
    let packets = [
        Packet::Decoded(encoded(&vec![0.2; 150])),
        Packet::OtherTrack,
        Packet::Decoded(encoded(&vec![0.4; 100])),
        Packet::Damaged,
        Packet::Decoded(encoded(&vec![0.6; 150])),
    ];
    let mut builder = WaveformBuilder::new();
    for packet in &packets {
        assert_eq!(builder.on_packet(packet), WaveformStep::More);
    }
    assert_eq!(builder.finish(), vec![(0.4f32 * 255.0) as u8, (0.6f32 * 255.0) as u8]);
}
