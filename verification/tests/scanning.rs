use sample_library::database::{MetadataIndex, TrackData};
use sample_library::scanner::{
    is_audio, source_kind, source_kind_of, Candidate, CodecParams, Scanner, SourceKind, Tag,
    TagKind, BATCH_SIZE,
};

fn index(rows: &[(&str, i64, i64)]) -> MetadataIndex {
    MetadataIndex::from_rows(rows.iter().map(|r| (r.0.to_string(), (r.1, r.2))).collect())
}

fn analysed(path: &str) -> TrackData {
    Scanner::analyze_midi(path, 1, 2, 0)
}

#[test]
fn audio_files_are_known_by_their_extension() {
    for path in ["a.wav", "/x/A.WAV", "b.Mp3", "c.flac", "d.aif", "e.AIFF", "f.m4a", "g.ogg"] {
        assert!(Scanner::is_audio_file(path), "{path}");
    }
    for path in ["h.wma", "i.mid", "j.MIDI", "k.aac", "l.tar.wav"] {
        assert!(Scanner::is_audio_file(path), "{path}");
    }
    for path in ["a.txt", "wav", ".wav", "/x/.a.wav", "a.wav/..", "a", "", "/", "a.wavx", "a."] {
        assert!(!Scanner::is_audio_file(path), "{path}");
    }
    assert!(is_audio("a.WAV", "wav"));
    assert!(!is_audio("a.WAV", "WAV"));
    assert!(!is_audio(".a.wav", "wav"));
}

#[test]
fn scores_are_told_from_recordings() {
    assert_eq!(source_kind("mid"), SourceKind::Midi);
    assert_eq!(source_kind("midi"), SourceKind::Midi);
    assert_eq!(source_kind("MID"), SourceKind::Recording);
    assert_eq!(source_kind_of("/x/song.MID"), SourceKind::Midi);
    assert_eq!(source_kind_of("/x/song.Midi"), SourceKind::Midi);
    assert_eq!(source_kind_of("/x/song.wav"), SourceKind::Recording);
    assert_eq!(source_kind_of("/x/song"), SourceKind::Recording);
}

#[test]
fn new_and_changed_files_are_selected() {
    let known = index(&[("/a.wav", 10, 100), ("/b.wav", 20, 200)]);
    let entry = Scanner::select(&known, &Candidate::at_path("/c.WAV", true, Some(5), 7)).unwrap();
    assert_eq!((entry.path.as_str(), entry.mtime, entry.size), ("/c.WAV", 5, 7));
    assert!(Scanner::select(&known, &Candidate::at_path("/a.wav", true, Some(10), 100)).is_none());
    let newer = Scanner::select(&known, &Candidate::at_path("/a.wav", true, Some(11), 100)).unwrap();
    assert_eq!((newer.mtime, newer.size), (11, 100));
    let longer = Scanner::select(&known, &Candidate::at_path("/a.wav", true, Some(10), 101)).unwrap();
    assert_eq!((longer.mtime, longer.size), (10, 101));
    assert!(Scanner::select(&known, &Candidate::at_path("/c.wav", true, None, 7)).is_none());
    assert!(Scanner::select(&known, &Candidate::at_path("/c.wav", false, Some(5), 7)).is_none());
    assert!(Scanner::select(&known, &Candidate::at_path("/c.txt", true, Some(5), 7)).is_none());
    let far = Scanner::select(&known, &Candidate::at_path("/d.wav", true, Some(u64::MAX), 7));
    assert_eq!(far.unwrap().mtime, -1);
}

#[test]
fn catalogued_files_are_left_alone() {
    let file = Candidate::at_path("/c.wav", true, Some(5), 7);
    let entry = Scanner::select(&index(&[("/c.wav", 4, 7)]), &file).unwrap();
    let row = (entry.path.as_str(), entry.mtime, entry.size);
    assert!(Scanner::select(&index(&[("/c.wav", 4, 7), row]), &file).is_none());
}

#[test]
fn of_two_rows_the_later_counts() {
    let known = index(&[("/a.wav", 1, 2), ("/a.wav", 3, 4)]);
    assert_eq!(known.get("/a.wav"), Some((3, 4)));
    assert_eq!(known.get("/b.wav"), None);
}

#[test]
fn an_index_answers_for_each_row() {
    let rows = [("/a.wav", 1, 2), ("/b.wav", 3, 4), ("/A.wav", 5, 6)];
    let known = index(&rows);
    for (path, mtime, size) in rows {
        assert_eq!(known.get(path), Some((mtime, size)));
    }
    assert_eq!(known.get("/c.wav"), None);
    assert_eq!(known.get(""), None);
}

#[test]
fn the_first_report_comes_before_the_search() {
    let p = Scanner::looking();
    assert_eq!((p.total, p.current), (0, 0));
    assert_eq!(p.path, "Indexing directory files...");
    assert_eq!(p.stage, "Scanning");
}

#[test]
fn a_scan_without_files_is_done_at_once() {
    let p = Scanner::new(0).nothing_to_do().unwrap();
    assert_eq!((p.total, p.current), (0, 0));
    assert_eq!(p.path, "All files up to date");
    assert_eq!(p.stage, "Scanning");
    assert!(Scanner::new(1).nothing_to_do().is_none());
}

#[test]
fn batches_of_fifty_are_saved_and_no_record_is_lost() {
    let total = 130;
    let mut scan = Scanner::new(total);
    let mut saved: Vec<String> = Vec::new();
    let mut batches = Vec::new();
    let mut expected = Vec::new();
    for i in 0..total {
        let result = if i % 10 == 3 { None } else { Some(analysed(&format!("/{i}.mid"))) };
        if let Some(d) = &result {
            expected.push(d.path.clone());
        }
        if scan.record(result) {
            let batch = scan.take_batch();
            batches.push(batch.len());
            saved.extend(batch.into_iter().map(|d| d.path));
        }
        assert!(scan.batch.len() < BATCH_SIZE);
        assert_eq!(scan.is_finished(), i + 1 == total);
    }
    assert_eq!(batches, vec![50, 50]);
    assert_eq!(scan.batch.len(), 17);
    saved.extend(scan.last_batch().unwrap().into_iter().map(|d| d.path));
    assert_eq!(saved, expected);
    assert!(scan.batch.is_empty());
    assert!(scan.last_batch().is_none());
    assert_eq!((scan.total, scan.current), (total, total));
}

#[test]
fn a_full_last_batch_leaves_nothing_behind() {
    let mut scan = Scanner::new(50);
    for i in 0..50 {
        assert_eq!(scan.record(Some(analysed("/x.mid"))), i == 49);
    }
    assert_eq!(scan.take_batch().len(), 50);
    assert!(scan.last_batch().is_none());
}

#[test]
fn a_single_record_is_handed_over_at_the_end() {
    let mut scan = Scanner::new(2);
    assert!(!scan.record(Some(analysed("/only.mid"))));
    assert!(!scan.record(None));
    let last = scan.last_batch().unwrap();
    assert_eq!(last.len(), 1);
    assert_eq!(last[0].path, "/only.mid");
}

#[test]
fn reports_rise_to_the_total() {
    let elapsed = [0u128, 150, 20, 100, 99, 5];
    let mut scan = Scanner::new(elapsed.len());
    let mut made = Vec::new();
    for (i, ms) in elapsed.iter().enumerate() {
        let result = if i == 1 { None } else { Some(analysed(&format!("/{i}.mid"))) };
        scan.record(result);
        if let Some(p) = scan.progress(*ms) {
            made.push((p.total, p.current, p.path));
        }
    }
    let expected = [(6, 2, "Error"), (6, 4, "/3.mid"), (6, 6, "/5.mid")];
    assert_eq!(made, expected.map(|(t, c, p)| (t, c, p.to_string())));
}

#[test]
fn a_batch_that_cannot_be_saved_waits() {
    let mut scan = Scanner::new(60);
    for i in 0..50 {
        assert_eq!(scan.record(Some(analysed("/x.mid"))), i == 49);
    }
    assert!(!scan.record(None));
    assert!(scan.record(Some(analysed("/y.mid"))));
    assert_eq!(scan.take_batch().len(), 51);
}

#[test]
fn progress_is_reported_every_tenth_of_a_second_and_at_the_end() {
    let mut scan = Scanner::new(2);
    scan.record(Some(analysed("/x.mid")));
    assert!(scan.progress(99).is_none());
    let p = scan.progress(100).unwrap();
    assert_eq!((p.total, p.current, p.path.as_str(), p.stage.as_str()), (2, 1, "/x.mid", "Analyzing"));
    scan.record(None);
    let p = scan.progress(0).unwrap();
    assert_eq!((p.total, p.current, p.path.as_str(), p.stage.as_str()), (2, 2, "Error", "Analyzing"));
}

#[test]
fn a_score_sounds_as_the_synthesizer_renders_it() {
    let d = Scanner::analyze_midi("/s.mid", 3, 4, 2.5f64.to_bits());
    assert_eq!((d.path.as_str(), d.mtime, d.size), ("/s.mid", 3, 4));
    assert_eq!(f64::from_bits(d.duration), 2.5);
    assert_eq!((d.sample_rate, d.bit_depth, d.channels), (Some(44100), Some(16), Some(2)));
    assert_eq!((d.title, d.artist, d.album, d.genre, d.comment), (None, None, None, None, None));
    assert_eq!(d.waveform, Some(Vec::new()));
}

fn tag(kind: TagKind, value: &str) -> Tag {
    Tag { kind, value: value.to_string() }
}

#[test]
fn of_several_tags_of_a_kind_the_last_counts() {
    let tags = vec![
        tag(TagKind::TrackTitle, "first"),
        tag(TagKind::Artist, "artist"),
        tag(TagKind::Album, "album"),
        tag(TagKind::Other, "other"),
        tag(TagKind::TrackTitle, "second"),
        tag(TagKind::Genre, "genre"),
        tag(TagKind::Comment, "comment"),
    ];
    let params = CodecParams {
        n_frames: Some(66150),
        sample_rate: None,
        bits_per_sample: Some(24),
        channels: Some(6),
    };
    let d = Scanner::analyze_file("/r.wav", 3, 4, tags, params, vec![1, 2]);
    assert_eq!((d.path.as_str(), d.mtime, d.size), ("/r.wav", 3, 4));
    assert_eq!(d.title.as_deref(), Some("second"));
    assert_eq!(d.artist.as_deref(), Some("artist"));
    assert_eq!(d.album.as_deref(), Some("album"));
    assert_eq!(d.genre.as_deref(), Some("genre"));
    assert_eq!(d.comment.as_deref(), Some("comment"));
    assert_eq!(f64::from_bits(d.duration), 1.5);
    assert_eq!((d.sample_rate, d.bit_depth, d.channels), (None, Some(24), Some(6)));
    assert_eq!(d.waveform, Some(vec![1, 2]));
}

#[test]
fn a_recording_of_unknown_length_lasts_no_time() {
    let params = CodecParams {
        n_frames: None,
        sample_rate: Some(48000),
        bits_per_sample: None,
        channels: None,
    };
    let d = Scanner::analyze_file("/r.wav", 3, 4, Vec::new(), params, Vec::new());
    assert_eq!(f64::from_bits(d.duration), 0.0);
    assert_eq!((d.sample_rate, d.bit_depth, d.channels), (Some(48000), None, None));
    assert_eq!(d.title, None);
}
