use sample_library::database::Track;
use sample_library::folders::{
    collect_folders, extract_folders_hierarchical, list_folders, visible, ExpandedFolders,
    FolderItem,
};
use sample_library::listing::{
    column_orders, finds, get_filtered_tracks, list_tracks, lowered_of, map_track, sort_key_of, track_row,
    try_filtered_tracks, wanted_tracks, Lowered, TrackRow,
};
use sample_library::session::{file_manager_target, UiState};
use sample_library::stamp::{time_text, EARLIEST, LATEST};
use chrono::{Local, TimeZone};

fn track(path: &str) -> Track {
    Track {
        id: 1,
        path: path.to_string(),
        mtime: 1_700_000_000,
        title: None,
        artist: None,
        album: None,
        genre: None,
        duration: 0,
        sample_rate: None,
        bit_depth: None,
        channels: None,
        comment: None,
        waveform: None,
    }
}

fn tracks(list: &[&str]) -> Vec<Track> {
    list.iter().map(|p| track(p)).collect()
}

fn expanded(list: &[&str]) -> ExpandedFolders {
    let mut set = ExpandedFolders::new();
    for p in list {
        set.toggle(p);
    }
    set
}

fn shown_paths(items: &[FolderItem]) -> Vec<&str> {
    items.iter().map(|i| i.path.as_str()).collect()
}

fn row_paths(rows: &[TrackRow]) -> Vec<&str> {
    rows.iter().map(|r| r.path.as_str()).collect()
}

#[test]
fn folders_are_collected_once() {
    let all = tracks(&["/a/b/x.wav", "/a/b/y.wav", "/a/c/z.wav", "/a//b/w.wav", "v.wav", "/u.wav"]);
    assert_eq!(collect_folders(&all), vec!["/a/b", "/a", "/a/c"]);
}

#[test]
fn nothing_expanded_shows_the_outermost_folders() {
    let all = tracks(&["/b/x/1.wav", "/A/y/z/2.wav", "rel/3.wav", "/4.wav", "5.wav"]);
    let items = extract_folders_hierarchical(&all, &ExpandedFolders::new());
    assert_eq!(shown_paths(&items), vec!["/A", "/b", "rel"]);
    assert_eq!(items[0].name, "A");
    assert_eq!((items[0].indent, items[0].has_children, items[0].is_expanded), (15, true, false));
    assert_eq!((items[2].indent, items[2].has_children), (0, false));
}

#[test]
fn expanded_folders_show_what_they_hold() {
    let all = tracks(&["/a/b/c/x.wav", "/a/d/y.wav", "/e/z.wav"]);
    let items = extract_folders_hierarchical(&all, &expanded(&["/a"]));
    assert_eq!(shown_paths(&items), vec!["/a", "/a/b", "/a/d", "/e"]);
    let indents: Vec<u128> = items.iter().map(|i| i.indent).collect();
    assert_eq!(indents, vec![15, 30, 30, 15]);
    let children: Vec<bool> = items.iter().map(|i| i.has_children).collect();
    assert_eq!(children, vec![true, true, false, false]);
    let open: Vec<bool> = items.iter().map(|i| i.is_expanded).collect();
    assert_eq!(open, vec![true, false, false, false]);
    let deeper = extract_folders_hierarchical(&all, &expanded(&["/a", "/a/b"]));
    assert_eq!(shown_paths(&deeper), vec!["/a", "/a/b", "/a/b/c", "/a/d", "/e"]);
    let hidden = extract_folders_hierarchical(&all, &expanded(&["/a/b"]));
    assert_eq!(shown_paths(&hidden), vec!["/a", "/e"]);
}

#[test]
fn folders_are_ordered_by_lowercase_paths() {
    let all = tracks(&["/b/1.wav", "/C/2.wav", "/a/3.wav", "/É/4.wav"]);
    let items = extract_folders_hierarchical(&all, &ExpandedFolders::new());
    assert_eq!(shown_paths(&items), vec!["/a", "/b", "/C", "/É"]);
}

#[test]
fn given_lowercase_forms_decide_the_order() {
    let folders = vec!["/x".to_string(), "/y".to_string()];
    let lowered = vec!["2".to_string(), "1".to_string()];
    let items = list_folders(&folders, &lowered, &ExpandedFolders::new());
    assert_eq!(shown_paths(&items), vec!["/y", "/x"]);
}

#[test]
fn a_folder_is_visible_if_all_that_hold_it_are_expanded() {
    let open = expanded(&["/a", "/a/b"]);
    assert!(visible("/a", &open));
    assert!(visible("/a/b", &open));
    assert!(visible("/a/b/c", &open));
    assert!(!visible("/a/b/c/d", &open));
    assert!(!visible("/a/b", &expanded(&["/a/b"])));
    assert!(visible("/a", &ExpandedFolders::new()));
}

#[test]
fn toggling_twice_restores_a_folder() {
    let mut open = expanded(&["/a"]);
    assert!(open.contains("/a") && !open.contains("/b"));
    open.toggle("/b");
    assert!(open.contains("/b"));
    open.toggle("/b");
    assert!(open.contains("/a") && !open.contains("/b"));
    open.toggle("/a");
    assert!(!open.contains("/a"));
}

#[test]
fn a_row_shows_a_track() {
    let mut t = track("/x/Kick.wav");
    t.id = 7;
    t.title = Some("Kick".to_string());
    t.album = Some("Kit".to_string());
    t.duration = 1.5f64.to_bits();
    t.sample_rate = Some(44100);
    t.channels = Some(2);
    let row = track_row(&t, "then".to_string());
    assert_eq!((row.id, row.path.as_str(), row.filename.as_str()), (7, "/x/Kick.wav", "Kick.wav"));
    assert_eq!((row.title.as_str(), row.artist.as_str(), row.album.as_str()), ("Kick", "", "Kit"));
    assert_eq!(f64::from_bits(row.duration), 1.5);
    assert_eq!((row.sample_rate.as_str(), row.bit_depth.as_str()), ("44100Hz", "-"));
    assert_eq!((row.channels.as_str(), row.mtime.as_str()), ("2ch", "then"));
    t.bit_depth = Some(24);
    t.sample_rate = None;
    t.id = (1 << 32) + 5;
    t.path = "..".to_string();
    let row = track_row(&t, String::new());
    assert_eq!((row.sample_rate.as_str(), row.bit_depth.as_str()), ("-", "24bit"));
    assert_eq!((row.id, row.filename.as_str()), (5, ".."));
}

#[test]
fn times_are_shown_in_the_local_zone() {
    for secs in [0i64, 1_700_000_000, 253_402_214_399, -62_167_132_800, -1] {
        let expected = Local.timestamp_opt(secs, 0).unwrap().format("%Y-%m-%d %H:%M").to_string();
        assert_eq!(expected.len(), 16);
        assert_eq!(time_text(secs), Some(expected.clone()));
        let mut t = track("/a.wav");
        t.mtime = secs;
        assert_eq!(map_track(&t).mtime, expected);
    }
    assert!(time_text(EARLIEST).is_some() && time_text(LATEST).is_some());
    assert!(time_text(EARLIEST - 1).is_none() && time_text(LATEST + 1).is_none());
    assert!(time_text(i64::MIN).is_none() && time_text(i64::MAX).is_none());
}

fn is_leap(y: i64) -> bool {
    y % 4 == 0 && (y % 100 != 0 || y % 400 == 0)
}

fn by_the_calendar(local: i64) -> String {
    let (mut days, secs) = (local.div_euclid(86400), local.rem_euclid(86400));
    let mut year = 1970;
    while days < 0 {
        year -= 1;
        days += if is_leap(year) { 366 } else { 365 };
    }
    while days >= if is_leap(year) { 366 } else { 365 } {
        days -= if is_leap(year) { 366 } else { 365 };
        year += 1;
    }
    let february = if is_leap(year) { 29 } else { 28 };
    let lengths = [31, february, 31, 30, 31, 30, 31, 31, 30, 31, 30, 31];
    let mut month = 0;
    while days >= lengths[month] {
        days -= lengths[month];
        month += 1;
    }
    let sign = if year < 0 {
        "-"
    } else if year > 9999 {
        "+"
    } else {
        ""
    };
    let (hour, minute) = (secs / 3600, secs / 60 % 60);
    format!("{sign}{:04}-{:02}-{:02} {hour:02}:{minute:02}", year.abs(), month + 1, days + 1)
}

#[test]
fn times_are_shown_by_the_calendar() {
    assert_eq!(by_the_calendar(951_827_696), "2000-02-29 12:34");
    let mut samples = vec![EARLIEST, LATEST, -62_167_219_200, 253_402_300_800, 0, 4_107_542_399];
    samples.extend((0..400).map(|i| i * 86_400 * 97 + i * 3_601));
    samples.extend((0..400).map(|i| -i * 86_400 * 146_097 - i * 59));
    for secs in samples {
        let time = Local.timestamp_opt(secs, 0).unwrap();
        let local = secs + i64::from(time.offset().local_minus_utc());
        assert_eq!(time_text(secs), Some(by_the_calendar(local)), "{secs}");
    }
}

#[test]
fn lowercase_is_parted_by_slashes() {
    for path in ["/ΟΔΟΣ/ΣΑΣ.WAV", "ΑΣ/ΒΣ", "ΑΣ/", "/Σ", "İ/ß", "A//B", "/", "ΑΣ'/ΒΣ'", "A.Σ/.Σ"] {
        let pieces: Vec<String> = path.split('/').map(|p| p.to_lowercase()).collect();
        assert_eq!(lowered_of(&track(path)).path, pieces.join("/"), "{path}");
    }
    assert_eq!(lowered_of(&track("/ΟΔΟΣ/x.WAV")).path, "/οδος/x.wav");
    assert_eq!(lowered_of(&track("")).path, "");
}

#[test]
fn queries_find_paths_names_and_titles_without_regard_to_case() {
    let mut all = tracks(&["/Drums/Kick.wav", "/drums/snare.wav", "/bass/low.wav"]);
    all[2].title = Some("KICKing Bass".to_string());
    let found = |query: &str| {
        let rows = get_filtered_tracks(&all, "", query, "none", true);
        row_paths(&rows).iter().map(|p| p.to_string()).collect::<Vec<_>>()
    };
    assert_eq!(found("kick"), vec!["/Drums/Kick.wav", "/bass/low.wav"]);
    assert_eq!(found("DRUMS"), vec!["/Drums/Kick.wav", "/drums/snare.wav"]);
    assert_eq!(found("s/l"), vec!["/bass/low.wav"]);
    assert_eq!(found("").len(), 3);
    assert!(found("piano").is_empty());
}

#[test]
fn folders_select_by_the_beginning_of_the_path() {
    let all = tracks(&["/a/x.wav", "/ab/y.wav", "/A/z.wav", "/b/a/w.wav"]);
    let rows = get_filtered_tracks(&all, "/a", "", "", true);
    assert_eq!(row_paths(&rows), vec!["/a/x.wav", "/ab/y.wav"]);
    let rows = get_filtered_tracks(&all, "/a/", "", "", true);
    assert_eq!(row_paths(&rows), vec!["/a/x.wav"]);
    let rows = get_filtered_tracks(&all, "/a", "y", "", true);
    assert_eq!(row_paths(&rows), vec!["/ab/y.wav"]);
}

fn mixed() -> Vec<Track> {
    let mut all = tracks(&["/2/b.wav", "/1/C.wav", "/3/a.wav", "/0/B.wav", "/9/.."]);
    let durations = [2.0f64, -0.0, 0.0, 10.5, 0.1];
    for (t, d) in all.iter_mut().zip(durations) {
        t.duration = d.to_bits();
    }
    all[0].bit_depth = Some(24);
    all[3].bit_depth = Some(16);
    all[1].sample_rate = Some(48000);
    all[2].sample_rate = Some(44100);
    all[4].channels = Some(1);
    all[2].channels = Some(2);
    for (i, t) in all.iter_mut().enumerate() {
        t.mtime = [5, 3, 3, 9, 1][i];
    }
    all
}

fn sorted_by(column: &str, ascending: bool) -> Vec<String> {
    let rows = get_filtered_tracks(&mixed(), "", "", column, ascending);
    rows.iter().map(|r| r.path[..2].to_string()).collect()
}

#[test]
fn every_column_orders_both_ways() {
    assert_eq!(sorted_by("name", true), vec!["/9", "/3", "/2", "/0", "/1"]);
    assert_eq!(sorted_by("name", false), vec!["/1", "/2", "/0", "/3", "/9"]);
    assert_eq!(sorted_by("duration", true), vec!["/1", "/3", "/9", "/2", "/0"]);
    assert_eq!(sorted_by("duration", false), vec!["/0", "/2", "/9", "/1", "/3"]);
    assert_eq!(sorted_by("bit_depth", true), vec!["/1", "/3", "/9", "/0", "/2"]);
    assert_eq!(sorted_by("bit_depth", false), vec!["/2", "/0", "/1", "/3", "/9"]);
    assert_eq!(sorted_by("sample_rate", true), vec!["/2", "/0", "/9", "/3", "/1"]);
    assert_eq!(sorted_by("channels", false), vec!["/3", "/9", "/2", "/1", "/0"]);
    assert_eq!(sorted_by("mtime", true), vec!["/9", "/1", "/3", "/2", "/0"]);
    assert_eq!(sorted_by("mtime", false), vec!["/0", "/2", "/1", "/3", "/9"]);
    assert_eq!(sorted_by("path", true), vec!["/2", "/1", "/3", "/0", "/9"]);
    assert_eq!(sorted_by("path", false), vec!["/2", "/1", "/3", "/0", "/9"]);
}

#[test]
fn without_equal_keys_the_other_direction_is_backwards() {
    let all = tracks(&["/b.wav", "/a.wav", "/c.wav"]);
    let up = get_filtered_tracks(&all, "", "", "name", true);
    let down = get_filtered_tracks(&all, "", "", "name", false);
    let mut backwards = row_paths(&down);
    backwards.reverse();
    assert_eq!(row_paths(&up), backwards);
}

#[test]
fn tracks_that_cannot_be_shown_are_told() {
    let mut all = tracks(&["/a/x.wav", "/b/y.wav"]);
    all[1].mtime = i64::MAX;
    assert!(try_filtered_tracks(&all, "", "", "name", true).is_none());
    assert_eq!(try_filtered_tracks(&all, "/a", "", "name", true).unwrap().len(), 1);
    all[1].mtime = 0;
    assert_eq!(try_filtered_tracks(&all, "", "", "name", true).unwrap().len(), 2);
}

#[test]
fn durations_that_are_no_numbers_do_not_order() {
    let mut all = tracks(&["/c.wav", "/a.wav", "/b.wav"]);
    for t in all.iter_mut() {
        t.duration = f64::NAN.to_bits();
    }
    let in_place = vec!["/c.wav", "/a.wav", "/b.wav"];
    for ascending in [true, false] {
        let rows = get_filtered_tracks(&all, "", "", "duration", ascending);
        assert_eq!(row_paths(&rows), in_place);
    }
    all[1].duration = 5.0f64.to_bits();
    for ascending in [true, false] {
        let rows = get_filtered_tracks(&all, "", "", "duration", ascending);
        assert_eq!(row_paths(&rows), in_place);
    }
    let rows = get_filtered_tracks(&all, "", "", "name", true);
    assert_eq!(row_paths(&rows), vec!["/a.wav", "/b.wav", "/c.wav"]);
    all[0].duration = 7.0f64.to_bits();
    all[2].path = "/other/b.wav".to_string();
    let rows = try_filtered_tracks(&all, "", "wav", "duration", true).unwrap();
    assert_eq!(row_paths(&rows), vec!["/c.wav", "/a.wav", "/other/b.wav"]);
    assert!(!column_orders(&all, &vec![0, 1, 2], "duration"));
    assert!(column_orders(&all, &vec![0, 1], "duration"));
    assert!(column_orders(&all, &vec![0, 1, 2], "mtime"));
    all[2].duration = 6.0f64.to_bits();
    let rows = get_filtered_tracks(&all, "", "", "duration", true);
    assert_eq!(row_paths(&rows), vec!["/a.wav", "/other/b.wav", "/c.wav"]);
}

#[test]
fn narrowing_takes_rows_away_and_keeps_their_order() {
    let all = tracks(&["/d/Kick 2.wav", "/d/snare.wav", "/d/x/kick 1.wav", "/e/kick 3.wav"]);
    let wide = get_filtered_tracks(&all, "/", "ki", "name", false);
    let narrow = get_filtered_tracks(&all, "/d", "KICK", "name", false);
    assert_eq!(row_paths(&wide), vec!["/e/kick 3.wav", "/d/Kick 2.wav", "/d/x/kick 1.wav"]);
    assert_eq!(row_paths(&narrow), vec!["/d/Kick 2.wav", "/d/x/kick 1.wav"]);
}

#[test]
fn a_folder_is_listed_behind_the_one_that_holds_it() {
    let all = tracks(&["/B/a/Z/1.wav", "/B/A b/2.wav", "/b c/3.wav", "/B/a/y/4.wav"]);
    let open = expanded(&["/B", "/B/a", "/B/A b", "/b c"]);
    let items = extract_folders_hierarchical(&all, &open);
    assert_eq!(shown_paths(&items), vec!["/B", "/b c", "/B/a", "/B/A b", "/B/a/y", "/B/a/Z"]);
    for (j, item) in items.iter().enumerate() {
        let up = item.path.rfind('/').unwrap();
        if up > 0 {
            let i = items.iter().position(|h| h.path == item.path[..up]).unwrap();
            assert!(i < j && items[i].is_expanded && items[i].has_children);
            assert_eq!(item.indent, items[i].indent + 15);
        }
    }
}

fn lowered(path: &str, name: &str, title: Option<&str>) -> Lowered {
    Lowered {
        path: path.to_string(),
        name: name.to_string(),
        title: title.map(|t| t.to_string()),
    }
}

#[test]
fn given_forms_decide_what_is_found_and_how_it_is_ordered() {
    assert!(finds(&lowered("/p", "n", None), "/"));
    assert!(finds(&lowered("/p", "n", None), "n"));
    assert!(finds(&lowered("/p", "n", Some("t")), "t"));
    assert!(!finds(&lowered("/p", "n", None), "t"));
    assert!(finds(&lowered("", "", None), ""));
    let all = tracks(&["/X", "/Y", "/Z"]);
    let forms =
        vec![lowered("q", "3", None), lowered("r", "2", None), lowered("s", "1", Some("q"))];
    assert_eq!(wanted_tracks(&all, &forms, "", "Q", "q"), vec![0, 2]);
    assert_eq!(wanted_tracks(&all, &forms, "/Z", "Q", "q"), vec![2]);
    assert_eq!(wanted_tracks(&all, &forms, "", "", "q"), vec![0, 1, 2]);
    assert_eq!(list_tracks(&all, &forms, "", "Q", "q", "name", true), vec![2, 0]);
    assert_eq!(list_tracks(&all, &forms, "", "Q", "q", "name", false), vec![0, 2]);
}

#[test]
fn forms_are_lowercase() {
    let mut t = track("/X/Ä.WAV");
    t.title = Some("TiTle".to_string());
    let l = lowered_of(&t);
    assert_eq!((l.path.as_str(), l.name.as_str()), ("/x/ä.wav", "ä.wav"));
    assert_eq!(l.title.as_deref(), Some("title"));
    let l = lowered_of(&track("/X/.."));
    assert_eq!((l.path.as_str(), l.name.as_str(), l.title), ("/x/..", "", None));
}

#[test]
fn keys_of_columns_are_these() {
    let mut t = track("/a.wav");
    t.duration = (-1.0f64).to_bits();
    t.bit_depth = Some(u32::MAX);
    t.channels = Some(3);
    t.mtime = -4;
    assert_eq!(sort_key_of(&t, "ab", "name"), vec![97, 98]);
    assert_eq!(sort_key_of(&t, "ab", "duration"), vec![-(1.0f64.to_bits() as i64)]);
    assert_eq!(sort_key_of(&t, "ab", "bit_depth"), vec![u32::MAX as i64]);
    assert_eq!(sort_key_of(&t, "ab", "sample_rate"), vec![0]);
    assert_eq!(sort_key_of(&t, "ab", "channels"), vec![3]);
    assert_eq!(sort_key_of(&t, "ab", "mtime"), vec![-4]);
    assert_eq!(sort_key_of(&t, "ab", "Name"), Vec::<i64>::new());
}

#[test]
fn a_session_starts_with_everything_by_name() {
    let state = UiState::new(tracks(&["/b/2.wav", "/a/1.wav"]));
    assert_eq!((state.sort_column.as_str(), state.sort_asc), ("name", true));
    assert_eq!((state.search_query.as_str(), state.selected_folder.as_str()), ("", ""));
    assert_eq!(row_paths(&state.tracks().unwrap()), vec!["/a/1.wav", "/b/2.wav"]);
    assert_eq!(shown_paths(&state.folders()), vec!["/a", "/b"]);
}

#[test]
fn a_session_follows_the_user() {
    let mut state = UiState::new(tracks(&["/b/c/2.wav", "/a/1.wav", "/b/3.wav"]));
    state.select_folder("/b");
    assert_eq!(row_paths(&state.tracks().unwrap()), vec!["/b/c/2.wav", "/b/3.wav"]);
    state.search_tracks("3");
    assert_eq!(row_paths(&state.tracks().unwrap()), vec!["/b/3.wav"]);
    state.search_tracks("");
    state.sort_tracks("name");
    assert!(!state.sort_asc);
    assert_eq!(row_paths(&state.tracks().unwrap()), vec!["/b/3.wav", "/b/c/2.wav"]);
    state.sort_tracks("mtime");
    assert_eq!((state.sort_column.as_str(), state.sort_asc), ("mtime", true));
    state.sort_tracks("mtime");
    state.sort_tracks("mtime");
    assert_eq!((state.sort_column.as_str(), state.sort_asc), ("mtime", true));
    state.toggle_folder("/b");
    assert_eq!(shown_paths(&state.folders()), vec!["/a", "/b", "/b/c"]);
    state.toggle_folder("/b");
    assert_eq!(shown_paths(&state.folders()), vec!["/a", "/b"]);
    state.replace_tracks(tracks(&["/b/9.wav"]));
    assert_eq!(row_paths(&state.tracks().unwrap()), vec!["/b/9.wav"]);
}

#[test]
fn a_file_manager_opens_the_folder_of_a_file() {
    assert_eq!(file_manager_target("/a/b.wav", true), "/a");
    assert_eq!(file_manager_target("b.wav", true), "");
    assert_eq!(file_manager_target("/", true), "/");
    assert_eq!(file_manager_target("/a/b", false), "/a/b");
}
