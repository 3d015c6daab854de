//! The list of tracks that is shown: which tracks, in which order, and what is shown of each.

use crate::database::Track;
use crate::order;
use crate::order::{key_of_text, sort_stably};
use crate::paths;
use crate::paths::{file_name_of, shown_name_of};
use crate::rounding;
use crate::rounding::{order_key_of, stands_for_number};
use crate::stamp;
use crate::stamp::time_text;
use crate::text;
use crate::text::{begins_with, contains_text, decimal_text, same_text};
use vstd::prelude::*;
use vstd::string::*;

verus! {

/// A track as it is shown. The duration is a double-precision number of seconds, held as its
/// encoding.
#[derive(Debug)]
pub struct TrackRow {
    pub id: i32,
    pub path: String,
    pub filename: String,
    pub title: String,
    pub artist: String,
    pub album: String,
    pub duration: u64,
    pub sample_rate: String,
    pub bit_depth: String,
    pub channels: String,
    pub mtime: String,
}

/// A text, or nothing where there is none.
pub open spec fn text_or_nothing(o: Option<String>) -> Seq<char> {
    match o {
        Some(s) => s@,
        None => Seq::empty(),
    }
}

/// A number with its unit, or a dash where there is none.
pub open spec fn quantity(n: Option<nat>, unit: Seq<char>) -> Seq<char> {
    match n {
        Some(n) => text::decimal(n) + unit,
        None => "-"@,
    }
}

/// An optional number as a natural number.
pub open spec fn count32(n: Option<u32>) -> Option<nat> {
    match n {
        Some(n) => Some(n as nat),
        None => None,
    }
}

/// An optional small number as a natural number.
pub open spec fn count16(n: Option<u16>) -> Option<nat> {
    match n {
        Some(n) => Some(n as nat),
        None => None,
    }
}

/// The row shows the track; of the time of modification nothing is said.
pub open spec fn shows(row: TrackRow, t: Track) -> bool {
    &&& row.id == t.id as i32
    &&& row.path@ == t.path@
    &&& row.filename@ == paths::shown_name(t.path@)
    &&& row.title@ == text_or_nothing(t.title)
    &&& row.artist@ == text_or_nothing(t.artist)
    &&& row.album@ == text_or_nothing(t.album)
    &&& row.duration == t.duration
    &&& row.sample_rate@ == quantity(count32(t.sample_rate), "Hz"@)
    &&& row.bit_depth@ == quantity(count32(t.bit_depth), "bit"@)
    &&& row.channels@ == quantity(count16(t.channels), "ch"@)
}

/// A text, or the empty text where there is none.
fn or_nothing(o: &Option<String>) -> (r: String)
    ensures
        r@ == text_or_nothing(*o),
{
    match o {
        Some(s) => s.clone(),
        None => String::new(),
    }
}

/// A number with its unit, or a dash.
fn quantity_text(n: Option<u32>, unit: &str) -> (r: String)
    ensures
        r@ == quantity(count32(n), unit@),
{
    match n {
        Some(n) => {
            let mut out: String = decimal_text(n as u64);
            out.append(unit);
            out
        },
        None => "-".to_owned(),
    }
}

/// Shows a track, given the text for its time of modification.
pub fn track_row(t: &Track, mtime: String) -> (r: TrackRow)
    ensures
        shows(r, *t),
        r.mtime@ == mtime@,
{
    let channels: Option<u32> = match t.channels {
        Some(n) => Some(n as u32),
        None => None,
    };
    assert(count32(channels) == count16(t.channels));
    TrackRow {
        id: #[verifier::truncate] (t.id as i32),
        path: t.path.clone(),
        filename: shown_name_of(t.path.as_str()),
        title: or_nothing(&t.title),
        artist: or_nothing(&t.artist),
        album: or_nothing(&t.album),
        duration: t.duration,
        sample_rate: quantity_text(t.sample_rate, "Hz"),
        bit_depth: quantity_text(t.bit_depth, "bit"),
        channels: quantity_text(channels, "ch"),
        mtime,
    }
}

/// Shows a track whose time of modification has a date.
pub fn map_track(t: &Track) -> (r: TrackRow)
    requires
        stamp::has_date(t.mtime),
    ensures
        shows(r, *t),
        stamp::shows_time(t.mtime, r.mtime@),
{
    match time_text(t.mtime) {
        Some(mtime) => track_row(t, mtime),
        None => track_row(t, String::new()),
    }
}

/// The lowercase forms of the texts by which a track is found and ordered.
#[derive(Debug)]
pub struct Lowered {
    pub path: String,
    pub name: String,
    pub title: Option<String>,
}

/// What a `Lowered` holds.
pub struct Forms {
    pub path: Seq<char>,
    pub name: Seq<char>,
    pub title: Option<Seq<char>>,
}

impl View for Lowered {
    type V = Forms;

    open spec fn view(&self) -> Forms {
        Forms {
            path: self.path@,
            name: self.name@,
            title: match self.title {
                Some(s) => Some(s@),
                None => None,
            },
        }
    }
}

/// The lowercase forms of the texts of a track; a path without a file name has the empty name.
pub open spec fn forms_of(t: Track) -> Forms {
    Forms {
        path: text::lowercase(t.path@),
        name: match paths::file_name(t.path@) {
            Some(name) => text::lowercase(name),
            None => Seq::empty(),
        },
        title: match t.title {
            Some(title) => Some(text::lowercase(title@)),
            None => None,
        },
    }
}

/// The lowercase forms of the texts of tracks.
pub open spec fn all_forms(tracks: Seq<Track>) -> Seq<Forms> {
    tracks.map_values(|t: Track| forms_of(t))
}

/// The contents of a vector of lowercase forms.
pub open spec fn forms(v: Seq<Lowered>) -> Seq<Forms> {
    v.map_values(|l: Lowered| l@)
}

/// Which tracks are asked for: those of a folder that a query finds.
pub struct Search {
    pub folder: Seq<char>,
    pub query: Seq<char>,
    pub lower_query: Seq<char>,
}

/// The query, in lowercase, stands in the path, the name or the title.
pub open spec fn is_found(f: Forms, lower_query: Seq<char>) -> bool {
    ||| text::occurs_in(lower_query, f.path)
    ||| text::occurs_in(lower_query, f.name)
    ||| f.title matches Some(title) && text::occurs_in(lower_query, title)
}

/// A track is to be listed: its path begins with the folder, and it is found by the query, if there
/// is one.
pub open spec fn is_wanted(t: Track, f: Forms, s: Search) -> bool {
    &&& s.folder.is_prefix_of(t.path@)
    &&& s.query.len() == 0 || is_found(f, s.lower_query)
}

/// The positions below `n` of the tracks to be listed.
pub open spec fn wanted(tracks: Seq<Track>, f: Seq<Forms>, s: Search, n: nat) -> Seq<int>
    decreases n,
{
    if n == 0 {
        Seq::empty()
    } else {
        let rest = wanted(tracks, f, s, (n - 1) as nat);
        if is_wanted(tracks[n - 1], f[n - 1], s) {
            rest.push(n - 1)
        } else {
            rest
        }
    }
}

/// A number, or zero where there is none.
pub open spec fn or_zero(n: Option<nat>) -> nat {
    match n {
        Some(n) => n,
        None => 0,
    }
}

/// The key by which a column orders a track; a column of another name does not order.
pub open spec fn sort_key(t: Track, lower_name: Seq<char>, column: Seq<char>) -> Seq<i64> {
    if column == "name"@ {
        order::text_key(lower_name)
    } else if column == "duration"@ {
        seq![rounding::order_key(t.duration)]
    } else if column == "bit_depth"@ {
        seq![or_zero(count32(t.bit_depth)) as i64]
    } else if column == "sample_rate"@ {
        seq![or_zero(count32(t.sample_rate)) as i64]
    } else if column == "channels"@ {
        seq![or_zero(count16(t.channels)) as i64]
    } else if column == "mtime"@ {
        seq![t.mtime]
    } else {
        Seq::empty()
    }
}

/// A column orders the tracks at the given positions: by durations they are only ordered where all
/// of these are numbers.
pub open spec fn orders(tracks: Seq<Track>, at: Seq<int>, column: Seq<char>) -> bool {
    column == "duration"@ ==> forall|i: int|
        0 <= i < at.len() ==> rounding::is_number((#[trigger] tracks[at[i]]).duration)
}

/// The key of the track at position `i` among those at the positions `at`; the empty key where the
/// column does not order them.
pub open spec fn key_among(
    tracks: Seq<Track>,
    f: Seq<Forms>,
    at: Seq<int>,
    column: Seq<char>,
    i: int,
) -> Seq<i64> {
    if orders(tracks, at, column) {
        sort_key(tracks[i], f[i].name, column)
    } else {
        Seq::empty()
    }
}

/// The keys of the tracks at the given positions.
pub open spec fn sort_keys(
    tracks: Seq<Track>,
    f: Seq<Forms>,
    at: Seq<int>,
    column: Seq<char>,
) -> Seq<Seq<i64>> {
    Seq::new(at.len(), |i: int| key_among(tracks, f, at, column, at[i]))
}

/// The positions of the tracks that are listed, in the order of the list.
pub open spec fn listed(
    tracks: Seq<Track>,
    f: Seq<Forms>,
    s: Search,
    column: Seq<char>,
    ascending: bool,
) -> Seq<int> {
    let at = wanted(tracks, f, s, tracks.len());
    order::stable_order(sort_keys(tracks, f, at, column), ascending).map_values(|i: int| at[i])
}

/// The tracks at the positions can be shown: their times of modification have dates.
pub open spec fn can_be_listed(tracks: Seq<Track>, at: Seq<int>) -> bool {
    forall|i: int| 0 <= i < at.len() ==> stamp::has_date((#[trigger] tracks[at[i]]).mtime)
}

/// The rows show the tracks at the positions, one by one.
pub open spec fn rows_show(rows: Seq<TrackRow>, tracks: Seq<Track>, at: Seq<int>) -> bool {
    &&& rows.len() == at.len()
    &&& forall|i: int|
        0 <= i < rows.len() ==> shows(#[trigger] rows[i], tracks[at[i]]) && stamp::shows_time(
            tracks[at[i]].mtime,
            rows[i].mtime@,
        )
}

/// The search in a folder for a query, given the query in lowercase.
pub open spec fn search(folder: Seq<char>, query: Seq<char>, lower_query: Seq<char>) -> Search {
    Search { folder, query, lower_query }
}

/// The lowercase forms of the texts of a track.
pub fn lowered_of(t: &Track) -> (r: Lowered)
    ensures
        r@ == forms_of(*t),
{
    let name: String = match file_name_of(t.path.as_str()) {
        Some(name) => name.as_str().to_lowercase(),
        None => String::new(),
    };
    let title: Option<String> = match &t.title {
        Some(title) => Some(title.as_str().to_lowercase()),
        None => None,
    };
    Lowered { path: t.path.as_str().to_lowercase(), name, title }
}

/// The lowercase forms of the texts of tracks.
fn lowered_all(tracks: &Vec<Track>) -> (r: Vec<Lowered>)
    ensures
        forms(r@) == all_forms(tracks@),
{
    let mut out: Vec<Lowered> = Vec::new();
    let mut n: usize = 0;
    while n < tracks.len()
        invariant
            n <= tracks@.len(),
            out@.len() == n,
            forms(out@) == all_forms(tracks@).take(n as int),
        decreases tracks@.len() - n,
    {
        out.push(lowered_of(&tracks[n]));
        n += 1;
        assert(forms(out@) =~= all_forms(tracks@).take(n as int));
    }
    assert(forms(out@) =~= all_forms(tracks@));
    out
}

/// Whether the query, in lowercase, stands in the path, the name or the title.
pub fn finds(l: &Lowered, lower_query: &str) -> (r: bool)
    ensures
        r == is_found(l@, lower_query@),
{
    if contains_text(l.path.as_str(), lower_query) || contains_text(l.name.as_str(), lower_query) {
        return true;
    }
    match &l.title {
        Some(title) => contains_text(title.as_str(), lower_query),
        None => false,
    }
}

/// Positions as whole numbers.
pub open spec fn positions(v: Seq<usize>) -> Seq<int> {
    v.map_values(|i: usize| i as int)
}

/// The positions of the wanted tracks below `n` go upwards, and are all there is.
proof fn wanted_are_found_once(tracks: Seq<Track>, f: Seq<Forms>, s: Search, n: nat)
    ensures
        ({
            let at = wanted(tracks, f, s, n);
            &&& forall|i: int|
                0 <= i < at.len() ==> 0 <= #[trigger] at[i] < n && is_wanted(
                    tracks[at[i]],
                    f[at[i]],
                    s,
                )
            &&& forall|i: int, j: int| 0 <= i < j < at.len() ==> at[i] < at[j]
            &&& forall|k: int|
                0 <= k < n && is_wanted(#[trigger] tracks[k], f[k], s) ==> at.contains(k)
        }),
    decreases n,
{
    if n > 0 {
        wanted_are_found_once(tracks, f, s, (n - 1) as nat);
        let rest = wanted(tracks, f, s, (n - 1) as nat);
        let at = wanted(tracks, f, s, n);
        assert forall|k: int|
            0 <= k < n && is_wanted(#[trigger] tracks[k], f[k], s) implies at.contains(k) by {
            if k < n - 1 {
                assert(rest.contains(k));
                let m = choose|m: int| 0 <= m < rest.len() && rest[m] == k;
                assert(at[m] == k);
            } else {
                assert(at[rest.len() as int] == k);
            }
        }
    }
}

/// Finds the tracks to be listed, given the lowercase forms of all texts.
pub fn wanted_tracks(
    tracks: &Vec<Track>,
    lowered: &Vec<Lowered>,
    folder: &str,
    query: &str,
    lower_query: &str,
) -> (at: Vec<usize>)
    requires
        tracks@.len() == lowered@.len(),
    ensures
        positions(at@) == wanted(
            tracks@,
            forms(lowered@),
            search(folder@, query@, lower_query@),
            tracks@.len(),
        ),
{
    let mut at: Vec<usize> = Vec::new();
    let mut n: usize = 0;
    let everything: bool = query.is_empty();
    assert(positions(at@) =~= Seq::<int>::empty());
    while n < tracks.len()
        invariant
            tracks@.len() == lowered@.len(),
            n <= tracks@.len(),
            everything == (query@.len() == 0),
            positions(at@) == wanted(
                tracks@,
                forms(lowered@),
                search(folder@, query@, lower_query@),
                n as nat,
            ),
        decreases tracks@.len() - n,
    {
        let ghost before = positions(at@);
        if begins_with(tracks[n].path.as_str(), folder) && (everything || finds(
            &lowered[n],
            lower_query,
        )) {
            at.push(n);
            assert(positions(at@) =~= before.push(n as int));
        }
        n += 1;
    }
    at
}

/// The key by which a column orders a track, given its name in lowercase.
pub fn sort_key_of(t: &Track, lower_name: &str, column: &str) -> (r: Vec<i64>)
    ensures
        r@ == sort_key(*t, lower_name@, column@),
{
    if same_text(column, "name") {
        return key_of_text(lower_name);
    }
    let mut key: Vec<i64> = Vec::new();
    if same_text(column, "duration") {
        key.push(order_key_of(t.duration));
    } else if same_text(column, "bit_depth") {
        key.push(
            match t.bit_depth {
                Some(n) => n as i64,
                None => 0,
            },
        );
    } else if same_text(column, "sample_rate") {
        key.push(
            match t.sample_rate {
                Some(n) => n as i64,
                None => 0,
            },
        );
    } else if same_text(column, "channels") {
        key.push(
            match t.channels {
                Some(n) => n as i64,
                None => 0,
            },
        );
    } else if same_text(column, "mtime") {
        key.push(t.mtime);
    }
    assert(key@ =~= sort_key(*t, lower_name@, column@));
    key
}

/// Whether a column orders the tracks at the given positions.
pub fn column_orders(tracks: &Vec<Track>, at: &Vec<usize>, column: &str) -> (r: bool)
    requires
        forall|i: int| 0 <= i < at@.len() ==> #[trigger] at@[i] < tracks@.len(),
    ensures
        r == orders(tracks@, positions(at@), column@),
{
    if !same_text(column, "duration") {
        return true;
    }
    let ghost wanted = positions(at@);
    let mut n: usize = 0;
    while n < at.len()
        invariant
            n <= at@.len(),
            wanted == positions(at@),
            column@ == "duration"@,
            forall|i: int| 0 <= i < at@.len() ==> #[trigger] at@[i] < tracks@.len(),
            forall|i: int|
                0 <= i < n ==> rounding::is_number((#[trigger] tracks@[wanted[i]]).duration),
        decreases at@.len() - n,
    {
        assert(wanted[n as int] == at@[n as int]);
        if !stands_for_number(tracks[at[n]].duration) {
            assert(!rounding::is_number(tracks@[wanted[n as int]].duration));
            return false;
        }
        n += 1;
    }
    true
}

/// Arranges the tracks at the given positions, given the lowercase forms of all texts.
fn arrange(
    tracks: &Vec<Track>,
    lowered: &Vec<Lowered>,
    at: &Vec<usize>,
    column: &str,
    ascending: bool,
) -> (r: Vec<usize>)
    requires
        tracks@.len() == lowered@.len(),
        forall|i: int| 0 <= i < at@.len() ==> #[trigger] at@[i] < tracks@.len(),
    ensures
        positions(r@) == order::stable_order(
            sort_keys(tracks@, forms(lowered@), positions(at@), column@),
            ascending,
        ).map_values(|i: int| positions(at@)[i]),
{
    let ordered: bool = column_orders(tracks, at, column);
    let mut keys: Vec<Vec<i64>> = Vec::new();
    let mut n: usize = 0;
    let ghost goal = sort_keys(tracks@, forms(lowered@), positions(at@), column@);
    while n < at.len()
        invariant
            tracks@.len() == lowered@.len(),
            n <= at@.len(),
            forall|i: int| 0 <= i < at@.len() ==> #[trigger] at@[i] < tracks@.len(),
            goal == sort_keys(tracks@, forms(lowered@), positions(at@), column@),
            ordered == orders(tracks@, positions(at@), column@),
            keys@.len() == n,
            order::keys_of(keys@) == goal.take(n as int),
        decreases at@.len() - n,
    {
        let i: usize = at[n];
        if ordered {
            keys.push(sort_key_of(&tracks[i], lowered[i].name.as_str(), column));
        } else {
            let none: Vec<i64> = Vec::new();
            assert(none@ =~= goal[n as int]);
            keys.push(none);
        }
        n += 1;
        assert(order::keys_of(keys@) =~= goal.take(n as int));
    }
    assert(order::keys_of(keys@) =~= goal);
    let order: Vec<usize> = sort_stably(&keys, ascending);
    proof {
        order::stable_order_is_the_only_one(goal, ascending);
    }
    let ghost sorted = order::stable_order(goal, ascending);
    let mut out: Vec<usize> = Vec::new();
    let mut k: usize = 0;
    while k < order.len()
        invariant
            k <= order@.len(),
            sorted == positions(order@),
            forall|i: int| 0 <= i < sorted.len() ==> 0 <= #[trigger] sorted[i] < at@.len(),
            out@.len() == k,
            forall|i: int| 0 <= i < k ==> out@[i] == at@[#[trigger] sorted[i]],
        decreases order@.len() - k,
    {
        assert(sorted[k as int] == order@[k as int]);
        out.push(at[order[k]]);
        k += 1;
    }
    assert(positions(out@) =~= sorted.map_values(|i: int| positions(at@)[i]));
    out
}

/// Lists the positions of the tracks that are asked for, given the lowercase forms of all texts.
pub fn list_tracks(
    tracks: &Vec<Track>,
    lowered: &Vec<Lowered>,
    folder: &str,
    query: &str,
    lower_query: &str,
    column: &str,
    ascending: bool,
) -> (r: Vec<usize>)
    requires
        tracks@.len() == lowered@.len(),
    ensures
        positions(r@) == listed(
            tracks@,
            forms(lowered@),
            search(folder@, query@, lower_query@),
            column@,
            ascending,
        ),
{
    let at: Vec<usize> = wanted_tracks(tracks, lowered, folder, query, lower_query);
    proof {
        wanted_are_found_once(
            tracks@,
            forms(lowered@),
            search(folder@, query@, lower_query@),
            tracks@.len(),
        );
        assert forall|i: int| 0 <= i < at@.len() implies #[trigger] at@[i] < tracks@.len() by {
            assert(positions(at@)[i] == at@[i]);
        }
    }
    arrange(tracks, lowered, &at, column, ascending)
}

/// The positions of the tracks that a folder, a query, a column and a direction ask for, in order.
pub open spec fn filtered(
    tracks: Seq<Track>,
    folder: Seq<char>,
    query: Seq<char>,
    column: Seq<char>,
    ascending: bool,
) -> Seq<int> {
    listed(
        tracks,
        all_forms(tracks),
        search(folder, query, text::lowercase(query)),
        column,
        ascending,
    )
}

/// What is listed are positions of tracks.
proof fn listed_are_tracks(
    tracks: Seq<Track>,
    f: Seq<Forms>,
    s: Search,
    column: Seq<char>,
    ascending: bool,
)
    ensures
        forall|i: int|
            0 <= i < listed(tracks, f, s, column, ascending).len() ==> 0 <= #[trigger] listed(
                tracks,
                f,
                s,
                column,
                ascending,
            )[i] < tracks.len(),
{
    let at = wanted(tracks, f, s, tracks.len());
    wanted_are_found_once(tracks, f, s, tracks.len());
    order::stable_order_is_the_only_one(sort_keys(tracks, f, at, column), ascending);
}

/// Lists positions of the tracks that are asked for.
fn filtered_positions(
    tracks: &Vec<Track>,
    folder: &str,
    query: &str,
    column: &str,
    ascending: bool,
) -> (at: Vec<usize>)
    ensures
        positions(at@) == filtered(tracks@, folder@, query@, column@, ascending),
        forall|i: int| 0 <= i < at@.len() ==> #[trigger] at@[i] < tracks@.len(),
{
    let lowered: Vec<Lowered> = lowered_all(tracks);
    assert(lowered@.len() == forms(lowered@).len());
    let lower_query: String = query.to_lowercase();
    let at: Vec<usize> = list_tracks(
        tracks,
        &lowered,
        folder,
        query,
        lower_query.as_str(),
        column,
        ascending,
    );
    proof {
        let s = search(folder@, query@, text::lowercase(query@));
        listed_are_tracks(tracks@, all_forms(tracks@), s, column@, ascending);
        assert forall|i: int| 0 <= i < at@.len() implies #[trigger] at@[i] < tracks@.len() by {
            assert(positions(at@)[i] == at@[i]);
        }
    }
    at
}

/// Shows the tracks at the given positions.
fn rows_at(tracks: &Vec<Track>, at: &Vec<usize>) -> (r: Vec<TrackRow>)
    requires
        forall|i: int|
            0 <= i < at@.len() ==> #[trigger] at@[i] < tracks@.len() && stamp::has_date(
                tracks@[at@[i] as int].mtime,
            ),
    ensures
        rows_show(r@, tracks@, positions(at@)),
{
    let mut out: Vec<TrackRow> = Vec::new();
    let mut n: usize = 0;
    while n < at.len()
        invariant
            n <= at@.len(),
            forall|i: int|
                0 <= i < at@.len() ==> #[trigger] at@[i] < tracks@.len() && stamp::has_date(
                    tracks@[at@[i] as int].mtime,
                ),
            out@.len() == n,
            forall|i: int|
                0 <= i < n ==> shows(#[trigger] out@[i], tracks@[at@[i] as int])
                    && stamp::shows_time(tracks@[at@[i] as int].mtime, out@[i].mtime@),
        decreases at@.len() - n,
    {
        out.push(map_track(&tracks[at[n]]));
        n += 1;
    }
    out
}

/// Shows the tracks whose path begins with `folder` and that `query` finds, ordered by a column.
pub fn get_filtered_tracks(
    tracks: &Vec<Track>,
    folder: &str,
    query: &str,
    sort_column: &str,
    sort_asc: bool,
) -> (r: Vec<TrackRow>)
    requires
        can_be_listed(tracks@, filtered(tracks@, folder@, query@, sort_column@, sort_asc)),
    ensures
        rows_show(r@, tracks@, filtered(tracks@, folder@, query@, sort_column@, sort_asc)),
{
    let at: Vec<usize> = filtered_positions(tracks, folder, query, sort_column, sort_asc);
    assert forall|i: int| 0 <= i < at@.len() implies #[trigger] at@[i] < tracks@.len()
        && stamp::has_date(tracks@[at@[i] as int].mtime) by {
        assert(positions(at@)[i] == at@[i]);
        assert(stamp::has_date(tracks@[positions(at@)[i]].mtime));
    }
    rows_at(tracks, &at)
}

/// Shows the tracks that are asked for, as `get_filtered_tracks` does, if they all can be shown.
pub fn try_filtered_tracks(
    tracks: &Vec<Track>,
    folder: &str,
    query: &str,
    sort_column: &str,
    sort_asc: bool,
) -> (r: Option<Vec<TrackRow>>)
    ensures
        ({
            let at = filtered(tracks@, folder@, query@, sort_column@, sort_asc);
            match r {
                Some(rows) => can_be_listed(tracks@, at) && rows_show(rows@, tracks@, at),
                None => !can_be_listed(tracks@, at),
            }
        }),
{
    let at: Vec<usize> = filtered_positions(tracks, folder, query, sort_column, sort_asc);
    let ghost asked = filtered(tracks@, folder@, query@, sort_column@, sort_asc);
    let mut n: usize = 0;
    while n < at.len()
        invariant
            n <= at@.len(),
            asked == positions(at@),
            asked == filtered(tracks@, folder@, query@, sort_column@, sort_asc),
            forall|i: int| 0 <= i < at@.len() ==> #[trigger] at@[i] < tracks@.len(),
            forall|i: int| 0 <= i < n ==> stamp::has_date((#[trigger] tracks@[asked[i]]).mtime),
        decreases at@.len() - n,
    {
        let t: &Track = &tracks[at[n]];
        assert(asked[n as int] == at@[n as int]);
        if t.mtime < stamp::EARLIEST || stamp::LATEST < t.mtime {
            assert(!stamp::has_date(tracks@[asked[n as int]].mtime));
            return None;
        }
        n += 1;
    }
    Some(get_filtered_tracks(tracks, folder, query, sort_column, sort_asc))
}

/// A list holds each track that is asked for once and no other, and of two tracks in it the first
/// precedes the second: by the key of the column in the direction that is asked for, and among equal
/// keys as the tracks themselves do.
pub proof fn a_list_holds_what_is_asked_for_in_order(
    tracks: Seq<Track>,
    f: Seq<Forms>,
    s: Search,
    column: Seq<char>,
    ascending: bool,
)
    ensures
        ({
            let list = listed(tracks, f, s, column, ascending);
            let at = wanted(tracks, f, s, tracks.len());
            let key = |i: int| key_among(tracks, f, at, column, i);
            &&& list.no_duplicates()
            &&& forall|i: int|
                0 <= i < list.len() ==> 0 <= #[trigger] list[i] < tracks.len() && is_wanted(
                    tracks[list[i]],
                    f[list[i]],
                    s,
                )
            &&& forall|k: int|
                0 <= k < tracks.len() && is_wanted(#[trigger] tracks[k], f[k], s) ==> list.contains(
                    k,
                )
            &&& forall|i: int, j: int|
                #![trigger list[i], list[j]]
                0 <= i < j < list.len() ==> {
                    ||| if ascending {
                        order::lex_less(key(list[i]), key(list[j]))
                    } else {
                        order::lex_less(key(list[j]), key(list[i]))
                    }
                    ||| key(list[i]) == key(list[j]) && list[i] < list[j]
                }
        }),
{
    let list = listed(tracks, f, s, column, ascending);
    let at = wanted(tracks, f, s, tracks.len());
    let key = |i: int| key_among(tracks, f, at, column, i);
    let keys = sort_keys(tracks, f, at, column);
    let sorted = order::stable_order(keys, ascending);
    wanted_are_found_once(tracks, f, s, tracks.len());
    order::stable_order_is_the_only_one(keys, ascending);
    assert(order::is_stable_order(keys, ascending, sorted));
    assert forall|i: int, j: int|
        #![trigger list[i], list[j]]
        0 <= i < j < list.len() implies {
        ||| if ascending {
            order::lex_less(key(list[i]), key(list[j]))
        } else {
            order::lex_less(key(list[j]), key(list[i]))
        }
        ||| key(list[i]) == key(list[j]) && list[i] < list[j]
    } by {
        assert(order::precedes(keys, ascending, sorted[i], sorted[j]));
    }
    assert forall|i: int, j: int|
        0 <= i < list.len() && 0 <= j < list.len() && i != j implies list[i] != list[j] by {
        let (a, b) = if i < j {
            (i, j)
        } else {
            (j, i)
        };
        assert(order::precedes(keys, ascending, sorted[a], sorted[b]));
        order::precedes_asymmetric(keys, ascending, sorted[a], sorted[b]);
        if sorted[a] < sorted[b] {
            assert(at[sorted[a]] < at[sorted[b]]);
        } else {
            assert(at[sorted[b]] < at[sorted[a]]);
        }
    }
    assert forall|k: int|
        0 <= k < tracks.len() && is_wanted(#[trigger] tracks[k], f[k], s) implies list.contains(
        k,
    ) by {
        let m = choose|m: int| 0 <= m < at.len() && at[m] == k;
        assert(sorted.contains(m));
        let i = choose|i: int| 0 <= i < sorted.len() && sorted[i] == m;
        assert(list[i] == k);
    }
}

/// Without a folder and without a query, all tracks are listed.
pub proof fn asking_for_nothing_lists_all(
    tracks: Seq<Track>,
    f: Seq<Forms>,
    s: Search,
    column: Seq<char>,
    ascending: bool,
)
    requires
        s.folder.len() == 0,
        s.query.len() == 0,
    ensures
        listed(tracks, f, s, column, ascending).len() == tracks.len(),
        forall|k: int|
            0 <= k < tracks.len() ==> #[trigger] listed(
                tracks,
                f,
                s,
                column,
                ascending,
            ).contains(k),
{
    let list = listed(tracks, f, s, column, ascending);
    a_list_holds_what_is_asked_for_in_order(tracks, f, s, column, ascending);
    assert forall|k: int| 0 <= k < tracks.len() implies #[trigger] list.contains(k) by {
        assert(s.folder.is_prefix_of(tracks[k].path@));
        assert(is_wanted(tracks[k], f[k], s));
    }
    nothing_is_left_out(tracks, f, s, tracks.len());
    order::stable_order_is_the_only_one(
        sort_keys(tracks, f, wanted(tracks, f, s, tracks.len()), column),
        ascending,
    );
}

proof fn nothing_is_left_out(tracks: Seq<Track>, f: Seq<Forms>, s: Search, n: nat)
    requires
        s.folder.len() == 0,
        s.query.len() == 0,
        n <= tracks.len(),
    ensures
        wanted(tracks, f, s, n).len() == n,
    decreases n,
{
    if n > 0 {
        nothing_is_left_out(tracks, f, s, (n - 1) as nat);
        assert(s.folder.is_prefix_of(tracks[n - 1].path@));
    }
}

/// Whatever a query finds, each part of the query finds too.
pub proof fn a_longer_query_finds_less(f: Forms, part: Seq<char>, whole: Seq<char>)
    requires
        text::occurs_in(part, whole),
        is_found(f, whole),
    ensures
        is_found(f, part),
{
    if text::occurs_in(whole, f.path) {
        occurrence_is_transitive(part, whole, f.path);
    } else if text::occurs_in(whole, f.name) {
        occurrence_is_transitive(part, whole, f.name);
    } else {
        occurrence_is_transitive(part, whole, f.title->0);
    }
}

proof fn occurrence_is_transitive(a: Seq<char>, b: Seq<char>, c: Seq<char>)
    requires
        text::occurs_in(a, b),
        text::occurs_in(b, c),
    ensures
        text::occurs_in(a, c),
{
    let i = choose|i: int|
        0 <= i <= b.len() - a.len() && #[trigger] b.subrange(i, i + a.len()) == a;
    let j = choose|j: int|
        0 <= j <= c.len() - b.len() && #[trigger] c.subrange(j, j + b.len()) == b;
    assert(c.subrange(i + j, i + j + a.len()) =~= b.subrange(i, i + a.len()));
}

/// A narrower search lists a part of what a wider one lists, in the same order: a folder that begins
/// with the other one, and a query that holds the other one, only take rows away. The column is to
/// order what the wider search lists. `pick` numbers the rows that are left.
pub proof fn narrowing_only_removes_rows(
    tracks: Seq<Track>,
    wide_folder: Seq<char>,
    wide_query: Seq<char>,
    folder: Seq<char>,
    query: Seq<char>,
    column: Seq<char>,
    ascending: bool,
) -> (pick: Seq<int>)
    requires
        wide_folder.is_prefix_of(folder),
        text::occurs_in(text::lowercase(wide_query), text::lowercase(query)),
        orders(
            tracks,
            filtered(tracks, wide_folder, wide_query, column, ascending),
            column,
        ),
    ensures
        pick.len() == filtered(tracks, folder, query, column, ascending).len(),
        forall|i: int|
            0 <= i < pick.len() ==> {
                &&& 0 <= #[trigger] pick[i] < filtered(
                    tracks,
                    wide_folder,
                    wide_query,
                    column,
                    ascending,
                ).len()
                &&& filtered(tracks, folder, query, column, ascending)[i] == filtered(
                    tracks,
                    wide_folder,
                    wide_query,
                    column,
                    ascending,
                )[pick[i]]
            },
        forall|i: int, j: int| 0 <= i < j < pick.len() ==> pick[i] < pick[j],
{
    text::lowercase_keeps_texts(wide_query);
    text::lowercase_keeps_texts(query);
    let f = all_forms(tracks);
    let s1 = search(wide_folder, wide_query, text::lowercase(wide_query));
    let s2 = search(folder, query, text::lowercase(query));
    let wide = listed(tracks, f, s1, column, ascending);
    let narrow = listed(tracks, f, s2, column, ascending);
    let at1 = wanted(tracks, f, s1, tracks.len());
    let at2 = wanted(tracks, f, s2, tracks.len());
    a_list_holds_what_is_asked_for_in_order(tracks, f, s1, column, ascending);
    a_list_holds_what_is_asked_for_in_order(tracks, f, s2, column, ascending);
    wanted_are_found_once(tracks, f, s1, tracks.len());
    wanted_are_found_once(tracks, f, s2, tracks.len());
    assert forall|i: int| 0 <= i < narrow.len() implies wide.contains(#[trigger] narrow[i]) by {
        narrowing_keeps(tracks[narrow[i]], f[narrow[i]], s1, s2);
        assert(is_wanted(tracks[narrow[i]], f[narrow[i]], s1));
    }
    if column == "duration"@ {
        assert forall|i: int| 0 <= i < at1.len() implies rounding::is_number(
            (#[trigger] tracks[at1[i]]).duration,
        ) by {
            assert(wide.contains(at1[i]));
            let m = choose|m: int| 0 <= m < wide.len() && wide[m] == at1[i];
            assert(rounding::is_number(tracks[wide[m]].duration));
        }
        assert forall|i: int| 0 <= i < at2.len() implies rounding::is_number(
            (#[trigger] tracks[at2[i]]).duration,
        ) by {
            narrowing_keeps(tracks[at2[i]], f[at2[i]], s1, s2);
            assert(at1.contains(at2[i]));
            let m = choose|m: int| 0 <= m < at1.len() && at1[m] == at2[i];
            assert(rounding::is_number(tracks[at1[m]].duration));
        }
    }
    let keys = Seq::new(tracks.len(), |i: int| sort_key(tracks[i], f[i].name, column));
    let pick = Seq::new(
        narrow.len(),
        |i: int| choose|m: int| 0 <= m < wide.len() && wide[m] == narrow[i],
    );
    assert forall|i: int| 0 <= i < pick.len() implies 0 <= #[trigger] pick[i] < wide.len()
        && narrow[i] == wide[pick[i]] by {
        assert(wide.contains(narrow[i]));
    }
    assert forall|i: int, j: int| 0 <= i < j < pick.len() implies pick[i] < pick[j] by {
        let a = narrow[i];
        let b = narrow[j];
        assert(narrow[i] != narrow[j]);
        assert(order::precedes(keys, ascending, a, b));
        order::precedes_asymmetric(keys, ascending, a, b);
        if pick[j] < pick[i] {
            assert(wide[pick[j]] == b && wide[pick[i]] == a);
            assert(order::precedes(keys, ascending, b, a));
        }
    }
    pick
}

proof fn narrowing_keeps(t: Track, f: Forms, wide: Search, narrow: Search)
    requires
        wide.folder.is_prefix_of(narrow.folder),
        wide.query.len() == 0 || narrow.query.len() > 0 && text::occurs_in(
            wide.lower_query,
            narrow.lower_query,
        ),
        is_wanted(t, f, narrow),
    ensures
        is_wanted(t, f, wide),
{
    assert(wide.folder =~= t.path@.take(wide.folder.len() as int)) by {
        assert(wide.folder == narrow.folder.take(wide.folder.len() as int));
        assert(narrow.folder == t.path@.take(narrow.folder.len() as int));
    }
    if wide.query.len() > 0 {
        a_longer_query_finds_less(f, wide.lower_query, narrow.lower_query);
    }
}

/// Where no two keys are equal, the list in one direction is the list in the other, backwards.
pub proof fn the_other_direction_is_backwards(
    tracks: Seq<Track>,
    f: Seq<Forms>,
    s: Search,
    column: Seq<char>,
)
    requires
        sort_keys(tracks, f, wanted(tracks, f, s, tracks.len()), column).no_duplicates(),
    ensures
        listed(tracks, f, s, column, false) == listed(tracks, f, s, column, true).reverse(),
{
    let at = wanted(tracks, f, s, tracks.len());
    let keys = sort_keys(tracks, f, at, column);
    let up = order::stable_order(keys, true);
    let down = up.reverse();
    order::stable_order_is_the_only_one(keys, true);
    order::stable_order_is_the_only_one(keys, false);
    assert(order::is_stable_order(keys, true, up));
    assert forall|k: int| 0 <= k < keys.len() implies #[trigger] down.contains(k) by {
        assert(up.contains(k));
        let m = choose|m: int| 0 <= m < up.len() && up[m] == k;
        assert(down[up.len() - 1 - m] == k);
    }
    assert forall|i: int, j: int| 0 <= i < j < down.len() implies #[trigger] order::precedes(
        keys,
        false,
        down[i],
        down[j],
    ) by {
        let a = up.len() - 1 - j;
        let b = up.len() - 1 - i;
        assert(order::precedes(keys, true, up[a], up[b]));
        order::precedes_asymmetric(keys, true, up[a], up[b]);
        assert(keys[up[a]] != keys[up[b]]);
    }
    assert(order::is_stable_order(keys, false, down));
    assert(listed(tracks, f, s, column, false) =~= listed(tracks, f, s, column, true).reverse());
}

proof fn columns_are_different()
    ensures
        "name"@ != "duration"@,
        "name"@ != "bit_depth"@,
        "name"@ != "sample_rate"@,
        "name"@ != "channels"@,
        "name"@ != "mtime"@,
        "duration"@ != "bit_depth"@,
        "duration"@ != "sample_rate"@,
        "duration"@ != "channels"@,
        "duration"@ != "mtime"@,
        "bit_depth"@ != "sample_rate"@,
        "bit_depth"@ != "channels"@,
        "bit_depth"@ != "mtime"@,
        "sample_rate"@ != "channels"@,
        "sample_rate"@ != "mtime"@,
        "channels"@ != "mtime"@,
{
    reveal_strlit("name");
    reveal_strlit("duration");
    reveal_strlit("bit_depth");
    reveal_strlit("sample_rate");
    reveal_strlit("channels");
    reveal_strlit("mtime");
    assert("name"@.len() == 4 && "duration"@.len() == 8 && "bit_depth"@.len() == 9);
    assert("sample_rate"@.len() == 11 && "channels"@.len() == 8 && "mtime"@.len() == 5);
    assert("duration"@[0] == 'd' && "channels"@[0] == 'c');
}

/// The first number is to stand before the second, or they are equal.
pub open spec fn in_direction(a: int, b: int, ascending: bool) -> bool {
    if ascending {
        a <= b
    } else {
        b <= a
    }
}

/// The lowercase file name of a path; empty where it has none.
pub open spec fn lowercase_name(path: Seq<char>) -> Seq<char> {
    match paths::file_name(path) {
        Some(name) => text::lowercase(name),
        None => Seq::empty(),
    }
}

/// Of two tracks with keys of one number, the numbers go in the direction of the list, and equal
/// numbers leave the tracks as they were.
proof fn numbers_go_in_direction(
    keys: Seq<Seq<i64>>,
    ascending: bool,
    i: int,
    j: int,
    a: i64,
    b: i64,
)
    requires
        order::precedes(keys, ascending, i, j),
        keys[i] == seq![a],
        keys[j] == seq![b],
    ensures
        in_direction(a as int, b as int, ascending),
        a == b ==> i < j,
{
    order::keys_order_as_numbers(a, b, Seq::empty(), Seq::empty());
    order::keys_order_as_numbers(b, a, Seq::empty(), Seq::empty());
}

/// The columns order the list by what they show: of two tracks in the list, the first one has no
/// greater sample rate, bit depth, number of channels, time, duration or lowercase file name than
/// the second where the list goes upwards by that, and no smaller one where it goes downwards; what
/// is missing counts as zero, or as the empty name. Tracks that are alike in that stand as they do in
/// the library, and so do all by any other column.
pub proof fn columns_order_by_what_they_show(
    tracks: Seq<Track>,
    folder: Seq<char>,
    query: Seq<char>,
    column: Seq<char>,
    ascending: bool,
    i: int,
    j: int,
)
    requires
        0 <= i < j < filtered(tracks, folder, query, column, ascending).len(),
    ensures
        ({
            let list = filtered(tracks, folder, query, column, ascending);
            let (a, b) = (tracks[list[i]], tracks[list[j]]);
            let rate = |t: Track| match t.sample_rate {
                Some(n) => n as int,
                None => 0,
            };
            let depth = |t: Track| match t.bit_depth {
                Some(n) => n as int,
                None => 0,
            };
            let channels = |t: Track| match t.channels {
                Some(n) => n as int,
                None => 0,
            };
            &&& 0 <= list[i] < tracks.len()
            &&& 0 <= list[j] < tracks.len()
            &&& column == "sample_rate"@ ==> in_direction(rate(a), rate(b), ascending) && (rate(a)
                == rate(b) ==> list[i] < list[j])
            &&& column == "bit_depth"@ ==> in_direction(depth(a), depth(b), ascending) && (depth(a)
                == depth(b) ==> list[i] < list[j])
            &&& column == "channels"@ ==> in_direction(channels(a), channels(b), ascending) && (
            channels(a) == channels(b) ==> list[i] < list[j])
            &&& column == "mtime"@ ==> in_direction(a.mtime as int, b.mtime as int, ascending) && (
            a.mtime == b.mtime ==> list[i] < list[j])
            &&& column == "duration"@ && (forall|k: int|
                0 <= k < list.len() ==> rounding::is_number((#[trigger] tracks[list[k]]).duration))
                ==> in_direction(
                rounding::signed_units(a.duration),
                rounding::signed_units(b.duration),
                ascending,
            ) && (rounding::signed_units(a.duration) == rounding::signed_units(b.duration)
                ==> list[i] < list[j])
            &&& column == "duration"@ && !(forall|k: int|
                0 <= k < list.len() ==> rounding::is_number((#[trigger] tracks[list[k]]).duration))
                ==> list[i] < list[j]
            &&& column == "name"@ ==> {
                let (x, y) = (lowercase_name(a.path@), lowercase_name(b.path@));
                &&& ascending ==> !order::comes_before(y, x)
                &&& !ascending ==> !order::comes_before(x, y)
                &&& x == y ==> list[i] < list[j]
            }
            &&& column != "name"@ && column != "duration"@ && column != "bit_depth"@ && column
                != "sample_rate"@ && column != "channels"@ && column != "mtime"@ ==> list[i]
                < list[j]
        }),
{
    columns_are_different();
    let f = all_forms(tracks);
    let s = search(folder, query, text::lowercase(query));
    let list = filtered(tracks, folder, query, column, ascending);
    let at = wanted(tracks, f, s, tracks.len());
    a_list_holds_what_is_asked_for_in_order(tracks, f, s, column, ascending);
    let keys = Seq::new(tracks.len(), |k: int| key_among(tracks, f, at, column, k));
    let (p, q) = (list[i], list[j]);
    let (a, b) = (tracks[p], tracks[q]);
    assert(list[i] != list[j]);
    assert(keys[p] == key_among(tracks, f, at, column, p));
    assert(keys[q] == key_among(tracks, f, at, column, q));
    assert(order::precedes(keys, ascending, p, q));
    order::precedes_asymmetric(keys, ascending, p, q);
    if column == "sample_rate"@ {
        let (x, y) = (
            or_zero(count32(a.sample_rate)) as i64,
            or_zero(count32(b.sample_rate)) as i64,
        );
        numbers_go_in_direction(keys, ascending, p, q, x, y);
    } else if column == "bit_depth"@ {
        let (x, y) = (or_zero(count32(a.bit_depth)) as i64, or_zero(count32(b.bit_depth)) as i64);
        numbers_go_in_direction(keys, ascending, p, q, x, y);
    } else if column == "channels"@ {
        let (x, y) = (or_zero(count16(a.channels)) as i64, or_zero(count16(b.channels)) as i64);
        numbers_go_in_direction(keys, ascending, p, q, x, y);
    } else if column == "mtime"@ {
        numbers_go_in_direction(keys, ascending, p, q, a.mtime, b.mtime);
    } else if column == "name"@ {
        let (x, y) = (lowercase_name(a.path@), lowercase_name(b.path@));
        assert(f[p].name == x && f[q].name == y);
        order::text_keys_order_as_texts(x, y);
        order::text_keys_order_as_texts(y, x);
        order::text_keys_identify(x, y);
    } else if column == "duration"@ {
        if forall|k: int|
            0 <= k < list.len() ==> rounding::is_number((#[trigger] tracks[list[k]]).duration) {
            wanted_are_found_once(tracks, f, s, tracks.len());
            assert forall|k: int| 0 <= k < at.len() implies rounding::is_number(
                (#[trigger] tracks[at[k]]).duration,
            ) by {
                assert(is_wanted(tracks[at[k]], f[at[k]], s));
                assert(list.contains(at[k]));
                let m = choose|m: int| 0 <= m < list.len() && list[m] == at[k];
                assert(rounding::is_number(tracks[list[m]].duration));
            }
            let (x, y) = (rounding::order_key(a.duration), rounding::order_key(b.duration));
            numbers_go_in_direction(keys, ascending, p, q, x, y);
            rounding::keys_order_the_numbers(a.duration, b.duration);
        } else {
            let k = choose|k: int|
                0 <= k < list.len() && !rounding::is_number((#[trigger] tracks[list[k]]).duration);
            wanted_are_found_once(tracks, f, s, tracks.len());
            assert(is_wanted(tracks[list[k]], f[list[k]], s));
            assert(at.contains(list[k]));
            let m = choose|m: int| 0 <= m < at.len() && at[m] == list[k];
            assert(!rounding::is_number(tracks[at[m]].duration));
            assert(!orders(tracks, at, column));
            assert(!order::lex_less(Seq::<i64>::empty(), Seq::<i64>::empty()));
        }
    }
}

/// What is listed are the tracks whose path begins with the folder and in whose path, file name or
/// title the query stands, without regard to case, each once; an empty query finds every track.
pub proof fn lists_hold_what_is_searched_for(
    tracks: Seq<Track>,
    folder: Seq<char>,
    query: Seq<char>,
    column: Seq<char>,
    ascending: bool,
    k: int,
)
    ensures
        filtered(tracks, folder, query, column, ascending).no_duplicates(),
        filtered(tracks, folder, query, column, ascending).contains(k) <==> {
            &&& 0 <= k < tracks.len()
            &&& folder.len() <= tracks[k].path@.len() && tracks[k].path@.take(folder.len() as int)
                == folder
            &&& {
                let q = text::lowercase(query);
                ||| query.len() == 0
                ||| text::occurs_in(q, text::lowercase(tracks[k].path@))
                ||| paths::file_name(tracks[k].path@) matches Some(name) && text::occurs_in(
                    q,
                    text::lowercase(name),
                )
                ||| tracks[k].title matches Some(title) && text::occurs_in(
                    q,
                    text::lowercase(title@),
                )
            }
        },
{
    let f = all_forms(tracks);
    let s = search(folder, query, text::lowercase(query));
    let list = filtered(tracks, folder, query, column, ascending);
    a_list_holds_what_is_asked_for_in_order(tracks, f, s, column, ascending);
    text::lowercase_keeps_texts(query);
    if list.contains(k) {
        let m = choose|m: int| 0 <= m < list.len() && list[m] == k;
        assert(is_wanted(tracks[list[m]], f[list[m]], s));
    }
    if 0 <= k < tracks.len() {
        assert(f[k] == forms_of(tracks[k]));
        assert(is_wanted(tracks[k], f[k], s) ==> list.contains(k));
    }
}

/// A row shows the fields of its track: texts as they are and empty where there are none, the file
/// name or else the whole path, and numbers in decimal with their units and a dash where there are
/// none.
pub proof fn rows_show_the_fields(row: TrackRow, t: Track)
    requires
        shows(row, t),
    ensures
        i32::MIN <= t.id <= i32::MAX ==> row.id == t.id,
        row.path@ == t.path@,
        match paths::file_name(t.path@) {
            Some(name) => row.filename@ == name,
            None => row.filename@ == t.path@,
        },
        t.title matches Some(s) ==> row.title@ == s@,
        t.title is None ==> row.title@.len() == 0,
        t.artist matches Some(s) ==> row.artist@ == s@,
        t.artist is None ==> row.artist@.len() == 0,
        t.album matches Some(s) ==> row.album@ == s@,
        t.album is None ==> row.album@.len() == 0,
        row.duration == t.duration,
        match t.sample_rate {
            Some(n) => row.sample_rate@ == text::decimal(n as nat) + seq!['H', 'z'],
            None => row.sample_rate@ == seq!['-'],
        },
        match t.bit_depth {
            Some(n) => row.bit_depth@ == text::decimal(n as nat) + seq!['b', 'i', 't'],
            None => row.bit_depth@ == seq!['-'],
        },
        match t.channels {
            Some(n) => row.channels@ == text::decimal(n as nat) + seq!['c', 'h'],
            None => row.channels@ == seq!['-'],
        },
{
    reveal_strlit("-");
    reveal_strlit("Hz");
    reveal_strlit("bit");
    reveal_strlit("ch");
    assert("-"@ =~= seq!['-']);
    assert("Hz"@ =~= seq!['H', 'z']);
    assert("bit"@ =~= seq!['b', 'i', 't']);
    assert("ch"@ =~= seq!['c', 'h']);
}

} // verus!
