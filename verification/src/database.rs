//! The catalogue of tracks: its records, and what each request on it asks of an SQL store.
//!
//! A duration is a double-precision number of seconds, held as its encoding.

use crate::text;
use crate::text::decimal_text;
use vstd::hash_map::StringHashMap;
use vstd::prelude::*;
use vstd::string::*;

verus! {

/// A track of the catalogue.
#[derive(Debug, Clone)]
pub struct Track {
    pub id: i64,
    pub path: String,
    pub mtime: i64,
    pub title: Option<String>,
    pub artist: Option<String>,
    pub album: Option<String>,
    pub genre: Option<String>,
    pub duration: u64,
    pub sample_rate: Option<u32>,
    pub bit_depth: Option<u32>,
    pub channels: Option<u16>,
    pub comment: Option<String>,
    pub waveform: Option<Vec<u8>>,
}

/// What an analysis finds out about a file, to be written to the catalogue.
#[derive(Debug)]
pub struct TrackData {
    pub path: String,
    pub mtime: i64,
    pub size: i64,
    pub title: Option<String>,
    pub artist: Option<String>,
    pub album: Option<String>,
    pub genre: Option<String>,
    pub duration: u64,
    pub sample_rate: Option<u32>,
    pub bit_depth: Option<u32>,
    pub channels: Option<u16>,
    pub comment: Option<String>,
    pub waveform: Option<Vec<u8>>,
}

/// A row of the catalogue as it is read, without its waveform: a cell for each column of
/// `read_columns`, in that order.
#[derive(Debug)]
pub struct TrackCells {
    pub id: i64,
    pub path: String,
    pub mtime: i64,
    pub title: Option<String>,
    pub artist: Option<String>,
    pub album: Option<String>,
    pub genre: Option<String>,
    pub duration: u64,
    pub sample_rate: Option<u32>,
    pub bit_depth: Option<u32>,
    pub channels: Option<u16>,
    pub comment: Option<String>,
}

/// A value of the store. A real number is held as its double-precision encoding.
#[derive(Debug, PartialEq, Eq)]
pub enum Value {
    Null,
    Integer(i64),
    Real(u64),
    Text(String),
    Blob(Vec<u8>),
}

/// A column of the table of tracks.
#[derive(Debug, Clone, Copy, PartialEq, Eq, Structural)]
pub enum Column {
    Id,
    Path,
    Mtime,
    Size,
    Title,
    Artist,
    Album,
    Genre,
    Duration,
    SampleRate,
    BitDepth,
    Channels,
    Comment,
    Waveform,
}

/// A statement with the values of its parameters, first to last.
#[derive(Debug, PartialEq, Eq)]
pub struct Statement {
    pub sql: String,
    pub params: Vec<Value>,
}

/// A statement to be run once for each of several lists of parameter values, all or none.
#[derive(Debug, PartialEq, Eq)]
pub struct Batch {
    pub sql: String,
    pub rows: Vec<Vec<Value>>,
}

/// The name of a column.
pub open spec fn column_name(c: Column) -> Seq<char> {
    match c {
        Column::Id => "id"@,
        Column::Path => "path"@,
        Column::Mtime => "mtime"@,
        Column::Size => "size"@,
        Column::Title => "title"@,
        Column::Artist => "artist"@,
        Column::Album => "album"@,
        Column::Genre => "genre"@,
        Column::Duration => "duration"@,
        Column::SampleRate => "sample_rate"@,
        Column::BitDepth => "bit_depth"@,
        Column::Channels => "channels"@,
        Column::Comment => "comment"@,
        Column::Waveform => "waveform"@,
    }
}

/// The columns that are written, in the order of the parameters.
pub open spec fn written_columns() -> Seq<Column> {
    seq![
        Column::Path,
        Column::Mtime,
        Column::Size,
        Column::Title,
        Column::Artist,
        Column::Album,
        Column::Genre,
        Column::Duration,
        Column::SampleRate,
        Column::BitDepth,
        Column::Channels,
        Column::Comment,
        Column::Waveform,
    ]
}

/// The columns that are read of every track, in the order of the cells.
pub open spec fn read_columns() -> Seq<Column> {
    seq![
        Column::Id,
        Column::Path,
        Column::Mtime,
        Column::Title,
        Column::Artist,
        Column::Album,
        Column::Genre,
        Column::Duration,
        Column::SampleRate,
        Column::BitDepth,
        Column::Channels,
        Column::Comment,
    ]
}

/// An optional text as a value.
pub open spec fn text_value(o: Option<String>) -> Value {
    match o {
        Some(s) => Value::Text(s),
        None => Value::Null,
    }
}

/// An optional number as a value.
pub open spec fn number_value(o: Option<u32>) -> Value {
    match o {
        Some(n) => Value::Integer(n as i64),
        None => Value::Null,
    }
}

/// An optional small number as a value.
pub open spec fn small_number_value(o: Option<u16>) -> Value {
    match o {
        Some(n) => Value::Integer(n as i64),
        None => Value::Null,
    }
}

/// Optional bytes as a value.
pub open spec fn blob_value(o: Option<Vec<u8>>) -> Value {
    match o {
        Some(b) => Value::Blob(b),
        None => Value::Null,
    }
}

/// The values that are written for a record, one for each of `written_columns`.
pub open spec fn written_values(d: TrackData) -> Seq<Value> {
    seq![
        Value::Text(d.path),
        Value::Integer(d.mtime),
        Value::Integer(d.size),
        text_value(d.title),
        text_value(d.artist),
        text_value(d.album),
        text_value(d.genre),
        Value::Real(d.duration),
        number_value(d.sample_rate),
        number_value(d.bit_depth),
        small_number_value(d.channels),
        text_value(d.comment),
        blob_value(d.waveform),
    ]
}

/// The row that a record leaves in the table: each written column holds the value written for it.
pub open spec fn written_row(d: TrackData, id: i64) -> Map<Column, Value> {
    Map::new(
        |c: Column| c == Column::Id || written_columns().contains(c),
        |c: Column|
            if c == Column::Id {
                Value::Integer(id)
            } else {
                written_values(d)[written_columns().index_of(c)]
            },
    )
}

/// `cells` are the values of the columns `read_columns` of a row.
pub open spec fn cells_of_row(row: Map<Column, Value>, cells: TrackCells) -> bool {
    let values = read_columns().map_values(|c: Column| row[c]);
    values == seq![
        Value::Integer(cells.id),
        Value::Text(cells.path),
        Value::Integer(cells.mtime),
        text_value(cells.title),
        text_value(cells.artist),
        text_value(cells.album),
        text_value(cells.genre),
        Value::Real(cells.duration),
        number_value(cells.sample_rate),
        number_value(cells.bit_depth),
        small_number_value(cells.channels),
        text_value(cells.comment),
    ]
}

/// Parts with a comma and a space between them.
pub open spec fn list(parts: Seq<Seq<char>>) -> Seq<char>
    decreases parts.len(),
{
    if parts.len() == 0 {
        Seq::empty()
    } else if parts.len() == 1 {
        parts[0]
    } else {
        list(parts.drop_last()) + ", "@ + parts.last()
    }
}

/// The names of columns.
pub open spec fn names(cs: Seq<Column>) -> Seq<Seq<char>> {
    cs.map_values(|c: Column| column_name(c))
}

/// Inserts a row, or replaces what the row with the same path holds.
pub open spec fn upsert_sql() -> Seq<char> {
    let cs = written_columns();
    "INSERT INTO tracks ("@ + list(names(cs)) + ") VALUES ("@ + list(
        Seq::new(cs.len(), |i: int| "?"@ + text::decimal((i + 1) as nat)),
    ) + ") ON CONFLICT(path) DO UPDATE SET "@ + list(
        Seq::new(
            (cs.len() - 1) as nat,
            |i: int| column_name(cs[i + 1]) + " = excluded."@ + column_name(cs[i + 1]),
        ),
    )
}

/// Reads columns of the table of tracks, of the rows that `condition` picks.
pub open spec fn select_sql(cs: Seq<Column>, condition: Seq<char>) -> Seq<char> {
    "SELECT "@ + list(names(cs)) + " FROM tracks"@ + condition
}

/// The track that a row holds.
pub open spec fn track_of(cells: TrackCells, waveform: Option<Vec<u8>>) -> Track {
    Track {
        id: cells.id,
        path: cells.path,
        mtime: cells.mtime,
        title: cells.title,
        artist: cells.artist,
        album: cells.album,
        genre: cells.genre,
        duration: cells.duration,
        sample_rate: cells.sample_rate,
        bit_depth: cells.bit_depth,
        channels: cells.channels,
        comment: cells.comment,
        waveform,
    }
}

/// Reading all tracks gives one track for each row, with the waveform left out and nothing else,
/// whatever is stored: what distinguishes the rows distinguishes the tracks.
pub proof fn all_tracks_are_read_without_waveforms(
    rows: Seq<TrackCells>,
    waveforms: Seq<Option<Vec<u8>>>,
)
    requires
        waveforms.len() == rows.len(),
        forall|i: int, j: int|
            0 <= i < j < rows.len() ==> (#[trigger] rows[i]).id != (#[trigger] rows[j]).id
                && rows[i].path@ != rows[j].path@,
    ensures
        ({
            let tracks = rows.map_values(|cells: TrackCells| track_of(cells, None));
            &&& tracks.len() == rows.len()
            &&& forall|i: int|
                0 <= i < tracks.len() ==> #[trigger] tracks[i] == (Track {
                    waveform: None,
                    ..track_of(rows[i], waveforms[i])
                })
            &&& forall|i: int, j: int|
                0 <= i < j < tracks.len() ==> (#[trigger] tracks[i]).id != (#[trigger] tracks[j]).id
                    && tracks[i].path@ != tracks[j].path@
        }),
{
    let tracks = rows.map_values(|cells: TrackCells| track_of(cells, None));
    assert forall|i: int, j: int| 0 <= i < j < tracks.len() implies (#[trigger] tracks[i]).id != (
    #[trigger] tracks[j]).id && tracks[i].path@ != tracks[j].path@ by {
        assert(rows[i].id != rows[j].id);
    }
}

/// Reading a track gives back what was written: where a record was written to a row, the cells read
/// of that row make up a track with the fields of the record, and the column of waveforms holds its
/// waveform.
pub proof fn reading_gives_back_what_was_written(
    d: TrackData,
    id: i64,
    cells: TrackCells,
    waveform: Option<Vec<u8>>,
)
    requires
        cells_of_row(written_row(d, id), cells),
        written_row(d, id)[Column::Waveform] == blob_value(waveform),
    ensures
        track_of(cells, waveform) == (Track {
            id,
            path: d.path,
            mtime: d.mtime,
            title: d.title,
            artist: d.artist,
            album: d.album,
            genre: d.genre,
            duration: d.duration,
            sample_rate: d.sample_rate,
            bit_depth: d.bit_depth,
            channels: d.channels,
            comment: d.comment,
            waveform: d.waveform,
        }),
{
    let row = written_row(d, id);
    let cs = written_columns();
    let values = read_columns().map_values(|c: Column| row[c]);
    assert forall|i: int| 0 <= i < cs.len() implies row[#[trigger] cs[i]] == written_values(d)[i] by {
        assert(cs.contains(cs[i]));
        assert(cs.index_of(cs[i]) == i);
    }
    assert(row[cs[0]] == Value::Text(d.path));
    assert(row[cs[1]] == Value::Integer(d.mtime));
    assert(row[cs[3]] == text_value(d.title));
    assert(row[cs[4]] == text_value(d.artist));
    assert(row[cs[5]] == text_value(d.album));
    assert(row[cs[6]] == text_value(d.genre));
    assert(row[cs[7]] == Value::Real(d.duration));
    assert(row[cs[8]] == number_value(d.sample_rate));
    assert(row[cs[9]] == number_value(d.bit_depth));
    assert(row[cs[10]] == small_number_value(d.channels));
    assert(row[cs[11]] == text_value(d.comment));
    assert(row[cs[12]] == blob_value(d.waveform));
    assert(values[0] == Value::Integer(id));
    assert(values[1] == row[cs[0]]);
    assert(values[2] == row[cs[1]]);
    assert(values[3] == row[cs[3]]);
    assert(values[4] == row[cs[4]]);
    assert(values[5] == row[cs[5]]);
    assert(values[6] == row[cs[6]]);
    assert(values[7] == row[cs[7]]);
    assert(values[8] == row[cs[8]]);
    assert(values[9] == row[cs[9]]);
    assert(values[10] == row[cs[10]]);
    assert(values[11] == row[cs[11]]);
}

fn column_text(c: Column) -> (r: &'static str)
    ensures
        r@ == column_name(c),
{
    match c {
        Column::Id => "id",
        Column::Path => "path",
        Column::Mtime => "mtime",
        Column::Size => "size",
        Column::Title => "title",
        Column::Artist => "artist",
        Column::Album => "album",
        Column::Genre => "genre",
        Column::Duration => "duration",
        Column::SampleRate => "sample_rate",
        Column::BitDepth => "bit_depth",
        Column::Channels => "channels",
        Column::Comment => "comment",
        Column::Waveform => "waveform",
    }
}

/// Adds a part to a list.
proof fn list_push(parts: Seq<Seq<char>>, part: Seq<char>)
    ensures
        parts.len() == 0 ==> list(parts.push(part)) == part,
        parts.len() > 0 ==> list(parts.push(part)) == list(parts) + ", "@ + part,
{
    assert(parts.push(part).drop_last() =~= parts);
}

fn names_text(cs: &Vec<Column>) -> (r: String)
    ensures
        r@ == list(names(cs@)),
{
    let mut out: String = String::new();
    let mut k: usize = 0;
    let ghost all = names(cs@);
    while k < cs.len()
        invariant
            k <= cs@.len(),
            all == names(cs@),
            out@ == list(all.take(k as int)),
        decreases cs@.len() - k,
    {
        proof {
            list_push(all.take(k as int), all[k as int]);
            assert(all.take(k + 1) =~= all.take(k as int).push(all[k as int]));
        }
        if k > 0 {
            out.append(", ");
        }
        out.append(column_text(cs[k]));
        assert(k == 0 ==> out@ =~= all[0]);
        k += 1;
    }
    assert(all.take(all.len() as int) =~= all);
    out
}

fn placeholders_text(count: usize) -> (r: String)
    requires
        count < usize::MAX,
    ensures
        r@ == list(Seq::new(count as nat, |i: int| "?"@ + text::decimal((i + 1) as nat))),
{
    let mut out: String = String::new();
    let mut k: usize = 0;
    let ghost all = Seq::new(count as nat, |i: int| "?"@ + text::decimal((i + 1) as nat));
    while k < count
        invariant
            k <= count < usize::MAX,
            all == Seq::new(count as nat, |i: int| "?"@ + text::decimal((i + 1) as nat)),
            out@ == list(all.take(k as int)),
        decreases count - k,
    {
        proof {
            list_push(all.take(k as int), all[k as int]);
            assert(all.take(k + 1) =~= all.take(k as int).push(all[k as int]));
        }
        let ghost before = out@;
        if k > 0 {
            out.append(", ");
        }
        out.append("?");
        out.append(decimal_text((k + 1) as u64).as_str());
        assert(k == 0 ==> out@ =~= all[0]);
        assert(k > 0 ==> out@ =~= before + ", "@ + all[k as int]);
        k += 1;
    }
    assert(all.take(all.len() as int) =~= all);
    out
}

fn replacements_text(cs: &Vec<Column>) -> (r: String)
    requires
        cs@.len() > 0,
    ensures
        r@ == list(
            Seq::new(
                (cs@.len() - 1) as nat,
                |i: int| column_name(cs@[i + 1]) + " = excluded."@ + column_name(cs@[i + 1]),
            ),
        ),
{
    let mut out: String = String::new();
    let mut k: usize = 0;
    let ghost all = Seq::new(
        (cs@.len() - 1) as nat,
        |i: int| column_name(cs@[i + 1]) + " = excluded."@ + column_name(cs@[i + 1]),
    );
    while k < cs.len() - 1
        invariant
            k < cs@.len(),
            all == Seq::new(
                (cs@.len() - 1) as nat,
                |i: int| column_name(cs@[i + 1]) + " = excluded."@ + column_name(cs@[i + 1]),
            ),
            out@ == list(all.take(k as int)),
        decreases cs@.len() - k,
    {
        proof {
            list_push(all.take(k as int), all[k as int]);
            assert(all.take(k + 1) =~= all.take(k as int).push(all[k as int]));
        }
        let ghost before = out@;
        if k > 0 {
            out.append(", ");
        }
        out.append(column_text(cs[k + 1]));
        out.append(" = excluded.");
        out.append(column_text(cs[k + 1]));
        assert(k == 0 ==> out@ =~= all[0]);
        assert(k > 0 ==> out@ =~= before + ", "@ + all[k as int]);
        k += 1;
    }
    assert(all.take(all.len() as int) =~= all);
    out
}

fn columns_written() -> (r: Vec<Column>)
    ensures
        r@ == written_columns(),
{
    let r: Vec<Column> = vec![
        Column::Path,
        Column::Mtime,
        Column::Size,
        Column::Title,
        Column::Artist,
        Column::Album,
        Column::Genre,
        Column::Duration,
        Column::SampleRate,
        Column::BitDepth,
        Column::Channels,
        Column::Comment,
        Column::Waveform,
    ];
    assert(r@ =~= written_columns());
    r
}

fn columns_read() -> (r: Vec<Column>)
    ensures
        r@ == read_columns(),
{
    let r: Vec<Column> = vec![
        Column::Id,
        Column::Path,
        Column::Mtime,
        Column::Title,
        Column::Artist,
        Column::Album,
        Column::Genre,
        Column::Duration,
        Column::SampleRate,
        Column::BitDepth,
        Column::Channels,
        Column::Comment,
    ];
    assert(r@ =~= read_columns());
    r
}

fn upsert_text() -> (r: String)
    ensures
        r@ == upsert_sql(),
{
    let cs: Vec<Column> = columns_written();
    let mut out: String = "INSERT INTO tracks (".to_owned();
    out.append(names_text(&cs).as_str());
    out.append(") VALUES (");
    out.append(placeholders_text(cs.len()).as_str());
    out.append(") ON CONFLICT(path) DO UPDATE SET ");
    out.append(replacements_text(&cs).as_str());
    out
}

fn select_text(cs: &Vec<Column>, condition: &str) -> (r: String)
    ensures
        r@ == select_sql(cs@, condition@),
{
    let mut out: String = "SELECT ".to_owned();
    out.append(names_text(cs).as_str());
    out.append(" FROM tracks");
    out.append(condition);
    out
}

fn of_text(o: Option<String>) -> (r: Value)
    ensures
        r == text_value(o),
{
    match o {
        Some(s) => Value::Text(s),
        None => Value::Null,
    }
}

fn of_number(o: Option<u32>) -> (r: Value)
    ensures
        r == number_value(o),
{
    match o {
        Some(n) => Value::Integer(n as i64),
        None => Value::Null,
    }
}

fn of_small_number(o: Option<u16>) -> (r: Value)
    ensures
        r == small_number_value(o),
{
    match o {
        Some(n) => Value::Integer(n as i64),
        None => Value::Null,
    }
}

fn of_blob(o: Option<Vec<u8>>) -> (r: Value)
    ensures
        r == blob_value(o),
{
    match o {
        Some(b) => Value::Blob(b),
        None => Value::Null,
    }
}

fn values_of(d: TrackData) -> (r: Vec<Value>)
    ensures
        r@ == written_values(d),
{
    let r: Vec<Value> = vec![
        Value::Text(d.path),
        Value::Integer(d.mtime),
        Value::Integer(d.size),
        of_text(d.title),
        of_text(d.artist),
        of_text(d.album),
        of_text(d.genre),
        Value::Real(d.duration),
        of_number(d.sample_rate),
        of_number(d.bit_depth),
        of_small_number(d.channels),
        of_text(d.comment),
        of_blob(d.waveform),
    ];
    assert(r@ =~= written_values(d));
    r
}

/// The columns that older tables may lack, in the order in which they are added.
pub open spec fn late_columns() -> Seq<Column> {
    seq![Column::SampleRate, Column::BitDepth, Column::Channels, Column::Comment]
}

/// The type of a column that is added to an older table.
pub open spec fn late_column_type(c: Column) -> Seq<char> {
    if c == Column::Comment {
        "TEXT"@
    } else {
        "INTEGER"@
    }
}

/// Creates the table of tracks where there is none.
pub open spec fn create_table_sql() -> Seq<char> {
    "CREATE TABLE IF NOT EXISTS tracks (id INTEGER PRIMARY KEY, path TEXT UNIQUE NOT NULL, mtime INTEGER NOT NULL, size INTEGER NOT NULL, title TEXT, artist TEXT, album TEXT, genre TEXT, duration REAL, sample_rate INTEGER, bit_depth INTEGER, channels INTEGER, comment TEXT, waveform BLOB, spectrogram BLOB)"@
}

/// Creates the index of paths where there is none.
pub open spec fn create_index_sql() -> Seq<char> {
    "CREATE INDEX IF NOT EXISTS idx_tracks_path ON tracks(path)"@
}

/// Counts the columns of the table that have a given name.
pub open spec fn count_column_sql() -> Seq<char> {
    "SELECT count(*) FROM pragma_table_info('tracks') WHERE name=?"@
}

/// Adds a column to an older table.
pub open spec fn add_column_sql(c: Column) -> Seq<char> {
    "ALTER TABLE tracks ADD COLUMN "@ + column_name(c) + " "@ + late_column_type(c)
}

/// How far the table has been prepared.
#[derive(Debug, Clone, Copy, PartialEq, Eq, Structural)]
pub enum SchemaStage {
    /// Nothing has been done.
    Start,
    /// The late columns before this one are there; it comes next.
    Check(usize),
    /// This late column has been counted.
    Counted(usize),
    /// All is done.
    Ready,
}

/// What to do next to prepare the table.
#[derive(Debug, PartialEq, Eq)]
pub enum SchemaAction {
    /// Run a statement.
    Run(Statement),
    /// Run a statement and hand back the number that it returns, if it returns one.
    Count(Statement),
    /// Nothing.
    Nothing,
}

/// A count shows that the column is there; a count that could not be had does not.
pub open spec fn is_present(count: Option<i64>) -> bool {
    count matches Some(n) && n > 0
}

/// The stage that follows.
pub open spec fn schema_stage_after(stage: SchemaStage) -> SchemaStage {
    match stage {
        SchemaStage::Start => SchemaStage::Check(0),
        SchemaStage::Check(k) => if k < late_columns().len() {
            SchemaStage::Counted(k)
        } else {
            SchemaStage::Ready
        },
        SchemaStage::Counted(k) => SchemaStage::Check((k + 1) as usize),
        SchemaStage::Ready => SchemaStage::Ready,
    }
}

/// The statement without parameters that a stage runs, if it runs one.
pub open spec fn schema_sql_at(stage: SchemaStage, count: Option<i64>) -> Option<Seq<char>> {
    match stage {
        SchemaStage::Start => Some(create_table_sql()),
        SchemaStage::Check(k) => if k < late_columns().len() {
            None
        } else {
            Some(create_index_sql())
        },
        SchemaStage::Counted(k) => if is_present(count) {
            None
        } else {
            Some(add_column_sql(late_columns()[k as int]))
        },
        SchemaStage::Ready => None,
    }
}

/// The statements that are run from late column `k` on, where `counts` are the counts of the late
/// columns.
pub open spec fn schema_statements(counts: Seq<Option<i64>>, k: nat) -> Seq<Seq<char>>
    decreases late_columns().len() - k,
{
    if k < late_columns().len() {
        let here = match schema_sql_at(SchemaStage::Counted(k as usize), counts[k as int]) {
            Some(sql) => seq![sql],
            None => Seq::<Seq<char>>::empty(),
        };
        here + schema_statements(counts, k + 1)
    } else {
        seq![create_index_sql()]
    }
}

/// A table is left with all late columns: each was counted, or the statement that adds it was run.
pub proof fn late_columns_are_added(counts: Seq<Option<i64>>, k: nat, c: nat)
    requires
        k <= c < late_columns().len(),
        counts.len() == late_columns().len(),
    ensures
        is_present(counts[c as int]) || schema_statements(counts, k).contains(
            add_column_sql(late_columns()[c as int]),
        ),
    decreases c - k,
{
    let all = schema_statements(counts, k);
    let rest = schema_statements(counts, k + 1);
    if k < c {
        late_columns_are_added(counts, k + 1, c);
        let sql = add_column_sql(late_columns()[c as int]);
        if rest.contains(sql) {
            let i = choose|i: int| 0 <= i < rest.len() && rest[i] == sql;
            assert(all[all.len() - rest.len() + i] == sql);
        }
    } else if !is_present(counts[c as int]) {
        assert(all[0] == add_column_sql(late_columns()[c as int]));
    }
}

/// A table that has all late columns is not changed: the only statement behind the counts creates
/// the index where there is none.
pub proof fn a_complete_table_is_left_alone(counts: Seq<Option<i64>>, k: nat)
    requires
        k <= late_columns().len(),
        forall|c: int| k <= c < late_columns().len() ==> is_present(#[trigger] counts[c]),
    ensures
        schema_statements(counts, k) == seq![create_index_sql()],
    decreases late_columns().len() - k,
{
    if k < late_columns().len() {
        assert(is_present(counts[k as int]));
        a_complete_table_is_left_alone(counts, k + 1);
        assert(schema_statements(counts, k) =~= seq![create_index_sql()]);
    }
}

/// The requests on the catalogue, each as the statement that carries it out.
pub struct Database;

impl Database {
    /// The settings that a store is opened with, as names and values.
    pub fn settings() -> (r: Vec<(&'static str, &'static str)>)
        ensures
            r@.len() == 2,
            r@[0].0@ == "journal_mode"@ && r@[0].1@ == "WAL"@,
            r@[1].0@ == "synchronous"@ && r@[1].1@ == "NORMAL"@,
    {
        vec![("journal_mode", "WAL"), ("synchronous", "NORMAL")]
    }

    /// Prepares the table step by step: creates it where there is none, adds the columns that an
    /// older one lacks, and creates the index. `count` is what the last count returned.
    pub fn init_schema(stage: SchemaStage, count: Option<i64>) -> (r: (SchemaStage, SchemaAction))
        requires
            stage matches SchemaStage::Counted(k) ==> k < late_columns().len(),
        ensures
            r.0 == schema_stage_after(stage),
            match r.1 {
                SchemaAction::Run(s) => {
                    &&& schema_sql_at(stage, count) == Some(s.sql@)
                    &&& s.params@ == Seq::<Value>::empty()
                },
                SchemaAction::Count(s) => {
                    &&& stage matches SchemaStage::Check(k)
                    &&& k < late_columns().len()
                    &&& s.sql@ == count_column_sql()
                    &&& s.params@.len() == 1
                    &&& s.params@[0] matches Value::Text(name)
                    &&& name@ == column_name(late_columns()[k as int])
                },
                SchemaAction::Nothing => {
                    ||| stage is Counted && is_present(count)
                    ||| stage is Ready
                },
            },
    {
        let late: Vec<Column> = vec![
            Column::SampleRate,
            Column::BitDepth,
            Column::Channels,
            Column::Comment,
        ];
        assert(late@ =~= late_columns());
        match stage {
            SchemaStage::Start => {
                let sql: String = "CREATE TABLE IF NOT EXISTS tracks (id INTEGER PRIMARY KEY, path TEXT UNIQUE NOT NULL, mtime INTEGER NOT NULL, size INTEGER NOT NULL, title TEXT, artist TEXT, album TEXT, genre TEXT, duration REAL, sample_rate INTEGER, bit_depth INTEGER, channels INTEGER, comment TEXT, waveform BLOB, spectrogram BLOB)".to_owned();
                (SchemaStage::Check(0), SchemaAction::Run(Statement { sql, params: Vec::new() }))
            },
            SchemaStage::Check(k) => {
                if k < late.len() {
                    let sql: String =
                        "SELECT count(*) FROM pragma_table_info('tracks') WHERE name=?".to_owned();
                    let name: String = column_text(late[k]).to_owned();
                    (
                        SchemaStage::Counted(k),
                        SchemaAction::Count(Statement { sql, params: vec![Value::Text(name)] }),
                    )
                } else {
                    let sql: String =
                        "CREATE INDEX IF NOT EXISTS idx_tracks_path ON tracks(path)".to_owned();
                    (SchemaStage::Ready, SchemaAction::Run(Statement { sql, params: Vec::new() }))
                }
            },
            SchemaStage::Counted(k) => {
                let present: bool = match count {
                    Some(n) => n > 0,
                    None => false,
                };
                if present {
                    return (SchemaStage::Check(k + 1), SchemaAction::Nothing);
                }
                let c: Column = late[k];
                let mut sql: String = "ALTER TABLE tracks ADD COLUMN ".to_owned();
                sql.append(column_text(c));
                sql.append(" ");
                sql.append(if c == Column::Comment {
                    "TEXT"
                } else {
                    "INTEGER"
                });
                (SchemaStage::Check(k + 1), SchemaAction::Run(Statement { sql, params: Vec::new() }))
            },
            SchemaStage::Ready => (SchemaStage::Ready, SchemaAction::Nothing),
        }
    }

    /// Reads the modification time and the size under which the file at a path was catalogued.
    pub fn get_track_metadata(path: &str) -> (r: Statement)
        ensures
            r.sql@ == select_sql(seq![Column::Mtime, Column::Size], " WHERE path = ?"@),
            r.params@.len() == 1,
            r.params@[0] matches Value::Text(p) && p@ == path@,
    {
        let cs: Vec<Column> = vec![Column::Mtime, Column::Size];
        assert(cs@ =~= seq![Column::Mtime, Column::Size]);
        Statement {
            sql: select_text(&cs, " WHERE path = ?"),
            params: vec![Value::Text(path.to_owned())],
        }
    }

    /// Reads the path, the modification time and the size of every track.
    pub fn get_all_metadata() -> (r: Statement)
        ensures
            r.sql@ == select_sql(seq![Column::Path, Column::Mtime, Column::Size], ""@),
            r.params@ == Seq::<Value>::empty(),
    {
        let cs: Vec<Column> = vec![Column::Path, Column::Mtime, Column::Size];
        assert(cs@ =~= seq![Column::Path, Column::Mtime, Column::Size]);
        Statement { sql: select_text(&cs, ""), params: Vec::new() }
    }

    /// Writes a record: a new row, or the new contents of the row with the same path.
    pub fn upsert_track(data: TrackData) -> (r: Statement)
        ensures
            r.sql@ == upsert_sql(),
            r.params@ == written_values(data),
    {
        Statement { sql: upsert_text(), params: values_of(data) }
    }

    /// Writes several records, in their order.
    pub fn batch_upsert_tracks(tracks: Vec<TrackData>) -> (r: Batch)
        ensures
            r.sql@ == upsert_sql(),
            r.rows@.len() == tracks@.len(),
            forall|i: int|
                0 <= i < tracks@.len() ==> (#[trigger] r.rows@[i])@ == written_values(tracks@[i]),
    {
        let mut rows: Vec<Vec<Value>> = Vec::new();
        for track in it: tracks
            invariant
                it.seq() == tracks@,
                rows@.len() == it.index(),
                forall|i: int|
                    0 <= i < it.index() ==> (#[trigger] rows@[i])@ == written_values(tracks@[i]),
        {
            rows.push(values_of(track));
        }
        Batch { sql: upsert_text(), rows }
    }

    /// Reads the waveform of the track with an identifier.
    pub fn get_track_waveform(id: i64) -> (r: Statement)
        ensures
            r.sql@ == select_sql(seq![Column::Waveform], " WHERE id = ?"@),
            r.params@ == seq![Value::Integer(id)],
    {
        let cs: Vec<Column> = vec![Column::Waveform];
        assert(cs@ =~= seq![Column::Waveform]);
        let params: Vec<Value> = vec![Value::Integer(id)];
        assert(params@ =~= seq![Value::Integer(id)]);
        Statement { sql: select_text(&cs, " WHERE id = ?"), params }
    }

    /// The track that a row holds, with its waveform left out.
    pub fn row_to_track_no_waveform(cells: TrackCells) -> (r: Track)
        ensures
            r == track_of(cells, None),
    {
        Self::row_to_track(cells, None)
    }

    /// The track that a row holds.
    pub fn row_to_track(cells: TrackCells, waveform: Option<Vec<u8>>) -> (r: Track)
        ensures
            r == track_of(cells, waveform),
    {
        Track {
            id: cells.id,
            path: cells.path,
            mtime: cells.mtime,
            title: cells.title,
            artist: cells.artist,
            album: cells.album,
            genre: cells.genre,
            duration: cells.duration,
            sample_rate: cells.sample_rate,
            bit_depth: cells.bit_depth,
            channels: cells.channels,
            comment: cells.comment,
            waveform,
        }
    }

    /// Reads the track with a path, its waveform behind the other cells.
    pub fn get_track_by_path(path: &str) -> (r: Statement)
        ensures
            r.sql@ == select_sql(read_columns().push(Column::Waveform), " WHERE path = ?"@),
            r.params@.len() == 1,
            r.params@[0] matches Value::Text(p) && p@ == path@,
    {
        let mut cs: Vec<Column> = columns_read();
        cs.push(Column::Waveform);
        Statement {
            sql: select_text(&cs, " WHERE path = ?"),
            params: vec![Value::Text(path.to_owned())],
        }
    }

    /// Reads every track, without the waveforms.
    pub fn get_all_tracks() -> (r: Statement)
        ensures
            r.sql@ == select_sql(read_columns(), ""@),
            r.params@ == Seq::<Value>::empty(),
    {
        Statement { sql: select_text(&columns_read(), ""), params: Vec::new() }
    }

    /// Removes every track whose path is like the prefix with anything behind it.
    pub fn remove_tracks_by_prefix(prefix: &str) -> (r: Statement)
        ensures
            r.sql@ == "DELETE FROM tracks WHERE path LIKE ?"@,
            r.params@.len() == 1,
            r.params@[0] matches Value::Text(pattern) && pattern@ == prefix@ + "%"@,
    {
        let mut pattern: String = prefix.to_owned();
        pattern.append("%");
        Statement {
            sql: "DELETE FROM tracks WHERE path LIKE ?".to_owned(),
            params: vec![Value::Text(pattern)],
        }
    }
}

/// The modification time and the size under which files were catalogued, by path.
pub struct MetadataIndex {
    map: StringHashMap<(i64, i64)>,
}

impl View for MetadataIndex {
    type V = Map<Seq<char>, (i64, i64)>;

    closed spec fn view(&self) -> Map<Seq<char>, (i64, i64)> {
        self.map@
    }
}

/// What an index holds after rows were entered in their order: of two rows with the same path, the
/// later one counts.
pub open spec fn index_of_rows(rows: Seq<(String, (i64, i64))>) -> Map<Seq<char>, (i64, i64)>
    decreases rows.len(),
{
    if rows.len() == 0 {
        Map::empty()
    } else {
        index_of_rows(rows.drop_last()).insert(rows.last().0@, rows.last().1)
    }
}

/// No two rows have the same path.
pub open spec fn paths_are_distinct(rows: Seq<(String, (i64, i64))>) -> bool {
    forall|i: int, j: int|
        0 <= i < j < rows.len() ==> (#[trigger] rows[i]).0@ != (#[trigger] rows[j]).0@
}

/// An index answers for each row: where no path occurs twice, it holds what each row says under the
/// path of that row, and nothing else.
pub proof fn an_index_answers_for_each_row(rows: Seq<(String, (i64, i64))>)
    requires
        paths_are_distinct(rows),
    ensures
        forall|i: int|
            0 <= i < rows.len() ==> {
                &&& index_of_rows(rows).contains_key((#[trigger] rows[i]).0@)
                &&& index_of_rows(rows)[rows[i].0@] == rows[i].1
            },
        forall|path: Seq<char>| #[trigger]
            index_of_rows(rows).contains_key(path) ==> exists|i: int|
                0 <= i < rows.len() && (#[trigger] rows[i]).0@ == path,
    decreases rows.len(),
{
    if rows.len() > 0 {
        let front = rows.drop_last();
        let last = rows.len() - 1;
        assert forall|i: int, j: int| 0 <= i < j < front.len() implies (#[trigger] front[i]).0@ != (
        #[trigger] front[j]).0@ by {
            assert(rows[i].0@ != rows[j].0@);
        }
        an_index_answers_for_each_row(front);
        assert forall|i: int| 0 <= i < rows.len() implies {
            &&& index_of_rows(rows).contains_key((#[trigger] rows[i]).0@)
            &&& index_of_rows(rows)[rows[i].0@] == rows[i].1
        } by {
            if i < last {
                assert(front[i] == rows[i]);
                assert(rows[i].0@ != rows[last].0@);
            }
        }
        assert forall|path: Seq<char>| #[trigger]
            index_of_rows(rows).contains_key(path) implies exists|i: int|
            0 <= i < rows.len() && (#[trigger] rows[i]).0@ == path by {
            if path == rows[last].0@ {
                assert(rows[last].0@ == path);
            } else {
                assert(index_of_rows(front).contains_key(path));
                let i = choose|i: int| 0 <= i < front.len() && (#[trigger] front[i]).0@ == path;
                assert(rows[i].0@ == path);
            }
        }
    }
}

impl MetadataIndex {
    /// Enters rows of paths, modification times and sizes.
    pub fn from_rows(rows: Vec<(String, (i64, i64))>) -> (r: Self)
        ensures
            r@ == index_of_rows(rows@),
    {
        let mut map: StringHashMap<(i64, i64)> = StringHashMap::new();
        for row in it: rows
            invariant
                it.seq() == rows@,
                map@ == index_of_rows(rows@.take(it.index() as int)),
        {
            proof {
                let n = it.index() as int;
                assert(rows@.take(n + 1).drop_last() =~= rows@.take(n));
            }
            map.insert(row.0, row.1);
        }
        assert(rows@.take(rows@.len() as int) =~= rows@);
        MetadataIndex { map }
    }

    /// What was entered for a path.
    pub fn get(&self, path: &str) -> (r: Option<(i64, i64)>)
        ensures
            r == if self@.contains_key(path@) {
                Some(self@[path@])
            } else {
                None
            },
    {
        match self.map.get(path) {
            Some(found) => Some(*found),
            None => None,
        }
    }
}

/// Each written column gets the field of its name, nothing where the field is missing, and the number
/// itself where it is a number.
pub proof fn each_column_gets_its_field(d: TrackData)
    ensures
        ({
            let v = written_values(d);
            let c = written_columns();
            &&& c.len() == 13 && v.len() == 13
            &&& c[0] == Column::Path && v[0] == Value::Text(d.path)
            &&& c[1] == Column::Mtime && v[1] == Value::Integer(d.mtime)
            &&& c[2] == Column::Size && v[2] == Value::Integer(d.size)
            &&& c[3] == Column::Title && match d.title {
                Some(s) => v[3] == Value::Text(s),
                None => v[3] == Value::Null,
            }
            &&& c[4] == Column::Artist && match d.artist {
                Some(s) => v[4] == Value::Text(s),
                None => v[4] == Value::Null,
            }
            &&& c[5] == Column::Album && match d.album {
                Some(s) => v[5] == Value::Text(s),
                None => v[5] == Value::Null,
            }
            &&& c[6] == Column::Genre && match d.genre {
                Some(s) => v[6] == Value::Text(s),
                None => v[6] == Value::Null,
            }
            &&& c[7] == Column::Duration && v[7] == Value::Real(d.duration)
            &&& c[8] == Column::SampleRate && match d.sample_rate {
                Some(n) => v[8] matches Value::Integer(k) && k == n,
                None => v[8] == Value::Null,
            }
            &&& c[9] == Column::BitDepth && match d.bit_depth {
                Some(n) => v[9] matches Value::Integer(k) && k == n,
                None => v[9] == Value::Null,
            }
            &&& c[10] == Column::Channels && match d.channels {
                Some(n) => v[10] matches Value::Integer(k) && k == n,
                None => v[10] == Value::Null,
            }
            &&& c[11] == Column::Comment && match d.comment {
                Some(s) => v[11] == Value::Text(s),
                None => v[11] == Value::Null,
            }
            &&& c[12] == Column::Waveform && match d.waveform {
                Some(b) => v[12] == Value::Blob(b),
                None => v[12] == Value::Null,
            }
        }),
{
}

/// A track has the cells of its row, each in the field of its column.
pub proof fn each_field_gets_its_cell(cells: TrackCells, waveform: Option<Vec<u8>>)
    ensures
        ({
            let t = track_of(cells, waveform);
            &&& t.id == cells.id && t.path == cells.path && t.mtime == cells.mtime
            &&& t.title == cells.title && t.artist == cells.artist && t.album == cells.album
            &&& t.genre == cells.genre && t.comment == cells.comment
            &&& t.duration == cells.duration && t.sample_rate == cells.sample_rate
            &&& t.bit_depth == cells.bit_depth && t.channels == cells.channels
            &&& t.waveform == waveform
        }),
        read_columns() == seq![
            Column::Id,
            Column::Path,
            Column::Mtime,
            Column::Title,
            Column::Artist,
            Column::Album,
            Column::Genre,
            Column::Duration,
            Column::SampleRate,
            Column::BitDepth,
            Column::Channels,
            Column::Comment,
        ],
{
}

/// The columns that an older table may lack are added under their names, numbers as integers and the
/// comment as text.
pub proof fn late_columns_are_added_under_their_names()
    ensures
        late_columns().len() == 4,
        add_column_sql(late_columns()[0]) == "ALTER TABLE tracks ADD COLUMN sample_rate INTEGER"@,
        add_column_sql(late_columns()[1]) == "ALTER TABLE tracks ADD COLUMN bit_depth INTEGER"@,
        add_column_sql(late_columns()[2]) == "ALTER TABLE tracks ADD COLUMN channels INTEGER"@,
        add_column_sql(late_columns()[3]) == "ALTER TABLE tracks ADD COLUMN comment TEXT"@,
        column_name(late_columns()[0]) == "sample_rate"@,
        column_name(late_columns()[1]) == "bit_depth"@,
        column_name(late_columns()[2]) == "channels"@,
        column_name(late_columns()[3]) == "comment"@,
{
    reveal_strlit("ALTER TABLE tracks ADD COLUMN ");
    reveal_strlit(" ");
    reveal_strlit("INTEGER");
    reveal_strlit("TEXT");
    reveal_strlit("sample_rate");
    reveal_strlit("bit_depth");
    reveal_strlit("channels");
    reveal_strlit("comment");
    reveal_strlit("ALTER TABLE tracks ADD COLUMN sample_rate INTEGER");
    reveal_strlit("ALTER TABLE tracks ADD COLUMN bit_depth INTEGER");
    reveal_strlit("ALTER TABLE tracks ADD COLUMN channels INTEGER");
    reveal_strlit("ALTER TABLE tracks ADD COLUMN comment TEXT");
    assert(add_column_sql(late_columns()[0])
        =~= "ALTER TABLE tracks ADD COLUMN sample_rate INTEGER"@);
    assert(add_column_sql(late_columns()[1]) =~= "ALTER TABLE tracks ADD COLUMN bit_depth INTEGER"@);
    assert(add_column_sql(late_columns()[2]) =~= "ALTER TABLE tracks ADD COLUMN channels INTEGER"@);
    assert(add_column_sql(late_columns()[3]) =~= "ALTER TABLE tracks ADD COLUMN comment TEXT"@);
}

/// A column is added exactly if its count is missing or not positive, and otherwise the next one is
/// looked at.
pub proof fn a_column_is_added_if_it_is_not_there(k: usize, count: Option<i64>)
    requires
        k < 4,
    ensures
        schema_sql_at(SchemaStage::Counted(k), count) is None <==> (count matches Some(n) && n > 0),
        schema_sql_at(SchemaStage::Counted(k), count) matches Some(sql) ==> sql == add_column_sql(
            late_columns()[k as int],
        ),
        schema_stage_after(SchemaStage::Start) == SchemaStage::Check(0),
        schema_stage_after(SchemaStage::Check(k)) == SchemaStage::Counted(k),
        schema_stage_after(SchemaStage::Counted(k)) == SchemaStage::Check((k + 1) as usize),
        schema_stage_after(SchemaStage::Check(4)) == SchemaStage::Ready,
{
}

/// Of several rows with the same path the last one counts.
pub proof fn the_last_row_counts(rows: Seq<(String, (i64, i64))>, i: int)
    requires
        0 <= i < rows.len(),
        forall|j: int| i < j < rows.len() ==> (#[trigger] rows[j]).0@ != rows[i].0@,
    ensures
        index_of_rows(rows).contains_key(rows[i].0@),
        index_of_rows(rows)[rows[i].0@] == rows[i].1,
    decreases rows.len(),
{
    let front = rows.drop_last();
    if i < rows.len() - 1 {
        assert(rows[rows.len() - 1].0@ != rows[i].0@);
        assert forall|j: int| i < j < front.len() implies (#[trigger] front[j]).0@
            != front[i].0@ by {
            assert(rows[j].0@ != rows[i].0@);
        }
        the_last_row_counts(front, i);
    }
}

} // verus!
