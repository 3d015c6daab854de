use rusqlite::types::Value as SqlValue;
use rusqlite::{params_from_iter, Connection, Row};
use sample_library::database::{
    Database, SchemaAction, SchemaStage, Statement, Track, TrackCells, TrackData, Value,
};

fn sql_value(v: &Value) -> SqlValue {
    match v {
        Value::Null => SqlValue::Null,
        Value::Integer(n) => SqlValue::Integer(*n),
        Value::Real(bits) => SqlValue::Real(f64::from_bits(*bits)),
        Value::Text(s) => SqlValue::Text(s.clone()),
        Value::Blob(b) => SqlValue::Blob(b.clone()),
    }
}

fn run(conn: &Connection, s: &Statement) -> usize {
    conn.execute(&s.sql, params_from_iter(s.params.iter().map(sql_value))).unwrap()
}

fn prepare(conn: &Connection) -> Vec<String> {
    let mut ran = Vec::new();
    let mut stage = SchemaStage::Start;
    let mut count = None;
    while stage != SchemaStage::Ready {
        let (next, action) = Database::init_schema(stage, count);
        count = None;
        match action {
            SchemaAction::Run(s) => {
                run(conn, &s);
                ran.push(s.sql);
            }
            SchemaAction::Count(s) => {
                let params = params_from_iter(s.params.iter().map(sql_value));
                count = conn.query_row(&s.sql, params, |row| row.get(0)).ok();
            }
            SchemaAction::Nothing => {}
        }
        stage = next;
    }
    ran
}

fn store() -> Connection {
    let conn = Connection::open_in_memory().unwrap();
    prepare(&conn);
    conn
}

fn cells(row: &Row) -> TrackCells {
    TrackCells {
        id: row.get(0).unwrap(),
        path: row.get(1).unwrap(),
        mtime: row.get(2).unwrap(),
        title: row.get(3).unwrap(),
        artist: row.get(4).unwrap(),
        album: row.get(5).unwrap(),
        genre: row.get(6).unwrap(),
        duration: row.get::<_, f64>(7).unwrap().to_bits(),
        sample_rate: row.get(8).unwrap(),
        bit_depth: row.get(9).unwrap(),
        channels: row.get(10).unwrap(),
        comment: row.get(11).unwrap(),
    }
}

fn by_path(conn: &Connection, path: &str) -> Option<Track> {
    let s = Database::get_track_by_path(path);
    let params = params_from_iter(s.params.iter().map(sql_value));
    conn.query_row(&s.sql, params, |row| {
        Ok(Database::row_to_track(cells(row), row.get(12).unwrap()))
    })
    .ok()
}

fn all(conn: &Connection) -> Vec<Track> {
    let s = Database::get_all_tracks();
    let mut stmt = conn.prepare(&s.sql).unwrap();
    let rows = stmt.query_map([], |row| Ok(Database::row_to_track_no_waveform(cells(row)))).unwrap();
    rows.map(|t| t.unwrap()).collect()
}

fn data(path: &str, title: &str) -> TrackData {
    TrackData {
        path: path.to_string(),
        mtime: 11,
        size: 22,
        title: Some(title.to_string()),
        artist: Some("artist".to_string()),
        album: None,
        genre: Some("genre".to_string()),
        duration: 1.25f64.to_bits(),
        sample_rate: Some(48000),
        bit_depth: Some(24),
        channels: Some(2),
        comment: Some("comment".to_string()),
        waveform: Some(vec![0, 127, 255]),
    }
}

#[test]
fn settings_keep_a_write_ahead_log() {
    assert_eq!(Database::settings(), vec![("journal_mode", "WAL"), ("synchronous", "NORMAL")]);
}

#[test]
fn a_new_table_has_every_column() {
    let conn = Connection::open_in_memory().unwrap();
    let ran = prepare(&conn);
    assert_eq!(ran.len(), 2);
    assert!(ran[0].starts_with("CREATE TABLE IF NOT EXISTS tracks ("));
    assert_eq!(ran[1], "CREATE INDEX IF NOT EXISTS idx_tracks_path ON tracks(path)");
    assert_eq!(prepare(&conn).len(), 2);
}

#[test]
fn an_older_table_gets_the_columns_that_it_lacks() {
    let conn = Connection::open_in_memory().unwrap();
    let old = "CREATE TABLE tracks (id INTEGER PRIMARY KEY, path TEXT UNIQUE NOT NULL, mtime INTEGER NOT NULL, size INTEGER NOT NULL, title TEXT, artist TEXT, album TEXT, genre TEXT, duration REAL, bit_depth INTEGER, waveform BLOB)";
    conn.execute(old, []).unwrap();
    let ran = prepare(&conn);
    assert_eq!(
        ran[1..],
        [
            "ALTER TABLE tracks ADD COLUMN sample_rate INTEGER",
            "ALTER TABLE tracks ADD COLUMN channels INTEGER",
            "ALTER TABLE tracks ADD COLUMN comment TEXT",
            "CREATE INDEX IF NOT EXISTS idx_tracks_path ON tracks(path)",
        ]
    );
    run(&conn, &Database::upsert_track(data("/a.wav", "a")));
    assert_eq!(by_path(&conn, "/a.wav").unwrap().comment.as_deref(), Some("comment"));
}

#[test]
fn a_count_that_cannot_be_had_shows_no_column() {
    let (next, action) = Database::init_schema(SchemaStage::Counted(3), None);
    assert_eq!(next, SchemaStage::Check(4));
    let expected = Statement {
        sql: "ALTER TABLE tracks ADD COLUMN comment TEXT".to_string(),
        params: Vec::new(),
    };
    assert_eq!(action, SchemaAction::Run(expected));
    let (_, action) = Database::init_schema(SchemaStage::Counted(3), Some(0));
    assert!(matches!(action, SchemaAction::Run(_)));
    let (_, action) = Database::init_schema(SchemaStage::Counted(3), Some(1));
    assert_eq!(action, SchemaAction::Nothing);
    let (next, action) = Database::init_schema(SchemaStage::Ready, None);
    assert_eq!((next, action), (SchemaStage::Ready, SchemaAction::Nothing));
}

#[test]
fn statements_are_these() {
    let columns = "id, path, mtime, title, artist, album, genre, duration, sample_rate, bit_depth, channels, comment";
    assert_eq!(Database::get_all_tracks().sql, format!("SELECT {columns} FROM tracks"));
    assert_eq!(
        Database::get_track_by_path("/p"),
        Statement {
            sql: format!("SELECT {columns}, waveform FROM tracks WHERE path = ?"),
            params: vec![Value::Text("/p".to_string())],
        }
    );
    assert_eq!(
        Database::get_track_metadata("/p"),
        Statement {
            sql: "SELECT mtime, size FROM tracks WHERE path = ?".to_string(),
            params: vec![Value::Text("/p".to_string())],
        }
    );
    assert_eq!(Database::get_all_metadata().sql, "SELECT path, mtime, size FROM tracks");
    assert_eq!(
        Database::get_track_waveform(5),
        Statement {
            sql: "SELECT waveform FROM tracks WHERE id = ?".to_string(),
            params: vec![Value::Integer(5)],
        }
    );
    assert_eq!(
        Database::remove_tracks_by_prefix("/p"),
        Statement {
            sql: "DELETE FROM tracks WHERE path LIKE ?".to_string(),
            params: vec![Value::Text("/p%".to_string())],
        }
    );
    assert_eq!(
        Database::upsert_track(data("/p", "t")).sql,
        "INSERT INTO tracks (path, mtime, size, title, artist, album, genre, duration, sample_rate, bit_depth, channels, comment, waveform) VALUES (?1, ?2, ?3, ?4, ?5, ?6, ?7, ?8, ?9, ?10, ?11, ?12, ?13) ON CONFLICT(path) DO UPDATE SET mtime = excluded.mtime, size = excluded.size, title = excluded.title, artist = excluded.artist, album = excluded.album, genre = excluded.genre, duration = excluded.duration, sample_rate = excluded.sample_rate, bit_depth = excluded.bit_depth, channels = excluded.channels, comment = excluded.comment, waveform = excluded.waveform"
    );
}

#[test]
fn what_is_written_is_read_back() {
    let conn = store();
    run(&conn, &Database::upsert_track(data("/a.wav", "title")));
    let t = by_path(&conn, "/a.wav").unwrap();
    assert_eq!((t.path.as_str(), t.mtime), ("/a.wav", 11));
    assert_eq!(t.title.as_deref(), Some("title"));
    assert_eq!(t.artist.as_deref(), Some("artist"));
    assert_eq!(t.album, None);
    assert_eq!(t.genre.as_deref(), Some("genre"));
    assert_eq!(f64::from_bits(t.duration), 1.25);
    assert_eq!((t.sample_rate, t.bit_depth, t.channels), (Some(48000), Some(24), Some(2)));
    assert_eq!(t.comment.as_deref(), Some("comment"));
    assert_eq!(t.waveform, Some(vec![0, 127, 255]));
    assert!(by_path(&conn, "/b.wav").is_none());
    let s = Database::get_track_waveform(t.id);
    let params = params_from_iter(s.params.iter().map(sql_value));
    let waveform: Option<Vec<u8>> = conn.query_row(&s.sql, params, |row| row.get(0)).unwrap();
    assert_eq!(waveform, Some(vec![0, 127, 255]));
    let s = Database::get_track_metadata("/a.wav");
    let params = params_from_iter(s.params.iter().map(sql_value));
    let meta: (i64, i64) =
        conn.query_row(&s.sql, params, |row| Ok((row.get(0).unwrap(), row.get(1).unwrap()))).unwrap();
    assert_eq!(meta, (11, 22));
}

#[test]
fn writing_a_path_again_replaces_its_row() {
    let conn = store();
    run(&conn, &Database::upsert_track(data("/a.wav", "one")));
    let id = by_path(&conn, "/a.wav").unwrap().id;
    let mut again = data("/a.wav", "two");
    again.genre = None;
    run(&conn, &Database::upsert_track(again));
    let t = by_path(&conn, "/a.wav").unwrap();
    assert_eq!((t.id, t.title.as_deref(), t.genre), (id, Some("two"), None));
    assert_eq!(all(&conn).len(), 1);
}

#[test]
fn a_batch_writes_every_record() {
    let conn = store();
    let batch = Database::batch_upsert_tracks(vec![data("/a.wav", "a"), data("/b.wav", "b")]);
    assert_eq!(batch.sql, Database::upsert_track(data("/a.wav", "a")).sql);
    for row in &batch.rows {
        conn.execute(&batch.sql, params_from_iter(row.iter().map(sql_value))).unwrap();
    }
    let tracks = all(&conn);
    let paths: Vec<&str> = tracks.iter().map(|t| t.path.as_str()).collect();
    assert_eq!(paths, vec!["/a.wav", "/b.wav"]);
    assert!(tracks.iter().all(|t| t.waveform.is_none()));
}

#[test]
fn tracks_below_a_prefix_are_removed() {
    let conn = store();
    for path in ["/x/a.wav", "/x/y/b.wav", "/z/c.wav"] {
        run(&conn, &Database::upsert_track(data(path, "t")));
    }
    assert_eq!(run(&conn, &Database::remove_tracks_by_prefix("/x/")), 2);
    let tracks = all(&conn);
    assert_eq!(tracks.len(), 1);
    assert_eq!(tracks[0].path, "/z/c.wav");
}
