//! The library's queries run against SQLite with the application's schema.

use rusqlite::types::Value as SqlValue;
use rusqlite::{params_from_iter, Connection};
use vista_tv::playlist::ParsedChannel;
use vista_tv::store::{groups_sql, search_sql, tally_groups, Channel, SqlArg, SqlQuery};

const SCHEMA: &str = "
    CREATE TABLE sources(
        id INTEGER PRIMARY KEY, name TEXT NOT NULL, kind TEXT NOT NULL,
        location TEXT NOT NULL DEFAULT '', username TEXT NOT NULL DEFAULT '',
        password TEXT NOT NULL DEFAULT '',
        created_at INTEGER NOT NULL DEFAULT (strftime('%s','now')), refreshed_at INTEGER);
    CREATE TABLE channels(
        id INTEGER PRIMARY KEY, source_id INTEGER NOT NULL DEFAULT 0, name TEXT NOT NULL,
        url TEXT NOT NULL, group_title TEXT NOT NULL DEFAULT '',
        tvg_id TEXT NOT NULL DEFAULT '', tvg_logo TEXT NOT NULL DEFAULT '');
    CREATE VIRTUAL TABLE channels_fts USING fts5(
        name, group_title, content='channels', content_rowid='id');
    CREATE TABLE favorites(
        url TEXT PRIMARY KEY, name TEXT NOT NULL, group_title TEXT NOT NULL DEFAULT '',
        tvg_logo TEXT NOT NULL DEFAULT '',
        added_at INTEGER NOT NULL DEFAULT (strftime('%s','now')));
    CREATE TABLE recents(
        url TEXT PRIMARY KEY, name TEXT NOT NULL, group_title TEXT NOT NULL DEFAULT '',
        tvg_logo TEXT NOT NULL DEFAULT '',
        played_at INTEGER NOT NULL DEFAULT (strftime('%s','now')));
";

fn sample() -> Vec<ParsedChannel> {
    vec![
        ParsedChannel { name: "BBC News".into(), url: "http://a".into(), group: "News".into(), tvg_id: "bbc".into(), tvg_logo: "".into() },
        ParsedChannel { name: "CNN International".into(), url: "http://b".into(), group: "News;Public".into(), tvg_id: "cnn".into(), tvg_logo: "".into() },
        ParsedChannel { name: "Sky Sports".into(), url: "http://c".into(), group: "Sports".into(), tvg_id: "sky".into(), tvg_logo: "".into() },
    ]
}

fn mem() -> Connection {
    let conn = Connection::open_in_memory().unwrap();
    conn.execute_batch(SCHEMA).unwrap();
    conn
}

fn insert_source(conn: &Connection, name: &str, kind: &str, location: &str) -> i64 {
    conn.execute(
        "INSERT INTO sources(name, kind, location) VALUES (?1, ?2, ?3)",
        (name, kind, location),
    )
    .unwrap();
    conn.last_insert_rowid()
}

fn replace_source(conn: &Connection, source_id: i64, channels: &[ParsedChannel]) -> usize {
    conn.execute("DELETE FROM channels WHERE source_id = ?1", [source_id]).unwrap();
    for c in channels {
        conn.execute(
            "INSERT INTO channels(source_id, name, url, group_title, tvg_id, tvg_logo)
             VALUES (?1, ?2, ?3, ?4, ?5, ?6)",
            (source_id, &c.name, &c.url, &c.group, &c.tvg_id, &c.tvg_logo),
        )
        .unwrap();
    }
    conn.execute("INSERT INTO channels_fts(channels_fts) VALUES('rebuild')", []).unwrap();
    channels.len()
}

fn values(binds: Vec<SqlArg>) -> Vec<SqlValue> {
    binds
        .into_iter()
        .map(|b| match b {
            SqlArg::Text(s) => SqlValue::Text(s),
            SqlArg::Integer(i) => SqlValue::Integer(i),
        })
        .collect()
}

fn run(conn: &Connection, q: SqlQuery) -> Vec<Channel> {
    let SqlQuery { sql, binds } = q;
    let mut stmt = conn.prepare(&sql).unwrap();
    stmt.query_map(params_from_iter(values(binds)), |r| {
        Ok(Channel {
            id: r.get(0)?,
            source_id: r.get(1)?,
            name: r.get(2)?,
            url: r.get(3)?,
            group: r.get(4)?,
            tvg_id: r.get(5)?,
            tvg_logo: r.get(6)?,
            is_fav: r.get(7)?,
        })
    })
    .unwrap()
    .collect::<rusqlite::Result<Vec<_>>>()
    .unwrap()
}

fn search(conn: &Connection, query: &str, group: Option<&str>, source_id: Option<i64>, limit: i64, offset: i64) -> Vec<Channel> {
    run(conn, search_sql(query, group, source_id, limit, offset))
}

fn groups(conn: &Connection, source_id: Option<i64>) -> Vec<(String, i64)> {
    let SqlQuery { sql, binds } = groups_sql(source_id);
    let mut stmt = conn.prepare(&sql).unwrap();
    let rows = stmt
        .query_map(params_from_iter(values(binds)), |r| Ok((r.get::<_, String>(0)?, r.get::<_, i64>(1)?)))
        .unwrap()
        .collect::<rusqlite::Result<Vec<_>>>()
        .unwrap();
    tally_groups(&rows).unwrap().into_iter().map(|g| (g.name, g.count)).collect()
}

#[test]
fn source_import_search_groups() {
    let conn = mem();
    let sid = insert_source(&conn, "Test", "m3u_url", "http://x");
    assert_eq!(replace_source(&conn, sid, &sample()), 3);

    // Prefix FTS search across all sources.
    assert_eq!(search(&conn, "new", None, None, 50, 0).len(), 2);
    // Source filter.
    assert_eq!(search(&conn, "", None, Some(sid), 50, 0).len(), 3);
    assert_eq!(search(&conn, "", None, Some(sid + 999), 50, 0).len(), 0);
    // Exact ;-delimited group membership.
    let pub_ = search(&conn, "", Some("Public"), None, 50, 0);
    assert_eq!(pub_.len(), 1);
    assert_eq!(pub_[0].name, "CNN International");
    // Groups split + tally.
    let g = groups(&conn, None);
    assert_eq!(g.iter().find(|x| x.0 == "News").unwrap().1, 2);
}

#[test]
fn favorites_and_recents() {
    let conn = mem();
    let sid = insert_source(&conn, "T", "m3u_url", "");
    replace_source(&conn, sid, &sample());

    // Toggling favorite flips state and shows up in search results.
    let fav = |url: &str| {
        let exists: bool = conn
            .query_row("SELECT EXISTS(SELECT 1 FROM favorites WHERE url=?1)", [url], |r| r.get(0))
            .unwrap();
        if exists {
            conn.execute("DELETE FROM favorites WHERE url=?1", [url]).unwrap();
        } else {
            conn.execute("INSERT INTO favorites(url,name) VALUES(?1,'x')", [url]).unwrap();
        }
    };
    fav("http://a");
    let rows = search(&conn, "bbc", None, None, 10, 0);
    assert!(rows[0].is_fav, "BBC should be marked favorite");

    // record_play semantics: upsert + cap.
    conn.execute(
        "INSERT INTO recents(url,name) VALUES('http://a','BBC')
         ON CONFLICT(url) DO UPDATE SET played_at=strftime('%s','now')",
        [],
    )
    .unwrap();
    let n: i64 = conn.query_row("SELECT COUNT(*) FROM recents", [], |r| r.get(0)).unwrap();
    assert_eq!(n, 1);
}

#[test]
fn quoted_search_words_match_literally() {
    let conn = mem();
    let sid = insert_source(&conn, "Q", "m3u_file", "/tmp/q.m3u");
    let chans = vec![
        ParsedChannel { name: "Say \"Hi\" TV".into(), url: "http://q".into(), group: "".into(), tvg_id: "".into(), tvg_logo: "".into() },
        ParsedChannel { name: "Other".into(), url: "http://o".into(), group: "".into(), tvg_id: "".into(), tvg_logo: "".into() },
    ];
    replace_source(&conn, sid, &chans);
    // a stray quote cannot break the query
    assert_eq!(search(&conn, "\"hi", None, None, 10, 0).len(), 1);
    assert_eq!(search(&conn, "say OR", None, None, 10, 0).len(), 0);
    assert_eq!(search(&conn, "", None, None, 1, 1).len(), 1);
}

#[test]
fn group_filter_is_exact_membership() {
    let conn = mem();
    let sid = insert_source(&conn, "G", "m3u_url", "");
    replace_source(&conn, sid, &sample());
    assert_eq!(search(&conn, "", Some("public"), None, 50, 0).len(), 0);
    assert_eq!(search(&conn, "", Some("P_blic"), None, 50, 0).len(), 0);
    assert_eq!(search(&conn, "", Some("%"), None, 50, 0).len(), 0);
    assert_eq!(search(&conn, "", Some("Pub"), None, 50, 0).len(), 0);
    assert_eq!(search(&conn, "", Some("News"), None, 50, 0).len(), 2);
}
