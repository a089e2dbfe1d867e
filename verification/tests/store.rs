use vista_tv::commands::{
    has_column_named, playlist_channels, is_remote, m3u_kind, m3u_location, playlist_reply,
    refresh_via, refreshed_channels, toggle_favorite_edit, FavoriteEdit, RefreshVia,
};
use vista_tv::playlist::{parse_m3u, ParsedChannel};
use vista_tv::store::{
    fts_query, groups_sql, recents_limit, search_channels_query, search_sql, tally_groups, SqlArg,
    RECENTS_CAP,
};

const SEL: &str = "c.id, c.source_id, c.name, c.url, c.group_title, c.tvg_id, c.tvg_logo, EXISTS(SELECT 1 FROM favorites f WHERE f.url = c.url) AS is_fav";

fn text(a: &SqlArg) -> String {
    match a {
        SqlArg::Text(s) => s.clone(),
        SqlArg::Integer(i) => format!("#{i}"),
    }
}

fn binds(b: &[SqlArg]) -> Vec<String> {
    b.iter().map(text).collect()
}

#[test]
fn fts_query_quotes_prefix_terms() {
    assert_eq!(fts_query("bbc news"), "\"bbc\"* \"news\"*");
    assert_eq!(fts_query("  bbc \t  news  "), "\"bbc\"* \"news\"*");
    assert_eq!(fts_query("a\"b"), "\"a\"\"b\"*");
    assert_eq!(fts_query("   "), "");
    assert_eq!(fts_query("x"), "\"x\"*");
}

#[test]
fn blank_search_lists_by_name() {
    let q = search_sql("  ", None, None, 50, 0);
    assert_eq!(q.sql, format!("SELECT {SEL} FROM channels c WHERE 1=1 ORDER BY c.name LIMIT ? OFFSET ?"));
    assert_eq!(binds(&q.binds), vec!["#50", "#0"]);
}

#[test]
fn text_search_with_filters() {
    let q = search_sql(" new ", Some("Public"), Some(7), 10, 20);
    assert_eq!(
        q.sql,
        format!(
            "SELECT {SEL} FROM channels_fts ft JOIN channels c ON c.id = ft.rowid WHERE channels_fts MATCH ? AND instr(';' || c.group_title || ';', ';' || ? || ';') > 0 AND c.source_id = ? ORDER BY rank LIMIT ? OFFSET ?"
        )
    );
    assert_eq!(binds(&q.binds), vec!["\"new\"*", "Public", "#7", "#10", "#20"]);
}

#[test]
fn search_request_defaults_and_bounds() {
    let q = search_channels_query("", Some(""), None, None, None);
    assert_eq!(binds(&q.binds), vec!["#200", "#0"]);
    assert!(!q.sql.contains("instr"));
    let q = search_channels_query("", None, None, Some(0), Some(-5));
    assert_eq!(binds(&q.binds), vec!["#1", "#0"]);
    let q = search_channels_query("", None, None, Some(99999), Some(3));
    assert_eq!(binds(&q.binds), vec!["#2000", "#3"]);
}

#[test]
fn groups_query_per_source() {
    let q = groups_sql(Some(4));
    assert_eq!(q.sql, "SELECT group_title, COUNT(*) FROM channels WHERE source_id = ? GROUP BY group_title");
    assert_eq!(binds(&q.binds), vec!["#4"]);
    let q = groups_sql(None);
    assert_eq!(q.sql, "SELECT group_title, COUNT(*) FROM channels GROUP BY group_title");
    assert!(q.binds.is_empty());
}

#[test]
fn groups_split_and_tally() {
    // the group rows of three channels: News, News;Public, Sports
    let rows = vec![
        ("News".to_string(), 1),
        ("News;Public".to_string(), 1),
        ("Sports".to_string(), 1),
    ];
    let g = tally_groups(&rows).unwrap();
    let got: Vec<(String, i64)> = g.iter().map(|x| (x.name.clone(), x.count)).collect();
    assert_eq!(
        got,
        vec![("News".to_string(), 2), ("Public".to_string(), 1), ("Sports".to_string(), 1)]
    );
}

#[test]
fn groups_trim_skip_empty_and_sort_by_count_then_name() {
    let rows = vec![
        (" b ; ;a".to_string(), 2),
        ("".to_string(), 9),
        ("c".to_string(), 5),
        ("a;a".to_string(), 1),
    ];
    let g = tally_groups(&rows).unwrap();
    let got: Vec<(String, i64)> = g.iter().map(|x| (x.name.clone(), x.count)).collect();
    assert_eq!(
        got,
        vec![("c".to_string(), 5), ("a".to_string(), 4), ("b".to_string(), 2)]
    );
}

#[test]
fn group_count_overflow_is_refused() {
    let rows = vec![("A".to_string(), i64::MAX), ("B;A".to_string(), 1)];
    assert!(tally_groups(&rows).is_none());
    let rows = vec![("A".to_string(), i64::MAX), ("B".to_string(), 1), ("A".to_string(), -1)];
    let g = tally_groups(&rows).unwrap();
    assert_eq!(g[0].name, "A");
    assert_eq!(g[0].count, i64::MAX - 1);
    assert!(tally_groups(&Vec::new()).unwrap().is_empty());
}

#[test]
fn recents_limit_is_clamped() {
    assert_eq!(recents_limit(None), RECENTS_CAP);
    assert_eq!(recents_limit(Some(0)), 1);
    assert_eq!(recents_limit(Some(10)), 10);
    assert_eq!(recents_limit(Some(1000)), 50);
}

#[test]
fn m3u_source_location_and_kind() {
    assert_eq!(m3u_location("  http://x/p.m3u ").unwrap(), "http://x/p.m3u");
    assert_eq!(m3u_location("   ").unwrap_err(), "a URL or file path is required");
    assert_eq!(m3u_kind("https://x"), "m3u_url");
    assert_eq!(m3u_kind("httpfile"), "m3u_url");
    assert_eq!(m3u_kind("/home/me/p.m3u"), "m3u_file");
    assert!(is_remote("http://a"));
    assert!(is_remote("https://a"));
    assert!(!is_remote("httpx://a"));
    assert!(!is_remote("C:\\list.m3u"));
}

#[test]
fn playlist_download_status() {
    assert_eq!(playlist_reply(200, "body".to_string()).unwrap(), "body");
    assert_eq!(playlist_reply(404, "x".to_string()).unwrap_err(), "HTTP 404 fetching playlist");
    assert_eq!(playlist_reply(0, String::new()).unwrap_err(), "HTTP 0 fetching playlist");
}

#[test]
fn import_requires_channels() {
    assert_eq!(playlist_channels(parse_m3u("#EXTM3U\n")).unwrap_err(), "no channels found in playlist");
    let c = playlist_channels(parse_m3u("#EXTINF:-1,A\nhttp://a\n")).unwrap();
    assert_eq!(c.len(), 1);
    assert_eq!(refreshed_channels(Vec::new()).unwrap_err(), "no channels found on refresh");
    let one = vec![ParsedChannel {
        name: "A".into(),
        url: "u".into(),
        group: String::new(),
        tvg_id: String::new(),
        tvg_logo: String::new(),
    }];
    assert_eq!(refreshed_channels(one).unwrap().len(), 1);
}

#[test]
fn refresh_dispatch_and_favorite_toggle() {
    assert!(matches!(refresh_via("xtream"), RefreshVia::Xtream));
    assert!(matches!(refresh_via("m3u_url"), RefreshVia::Playlist));
    let (edit, now) = toggle_favorite_edit(false);
    assert!(matches!(edit, FavoriteEdit::Add));
    assert!(now);
    let (edit, now) = toggle_favorite_edit(now);
    assert!(matches!(edit, FavoriteEdit::Remove));
    assert!(!now);
}

#[test]
fn column_lookup() {
    let cols = vec!["id".to_string(), "source_id".to_string()];
    assert!(has_column_named(&cols, "source_id"));
    assert!(!has_column_named(&cols, "source"));
}

#[test]
fn grouped_rows_count_like_one_row_per_channel() {
    let per_channel = vec![
        ("News".to_string(), 1),
        ("Sports".to_string(), 1),
        ("News;Public".to_string(), 1),
        ("News".to_string(), 1),
    ];
    let grouped = vec![
        ("News;Public".to_string(), 1),
        ("News".to_string(), 2),
        ("Sports".to_string(), 1),
    ];
    let a: Vec<(String, i64)> = tally_groups(&per_channel).unwrap().into_iter().map(|g| (g.name, g.count)).collect();
    let b: Vec<(String, i64)> = tally_groups(&grouped).unwrap().into_iter().map(|g| (g.name, g.count)).collect();
    assert_eq!(a, b);
    assert_eq!(
        a,
        vec![("News".to_string(), 3), ("Public".to_string(), 1), ("Sports".to_string(), 1)]
    );
}
