use vista_tv::playlist::{parse_m3u, ParsedChannel};

fn names(c: &[ParsedChannel]) -> Vec<String> {
    c.iter().map(|x| x.name.clone()).collect()
}

#[test]
fn parses_basic_entry() {
    let m3u = "#EXTM3U\n#EXTINF:-1 tvg-id=\"a.b\" tvg-logo=\"http://x/y.png\" group-title=\"News;Public\",Foo News (1080p)\nhttp://s/stream.m3u8\n";
    let c = parse_m3u(m3u);
    assert_eq!(c.len(), 1);
    assert_eq!(c[0].name, "Foo News (1080p)");
    assert_eq!(c[0].url, "http://s/stream.m3u8");
    assert_eq!(c[0].group, "News;Public");
    assert_eq!(c[0].tvg_id, "a.b");
}

#[test]
fn handles_comma_in_name() {
    let m3u = "#EXTINF:-1 group-title=\"X\",Hello, World\nhttp://s\n";
    let c = parse_m3u(m3u);
    assert_eq!(c[0].name, "Hello, World");
    assert_eq!(c[0].group, "X");
}

#[test]
fn logo_attribute_is_read() {
    let m3u = "#EXTINF:-1 tvg-logo=\"http://x/y.png\",A\nhttp://a\n";
    let c = parse_m3u(m3u);
    assert_eq!(c[0].tvg_logo, "http://x/y.png");
    assert_eq!(c[0].tvg_id, "");
    assert_eq!(c[0].group, "");
}

#[test]
fn comma_inside_quotes_is_not_the_name_separator() {
    let m3u = "#EXTINF:-1 group-title=\"a,b\" tvg-id=\"x\",Name\nhttp://u\n";
    let c = parse_m3u(m3u);
    assert_eq!(c[0].group, "a,b");
    assert_eq!(c[0].tvg_id, "x");
    assert_eq!(c[0].name, "Name");
}

#[test]
fn extgrp_supplies_missing_group() {
    let m3u = "#EXTM3U\n#EXTINF:-1,One\n#EXTGRP: Movies \nhttp://one\n#EXTINF:-1 group-title=\"Own\",Two\n#EXTGRP:Ignored\nhttp://two\n";
    let c = parse_m3u(m3u);
    assert_eq!(c.len(), 2);
    assert_eq!(c[0].group, "Movies");
    assert_eq!(c[1].group, "Own");
}

#[test]
fn extgrp_is_forgotten_after_a_url() {
    let m3u = "#EXTGRP:Lost\nhttp://stray\n#EXTINF:-1,Next\nhttp://next\n";
    let c = parse_m3u(m3u);
    assert_eq!(c.len(), 1);
    assert_eq!(c[0].name, "Next");
    assert_eq!(c[0].group, "");
}

#[test]
fn unknown_directives_and_blank_lines_are_ignored() {
    let m3u = "#EXTM3U\r\n\r\n#EXTINF:-1,Chan\r\n#EXTVLCOPT:http-user-agent=x\r\n# comment\r\n   \r\n  http://c  \r\n";
    let c = parse_m3u(m3u);
    assert_eq!(c.len(), 1);
    assert_eq!(c[0].name, "Chan");
    assert_eq!(c[0].url, "http://c");
}

#[test]
fn url_without_extinf_is_skipped() {
    let m3u = "http://orphan\n#EXTINF:-1,A\nhttp://a\nhttp://b\n";
    let c = parse_m3u(m3u);
    assert_eq!(names(&c), vec!["A".to_string()]);
    assert_eq!(c[0].url, "http://a");
}

#[test]
fn missing_comma_gives_empty_name() {
    let m3u = "#EXTINF:-1 tvg-id=\"q\"\nhttp://q\n";
    let c = parse_m3u(m3u);
    assert_eq!(c[0].name, "");
    assert_eq!(c[0].tvg_id, "q");
}

#[test]
fn later_duplicate_attribute_wins() {
    let m3u = "#EXTINF:-1 tvg-id=\"first\" tvg-id=\"second\",D\nhttp://d\n";
    let c = parse_m3u(m3u);
    assert_eq!(c[0].tvg_id, "second");
}

#[test]
fn unterminated_value_stops_attribute_scan() {
    let m3u = "#EXTINF:-1 tvg-id=\"ok\" group-title=\"open,Name\nhttp://n\n";
    let c = parse_m3u(m3u);
    // the comma sits inside an open quote, so there is no display name
    assert_eq!(c[0].name, "");
    assert_eq!(c[0].tvg_id, "ok");
    assert_eq!(c[0].group, "");
}

#[test]
fn empty_document_has_no_channels() {
    assert!(parse_m3u("").is_empty());
    assert!(parse_m3u("#EXTM3U\n").is_empty());
}

#[test]
fn wide_whitespace_before_a_key_ends_the_previous_token() {
    let m3u = "#EXTINF:-1\u{a0}tvg-id=\"x\",N\nhttp://n\n";
    let c = parse_m3u(m3u);
    assert_eq!(c.len(), 1);
    assert_eq!(c[0].name, "N");
    assert_eq!(c[0].tvg_id, "x");
    let m3u = "#EXTINF:-1\u{3000}group-title=\"G\"\u{2003}tvg-logo=\"l\",M\nhttp://m\n";
    let c = parse_m3u(m3u);
    assert_eq!(c[0].group, "G");
    assert_eq!(c[0].tvg_logo, "l");
    let ok = "#EXTINF:-1\ttvg-id=\"x\",N\nhttp://n\n";
    let c = parse_m3u(ok);
    assert_eq!(c[0].tvg_id, "x");
}

#[test]
fn unicode_names_are_kept() {
    let m3u = "#EXTINF:-1 group-title=\"Ñews\",Télé 1\u{3000}\nhttp://t\n";
    let c = parse_m3u(m3u);
    assert_eq!(c[0].name, "Télé 1");
    assert_eq!(c[0].group, "Ñews");
}

#[test]
fn inserting_a_directive_line_changes_nothing() {
    let a = "#EXTM3U\n#EXTINF:-1 group-title=\"G\",One\n";
    let r = "http://one\n#EXTINF:-1,Two\nhttp://two\n";
    let plain = parse_m3u(&format!("{a}{r}"));
    for d in ["#EXTVLCOPT:network-caching=1000", "   ", "# note", "#KODIPROP:x=y"] {
        let with = parse_m3u(&format!("{a}{d}\n{r}"));
        assert_eq!(with.len(), plain.len());
        for (x, y) in with.iter().zip(plain.iter()) {
            assert_eq!(x.name, y.name);
            assert_eq!(x.url, y.url);
            assert_eq!(x.group, y.group);
        }
    }
}

#[test]
fn no_more_channels_than_extinf_lines() {
    let m3u = "#EXTINF:-1,A\nhttp://a\nhttp://a2\n#EXTINF:-1,B\n#EXTINF:-1,C\nhttp://c\n";
    let c = parse_m3u(m3u);
    assert_eq!(names(&c), vec!["A".to_string(), "C".to_string()]);
    assert!(c.len() <= 3);
}

#[test]
fn joined_playlists_read_as_one_after_the_other() {
    let a = "#EXTM3U\n#EXTINF:-1 group-title=\"A\",One\nhttp://one\n\n";
    let b = "#EXTINF:-1,Two\nhttp://two\n#EXTINF:-1,Three\nhttp://three";
    let joined = parse_m3u(&format!("{a}\n{b}"));
    let mut apart = parse_m3u(a);
    apart.extend(parse_m3u(b));
    assert_eq!(names(&joined), vec!["One", "Two", "Three"]);
    assert_eq!(names(&joined), names(&apart));
    assert_eq!(joined[0].group, "A");
    // a pending #EXTINF at the end of the first part is what the law excludes
    let c = parse_m3u(&format!("{}\n{}", "#EXTINF:-1,Lost", "http://x"));
    assert_eq!(names(&c), vec!["Lost"]);
    assert!(parse_m3u("#EXTINF:-1,Lost").is_empty());
    let wide = "#EXTINF:-1\u{a0}tvg-id=\"x\",N\nhttp://n";
    let joined = parse_m3u(&format!("{a}\n{wide}"));
    assert_eq!(names(&joined), vec!["One", "N"]);
    assert_eq!(joined[1].tvg_id, "x");
}
