use vista_tv::json::{parse_reply, read_reply, JsonModel};
use vista_tv::xtream::{
    enc, fetch_live, get_json, json_reply, normalize_base, val_str, JsonScalar, LiveStep, XtreamItem,
    XtreamReply, XtreamStage,
};

fn s(x: &str) -> JsonScalar {
    JsonScalar::Str(x.to_string())
}

fn item(cat_id: JsonScalar, cat_name: &str, sid: JsonScalar, name: &str) -> XtreamItem {
    XtreamItem {
        category_id: cat_id,
        category_name: s(cat_name),
        stream_id: sid,
        name: s(name),
        epg_channel_id: s("epg"),
        stream_icon: s("icon"),
    }
}

fn reply(auth: JsonScalar, items: Vec<XtreamItem>) -> XtreamReply {
    XtreamReply { auth, items }
}

#[test]
fn normalize_adds_scheme_and_drops_slashes() {
    assert_eq!(normalize_base("  example.com//  "), "http://example.com");
    assert_eq!(normalize_base("https://x.tv/"), "https://x.tv");
    assert_eq!(normalize_base("http://y:8080"), "http://y:8080");
    assert_eq!(normalize_base("/"), "http://");
}

#[test]
fn normalizing_twice_is_normalizing_once() {
    for h in ["  example.com//  ", "https://x.tv/", "http://y:8080", "portal.tv:80/path/"] {
        let once = normalize_base(h);
        assert_eq!(normalize_base(&once), once);
    }
    // a host that is nothing but slashes is the excluded case
    assert_eq!(normalize_base("//"), "http://");
    assert_eq!(normalize_base("http://"), "http://http:");
}

#[test]
fn enc_percent_encodes_reserved_bytes() {
    assert_eq!(enc("Az09-_.~"), "Az09-_.~");
    assert_eq!(enc("a b&c"), "a%20b%26c");
    assert_eq!(enc("é"), "%C3%A9");
    assert_eq!(enc(""), "");
}

#[test]
fn val_str_reads_strings_and_numbers() {
    assert_eq!(val_str(&s("12")), "12");
    assert_eq!(val_str(&JsonScalar::Num("7".to_string())), "7");
    assert_eq!(val_str(&JsonScalar::Other), "");
}

#[test]
fn full_sign_in_lists_channels() {
    let step = fetch_live("portal.tv/", "me", "p w");
    let (f, url) = match step {
        LiveStep::Request(f, url) => (f, url),
        LiveStep::Finished(_) => panic!("expected a request"),
    };
    assert_eq!(url, "http://portal.tv/player_api.php?username=me&password=p%20w");
    assert!(f.stage == XtreamStage::SigningIn);
    let step = f.advance(Ok(reply(JsonScalar::Num("1".to_string()), vec![])));
    let (f, url) = match step {
        LiveStep::Request(f, url) => (f, url),
        LiveStep::Finished(_) => panic!("expected a request"),
    };
    assert_eq!(url, "http://portal.tv/player_api.php?username=me&password=p%20w&action=get_live_categories");
    let cats = vec![
        item(s("3"), "News", JsonScalar::Other, ""),
        item(JsonScalar::Num("4".to_string()), "Sport", JsonScalar::Other, ""),
        item(s("3"), "World News", JsonScalar::Other, ""),
    ];
    let step = f.advance(Ok(reply(JsonScalar::Other, cats)));
    let (f, url) = match step {
        LiveStep::Request(f, url) => (f, url),
        LiveStep::Finished(_) => panic!("expected a request"),
    };
    assert_eq!(url, "http://portal.tv/player_api.php?username=me&password=p%20w&action=get_live_streams");
    let streams = vec![
        item(s("3"), "", JsonScalar::Num("101".to_string()), "BBC"),
        item(s("9"), "", s(""), "Skipped"),
        item(JsonScalar::Num("4".to_string()), "", s("102"), "ESPN"),
        item(s("9"), "", s("103"), "Lost"),
    ];
    match f.advance(Ok(reply(JsonScalar::Other, streams))) {
        LiveStep::Finished(Ok(ch)) => {
            assert_eq!(ch.len(), 3);
            assert_eq!(ch[0].name, "BBC");
            assert_eq!(ch[0].url, "http://portal.tv/live/me/p%20w/101.ts");
            assert_eq!(ch[0].group, "World News");
            assert_eq!(ch[0].tvg_id, "epg");
            assert_eq!(ch[0].tvg_logo, "icon");
            assert_eq!(ch[1].group, "Sport");
            assert_eq!(ch[2].group, "");
        }
        _ => panic!("expected channels"),
    }
}

#[test]
fn refused_sign_in_ends_the_exchange() {
    let f = match fetch_live("h", "u", "p") {
        LiveStep::Request(f, _) => f,
        LiveStep::Finished(_) => panic!("expected a request"),
    };
    match f.advance(Ok(reply(s("0"), vec![]))) {
        LiveStep::Finished(Err(e)) => {
            assert_eq!(e, "sign-in failed: check the host, username and password")
        }
        _ => panic!("expected a failure"),
    }
}

#[test]
fn failed_request_ends_the_exchange() {
    let f = match fetch_live("h", "u", "p") {
        LiveStep::Request(f, _) => f,
        LiveStep::Finished(_) => panic!("expected a request"),
    };
    match f.advance(Err("timeout".to_string())) {
        LiveStep::Finished(Err(e)) => assert_eq!(e, "timeout"),
        _ => panic!("expected a failure"),
    }
}

#[test]
fn no_streams_is_an_error() {
    let f = match fetch_live("h", "u", "p") {
        LiveStep::Request(f, _) => f,
        LiveStep::Finished(_) => panic!("expected a request"),
    };
    let f = match f.advance(Ok(reply(s("1"), vec![]))) {
        LiveStep::Request(f, _) => f,
        _ => panic!("expected a request"),
    };
    let f = match f.advance(Ok(reply(JsonScalar::Other, vec![]))) {
        LiveStep::Request(f, _) => f,
        _ => panic!("expected a request"),
    };
    match f.advance(Ok(reply(JsonScalar::Other, vec![item(s("1"), "", JsonScalar::Other, "x")]))) {
        LiveStep::Finished(Err(e)) => assert_eq!(e, "provider returned no live channels"),
        _ => panic!("expected a failure"),
    }
}

#[test]
fn json_reply_reports_http_status_and_non_json() {
    match json_reply(503, "  Service Unavailable \n", None) {
        Err(e) => assert_eq!(e, "provider returned HTTP 503 — Service Unavailable"),
        Ok(_) => panic!("expected an error"),
    }
    match json_reply(404, "   ", None) {
        Err(e) => assert_eq!(e, "provider returned HTTP 404"),
        Ok(_) => panic!("expected an error"),
    }
    match json_reply(200, "", None) {
        Err(e) => assert_eq!(e, "provider did not return JSON (got: empty response)"),
        Ok(_) => panic!("expected an error"),
    }
    match json_reply(200, "<html>", None) {
        Err(e) => assert_eq!(e, "provider did not return JSON (got: <html>)"),
        Ok(_) => panic!("expected an error"),
    }
    let long = "x".repeat(300);
    match json_reply(500, &long, None) {
        Err(e) => assert_eq!(e, format!("provider returned HTTP 500 — {}", "x".repeat(180))),
        Ok(_) => panic!("expected an error"),
    }
    match json_reply(200, "{}", Some(reply(s("1"), vec![]))) {
        Ok(r) => assert_eq!(val_str(&r.auth), "1"),
        Err(_) => panic!("expected the reply"),
    }
}

#[test]
fn replies_are_read_leniently() {
    let r = parse_reply("{\"user_info\": {\"auth\": 1}}").unwrap();
    assert_eq!(val_str(&r.auth), "1");
    assert!(r.items.is_empty());
    let r = parse_reply("[{\"category_id\": \"3\", \"category_name\": \"News\"}, {\"stream_id\": 77, \"name\": \"BBC\", \"stream_icon\": null}, 5]").unwrap();
    assert_eq!(r.items.len(), 3);
    assert_eq!(val_str(&r.items[0].category_id), "3");
    assert_eq!(val_str(&r.items[0].category_name), "News");
    assert_eq!(val_str(&r.items[1].stream_id), "77");
    assert_eq!(val_str(&r.items[1].name), "BBC");
    assert_eq!(val_str(&r.items[1].stream_icon), "");
    assert_eq!(val_str(&r.items[2].stream_id), "");
    assert_eq!(val_str(&r.auth), "");
    assert!(parse_reply("not json").is_none());
}

#[test]
fn get_json_checks_status_then_json() {
    assert_eq!(get_json(502, "bad gateway").err().unwrap(), "provider returned HTTP 502 — bad gateway");
    assert_eq!(get_json(200, "oops").err().unwrap(), "provider did not return JSON (got: oops)");
    let r = get_json(200, "{\"user_info\":{\"auth\":\"1\"}}").ok().unwrap();
    assert_eq!(val_str(&r.auth), "1");
}

#[test]
fn sign_in_from_json_text() {
    let mut step = fetch_live("https://p.example/", "u", "p");
    let bodies = [
        "{\"user_info\":{\"auth\":1}}",
        "[{\"category_id\":1,\"category_name\":\"Kids\"}]",
        "[{\"stream_id\":5,\"name\":\"Toons\",\"category_id\":\"1\",\"epg_channel_id\":\"t.tv\",\"stream_icon\":\"i.png\"}]",
    ];
    let mut n = 0;
    let result = loop {
        match step {
            LiveStep::Request(f, _url) => {
                let reply = get_json(200, bodies[n]);
                n += 1;
                step = f.advance(reply);
            }
            LiveStep::Finished(r) => break r,
        }
    };
    let ch = result.unwrap();
    assert_eq!(n, 3);
    assert_eq!(ch.len(), 1);
    assert_eq!(ch[0].name, "Toons");
    assert_eq!(ch[0].group, "Kids");
    assert_eq!(ch[0].url, "https://p.example/live/u/p/5.ts");
    assert_eq!(ch[0].tvg_id, "t.tv");
    assert_eq!(ch[0].tvg_logo, "i.png");
}

#[test]
fn encoded_credentials_are_url_safe_and_distinct() {
    let inputs = ["p@ss/w?rd", "p%40ss", "日本", "a+b", "a b", "", "%"];
    let mut seen: Vec<String> = Vec::new();
    for s in inputs {
        let e = enc(s);
        assert!(e.chars().all(|c| c.is_ascii_alphanumeric() || "-_.~%".contains(c)), "{e}");
        assert!(!seen.contains(&e));
        seen.push(e);
    }
}

#[test]
fn reply_fields_are_read_from_the_document() {
    let doc = JsonModel::Obj(vec![
        ("other".to_string(), JsonModel::Null),
        (
            "user_info".to_string(),
            JsonModel::Obj(vec![
                ("auth".to_string(), JsonModel::Num("1".to_string())),
                ("auth".to_string(), JsonModel::Num("0".to_string())),
            ]),
        ),
    ]);
    let r = read_reply(&doc);
    assert_eq!(val_str(&r.auth), "1");
    assert!(r.items.is_empty());

    let list = JsonModel::Arr(vec![
        JsonModel::Obj(vec![
            ("stream_id".to_string(), JsonModel::Num("9".to_string())),
            ("name".to_string(), JsonModel::Str("Nine".to_string())),
            ("stream_icon".to_string(), JsonModel::Bool(true)),
        ]),
        JsonModel::Str("x".to_string()),
    ]);
    let r = read_reply(&list);
    assert_eq!(r.items.len(), 2);
    assert_eq!(val_str(&r.items[0].stream_id), "9");
    assert_eq!(val_str(&r.items[0].name), "Nine");
    assert_eq!(val_str(&r.items[0].stream_icon), "");
    assert_eq!(val_str(&r.items[1].name), "");
    assert_eq!(val_str(&r.auth), "");
}

fn pct_decode(s: &str) -> Vec<u8> {
    let b = s.as_bytes();
    let mut out = Vec::new();
    let mut i = 0;
    while i < b.len() {
        if b[i] == b'%' && i + 2 < b.len() {
            let h = u8::from_str_radix(std::str::from_utf8(&b[i + 1..i + 3]).unwrap(), 16).unwrap();
            out.push(h);
            i += 3;
        } else {
            out.push(b[i]);
            i += 1;
        }
    }
    out
}

#[test]
fn percent_decoding_gives_back_the_credentials() {
    for s in ["", "plain", "a b&c=d/e?f#g", "pässwörd", "100%", "~._-"] {
        assert_eq!(pct_decode(&enc(s)), s.as_bytes());
    }
    assert_eq!(enc("100%"), "100%25");
}
