//! The decisions of an Xtream Codes sign-in.
//!
//! Signing into an IPTV provider portal (host + username + password) takes
//! three requests: the account info, the live categories and the live streams.
//! [`fetch_live`] starts the exchange and [`LiveFetch::advance`] takes each
//! reply in turn, answering with the next request to make or with the final
//! list of channels. The replies are read leniently: Xtream JSON is famously
//! inconsistent (numbers vs strings), so each field is kept as a [`JsonScalar`].

use vstd::prelude::*;

use crate::playlist::{attr_get, attr_value, attrs_view, AttrView, ChannelView, ParsedChannel, channels_view};
use crate::json::{json_doc, parse_reply, reply_of};
use crate::text::{chars_of, has_prefix, string_of, trim, trim_range};

verus! {

broadcast use vstd::string::group_string_axioms;

// ---- Replies ---------------------------------------------------------------

/// A JSON field that may be encoded as either a string or a number.
pub enum JsonScalar {
    /// A JSON string.
    Str(String),
    /// A JSON number, in the text that the JSON library prints for it.
    Num(String),
    /// Anything else, or a missing field.
    Other,
}

/// The fields of one element of a category or stream list.
pub struct XtreamItem {
    pub category_id: JsonScalar,
    pub category_name: JsonScalar,
    pub stream_id: JsonScalar,
    pub name: JsonScalar,
    pub epg_channel_id: JsonScalar,
    pub stream_icon: JsonScalar,
}

/// What the exchange reads from one JSON reply.
pub struct XtreamReply {
    /// `user_info.auth` of an account-info reply.
    pub auth: JsonScalar,
    /// The elements of the reply when it is an array, else empty.
    pub items: Vec<XtreamItem>,
}

/// The text of a lenient JSON field.
pub open spec fn scalar_text(v: JsonScalar) -> Seq<char> {
    match v {
        JsonScalar::Str(s) => s@,
        JsonScalar::Num(t) => t@,
        JsonScalar::Other => seq![],
    }
}

/// The text of the fields of an [`XtreamItem`].
pub struct ItemView {
    pub category_id: Seq<char>,
    pub category_name: Seq<char>,
    pub stream_id: Seq<char>,
    pub name: Seq<char>,
    pub epg_channel_id: Seq<char>,
    pub stream_icon: Seq<char>,
}

impl View for XtreamItem {
    type V = ItemView;

    open spec fn view(&self) -> ItemView {
        ItemView {
            category_id: scalar_text(self.category_id),
            category_name: scalar_text(self.category_name),
            stream_id: scalar_text(self.stream_id),
            name: scalar_text(self.name),
            epg_channel_id: scalar_text(self.epg_channel_id),
            stream_icon: scalar_text(self.stream_icon),
        }
    }
}

/// The text of an [`XtreamReply`].
pub struct ReplyView {
    pub auth: Seq<char>,
    pub items: Seq<ItemView>,
}

impl View for XtreamReply {
    type V = ReplyView;

    open spec fn view(&self) -> ReplyView {
        ReplyView { auth: scalar_text(self.auth), items: self.items@.map_values(|it: XtreamItem| it@) }
    }
}

/// Read a JSON value that may be encoded as either a string or a number.
pub fn val_str(v: &JsonScalar) -> (r: String)
    ensures
        r@ == scalar_text(*v),
{
    match v {
        JsonScalar::Str(s) => s.clone(),
        JsonScalar::Num(n) => n.clone(),
        JsonScalar::Other => String::new(),
    }
}

// ---- Hosts and credentials -------------------------------------------------

/// `s` without its trailing slashes.
pub open spec fn trim_end_slashes(s: Seq<char>) -> Seq<char>
    decreases s.len(),
{
    if s.len() > 0 && s.last() == '/' {
        trim_end_slashes(s.drop_last())
    } else {
        s
    }
}

/// The host with surrounding whitespace and trailing slashes removed, and
/// `http://` in front unless it already names `http://` or `https://`.
pub open spec fn normalize_base_spec(host: Seq<char>) -> Seq<char> {
    let h = trim_end_slashes(trim(host));
    if has_prefix(h, "http://"@) || has_prefix(h, "https://"@) {
        h
    } else {
        "http://"@ + h
    }
}

/// Ensure the host has a scheme and no trailing slash.
pub fn normalize_base(host: &str) -> (r: String)
    ensures
        r@ == normalize_base_spec(host@),
{
    let v = chars_of(host);
    let (a, b0) = trim_range(&v, 0, v.len());
    proof {
        assert(v@.subrange(0, v@.len() as int) =~= v@);
    }
    let ghost t = v@.subrange(a as int, b0 as int);
    let mut b = b0;
    while b > a && v[b - 1] == '/'
        invariant
            a <= b <= b0 <= v@.len(),
            t == v@.subrange(a as int, b0 as int),
            trim_end_slashes(t) == trim_end_slashes(v@.subrange(a as int, b as int)),
        decreases b - a,
    {
        proof {
            let x = v@.subrange(a as int, b as int);
            assert(x.last() == v@[b - 1]);
            assert(x.drop_last() =~= v@.subrange(a as int, b - 1));
        }
        b = b - 1;
    }
    proof {
        let x = v@.subrange(a as int, b as int);
        if b > a {
            assert(x.last() == v@[b - 1]);
        }
        assert(trim_end_slashes(x) == x);
    }
    let h = string_of(&v, a, b);
    let http = chars_of("http://");
    let https = chars_of("https://");
    if crate::text::range_has_prefix(&v, a, b, &http) || crate::text::range_has_prefix(&v, a, b, &https) {
        h
    } else {
        let mut r = String::from_str("http://");
        r.append(h.as_str());
        r
    }
}

/// Bytes that stand for themselves in a URL.
pub open spec fn unreserved(b: u8) -> bool {
    ||| 65 <= b <= 90
    ||| 97 <= b <= 122
    ||| 48 <= b <= 57
    ||| b == 45
    ||| b == 95
    ||| b == 46
    ||| b == 126
}

/// The upper-case hexadecimal digit for `d < 16`.
pub open spec fn hex_digit(d: int) -> char {
    seq!['0', '1', '2', '3', '4', '5', '6', '7', '8', '9', 'A', 'B', 'C', 'D', 'E', 'F'][d]
}

/// The encoding of one byte: itself when unreserved, else `%XX`.
pub open spec fn enc_byte(b: u8) -> Seq<char> {
    if unreserved(b) {
        seq![b as char]
    } else {
        seq!['%', hex_digit(b as int / 16), hex_digit(b as int % 16)]
    }
}

/// Percent-encoding of a byte string.
pub open spec fn enc_spec(bs: Seq<u8>) -> Seq<char>
    decreases bs.len(),
{
    if bs.len() == 0 {
        seq![]
    } else {
        enc_byte(bs[0]) + enc_spec(bs.drop_first())
    }
}

fn is_unreserved(b: u8) -> (r: bool)
    ensures
        r == unreserved(b),
{
    (65 <= b && b <= 90) || (97 <= b && b <= 122) || (48 <= b && b <= 57) || b == 45 || b == 95
        || b == 46 || b == 126
}

/// Percent-encode a credential for safe use in URLs.
pub fn enc(s: &str) -> (r: String)
    ensures
        r@ == enc_spec(vstd::utf8::encode_utf8(s@)),
{
    let hex = ['0', '1', '2', '3', '4', '5', '6', '7', '8', '9', 'A', 'B', 'C', 'D', 'E', 'F'];
    assert(hex@ == seq!['0', '1', '2', '3', '4', '5', '6', '7', '8', '9', 'A', 'B', 'C', 'D', 'E', 'F']);
    let bytes = s.as_bytes();
    let n = bytes.len();
    let mut out = String::new();
    let mut i: usize = 0;
    proof {
        assert(bytes@.skip(0) =~= bytes@);
    }
    while i < n
        invariant
            i <= n,
            n == bytes@.len(),
            bytes@ == vstd::utf8::encode_utf8(s@),
            hex@ == seq!['0', '1', '2', '3', '4', '5', '6', '7', '8', '9', 'A', 'B', 'C', 'D', 'E', 'F'],
            enc_spec(bytes@) == out@ + enc_spec(bytes@.skip(i as int)),
        decreases n - i,
    {
        let b = bytes[i];
        proof {
            assert(bytes@.skip(i as int).drop_first() =~= bytes@.skip(i + 1));
            assert(bytes@.skip(i as int)[0] == b);
        }
        let ghost before = out@;
        if is_unreserved(b) {
            out.push(b as char);
        } else {
            out.push('%');
            out.push(hex[(b / 16) as usize]);
            out.push(hex[(b % 16) as usize]);
        }
        proof {
            assert(out@ =~= before + enc_byte(b));
            assert(before + enc_spec(bytes@.skip(i as int)) =~= out@ + enc_spec(bytes@.skip(i + 1)));
        }
        i = i + 1;
    }
    proof {
        assert(bytes@.skip(n as int) =~= Seq::<u8>::empty());
        assert(out@ + Seq::<char>::empty() =~= out@);
    }
    out
}

// ---- Replies as text --------------------------------------------------------

/// The decimal digits of `n`.
pub open spec fn decimal(n: nat) -> Seq<char>
    decreases n,
{
    if n < 10 {
        seq![hex_digit(n as int)]
    } else {
        decimal(n / 10) + seq![hex_digit((n % 10) as int)]
    }
}

/// Appends the decimal digits of `n`.
pub fn push_decimal(s: &mut String, n: u16)
    ensures
        final(s)@ == old(s)@ + decimal(n as nat),
    decreases n,
{
    let digits = ['0', '1', '2', '3', '4', '5', '6', '7', '8', '9'];
    if n >= 10 {
        push_decimal(s, n / 10);
    }
    s.push(digits[(n % 10) as usize]);
    proof {
        assert(digits@[(n % 10) as int] == hex_digit((n % 10) as int));
        assert(s@ =~= old(s)@ + decimal(n as nat));
    }
}

/// The start of a reply body quoted in error messages: at most 180 characters
/// of the trimmed body.
pub open spec fn snippet(body: Seq<char>) -> Seq<char> {
    let t = trim(body);
    if t.len() <= 180 {
        t
    } else {
        t.take(180)
    }
}

/// The error for a reply whose HTTP status is not a success.
pub open spec fn http_error_msg(status: u16, snip: Seq<char>) -> Seq<char> {
    "provider returned HTTP "@ + decimal(status as nat) + if snip.len() == 0 {
        Seq::<char>::empty()
    } else {
        " — "@ + snip
    }
}

/// The error for a successful reply that is not JSON.
pub open spec fn not_json_msg(snip: Seq<char>) -> Seq<char> {
    "provider did not return JSON (got: "@ + (if snip.len() == 0 {
        "empty response"@
    } else {
        snip
    }) + ")"@
}

/// An HTTP status in the success class.
pub open spec fn is_success(status: u16) -> bool {
    200 <= status <= 299
}

fn make_snippet(body: &str) -> (r: String)
    ensures
        r@ == snippet(body@),
{
    let v = chars_of(body);
    let (a, b) = trim_range(&v, 0, v.len());
    proof {
        assert(v@.subrange(0, v@.len() as int) =~= v@);
    }
    if b - a <= 180 {
        string_of(&v, a, b)
    } else {
        proof {
            assert(v@.subrange(a as int, a + 180) =~= v@.subrange(a as int, b as int).take(180));
        }
        string_of(&v, a, a + 180)
    }
}

/// The outcome of one provider request: its HTTP status, its body, and the
/// body read as JSON (`None` when it is not JSON).
pub fn json_reply(status: u16, body: &str, parsed: Option<XtreamReply>) -> (r: Result<XtreamReply, String>)
    ensures
        !is_success(status) ==> (r matches Err(e) && e@ == http_error_msg(status, snippet(body@))),
        is_success(status) && parsed is None ==> (r matches Err(e) && e@ == not_json_msg(snippet(body@))),
        is_success(status) && parsed is Some ==> r == Ok::<XtreamReply, String>(parsed->0),
{
    let snip = make_snippet(body);
    if !(200 <= status && status <= 299) {
        let mut e = String::from_str("provider returned HTTP ");
        push_decimal(&mut e, status);
        if !snip.as_str().is_empty() {
            e.append(" — ");
            e.append(snip.as_str());
        }
        proof {
            if snip@.len() == 0 {
                assert(e@ =~= e@ + Seq::<char>::empty());
            }
        }
        return Err(e);
    }
    match parsed {
        Some(p) => Ok(p),
        None => {
            let mut e = String::from_str("provider did not return JSON (got: ");
            if snip.as_str().is_empty() {
                e.append("empty response");
            } else {
                e.append(snip.as_str());
            }
            e.append(")");
            Err(e)
        },
    }
}

/// The outcome of one provider request from its HTTP status and body: the
/// reply when the status is a success and the body is JSON, else the error
/// that quotes the status or the start of the body.
pub fn get_json(status: u16, body: &str) -> (r: Result<XtreamReply, String>)
    ensures
        !is_success(status) ==> (r matches Err(e) && e@ == http_error_msg(status, snippet(body@))),
        is_success(status) && json_doc(body@) is None ==> (r matches Err(e) && e@ == not_json_msg(
            snippet(body@),
        )),
        is_success(status) && json_doc(body@) is Some ==> (r matches Ok(x) && x@ == reply_of(
            json_doc(body@)->0,
        )),
{
    if 200 <= status && status <= 299 {
        json_reply(status, body, parse_reply(body))
    } else {
        json_reply(status, body, None)
    }
}

// ---- Requests --------------------------------------------------------------

/// The account-info request.
pub open spec fn api_url(base: Seq<char>, u: Seq<char>, p: Seq<char>) -> Seq<char> {
    base + "/player_api.php?username="@ + u + "&password="@ + p
}

/// The live-categories request.
pub open spec fn categories_url(base: Seq<char>, u: Seq<char>, p: Seq<char>) -> Seq<char> {
    api_url(base, u, p) + "&action=get_live_categories"@
}

/// The live-streams request.
pub open spec fn streams_url(base: Seq<char>, u: Seq<char>, p: Seq<char>) -> Seq<char> {
    api_url(base, u, p) + "&action=get_live_streams"@
}

/// The playback URL of stream `sid`.
pub open spec fn stream_url(base: Seq<char>, u: Seq<char>, p: Seq<char>, sid: Seq<char>) -> Seq<char> {
    base + "/live/"@ + u + "/"@ + p + "/"@ + sid + ".ts"@
}

fn make_api_url(base: &String, u: &String, p: &String) -> (r: String)
    ensures
        r@ == api_url(base@, u@, p@),
{
    let mut r = base.clone();
    r.append("/player_api.php?username=");
    r.append(u.as_str());
    r.append("&password=");
    r.append(p.as_str());
    r
}

fn make_stream_url(base: &String, u: &String, p: &String, sid: &String) -> (r: String)
    ensures
        r@ == stream_url(base@, u@, p@, sid@),
{
    let mut r = base.clone();
    r.append("/live/");
    r.append(u.as_str());
    r.append("/");
    r.append(p.as_str());
    r.append("/");
    r.append(sid.as_str());
    r.append(".ts");
    r
}

// ---- Channels --------------------------------------------------------------

/// Category id -> name pairs of a category list, in order (a later id wins).
pub open spec fn category_pairs(items: Seq<XtreamItem>) -> Seq<AttrView> {
    items.map_values(|it: XtreamItem| (scalar_text(it.category_id), scalar_text(it.category_name)))
}

/// The channels of a stream list: one per element with a non-empty stream id.
pub open spec fn live_channels(
    base: Seq<char>,
    u: Seq<char>,
    p: Seq<char>,
    cats: Seq<AttrView>,
    items: Seq<XtreamItem>,
) -> Seq<ChannelView>
    decreases items.len(),
{
    if items.len() == 0 {
        seq![]
    } else {
        let rest = live_channels(base, u, p, cats, items.drop_last());
        let it = items.last();
        let sid = scalar_text(it.stream_id);
        if sid.len() == 0 {
            rest
        } else {
            rest.push(
                ChannelView {
                    name: scalar_text(it.name),
                    url: stream_url(base, u, p, sid),
                    group: attr_value(cats, scalar_text(it.category_id)),
                    tvg_id: scalar_text(it.epg_channel_id),
                    tvg_logo: scalar_text(it.stream_icon),
                },
            )
        }
    }
}

fn read_categories(items: &Vec<XtreamItem>) -> (r: Vec<(String, String)>)
    ensures
        attrs_view(r@) == category_pairs(items@),
{
    let mut r: Vec<(String, String)> = Vec::new();
    let mut i: usize = 0;
    while i < items.len()
        invariant
            i <= items@.len(),
            attrs_view(r@) == category_pairs(items@.take(i as int)),
        decreases items@.len() - i,
    {
        let ghost before = r@;
        let id = val_str(&items[i].category_id);
        let name = val_str(&items[i].category_name);
        r.push((id, name));
        proof {
            assert(items@.take(i + 1) =~= items@.take(i as int).push(items@[i as int]));
            assert(attrs_view(r@) =~= attrs_view(before).push((id@, name@)));
            assert(category_pairs(items@.take(i + 1)) =~= category_pairs(items@.take(i as int)).push(
                (scalar_text(items@[i as int].category_id), scalar_text(items@[i as int].category_name)),
            ));
        }
        i = i + 1;
    }
    proof {
        assert(items@.take(items@.len() as int) =~= items@);
    }
    r
}

fn build_channels(
    base: &String,
    u: &String,
    p: &String,
    cats: &Vec<(String, String)>,
    items: &Vec<XtreamItem>,
) -> (r: Vec<ParsedChannel>)
    ensures
        channels_view(r@) == live_channels(
            base@,
            u@,
            p@,
            attrs_view(cats@),
            items@,
        ),
{
    let ghost cv = attrs_view(cats@);
    let mut out: Vec<ParsedChannel> = Vec::new();
    let mut i: usize = 0;
    while i < items.len()
        invariant
            i <= items@.len(),
            cv == attrs_view(cats@),
            channels_view(out@) == live_channels(base@, u@, p@, cv, items@.take(i as int)),
        decreases items@.len() - i,
    {
        let it = &items[i];
        proof {
            assert(items@.take(i + 1).drop_last() =~= items@.take(i as int));
            assert(items@.take(i + 1).last() == items@[i as int]);
        }
        let sid = val_str(&it.stream_id);
        if !sid.as_str().is_empty() {
            let cat = val_str(&it.category_id);
            let ghost before = out@;
            let ch = ParsedChannel {
                name: val_str(&it.name),
                url: make_stream_url(base, u, p, &sid),
                group: attr_get(cats, cat.as_str()),
                tvg_id: val_str(&it.epg_channel_id),
                tvg_logo: val_str(&it.stream_icon),
            };
            out.push(ch);
            proof {
                assert(channels_view(out@) =~= channels_view(before).push(out@.last()@));
            }
        }
        i = i + 1;
    }
    proof {
        assert(items@.take(items@.len() as int) =~= items@);
    }
    out
}

// ---- The exchange ----------------------------------------------------------

/// Which reply the exchange waits for.
#[derive(Clone, Copy, PartialEq, Eq, Structural)]
pub enum XtreamStage {
    SigningIn,
    ReadingCategories,
    ReadingStreams,
}

/// An Xtream sign-in in progress.
pub struct LiveFetch {
    /// The normalized portal address.
    pub base: String,
    /// The percent-encoded username.
    pub user: String,
    /// The percent-encoded password.
    pub pass: String,
    pub stage: XtreamStage,
    /// Category id -> name pairs read so far.
    pub categories: Vec<(String, String)>,
}

/// The text of a [`LiveFetch`].
pub struct LiveFetchView {
    pub base: Seq<char>,
    pub user: Seq<char>,
    pub pass: Seq<char>,
    pub stage: XtreamStage,
    pub categories: Seq<AttrView>,
}

impl View for LiveFetch {
    type V = LiveFetchView;

    open spec fn view(&self) -> LiveFetchView {
        LiveFetchView {
            base: self.base@,
            user: self.user@,
            pass: self.pass@,
            stage: self.stage,
            categories: attrs_view(self.categories@),
        }
    }
}

/// What the exchange does next.
pub enum LiveStep {
    /// Fetch the URL and hand its reply to the [`LiveFetch`].
    Request(LiveFetch, String),
    /// The exchange is over.
    Finished(Result<Vec<ParsedChannel>, String>),
}

/// The text of a [`LiveStep`].
pub enum LiveStepView {
    Request(LiveFetchView, Seq<char>),
    Failed(Seq<char>),
    Channels(Seq<ChannelView>),
}

impl View for LiveStep {
    type V = LiveStepView;

    open spec fn view(&self) -> LiveStepView {
        match self {
            LiveStep::Request(f, url) => LiveStepView::Request(f@, url@),
            LiveStep::Finished(Ok(v)) => LiveStepView::Channels(channels_view(v@)),
            LiveStep::Finished(Err(e)) => LiveStepView::Failed(e@),
        }
    }
}

/// The error when the portal does not confirm the account.
pub open spec fn sign_in_failed_msg() -> Seq<char> {
    "sign-in failed: check the host, username and password"@
}

/// The error when the portal lists no usable stream.
pub open spec fn no_live_channels_msg() -> Seq<char> {
    "provider returned no live channels"@
}

/// The account reply confirms the sign-in.
pub open spec fn signed_in(reply: XtreamReply) -> bool {
    scalar_text(reply.auth) == "1"@
}

/// The first step of a sign-in to `host` as `user` with `pass`.
pub open spec fn live_start(host: Seq<char>, user: Seq<u8>, pass: Seq<u8>) -> LiveStepView {
    let base = normalize_base_spec(host);
    let u = enc_spec(user);
    let p = enc_spec(pass);
    LiveStepView::Request(
        LiveFetchView { base, user: u, pass: p, stage: XtreamStage::SigningIn, categories: seq![] },
        api_url(base, u, p),
    )
}

/// What the exchange in state `f` does with `reply`: a failed request ends
/// it with that error; a refused sign-in ends it; the account and category
/// replies lead to the next request; the stream list ends it with the
/// channels, or with an error when there are none.
pub open spec fn live_step(f: LiveFetchView, reply: Result<XtreamReply, String>) -> LiveStepView {
    match reply {
        Err(e) => LiveStepView::Failed(e@),
        Ok(rep) => match f.stage {
            XtreamStage::SigningIn => if signed_in(rep) {
                LiveStepView::Request(
                    LiveFetchView { stage: XtreamStage::ReadingCategories, ..f },
                    categories_url(f.base, f.user, f.pass),
                )
            } else {
                LiveStepView::Failed(sign_in_failed_msg())
            },
            XtreamStage::ReadingCategories => LiveStepView::Request(
                LiveFetchView {
                    stage: XtreamStage::ReadingStreams,
                    categories: category_pairs(rep.items@),
                    ..f
                },
                streams_url(f.base, f.user, f.pass),
            ),
            XtreamStage::ReadingStreams => {
                let chans = live_channels(f.base, f.user, f.pass, f.categories, rep.items@);
                if chans.len() == 0 {
                    LiveStepView::Failed(no_live_channels_msg())
                } else {
                    LiveStepView::Channels(chans)
                }
            },
        },
    }
}

/// Authenticate and fetch all live streams as channels: the first request.
pub fn fetch_live(host: &str, user: &str, pass: &str) -> (r: LiveStep)
    ensures
        r@ == live_start(host@, vstd::utf8::encode_utf8(user@), vstd::utf8::encode_utf8(pass@)),
{
    let base = normalize_base(host);
    let u = enc(user);
    let p = enc(pass);
    let url = make_api_url(&base, &u, &p);
    let f = LiveFetch {
        base,
        user: u,
        pass: p,
        stage: XtreamStage::SigningIn,
        categories: Vec::new(),
    };
    proof {
        assert(f@.categories =~= Seq::<AttrView>::empty());
    }
    LiveStep::Request(f, url)
}

impl LiveFetch {
    /// Take the reply (or the error) of the request made last.
    pub fn advance(self, reply: Result<XtreamReply, String>) -> (r: LiveStep)
        ensures
            r@ == live_step(self@, reply),
    {
        match reply {
            Err(e) => LiveStep::Finished(Err(e)),
            Ok(rep) => match self.stage {
                XtreamStage::SigningIn => {
                    let auth = val_str(&rep.auth);
                    let one = String::from_str("1");
                    if auth == one {
                        let mut url = make_api_url(&self.base, &self.user, &self.pass);
                        url.append("&action=get_live_categories");
                        LiveStep::Request(LiveFetch { stage: XtreamStage::ReadingCategories, ..self }, url)
                    } else {
                        LiveStep::Finished(
                            Err(String::from_str("sign-in failed: check the host, username and password")),
                        )
                    }
                },
                XtreamStage::ReadingCategories => {
                    let cats = read_categories(&rep.items);
                    let mut url = make_api_url(&self.base, &self.user, &self.pass);
                    url.append("&action=get_live_streams");
                    LiveStep::Request(
                        LiveFetch { stage: XtreamStage::ReadingStreams, categories: cats, ..self },
                        url,
                    )
                },
                XtreamStage::ReadingStreams => {
                    let out = build_channels(
                        &self.base,
                        &self.user,
                        &self.pass,
                        &self.categories,
                        &rep.items,
                    );
                    if out.len() == 0 {
                        LiveStep::Finished(Err(String::from_str("provider returned no live channels")))
                    } else {
                        LiveStep::Finished(Ok(out))
                    }
                },
            },
        }
    }
}

} // verus!
