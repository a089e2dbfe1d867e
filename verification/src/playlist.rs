//! M3U / M3U8 playlist parsing.
//!
//! Handles the common extended-M3U format used by IPTV playlists:
//!
//! ```text
//! #EXTM3U
//! #EXTINF:-1 tvg-id="..." tvg-logo="..." group-title="News;Public",Channel Name (1080p)
//! https://example.com/stream.m3u8
//! ```
//!
//! Unknown `#`-directives (`#EXTVLCOPT`, `#EXTGRP`, comments) are tolerated.

use vstd::prelude::*;

use crate::scan::{
    first_in, last_in, lemma_first_in_found, lemma_first_in_none, lemma_first_in_range,
    lemma_last_in_found, lemma_last_in_none,
};
use crate::text::{
    chars_of, has_prefix, sub_vec, is_whitespace, is_ws, range_has_prefix, string_of, trim,
    trim_range,
};

verus! {

broadcast use vstd::string::group_string_axioms;

// ---- Model -----------------------------------------------------------------

/// A single parsed channel entry (pre-database, no id yet).
#[derive(Debug, Clone)]
pub struct ParsedChannel {
    pub name: String,
    pub url: String,
    pub group: String,
    pub tvg_id: String,
    pub tvg_logo: String,
}

/// The text of a [`ParsedChannel`], field by field.
pub struct ChannelView {
    pub name: Seq<char>,
    pub url: Seq<char>,
    pub group: Seq<char>,
    pub tvg_id: Seq<char>,
    pub tvg_logo: Seq<char>,
}

impl View for ParsedChannel {
    type V = ChannelView;

    open spec fn view(&self) -> ChannelView {
        ChannelView {
            name: self.name@,
            url: self.url@,
            group: self.group@,
            tvg_id: self.tvg_id@,
            tvg_logo: self.tvg_logo@,
        }
    }
}

/// The views of a list of channels.
pub open spec fn channels_view(v: Seq<ParsedChannel>) -> Seq<ChannelView> {
    v.map_values(|c: ParsedChannel| c@)
}

/// What an `#EXTINF:` line says about the entry that follows it.
pub struct ExtinfView {
    pub name: Seq<char>,
    pub group: Seq<char>,
    pub tvg_id: Seq<char>,
    pub tvg_logo: Seq<char>,
}

/// A `key="value"` attribute, as text.
pub type AttrView = (Seq<char>, Seq<char>);

// ---- `#EXTINF:` lines ------------------------------------------------------

/// The number of double quotes in `s`.
pub open spec fn quotes(s: Seq<char>) -> nat
    decreases s.len(),
{
    if s.len() == 0 {
        0
    } else {
        quotes(s.drop_last()) + if s.last() == '"' {
            1nat
        } else {
            0nat
        }
    }
}

/// A comma at `i` that is not inside a quoted value.
pub open spec fn name_comma_at(s: Seq<char>) -> spec_fn(int) -> bool {
    |i: int| s[i] == ',' && quotes(s.take(i)) % 2 == 0
}

/// Where the display name starts: the first comma that is not inside quotes.
pub open spec fn name_comma(s: Seq<char>) -> Option<int> {
    first_in(0, s.len() as int, name_comma_at(s))
}

/// `="` at `k`.
pub open spec fn eq_quote_at(s: Seq<char>) -> spec_fn(int) -> bool {
    |k: int| 0 <= k && k + 1 < s.len() && s[k] == '=' && s[k + 1] == '"'
}

/// A double quote at `k`.
pub open spec fn quote_at(s: Seq<char>) -> spec_fn(int) -> bool {
    |k: int| s[k] == '"'
}

/// Whitespace at `k`.
pub open spec fn ws_at(s: Seq<char>) -> spec_fn(int) -> bool {
    |k: int| is_ws(s[k])
}

/// Start of the key that ends at `k`: just after the last whitespace before `k`.
pub open spec fn key_start(s: Seq<char>, k: int) -> int {
    match last_in(0, k, ws_at(s)) {
        Some(p) => p + 1,
        None => 0,
    }
}

/// The `key="value"` pairs of `s`, scanning from `i`, in order of appearance.
/// A pair with an empty key is skipped; scanning stops at a `="` whose value
/// has no closing quote.
pub open spec fn attrs_from(s: Seq<char>, i: int) -> Seq<AttrView>
    decreases s.len() - i,
{
    match first_in(i, s.len() - 1, eq_quote_at(s)) {
        None => seq![],
        Some(k) => match first_in(k + 2, s.len() as int, quote_at(s)) {
            None => seq![],
            Some(q) => {
                proof {
                    lemma_first_in_range(i, s.len() - 1, eq_quote_at(s));
                    lemma_first_in_range(k + 2, s.len() as int, quote_at(s));
                }
                let ks = key_start(s, k);
                let rest = attrs_from(s, q + 1);
                if ks < k {
                    seq![(s.subrange(ks, k), s.subrange(k + 2, q))] + rest
                } else {
                    rest
                }
            },
        },
    }
}

/// The value of the last attribute named `key`, or empty when there is none.
pub open spec fn attr_value(attrs: Seq<AttrView>, key: Seq<char>) -> Seq<char>
    decreases attrs.len(),
{
    if attrs.len() == 0 {
        seq![]
    } else if attrs.last().0 == key {
        attrs.last().1
    } else {
        attr_value(attrs.drop_last(), key)
    }
}

/// The attribute part of the text after `#EXTINF:`: everything before the name comma.
pub open spec fn extinf_attr_part(rest: Seq<char>) -> Seq<char> {
    match name_comma(rest) {
        Some(i) => rest.take(i),
        None => rest,
    }
}

/// The meaning of the text after `#EXTINF:` — `<duration> key="val"...,Display Name`.
pub open spec fn extinf_spec(rest: Seq<char>) -> ExtinfView {
    let attrs = attrs_from(extinf_attr_part(rest), 0);
    ExtinfView {
        name: match name_comma(rest) {
            Some(i) => trim(rest.skip(i + 1)),
            None => seq![],
        },
        group: attr_value(attrs, "group-title"@),
        tvg_id: attr_value(attrs, "tvg-id"@),
        tvg_logo: attr_value(attrs, "tvg-logo"@),
    }
}

// ---- Documents -------------------------------------------------------------

/// `#EXTINF:`
pub open spec fn extinf_tag() -> Seq<char> {
    "#EXTINF:"@
}

/// `#EXTGRP:`
pub open spec fn extgrp_tag() -> Seq<char> {
    "#EXTGRP:"@
}

/// What the parser has seen so far.
pub struct M3uState {
    pub out: Seq<ChannelView>,
    pub pending: Option<ExtinfView>,
    pub pending_group: Option<Seq<char>>,
}

/// The state before the first line.
pub open spec fn m3u_start() -> M3uState {
    M3uState { out: seq![], pending: None, pending_group: None }
}

/// The effect of one line. A non-comment line is the URL for the most recent
/// `#EXTINF`; `#EXTGRP:` supplies the group when the `#EXTINF` has none.
pub open spec fn m3u_line_step(st: M3uState, raw: Seq<char>) -> M3uState {
    let line = trim(raw);
    if line.len() == 0 {
        st
    } else if has_prefix(line, extinf_tag()) {
        M3uState {
            out: st.out,
            pending: Some(extinf_spec(line.skip(extinf_tag().len() as int))),
            pending_group: st.pending_group,
        }
    } else if has_prefix(line, extgrp_tag()) {
        M3uState {
            out: st.out,
            pending: st.pending,
            pending_group: Some(trim(line.skip(extgrp_tag().len() as int))),
        }
    } else if line[0] == '#' {
        st
    } else {
        match st.pending {
            Some(info) => {
                let group = if info.group.len() != 0 {
                    info.group
                } else {
                    match st.pending_group {
                        Some(g) => g,
                        None => seq![],
                    }
                };
                M3uState {
                    out: st.out.push(
                        ChannelView {
                            name: info.name,
                            url: line,
                            group: group,
                            tvg_id: info.tvg_id,
                            tvg_logo: info.tvg_logo,
                        },
                    ),
                    pending: None,
                    pending_group: None,
                }
            },
            None => M3uState { out: st.out, pending: None, pending_group: None },
        }
    }
}

/// A line feed at `k`.
pub open spec fn newline_at(s: Seq<char>) -> spec_fn(int) -> bool {
    |k: int| s[k] == '\n'
}

/// Length of the first line of `s`.
pub open spec fn line_end(s: Seq<char>) -> int {
    match first_in(0, s.len() as int, newline_at(s)) {
        Some(j) => j,
        None => s.len() as int,
    }
}

proof fn lemma_line_end_range(s: Seq<char>)
    ensures
        0 <= line_end(s) <= s.len(),
        line_end(s) < s.len() ==> s[line_end(s)] == '\n',
{
    lemma_first_in_range(0, s.len() as int, newline_at(s));
}

/// The state after reading every line of `s`, starting from `st`.
pub open spec fn m3u_from(s: Seq<char>, st: M3uState) -> M3uState
    decreases s.len(),
{
    let j = line_end(s);
    let st2 = m3u_line_step(st, s.take(j));
    if 0 <= j < s.len() {
        m3u_from(s.skip(j + 1), st2)
    } else {
        st2
    }
}

/// The channels of an extended-M3U document.
pub open spec fn m3u_channels(s: Seq<char>) -> Seq<ChannelView> {
    m3u_from(s, m3u_start()).out
}


// ---- Implementation --------------------------------------------------------

struct Extinf {
    name: String,
    group: String,
    tvg_id: String,
    tvg_logo: String,
}

impl View for Extinf {
    type V = ExtinfView;

    closed spec fn view(&self) -> ExtinfView {
        ExtinfView {
            name: self.name@,
            group: self.group@,
            tvg_id: self.tvg_id@,
            tvg_logo: self.tvg_logo@,
        }
    }
}

/// The text of a list of attributes.
pub open spec fn attrs_view(v: Seq<(String, String)>) -> Seq<AttrView> {
    v.map_values(|e: (String, String)| (e.0@, e.1@))
}

/// Extract `key="value"` attribute pairs from an attribute string, in order
/// of appearance.
fn parse_attrs(s: &Vec<char>) -> (r: Vec<(String, String)>)
    ensures
        attrs_view(r@) == attrs_from(s@, 0),
{
    let n = s.len();
    let mut out: Vec<(String, String)> = Vec::new();
    let mut i: usize = 0;
    loop
        invariant_except_break
            i <= n,
            n == s@.len(),
            attrs_view(out@) + attrs_from(s@, i as int) == attrs_from(s@, 0),
        ensures
            attrs_view(out@) == attrs_from(s@, 0),
        decreases n - i,
    {
        // `="` at or after `i`
        let mut k = i;
        while k < n && k + 1 < n && !(s[k] == '=' && s[k + 1] == '"')
            invariant
                i <= k <= n,
                n == s@.len(),
                forall|t: int| i <= t < k ==> !#[trigger] eq_quote_at(s@)(t),
            decreases n - k,
        {
            k = k + 1;
        }
        if k >= n || k + 1 >= n {
            proof {
                lemma_first_in_none(i as int, n - 1, eq_quote_at(s@));
                assert(attrs_view(out@) + seq![] =~= attrs_view(out@));
            }
            break;
        }
        proof {
            lemma_first_in_found(i as int, n - 1, eq_quote_at(s@), k as int);
        }
        // the key runs back to just after the previous whitespace
        let mut p = k;
        while p > 0 && !is_whitespace(s[p - 1])
            invariant
                p <= k < n,
                n == s@.len(),
                forall|t: int| p <= t < k ==> !#[trigger] ws_at(s@)(t),
            decreases p,
        {
            p = p - 1;
        }
        proof {
            if p > 0 {
                lemma_last_in_found(0, k as int, ws_at(s@), p - 1);
            } else {
                lemma_last_in_none(0, k as int, ws_at(s@));
            }
        }
        let ks = p;
        // the closing quote of the value
        let mut q = k + 2;
        while q < n && s[q] != '"'
            invariant
                k + 2 <= q <= n,
                n == s@.len(),
                forall|t: int| k + 2 <= t < q ==> !#[trigger] quote_at(s@)(t),
            decreases n - q,
        {
            q = q + 1;
        }
        if q >= n {
            proof {
                lemma_first_in_none(k + 2, n as int, quote_at(s@));
                assert(attrs_view(out@) + seq![] =~= attrs_view(out@));
            }
            break;
        }
        proof {
            lemma_first_in_found(k + 2, n as int, quote_at(s@), q as int);
        }
        if ks < k {
            let key = string_of(s, ks, k);
            let val = string_of(s, k + 2, q);
            let ghost before = out@;
            out.push((key, val));
            proof {
                assert(attrs_view(out@) =~= attrs_view(before).push((key@, val@)));
                assert(attrs_view(out@) + attrs_from(s@, q + 1) =~= attrs_view(before) + (seq![
                    (s@.subrange(ks as int, k as int), s@.subrange(k + 2, q as int)),
                ] + attrs_from(s@, q + 1)));
            }
        }
        i = q + 1;
    }
    out
}

/// The value of the last attribute named `key`, or empty.
pub(crate) fn attr_get(attrs: &Vec<(String, String)>, key: &str) -> (r: String)
    ensures
        r@ == attr_value(attrs_view(attrs@), key@),
{
    let wanted = String::from_str(key);
    let mut j = attrs.len();
    assert(attrs_view(attrs@).take(j as int) =~= attrs_view(attrs@));
    while j > 0
        invariant
            j <= attrs@.len(),
            wanted@ == key@,
            attr_value(attrs_view(attrs@), key@) == attr_value(attrs_view(attrs@).take(j as int), key@),
        decreases j,
    {
        proof {
            let t = attrs_view(attrs@).take(j as int);
            assert(t.drop_last() =~= attrs_view(attrs@).take(j - 1));
            assert(t.last() == (attrs@[j - 1].0@, attrs@[j - 1].1@));
        }
        if attrs[j - 1].0 == wanted {
            return attrs[j - 1].1.clone();
        }
        j = j - 1;
    }
    String::new()
}

/// Parse the part after `#EXTINF:` — `<duration> key="val"...,Display Name`.
fn parse_extinf(rest: &Vec<char>) -> (r: Extinf)
    ensures
        r@ == extinf_spec(rest@),
{
    // The display name is everything after the first comma that is not inside quotes.
    let n = rest.len();
    let mut in_quotes = false;
    let mut i: usize = 0;
    while i < n && !(rest[i] == ',' && !in_quotes)
        invariant
            i <= n,
            n == rest@.len(),
            in_quotes == (quotes(rest@.take(i as int)) % 2 == 1),
            forall|t: int| 0 <= t < i ==> !#[trigger] name_comma_at(rest@)(t),
        decreases n - i,
    {
        proof {
            assert(rest@.take(i + 1).drop_last() =~= rest@.take(i as int));
        }
        if rest[i] == '"' {
            in_quotes = !in_quotes;
        }
        i = i + 1;
    }
    let (attrs_part, name) = if i < n {
        proof {
            lemma_first_in_found(0, n as int, name_comma_at(rest@), i as int);
        }
        let (a, b) = trim_range(rest, i + 1, n);
        proof {
            assert(rest@.subrange(i + 1, n as int) =~= rest@.skip(i + 1));
        }
        (sub_vec(rest, 0, i), string_of(rest, a, b))
    } else {
        proof {
            lemma_first_in_none(0, n as int, name_comma_at(rest@));
            assert(rest@.subrange(0, n as int) =~= rest@);
        }
        (sub_vec(rest, 0, n), String::new())
    };
    proof {
        if i < n {
            assert(attrs_part@ =~= rest@.take(i as int));
        }
    }
    let attrs = parse_attrs(&attrs_part);
    Extinf {
        name,
        group: attr_get(&attrs, "group-title"),
        tvg_id: attr_get(&attrs, "tvg-id"),
        tvg_logo: attr_get(&attrs, "tvg-logo"),
    }
}

spec fn opt_extinf_view(o: Option<Extinf>) -> Option<ExtinfView> {
    match o {
        Some(e) => Some(e@),
        None => None,
    }
}

spec fn opt_string_view(o: Option<String>) -> Option<Seq<char>> {
    match o {
        Some(s) => Some(s@),
        None => None,
    }
}

spec fn state_view(out: Seq<ParsedChannel>, pending: Option<Extinf>, pending_group: Option<String>) -> M3uState {
    M3uState {
        out: channels_view(out),
        pending: opt_extinf_view(pending),
        pending_group: opt_string_view(pending_group),
    }
}

/// Parse an extended-M3U document into channel entries.
pub fn parse_m3u(content: &str) -> (r: Vec<ParsedChannel>)
    ensures
        channels_view(r@) == m3u_channels(content@),
{
    let v = chars_of(content);
    let n = v.len();
    let extinf = chars_of("#EXTINF:");
    let extgrp = chars_of("#EXTGRP:");
    let mut out: Vec<ParsedChannel> = Vec::new();
    let mut pending: Option<Extinf> = None;
    // `#EXTGRP:` can set the group for the following entry when group-title is absent.
    let mut pending_group: Option<String> = None;
    let mut pos: usize = 0;
    proof {
        assert(v@.skip(0) =~= v@);
        assert(channels_view(out@) =~= Seq::<ChannelView>::empty());
        assert(state_view(out@, pending, pending_group) == m3u_start());
    }
    loop
        invariant_except_break
            pos <= n,
            n == v@.len(),
            v@ == content@,
            extinf@ == extinf_tag(),
            extgrp@ == extgrp_tag(),
            m3u_from(v@, m3u_start()) == m3u_from(v@.skip(pos as int), state_view(out@, pending, pending_group)),
        ensures
            channels_view(out@) == m3u_channels(v@),
        decreases n - pos,
    {
        let ghost rem = v@.skip(pos as int);
        let ghost st = state_view(out@, pending, pending_group);
        // the current line is v[pos..j]
        let mut j = pos;
        while j < n && v[j] != '\n'
            invariant
                pos <= j <= n,
                n == v@.len(),
                rem == v@.skip(pos as int),
                forall|t: int| pos <= t < j ==> v@[t] != '\n',
            decreases n - j,
        {
            j = j + 1;
        }
        proof {
            assert forall|t: int| 0 <= t < j - pos implies !#[trigger] newline_at(rem)(t) by {
                assert(rem[t] == v@[pos + t]);
            }
            if j < n {
                assert(rem[j - pos] == v@[j as int]);
                lemma_first_in_found(0, rem.len() as int, newline_at(rem), j - pos);
            } else {
                lemma_first_in_none(0, rem.len() as int, newline_at(rem));
            }
            assert(line_end(rem) == j - pos);
            assert(rem.take(j - pos) =~= v@.subrange(pos as int, j as int));
            if j < n {
                assert(rem.skip(j - pos + 1) =~= v@.skip(j + 1));
            }
        }
        let (a, b) = trim_range(&v, pos, j);
        let ghost line = v@.subrange(a as int, b as int);
        assert(line == trim(rem.take(j - pos)));
        if a == b {
            // blank line
        } else if range_has_prefix(&v, a, b, &extinf) {
            let rest = sub_vec(&v, a + extinf.len(), b);
            proof {
                assert(rest@ =~= line.skip(extinf_tag().len() as int));
            }
            pending = Some(parse_extinf(&rest));
        } else if range_has_prefix(&v, a, b, &extgrp) {
            let (ga, gb) = trim_range(&v, a + extgrp.len(), b);
            proof {
                assert(v@.subrange(a + extgrp@.len(), b as int) =~= line.skip(extgrp_tag().len() as int));
            }
            pending_group = Some(string_of(&v, ga, gb));
        } else if v[a] == '#' {
            // Other directive/comment — ignore.
            assert(line[0] == v@[a as int]);
        } else {
            assert(line[0] == v@[a as int]);
            // A non-comment line is the URL for the most recent #EXTINF.
            match pending.take() {
                Some(info) => {
                    let has_group = !info.group.as_str().is_empty();
                    let group = if has_group {
                        info.group
                    } else {
                        match pending_group.take() {
                            Some(g) => g,
                            None => String::new(),
                        }
                    };
                    let ghost before = out@;
                    let url = string_of(&v, a, b);
                    out.push(
                        ParsedChannel {
                            name: info.name,
                            url,
                            group,
                            tvg_id: info.tvg_id,
                            tvg_logo: info.tvg_logo,
                        },
                    );
                    proof {
                        assert(channels_view(out@) =~= channels_view(before).push(out@.last()@));
                    }
                },
                None => {},
            }
            pending_group = None;
        }
        assert(state_view(out@, pending, pending_group) == m3u_line_step(st, rem.take(j - pos)));
        if j >= n {
            break;
        }
        pos = j + 1;
    }
    out
}

} // verus!
