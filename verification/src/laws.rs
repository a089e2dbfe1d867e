//! Properties of the library as a whole, stated over the specifications
//! that the functions' contracts use.

use vstd::prelude::*;

use crate::playlist::{
    attr_value, attrs_from, extinf_attr_part, name_comma, name_comma_at, quotes, eq_quote_at, key_start, quote_at, ws_at, AttrView, extgrp_tag, extinf_spec, extinf_tag, line_end, m3u_channels, m3u_from, m3u_line_step,
    m3u_start, newline_at, ChannelView, M3uState,
};
use crate::scan::{lemma_first_in_exact, lemma_first_in_found, lemma_first_in_none, lemma_last_in_found, lemma_last_in_none};
use crate::store::{
    escape_quotes, fts_term, group_mentions, group_total, is_mentioned, mentions, page_limit, page_offset, part_end,
    group_filter, ranks_before, recents_limit_spec, seq_lt, fts_query_spec, search_binds_spec, SqlValue, search_sql_spec, select_cols, semi_at, groups_sql_spec,
    RECENTS_CAP,
};
use crate::text::{has_prefix, is_ws, lemma_trim_idempotent, lemma_trim_shape, trim, trim_end, trim_start};
use crate::xtream::{
    api_url, categories_url, category_pairs, enc_byte, enc_spec, hex_digit, live_channels,
    live_start, live_step, no_live_channels_msg, normalize_base_spec, scalar_text, sign_in_failed_msg,
    signed_in, snippet, stream_url, streams_url, trim_end_slashes, unreserved, LiveFetchView, LiveStepView,
    XtreamItem, XtreamReply, XtreamStage,
};

verus! {

// ---- Playlists -------------------------------------------------------------

/// The attributes of an `#EXTINF` line read as a map, each pair inserted in
/// order of appearance, so that a later pair replaces an earlier one of the
/// same key.
pub open spec fn attrs_map(attrs: Seq<AttrView>) -> Map<Seq<char>, Seq<char>>
    decreases attrs.len(),
{
    if attrs.len() == 0 {
        Map::empty()
    } else {
        attrs_map(attrs.drop_last()).insert(attrs.last().0, attrs.last().1)
    }
}

/// Looking up an attribute is looking it up in the map of the attributes:
/// its value there when the key occurs, else empty.
pub proof fn law_attrs_read_as_map(attrs: Seq<AttrView>, key: Seq<char>)
    ensures
        attr_value(attrs, key) == if attrs_map(attrs).dom().contains(key) {
            attrs_map(attrs)[key]
        } else {
            Seq::<char>::empty()
        },
        attrs_map(attrs).dom().finite(),
    decreases attrs.len(),
{
    if attrs.len() > 0 {
        law_attrs_read_as_map(attrs.drop_last(), key);
    }
}

/// A line that the parser passes over: blank, or a `#` directive other than
/// `#EXTINF:` and `#EXTGRP:`.
pub open spec fn ignored_line(d: Seq<char>) -> bool {
    let l = trim(d);
    l.len() == 0 || (l[0] == '#' && !has_prefix(l, extinf_tag()) && !has_prefix(l, extgrp_tag()))
}

proof fn lemma_line_end_of_concat(a: Seq<char>, r: Seq<char>)
    requires
        exists|k: int| 0 <= k < a.len() && a[k] == '\n',
    ensures
        line_end(a + r) == line_end(a),
        0 <= line_end(a) < a.len(),
{
    lemma_first_in_exact(0, a.len() as int, newline_at(a));
    let k = choose|k: int| 0 <= k < a.len() && a[k] == '\n';
    assert(newline_at(a)(k));
    let j = line_end(a);
    assert(0 <= j < a.len());
    let x = a + r;
    assert forall|t: int| 0 <= t < j implies !#[trigger] newline_at(x)(t) by {
        assert(x[t] == a[t]);
        assert(!newline_at(a)(t));
    }
    assert(x[j] == a[j]);
    lemma_first_in_found(0, x.len() as int, newline_at(x), j);
}

/// Reading a block of whole lines, then the rest, is reading everything.
pub proof fn lemma_m3u_from_concat(a: Seq<char>, r: Seq<char>, st: M3uState)
    requires
        a.len() > 0,
        a.last() == '\n',
    ensures
        m3u_from(a + r, st) == m3u_from(r, m3u_from(a, st)),
    decreases a.len(),
{
    assert(a[a.len() - 1] == '\n');
    lemma_line_end_of_concat(a, r);
    let j = line_end(a);
    let x = a + r;
    assert(x.take(j) =~= a.take(j));
    let st2 = m3u_line_step(st, a.take(j));
    assert(x.skip(j + 1) =~= a.skip(j + 1) + r);
    if j + 1 == a.len() {
        let e = a.skip(j + 1);
        assert(e =~= Seq::<char>::empty());
        assert(a.skip(j + 1) + r =~= r);
        assert(trim_start(e) == e);
        assert(trim_end(e) == e);
        assert(line_end(e) == 0);
        assert(e.take(0) =~= e);
        assert(m3u_from(e, st2) == m3u_line_step(st2, e));
    } else {
        let rest = a.skip(j + 1);
        assert(rest.last() == a.last());
        lemma_m3u_from_concat(rest, r, st2);
    }
}

/// An attribute value is everything between `="` and the next double
/// quote, spaces included: one `key="value"` pair whose key has no
/// whitespace or quote reads as exactly that pair.
pub proof fn law_attr_value_runs_to_quote(key: Seq<char>, v: Seq<char>)
    requires
        key.len() > 0,
        forall|i: int| 0 <= i < key.len() ==> !is_ws(#[trigger] key[i]) && key[i] != '"',
        forall|i: int| 0 <= i < v.len() ==> #[trigger] v[i] != '"',
    ensures
        attrs_from(key + seq!['=', '"'] + v + seq!['"'], 0) == seq![(key, v)],
{
    let s = key + seq!['=', '"'] + v + seq!['"'];
    let k = key.len() as int;
    let n = s.len() as int;
    assert(n == k + 3 + v.len());
    assert forall|t: int| 0 <= t < k implies #[trigger] s[t] == key[t] by {}
    assert(s[k] == '=');
    assert(s[k + 1] == '"');
    assert forall|t: int| k + 2 <= t < n - 1 implies #[trigger] s[t] == v[t - k - 2] by {}
    assert(s[n - 1] == '"');
    assert forall|t: int| 0 <= t < k implies !#[trigger] eq_quote_at(s)(t) by {
        if t + 1 < k {
            assert(s[t + 1] == key[t + 1]);
        } else {
            assert(s[t + 1] == '=');
        }
    }
    assert(eq_quote_at(s)(k));
    lemma_first_in_found(0, n - 1, eq_quote_at(s), k);
    assert forall|t: int| k + 2 <= t < n - 1 implies !#[trigger] quote_at(s)(t) by {
        assert(s[t] == v[t - k - 2]);
    }
    assert(quote_at(s)(n - 1));
    lemma_first_in_found(k + 2, n, quote_at(s), n - 1);
    assert forall|t: int| 0 <= t < k implies !#[trigger] ws_at(s)(t) by {
        assert(s[t] == key[t]);
    }
    lemma_last_in_none(0, k, ws_at(s));
    assert(key_start(s, k) == 0);
    assert(attrs_from(s, n) == Seq::<AttrView>::empty());
    assert(s.subrange(0, k) =~= key);
    assert(s.subrange(k + 2, n - 1) =~= v);
    assert(seq![(key, v)] + Seq::<AttrView>::empty() =~= seq![(key, v)]);
}

/// A key runs back to just after the whitespace before it: after any text
/// without quotes and one whitespace character, `key="value"` reads as that
/// pair.
pub proof fn law_attr_key_after_whitespace(p: Seq<char>, w: char, key: Seq<char>, v: Seq<char>)
    requires
        forall|i: int| 0 <= i < p.len() ==> #[trigger] p[i] != '"',
        is_ws(w),
        key.len() > 0,
        forall|i: int| 0 <= i < key.len() ==> !is_ws(#[trigger] key[i]) && key[i] != '"',
        forall|i: int| 0 <= i < v.len() ==> #[trigger] v[i] != '"',
    ensures
        attrs_from(p + seq![w] + key + seq!['=', '"'] + v + seq!['"'], 0) == seq![(key, v)],
{
    let s = p + seq![w] + key + seq!['=', '"'] + v + seq!['"'];
    let a: int = p.len() + 1int;
    let k: int = a + key.len();
    let n = s.len() as int;
    assert(n == k + 3 + v.len());
    assert(w != '"');
    assert forall|t: int| 0 <= t < p.len() implies #[trigger] s[t] == p[t] by {}
    assert(s[a - 1] == w);
    assert forall|t: int| a <= t < k implies #[trigger] s[t] == key[t - a] by {}
    assert(s[k] == '=');
    assert(s[k + 1] == '"');
    assert forall|t: int| k + 2 <= t < n - 1 implies #[trigger] s[t] == v[t - k - 2] by {}
    assert(s[n - 1] == '"');
    assert forall|t: int| 0 <= t < k implies !#[trigger] eq_quote_at(s)(t) by {
        if t + 1 < a - 1 {
            assert(s[t + 1] == p[t + 1]);
        } else if t + 1 == a - 1 {
            assert(s[t + 1] == w);
        } else if t + 1 < k {
            assert(s[t + 1] == key[t + 1 - a]);
        } else {
            assert(s[t + 1] == '=');
        }
    }
    assert(eq_quote_at(s)(k));
    lemma_first_in_found(0, n - 1, eq_quote_at(s), k);
    assert forall|t: int| k + 2 <= t < n - 1 implies !#[trigger] quote_at(s)(t) by {
        assert(s[t] == v[t - k - 2]);
    }
    assert(quote_at(s)(n - 1));
    lemma_first_in_found(k + 2, n, quote_at(s), n - 1);
    assert forall|t: int| a - 1 < t < k implies !#[trigger] ws_at(s)(t) by {
        assert(s[t] == key[t - a]);
    }
    assert(ws_at(s)(a - 1));
    lemma_last_in_found(0, k, ws_at(s), a - 1);
    assert(key_start(s, k) == a);
    assert(attrs_from(s, n) == Seq::<AttrView>::empty());
    assert(s.subrange(a, k) =~= key);
    assert(s.subrange(k + 2, n - 1) =~= v);
    assert(seq![(key, v)] + Seq::<AttrView>::empty() =~= seq![(key, v)]);
}

/// An `#EXTINF:` line leaves the pending `#EXTGRP:` group, and the channels
/// read so far, as they were.
pub proof fn law_extinf_keeps_pending_group(st: M3uState, l: Seq<char>)
    requires
        has_prefix(trim(l), extinf_tag()),
    ensures
        m3u_line_step(st, l).pending_group == st.pending_group,
        m3u_line_step(st, l).out == st.out,
{
    reveal_strlit("#EXTINF:");
}

/// A single line without a line feed, with or without one after it, is
/// read as that one line.
proof fn lemma_single_line(d: Seq<char>, st: M3uState)
    requires
        forall|i: int| 0 <= i < d.len() ==> #[trigger] d[i] != '\n',
    ensures
        m3u_from(d, st) == m3u_line_step(st, d),
        m3u_from(d + seq!['\n'], st) == m3u_line_step(st, d),
{
    assert forall|t: int| 0 <= t < d.len() implies !#[trigger] newline_at(d)(t) by {}
    lemma_first_in_none(0, d.len() as int, newline_at(d));
    assert(line_end(d) == d.len());
    assert(d.take(d.len() as int) =~= d);
    lemma_m3u_from_newline(d, st);
}

/// An `#EXTINF:` line and then a URL line give one channel: the name,
/// group and ids of the `#EXTINF`, played from the URL line; a URL line with
/// no `#EXTINF` before it gives none.
pub proof fn law_url_takes_extinf(le: Seq<char>, lu: Seq<char>)
    requires
        forall|i: int| 0 <= i < le.len() ==> #[trigger] le[i] != '\n',
        forall|i: int| 0 <= i < lu.len() ==> #[trigger] lu[i] != '\n',
        has_prefix(trim(le), extinf_tag()),
        trim(lu).len() > 0,
        trim(lu)[0] != '#',
    ensures
        ({
            let info = extinf_spec(trim(le).skip(8));
            m3u_channels(le + seq!['\n'] + lu) == seq![
                ChannelView {
                    name: info.name,
                    url: trim(lu),
                    group: info.group,
                    tvg_id: info.tvg_id,
                    tvg_logo: info.tvg_logo,
                },
            ]
        }),
        m3u_channels(lu) == Seq::<ChannelView>::empty(),
{
    reveal_strlit("#EXTINF:");
    reveal_strlit("#EXTGRP:");
    let x = le + seq!['\n'];
    assert(x.last() == '\n');
    lemma_m3u_from_concat(x, lu, m3u_start());
    lemma_single_line(le, m3u_start());
    let s1 = m3u_from(x, m3u_start());
    lemma_single_line(lu, s1);
    lemma_single_line(lu, m3u_start());
    let info = extinf_spec(trim(le).skip(8));
    assert(s1 == M3uState { out: seq![], pending: Some(info), pending_group: None });
    let u = trim(lu);
    if has_prefix(u, extinf_tag()) {
        assert(u.take(8)[0] == u[0]);
    }
    if has_prefix(u, extgrp_tag()) {
        assert(u.take(8)[0] == u[0]);
    }
    if info.group.len() == 0 {
        assert(info.group =~= Seq::<char>::empty());
    }
    let c = ChannelView { name: info.name, url: u, group: info.group, tvg_id: info.tvg_id, tvg_logo: info.tvg_logo };
    assert(m3u_line_step(s1, lu).out == Seq::<ChannelView>::empty().push(c));
    assert(Seq::<ChannelView>::empty().push(c) =~= seq![c]);
}

/// `#EXTGRP:g`, then an `#EXTINF:` line, then a URL line give one channel
/// whose group is the `#EXTINF`'s group-title, or `g` (trimmed) when that is
/// empty.
pub proof fn law_extgrp_reaches_url(lg: Seq<char>, le: Seq<char>, lu: Seq<char>)
    requires
        forall|i: int| 0 <= i < lg.len() ==> #[trigger] lg[i] != '\n',
        forall|i: int| 0 <= i < le.len() ==> #[trigger] le[i] != '\n',
        forall|i: int| 0 <= i < lu.len() ==> #[trigger] lu[i] != '\n',
        has_prefix(trim(lg), extgrp_tag()),
        has_prefix(trim(le), extinf_tag()),
        trim(lu).len() > 0,
        trim(lu)[0] != '#',
    ensures
        ({
            let info = extinf_spec(trim(le).skip(8));
            m3u_channels(lg + seq!['\n'] + le + seq!['\n'] + lu) == seq![
                ChannelView {
                    name: info.name,
                    url: trim(lu),
                    group: if info.group.len() > 0 {
                        info.group
                    } else {
                        trim(trim(lg).skip(8))
                    },
                    tvg_id: info.tvg_id,
                    tvg_logo: info.tvg_logo,
                },
            ]
        }),
{
    reveal_strlit("#EXTINF:");
    reveal_strlit("#EXTGRP:");
    let x1 = lg + seq!['\n'];
    let x2 = le + seq!['\n'];
    let doc = lg + seq!['\n'] + le + seq!['\n'] + lu;
    assert(doc =~= x1 + (x2 + lu));
    assert(x1.last() == '\n');
    assert(x2.last() == '\n');
    lemma_m3u_from_concat(x1, x2 + lu, m3u_start());
    let s1 = m3u_from(x1, m3u_start());
    lemma_m3u_from_concat(x2, lu, s1);
    let s2 = m3u_from(x2, s1);
    lemma_single_line(lg, m3u_start());
    lemma_single_line(le, s1);
    lemma_single_line(lu, s2);
    let g = trim(lg);
    if has_prefix(g, extinf_tag()) {
        assert(g.take(8)[4] == 'I');
        assert(g.take(8)[4] == 'G');
    }
    assert(s1 == M3uState { out: seq![], pending: None, pending_group: Some(trim(g.skip(8))) });
    let info = extinf_spec(trim(le).skip(8));
    assert(s2 == M3uState { out: seq![], pending: Some(info), pending_group: s1.pending_group });
    let u = trim(lu);
    if has_prefix(u, extinf_tag()) {
        assert(u.take(8)[0] == u[0]);
    }
    if has_prefix(u, extgrp_tag()) {
        assert(u.take(8)[0] == u[0]);
    }
    let c = ChannelView {
        name: info.name,
        url: u,
        group: if info.group.len() > 0 {
            info.group
        } else {
            trim(g.skip(8))
        },
        tvg_id: info.tvg_id,
        tvg_logo: info.tvg_logo,
    };
    assert(m3u_line_step(s2, lu).out == Seq::<ChannelView>::empty().push(c));
    assert(Seq::<ChannelView>::empty().push(c) =~= seq![c]);
}

proof fn lemma_no_quotes(p: Seq<char>)
    requires
        forall|i: int| 0 <= i < p.len() ==> #[trigger] p[i] != '"',
    ensures
        quotes(p) == 0,
    decreases p.len(),
{
    if p.len() > 0 {
        let d = p.drop_last();
        assert forall|i: int| 0 <= i < d.len() implies #[trigger] d[i] != '"' by {
            assert(d[i] == p[i]);
        }
        lemma_no_quotes(d);
        assert(p.last() == p[p.len() - 1]);
    }
}

/// The display name is the text after the first comma, trimmed, and the
/// attributes are read from the text before it (here with no quotes before
/// the comma).
pub proof fn law_extinf_name_after_first_comma(p: Seq<char>, nm: Seq<char>)
    requires
        forall|i: int| 0 <= i < p.len() ==> #[trigger] p[i] != ',' && p[i] != '"',
    ensures
        extinf_spec(p + seq![','] + nm).name == trim(nm),
        extinf_attr_part(p + seq![','] + nm) == p,
{
    let s = p + seq![','] + nm;
    let k = p.len() as int;
    assert forall|t: int| 0 <= t < k implies !#[trigger] name_comma_at(s)(t) by {
        assert(s[t] == p[t]);
    }
    assert(s.take(k) =~= p);
    lemma_no_quotes(p);
    assert(name_comma_at(s)(k));
    lemma_first_in_found(0, s.len() as int, name_comma_at(s), k);
    assert(name_comma(s) == Some(k));
    assert(s.skip(k + 1) =~= nm);
}

proof fn lemma_quotes_concat(a: Seq<char>, b: Seq<char>)
    ensures
        quotes(a + b) == quotes(a) + quotes(b),
    decreases b.len(),
{
    if b.len() == 0 {
        assert(a + b =~= a);
    } else {
        assert((a + b).drop_last() =~= a + b.drop_last());
        assert((a + b).last() == b.last());
        lemma_quotes_concat(a, b.drop_last());
    }
}

proof fn lemma_one_quote()
    ensures
        quotes(seq!['"']) == 1,
{
    let q = seq!['"'];
    assert(q.drop_last() =~= Seq::<char>::empty());
    assert(quotes(Seq::<char>::empty()) == 0);
    assert(q.last() == '"');
}

/// A comma inside a quoted attribute value does not end the attributes:
/// the display name starts after the first comma outside quotes.
pub proof fn law_extinf_comma_in_quotes(p: Seq<char>, x: Seq<char>, nm: Seq<char>)
    requires
        forall|i: int| 0 <= i < p.len() ==> #[trigger] p[i] != ',' && p[i] != '"',
        forall|i: int| 0 <= i < x.len() ==> #[trigger] x[i] != '"',
    ensures
        extinf_spec(p + seq!['"'] + x + seq!['"'] + seq![','] + nm).name == trim(nm),
        extinf_attr_part(p + seq!['"'] + x + seq!['"'] + seq![','] + nm) == p + seq!['"'] + x + seq!['"'],
{
    let s = p + seq!['"'] + x + seq!['"'] + seq![','] + nm;
    let a = p.len() as int;
    let k = a + x.len() + 2;
    lemma_no_quotes(p);
    lemma_no_quotes(x);
    assert forall|t: int| 0 <= t < k implies !#[trigger] name_comma_at(s)(t) by {
        if t < a {
            assert(s[t] == p[t]);
        } else if t == a {
            assert(s[t] == '"');
        } else if t < k - 1 {
            let xs = x.take(t - a - 1);
            assert forall|i: int| 0 <= i < xs.len() implies #[trigger] xs[i] != '"' by {
                assert(xs[i] == x[i]);
            }
            lemma_no_quotes(xs);
            assert(s.take(t) =~= (p + seq!['"']) + xs);
            lemma_quotes_concat(p + seq!['"'], xs);
            lemma_quotes_concat(p, seq!['"']);
            lemma_one_quote();
        } else {
            assert(s[t] == '"');
        }
    }
    let pre = p + seq!['"'] + x + seq!['"'];
    assert(s.take(k) =~= pre);
    lemma_quotes_concat(p, seq!['"']);
    lemma_quotes_concat(p + seq!['"'], x);
    lemma_quotes_concat(p + seq!['"'] + x, seq!['"']);
    lemma_one_quote();
    assert(quotes(pre) == 2);
    assert(s[k] == ',');
    assert(name_comma_at(s)(k));
    lemma_first_in_found(0, s.len() as int, name_comma_at(s), k);
    assert(s.skip(k + 1) =~= nm);
}

/// Without a comma there is no display name, and the whole text holds the
/// attributes.
pub proof fn law_extinf_without_comma(rest: Seq<char>)
    requires
        forall|i: int| 0 <= i < rest.len() ==> #[trigger] rest[i] != ',',
    ensures
        extinf_spec(rest).name == Seq::<char>::empty(),
        extinf_attr_part(rest) == rest,
{
    assert forall|t: int| 0 <= t < rest.len() implies !#[trigger] name_comma_at(rest)(t) by {}
    lemma_first_in_none(0, rest.len() as int, name_comma_at(rest));
}

/// A line feed at the end adds only an empty line, which is passed over.
proof fn lemma_m3u_from_newline(a: Seq<char>, st: M3uState)
    ensures
        m3u_from(a + seq!['\n'], st) == m3u_from(a, st),
    decreases a.len(),
{
    let x = a + seq!['\n'];
    let j = line_end(a);
    lemma_first_in_exact(0, a.len() as int, newline_at(a));
    assert forall|t: int| 0 <= t < j implies !#[trigger] newline_at(x)(t) by {
        assert(x[t] == a[t]);
        assert(!newline_at(a)(t));
    }
    if j < a.len() {
        assert(x[j] == a[j]);
        lemma_first_in_found(0, x.len() as int, newline_at(x), j);
        assert(line_end(x) == j);
        assert(x.take(j) =~= a.take(j));
        assert(x.skip(j + 1) =~= a.skip(j + 1) + seq!['\n']);
        let st2 = m3u_line_step(st, a.take(j));
        lemma_m3u_from_newline(a.skip(j + 1), st2);
        assert(m3u_from(x, st) == m3u_from(x.skip(j + 1), st2));
        assert(m3u_from(a, st) == m3u_from(a.skip(j + 1), st2));
    } else {
        assert(x[j] == '\n');
        lemma_first_in_found(0, x.len() as int, newline_at(x), j);
        assert(x.take(j) =~= a);
        assert(a.take(j) =~= a);
        let e = x.skip(j + 1);
        assert(e =~= Seq::<char>::empty());
        lemma_trim_empty();
        assert(line_end(e) == 0);
        assert(e.take(0) =~= e);
        let st2 = m3u_line_step(st, a);
        assert(line_end(x) == j);
        assert(m3u_from(a, st) == st2);
        assert(m3u_from(x, st) == m3u_from(e, st2));
        assert(m3u_line_step(st2, e) == st2);
        assert(m3u_from(e, st2) == st2);
    }
}

/// The last line of `s` that is not blank, trimmed.
pub open spec fn last_content_line(s: Seq<char>) -> Option<Seq<char>>
    decreases s.len(),
{
    let j = line_end(s);
    let here = trim(s.take(j));
    let later = if 0 <= j < s.len() {
        last_content_line(s.skip(j + 1))
    } else {
        None
    };
    match later {
        Some(l) => Some(l),
        None => if here.len() == 0 {
            None
        } else {
            Some(here)
        },
    }
}

/// After a URL line nothing is pending; after only blank lines the pending
/// parts are those that were there before.
proof fn lemma_m3u_from_settles(a: Seq<char>, st: M3uState)
    ensures
        last_content_line(a) matches Some(l) && l[0] != '#' ==> m3u_from(a, st).pending is None
            && m3u_from(a, st).pending_group is None,
        last_content_line(a) is None ==> m3u_from(a, st).pending == st.pending && m3u_from(
            a,
            st,
        ).pending_group == st.pending_group,
    decreases a.len(),
{
    let j = line_end(a);
    crate::scan::lemma_first_in_range(0, a.len() as int, newline_at(a));
    let st2 = m3u_line_step(st, a.take(j));
    let here = trim(a.take(j));
    if here.len() > 0 && here[0] != '#' {
        reveal_strlit("#EXTINF:");
        reveal_strlit("#EXTGRP:");
        if has_prefix(here, extinf_tag()) {
            assert(here[0] == here.take(8)[0]);
        }
        if has_prefix(here, extgrp_tag()) {
            assert(here[0] == here.take(8)[0]);
        }
        assert(st2.pending is None && st2.pending_group is None);
    }
    if 0 <= j < a.len() {
        lemma_m3u_from_settles(a.skip(j + 1), st2);
    }
}

/// `st` with its channel list replaced by `out`.
spec fn with_out(st: M3uState, out: Seq<ChannelView>) -> M3uState {
    M3uState { out: out, pending: st.pending, pending_group: st.pending_group }
}

/// The channels read so far are only ever added to.
proof fn lemma_m3u_from_appends(s: Seq<char>, st: M3uState)
    ensures
        m3u_from(s, st) == with_out(
            m3u_from(s, with_out(st, seq![])),
            st.out + m3u_from(s, with_out(st, seq![])).out,
        ),
    decreases s.len(),
{
    let j = line_end(s);
    crate::scan::lemma_first_in_range(0, s.len() as int, newline_at(s));
    let st0 = with_out(st, seq![]);
    let a = m3u_line_step(st, s.take(j));
    let b = m3u_line_step(st0, s.take(j));
    assert(a.out =~= st.out + b.out);
    assert(a == with_out(b, st.out + b.out));
    if 0 <= j < s.len() {
        let rest = s.skip(j + 1);
        lemma_m3u_from_appends(rest, a);
        lemma_m3u_from_appends(rest, b);
        assert(with_out(a, seq![]) == with_out(b, seq![]));
        let r = m3u_from(rest, with_out(b, seq![]));
        assert(st.out + b.out + r.out =~= st.out + (b.out + r.out));
    } else {
        assert(b.out =~= seq![] + b.out);
    }
}

/// Two playlists joined by a line feed read as the first one's channels
/// followed by the second one's, as long as the first does not end on a
/// `#` line that could still refer to what follows.
pub proof fn law_m3u_concat(a: Seq<char>, b: Seq<char>)
    requires
        !(last_content_line(a) matches Some(l) && l[0] == '#'),
    ensures
        m3u_channels(a + seq!['\n'] + b) == m3u_channels(a) + m3u_channels(b),
{
    let x = a + seq!['\n'];
    assert(x.last() == '\n');
    lemma_m3u_from_concat(x, b, m3u_start());
    lemma_m3u_from_newline(a, m3u_start());
    let sa = m3u_from(a, m3u_start());
    lemma_m3u_from_settles(a, m3u_start());
    assert(with_out(sa, seq![]) == m3u_start());
    lemma_m3u_from_appends(b, sa);
}

proof fn lemma_trim_empty()
    ensures
        trim(Seq::<char>::empty()) == Seq::<char>::empty(),
{
    let e = Seq::<char>::empty();
    assert(trim_start(e) == e);
    assert(trim_end(e) == e);
}

/// Blank lines and unknown `#` directives are tolerated: adding one between
/// two lines of a playlist does not change its channels.
pub proof fn law_ignored_lines_change_nothing(a: Seq<char>, d: Seq<char>, r: Seq<char>)
    requires
        a.len() == 0 || a.last() == '\n',
        forall|i: int| 0 <= i < d.len() ==> d[i] != '\n',
        ignored_line(d),
    ensures
        m3u_channels(a + d + seq!['\n'] + r) == m3u_channels(a + r),
{
    let x = d + seq!['\n'];
    // the inserted line is read and passed over
    assert forall|st: M3uState| m3u_from(x + r, st) == m3u_from(r, st) by {
        assert(x.last() == '\n');
        lemma_m3u_from_concat(x, r, st);
        assert forall|t: int| 0 <= t < d.len() implies !#[trigger] newline_at(x)(t) by {
            assert(x[t] == d[t]);
        }
        lemma_first_in_found(0, x.len() as int, newline_at(x), d.len() as int);
        assert(line_end(x) == d.len());
        assert(x.take(d.len() as int) =~= d);
        assert(m3u_line_step(st, d) == st);
        let e = x.skip(d.len() + 1int);
        assert(e =~= Seq::<char>::empty());
        lemma_trim_empty();
        assert(line_end(e) == 0);
        assert(e.take(0) =~= e);
        assert(m3u_from(x, st) == m3u_from(e, st));
        assert(m3u_from(e, st) == m3u_line_step(st, e));
    }
    if a.len() == 0 {
        assert(a + d + seq!['\n'] + r =~= x + r);
        assert(a + r =~= r);
    } else {
        assert(a + d + seq!['\n'] + r =~= a + (x + r));
        lemma_m3u_from_concat(a, x + r, m3u_start());
        lemma_m3u_from_concat(a, r, m3u_start());
    }
}

/// The number of `#EXTINF:` lines of `s`.
pub open spec fn extinf_lines(s: Seq<char>) -> nat
    decreases s.len(),
{
    let j = line_end(s);
    let here: nat = if has_prefix(trim(s.take(j)), extinf_tag()) {
        1
    } else {
        0
    };
    if 0 <= j < s.len() {
        here + extinf_lines(s.skip(j + 1))
    } else {
        here
    }
}

spec fn owed(st: M3uState) -> nat {
    st.out.len() + if st.pending is Some {
        1nat
    } else {
        0nat
    }
}

proof fn lemma_m3u_from_count(s: Seq<char>, st: M3uState)
    ensures
        owed(m3u_from(s, st)) <= owed(st) + extinf_lines(s),
    decreases s.len(),
{
    let j = line_end(s);
    crate::scan::lemma_first_in_range(0, s.len() as int, newline_at(s));
    let st2 = m3u_line_step(st, s.take(j));
    assert(owed(st2) <= owed(st) + if has_prefix(trim(s.take(j)), extinf_tag()) {
        1nat
    } else {
        0nat
    });
    if 0 <= j < s.len() {
        lemma_m3u_from_count(s.skip(j + 1), st2);
    }
}

/// Each channel is the URL line of its own `#EXTINF:` line: a playlist has
/// no more channels than `#EXTINF:` lines.
pub proof fn law_one_channel_per_extinf(s: Seq<char>)
    ensures
        m3u_channels(s).len() <= extinf_lines(s),
{
    lemma_m3u_from_count(s, m3u_start());
}

/// A channel whose URL is a whole non-comment line and whose name and URL
/// carry no surrounding whitespace.
pub open spec fn plain_channel(c: ChannelView) -> bool {
    &&& c.url.len() > 0
    &&& c.url[0] != '#'
    &&& trim(c.url) == c.url
    &&& trim(c.name) == c.name
}

spec fn plain_state(st: M3uState) -> bool {
    &&& forall|i: int| 0 <= i < st.out.len() ==> plain_channel(#[trigger] st.out[i])
    &&& st.pending matches Some(info) ==> trim(info.name) == info.name
}

proof fn lemma_step_plain(st: M3uState, raw: Seq<char>)
    requires
        plain_state(st),
    ensures
        plain_state(m3u_line_step(st, raw)),
{
    let line = trim(raw);
    lemma_trim_idempotent(raw);
    if line.len() != 0 && has_prefix(line, extinf_tag()) {
        let rest = line.skip(extinf_tag().len() as int);
        let info = extinf_spec(rest);
        match crate::playlist::name_comma(rest) {
            Some(i) => lemma_trim_idempotent(rest.skip(i + 1)),
            None => lemma_trim_empty(),
        }
        assert(trim(info.name) == info.name);
    }
    let next = m3u_line_step(st, raw);
    assert forall|i: int| 0 <= i < next.out.len() implies plain_channel(#[trigger] next.out[i]) by {
        if i < st.out.len() {
            assert(next.out[i] == st.out[i]);
        }
    }
}

proof fn lemma_m3u_from_plain(s: Seq<char>, st: M3uState)
    requires
        plain_state(st),
    ensures
        plain_state(m3u_from(s, st)),
    decreases s.len(),
{
    let j = line_end(s);
    lemma_step_plain(st, s.take(j));
    crate::scan::lemma_first_in_range(0, s.len() as int, newline_at(s));
    if 0 <= j < s.len() {
        lemma_m3u_from_plain(s.skip(j + 1), m3u_line_step(st, s.take(j)));
    }
}

/// A non-comment line is the URL for the most recent `#EXTINF`: every
/// channel's URL is a whole, non-blank line that does not start with `#`,
/// and names and URLs come trimmed.
pub proof fn law_channels_are_plain(s: Seq<char>)
    ensures
        forall|i: int| 0 <= i < m3u_channels(s).len() ==> plain_channel(#[trigger] m3u_channels(s)[i]),
{
    lemma_m3u_from_plain(s, m3u_start());
}

// ---- Credentials and hosts -------------------------------------------------

/// Characters that may stand in a URL query unescaped, and `%`.
pub open spec fn url_safe(c: char) -> bool {
    ||| ('A' <= c && c <= 'Z')
    ||| ('a' <= c && c <= 'z')
    ||| ('0' <= c && c <= '9')
    ||| c == '-'
    ||| c == '_'
    ||| c == '.'
    ||| c == '~'
    ||| c == '%'
}

proof fn lemma_hex_digit(d: int)
    requires
        0 <= d < 16,
    ensures
        url_safe(hex_digit(d)),
        hex_digit(d) != '%',
        forall|e: int| 0 <= e < 16 && hex_digit(e) == hex_digit(d) ==> e == d,
{
    let h = seq!['0', '1', '2', '3', '4', '5', '6', '7', '8', '9', 'A', 'B', 'C', 'D', 'E', 'F'];
    assert(h.len() == 16);
    assert(forall|e: int| 0 <= e < 10 ==> #[trigger] h[e] == ('0' as int + e) as char) by {
        assert(h[0] == '0' && h[1] == '1' && h[2] == '2' && h[3] == '3' && h[4] == '4');
        assert(h[5] == '5' && h[6] == '6' && h[7] == '7' && h[8] == '8' && h[9] == '9');
    }
    assert(forall|e: int| 10 <= e < 16 ==> #[trigger] h[e] == ('A' as int + e - 10) as char) by {
        assert(h[10] == 'A' && h[11] == 'B' && h[12] == 'C' && h[13] == 'D' && h[14] == 'E');
        assert(h[15] == 'F');
    }
    assert(hex_digit(d) == h[d]);
}

proof fn lemma_enc_byte(b: u8)
    ensures
        enc_byte(b).len() > 0,
        forall|i: int| 0 <= i < enc_byte(b).len() ==> url_safe(#[trigger] enc_byte(b)[i]),
        (enc_byte(b)[0] == '%') == !unreserved(b),
{
    if !unreserved(b) {
        lemma_hex_digit(b as int / 16);
        lemma_hex_digit(b as int % 16);
        let e = enc_byte(b);
        assert(e[1] == hex_digit(b as int / 16));
        assert(e[2] == hex_digit(b as int % 16));
    } else {
        assert((b as char) as int == b as int);
    }
}

/// Percent-encoded credentials are safe in a URL: every character is an
/// unreserved one or a `%` escape.
pub proof fn law_enc_url_safe(bs: Seq<u8>)
    ensures
        forall|i: int| 0 <= i < enc_spec(bs).len() ==> url_safe(#[trigger] enc_spec(bs)[i]),
    decreases bs.len(),
{
    if bs.len() > 0 {
        law_enc_url_safe(bs.drop_first());
        lemma_enc_byte(bs[0]);
        let e = enc_byte(bs[0]);
        let rest = enc_spec(bs.drop_first());
        assert forall|i: int| 0 <= i < enc_spec(bs).len() implies url_safe(#[trigger] enc_spec(bs)[i]) by {
            if i < e.len() {
                assert(enc_spec(bs)[i] == e[i]);
            } else {
                assert(enc_spec(bs)[i] == rest[i - e.len()]);
            }
        }
    }
}

/// Percent-encoding loses nothing: different credentials never encode alike.
pub proof fn law_enc_injective(a: Seq<u8>, b: Seq<u8>)
    requires
        enc_spec(a) == enc_spec(b),
    ensures
        a == b,
    decreases a.len(),
{
    if a.len() == 0 {
        if b.len() > 0 {
            lemma_enc_byte(b[0]);
        }
        assert(a =~= b);
    } else {
        if b.len() == 0 {
            lemma_enc_byte(a[0]);
            assert(enc_spec(a) == enc_byte(a[0]) + enc_spec(a.drop_first()));
            assert(enc_spec(a).len() > 0);
            assert(enc_spec(b).len() == 0);
        }
        let x = a[0];
        let y = b[0];
        lemma_enc_byte(x);
        lemma_enc_byte(y);
        let ex = enc_byte(x);
        let ey = enc_byte(y);
        let ea = enc_spec(a);
        assert(ea == ex + enc_spec(a.drop_first()));
        assert(enc_spec(b) == ey + enc_spec(b.drop_first()));
        assert(ea[0] == ex[0]);
        assert(ea[0] == ey[0]);
        if unreserved(x) {
            assert((x as char) as int == x as int);
            assert((y as char) as int == y as int);
            assert(x == y);
        } else {
            lemma_hex_digit(x as int / 16);
            lemma_hex_digit(y as int / 16);
            lemma_hex_digit(x as int % 16);
            lemma_hex_digit(y as int % 16);
            assert(ea[1] == ex[1] && ea[1] == ey[1]);
            assert(ea[2] == ex[2] && ea[2] == ey[2]);
            assert(x as int / 16 == y as int / 16);
            assert(x as int % 16 == y as int % 16);
            assert(x == y);
        }
        assert(ex == ey);
        assert(enc_spec(a.drop_first()) =~= ea.skip(ex.len() as int));
        assert(enc_spec(b.drop_first()) =~= ea.skip(ey.len() as int));
        law_enc_injective(a.drop_first(), b.drop_first());
        assert(a =~= seq![x] + a.drop_first());
        assert(b =~= seq![y] + b.drop_first());
    }
}

/// The value of a hexadecimal digit of either case, or -1.
pub open spec fn hex_value(c: char) -> int {
    if '0' <= c && c <= '9' {
        c as int - '0' as int
    } else if 'A' <= c && c <= 'F' {
        c as int - 'A' as int + 10
    } else if 'a' <= c && c <= 'f' {
        c as int - 'a' as int + 10
    } else {
        -1
    }
}

/// Percent-decoding: `%` and two hexadecimal digits stand for that byte,
/// any other character for its own code.
pub open spec fn pct_decode(s: Seq<char>) -> Seq<u8>
    decreases s.len(),
{
    if s.len() == 0 {
        seq![]
    } else if s.len() >= 3 && s[0] == '%' && hex_value(s[1]) >= 0 && hex_value(s[2]) >= 0 {
        seq![(hex_value(s[1]) * 16 + hex_value(s[2])) as u8] + pct_decode(s.skip(3))
    } else {
        seq![s[0] as u8] + pct_decode(s.drop_first())
    }
}

proof fn lemma_hex_value(d: int)
    requires
        0 <= d < 16,
    ensures
        hex_value(hex_digit(d)) == d,
{
    let h = seq!['0', '1', '2', '3', '4', '5', '6', '7', '8', '9', 'A', 'B', 'C', 'D', 'E', 'F'];
    assert(hex_digit(d) == h[d]);
    assert(h[0] == '0' && h[1] == '1' && h[2] == '2' && h[3] == '3' && h[4] == '4');
    assert(h[5] == '5' && h[6] == '6' && h[7] == '7' && h[8] == '8' && h[9] == '9');
    assert(h[10] == 'A' && h[11] == 'B' && h[12] == 'C' && h[13] == 'D' && h[14] == 'E');
    assert(h[15] == 'F');
}

/// Percent-decoding an encoding gives back the bytes that were encoded.
pub proof fn law_enc_decodes(bs: Seq<u8>)
    ensures
        pct_decode(enc_spec(bs)) == bs,
    decreases bs.len(),
{
    if bs.len() == 0 {
        assert(enc_spec(bs) =~= Seq::<char>::empty());
    } else {
        let b = bs[0];
        let rest = bs.drop_first();
        law_enc_decodes(rest);
        let e = enc_byte(b);
        let all = enc_spec(bs);
        assert(all == e + enc_spec(rest));
        if unreserved(b) {
            assert((b as char) as int == b as int);
            assert(all[0] == b as char);
            assert(all[0] != '%');
            assert(all.drop_first() =~= enc_spec(rest));
            assert((all[0] as u8) == b);
        } else {
            let hi = b as int / 16;
            let lo = b as int % 16;
            lemma_hex_value(hi);
            lemma_hex_value(lo);
            assert(all[0] == '%');
            assert(all[1] == hex_digit(hi));
            assert(all[2] == hex_digit(lo));
            assert(all.skip(3) =~= enc_spec(rest));
            assert(hi * 16 + lo == b as int);
            assert(((hi * 16 + lo) as u8) == b);
        }
        assert(bs =~= seq![b] + rest);
    }
}

proof fn lemma_trim_end_slashes(s: Seq<char>)
    ensures
        trim_end_slashes(s).len() <= s.len(),
        trim_end_slashes(s) == s.take(trim_end_slashes(s).len() as int),
        trim_end_slashes(s).len() > 0 ==> trim_end_slashes(s).last() != '/',
    decreases s.len(),
{
    if s.len() > 0 && s.last() == '/' {
        lemma_trim_end_slashes(s.drop_last());
        assert(s.drop_last().take(trim_end_slashes(s).len() as int) =~= s.take(
            trim_end_slashes(s).len() as int,
        ));
    } else {
        assert(s.take(s.len() as int) =~= s);
    }
}

/// The portal address always names `http://` or `https://`, and it does not
/// end with a slash unless the host was nothing but slashes and whitespace.
pub proof fn law_normalize_base_shape(host: Seq<char>)
    ensures
        has_prefix(normalize_base_spec(host), "http://"@) || has_prefix(
            normalize_base_spec(host),
            "https://"@,
        ),
        trim_end_slashes(trim(host)).len() > 0 ==> normalize_base_spec(host).last() != '/',
{
    let h = trim_end_slashes(trim(host));
    lemma_trim_end_slashes(trim(host));
    let r = normalize_base_spec(host);
    if !(has_prefix(h, "http://"@) || has_prefix(h, "https://"@)) {
        assert(r.take("http://"@.len() as int) =~= "http://"@);
        if h.len() > 0 {
            assert(r.last() == h.last());
        }
    }
}

/// `s` is its own trim when neither end is whitespace.
proof fn lemma_trim_fixed(s: Seq<char>)
    requires
        s.len() > 0,
        !is_ws(s[0]),
        !is_ws(s.last()),
    ensures
        trim(s) == s,
{
    assert(trim_start(s) == s);
    assert(trim_end(s) == s);
}

/// Normalizing a portal address twice gives what normalizing once gives,
/// whenever the trimmed host without its trailing slashes is not empty and
/// carries no whitespace at its ends.
pub proof fn law_normalize_base_idempotent(host: Seq<char>)
    requires
        trim_end_slashes(trim(host)).len() > 0,
        trim(trim_end_slashes(trim(host))) == trim_end_slashes(trim(host)),
    ensures
        normalize_base_spec(normalize_base_spec(host)) == normalize_base_spec(host),
{
    let h = trim_end_slashes(trim(host));
    lemma_trim_end_slashes(trim(host));
    lemma_trim_shape(h);
    assert(!is_ws(h[0]) && !is_ws(h.last()));
    let r = normalize_base_spec(host);
    if has_prefix(h, "http://"@) || has_prefix(h, "https://"@) {
        assert(r == h);
        lemma_trim_fixed(h);
        assert(trim_end_slashes(h) == h);
    } else {
        reveal_strlit("http://");
        let pre = "http://"@;
        assert(r == pre + h);
        assert(r[0] == 'h');
        assert(r.last() == h.last());
        lemma_trim_fixed(r);
        assert(trim_end_slashes(r) == r);
        assert(r.take(pre.len() as int) =~= pre);
        assert(has_prefix(r, pre));
    }
}

// ---- The Xtream exchange ---------------------------------------------------

/// The start of a reply body quoted in an error is at most 180 characters
/// of the trimmed body, all of it when it is that short.
pub proof fn law_snippet_bounded(body: Seq<char>)
    ensures
        snippet(body).len() <= 180,
        trim(body).len() <= 180 ==> snippet(body) == trim(body),
        snippet(body) == trim(body).take(snippet(body).len() as int),
        trim(body).len() > 180 ==> snippet(body).len() == 180,
{
    let t = trim(body);
    if t.len() <= 180 {
        assert(t.take(t.len() as int) =~= t);
    }
}

/// The channels of two stream lists read one after the other are those of
/// the first list followed by those of the second.
pub proof fn law_live_channels_concat(
    b: Seq<char>,
    u: Seq<char>,
    p: Seq<char>,
    cats: Seq<AttrView>,
    x: Seq<XtreamItem>,
    y: Seq<XtreamItem>,
)
    ensures
        live_channels(b, u, p, cats, x + y) == live_channels(b, u, p, cats, x) + live_channels(b, u, p, cats, y),
    decreases y.len(),
{
    if y.len() == 0 {
        assert(x + y =~= x);
        assert(live_channels(b, u, p, cats, x) + Seq::<ChannelView>::empty() =~= live_channels(b, u, p, cats, x));
    } else {
        assert((x + y).drop_last() =~= x + y.drop_last());
        assert((x + y).last() == y.last());
        law_live_channels_concat(b, u, p, cats, x, y.drop_last());
        let l = live_channels(b, u, p, cats, x);
        let r = live_channels(b, u, p, cats, y.drop_last());
        if scalar_text(y.last().stream_id).len() > 0 {
            let c = live_channels(b, u, p, cats, y).last();
            assert((l + r).push(c) =~= l + r.push(c));
        }
    }
}

/// A sign-in whose three requests all get replies: it asks for the account,
/// then the categories, then the streams, and ends with the channels of the
/// stream list grouped by the category list, or with an error when the
/// stream list has no usable entry. A refused sign-in or a failed request
/// ends it at once.
pub proof fn law_live_exchange(host: Seq<char>, user: Seq<u8>, pass: Seq<u8>, r1: XtreamReply, r2: XtreamReply, r3: XtreamReply, e: String)
    ensures
        ({
            let b = normalize_base_spec(host);
            let u = enc_spec(user);
            let p = enc_spec(pass);
            let f0 = LiveFetchView { base: b, user: u, pass: p, stage: XtreamStage::SigningIn, categories: seq![] };
            let f1 = LiveFetchView { stage: XtreamStage::ReadingCategories, ..f0 };
            let f2 = LiveFetchView { stage: XtreamStage::ReadingStreams, categories: category_pairs(r2.items@), ..f0 };
            let chans = live_channels(b, u, p, category_pairs(r2.items@), r3.items@);
            &&& live_start(host, user, pass) == LiveStepView::Request(f0, api_url(b, u, p))
            &&& signed_in(r1) ==> live_step(f0, Ok(r1)) == LiveStepView::Request(f1, categories_url(b, u, p))
            &&& !signed_in(r1) ==> live_step(f0, Ok(r1)) == LiveStepView::Failed(sign_in_failed_msg())
            &&& live_step(f1, Ok(r2)) == LiveStepView::Request(f2, streams_url(b, u, p))
            &&& live_step(f2, Ok(r3)) == if chans.len() == 0 {
                LiveStepView::Failed(no_live_channels_msg())
            } else {
                LiveStepView::Channels(chans)
            }
            &&& live_step(f0, Err(e)) == LiveStepView::Failed(e@)
            &&& live_step(f1, Err(e)) == LiveStepView::Failed(e@)
            &&& live_step(f2, Err(e)) == LiveStepView::Failed(e@)
        }),
{
}

proof fn lemma_live_channel_urls(b: Seq<char>, u: Seq<char>, p: Seq<char>, cats: Seq<(Seq<char>, Seq<char>)>, items: Seq<XtreamItem>)
    ensures
        forall|i: int| 0 <= i < live_channels(b, u, p, cats, items).len() ==> exists|sid: Seq<char>|
            sid.len() > 0 && (#[trigger] live_channels(b, u, p, cats, items)[i]).url == stream_url(b, u, p, sid),
    decreases items.len(),
{
    if items.len() > 0 {
        lemma_live_channel_urls(b, u, p, cats, items.drop_last());
        let rest = live_channels(b, u, p, cats, items.drop_last());
        let all = live_channels(b, u, p, cats, items);
        let sid = scalar_text(items.last().stream_id);
        assert forall|i: int| 0 <= i < all.len() implies exists|s: Seq<char>|
            s.len() > 0 && (#[trigger] all[i]).url == stream_url(b, u, p, s) by {
            if i < rest.len() {
                assert(all[i] == rest[i]);
            } else {
                assert(all[i].url == stream_url(b, u, p, sid));
            }
        }
    }
}

/// A finished sign-in never hands back an empty channel list, and every
/// channel plays from `<base>/live/<user>/<pass>/<stream id>.ts` with a
/// non-empty stream id.
pub proof fn law_live_channels(f: LiveFetchView, reply: Result<XtreamReply, String>)
    ensures
        live_step(f, reply) matches LiveStepView::Channels(c) ==> c.len() > 0 && forall|i: int|
            0 <= i < c.len() ==> exists|sid: Seq<char>|
                sid.len() > 0 && (#[trigger] c[i]).url == stream_url(f.base, f.user, f.pass, sid),
{
    if let Ok(rep) = reply {
        let items = rep.items@;
        lemma_live_channel_urls(f.base, f.user, f.pass, f.categories, items);
        let c = live_channels(f.base, f.user, f.pass, f.categories, items);
        if f.stage == XtreamStage::ReadingStreams && c.len() > 0 {
            assert(live_step(f, reply) == LiveStepView::Channels(c));
        }
    }
}

// ---- Groups ----------------------------------------------------------------

/// A group name: non-empty, trimmed, and free of `;`.
pub open spec fn clean_group(g: Seq<char>) -> bool {
    &&& g.len() > 0
    &&& trim(g) == g
    &&& forall|i: int| 0 <= i < g.len() ==> g[i] != ';'
}

proof fn lemma_group_mentions_clean(t: Seq<char>, n: int)
    ensures
        forall|i: int| 0 <= i < group_mentions(t, n).len() ==> clean_group(#[trigger] group_mentions(t, n)[i].0),
    decreases t.len(),
{
    let j = part_end(t);
    lemma_first_in_exact(0, t.len() as int, semi_at(t));
    assert(0 <= j <= t.len());
    let piece = t.take(j);
    let g = trim(piece);
    lemma_trim_shape(piece);
    lemma_trim_idempotent(piece);
    if g.len() > 0 {
        let a = piece.len() - trim_start(piece).len();
        assert forall|i: int| 0 <= i < g.len() implies g[i] != ';' by {
            assert(g[i] == piece[a + i]);
            assert(piece[a + i] == t[a + i]);
            assert(!semi_at(t)(a + i));
        }
    }
    if 0 <= j < t.len() {
        lemma_group_mentions_clean(t.skip(j + 1), n);
    }
    let head = if g.len() > 0 {
        seq![(g, n)]
    } else {
        Seq::<(Seq<char>, int)>::empty()
    };
    let all = group_mentions(t, n);
    assert forall|i: int| 0 <= i < all.len() implies clean_group(#[trigger] all[i].0) by {
        if i < head.len() {
            assert(all[i] == head[i]);
        } else {
            assert(all[i] == group_mentions(t.skip(j + 1), n)[i - head.len()]);
        }
    }
}

/// Groups split + tally: every group that a list of group titles mentions is
/// a non-empty, trimmed name without `;`.
pub proof fn law_group_names_clean(rows: Seq<(Seq<char>, int)>)
    ensures
        forall|i: int| 0 <= i < mentions(rows).len() ==> clean_group(#[trigger] mentions(rows)[i].0),
    decreases rows.len(),
{
    if rows.len() > 0 {
        lemma_group_mentions_clean(rows[0].0, rows[0].1);
        law_group_names_clean(rows.drop_first());
        let h = group_mentions(rows[0].0, rows[0].1);
        let all = mentions(rows);
        assert forall|i: int| 0 <= i < all.len() implies clean_group(#[trigger] all[i].0) by {
            if i < h.len() {
                assert(all[i] == h[i]);
            } else {
                assert(all[i] == mentions(rows.drop_first())[i - h.len()]);
            }
        }
    }
}

/// A group title without `;` names one group, itself trimmed, or none
/// when it is blank: whitespace inside a name does not split it.
pub proof fn law_group_title_one_part(t: Seq<char>, n: int)
    requires
        forall|i: int| 0 <= i < t.len() ==> #[trigger] t[i] != ';',
    ensures
        group_mentions(t, n) == if trim(t).len() > 0 {
            seq![(trim(t), n)]
        } else {
            Seq::<(Seq<char>, int)>::empty()
        },
{
    assert forall|i: int| 0 <= i < t.len() implies !#[trigger] semi_at(t)(i) by {}
    lemma_first_in_none(0, t.len() as int, semi_at(t));
    assert(part_end(t) == t.len());
    assert(t.take(t.len() as int) =~= t);
}

/// A group title splits at its first `;`: the part before it (trimmed, when
/// not blank), then the groups of the rest.
pub proof fn law_group_title_split(a: Seq<char>, b: Seq<char>, n: int)
    requires
        forall|i: int| 0 <= i < a.len() ==> #[trigger] a[i] != ';',
    ensures
        group_mentions(a + seq![';'] + b, n) == (if trim(a).len() > 0 {
            seq![(trim(a), n)]
        } else {
            Seq::<(Seq<char>, int)>::empty()
        }) + group_mentions(b, n),
{
    let t = a + seq![';'] + b;
    let k = a.len() as int;
    assert forall|i: int| 0 <= i < k implies !#[trigger] semi_at(t)(i) by {
        assert(t[i] == a[i]);
    }
    assert(t[k] == ';');
    lemma_first_in_found(0, t.len() as int, semi_at(t), k);
    assert(part_end(t) == k);
    assert(t.take(k) =~= a);
    assert(t.skip(k + 1) =~= b);
}

/// `a` and `b` agree on their first `k` characters, and there `a` ends
/// while `b` goes on, or `a` has the smaller character.
pub open spec fn first_difference(a: Seq<char>, b: Seq<char>, k: int) -> bool {
    &&& 0 <= k <= a.len()
    &&& k <= b.len()
    &&& a.take(k) == b.take(k)
    &&& ((k == a.len() && k < b.len()) || (k < a.len() && k < b.len() && a[k] < b[k]))
}

/// Group names are ordered lexicographically by character: `a` comes
/// before `b` exactly when, at the first place where they differ, `a` has
/// ended or has the smaller character.
pub proof fn law_name_order_lexicographic(a: Seq<char>, b: Seq<char>)
    ensures
        seq_lt(a, b) <==> exists|k: int| #[trigger] first_difference(a, b, k),
    decreases a.len(),
{
    if a.len() == 0 {
        assert(a.take(0) =~= b.take(0));
        if b.len() > 0 {
            assert(first_difference(a, b, 0));
        }
    } else if b.len() == 0 {
    } else if a[0] != b[0] {
        assert(a.take(0) =~= b.take(0));
        if a[0] < b[0] {
            assert(first_difference(a, b, 0));
        }
        if exists|k: int| #[trigger] first_difference(a, b, k) {
            let k = choose|k: int| #[trigger] first_difference(a, b, k);
            if k > 0 {
                assert(a.take(k)[0] == b.take(k)[0]);
            }
        }
    } else {
        let a1 = a.drop_first();
        let b1 = b.drop_first();
        law_name_order_lexicographic(a1, b1);
        if exists|k: int| #[trigger] first_difference(a1, b1, k) {
            let k = choose|k: int| #[trigger] first_difference(a1, b1, k);
            assert(a.take(k + 1) =~= seq![a[0]] + a1.take(k));
            assert(b.take(k + 1) =~= seq![b[0]] + b1.take(k));
            assert(first_difference(a, b, k + 1));
        }
        if exists|k: int| #[trigger] first_difference(a, b, k) {
            let k = choose|k: int| #[trigger] first_difference(a, b, k);
            assert(k > 0);
            assert(a1.take(k - 1) =~= a.take(k).drop_first());
            assert(b1.take(k - 1) =~= b.take(k).drop_first());
            assert(first_difference(a1, b1, k - 1));
        }
    }
}

/// The group list's order: a larger count comes first; among equal counts,
/// the name that comes first in character order.
pub proof fn law_group_rank(c1: int, n1: Seq<char>, c2: int, n2: Seq<char>)
    ensures
        c1 > c2 ==> ranks_before(c1, n1, c2, n2),
        c1 < c2 ==> !ranks_before(c1, n1, c2, n2),
        c1 == c2 ==> (ranks_before(c1, n1, c2, n2) <==> exists|k: int| #[trigger] first_difference(n1, n2, k)),
{
    law_name_order_lexicographic(n1, n2);
}

/// The totals of a list of mentions add up over its parts.
proof fn lemma_total_concat(a: Seq<(Seq<char>, int)>, b: Seq<(Seq<char>, int)>, g: Seq<char>)
    ensures
        group_total(a + b, g) == group_total(a, g) + group_total(b, g),
    decreases b.len(),
{
    if b.len() == 0 {
        assert(a + b =~= a);
    } else {
        assert((a + b).drop_last() =~= a + b.drop_last());
        assert((a + b).last() == b.last());
        lemma_total_concat(a, b.drop_last(), g);
    }
}

/// The mentions of two lists of rows are those of the first, then those of
/// the second.
pub proof fn law_mentions_concat(r1: Seq<(Seq<char>, int)>, r2: Seq<(Seq<char>, int)>)
    ensures
        mentions(r1 + r2) == mentions(r1) + mentions(r2),
    decreases r1.len(),
{
    if r1.len() == 0 {
        assert(r1 + r2 =~= r2);
        assert(mentions(r1) + mentions(r2) =~= mentions(r2));
    } else {
        assert((r1 + r2)[0] == r1[0]);
        assert((r1 + r2).drop_first() =~= r1.drop_first() + r2);
        law_mentions_concat(r1.drop_first(), r2);
        let h = group_mentions(r1[0].0, r1[0].1);
        assert(h + (mentions(r1.drop_first()) + mentions(r2)) =~= (h + mentions(r1.drop_first()))
            + mentions(r2));
    }
}

/// A group's count over a list of rows is the sum of its counts over the
/// parts of the list, in whichever order they come.
pub proof fn law_group_total_additive(r1: Seq<(Seq<char>, int)>, r2: Seq<(Seq<char>, int)>, g: Seq<char>)
    ensures
        group_total(mentions(r1 + r2), g) == group_total(mentions(r1), g) + group_total(mentions(r2), g),
        group_total(mentions(r1 + r2), g) == group_total(mentions(r2 + r1), g),
        is_mentioned(mentions(r1 + r2), g) <==> is_mentioned(mentions(r1), g) || is_mentioned(
            mentions(r2),
            g,
        ),
{
    law_mentions_concat(r1, r2);
    law_mentions_concat(r2, r1);
    lemma_total_concat(mentions(r1), mentions(r2), g);
    lemma_total_concat(mentions(r2), mentions(r1), g);
    let a = mentions(r1);
    let b = mentions(r2);
    if is_mentioned(a + b, g) {
        let i = choose|i: int| 0 <= i < (a + b).len() && (#[trigger] (a + b)[i]).0 == g;
        if i < a.len() {
            assert(a[i] == (a + b)[i]);
        } else {
            assert(b[i - a.len()] == (a + b)[i]);
        }
    }
    if is_mentioned(a, g) {
        let i = choose|i: int| 0 <= i < a.len() && (#[trigger] a[i]).0 == g;
        assert((a + b)[i] == a[i]);
    }
    if is_mentioned(b, g) {
        let i = choose|i: int| 0 <= i < b.len() && (#[trigger] b[i]).0 == g;
        assert((a + b)[a.len() + i] == b[i]);
    }
}

proof fn lemma_total_single(x: (Seq<char>, int), g: Seq<char>)
    ensures
        group_total(seq![x], g) == if x.0 == g {
            x.1
        } else {
            0
        },
{
    assert(seq![x].drop_last() =~= Seq::<(Seq<char>, int)>::empty());
    assert(group_total(Seq::<(Seq<char>, int)>::empty(), g) == 0);
}

/// Every mention of a title carries the count of its row.
proof fn lemma_group_mentions_count(t: Seq<char>, n: int)
    ensures
        forall|i: int| 0 <= i < group_mentions(t, n).len() ==> (#[trigger] group_mentions(t, n)[i]).1 == n,
        forall|i: int| 0 <= i < group_mentions(t, n).len() ==> (#[trigger] group_mentions(t, n)[i]).0
            == group_mentions(t, 1)[i].0,
        group_mentions(t, n).len() == group_mentions(t, 1).len(),
    decreases t.len(),
{
    let j = part_end(t);
    lemma_first_in_exact(0, t.len() as int, semi_at(t));
    if 0 <= j < t.len() {
        lemma_group_mentions_count(t.skip(j + 1), n);
        lemma_group_mentions_count(t.skip(j + 1), 1);
    }
    let all = group_mentions(t, n);
    let one = group_mentions(t, 1);
    let g = trim(t.take(j));
    let hn = if g.len() > 0 {
        seq![(g, n)]
    } else {
        Seq::<(Seq<char>, int)>::empty()
    };
    let h1 = if g.len() > 0 {
        seq![(g, 1int)]
    } else {
        Seq::<(Seq<char>, int)>::empty()
    };
    assert forall|i: int| 0 <= i < all.len() implies (#[trigger] all[i]).1 == n && all[i].0 == one[i].0 by {
        if i < hn.len() {
            assert(all[i] == hn[i]);
            assert(one[i] == h1[i]);
        } else {
            assert(all[i] == group_mentions(t.skip(j + 1), n)[i - hn.len()]);
            assert(one[i] == group_mentions(t.skip(j + 1), 1)[i - h1.len()]);
        }
    }
}

/// A row of `n` channels that share a title counts `n` for each mention of
/// a group in that title; so rows of the same title may be merged by adding
/// their counts.
pub proof fn law_row_count_scales(t: Seq<char>, n: int, m: int, g: Seq<char>)
    ensures
        group_total(group_mentions(t, n), g) == n * group_total(group_mentions(t, 1), g),
        group_total(group_mentions(t, n + m), g) == group_total(group_mentions(t, n), g)
            + group_total(group_mentions(t, m), g),
{
    lemma_total_scaled(t, n, g);
    lemma_total_scaled(t, m, g);
    lemma_total_scaled(t, n + m, g);
    vstd::arithmetic::mul::lemma_mul_is_distributive_add_other_way(
        group_total(group_mentions(t, 1), g),
        n,
        m,
    );
}

proof fn lemma_total_scaled(t: Seq<char>, n: int, g: Seq<char>)
    ensures
        group_total(group_mentions(t, n), g) == n * group_total(group_mentions(t, 1), g),
    decreases t.len(),
{
    let j = part_end(t);
    lemma_first_in_exact(0, t.len() as int, semi_at(t));
    let p = trim(t.take(j));
    let hn = if p.len() > 0 {
        seq![(p, n)]
    } else {
        Seq::<(Seq<char>, int)>::empty()
    };
    let h1 = if p.len() > 0 {
        seq![(p, 1int)]
    } else {
        Seq::<(Seq<char>, int)>::empty()
    };
    if p.len() > 0 {
        lemma_total_single((p, n), g);
        lemma_total_single((p, 1int), g);
    }
    assert(group_total(hn, g) == n * group_total(h1, g));
    if 0 <= j < t.len() {
        let rest = t.skip(j + 1);
        lemma_total_scaled(rest, n, g);
        lemma_total_concat(hn, group_mentions(rest, n), g);
        lemma_total_concat(h1, group_mentions(rest, 1), g);
        vstd::arithmetic::mul::lemma_mul_is_distributive_add(
            n,
            group_total(h1, g),
            group_total(group_mentions(rest, 1), g),
        );
    }
}

/// The title `t` names the group `g`.
pub open spec fn names_group(t: Seq<char>, g: Seq<char>) -> bool {
    is_mentioned(group_mentions(t, 1), g)
}

/// No group is named twice in the title `t`.
pub open spec fn no_repeated_group(t: Seq<char>) -> bool {
    forall|i: int, j: int|
        0 <= i < j < group_mentions(t, 1).len() ==> (#[trigger] group_mentions(t, 1)[i]).0
            != (#[trigger] group_mentions(t, 1)[j]).0
}

/// One row per channel: its group title and a count of one.
pub open spec fn channel_rows(titles: Seq<Seq<char>>) -> Seq<(Seq<char>, int)> {
    titles.map_values(|t: Seq<char>| (t, 1int))
}

/// The number of channels whose title names `g`.
pub open spec fn naming_count(titles: Seq<Seq<char>>, g: Seq<char>) -> int
    decreases titles.len(),
{
    if titles.len() == 0 {
        0
    } else {
        naming_count(titles.drop_last(), g) + if names_group(titles.last(), g) {
            1int
        } else {
            0
        }
    }
}

proof fn lemma_total_once(ms: Seq<(Seq<char>, int)>, g: Seq<char>)
    requires
        forall|i: int| 0 <= i < ms.len() ==> (#[trigger] ms[i]).1 == 1,
        forall|i: int, j: int| 0 <= i < j < ms.len() ==> (#[trigger] ms[i]).0 != (#[trigger] ms[j]).0,
    ensures
        group_total(ms, g) == if is_mentioned(ms, g) {
            1int
        } else {
            0
        },
    decreases ms.len(),
{
    if ms.len() > 0 {
        let d = ms.drop_last();
        assert forall|i: int| 0 <= i < d.len() implies (#[trigger] d[i]).1 == 1 by {
            assert(d[i] == ms[i]);
        }
        assert forall|i: int, j: int| 0 <= i < j < d.len() implies (#[trigger] d[i]).0 != (#[trigger] d[j]).0 by {
            assert(d[i] == ms[i] && d[j] == ms[j]);
        }
        lemma_total_once(d, g);
        let k = ms.len() - 1;
        assert(ms.last() == ms[k]);
        if is_mentioned(d, g) {
            let i = choose|i: int| 0 <= i < d.len() && (#[trigger] d[i]).0 == g;
            assert(ms[i] == d[i]);
        }
        if is_mentioned(ms, g) {
            let i = choose|i: int| 0 <= i < ms.len() && (#[trigger] ms[i]).0 == g;
            if i < k {
                assert(d[i] == ms[i]);
            }
        }
    }
}

/// Groups split + tally, per channel: listing one row per channel, where no
/// title names a group twice, a group is mentioned exactly when some
/// channel's title names it, and its count is the number of such channels.
pub proof fn law_group_count_per_channel(titles: Seq<Seq<char>>, g: Seq<char>)
    requires
        forall|i: int| 0 <= i < titles.len() ==> no_repeated_group(#[trigger] titles[i]),
    ensures
        group_total(mentions(channel_rows(titles)), g) == naming_count(titles, g),
        is_mentioned(mentions(channel_rows(titles)), g) <==> naming_count(titles, g) > 0,
        naming_count(titles, g) > 0 <==> exists|i: int| 0 <= i < titles.len() && names_group(
            #[trigger] titles[i],
            g,
        ),
    decreases titles.len(),
{
    if titles.len() == 0 {
        assert(channel_rows(titles) =~= Seq::<(Seq<char>, int)>::empty());
        assert(mentions(channel_rows(titles)) =~= Seq::<(Seq<char>, int)>::empty());
    } else {
        let d = titles.drop_last();
        let t = titles.last();
        assert forall|i: int| 0 <= i < d.len() implies no_repeated_group(#[trigger] d[i]) by {
            assert(d[i] == titles[i]);
        }
        law_group_count_per_channel(d, g);
        assert(no_repeated_group(titles[titles.len() - 1]));
        let row = seq![(t, 1int)];
        assert(channel_rows(titles) =~= channel_rows(d) + row);
        law_group_total_additive(channel_rows(d), row, g);
        assert(row.drop_first() =~= Seq::<(Seq<char>, int)>::empty());
        assert(mentions(row) =~= group_mentions(t, 1) + mentions(row.drop_first()));
        assert(mentions(row) =~= group_mentions(t, 1));
        lemma_group_mentions_count(t, 1);
        lemma_total_once(group_mentions(t, 1), g);
        if exists|i: int| 0 <= i < titles.len() && names_group(#[trigger] titles[i], g) {
            let i = choose|i: int| 0 <= i < titles.len() && names_group(#[trigger] titles[i], g);
            if i < d.len() {
                assert(d[i] == titles[i]);
            }
        }
        if exists|i: int| 0 <= i < d.len() && names_group(#[trigger] d[i], g) {
            let i = choose|i: int| 0 <= i < d.len() && names_group(#[trigger] d[i], g);
            assert(titles[i] == d[i]);
        }
        if names_group(t, g) {
            assert(titles[titles.len() - 1] == t);
        }
        lemma_naming_count_nonneg(d, g);
    }
}

/// The number of channels whose title is `t`.
pub open spec fn title_count(titles: Seq<Seq<char>>, t: Seq<char>) -> int
    decreases titles.len(),
{
    if titles.len() == 0 {
        0
    } else {
        title_count(titles.drop_last(), t) + if titles.last() == t {
            1int
        } else {
            0
        }
    }
}

/// `rows` are the channels' titles grouped as `GROUP BY group_title` groups
/// them: one row per distinct title of `titles`, with the number of channels
/// that carry it, and no other row.
pub open spec fn grouped_rows(rows: Seq<(Seq<char>, int)>, titles: Seq<Seq<char>>) -> bool {
    &&& forall|i: int, j: int| 0 <= i < j < rows.len() ==> (#[trigger] rows[i]).0 != (#[trigger] rows[j]).0
    &&& forall|r: int|
        0 <= r < rows.len() ==> (#[trigger] rows[r]).1 == title_count(titles, rows[r].0) && titles.contains(
            rows[r].0,
        )
    &&& covers(rows, titles)
}

/// Every title of `titles` has a row in `rows`.
pub open spec fn covers(rows: Seq<(Seq<char>, int)>, titles: Seq<Seq<char>>) -> bool {
    forall|i: int|
        #![trigger titles[i]]
        0 <= i < titles.len() ==> exists|r: int| 0 <= r < rows.len() && (#[trigger] rows[r]).0 == titles[i]
}

spec fn total_of(t: Seq<char>, g: Seq<char>) -> int {
    group_total(group_mentions(t, 1), g)
}

spec fn wsum(rows: Seq<(Seq<char>, int)>, g: Seq<char>) -> int
    decreases rows.len(),
{
    if rows.len() == 0 {
        0
    } else {
        wsum(rows.drop_last(), g) + rows.last().1 * total_of(rows.last().0, g)
    }
}

spec fn wcount(rows: Seq<(Seq<char>, int)>, titles: Seq<Seq<char>>, g: Seq<char>) -> int
    decreases rows.len(),
{
    if rows.len() == 0 {
        0
    } else {
        wcount(rows.drop_last(), titles, g) + if names_group(rows.last().0, g) {
            title_count(titles, rows.last().0)
        } else {
            0
        }
    }
}

spec fn hits(rows: Seq<(Seq<char>, int)>, x: Seq<char>, g: Seq<char>) -> int
    decreases rows.len(),
{
    if rows.len() == 0 {
        0
    } else {
        hits(rows.drop_last(), x, g) + if rows.last().0 == x && names_group(x, g) {
            1int
        } else {
            0
        }
    }
}

proof fn lemma_mentions_single(x: (Seq<char>, int))
    ensures
        mentions(seq![x]) == group_mentions(x.0, x.1),
{
    let one = seq![x];
    assert(one.drop_first() =~= Seq::<(Seq<char>, int)>::empty());
    assert(mentions(one.drop_first()) =~= Seq::<(Seq<char>, int)>::empty());
    assert(mentions(one) =~= group_mentions(x.0, x.1));
}

proof fn lemma_rows_total(rows: Seq<(Seq<char>, int)>, g: Seq<char>)
    ensures
        group_total(mentions(rows), g) == wsum(rows, g),
    decreases rows.len(),
{
    if rows.len() == 0 {
        assert(mentions(rows) =~= Seq::<(Seq<char>, int)>::empty());
    } else {
        let dl = rows.drop_last();
        let x = rows.last();
        assert(rows =~= dl + seq![x]);
        law_group_total_additive(dl, seq![x], g);
        lemma_mentions_single(x);
        lemma_total_scaled(x.0, x.1, g);
        lemma_rows_total(dl, g);
    }
}

proof fn lemma_rows_mentioned(rows: Seq<(Seq<char>, int)>, g: Seq<char>)
    ensures
        is_mentioned(mentions(rows), g) <==> exists|r: int| 0 <= r < rows.len() && names_group(
            (#[trigger] rows[r]).0,
            g,
        ),
    decreases rows.len(),
{
    if rows.len() == 0 {
        assert(mentions(rows) =~= Seq::<(Seq<char>, int)>::empty());
    } else {
        let dl = rows.drop_last();
        let x = rows.last();
        let k = rows.len() - 1;
        assert(rows =~= dl + seq![x]);
        law_group_total_additive(dl, seq![x], g);
        lemma_mentions_single(x);
        lemma_rows_mentioned(dl, g);
        lemma_group_mentions_count(x.0, x.1);
        let gn = group_mentions(x.0, x.1);
        let g1 = group_mentions(x.0, 1);
        if is_mentioned(gn, g) {
            let i = choose|i: int| 0 <= i < gn.len() && (#[trigger] gn[i]).0 == g;
            assert(g1[i].0 == g);
        }
        if is_mentioned(g1, g) {
            let i = choose|i: int| 0 <= i < g1.len() && (#[trigger] g1[i]).0 == g;
            assert(gn[i].0 == g);
        }
        assert(is_mentioned(gn, g) == names_group(x.0, g));
        assert(rows[k] == x);
        if exists|r: int| 0 <= r < dl.len() && names_group((#[trigger] dl[r]).0, g) {
            let r = choose|r: int| 0 <= r < dl.len() && names_group((#[trigger] dl[r]).0, g);
            assert(rows[r] == dl[r]);
        }
        if exists|r: int| 0 <= r < rows.len() && names_group((#[trigger] rows[r]).0, g) {
            let r = choose|r: int| 0 <= r < rows.len() && names_group((#[trigger] rows[r]).0, g);
            if r < k {
                assert(dl[r] == rows[r]);
            }
        }
    }
}

proof fn lemma_total_indicator(t: Seq<char>, g: Seq<char>)
    requires
        no_repeated_group(t),
    ensures
        total_of(t, g) == if names_group(t, g) {
            1int
        } else {
            0
        },
{
    lemma_group_mentions_count(t, 1);
    lemma_total_once(group_mentions(t, 1), g);
}

proof fn lemma_wsum_wcount(rows: Seq<(Seq<char>, int)>, titles: Seq<Seq<char>>, g: Seq<char>)
    requires
        forall|r: int|
            0 <= r < rows.len() ==> (#[trigger] rows[r]).1 == title_count(titles, rows[r].0)
                && no_repeated_group(rows[r].0),
    ensures
        wsum(rows, g) == wcount(rows, titles, g),
    decreases rows.len(),
{
    if rows.len() > 0 {
        let dl = rows.drop_last();
        let x = rows.last();
        assert(x == rows[rows.len() - 1]);
        assert forall|r: int| 0 <= r < dl.len() implies (#[trigger] dl[r]).1 == title_count(titles, dl[r].0)
            && no_repeated_group(dl[r].0) by {
            assert(dl[r] == rows[r]);
        }
        lemma_wsum_wcount(dl, titles, g);
        lemma_total_indicator(x.0, g);
        if names_group(x.0, g) {
            assert(x.1 * total_of(x.0, g) == x.1);
        } else {
            assert(x.1 * total_of(x.0, g) == 0);
        }
    }
}

proof fn lemma_hits_absent(rows: Seq<(Seq<char>, int)>, x: Seq<char>, g: Seq<char>)
    requires
        forall|r: int| 0 <= r < rows.len() ==> (#[trigger] rows[r]).0 != x,
    ensures
        hits(rows, x, g) == 0,
    decreases rows.len(),
{
    if rows.len() > 0 {
        let dl = rows.drop_last();
        assert(rows.last() == rows[rows.len() - 1]);
        assert forall|r: int| 0 <= r < dl.len() implies (#[trigger] dl[r]).0 != x by {
            assert(dl[r] == rows[r]);
        }
        lemma_hits_absent(dl, x, g);
    }
}

proof fn lemma_hits_once(rows: Seq<(Seq<char>, int)>, x: Seq<char>, g: Seq<char>, w: int)
    requires
        forall|i: int, j: int| 0 <= i < j < rows.len() ==> (#[trigger] rows[i]).0 != (#[trigger] rows[j]).0,
        0 <= w < rows.len(),
        rows[w].0 == x,
    ensures
        hits(rows, x, g) == if names_group(x, g) {
            1int
        } else {
            0
        },
    decreases rows.len(),
{
    let k = rows.len() - 1;
    let dl = rows.drop_last();
    assert(rows.last() == rows[k]);
    if w == k {
        assert forall|r: int| 0 <= r < dl.len() implies (#[trigger] dl[r]).0 != x by {
            assert(dl[r] == rows[r]);
        }
        lemma_hits_absent(dl, x, g);
    } else {
        assert(rows[k].0 != x);
        assert forall|i: int, j: int| 0 <= i < j < dl.len() implies (#[trigger] dl[i]).0 != (#[trigger] dl[j]).0 by {
            assert(dl[i] == rows[i] && dl[j] == rows[j]);
        }
        assert(dl[w] == rows[w]);
        lemma_hits_once(dl, x, g, w);
    }
}

proof fn lemma_wcount_none(rows: Seq<(Seq<char>, int)>, titles: Seq<Seq<char>>, g: Seq<char>)
    requires
        titles.len() == 0,
    ensures
        wcount(rows, titles, g) == 0,
    decreases rows.len(),
{
    if rows.len() > 0 {
        lemma_wcount_none(rows.drop_last(), titles, g);
    }
}

proof fn lemma_wcount_step(rows: Seq<(Seq<char>, int)>, titles: Seq<Seq<char>>, g: Seq<char>)
    requires
        titles.len() > 0,
    ensures
        wcount(rows, titles, g) == wcount(rows, titles.drop_last(), g) + hits(rows, titles.last(), g),
    decreases rows.len(),
{
    if rows.len() > 0 {
        lemma_wcount_step(rows.drop_last(), titles, g);
        let t = rows.last().0;
        assert(title_count(titles, t) == title_count(titles.drop_last(), t) + if titles.last() == t {
            1int
        } else {
            0
        });
    }
}

proof fn lemma_wcount_naming(rows: Seq<(Seq<char>, int)>, titles: Seq<Seq<char>>, g: Seq<char>)
    requires
        forall|i: int, j: int| 0 <= i < j < rows.len() ==> (#[trigger] rows[i]).0 != (#[trigger] rows[j]).0,
        covers(rows, titles),
    ensures
        wcount(rows, titles, g) == naming_count(titles, g),
    decreases titles.len(),
{
    if titles.len() == 0 {
        lemma_wcount_none(rows, titles, g);
    } else {
        let d = titles.drop_last();
        let k = titles.len() - 1;
        let x = titles.last();
        assert forall|i: int|
            #![trigger d[i]]
            0 <= i < d.len() implies exists|r: int| 0 <= r < rows.len() && (#[trigger] rows[r]).0 == d[i] by {
            assert(d[i] == titles[i]);
        }
        assert(covers(rows, d));
        lemma_wcount_naming(rows, d, g);
        lemma_wcount_step(rows, titles, g);
        assert(titles[k] == x);
        let w = choose|r: int| 0 <= r < rows.len() && (#[trigger] rows[r]).0 == titles[k];
        lemma_hits_once(rows, x, g, w);
    }
}

/// Groups split + tally over what the database returns: when `rows` are the
/// channels' group titles grouped by title, each with its number of
/// channels, and no title names a group twice, a group is mentioned exactly
/// when some channel's title names it, and its total is the number of such
/// channels.
pub proof fn law_grouped_rows_count(rows: Seq<(Seq<char>, int)>, titles: Seq<Seq<char>>, g: Seq<char>)
    requires
        grouped_rows(rows, titles),
        forall|i: int| 0 <= i < titles.len() ==> no_repeated_group(#[trigger] titles[i]),
    ensures
        group_total(mentions(rows), g) == naming_count(titles, g),
        is_mentioned(mentions(rows), g) <==> exists|i: int| 0 <= i < titles.len() && names_group(
            #[trigger] titles[i],
            g,
        ),
{
    assert forall|r: int| 0 <= r < rows.len() implies (#[trigger] rows[r]).1 == title_count(titles, rows[r].0)
        && no_repeated_group(rows[r].0) by {
        assert(titles.contains(rows[r].0));
        let i = choose|i: int| 0 <= i < titles.len() && titles[i] == rows[r].0;
        assert(no_repeated_group(titles[i]));
    }
    lemma_rows_total(rows, g);
    lemma_wsum_wcount(rows, titles, g);
    lemma_wcount_naming(rows, titles, g);
    lemma_rows_mentioned(rows, g);
    if exists|i: int| 0 <= i < titles.len() && names_group(#[trigger] titles[i], g) {
        let i = choose|i: int| 0 <= i < titles.len() && names_group(#[trigger] titles[i], g);
        let r = choose|r: int| 0 <= r < rows.len() && (#[trigger] rows[r]).0 == titles[i];
        assert(names_group(rows[r].0, g));
    }
    if exists|r: int| 0 <= r < rows.len() && names_group((#[trigger] rows[r]).0, g) {
        let r = choose|r: int| 0 <= r < rows.len() && names_group((#[trigger] rows[r]).0, g);
        assert(titles.contains(rows[r].0));
        let i = choose|i: int| 0 <= i < titles.len() && titles[i] == rows[r].0;
        assert(names_group(titles[i], g));
    }
}

proof fn lemma_naming_count_nonneg(titles: Seq<Seq<char>>, g: Seq<char>)
    ensures
        naming_count(titles, g) >= 0,
    decreases titles.len(),
{
    if titles.len() > 0 {
        lemma_naming_count_nonneg(titles.drop_last(), g);
    }
}

// ---- Search ----------------------------------------------------------------

/// Double quotes come in adjacent pairs, read from the end.
pub open spec fn quotes_paired(e: Seq<char>) -> bool
    decreases e.len(),
{
    if e.len() == 0 {
        true
    } else if e.last() == '"' {
        e.len() >= 2 && e[e.len() - 2] == '"' && quotes_paired(e.drop_last().drop_last())
    } else {
        quotes_paired(e.drop_last())
    }
}

/// The text of an FTS5 string body: each `""` stands for one `"`.
pub open spec fn unescape_quotes(e: Seq<char>) -> Seq<char>
    decreases e.len(),
{
    if e.len() == 0 {
        seq![]
    } else if e.last() == '"' && e.len() >= 2 {
        unescape_quotes(e.drop_last().drop_last()).push('"')
    } else {
        unescape_quotes(e.drop_last()).push(e.last())
    }
}

/// A search word becomes an FTS5 string that cannot be cut short (its
/// quotes are all doubled) and that stands for exactly that word.
pub proof fn law_fts_term_exact(w: Seq<char>)
    ensures
        fts_term(w) == seq!['"'] + escape_quotes(w) + seq!['"', '*'],
        quotes_paired(escape_quotes(w)),
        unescape_quotes(escape_quotes(w)) == w,
    decreases w.len(),
{
    if w.len() > 0 {
        law_fts_term_exact(w.drop_last());
        let p = escape_quotes(w.drop_last());
        let e = escape_quotes(w);
        if w.last() == '"' {
            assert(e.drop_last().drop_last() =~= p);
            assert(e[e.len() - 2] == '"');
        } else {
            assert(e.drop_last() =~= p);
        }
        assert(unescape_quotes(e) =~= w);
    } else {
        assert(unescape_quotes(escape_quotes(w)) =~= w);
    }
}

/// Search pages hold 1 to 2000 channels from a non-negative offset, and the
/// recently played list shows 1 to [`RECENTS_CAP`] entries.
pub proof fn law_limits_bounded(limit: Option<i64>, offset: Option<i64>)
    ensures
        1 <= page_limit(limit) <= 2000,
        page_offset(offset) >= 0,
        1 <= recents_limit_spec(limit) <= RECENTS_CAP,
{
}

/// A limit within range is kept; one below is raised to the least, one
/// above lowered to the greatest; a missing one takes the default. An
/// offset is kept unless negative.
pub proof fn law_limits_clamp(l: i64)
    ensures
        1 <= l <= RECENTS_CAP ==> recents_limit_spec(Some(l)) == l,
        l < 1 ==> recents_limit_spec(Some(l)) == 1,
        l > RECENTS_CAP ==> recents_limit_spec(Some(l)) == RECENTS_CAP,
        recents_limit_spec(None) == RECENTS_CAP,
        RECENTS_CAP == 50,
        1 <= l <= 2000 ==> page_limit(Some(l)) == l,
        l < 1 ==> page_limit(Some(l)) == 1,
        l > 2000 ==> page_limit(Some(l)) == 2000,
        page_limit(None) == 200,
        l >= 0 ==> page_offset(Some(l)) == l,
        l < 0 ==> page_offset(Some(l)) == 0,
        page_offset(None) == 0,
{
}

/// The values bound to a search, in order: the full-text query of the
/// trimmed words when there are any, the group, the source, then the page
/// size and the first row.
pub proof fn law_search_binds(
    query: Seq<char>,
    group: Option<Seq<char>>,
    source_id: Option<i64>,
    limit: i64,
    offset: i64,
)
    ensures
        ({
            let b = search_binds_spec(query, group, source_id, limit, offset);
            let f: int = if trim(query).len() > 0 {
                1
            } else {
                0
            };
            let gi: int = if group is Some {
                1
            } else {
                0
            };
            let si: int = if source_id is Some {
                1
            } else {
                0
            };
            &&& b.len() == f + gi + si + 2
            &&& trim(query).len() > 0 ==> b[0] == SqlValue::Text(fts_query_spec(trim(query)))
            &&& group matches Some(g) ==> b[f] == SqlValue::Text(g)
            &&& source_id matches Some(sid) ==> b[f + gi] == SqlValue::Integer(sid)
            &&& b[b.len() - 2] == SqlValue::Integer(limit)
            &&& b[b.len() - 1] == SqlValue::Integer(offset)
        }),
{
}

/// A non-empty group filter narrows a search: its name is bound and the
/// `;`-delimited membership condition is in the text. An empty one is the
/// same search as none.
pub proof fn law_search_group_filter(
    query: Seq<char>,
    g: &str,
    source_id: Option<i64>,
    limit: i64,
    offset: i64,
)
    ensures
        g@.len() > 0 ==> group_filter(Some(g)) == Some(g@),
        g@.len() > 0 ==> search_binds_spec(query, group_filter(Some(g)), source_id, limit, offset).contains(
            SqlValue::Text(g@),
        ),
        g@.len() > 0 ==> ({
            let sql = search_sql_spec(query, group_filter(Some(g)), source_id);
            let cond = " AND instr(';' || c.group_title || ';', ';' || ? || ';') > 0"@;
            exists|i: int| 0 <= i && i + cond.len() <= sql.len() && #[trigger] sql.subrange(i, i + cond.len()) == cond
        }),
        g@.len() == 0 ==> group_filter(Some(g)) == group_filter(None),
        group_filter(None) == None::<Seq<char>>,
{
    if g@.len() > 0 {
        let q = trim(query);
        let b = search_binds_spec(query, Some(g@), source_id, limit, offset);
        let first = if q.len() == 0 {
            Seq::<SqlValue>::empty()
        } else {
            seq![SqlValue::Text(crate::store::fts_query_spec(q))]
        };
        assert(b[first.len() as int] == SqlValue::Text(g@));
        let head = if q.len() == 0 {
            "SELECT "@ + select_cols() + " FROM channels c WHERE 1=1"@
        } else {
            "SELECT "@ + select_cols() + " FROM channels_fts ft JOIN channels c ON c.id = ft.rowid WHERE channels_fts MATCH ?"@
        };
        let cond = " AND instr(';' || c.group_title || ';', ';' || ? || ';') > 0"@;
        let sql = search_sql_spec(query, Some(g@), source_id);
        let i = head.len() as int;
        assert(sql.subrange(i, i + cond.len()) =~= cond);
    }
}

/// The number of `?` placeholders in a query text.
pub open spec fn placeholders(s: Seq<char>) -> nat
    decreases s.len(),
{
    if s.len() == 0 {
        0
    } else {
        placeholders(s.drop_last()) + if s.last() == '?' {
            1nat
        } else {
            0nat
        }
    }
}

proof fn lemma_placeholders_concat(a: Seq<char>, b: Seq<char>)
    ensures
        placeholders(a + b) == placeholders(a) + placeholders(b),
    decreases b.len(),
{
    if b.len() > 0 {
        assert((a + b).drop_last() =~= a + b.drop_last());
        lemma_placeholders_concat(a, b.drop_last());
    } else {
        assert(a + b =~= a);
    }
}

proof fn lemma_placeholders_none(s: Seq<char>)
    requires
        forall|i: int| 0 <= i < s.len() ==> s[i] != '?',
    ensures
        placeholders(s) == 0,
    decreases s.len(),
{
    if s.len() > 0 {
        lemma_placeholders_none(s.drop_last());
    }
}

proof fn lemma_placeholders_one(s: Seq<char>, k: int)
    requires
        0 <= k < s.len(),
        s[k] == '?',
        forall|i: int| 0 <= i < s.len() && i != k ==> s[i] != '?',
    ensures
        placeholders(s) == 1,
{
    let a = s.take(k);
    let b = s.skip(k + 1);
    assert(s =~= a + seq!['?'] + b);
    lemma_placeholders_none(a);
    lemma_placeholders_none(b);
    let one = seq!['?'];
    assert(one.drop_last() =~= Seq::<char>::empty());
    assert(placeholders(Seq::<char>::empty()) == 0);
    assert(one.last() == '?');
    assert(placeholders(one) == placeholders(one.drop_last()) + 1);
    assert(placeholders(one) == 1);
    lemma_placeholders_concat(a, seq!['?']);
    lemma_placeholders_concat(a + seq!['?'], b);
}

proof fn lemma_query_texts()
    ensures
        placeholders("SELECT "@) == 0,
        placeholders(select_cols()) == 0,
        placeholders(" FROM channels c WHERE 1=1"@) == 0,
        placeholders(" FROM channels_fts ft JOIN channels c ON c.id = ft.rowid WHERE channels_fts MATCH ?"@) == 1,
        placeholders(" AND instr(';' || c.group_title || ';', ';' || ? || ';') > 0"@) == 1,
        placeholders(" AND c.source_id = ?"@) == 1,
        placeholders(" ORDER BY c.name"@) == 0,
        placeholders(" ORDER BY rank"@) == 0,
        placeholders(" LIMIT ? OFFSET ?"@) == 2,
        placeholders(Seq::<char>::empty()) == 0,
        placeholders("SELECT group_title, COUNT(*) FROM channels WHERE source_id = ? GROUP BY group_title"@) == 1,
        placeholders("SELECT group_title, COUNT(*) FROM channels GROUP BY group_title"@) == 0,
{
    reveal_strlit("SELECT ");
    lemma_placeholders_none("SELECT "@);
    reveal_strlit("c.id, c.source_id, c.name, c.url, c.group_title, c.tvg_id, c.tvg_logo, EXISTS(SELECT 1 FROM favorites f WHERE f.url = c.url) AS is_fav");
    lemma_placeholders_none(select_cols());
    reveal_strlit(" FROM channels c WHERE 1=1");
    lemma_placeholders_none(" FROM channels c WHERE 1=1"@);
    reveal_strlit(" FROM channels_fts ft JOIN channels c ON c.id = ft.rowid WHERE channels_fts MATCH ?");
    lemma_placeholders_one(" FROM channels_fts ft JOIN channels c ON c.id = ft.rowid WHERE channels_fts MATCH ?"@, 82);
    reveal_strlit(" AND instr(';' || c.group_title || ';', ';' || ? || ';') > 0");
    lemma_placeholders_one(" AND instr(';' || c.group_title || ';', ';' || ? || ';') > 0"@, 47);
    reveal_strlit(" AND c.source_id = ?");
    lemma_placeholders_one(" AND c.source_id = ?"@, 19);
    reveal_strlit(" ORDER BY c.name");
    lemma_placeholders_none(" ORDER BY c.name"@);
    reveal_strlit(" ORDER BY rank");
    lemma_placeholders_none(" ORDER BY rank"@);
    reveal_strlit(" LIMIT ? OFFSET ?");
    let lim = " LIMIT ? OFFSET ?"@;
    assert(lim =~= lim.take(8) + lim.skip(8));
    lemma_placeholders_one(lim.take(8), 7);
    lemma_placeholders_one(lim.skip(8), 8);
    lemma_placeholders_concat(lim.take(8), lim.skip(8));
    reveal_strlit("SELECT group_title, COUNT(*) FROM channels WHERE source_id = ? GROUP BY group_title");
    lemma_placeholders_one("SELECT group_title, COUNT(*) FROM channels WHERE source_id = ? GROUP BY group_title"@, 61);
    reveal_strlit("SELECT group_title, COUNT(*) FROM channels GROUP BY group_title");
    lemma_placeholders_none("SELECT group_title, COUNT(*) FROM channels GROUP BY group_title"@);
}

/// Every channel search binds exactly one value per `?` of its text.
pub proof fn law_search_placeholders(
    query: Seq<char>,
    group: Option<Seq<char>>,
    source_id: Option<i64>,
    limit: i64,
    offset: i64,
)
    ensures
        placeholders(search_sql_spec(query, group, source_id)) == search_binds_spec(
            query,
            group,
            source_id,
            limit,
            offset,
        ).len(),
{
    lemma_query_texts();
    let q = trim(query);
    let head = if q.len() == 0 {
        "SELECT "@ + select_cols() + " FROM channels c WHERE 1=1"@
    } else {
        "SELECT "@ + select_cols() + " FROM channels_fts ft JOIN channels c ON c.id = ft.rowid WHERE channels_fts MATCH ?"@
    };
    let by_group = if group is Some {
        " AND instr(';' || c.group_title || ';', ';' || ? || ';') > 0"@
    } else {
        Seq::<char>::empty()
    };
    let by_source = if source_id is Some {
        " AND c.source_id = ?"@
    } else {
        Seq::<char>::empty()
    };
    let order = if q.len() == 0 {
        " ORDER BY c.name"@
    } else {
        " ORDER BY rank"@
    };
    lemma_placeholders_concat("SELECT "@, select_cols());
    if q.len() == 0 {
        lemma_placeholders_concat("SELECT "@ + select_cols(), " FROM channels c WHERE 1=1"@);
    } else {
        lemma_placeholders_concat(
            "SELECT "@ + select_cols(),
            " FROM channels_fts ft JOIN channels c ON c.id = ft.rowid WHERE channels_fts MATCH ?"@,
        );
    }
    lemma_placeholders_concat(head, by_group);
    lemma_placeholders_concat(head + by_group, by_source);
    lemma_placeholders_concat(head + by_group + by_source, order);
    lemma_placeholders_concat(head + by_group + by_source + order, " LIMIT ? OFFSET ?"@);
}

/// The group query binds exactly one value per `?` of its text.
pub proof fn law_groups_placeholders(source_id: Option<i64>)
    ensures
        placeholders(groups_sql_spec(source_id)) == if source_id is Some {
            1nat
        } else {
            0nat
        },
{
    lemma_query_texts();
}

} // verus!
