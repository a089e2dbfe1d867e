//! The channel store's records and the queries it runs.
//!
//! Data model:
//! - `sources`   — named playlists / providers (M3U URL/file or Xtream login).
//! - `channels`  — channels, each tied to a source (`source_id`); FTS5-indexed.
//! - `favorites` — starred channels, keyed by stream url (survive re-import).
//! - `recents`   — recently played, keyed by url, capped to the last [`RECENTS_CAP`].
//!
//! The database itself lives with the application; this module decides what
//! is asked of it and what its answers mean.

use vstd::prelude::*;

use crate::scan::{first_in, lemma_first_in_found, lemma_first_in_none, lemma_first_in_range};
use crate::text::{chars_of, is_whitespace, is_ws, trim, trim_range, trim_start};

verus! {

broadcast use vstd::string::group_string_axioms;

/// Largest number of entries kept in the recently played list.
pub const RECENTS_CAP: i64 = 50;

// ---- Records ---------------------------------------------------------------

/// A channel row, as shown in the channel browser.
#[derive(Clone)]
pub struct Channel {
    pub id: i64,
    pub source_id: i64,
    pub name: String,
    pub url: String,
    pub group: String,
    pub tvg_id: String,
    pub tvg_logo: String,
    pub is_fav: bool,
}

/// A favorite or recently played channel.
#[derive(Clone)]
pub struct SavedChannel {
    pub url: String,
    pub name: String,
    pub group: String,
    pub tvg_logo: String,
    pub is_fav: bool,
}

/// A playlist or provider, with the number of channels it holds.
pub struct Source {
    pub id: i64,
    pub name: String,
    pub kind: String,
    pub location: String,
    pub username: String,
    pub count: i64,
    pub refreshed_at: Option<i64>,
}

/// A group and the number of channels in it.
pub struct GroupCount {
    pub name: String,
    pub count: i64,
}

/// The id of a newly saved source and the number of channels stored for it.
pub struct SourceSaved {
    pub id: i64,
    pub count: usize,
}

/// A channel reference sent from the UI (for favorites / recents).
pub struct ChannelRef {
    pub url: String,
    pub name: String,
    pub group: String,
    pub tvg_logo: String,
}

// ---- Full-text queries -----------------------------------------------------

/// Whitespace at `k`.
pub open spec fn space_at(s: Seq<char>) -> spec_fn(int) -> bool {
    |k: int| is_ws(s[k])
}

/// Length of the first word of `s`.
pub open spec fn word_end(s: Seq<char>) -> int {
    match first_in(0, s.len() as int, space_at(s)) {
        Some(j) => j,
        None => s.len() as int,
    }
}

pub proof fn lemma_trim_start_len(s: Seq<char>)
    ensures
        trim_start(s).len() <= s.len(),
        trim_start(s).len() > 0 ==> !is_ws(trim_start(s)[0]),
    decreases s.len(),
{
    if s.len() > 0 && is_ws(s[0]) {
        lemma_trim_start_len(s.drop_first());
    }
}

/// The whitespace-separated words of `s` (what `str::split_whitespace` yields).
pub open spec fn words(s: Seq<char>) -> Seq<Seq<char>>
    decreases s.len(),
{
    let t = trim_start(s);
    if t.len() == 0 {
        seq![]
    } else {
        let j = word_end(t);
        proof {
            lemma_trim_start_len(s);
            lemma_first_in_range(0, t.len() as int, space_at(t));
            if j == 0 {
                assert(space_at(t)(0));
            }
        }
        if 0 < j <= t.len() {
            seq![t.take(j)] + words(t.skip(j))
        } else {
            seq![]
        }
    }
}

/// `t` with every double quote doubled.
pub open spec fn escape_quotes(t: Seq<char>) -> Seq<char>
    decreases t.len(),
{
    if t.len() == 0 {
        seq![]
    } else {
        escape_quotes(t.drop_last()) + if t.last() == '"' {
            seq!['"', '"']
        } else {
            seq![t.last()]
        }
    }
}

/// A quoted FTS5 prefix term: `"word"*`.
pub open spec fn fts_term(w: Seq<char>) -> Seq<char> {
    seq!['"'] + escape_quotes(w) + seq!['"', '*']
}

/// Each term preceded by a space.
pub open spec fn spaced_terms(ws: Seq<Seq<char>>) -> Seq<char>
    decreases ws.len(),
{
    if ws.len() == 0 {
        seq![]
    } else {
        seq![' '] + fts_term(ws[0]) + spaced_terms(ws.drop_first())
    }
}

/// The terms, separated by single spaces.
pub open spec fn join_terms(ws: Seq<Seq<char>>) -> Seq<char> {
    if ws.len() == 0 {
        seq![]
    } else {
        fts_term(ws[0]) + spaced_terms(ws.drop_first())
    }
}

/// `bbc news` -> `"bbc"* "news"*`.
pub open spec fn fts_query_spec(input: Seq<char>) -> Seq<char> {
    join_terms(words(input))
}

/// `bbc news` -> `"bbc"* "news"*` (safe FTS5 prefix query).
pub fn fts_query(input: &str) -> (r: String)
    ensures
        r@ == fts_query_spec(input@),
{
    let v = chars_of(input);
    let n = v.len();
    let mut out = String::new();
    let mut first = true;
    let mut i: usize = 0;
    proof {
        assert(v@.skip(0) =~= v@);
    }
    while i < n
        invariant
            i <= n,
            n == v@.len(),
            v@ == input@,
            fts_query_spec(input@) == out@ + if first {
                join_terms(words(v@.skip(i as int)))
            } else {
                spaced_terms(words(v@.skip(i as int)))
            },
        decreases n - i,
    {
        let ghost rem = v@.skip(i as int);
        if is_whitespace(v[i]) {
            proof {
                assert(rem[0] == v@[i as int]);
                assert(rem.drop_first() =~= v@.skip(i + 1));
                assert(trim_start(rem) == trim_start(v@.skip(i + 1)));
            }
            i = i + 1;
        } else {
            // the word v[i..j]
            let mut j = i;
            let ghost before = out@;
            if !first {
                out.push(' ');
            }
            out.push('"');
            while j < n && !is_whitespace(v[j])
                invariant
                    i <= j <= n,
                    n == v@.len(),
                    forall|t: int| i <= t < j ==> !is_ws(v@[t]),
                    out@ == before + (if first {
                        Seq::<char>::empty()
                    } else {
                        seq![' ']
                    }) + seq!['"'] + escape_quotes(v@.subrange(i as int, j as int)),
                decreases n - j,
            {
                let c = v[j];
                proof {
                    let w = v@.subrange(i as int, j + 1);
                    assert(w.drop_last() =~= v@.subrange(i as int, j as int));
                    assert(w.last() == c);
                }
                if c == '"' {
                    out.push('"');
                    out.push('"');
                } else {
                    out.push(c);
                }
                j = j + 1;
            }
            out.push('"');
            out.push('*');
            proof {
                assert(rem[0] == v@[i as int]);
                assert(trim_start(rem) == rem);
                assert forall|t: int| 0 <= t < j - i implies !#[trigger] space_at(rem)(t) by {
                    assert(rem[t] == v@[i + t]);
                }
                if j < n {
                    assert(rem[j - i] == v@[j as int]);
                    lemma_first_in_found(0, rem.len() as int, space_at(rem), j - i);
                } else {
                    lemma_first_in_none(0, rem.len() as int, space_at(rem));
                }
                assert(word_end(rem) == j - i);
                assert(rem.take(j - i) =~= v@.subrange(i as int, j as int));
                assert(rem.skip(j - i) =~= v@.skip(j as int));
                let ws = words(rem);
                assert(ws[0] == v@.subrange(i as int, j as int));
                assert(ws.drop_first() == words(v@.skip(j as int)));
                let term = fts_term(v@.subrange(i as int, j as int));
                if first {
                    assert(out@ =~= before + term);
                } else {
                    assert(out@ =~= before + seq![' '] + term);
                }
            }
            first = false;
            i = j;
        }
    }
    proof {
        assert(v@.skip(n as int) =~= Seq::<char>::empty());
        assert(trim_start(Seq::<char>::empty()) =~= Seq::<char>::empty());
        assert(words(Seq::<char>::empty()) =~= Seq::<Seq<char>>::empty());
        assert(out@ + Seq::<char>::empty() =~= out@);
    }
    out
}

// ---- Queries ---------------------------------------------------------------

/// A value bound to a `?` of a query.
pub enum SqlArg {
    Text(String),
    Integer(i64),
}

/// The meaning of a [`SqlArg`].
pub enum SqlValue {
    Text(Seq<char>),
    Integer(i64),
}

impl View for SqlArg {
    type V = SqlValue;

    open spec fn view(&self) -> SqlValue {
        match self {
            SqlArg::Text(s) => SqlValue::Text(s@),
            SqlArg::Integer(i) => SqlValue::Integer(*i),
        }
    }
}

/// A query and the values of its `?` placeholders, in order.
pub struct SqlQuery {
    pub sql: String,
    pub binds: Vec<SqlArg>,
}

/// The meanings of a list of bound values.
pub open spec fn binds_view(b: Seq<SqlArg>) -> Seq<SqlValue> {
    b.map_values(|a: SqlArg| a@)
}

/// The columns of a channel row, with whether its url is a favorite.
pub open spec fn select_cols() -> Seq<char> {
    "c.id, c.source_id, c.name, c.url, c.group_title, c.tvg_id, c.tvg_logo, EXISTS(SELECT 1 FROM favorites f WHERE f.url = c.url) AS is_fav"@
}

/// The text of a channel search: all channels by name when the query is
/// blank, else the full-text matches by rank; narrowed to a `;`-delimited
/// group member and to a source when given; one page of `?` rows from `?`.
pub open spec fn search_sql_spec(query: Seq<char>, group: Option<Seq<char>>, source_id: Option<i64>) -> Seq<char> {
    let q = trim(query);
    let head = if q.len() == 0 {
        "SELECT "@ + select_cols() + " FROM channels c WHERE 1=1"@
    } else {
        "SELECT "@ + select_cols() + " FROM channels_fts ft JOIN channels c ON c.id = ft.rowid WHERE channels_fts MATCH ?"@
    };
    let by_group = if group is Some {
        " AND instr(';' || c.group_title || ';', ';' || ? || ';') > 0"@
    } else {
        Seq::<char>::empty()
    };
    let by_source = if source_id is Some {
        " AND c.source_id = ?"@
    } else {
        Seq::<char>::empty()
    };
    let order = if q.len() == 0 {
        " ORDER BY c.name"@
    } else {
        " ORDER BY rank"@
    };
    head + by_group + by_source + order + " LIMIT ? OFFSET ?"@
}

/// The values bound to the placeholders of [`search_sql_spec`].
pub open spec fn search_binds_spec(
    query: Seq<char>,
    group: Option<Seq<char>>,
    source_id: Option<i64>,
    limit: i64,
    offset: i64,
) -> Seq<SqlValue> {
    let q = trim(query);
    (if q.len() == 0 {
        Seq::<SqlValue>::empty()
    } else {
        seq![SqlValue::Text(fts_query_spec(q))]
    }) + (match group {
        Some(g) => seq![SqlValue::Text(g)],
        None => Seq::<SqlValue>::empty(),
    }) + (match source_id {
        Some(sid) => seq![SqlValue::Integer(sid)],
        None => Seq::<SqlValue>::empty(),
    }) + seq![SqlValue::Integer(limit), SqlValue::Integer(offset)]
}

/// The text of an optional string.
pub open spec fn opt_str_view(o: Option<&str>) -> Option<Seq<char>> {
    match o {
        Some(s) => Some(s@),
        None => None,
    }
}

/// The channel search for `query` (a full-text prefix search unless blank),
/// optionally within one group and one source, `limit` rows from `offset`.
pub fn search_sql(query: &str, group: Option<&str>, source_id: Option<i64>, limit: i64, offset: i64) -> (r: SqlQuery)
    ensures
        r.sql@ == search_sql_spec(query@, opt_str_view(group), source_id),
        binds_view(r.binds@) == search_binds_spec(query@, opt_str_view(group), source_id, limit, offset),
{
    let v = chars_of(query);
    let (a, b) = trim_range(&v, 0, v.len());
    proof {
        assert(v@.subrange(0, v@.len() as int) =~= v@);
    }
    let blank = a == b;
    let mut sql = String::from_str("SELECT ");
    sql.append("c.id, c.source_id, c.name, c.url, c.group_title, c.tvg_id, c.tvg_logo, EXISTS(SELECT 1 FROM favorites f WHERE f.url = c.url) AS is_fav");
    let mut binds: Vec<SqlArg> = Vec::new();
    if blank {
        sql.append(" FROM channels c WHERE 1=1");
    } else {
        sql.append(" FROM channels_fts ft JOIN channels c ON c.id = ft.rowid WHERE channels_fts MATCH ?");
        let q = crate::text::string_of(&v, a, b);
        binds.push(SqlArg::Text(fts_query(q.as_str())));
    }
    let ghost b1 = binds_view(binds@);
    let ghost s1 = sql@;
    if let Some(g) = group {
        sql.append(" AND instr(';' || c.group_title || ';', ';' || ? || ';') > 0");
        binds.push(SqlArg::Text(String::from_str(g)));
    }
    let ghost b2 = binds_view(binds@);
    let ghost s2 = sql@;
    if let Some(sid) = source_id {
        sql.append(" AND c.source_id = ?");
        binds.push(SqlArg::Integer(sid));
    }
    let ghost b3 = binds_view(binds@);
    let ghost s3 = sql@;
    if blank {
        sql.append(" ORDER BY c.name");
    } else {
        sql.append(" ORDER BY rank");
    }
    sql.append(" LIMIT ? OFFSET ?");
    let ghost b4 = binds_view(binds@);
    binds.push(SqlArg::Integer(limit));
    binds.push(SqlArg::Integer(offset));
    proof {
        let q = trim(query@);
        if blank {
            assert(b1 =~= Seq::<SqlValue>::empty());
        } else {
            assert(b1 =~= seq![SqlValue::Text(fts_query_spec(q))]);
        }
        match group {
            Some(g) => assert(b2 =~= b1 + seq![SqlValue::Text(g@)]),
            None => assert(b2 =~= b1 + Seq::<SqlValue>::empty()),
        }
        match source_id {
            Some(sid) => assert(b3 =~= b2 + seq![SqlValue::Integer(sid)]),
            None => assert(b3 =~= b2 + Seq::<SqlValue>::empty()),
        }
        assert(binds_view(binds@) =~= b3 + seq![SqlValue::Integer(limit), SqlValue::Integer(offset)]);
        if group is None {
            assert(s2 =~= s1 + Seq::<char>::empty());
        }
        if source_id is None {
            assert(s3 =~= s2 + Seq::<char>::empty());
        }
        assert(binds_view(binds@) =~= search_binds_spec(query@, opt_str_view(group), source_id, limit, offset));
        assert(sql@ =~= search_sql_spec(query@, opt_str_view(group), source_id));
    }
    SqlQuery { sql, binds }
}

/// The page size of a search: 200 unless given, kept within 1..=2000.
pub open spec fn page_limit(limit: Option<i64>) -> i64 {
    let l = match limit {
        Some(l) => l,
        None => 200,
    };
    if l < 1 {
        1
    } else if l > 2000 {
        2000
    } else {
        l
    }
}

/// The first row of a search page: 0 unless given, never negative.
pub open spec fn page_offset(offset: Option<i64>) -> i64 {
    match offset {
        Some(o) => if o < 0 {
            0
        } else {
            o
        },
        None => 0,
    }
}

/// A group filter applies only when it names a group.
pub open spec fn group_filter(group: Option<&str>) -> Option<Seq<char>> {
    match group {
        Some(g) => if g@.len() == 0 {
            None
        } else {
            Some(g@)
        },
        None => None,
    }
}

/// The query that answers a channel search request from the browser.
pub fn search_channels_query(
    query: &str,
    group: Option<&str>,
    source_id: Option<i64>,
    limit: Option<i64>,
    offset: Option<i64>,
) -> (r: SqlQuery)
    ensures
        r.sql@ == search_sql_spec(query@, group_filter(group), source_id),
        binds_view(r.binds@) == search_binds_spec(
            query@,
            group_filter(group),
            source_id,
            page_limit(limit),
            page_offset(offset),
        ),
{
    let g = match group {
        Some(g) => if g.is_empty() {
            None
        } else {
            Some(g)
        },
        None => None,
    };
    let l = match limit {
        Some(l) => l,
        None => 200,
    };
    let l = if l < 1 {
        1
    } else if l > 2000 {
        2000
    } else {
        l
    };
    let o = match offset {
        Some(o) => if o < 0 {
            0
        } else {
            o
        },
        None => 0,
    };
    search_sql(query, g, source_id, l, o)
}

/// The group titles of the channels, with how many channels carry each,
/// for one source or for all.
pub open spec fn groups_sql_spec(source_id: Option<i64>) -> Seq<char> {
    if source_id is Some {
        "SELECT group_title, COUNT(*) FROM channels WHERE source_id = ? GROUP BY group_title"@
    } else {
        "SELECT group_title, COUNT(*) FROM channels GROUP BY group_title"@
    }
}

/// The query behind the group list: see [`groups_sql_spec`].
pub fn groups_sql(source_id: Option<i64>) -> (r: SqlQuery)
    ensures
        r.sql@ == groups_sql_spec(source_id),
        binds_view(r.binds@) == match source_id {
            Some(sid) => seq![SqlValue::Integer(sid)],
            None => Seq::<SqlValue>::empty(),
        },
{
    match source_id {
        Some(sid) => {
            let mut binds: Vec<SqlArg> = Vec::new();
            binds.push(SqlArg::Integer(sid));
            proof {
                assert(binds_view(binds@) =~= seq![SqlValue::Integer(sid)]);
            }
            SqlQuery {
                sql: String::from_str("SELECT group_title, COUNT(*) FROM channels WHERE source_id = ? GROUP BY group_title"),
                binds,
            }
        },
        None => {
            let binds: Vec<SqlArg> = Vec::new();
            proof {
                assert(binds_view(binds@) =~= Seq::<SqlValue>::empty());
            }
            SqlQuery {
                sql: String::from_str("SELECT group_title, COUNT(*) FROM channels GROUP BY group_title"),
                binds,
            }
        },
    }
}

/// The number of recently played channels to list: all of them unless
/// given, kept within 1..=RECENTS_CAP.
pub open spec fn recents_limit_spec(limit: Option<i64>) -> i64 {
    let l = match limit {
        Some(l) => l,
        None => RECENTS_CAP,
    };
    if l < 1 {
        1
    } else if l > RECENTS_CAP {
        RECENTS_CAP
    } else {
        l
    }
}

/// See [`recents_limit_spec`].
pub fn recents_limit(limit: Option<i64>) -> (r: i64)
    ensures
        r == recents_limit_spec(limit),
{
    let l = match limit {
        Some(l) => l,
        None => RECENTS_CAP,
    };
    if l < 1 {
        1
    } else if l > RECENTS_CAP {
        RECENTS_CAP
    } else {
        l
    }
}

// ---- Group tallies ---------------------------------------------------------

/// A `;` at `k`.
pub open spec fn semi_at(s: Seq<char>) -> spec_fn(int) -> bool {
    |k: int| s[k] == ';'
}

/// Length of the first `;`-separated part of `s`.
pub open spec fn part_end(s: Seq<char>) -> int {
    match first_in(0, s.len() as int, semi_at(s)) {
        Some(j) => j,
        None => s.len() as int,
    }
}

/// The groups that the group title `t` names, each paired with `n`: its
/// `;`-separated parts, trimmed, with the empty ones dropped.
pub open spec fn group_mentions(t: Seq<char>, n: int) -> Seq<(Seq<char>, int)>
    decreases t.len(),
{
    let j = part_end(t);
    let g = trim(t.take(j));
    let head = if g.len() > 0 {
        seq![(g, n)]
    } else {
        Seq::<(Seq<char>, int)>::empty()
    };
    if 0 <= j < t.len() {
        head + group_mentions(t.skip(j + 1), n)
    } else {
        head
    }
}

/// Every group mention of a list of (group title, channel count) rows, with
/// the count of its row, in order.
pub open spec fn mentions(rows: Seq<(Seq<char>, int)>) -> Seq<(Seq<char>, int)>
    decreases rows.len(),
{
    if rows.len() == 0 {
        seq![]
    } else {
        group_mentions(rows[0].0, rows[0].1) + mentions(rows.drop_first())
    }
}

/// The text of (group title, channel count) rows.
pub open spec fn rows_view(rows: Seq<(String, i64)>) -> Seq<(Seq<char>, int)> {
    rows.map_values(|r: (String, i64)| (r.0@, r.1 as int))
}

/// The sum of the counts of the mentions of `g`.
pub open spec fn group_total(ms: Seq<(Seq<char>, int)>, g: Seq<char>) -> int
    decreases ms.len(),
{
    if ms.len() == 0 {
        0
    } else {
        group_total(ms.drop_last(), g) + if ms.last().0 == g {
            ms.last().1
        } else {
            0
        }
    }
}

/// `g` is mentioned.
pub open spec fn is_mentioned(ms: Seq<(Seq<char>, int)>, g: Seq<char>) -> bool {
    exists|i: int| 0 <= i < ms.len() && (#[trigger] ms[i]).0 == g
}

/// Every running total of every group stays within `i64`.
pub open spec fn tally_fits(ms: Seq<(Seq<char>, int)>) -> bool {
    forall|k: int, g: Seq<char>|
        0 <= k <= ms.len() ==> i64::MIN <= #[trigger] group_total(ms.take(k), g) <= i64::MAX
}

/// `a` comes before `b` in lexicographic order of characters (the order of
/// `str`, whose UTF-8 bytes compare as their characters do).
pub open spec fn seq_lt(a: Seq<char>, b: Seq<char>) -> bool
    decreases a.len(),
{
    if a.len() == 0 {
        b.len() > 0
    } else if b.len() == 0 {
        false
    } else if a[0] != b[0] {
        a[0] < b[0]
    } else {
        seq_lt(a.drop_first(), b.drop_first())
    }
}

/// The order of the group list: larger counts first, then by name.
pub open spec fn ranks_before(c1: int, n1: Seq<char>, c2: int, n2: Seq<char>) -> bool {
    c1 > c2 || (c1 == c2 && seq_lt(n1, n2))
}

pub proof fn lemma_seq_lt_irreflexive(a: Seq<char>)
    ensures
        !seq_lt(a, a),
    decreases a.len(),
{
    if a.len() > 0 {
        lemma_seq_lt_irreflexive(a.drop_first());
    }
}

pub proof fn lemma_seq_lt_transitive(a: Seq<char>, b: Seq<char>, c: Seq<char>)
    requires
        seq_lt(a, b),
        seq_lt(b, c),
    ensures
        seq_lt(a, c),
    decreases a.len(),
{
    if a.len() > 0 && b.len() > 0 && c.len() > 0 && a[0] == b[0] && b[0] == c[0] {
        lemma_seq_lt_transitive(a.drop_first(), b.drop_first(), c.drop_first());
    }
}

pub proof fn lemma_seq_lt_total(a: Seq<char>, b: Seq<char>)
    requires
        a != b,
    ensures
        seq_lt(a, b) || seq_lt(b, a),
    decreases a.len(),
{
    if a.len() == 0 {
        assert(b.len() > 0) by {
            if b.len() == 0 {
                assert(a =~= b);
            }
        }
    } else if b.len() > 0 && a[0] == b[0] {
        if a.drop_first() == b.drop_first() {
            assert(a.drop_first().len() == b.drop_first().len());
            assert(a =~= b) by {
                assert forall|i: int| 0 <= i < a.len() implies a[i] == b[i] by {
                    if i > 0 {
                        assert(a[i] == a.drop_first()[i - 1]);
                        assert(b[i] == b.drop_first()[i - 1]);
                    }
                }
            }
        }
        lemma_seq_lt_total(a.drop_first(), b.drop_first());
    }
}

pub proof fn lemma_seq_lt_asymmetric(a: Seq<char>, b: Seq<char>)
    requires
        seq_lt(a, b),
    ensures
        !seq_lt(b, a),
{
    if seq_lt(b, a) {
        lemma_seq_lt_transitive(a, b, a);
        lemma_seq_lt_irreflexive(a);
    }
}

proof fn lemma_total_push(ms: Seq<(Seq<char>, int)>, m: (Seq<char>, int), g: Seq<char>)
    ensures
        group_total(ms.push(m), g) == group_total(ms, g) + if m.0 == g {
            m.1
        } else {
            0
        },
{
    assert(ms.push(m).drop_last() =~= ms);
}

proof fn lemma_total_unmentioned(ms: Seq<(Seq<char>, int)>, g: Seq<char>)
    requires
        !is_mentioned(ms, g),
    ensures
        group_total(ms, g) == 0,
    decreases ms.len(),
{
    if ms.len() > 0 {
        assert(!is_mentioned(ms.drop_last(), g)) by {
            if is_mentioned(ms.drop_last(), g) {
                let i = choose|i: int| 0 <= i < ms.drop_last().len() && (#[trigger] ms.drop_last()[i]).0 == g;
                assert(ms[i] == ms.drop_last()[i]);
            }
        }
        assert(ms.last().0 != g) by {
            if ms.last().0 == g {
                assert(ms[ms.len() - 1].0 == g);
            }
        }
        lemma_total_unmentioned(ms.drop_last(), g);
    }
}

proof fn lemma_done_push(done: Seq<(Seq<char>, int)>, m: (Seq<char>, int))
    ensures
        forall|x: Seq<char>| #[trigger] is_mentioned(done.push(m), x) == (is_mentioned(done, x) || x == m.0),
        forall|x: Seq<char>| #[trigger] group_total(done.push(m), x) == group_total(done, x) + if x == m.0 {
            m.1
        } else {
            0
        },
{
    let done2 = done.push(m);
    assert forall|x: Seq<char>| #[trigger] is_mentioned(done2, x) == (is_mentioned(done, x) || x == m.0) by {
        if is_mentioned(done2, x) {
            let i = choose|i: int| 0 <= i < done2.len() && (#[trigger] done2[i]).0 == x;
            if i < done.len() {
                assert(done[i] == done2[i]);
            }
        }
        if is_mentioned(done, x) {
            let i = choose|i: int| 0 <= i < done.len() && (#[trigger] done[i]).0 == x;
            assert(done2[i] == done[i]);
        }
        if x == m.0 {
            assert(done2[done.len() as int].0 == x);
        }
    }
    assert forall|x: Seq<char>| #[trigger] group_total(done2, x) == group_total(done, x) + if x == m.0 {
        m.1
    } else {
        0
    } by {
        lemma_total_push(done, m, x);
    }
}

/// Names and counts of a running tally over the mentions `done`.
spec fn tally_ok(names: Seq<Vec<char>>, counts: Seq<i64>, done: Seq<(Seq<char>, int)>) -> bool {
    &&& names.len() == counts.len()
    &&& forall|i: int, j: int| 0 <= i < j < names.len() ==> names[i]@ != names[j]@
    &&& forall|i: int|
        0 <= i < names.len() ==> is_mentioned(done, #[trigger] names[i]@) && counts[i] == group_total(
            done,
            names[i]@,
        )
    &&& forall|g: Seq<char>|
        is_mentioned(done, g) ==> exists|i: int| 0 <= i < names.len() && (#[trigger] names[i])@ == g
}

/// Adds the mention of group `g` with count `n` to the tally.
fn tally_add(names: &mut Vec<Vec<char>>, counts: &mut Vec<i64>, g: Vec<char>, n: i64, Ghost(done): Ghost<Seq<(Seq<char>, int)>>) -> (ok: bool)
    requires
        tally_ok(old(names)@, old(counts)@, done),
    ensures
        ok == (i64::MIN <= group_total(done, g@) + n <= i64::MAX),
        ok ==> tally_ok(final(names)@, final(counts)@, done.push((g@, n as int))),
{
    let ghost done2 = done.push((g@, n as int));
    proof {
        lemma_done_push(done, (g@, n as int));
    }
    let len = names.len();
    let mut k: usize = 0;
    while k < len
        invariant
            k <= len,
            len == names@.len(),
            names@ == old(names)@,
            counts@ == old(counts)@,
            tally_ok(names@, counts@, done),
            done2 == done.push((g@, n as int)),
            forall|t: int| 0 <= t < k ==> names@[t]@ != g@,
        decreases len - k,
    {
        proof {
            assert(names@[k as int]@.subrange(0, names@[k as int]@.len() as int) =~= names@[k as int]@);
        }
        if crate::text::range_equals(&names[k], 0, names[k].len(), &g) {
            let c = match counts[k].checked_add(n) {
                Some(c) => c,
                None => {
                    return false;
                },
            };
            counts.set(k, c);
            proof {
                lemma_done_push(done, (g@, n as int));
                assert forall|i: int| 0 <= i < names@.len() implies is_mentioned(done2, #[trigger] names@[i]@)
                    && counts@[i] == group_total(done2, names@[i]@) by {
                    if i < k {
                        assert(names@[i]@ != names@[k as int]@);
                    } else if i > k {
                        assert(names@[k as int]@ != names@[i]@);
                    }
                }
                assert forall|x: Seq<char>| is_mentioned(done2, x) implies exists|i: int|
                    0 <= i < names@.len() && (#[trigger] names@[i])@ == x by {
                    if x == g@ {
                        assert(names@[k as int]@ == x);
                    }
                }
            }
            return true;
        }
        k = k + 1;
    }
    proof {
        assert(!is_mentioned(done, g@)) by {
            if is_mentioned(done, g@) {
                let i = choose|i: int| 0 <= i < names@.len() && (#[trigger] names@[i])@ == g@;
            }
        }
        lemma_total_unmentioned(done, g@);
    }
    let ghost gv = g@;
    names.push(g);
    counts.push(n);
    proof {
        assert(names@.last()@ == gv);
        assert forall|i: int| 0 <= i < names@.len() implies is_mentioned(done2, #[trigger] names@[i]@)
            && counts@[i] == group_total(done2, names@[i]@) by {
            if i < len {
                assert(names@[i] == old(names)@[i]);
                assert(names@[i]@ != gv);
            }
        }
        assert forall|i: int, j: int| 0 <= i < j < names@.len() implies names@[i]@ != names@[j]@ by {
            if j == len {
                assert(names@[i] == old(names)@[i]);
            } else {
                assert(names@[i] == old(names)@[i]);
                assert(names@[j] == old(names)@[j]);
            }
        }
        assert forall|x: Seq<char>| is_mentioned(done2, x) implies exists|i: int|
            0 <= i < names@.len() && (#[trigger] names@[i])@ == x by {
            if x == gv {
                assert(names@[len as int]@ == x);
            } else {
                let i = choose|i: int| 0 <= i < old(names)@.len() && (#[trigger] old(names)@[i])@ == x;
                assert(names@[i] == old(names)@[i]);
            }
        }
    }
    true
}

proof fn lemma_fits_push(done: Seq<(Seq<char>, int)>, m: (Seq<char>, int))
    requires
        tally_fits(done),
        i64::MIN <= group_total(done, m.0) + m.1 <= i64::MAX,
    ensures
        tally_fits(done.push(m)),
{
    let d2 = done.push(m);
    assert forall|k: int, g: Seq<char>| 0 <= k <= d2.len() implies i64::MIN <= #[trigger] group_total(d2.take(k), g) <= i64::MAX by {
        if k <= done.len() {
            assert(d2.take(k) =~= done.take(k));
        } else {
            assert(d2.take(k) =~= d2);
            assert(done.take(done.len() as int) =~= done);
            assert(i64::MIN <= group_total(done.take(done.len() as int), g) <= i64::MAX);
            lemma_total_push(done, m, g);
        }
    }
}

/// The tally of the group mentions of `rows`: each group once, with the sum
/// of its mention counts, in order of first mention.
fn tally(rows: &Vec<(String, i64)>) -> (r: Option<(Vec<Vec<char>>, Vec<i64>)>)
    ensures
        r is Some == tally_fits(mentions(rows_view(rows@))),
        r matches Some(t) ==> tally_ok(t.0@, t.1@, mentions(rows_view(rows@))),
{
    let ghost rv = rows_view(rows@);
    let ghost ms = mentions(rv);
    let mut names: Vec<Vec<char>> = Vec::new();
    let mut counts: Vec<i64> = Vec::new();
    let ghost mut done: Seq<(Seq<char>, int)> = seq![];
    proof {
        assert(rv.skip(0) =~= rv);
        assert(done + ms =~= ms);
        assert forall|k: int, g: Seq<char>| 0 <= k <= done.len() implies i64::MIN <= #[trigger] group_total(done.take(k), g) <= i64::MAX by {
            assert(done.take(k).len() == 0);
        }
    }
    let mut i: usize = 0;
    while i < rows.len()
        invariant
            i <= rows@.len(),
            rv == rows_view(rows@),
            ms == mentions(rv),
            tally_fits(done),
            ms == done + mentions(rv.skip(i as int)),
            tally_ok(names@, counts@, done),
        decreases rows@.len() - i,
    {
        let t = chars_of(rows[i].0.as_str());
        let n = rows[i].1;
        let tn = t.len();
        proof {
            let rest = rv.skip(i as int);
            assert(rest[0] == (t@, n as int));
            assert(rest.drop_first() =~= rv.skip(i + 1));
            assert(t@.skip(0) =~= t@);
        }
        let mut pos: usize = 0;
        loop
            invariant_except_break
                pos <= tn,
                tn == t@.len(),
                tally_fits(done),
                rv == rows_view(rows@),
                ms == mentions(rv),
                ms == done + group_mentions(t@.skip(pos as int), n as int) + mentions(rv.skip(i + 1)),
                tally_ok(names@, counts@, done),
            ensures
                tally_fits(done),
                ms == done + mentions(rv.skip(i + 1)),
                tally_ok(names@, counts@, done),
            decreases tn - pos,
        {
            let ghost rem = t@.skip(pos as int);
            let mut j = pos;
            while j < tn && t[j] != ';'
                invariant
                    pos <= j <= tn,
                    tn == t@.len(),
                    forall|q: int| pos <= q < j ==> t@[q] != ';',
                decreases tn - j,
            {
                j = j + 1;
            }
            proof {
                assert forall|q: int| 0 <= q < j - pos implies !#[trigger] semi_at(rem)(q) by {
                    assert(rem[q] == t@[pos + q]);
                }
                if j < tn {
                    assert(rem[j - pos] == t@[j as int]);
                    lemma_first_in_found(0, rem.len() as int, semi_at(rem), j - pos);
                } else {
                    lemma_first_in_none(0, rem.len() as int, semi_at(rem));
                }
                assert(part_end(rem) == j - pos);
                assert(rem.take(j - pos) =~= t@.subrange(pos as int, j as int));
                if j < tn {
                    assert(rem.skip(j - pos + 1) =~= t@.skip(j + 1));
                }
            }
            let (a, b) = trim_range(&t, pos, j);
            let ghost tail = if j < tn {
                group_mentions(t@.skip(j + 1), n as int)
            } else {
                Seq::<(Seq<char>, int)>::empty()
            };
            if a < b {
                let g = crate::text::sub_vec(&t, a, b);
                let ghost m = (g@, n as int);
                proof {
                    assert(group_mentions(rem, n as int) =~= seq![m] + tail);
                    assert(ms =~= done.push(m) + (tail + mentions(rv.skip(i + 1))));
                    assert(ms.take(done.len() + 1int) =~= done.push(m));
                    lemma_total_push(done, m, g@);
                }
                if !tally_add(&mut names, &mut counts, g, n, Ghost(done)) {
                    proof {
                        let k = done.len() + 1int;
                        assert(group_total(ms.take(k), m.0) == group_total(done, m.0) + m.1);
                        assert(!(i64::MIN <= group_total(ms.take(k), m.0) <= i64::MAX));
                        assert(ms.len() >= k);
                    }
                    return None;
                }
                proof {
                    lemma_fits_push(done, m);
                    done = done.push(m);
                }
            } else {
                proof {
                    assert(group_mentions(rem, n as int) =~= tail);
                }
            }
            if j >= tn {
                proof {
                    assert(ms =~= done + mentions(rv.skip(i + 1)));
                }
                break;
            }
            pos = j + 1;
        }
        i = i + 1;
    }
    proof {
        assert(rv.skip(rows@.len() as int) =~= Seq::<(Seq<char>, int)>::empty());
        assert(done + Seq::<(Seq<char>, int)>::empty() =~= done);
    }
    Some((names, counts))
}

/// Tests `seq_lt(a@, b@)`.
fn name_lt(a: &Vec<char>, b: &Vec<char>) -> (r: bool)
    ensures
        r == seq_lt(a@, b@),
{
    let mut i: usize = 0;
    proof {
        assert(a@.skip(0) =~= a@);
        assert(b@.skip(0) =~= b@);
    }
    loop
        invariant
            i <= a@.len(),
            i <= b@.len(),
            seq_lt(a@, b@) == seq_lt(a@.skip(i as int), b@.skip(i as int)),
        decreases a@.len() - i,
    {
        let ghost x = a@.skip(i as int);
        let ghost y = b@.skip(i as int);
        if i == a.len() {
            return i < b.len();
        }
        if i == b.len() {
            return false;
        }
        proof {
            assert(x[0] == a@[i as int]);
            assert(y[0] == b@[i as int]);
        }
        if a[i] != b[i] {
            return a[i] < b[i];
        }
        proof {
            assert(x.drop_first() =~= a@.skip(i + 1));
            assert(y.drop_first() =~= b@.skip(i + 1));
        }
        i = i + 1;
    }
}

/// Entry `x` of the tally comes before entry `y`.
spec fn entry_before(names: Seq<Vec<char>>, counts: Seq<i64>, x: int, y: int) -> bool {
    ranks_before(counts[x] as int, names[x]@, counts[y] as int, names[y]@)
}

proof fn lemma_ranks_transitive(c1: int, n1: Seq<char>, c2: int, n2: Seq<char>, c3: int, n3: Seq<char>)
    requires
        ranks_before(c1, n1, c2, n2),
        ranks_before(c2, n2, c3, n3),
    ensures
        ranks_before(c1, n1, c3, n3),
{
    if c1 == c2 && c2 == c3 {
        lemma_seq_lt_transitive(n1, n2, n3);
    }
}

proof fn lemma_ranks_total(c1: int, n1: Seq<char>, c2: int, n2: Seq<char>)
    requires
        n1 != n2,
        !ranks_before(c1, n1, c2, n2),
    ensures
        ranks_before(c2, n2, c1, n1),
{
    if c1 == c2 {
        lemma_seq_lt_total(n1, n2);
    }
}

/// Position `a` occurs in `ord`.
spec fn listed(ord: Seq<usize>, a: int) -> bool {
    exists|i: int| 0 <= i < ord.len() && ord[i] == a
}

/// The positions of the tally entries, ordered by [`ranks_before`].
fn rank_order(names: &Vec<Vec<char>>, counts: &Vec<i64>) -> (ord: Vec<usize>)
    requires
        names@.len() == counts@.len(),
        forall|i: int, j: int| 0 <= i < j < names@.len() ==> names@[i]@ != names@[j]@,
    ensures
        ord@.len() == names@.len(),
        forall|i: int| 0 <= i < ord@.len() ==> ord@[i] < names@.len(),
        forall|a: int| 0 <= a < names@.len() ==> #[trigger] listed(ord@, a),
        forall|i: int, j: int|
            0 <= i < j < ord@.len() ==> entry_before(names@, counts@, ord@[i] as int, ord@[j] as int),
{
    let n = names.len();
    let mut ord: Vec<usize> = Vec::new();
    let mut k: usize = 0;
    while k < n
        invariant
            k <= n,
            n == names@.len(),
            names@.len() == counts@.len(),
            forall|i: int, j: int| 0 <= i < j < names@.len() ==> names@[i]@ != names@[j]@,
            ord@.len() == k,
            forall|i: int| 0 <= i < ord@.len() ==> ord@[i] < k,
            forall|a: int| 0 <= a < k ==> #[trigger] listed(ord@, a),
            forall|i: int, j: int|
                0 <= i < j < ord@.len() ==> entry_before(names@, counts@, ord@[i] as int, ord@[j] as int),
        decreases n - k,
    {
        let mut p: usize = 0;
        while p < ord.len() && !(counts[k] > counts[ord[p]] || (counts[k] == counts[ord[p]] && name_lt(&names[k], &names[ord[p]])))
            invariant
                p <= ord@.len(),
                k < n,
                n == names@.len(),
                names@.len() == counts@.len(),
                forall|i: int| 0 <= i < ord@.len() ==> ord@[i] < k,
                forall|q: int| 0 <= q < p ==> !entry_before(names@, counts@, k as int, #[trigger] ord@[q] as int),
            decreases ord@.len() - p,
        {
            p = p + 1;
        }
        let ghost old_ord = ord@;
        ord.insert(p, k);
        proof {
            assert(ord@ == old_ord.insert(p as int, k));
            if p < old_ord.len() {
                assert(entry_before(names@, counts@, k as int, old_ord[p as int] as int));
            }
            assert forall|q: int| 0 <= q < p implies entry_before(names@, counts@, #[trigger] old_ord[q] as int, k as int) by {
                let x = old_ord[q] as int;
                assert(names@[x]@ != names@[k as int]@);
                lemma_ranks_total(counts@[k as int] as int, names@[k as int]@, counts@[x] as int, names@[x]@);
            }
            assert forall|q: int| p < q < old_ord.len() implies entry_before(names@, counts@, k as int, #[trigger] old_ord[q] as int) by {
                let y = old_ord[p as int] as int;
                let z = old_ord[q] as int;
                assert(entry_before(names@, counts@, old_ord[p as int] as int, old_ord[q] as int));
                lemma_ranks_transitive(
                    counts@[k as int] as int, names@[k as int]@,
                    counts@[y] as int, names@[y]@,
                    counts@[z] as int, names@[z]@,
                );
            }
            assert forall|i: int, j: int| 0 <= i < j < ord@.len() implies entry_before(names@, counts@, ord@[i] as int, ord@[j] as int) by {
                if j < p {
                    assert(ord@[i] == old_ord[i] && ord@[j] == old_ord[j]);
                } else if j == p {
                    assert(ord@[i] == old_ord[i]);
                } else if i < p {
                    assert(ord@[i] == old_ord[i] && ord@[j] == old_ord[j - 1]);
                } else if i == p {
                    assert(ord@[j] == old_ord[j - 1]);
                } else {
                    assert(ord@[i] == old_ord[i - 1] && ord@[j] == old_ord[j - 1]);
                }
            }
            assert forall|a: int| 0 <= a < k + 1 implies #[trigger] listed(ord@, a) by {
                if a == k {
                    assert(ord@[p as int] == a);
                } else {
                    assert(listed(old_ord, a));
                    let i = choose|i: int| 0 <= i < old_ord.len() && old_ord[i] == a;
                    if i < p {
                        assert(ord@[i] == a);
                    } else {
                        assert(ord@[i + 1] == a);
                    }
                }
            }
            assert forall|i: int| 0 <= i < ord@.len() implies ord@[i] < k + 1 by {
                if i < p {
                    assert(ord@[i] == old_ord[i]);
                } else if i > p {
                    assert(ord@[i] == old_ord[i - 1]);
                }
            }
        }
        k = k + 1;
    }
    ord
}

/// Some entry of the list is the group `g`.
pub open spec fn lists_group(gs: Seq<GroupCount>, g: Seq<char>) -> bool {
    exists|i: int| 0 <= i < gs.len() && (#[trigger] gs[i]).name@ == g
}

/// The group list of a channel listing, from its (group title, channel
/// count) rows: every group that some title names once, with the total count
/// of the titles that name it (once per mention), largest counts first and
/// then by name.
pub fn tally_groups(rows: &Vec<(String, i64)>) -> (r: Option<Vec<GroupCount>>)
    ensures
        r is Some == tally_fits(mentions(rows_view(rows@))),
        r matches Some(r) ==> forall|i: int|
            0 <= i < r@.len() ==> is_mentioned(mentions(rows_view(rows@)), #[trigger] r@[i].name@)
                && r@[i].count == group_total(mentions(rows_view(rows@)), r@[i].name@),
        r matches Some(r) ==> forall|g: Seq<char>|
            is_mentioned(mentions(rows_view(rows@)), g) ==> #[trigger] lists_group(r@, g),
        r matches Some(r) ==> forall|i: int, j: int|
            0 <= i < j < r@.len() ==> ranks_before(
                r@[i].count as int,
                r@[i].name@,
                r@[j].count as int,
                r@[j].name@,
            ),
{
    let ghost ms = mentions(rows_view(rows@));
    let (names, counts) = match tally(rows) {
        Some(t) => t,
        None => {
            return None;
        },
    };
    let ord = rank_order(&names, &counts);
    let mut out: Vec<GroupCount> = Vec::new();
    let mut i: usize = 0;
    while i < ord.len()
        invariant
            i <= ord@.len(),
            ord@.len() == names@.len(),
            names@.len() == counts@.len(),
            forall|q: int| 0 <= q < ord@.len() ==> ord@[q] < names@.len(),
            forall|a: int, b: int|
                0 <= a < b < ord@.len() ==> entry_before(names@, counts@, ord@[a] as int, ord@[b] as int),
            out@.len() == i,
            forall|q: int|
                0 <= q < i ==> (#[trigger] out@[q]).name@ == names@[ord@[q] as int]@ && out@[q].count
                    == counts@[ord@[q] as int],
        decreases ord@.len() - i,
    {
        let x = ord[i];
        let name = crate::text::string_of(&names[x], 0, names[x].len());
        proof {
            assert(names@[x as int]@.subrange(0, names@[x as int]@.len() as int) =~= names@[x as int]@);
        }
        out.push(GroupCount { name, count: counts[x] });
        i = i + 1;
    }
    proof {
        assert forall|g: Seq<char>| is_mentioned(ms, g) implies #[trigger] lists_group(out@, g) by {
            let a = choose|a: int| 0 <= a < names@.len() && (#[trigger] names@[a])@ == g;
            assert(listed(ord@, a));
            let i = choose|i: int| 0 <= i < ord@.len() && ord@[i] == a;
            assert(out@[i].name@ == g);
        }
        assert forall|i: int| 0 <= i < out@.len() implies is_mentioned(ms, #[trigger] out@[i].name@)
            && out@[i].count == group_total(ms, out@[i].name@) by {
            let x = ord@[i] as int;
            assert(names@[x]@ == out@[i].name@);
        }
        assert forall|i: int, j: int| 0 <= i < j < out@.len() implies ranks_before(
            out@[i].count as int,
            out@[i].name@,
            out@[j].count as int,
            out@[j].name@,
        ) by {
            assert(entry_before(names@, counts@, ord@[i] as int, ord@[j] as int));
        }
    }
    Some(out)
}

} // verus!
