//! The decisions of the channel browser's commands: which sources are
//! accepted, how a playlist is fetched and imported, how a source is
//! refreshed, and what toggling a favorite does.

use vstd::prelude::*;

use crate::playlist::ParsedChannel;
use crate::text::{chars_of, has_prefix, range_has_prefix, string_of, trim, trim_range};
use crate::xtream::{decimal, is_success, push_decimal};

verus! {

broadcast use vstd::string::group_string_axioms;

/// The error for a blank playlist location.
pub open spec fn location_required_msg() -> Seq<char> {
    "a URL or file path is required"@
}

/// The trimmed location of a new M3U source, or an error when it is blank.
pub fn m3u_location(location: &str) -> (r: Result<String, String>)
    ensures
        trim(location@).len() == 0 ==> (r matches Err(e) && e@ == location_required_msg()),
        trim(location@).len() != 0 ==> (r matches Ok(loc) && loc@ == trim(location@)),
{
    let v = chars_of(location);
    let (a, b) = trim_range(&v, 0, v.len());
    proof {
        assert(v@.subrange(0, v@.len() as int) =~= v@);
    }
    if a == b {
        Err(String::from_str("a URL or file path is required"))
    } else {
        Ok(string_of(&v, a, b))
    }
}

/// The kind of an M3U source: `m3u_url` for a location starting with
/// `http`, else `m3u_file`.
pub open spec fn m3u_kind_spec(loc: Seq<char>) -> Seq<char> {
    if has_prefix(loc, "http"@) {
        "m3u_url"@
    } else {
        "m3u_file"@
    }
}

/// See [`m3u_kind_spec`].
pub fn m3u_kind(loc: &str) -> (r: String)
    ensures
        r@ == m3u_kind_spec(loc@),
{
    let v = chars_of(loc);
    let http = chars_of("http");
    proof {
        assert(v@.subrange(0, v@.len() as int) =~= v@);
    }
    if range_has_prefix(&v, 0, v.len(), &http) {
        String::from_str("m3u_url")
    } else {
        String::from_str("m3u_file")
    }
}

/// A playlist location is fetched over HTTP(S) rather than read from a file.
pub open spec fn is_remote_spec(source: Seq<char>) -> bool {
    has_prefix(source, "http://"@) || has_prefix(source, "https://"@)
}

/// See [`is_remote_spec`].
pub fn is_remote(source: &str) -> (r: bool)
    ensures
        r == is_remote_spec(source@),
{
    let v = chars_of(source);
    let http = chars_of("http://");
    let https = chars_of("https://");
    proof {
        assert(v@.subrange(0, v@.len() as int) =~= v@);
    }
    range_has_prefix(&v, 0, v.len(), &http) || range_has_prefix(&v, 0, v.len(), &https)
}

/// The error for a playlist download with an unsuccessful status.
pub open spec fn playlist_http_error_msg(status: u16) -> Seq<char> {
    "HTTP "@ + decimal(status as nat) + " fetching playlist"@
}

/// The playlist text of a download: its body when the status is a success.
pub fn playlist_reply(status: u16, body: String) -> (r: Result<String, String>)
    ensures
        is_success(status) ==> r == Ok::<String, String>(body),
        !is_success(status) ==> (r matches Err(e) && e@ == playlist_http_error_msg(status)),
{
    if 200 <= status && status <= 299 {
        Ok(body)
    } else {
        let mut e = String::from_str("HTTP ");
        push_decimal(&mut e, status);
        e.append(" fetching playlist");
        Err(e)
    }
}

/// The error for a playlist without channels.
pub open spec fn no_channels_msg() -> Seq<char> {
    "no channels found in playlist"@
}

/// The channels of a new M3U source, or an error when the playlist has none.
pub fn playlist_channels(channels: Vec<ParsedChannel>) -> (r: Result<Vec<ParsedChannel>, String>)
    ensures
        channels@.len() == 0 ==> (r matches Err(e) && e@ == no_channels_msg()),
        channels@.len() != 0 ==> r == Ok::<Vec<ParsedChannel>, String>(channels),
{
    if channels.len() == 0 {
        Err(String::from_str("no channels found in playlist"))
    } else {
        Ok(channels)
    }
}

/// How a source is fetched again.
pub enum RefreshVia {
    /// Sign in to the Xtream portal again.
    Xtream,
    /// Download or read the playlist again.
    Playlist,
}

/// The kind `xtream` is refreshed through the portal; every other kind as a playlist.
pub fn refresh_via(kind: &str) -> (r: RefreshVia)
    ensures
        (r is Xtream) == (kind@ == "xtream"@),
{
    let k = String::from_str(kind);
    let x = String::from_str("xtream");
    if k == x {
        RefreshVia::Xtream
    } else {
        RefreshVia::Playlist
    }
}

/// The error for a refresh that yields no channels.
pub open spec fn no_channels_on_refresh_msg() -> Seq<char> {
    "no channels found on refresh"@
}

/// The channels of a refreshed source, or an error when there are none.
pub fn refreshed_channels(channels: Vec<ParsedChannel>) -> (r: Result<Vec<ParsedChannel>, String>)
    ensures
        channels@.len() == 0 ==> (r matches Err(e) && e@ == no_channels_on_refresh_msg()),
        channels@.len() != 0 ==> r == Ok::<Vec<ParsedChannel>, String>(channels),
{
    if channels.len() == 0 {
        Err(String::from_str("no channels found on refresh"))
    } else {
        Ok(channels)
    }
}

/// What toggling a favorite does to the favorites table.
pub enum FavoriteEdit {
    /// Delete the favorite with this url.
    Remove,
    /// Insert (or replace) the favorite.
    Add,
}

/// Toggling a channel that is a favorite removes it; toggling one that is
/// not adds it. The second result tells whether it is a favorite afterwards.
pub fn toggle_favorite_edit(is_favorite: bool) -> (r: (FavoriteEdit, bool))
    ensures
        (r.0 is Remove) == is_favorite,
        r.1 == !is_favorite,
{
    if is_favorite {
        (FavoriteEdit::Remove, false)
    } else {
        (FavoriteEdit::Add, true)
    }
}

/// Tests whether a table's column names include `col`.
pub fn has_column_named(cols: &Vec<String>, col: &str) -> (r: bool)
    ensures
        r == exists|i: int| 0 <= i < cols@.len() && (#[trigger] cols@[i])@ == col@,
{
    let c = String::from_str(col);
    let mut i: usize = 0;
    while i < cols.len()
        invariant
            i <= cols@.len(),
            c@ == col@,
            forall|t: int| 0 <= t < i ==> (#[trigger] cols@[t])@ != col@,
        decreases cols@.len() - i,
    {
        if cols[i] == c {
            return true;
        }
        i = i + 1;
    }
    false
}

} // verus!
