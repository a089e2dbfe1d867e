//! Reading provider replies with `serde_json`.
//!
//! A reply is parsed by `serde_json` and handed over as a [`JsonModel`], the
//! library's own copy of a JSON document; the fields that the sign-in reads
//! are then picked out of it into an [`XtreamReply`].

use vstd::prelude::*;

use crate::xtream::{ItemView, JsonScalar, ReplyView, XtreamItem, XtreamReply};

verus! {

/// A JSON document.
pub enum JsonModel {
    Null,
    Bool(bool),
    /// A number, in the text that `serde_json` prints for it.
    Num(String),
    Str(String),
    Arr(Vec<JsonModel>),
    /// The members of an object, in the order `serde_json` keeps them.
    Obj(Vec<(String, JsonModel)>),
}

/// The meaning of a [`JsonModel`].
pub enum JsonView {
    Null,
    Bool(bool),
    Num(Seq<char>),
    Str(Seq<char>),
    Arr(Seq<JsonView>),
    Obj(Seq<(Seq<char>, JsonView)>),
}

/// The meaning of a JSON document.
pub open spec fn json_view(m: JsonModel) -> JsonView
    decreases m,
{
    match m {
        JsonModel::Null => JsonView::Null,
        JsonModel::Bool(b) => JsonView::Bool(b),
        JsonModel::Num(t) => JsonView::Num(t@),
        JsonModel::Str(s) => JsonView::Str(s@),
        JsonModel::Arr(xs) => JsonView::Arr(
            Seq::new(
                xs@.len(),
                |i: int|
                    if 0 <= i < xs@.len() {
                        json_view(xs@[i])
                    } else {
                        JsonView::Null
                    },
            ),
        ),
        JsonModel::Obj(ms) => JsonView::Obj(
            Seq::new(
                ms@.len(),
                |i: int|
                    if 0 <= i < ms@.len() {
                        (ms@[i].0@, json_view(ms@[i].1))
                    } else {
                        (Seq::<char>::empty(), JsonView::Null)
                    },
            ),
        ),
    }
}

impl View for JsonModel {
    type V = JsonView;

    open spec fn view(&self) -> JsonView {
        json_view(*self)
    }
}

/// `serde_json::Value`, a parsed JSON document (opaque here).
#[verifier::external_type_specification]
#[verifier::external_body]
pub struct ExJsonValue(serde_json::Value);

/// The document that `serde_json` reads from `text`, or `None` when it does
/// not accept the text as JSON.
pub uninterp spec fn json_doc(text: Seq<char>) -> Option<JsonView>;

/// Copies a `serde_json::Value` into a [`JsonModel`], variant for variant
/// (a number as the text of `serde_json::Number`'s `Display`, an object's
/// members in the map's order). Used only by [`parse_json`], whose contract
/// covers both.
#[verifier::external_body]
fn model_of_value(v: serde_json::Value) -> JsonModel {
    match v {
        serde_json::Value::Null => JsonModel::Null,
        serde_json::Value::Bool(b) => JsonModel::Bool(b),
        serde_json::Value::Number(n) => JsonModel::Num(n.to_string()),
        serde_json::Value::String(s) => JsonModel::Str(s),
        serde_json::Value::Array(a) => JsonModel::Arr(a.into_iter().map(model_of_value).collect()),
        serde_json::Value::Object(o) => JsonModel::Obj(o.into_iter().map(|(k, x)| (k, model_of_value(x))).collect()),
    }
}

/// Calls `serde_json::from_str::<serde_json::Value>` and copies the result
/// with [`model_of_value`]. Claimed: the outcome is [`json_doc`] of the text,
/// a function of the text alone (`from_str` is deterministic and reports
/// nesting deeper than its limit as an error).
#[verifier::external_body]
fn parse_json(text: &str) -> (r: Option<JsonModel>)
    ensures
        match r {
            Some(m) => json_doc(text@) == Some(m@),
            None => json_doc(text@) is None,
        },
{
    serde_json::from_str::<serde_json::Value>(text).ok().map(model_of_value)
}

// ---- The fields of a reply ---------------------------------------------------

/// Whether member `i` of `ms` is named `key`.
pub open spec fn named(ms: Seq<(Seq<char>, JsonView)>, key: Seq<char>) -> spec_fn(int) -> bool {
    |i: int| ms[i].0 == key
}

/// The first member named `key` of an object; `None` for a missing key or a
/// value that is not an object.
pub open spec fn member(v: JsonView, key: Seq<char>) -> Option<JsonView> {
    match v {
        JsonView::Obj(ms) => match crate::scan::first_in(0, ms.len() as int, named(ms, key)) {
            Some(i) => Some(ms[i].1),
            None => None,
        },
        _ => None,
    }
}

/// The text of a string or number, else empty.
pub open spec fn scalar_of(v: Option<JsonView>) -> Seq<char> {
    match v {
        Some(JsonView::Str(s)) => s,
        Some(JsonView::Num(t)) => t,
        _ => seq![],
    }
}

/// The text of member `key` of an object (empty when missing or not a scalar).
pub open spec fn field_text(v: JsonView, key: Seq<char>) -> Seq<char> {
    scalar_of(member(v, key))
}

/// The category and stream fields of one list element.
pub open spec fn item_of(v: JsonView) -> ItemView {
    ItemView {
        category_id: field_text(v, "category_id"@),
        category_name: field_text(v, "category_name"@),
        stream_id: field_text(v, "stream_id"@),
        name: field_text(v, "name"@),
        epg_channel_id: field_text(v, "epg_channel_id"@),
        stream_icon: field_text(v, "stream_icon"@),
    }
}

/// What the sign-in reads from a reply: `user_info.auth`, and the fields of
/// each element when the reply is an array.
pub open spec fn reply_of(v: JsonView) -> ReplyView {
    ReplyView {
        auth: match member(v, "user_info"@) {
            Some(ui) => field_text(ui, "auth"@),
            None => seq![],
        },
        items: match v {
            JsonView::Arr(xs) => xs.map_values(|x: JsonView| item_of(x)),
            _ => seq![],
        },
    }
}

fn scalar(v: &JsonModel) -> (r: JsonScalar)
    ensures
        crate::xtream::scalar_text(r) == scalar_of(Some(v@)),
{
    match v {
        JsonModel::Str(s) => JsonScalar::Str(s.clone()),
        JsonModel::Num(t) => JsonScalar::Num(t.clone()),
        _ => JsonScalar::Other,
    }
}

/// The member `key` of an object as a lenient scalar (missing -> `Other`).
fn field(v: &JsonModel, key: &str) -> (r: JsonScalar)
    ensures
        crate::xtream::scalar_text(r) == field_text(v@, key@),
{
    match find_member(v, key) {
        Some(x) => scalar(x),
        None => JsonScalar::Other,
    }
}

fn read_item(v: &JsonModel) -> (r: XtreamItem)
    ensures
        r@ == item_of(v@),
{
    XtreamItem {
        category_id: field(v, "category_id"),
        category_name: field(v, "category_name"),
        stream_id: field(v, "stream_id"),
        name: field(v, "name"),
        epg_channel_id: field(v, "epg_channel_id"),
        stream_icon: field(v, "stream_icon"),
    }
}

/// The fields of a reply that the sign-in reads: `user_info.auth`, and the
/// category and stream fields of each element when the reply is an array.
pub fn read_reply(v: &JsonModel) -> (r: XtreamReply)
    ensures
        r@ == reply_of(v@),
{
    let auth = match v {
        JsonModel::Obj(_) => {
            proof {
                assert(v@ is Obj);
            }
            match find_member(v, "user_info") {
                Some(ui) => field(ui, "auth"),
                None => JsonScalar::Other,
            }
        },
        _ => JsonScalar::Other,
    };
    let mut items: Vec<XtreamItem> = Vec::new();
    if let JsonModel::Arr(xs) = v {
        let ghost sx = match v@ {
            JsonView::Arr(x) => x,
            _ => Seq::<JsonView>::empty(),
        };
        assert(v@ == JsonView::Arr(sx));
        assert forall|t: int| 0 <= t < sx.len() implies #[trigger] sx[t] == json_view(xs@[t]) by {}
        let mut i: usize = 0;
        while i < xs.len()
            invariant
                i <= xs@.len(),
                sx.len() == xs@.len(),
                forall|t: int| 0 <= t < sx.len() ==> #[trigger] sx[t] == json_view(xs@[t]),
                items@.map_values(|it: XtreamItem| it@) == sx.take(i as int).map_values(
                    |x: JsonView| item_of(x),
                ),
            decreases xs@.len() - i,
        {
            let ghost before = items@;
            let it = read_item(&xs[i]);
            items.push(it);
            proof {
                assert(sx[i as int] == xs@[i as int]@);
                assert(sx.take(i + 1) =~= sx.take(i as int).push(sx[i as int]));
                assert(items@.map_values(|it: XtreamItem| it@) =~= before.map_values(
                    |it: XtreamItem| it@,
                ).push(item_of(sx[i as int])));
                assert(sx.take(i + 1).map_values(|x: JsonView| item_of(x)) =~= sx.take(
                    i as int,
                ).map_values(|x: JsonView| item_of(x)).push(item_of(sx[i as int])));
            }
            i = i + 1;
        }
        proof {
            assert(sx.take(sx.len() as int) =~= sx);
        }
    } else {
        proof {
            assert(items@.map_values(|it: XtreamItem| it@) =~= Seq::<ItemView>::empty());
        }
    }
    XtreamReply { auth, items }
}

/// The first member named `key` of an object.
fn find_member<'a>(v: &'a JsonModel, key: &str) -> (r: Option<&'a JsonModel>)
    ensures
        match r {
            Some(x) => member(v@, key@) == Some(x@),
            None => member(v@, key@) is None,
        },
{
    match v {
        JsonModel::Obj(ms) => {
            let ghost sm = match v@ {
                JsonView::Obj(x) => x,
                _ => Seq::<(Seq<char>, JsonView)>::empty(),
            };
            assert(v@ == JsonView::Obj(sm));
            assert forall|t: int| 0 <= t < sm.len() implies #[trigger] sm[t] == (
                ms@[t].0@,
                json_view(ms@[t].1),
            ) by {}
            let wanted = String::from_str(key);
            let mut i: usize = 0;
            while i < ms.len()
                invariant
                    i <= ms@.len(),
                    sm.len() == ms@.len(),
                    v@ == JsonView::Obj(sm),
                    wanted@ == key@,
                    forall|t: int| 0 <= t < sm.len() ==> #[trigger] sm[t] == (ms@[t].0@, json_view(ms@[t].1)),
                    forall|t: int| 0 <= t < i ==> #[trigger] sm[t].0 != key@,
                decreases ms@.len() - i,
            {
                if ms[i].0 == wanted {
                    proof {
                        assert(sm[i as int].0 == key@);
                        assert forall|j: int| 0 <= j < i implies !#[trigger] named(sm, key@)(j) by {
                            assert(sm[j].0 != key@);
                        }
                        crate::scan::lemma_first_in_found(0, sm.len() as int, named(sm, key@), i as int);
                        assert(sm[i as int].1 == ms@[i as int].1@);
                    }
                    return Some(&ms[i].1);
                }
                proof {
                    assert(sm[i as int].0 != key@);
                }
                i = i + 1;
            }
            proof {
                assert forall|j: int| 0 <= j < sm.len() implies !#[trigger] named(sm, key@)(j) by {
                    assert(sm[j].0 != key@);
                }
                crate::scan::lemma_first_in_none(0, sm.len() as int, named(sm, key@));
            }
            None
        },
        _ => None,
    }
}

/// The reply read from `text`, or `None` when `text` is not JSON.
pub fn parse_reply(text: &str) -> (r: Option<XtreamReply>)
    ensures
        match r {
            Some(x) => json_doc(text@) is Some && x@ == reply_of(json_doc(text@)->0),
            None => json_doc(text@) is None,
        },
{
    match parse_json(text) {
        Some(v) => Some(read_reply(&v)),
        None => None,
    }
}

} // verus!
