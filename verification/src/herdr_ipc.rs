//! The focused pane as herdr reports it, and what herdr's JSON replies mean.
//!
//! Two sources name the focused pane: the plugin context that herdr hands a
//! keybinding action (`focused_pane_id`, `focused_pane_cwd`, falling back to
//! `workspace_cwd`), and the reply of `herdr pane current`
//! (`.result.pane.pane_id`, `.result.pane.cwd`). Only the visible text of a
//! pane is ever read, never its scrollback.
use vstd::prelude::*;
use crate::classify::{opt_view, trim_chars, trim_spec};
use crate::json::{
    as_str, at_path, get, get_spec, json_error_text, json_of_text, non_empty, parse_json_text,
    str_spec, Json, JsonView,
};
use crate::text::{push_str, str_to_chars, string_from_chars};

verus! {

/// The focused pane: its working directory, its visible text and its id.
#[derive(Debug, Clone, PartialEq, Eq)]
pub struct PaneSnapshot {
    pub cwd: String,
    pub visible_text: String,
    pub pane_id: String,
}

/// Failures of talking to herdr.
#[derive(Debug, Clone, PartialEq, Eq)]
pub enum HerdrIpcError {
    HerdrNotFound,
    PaneCurrentFailed(String),
    InvalidPaneCurrentJson(String),
    MissingPaneId,
    MissingCwd,
    PaneReadFailed { pane_id: String, detail: String },
}

/// The text of an error, as it is shown to the user.
pub open spec fn ipc_message(e: HerdrIpcError) -> Seq<char> {
    match e {
        HerdrIpcError::HerdrNotFound => "herdr not found on PATH"@,
        HerdrIpcError::PaneCurrentFailed(d) => "herdr pane current failed: "@ + d@,
        HerdrIpcError::InvalidPaneCurrentJson(d) => "invalid pane current JSON: "@ + d@,
        HerdrIpcError::MissingPaneId => "pane current JSON missing pane_id"@,
        HerdrIpcError::MissingCwd => "pane current JSON missing cwd"@,
        HerdrIpcError::PaneReadFailed { pane_id, detail } => "herdr pane read "@ + pane_id@
            + " failed: "@ + detail@,
    }
}

impl HerdrIpcError {
    /// The text of the error, as it is shown to the user.
    pub fn message(&self) -> (s: String)
        ensures
            s@ == ipc_message(*self),
    {
        let mut s = String::new();
        match self {
            HerdrIpcError::HerdrNotFound => push_str(&mut s, "herdr not found on PATH"),
            HerdrIpcError::PaneCurrentFailed(d) => {
                push_str(&mut s, "herdr pane current failed: ");
                push_str(&mut s, d.as_str());
            },
            HerdrIpcError::InvalidPaneCurrentJson(d) => {
                push_str(&mut s, "invalid pane current JSON: ");
                push_str(&mut s, d.as_str());
            },
            HerdrIpcError::MissingPaneId => push_str(&mut s, "pane current JSON missing pane_id"),
            HerdrIpcError::MissingCwd => push_str(&mut s, "pane current JSON missing cwd"),
            HerdrIpcError::PaneReadFailed { pane_id, detail } => {
                push_str(&mut s, "herdr pane read ");
                push_str(&mut s, pane_id.as_str());
                push_str(&mut s, " failed: ");
                push_str(&mut s, detail.as_str());
            },
        }
        s
    }
}

/// A string member of `v` that is not empty.
fn non_empty_str(v: Option<&Json>) -> (r: Option<String>)
    ensures
        match non_empty(
            str_spec(
                match v {
                    Some(x) => Some(x@),
                    None => None,
                },
            ),
        ) {
            Some(s) => r matches Some(t) && t@ == s,
            None => r is None,
        },
{
    match as_str(v) {
        Some(s) => {
            if s.as_str().unicode_len() > 0 {
                Some(s.clone())
            } else {
                None
            }
        },
        None => None,
    }
}

/// `text` without the whitespace around it (`str::trim`).
fn trimmed(text: &str) -> (r: String)
    ensures
        r@ == trim_spec(text@),
{
    let v = str_to_chars(text);
    let t = trim_chars(v.as_slice());
    string_from_chars(t.as_slice())
}

/// The focused pane's id and working directory in the plugin context
/// herdr hands an action: `focused_pane_id`, and `focused_pane_cwd`, or
/// `workspace_cwd` when that member is absent; both non-empty strings.
pub open spec fn context_meta_spec(v: JsonView) -> Option<(Seq<char>, Seq<char>)> {
    match non_empty(str_spec(get_spec(v, "focused_pane_id"@))) {
        None => None,
        Some(id) => {
            let c = match get_spec(v, "focused_pane_cwd"@) {
                Some(x) => Some(x),
                None => get_spec(v, "workspace_cwd"@),
            };
            match non_empty(str_spec(c)) {
                Some(cwd) => Some((id, cwd)),
                None => None,
            }
        },
    }
}

/// The pane id and working directory named by the plugin context `raw`
/// (the text of `HERDR_PLUGIN_CONTEXT_JSON`), if it names them.
pub fn parse_plugin_context_meta(raw: Option<&str>) -> (r: Option<(String, String)>)
    ensures
        match raw {
            None => r is None,
            Some(t) => match json_of_text(trim_spec(t@)) {
                None => r is None,
                Some(v) => match context_meta_spec(v) {
                    Some((id, cwd)) => r matches Some((a, b)) && a@ == id && b@ == cwd,
                    None => r is None,
                },
            },
        },
{
    let text = match raw {
        Some(t) => t,
        None => {
            return None;
        },
    };
    let t = trimmed(text);
    let value = match parse_json_text(t.as_str()) {
        Ok(v) => v,
        Err(_) => {
            return None;
        },
    };
    let pane_id = match non_empty_str(get(&value, "focused_pane_id")) {
        Some(id) => id,
        None => {
            return None;
        },
    };
    let c = match get(&value, "focused_pane_cwd") {
        Some(x) => Some(x),
        None => get(&value, "workspace_cwd"),
    };
    match non_empty_str(c) {
        Some(cwd) => Some((pane_id, cwd)),
        None => None,
    }
}

/// What `herdr pane current` answering `json` gives (see [`parse_pane_current`]).
pub open spec fn pane_current_outcome(json: Seq<char>, r: Result<(String, String), HerdrIpcError>) -> bool {
    match json_of_text(trim_spec(json)) {
        None => r matches Err(HerdrIpcError::InvalidPaneCurrentJson(m)) && exists|
            e: Seq<char>,
        |
            m@ == e + ": "@ + trim_spec(json),
        Some(v) => match at_path(v, seq!["result"@, "pane"@]) {
            None => r matches Err(HerdrIpcError::InvalidPaneCurrentJson(m)) && m@
                == "missing .result.pane"@,
            Some(pane) => match non_empty(str_spec(get_spec(pane, "pane_id"@))) {
                None => r == Err::<(String, String), HerdrIpcError>(
                    HerdrIpcError::MissingPaneId,
                ),
                Some(id) => match non_empty(str_spec(get_spec(pane, "cwd"@))) {
                    None => r == Err::<(String, String), HerdrIpcError>(
                        HerdrIpcError::MissingCwd,
                    ),
                    Some(cwd) => r matches Ok((a, b)) && a@ == id && b@ == cwd,
                },
            },
        },
    }
}

/// The pane id and working directory in the reply of `herdr pane current`
/// (`.result.pane.pane_id`, `.result.pane.cwd`). A reply that is not JSON
/// gives `InvalidPaneCurrentJson` with the parser's message, `: ` and the
/// reply; one without `.result.pane`, `InvalidPaneCurrentJson("missing
/// .result.pane")`; an empty or absent id, `MissingPaneId`; an empty or
/// absent directory, `MissingCwd`.
pub fn parse_pane_current(json: &str) -> (r: Result<(String, String), HerdrIpcError>)
    ensures
        pane_current_outcome(json@, r),
{
    let t = trimmed(json);
    let value = match parse_json_text(t.as_str()) {
        Ok(v) => v,
        Err(e) => {
            let mut m = json_error_text(&e);
            let ghost e_text = m@;
            push_str(&mut m, ": ");
            push_str(&mut m, t.as_str());
            assert(m@ == e_text + ": "@ + trim_spec(json@));
            return Err(HerdrIpcError::InvalidPaneCurrentJson(m));
        },
    };
    let ghost path = seq!["result"@, "pane"@];
    proof {
        let v = value@;
        let p1 = seq!["result"@];
        assert(p1.drop_last() =~= Seq::<Seq<char>>::empty());
        assert(path.drop_last() =~= p1);
        assert(at_path(v, Seq::<Seq<char>>::empty()) == Some(v));
        assert(at_path(v, p1) == get_spec(v, "result"@));
        assert(at_path(v, path) == match get_spec(v, "result"@) {
            Some(x) => get_spec(x, "pane"@),
            None => None,
        });
    }
    let pane = match get(&value, "result") {
        Some(res) => get(res, "pane"),
        None => None,
    };
    let pane = match pane {
        Some(p) => p,
        None => {
            let mut m = String::new();
            push_str(&mut m, "missing .result.pane");
            return Err(HerdrIpcError::InvalidPaneCurrentJson(m));
        },
    };
    let pane_id = match non_empty_str(get(pane, "pane_id")) {
        Some(id) => id,
        None => {
            return Err(HerdrIpcError::MissingPaneId);
        },
    };
    match non_empty_str(get(pane, "cwd")) {
        Some(cwd) => Ok((pane_id, cwd)),
        None => Err(HerdrIpcError::MissingCwd),
    }
}

/// The live working directory of a pane in the reply of `herdr pane get`
/// (`.result.pane.foreground_cwd`, a non-empty string).
pub open spec fn foreground_cwd_spec(v: JsonView) -> Option<Seq<char>> {
    non_empty(str_spec(at_path(v, seq!["result"@, "pane"@, "foreground_cwd"@])))
}

/// The live working directory of a pane from the reply of `herdr pane get`,
/// when the reply is JSON and names one; it is preferred to the directory
/// the plugin context or `herdr pane current` gave.
pub fn parse_foreground_cwd(json: &str) -> (r: Option<String>)
    ensures
        match json_of_text(trim_spec(json@)) {
            None => r is None,
            Some(v) => match foreground_cwd_spec(v) {
                Some(c) => r matches Some(s) && s@ == c,
                None => r is None,
            },
        },
{
    let t = trimmed(json);
    let value = match parse_json_text(t.as_str()) {
        Ok(v) => v,
        Err(_) => {
            return None;
        },
    };
    proof {
        crate::json::lemma_at_path3(value@, "result"@, "pane"@, "foreground_cwd"@);
    }
    let found = match get(&value, "result") {
        Some(res) => match get(res, "pane") {
            Some(pane) => get(pane, "foreground_cwd"),
            None => None,
        },
        None => None,
    };
    non_empty_str(found)
}

/// The pane id and working directory that the plugin context `raw` names,
/// if it names them (see [`parse_plugin_context_meta`]).
pub open spec fn plugin_context_of(raw: Option<Seq<char>>) -> Option<(Seq<char>, Seq<char>)> {
    match raw {
        None => None,
        Some(t) => match json_of_text(trim_spec(t)) {
            None => None,
            Some(v) => context_meta_spec(v),
        },
    }
}

/// The live working directory in the reply of `herdr pane get`, if there
/// is a reply and it names one (see [`parse_foreground_cwd`]).
pub open spec fn live_cwd_of(reply: Option<Seq<char>>) -> Option<Seq<char>> {
    match reply {
        None => None,
        Some(j) => match json_of_text(trim_spec(j)) {
            None => None,
            Some(v) => foreground_cwd_spec(v),
        },
    }
}

/// The focused pane's id and working directory. The plugin context
/// `context` wins when it names both; `herdr pane current` is asked only
/// when it does not. So: `Some(Ok(..))` from the context; else `None` while
/// no reply of `herdr pane current` is given (ask it, then call again with
/// its reply), and the meaning of that reply once it is given.
pub fn focused_meta(context: Option<&str>, pane_current_reply: Option<&str>) -> (r: Option<
    Result<(String, String), HerdrIpcError>,
>)
    ensures
        match plugin_context_of(opt_view(context)) {
            Some((id, cwd)) => r matches Some(Ok((a, b))) && a@ == id && b@ == cwd,
            None => match pane_current_reply {
                None => r is None,
                Some(j) => r matches Some(res) && pane_current_outcome(j@, res),
            },
        },
{
    match parse_plugin_context_meta(context) {
        Some(meta) => Some(Ok(meta)),
        None => match pane_current_reply {
            None => None,
            Some(j) => Some(parse_pane_current(j)),
        },
    }
}

/// The snapshot of the pane `meta` names (id, working directory) whose
/// visible text is `visible_text`: the live working directory that the
/// reply of `herdr pane get` names, when there is one, replaces the
/// directory of `meta`.
pub fn focused_snapshot(meta: (String, String), pane_get_reply: Option<&str>, visible_text: String) -> (s:
    PaneSnapshot)
    ensures
        s.pane_id == meta.0,
        s.visible_text == visible_text,
        s.cwd@ == match live_cwd_of(opt_view(pane_get_reply)) {
            Some(c) => c,
            None => meta.1@,
        },
{
    let (pane_id, meta_cwd) = meta;
    let live = match pane_get_reply {
        Some(j) => parse_foreground_cwd(j),
        None => None,
    };
    let cwd = match live {
        Some(c) => c,
        None => meta_cwd,
    };
    PaneSnapshot { cwd, visible_text, pane_id }
}

} // verus!
