//! The AlphaZero sidecar's protocol lines: the `{"ready": true}` handshake,
//! and a reply whose `move` field is a `[from, to]` pair of board indices, or
//! `null` when the position is over.
use vstd::prelude::*;

use crate::board::Move;

verus! {

/// The text `str::trim` leaves: `s` without leading and trailing whitespace.
pub uninterp spec fn trimmed(s: Seq<char>) -> Seq<char>;

/// The items of the `move` array of the JSON object `text`, each read with
/// `Value::as_u64`; `None` where `text` is no JSON, has no `move` field, or
/// that field is no array.
pub uninterp spec fn json_move_items(text: Seq<char>) -> Option<Seq<Option<u64>>>;

/// The `ready` field of the JSON object `text` read with `Value::as_bool`;
/// `None` where `text` is no JSON, has no `ready` field, or it is no boolean.
pub uninterp spec fn json_ready_flag(text: Seq<char>) -> Option<bool>;

/// `str::trim`: the text without leading and trailing whitespace, a function
/// of the text alone.
#[verifier::external_body]
fn trim_text(s: &str) -> (r: &str)
    ensures
        r@ == trimmed(s@),
{
    s.trim()
}

/// `serde_json::from_str` into a `Value`, then `get("move")`, `as_array` and
/// `as_u64` on each item: the `move` items of the reply, a function of the
/// text alone.
#[verifier::external_body]
fn json_move(text: &str) -> (r: Option<Vec<Option<u64>>>)
    ensures
        match r {
            Some(v) => json_move_items(text@) == Some(v@),
            None => json_move_items(text@) is None,
        },
{
    let v = serde_json::from_str::<serde_json::Value>(text).ok()?;
    let items = v.get("move")?.as_array()?;
    Some(items.iter().map(|x| x.as_u64()).collect())
}

/// `serde_json::from_str` into a `Value`, then `get("ready")` and `as_bool`:
/// the handshake flag, a function of the text alone.
#[verifier::external_body]
fn json_ready(text: &str) -> (r: Option<bool>)
    ensures
        r == json_ready_flag(text@),
{
    serde_json::from_str::<serde_json::Value>(text).ok()?.get("ready")?.as_bool()
}

/// The move a reply's `move` items stand for: exactly two items, both
/// non-negative integers, read as the origin and destination indices.
pub open spec fn move_from_items(items: Seq<Option<u64>>) -> Option<Move> {
    if items.len() == 2 && items[0] is Some && items[1] is Some {
        Some(Move { from: items[0]->0 as usize, to: items[1]->0 as usize })
    } else {
        None
    }
}

/// The move a reply's `move` items stand for, if they are a pair of indices.
pub fn move_from_reply(items: &Vec<Option<u64>>) -> (r: Option<Move>)
    ensures
        r == move_from_items(items@),
{
    if items.len() != 2 {
        return None;
    }
    match (items[0], items[1]) {
        (Some(a), Some(b)) => Some(Move { from: a as usize, to: b as usize }),
        _ => None,
    }
}

/// The move of a sidecar reply line, or `None` where the line is no JSON
/// object with a `move` pair of indices (a `null` move: the game is over).
/// The move is not checked against any position here.
pub fn parse_move(resp: &str) -> (r: Option<Move>)
    ensures
        r == match json_move_items(trimmed(resp@)) {
            Some(items) => move_from_items(items),
            None => None,
        },
{
    match json_move(trim_text(resp)) {
        Some(items) => move_from_reply(&items),
        None => None,
    }
}

/// Whether a line from the sidecar is its `{"ready": true}` handshake.
pub fn is_ready_line(line: &str) -> (r: bool)
    ensures
        r == (json_ready_flag(trimmed(line@)) == Some(true)),
{
    match json_ready(trim_text(line)) {
        Some(b) => b,
        None => false,
    }
}

} // verus!
