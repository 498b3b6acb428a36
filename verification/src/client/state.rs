//! Client-side display state: rooms, chat tabs and id prettifying.

use std::collections::HashMap;
use crate::text::{chars_from, chars_of, has_prefix, starts_with, string_of};
use vstd::prelude::*;

verus! {

/// The room the player stands in, as the server describes it.
pub struct Room {
    pub id: String,
    pub name: String,
    pub description: String,
    pub exits: HashMap<String, String>,
}

/// The three chat scopes.
#[derive(Default, PartialEq, Eq, Structural, Clone, Copy, Debug)]
pub enum ChatTab {
    Global,
    #[default]
    Room,
    Group,
}

/// `s` with every `from` replaced by `to`.
pub open spec fn replace_char(s: Seq<char>, from: char, to: char) -> Seq<char> {
    s.map_values(|x: char| if x == from { to } else { x })
}

/// An id shown to the player: a `loc.`, `item.` or `npc.` prefix is dropped and underscores
/// become spaces; any other id is shown as it is.
pub open spec fn prettify_spec(id: Seq<char>) -> Seq<char> {
    if has_prefix(id, "loc."@) {
        replace_char(id.skip(4), '_', ' ')
    } else if has_prefix(id, "item."@) {
        replace_char(id.skip(5), '_', ' ')
    } else if has_prefix(id, "npc."@) {
        replace_char(id.skip(4), '_', ' ')
    } else {
        id
    }
}

fn underscores_to_spaces(s: &[char]) -> (r: Vec<char>)
    ensures
        r@ == replace_char(s@, '_', ' '),
{
    let mut r: Vec<char> = Vec::new();
    let mut i: usize = 0;
    while i < s.len()
        invariant
            i <= s@.len(),
            r@ == replace_char(s@.take(i as int), '_', ' '),
        decreases s@.len() - i,
    {
        let c = if s[i] == '_' {
            ' '
        } else {
            s[i]
        };
        r.push(c);
        assert(replace_char(s@.take(i + 1), '_', ' ') =~= replace_char(s@.take(i as int), '_', ' ').push(c));
        i = i + 1;
    }
    assert(s@.take(s@.len() as int) == s@);
    r
}

/// The display form of an id.
pub fn prettify(id: &str) -> (r: String)
    ensures
        r@ == prettify_spec(id@),
{
    let cs = chars_of(id);
    let loc = chars_of("loc.");
    let item = chars_of("item.");
    let npc = chars_of("npc.");
    proof {
        reveal_strlit("loc.");
        reveal_strlit("item.");
        reveal_strlit("npc.");
    }
    if starts_with(cs.as_slice(), loc.as_slice()) {
        string_of(underscores_to_spaces(chars_from(cs.as_slice(), 4).as_slice()).as_slice())
    } else if starts_with(cs.as_slice(), item.as_slice()) {
        string_of(underscores_to_spaces(chars_from(cs.as_slice(), 5).as_slice()).as_slice())
    } else if starts_with(cs.as_slice(), npc.as_slice()) {
        string_of(underscores_to_spaces(chars_from(cs.as_slice(), 4).as_slice()).as_slice())
    } else {
        string_of(cs.as_slice())
    }
}

} // verus!
