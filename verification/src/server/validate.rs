//! Checks of a world definition before the server starts: every reference resolves, display
//! names are unambiguous, every room can be reached from the start, and the map has a loop.

use crate::server::world::{
    find_key, has_key, key_pos, lemma_key_pos, table_view, GameWorld, GameWorldView, Item, ItemView, Location, LocationView,
    Npc, NpcView, QuestView,
};
use crate::text::{chars_of, find_text, join2, lemma_text_pos, strs, text};
use vstd::prelude::*;

verus! {

/// `[msg]` where `bad` holds, else nothing.
pub open spec fn check(bad: bool, msg: Seq<char>) -> Seq<Seq<char>> {
    if bad {
        seq![msg]
    } else {
        Seq::empty()
    }
}

/// For each reference of `refs` that is no key of `t`, in order: `head`, the reference and a
/// closing quote.
pub open spec fn unknown_refs<V>(t: Seq<(Seq<char>, V)>, refs: Seq<Seq<char>>, head: Seq<char>) -> Seq<
    Seq<char>,
>
    decreases refs.len(),
{
    if refs.len() == 0 {
        Seq::empty()
    } else {
        let r = unknown_refs(t, refs.drop_last(), head);
        if has_key(t, refs.last()) {
            r
        } else {
            r.push(head + refs.last() + "'"@)
        }
    }
}

/// The exits of room `id` that lead to no room.
pub open spec fn exit_errors(
    locs: Seq<(Seq<char>, LocationView)>,
    id: Seq<char>,
    exits: Seq<(Seq<char>, Seq<char>)>,
) -> Seq<Seq<char>>
    decreases exits.len(),
{
    if exits.len() == 0 {
        Seq::empty()
    } else {
        let r = exit_errors(locs, id, exits.drop_last());
        let (dir, dest) = exits.last();
        if has_key(locs, dest) {
            r
        } else {
            r.push("exit '"@ + dir + "' of '"@ + id + "' points to unknown room '"@ + dest + "'"@)
        }
    }
}

/// What is wrong with room `id`: exits to nowhere, unknown items and unknown NPCs.
pub open spec fn location_errors(w: GameWorldView, id: Seq<char>, loc: LocationView) -> Seq<Seq<char>> {
    exit_errors(w.world.locations, id, loc.exits) + unknown_refs(
        w.items,
        loc.items,
        "room '"@ + id + "' contains unknown item '"@,
    ) + unknown_refs(w.npcs, loc.npcs, "room '"@ + id + "' contains unknown npc '"@)
}

pub open spec fn locations_errors(w: GameWorldView, ls: Seq<(Seq<char>, LocationView)>) -> Seq<
    Seq<char>,
>
    decreases ls.len(),
{
    if ls.len() == 0 {
        Seq::empty()
    } else {
        locations_errors(w, ls.drop_last()) + location_errors(w, ls.last().0, ls.last().1)
    }
}

/// The quests that NPCs offer and that do not exist.
pub open spec fn npcs_errors(w: GameWorldView, ns: Seq<(Seq<char>, NpcView)>) -> Seq<Seq<char>>
    decreases ns.len(),
{
    if ns.len() == 0 {
        Seq::empty()
    } else {
        npcs_errors(w, ns.drop_last()) + unknown_refs(
            w.quests,
            ns.last().1.quests,
            "npc '"@ + ns.last().0 + "' offers unknown quest '"@,
        )
    }
}

/// An optional reference that is no key of `t`.
pub open spec fn opt_ref_error<V>(t: Seq<(Seq<char>, V)>, r: Option<Seq<char>>, head: Seq<char>) -> Seq<
    Seq<char>,
> {
    match r {
        Some(x) => check(!has_key(t, x), head + x + "' does not exist"@),
        None => Seq::empty(),
    }
}

/// What is wrong with quest `id`: an unknown giver, objective or reward.
pub open spec fn quest_errors(w: GameWorldView, id: Seq<char>, q: QuestView) -> Seq<Seq<char>> {
    check(!has_key(w.npcs, q.giver), "quest '"@ + id + "' giver '"@ + q.giver + "' does not exist"@)
        + opt_ref_error(w.items, q.objective.item, "quest '"@ + id + "' objective item '"@)
        + opt_ref_error(w.npcs, q.objective.target, "quest '"@ + id + "' objective target '"@)
        + opt_ref_error(w.npcs, q.objective.deliver_to, "quest '"@ + id + "' deliver_to '"@)
        + check(
        !has_key(w.items, q.reward_item),
        "quest '"@ + id + "' reward item '"@ + q.reward_item + "' does not exist"@,
    )
}

pub open spec fn quests_errors(w: GameWorldView, qs: Seq<(Seq<char>, QuestView)>) -> Seq<Seq<char>>
    decreases qs.len(),
{
    if qs.len() == 0 {
        Seq::empty()
    } else {
        quests_errors(w, qs.drop_last()) + quest_errors(w, qs.last().0, qs.last().1)
    }
}

/// Every dangling reference of the world, in table order.
pub open spec fn reference_errors(w: GameWorldView) -> Seq<Seq<char>> {
    check(
        !has_key(w.world.locations, w.world.start_location),
        "start_location '"@ + w.world.start_location + "' does not exist"@,
    ) + check(
        !has_key(w.world.locations, w.world.respawn_location),
        "respawn_location '"@ + w.world.respawn_location + "' does not exist"@,
    ) + locations_errors(w, w.world.locations) + npcs_errors(w, w.npcs) + quests_errors(
        w,
        w.quests,
    )
}

fn push_unknown_refs<V: View>(
    t: &Vec<(String, V)>,
    refs: &Vec<String>,
    head: &str,
    errors: &mut Vec<String>,
)
    ensures
        strs(final(errors)@) == strs(old(errors)@) + unknown_refs(table_view(t@), strs(refs@), head@),
{
    let ghost e0 = strs(errors@);
    let ghost rs = strs(refs@);
    let mut k: usize = 0;
    assert(rs.take(0) =~= Seq::<Seq<char>>::empty());
    assert(e0 + Seq::<Seq<char>>::empty() =~= e0);
    while k < refs.len()
        invariant
            k <= refs@.len(),
            rs == strs(refs@),
            strs(errors@) == e0 + unknown_refs(table_view(t@), rs.take(k as int), head@),
        decreases refs@.len() - k,
    {
        assert(rs.take(k + 1).drop_last() =~= rs.take(k as int));
        let ghost before = strs(errors@);
        if find_key(t, chars_of(refs[k].as_str()).as_slice()).is_none() {
            let msg = join2(head, refs[k].as_str()).concat("'");
            errors.push(msg);
            assert(strs(errors@) =~= before.push(msg@));
        }
        k = k + 1;
    }
    assert(rs.take(refs@.len() as int) =~= rs);
}


fn push_exit_errors(
    locs: &Vec<(String, Location)>,
    id: &str,
    exits: &Vec<(String, String)>,
    errors: &mut Vec<String>,
)
    ensures
        strs(final(errors)@) == strs(old(errors)@) + exit_errors(
            table_view(locs@),
            id@,
            table_view(exits@),
        ),
{
    let ghost e0 = strs(errors@);
    let ghost xs = table_view(exits@);
    let mut k: usize = 0;
    assert(xs.take(0) =~= Seq::<(Seq<char>, Seq<char>)>::empty());
    assert(e0 + Seq::<Seq<char>>::empty() =~= e0);
    while k < exits.len()
        invariant
            k <= exits@.len(),
            xs == table_view(exits@),
            strs(errors@) == e0 + exit_errors(table_view(locs@), id@, xs.take(k as int)),
        decreases exits@.len() - k,
    {
        assert(xs.take(k + 1).drop_last() =~= xs.take(k as int));
        let ghost before = strs(errors@);
        if find_key(locs, chars_of(exits[k].1.as_str()).as_slice()).is_none() {
            let msg = join2("exit '", exits[k].0.as_str()).concat("' of '").concat(id).concat(
                "' points to unknown room '",
            ).concat(exits[k].1.as_str()).concat("'");
            errors.push(msg);
            assert(strs(errors@) =~= before.push(msg@));
        }
        k = k + 1;
    }
    assert(xs.take(exits@.len() as int) =~= xs);
}

fn push_reference_errors(w: &GameWorld, errors: &mut Vec<String>)
    ensures
        strs(final(errors)@) == strs(old(errors)@) + reference_errors(w@),
{
    let ghost e0 = strs(errors@);
    let ghost v = w@;
    let locs = &w.world.locations;
    if find_key(locs, chars_of(w.world.start_location.as_str()).as_slice()).is_none() {
        errors.push(join2("start_location '", w.world.start_location.as_str()).concat("' does not exist"));
    }
    if find_key(locs, chars_of(w.world.respawn_location.as_str()).as_slice()).is_none() {
        errors.push(
            join2("respawn_location '", w.world.respawn_location.as_str()).concat("' does not exist"),
        );
    }
    let ghost e1 = strs(errors@);
    assert(e1 =~= e0 + check(
        !has_key(v.world.locations, v.world.start_location),
        "start_location '"@ + v.world.start_location + "' does not exist"@,
    ) + check(
        !has_key(v.world.locations, v.world.respawn_location),
        "respawn_location '"@ + v.world.respawn_location + "' does not exist"@,
    ));
    let ghost ls = v.world.locations;
    let mut i: usize = 0;
    assert(ls.take(0) =~= Seq::<(Seq<char>, LocationView)>::empty());
    assert(e1 + Seq::<Seq<char>>::empty() =~= e1);
    while i < locs.len()
        invariant
            i <= locs@.len(),
            v == w@,
            ls == v.world.locations,
            locs@ == w.world.locations@,
            strs(errors@) == e1 + locations_errors(v, ls.take(i as int)),
        decreases locs@.len() - i,
    {
        assert(ls.take(i + 1).drop_last() =~= ls.take(i as int));
        let ghost before = strs(errors@);
        let id = locs[i].0.as_str();
        push_exit_errors(locs, id, &locs[i].1.exits, errors);
        let head = join2("room '", id).concat("' contains unknown item '");
        push_unknown_refs(&w.items, &locs[i].1.items, head.as_str(), errors);
        let head = join2("room '", id).concat("' contains unknown npc '");
        push_unknown_refs(&w.npcs, &locs[i].1.npcs, head.as_str(), errors);
        assert(strs(errors@) =~= before + location_errors(v, ls[i as int].0, ls[i as int].1));
        i = i + 1;
    }
    assert(ls.take(locs@.len() as int) =~= ls);
    let ghost e2 = strs(errors@);
    let ghost ns = v.npcs;
    let mut i: usize = 0;
    assert(ns.take(0) =~= Seq::<(Seq<char>, NpcView)>::empty());
    assert(e2 + Seq::<Seq<char>>::empty() =~= e2);
    while i < w.npcs.len()
        invariant
            i <= w.npcs@.len(),
            v == w@,
            ns == v.npcs,
            strs(errors@) == e2 + npcs_errors(v, ns.take(i as int)),
        decreases w.npcs@.len() - i,
    {
        assert(ns.take(i + 1).drop_last() =~= ns.take(i as int));
        let ghost before = strs(errors@);
        let head = join2("npc '", w.npcs[i].0.as_str()).concat("' offers unknown quest '");
        push_unknown_refs(&w.quests, &w.npcs[i].1.quests, head.as_str(), errors);
        assert(strs(errors@) =~= before + unknown_refs(
            v.quests,
            ns[i as int].1.quests,
            "npc '"@ + ns[i as int].0 + "' offers unknown quest '"@,
        ));
        i = i + 1;
    }
    assert(ns.take(w.npcs@.len() as int) =~= ns);
    let ghost e3 = strs(errors@);
    let ghost qs = v.quests;
    let mut i: usize = 0;
    assert(qs.take(0) =~= Seq::<(Seq<char>, QuestView)>::empty());
    assert(e3 + Seq::<Seq<char>>::empty() =~= e3);
    while i < w.quests.len()
        invariant
            i <= w.quests@.len(),
            v == w@,
            qs == v.quests,
            strs(errors@) == e3 + quests_errors(v, qs.take(i as int)),
        decreases w.quests@.len() - i,
    {
        assert(qs.take(i + 1).drop_last() =~= qs.take(i as int));
        let ghost before = strs(errors@);
        push_quest_errors(w, i, errors);
        i = i + 1;
    }
    assert(qs.take(w.quests@.len() as int) =~= qs);
    assert(strs(errors@) =~= e0 + reference_errors(v));
}

fn push_missing<V: View>(t: &Vec<(String, V)>, r: &Option<String>, head: &str, errors: &mut Vec<String>)
    ensures
        strs(final(errors)@) == strs(old(errors)@) + opt_ref_error(
            table_view(t@),
            crate::text::opt_str(*r),
            head@,
        ),
{
    let ghost before = strs(errors@);
    match r {
        Some(x) => {
            if find_key(t, chars_of(x.as_str()).as_slice()).is_none() {
                let msg = join2(head, x.as_str()).concat("' does not exist");
                errors.push(msg);
                assert(strs(errors@) =~= before.push(msg@));
            } else {
                assert(strs(errors@) =~= before + Seq::<Seq<char>>::empty());
            }
        },
        None => {
            assert(strs(errors@) =~= before + Seq::<Seq<char>>::empty());
        },
    }
}

fn push_quest_errors(w: &GameWorld, i: usize, errors: &mut Vec<String>)
    requires
        i < w.quests@.len(),
    ensures
        strs(final(errors)@) == strs(old(errors)@) + quest_errors(
            w@,
            w@.quests[i as int].0,
            w@.quests[i as int].1,
        ),
{
    let ghost e0 = strs(errors@);
    let id = w.quests[i].0.as_str();
    let q = &w.quests[i].1;
    if find_key(&w.npcs, chars_of(q.giver.as_str()).as_slice()).is_none() {
        errors.push(
            join2("quest '", id).concat("' giver '").concat(q.giver.as_str()).concat("' does not exist"),
        );
    }
    let ghost e1 = strs(errors@);
    push_missing(&w.items, &q.objective.item, join2("quest '", id).concat("' objective item '").as_str(), errors);
    push_missing(&w.npcs, &q.objective.target, join2("quest '", id).concat("' objective target '").as_str(), errors);
    push_missing(&w.npcs, &q.objective.deliver_to, join2("quest '", id).concat("' deliver_to '").as_str(), errors);
    let ghost e4 = strs(errors@);
    if find_key(&w.items, chars_of(q.reward.item.as_str()).as_slice()).is_none() {
        errors.push(
            join2("quest '", id).concat("' reward item '").concat(q.reward.item.as_str()).concat(
                "' does not exist",
            ),
        );
    }
    let ghost qv = w@.quests[i as int].1;
    let ghost qid = w@.quests[i as int].0;
    assert(e1 =~= e0 + check(!has_key(w@.npcs, qv.giver), "quest '"@ + qid + "' giver '"@ + qv.giver + "' does not exist"@));
    assert(strs(errors@) =~= e4 + check(
        !has_key(w@.items, qv.reward_item),
        "quest '"@ + qid + "' reward item '"@ + qv.reward_item + "' does not exist"@,
    ));
    assert(strs(errors@) =~= e0 + quest_errors(w@, qid, qv));
}


/// The ids, in order, of the entries of `labels` (id and display name) named `n`.
pub open spec fn ids_named(labels: Seq<(Seq<char>, Seq<char>)>, n: Seq<char>) -> Seq<Seq<char>>
    decreases labels.len(),
{
    if labels.len() == 0 {
        Seq::empty()
    } else {
        let r = ids_named(labels.drop_last(), n);
        if labels.last().1 == n {
            r.push(labels.last().0)
        } else {
            r
        }
    }
}

/// Whether an entry before position `k` is named `n`.
pub open spec fn named_before(labels: Seq<(Seq<char>, Seq<char>)>, k: int, n: Seq<char>) -> bool {
    exists|j: int| 0 <= j < k && #[trigger] labels[j].1 == n
}

/// For each display name shared by several entries among the first `k`, taken where it first
/// occurs: the message that lists the entries' ids.
pub open spec fn clash_errors(labels: Seq<(Seq<char>, Seq<char>)>, kind: Seq<char>, k: nat) -> Seq<
    Seq<char>,
>
    decreases k,
{
    if k == 0 {
        Seq::empty()
    } else {
        let r = clash_errors(labels, kind, (k - 1) as nat);
        let n = labels[k - 1].1;
        let same = ids_named(labels, n);
        if !named_before(labels, k - 1, n) && same.len() > 1 {
            r.push(
                "display name '"@ + n + "' is shared by several "@ + kind + ": "@ + debug_list(same),
            )
        } else {
            r
        }
    }
}

pub open spec fn item_labels(t: Seq<(Seq<char>, ItemView)>) -> Seq<(Seq<char>, Seq<char>)> {
    t.map_values(|e: (Seq<char>, ItemView)| (e.0, e.1.name))
}

pub open spec fn npc_labels(t: Seq<(Seq<char>, NpcView)>) -> Seq<(Seq<char>, Seq<char>)> {
    t.map_values(|e: (Seq<char>, NpcView)| (e.0, e.1.name))
}

/// What `format!("{:?}", v)` writes for a list of strings `v`.
pub uninterp spec fn debug_list(items: Seq<Seq<char>>) -> Seq<char>;

/// Writes a list of strings as `{:?}` does (`format!`): in square brackets, each string quoted
/// and escaped, separated by a comma and a space. The text is a function of the strings alone;
/// no more of it is stated.
#[verifier::external_body]
fn debug_strings(v: &Vec<String>) -> (r: String)
    ensures
        r@ == debug_list(strs(v@)),
{
    format!("{:?}", v)
}

fn push_clash_errors(labels: &Vec<(String, String)>, kind: &str, errors: &mut Vec<String>)
    ensures
        strs(final(errors)@) == strs(old(errors)@) + clash_errors(
            table_view(labels@),
            kind@,
            labels@.len() as nat,
        ),
{
    let ghost e0 = strs(errors@);
    let ghost ls = table_view(labels@);
    let mut k: usize = 0;
    assert(e0 + Seq::<Seq<char>>::empty() =~= e0);
    while k < labels.len()
        invariant
            k <= labels@.len(),
            ls == table_view(labels@),
            strs(errors@) == e0 + clash_errors(ls, kind@, k as nat),
        decreases labels@.len() - k,
    {
        let ghost before = strs(errors@);
        let n = chars_of(labels[k].1.as_str());
        let mut seen_before = false;
        let mut j: usize = 0;
        while j < k
            invariant
                j <= k,
                k < labels@.len(),
                ls == table_view(labels@),
                n@ == ls[k as int].1,
                seen_before == (exists|m: int| 0 <= m < j && #[trigger] ls[m].1 == n@),
            decreases k - j,
        {
            assert(ls[j as int].1 == labels@[j as int].1@);
            if crate::text::same_chars(chars_of(labels[j].1.as_str()).as_slice(), n.as_slice()) {
                seen_before = true;
            }
            j = j + 1;
        }
        assert(seen_before == named_before(ls, k as int, n@));
        if !seen_before {
            let mut same: Vec<String> = Vec::new();
            let mut m: usize = 0;
            assert(ls.take(0) =~= Seq::<(Seq<char>, Seq<char>)>::empty());
            while m < labels.len()
                invariant
                    m <= labels@.len(),
                    ls == table_view(labels@),
                    strs(same@) == ids_named(ls.take(m as int), n@),
                decreases labels@.len() - m,
            {
                assert(ls.take(m + 1).drop_last() =~= ls.take(m as int));
                if crate::text::same_chars(chars_of(labels[m].1.as_str()).as_slice(), n.as_slice()) {
                    let ghost s0 = strs(same@);
                    same.push(labels[m].0.clone());
                    assert(strs(same@) =~= s0.push(ls[m as int].0));
                }
                m = m + 1;
            }
            assert(ls.take(labels@.len() as int) =~= ls);
            if same.len() > 1 {
                let msg = join2("display name '", labels[k].1.as_str()).concat(
                    "' is shared by several ",
                ).concat(kind).concat(": ").concat(debug_strings(&same).as_str());
                errors.push(msg);
                assert(strs(errors@) =~= before.push(msg@));
            }
        }
        k = k + 1;
    }
}

fn item_labels_of(t: &Vec<(String, Item)>) -> (r: Vec<(String, String)>)
    ensures
        table_view(r@) == item_labels(table_view(t@)),
{
    let mut r: Vec<(String, String)> = Vec::new();
    let mut k: usize = 0;
    while k < t.len()
        invariant
            k <= t@.len(),
            table_view(r@) == item_labels(table_view(t@)).take(k as int),
        decreases t@.len() - k,
    {
        let ghost r0 = table_view(r@);
        r.push((t[k].0.clone(), t[k].1.name.clone()));
        assert(table_view(r@) =~= r0.push(item_labels(table_view(t@))[k as int]));
        assert(item_labels(table_view(t@)).take(k + 1) =~= item_labels(table_view(t@)).take(k as int).push(item_labels(table_view(t@))[k as int]));
        k = k + 1;
    }
    assert(item_labels(table_view(t@)).take(t@.len() as int) =~= item_labels(table_view(t@)));
    r
}

fn npc_labels_of(t: &Vec<(String, Npc)>) -> (r: Vec<(String, String)>)
    ensures
        table_view(r@) == npc_labels(table_view(t@)),
{
    let mut r: Vec<(String, String)> = Vec::new();
    let mut k: usize = 0;
    while k < t.len()
        invariant
            k <= t@.len(),
            table_view(r@) == npc_labels(table_view(t@)).take(k as int),
        decreases t@.len() - k,
    {
        let ghost r0 = table_view(r@);
        r.push((t[k].0.clone(), t[k].1.name.clone()));
        assert(table_view(r@) =~= r0.push(npc_labels(table_view(t@))[k as int]));
        assert(npc_labels(table_view(t@)).take(k + 1) =~= npc_labels(table_view(t@)).take(k as int).push(npc_labels(table_view(t@))[k as int]));
        k = k + 1;
    }
    assert(npc_labels(table_view(t@)).take(t@.len() as int) =~= npc_labels(table_view(t@)));
    r
}


/// `seen`, and every room that an exit of a room of `seen` leads to.
pub open spec fn step_rooms(locs: Seq<(Seq<char>, LocationView)>, seen: Set<Seq<char>>) -> Set<
    Seq<char>,
> {
    seen.union(
        Set::new(
            |d: Seq<char>|
                exists|i: int, j: int|
                    #![trigger locs[i].1.exits[j]]
                    0 <= i < locs.len() && seen.contains(locs[i].0) && 0 <= j
                        < locs[i].1.exits.len() && locs[i].1.exits[j].1 == d && has_key(locs, d),
        ),
    )
}

/// The rooms at most `k` moves away from `start`.
pub open spec fn reach(locs: Seq<(Seq<char>, LocationView)>, start: Seq<char>, k: nat) -> Set<
    Seq<char>,
>
    decreases k,
{
    if k == 0 {
        set![start]
    } else {
        step_rooms(locs, reach(locs, start, (k - 1) as nat))
    }
}

/// Whether room `id` can be reached from `start` by following exits.
pub open spec fn reachable(locs: Seq<(Seq<char>, LocationView)>, start: Seq<char>, id: Seq<char>) -> bool {
    exists|k: nat| #[trigger] reach(locs, start, k).contains(id)
}

/// The rooms of `ls` that cannot be reached from `start`.
pub open spec fn unreachable_errors(
    locs: Seq<(Seq<char>, LocationView)>,
    start: Seq<char>,
    ls: Seq<(Seq<char>, LocationView)>,
) -> Seq<Seq<char>>
    decreases ls.len(),
{
    if ls.len() == 0 {
        Seq::empty()
    } else {
        unreachable_errors(locs, start, ls.drop_last()) + check(
            !reachable(locs, start, ls.last().0),
            "room '"@ + ls.last().0 + "' cannot be reached from '"@ + start + "'"@,
        )
    }
}

/// No exit of a room of `sv` leads to an existing room outside `sv`, among the first `n`
/// entries of the table.
pub open spec fn closed_upto(locs: Seq<(Seq<char>, LocationView)>, sv: Seq<Seq<char>>, n: int) -> bool {
    forall|a: int, b: int|
        #![trigger locs[a].1.exits[b]]
        0 <= a < n && sv.contains(locs[a].0) && 0 <= b < locs[a].1.exits.len() && has_key(
            locs,
            locs[a].1.exits[b].1,
        ) ==> sv.contains(locs[a].1.exits[b].1)
}

/// A set of rooms that holds `start` and that no exit leaves holds every room at most `k`
/// moves away.
proof fn lemma_reach_within(
    locs: Seq<(Seq<char>, LocationView)>,
    start: Seq<char>,
    sv: Seq<Seq<char>>,
    k: nat,
)
    requires
        sv.contains(start),
        closed_upto(locs, sv, locs.len() as int),
    ensures
        forall|x: Seq<char>| reach(locs, start, k).contains(x) ==> sv.contains(x),
    decreases k,
{
    if k > 0 {
        lemma_reach_within(locs, start, sv, (k - 1) as nat);
        let prev = reach(locs, start, (k - 1) as nat);
        assert forall|x: Seq<char>| reach(locs, start, k).contains(x) implies sv.contains(x) by {
            if !prev.contains(x) {
                let (i, j) = choose|i: int, j: int|
                    #![trigger locs[i].1.exits[j]]
                    0 <= i < locs.len() && prev.contains(locs[i].0) && 0 <= j
                        < locs[i].1.exits.len() && locs[i].1.exits[j].1 == x && has_key(locs, x);
                assert(sv.contains(locs[i].0));
            }
        }
    }
}

/// A room that an exit of a reachable room leads to is reachable.
proof fn lemma_reach_step(locs: Seq<(Seq<char>, LocationView)>, start: Seq<char>, i: int, j: int)
    requires
        0 <= i < locs.len(),
        0 <= j < locs[i].1.exits.len(),
        reachable(locs, start, locs[i].0),
        has_key(locs, locs[i].1.exits[j].1),
    ensures
        reachable(locs, start, locs[i].1.exits[j].1),
{
    let k = choose|k: nat| #[trigger] reach(locs, start, k).contains(locs[i].0);
    assert(reach(locs, start, k + 1).contains(locs[i].1.exits[j].1));
}

/// Distinct rooms of a table are no more than its entries.
proof fn lemma_rooms_bounded(locs: Seq<(Seq<char>, LocationView)>, sv: Seq<Seq<char>>)
    requires
        sv.no_duplicates(),
        forall|x: Seq<char>| sv.contains(x) ==> has_key(locs, x),
    ensures
        sv.len() <= locs.len(),
{
    let keys = locs.map_values(|e: (Seq<char>, LocationView)| e.0);
    assert forall|x: Seq<char>| sv.to_set().contains(x) implies keys.to_set().contains(x) by {
        assert(sv.contains(x));
        lemma_key_pos(locs, x);
        assert(keys[key_pos(locs, x)] == x);
    }
    sv.unique_seq_to_set();
    keys.lemma_cardinality_of_set();
    vstd::set_lib::lemma_len_subset(sv.to_set(), keys.to_set());
}

/// The rooms that can be reached from `start`, each once.
fn reachable_rooms(locs: &Vec<(String, Location)>, start: &str) -> (seen: Vec<String>)
    requires
        has_key(table_view(locs@), start@),
    ensures
        forall|x: Seq<char>| strs(seen@).contains(x) <==> reachable(table_view(locs@), start@, x),
{
    let ghost ls = table_view(locs@);
    let mut seen: Vec<String> = Vec::new();
    seen.push(String::from_str(start));
    proof {
        assert(strs(seen@) =~= seq![start@]);
        assert(reach(ls, start@, 0).contains(start@));
        assert(strs(seen@)[0] == start@);
    }
    loop
        invariant
            ls == table_view(locs@),
            strs(seen@).no_duplicates(),
            strs(seen@).contains(start@),
            forall|x: Seq<char>| strs(seen@).contains(x) ==> has_key(ls, x),
            forall|x: Seq<char>| strs(seen@).contains(x) ==> reachable(ls, start@, x),
        ensures
            forall|x: Seq<char>| strs(seen@).contains(x) <==> reachable(ls, start@, x),
        decreases ls.len() - seen@.len(),
    {
        proof {
            lemma_rooms_bounded(ls, strs(seen@));
        }
        let ghost sv0 = strs(seen@);
        let ghost n0 = seen@.len();
        let mut changed = false;
        let mut i: usize = 0;
        while i < locs.len()
            invariant
                ls == table_view(locs@),
                i <= locs@.len(),
                strs(seen@).no_duplicates(),
                strs(seen@).contains(start@),
                forall|x: Seq<char>| strs(seen@).contains(x) ==> has_key(ls, x),
                forall|x: Seq<char>| strs(seen@).contains(x) ==> reachable(ls, start@, x),
                sv0.len() == n0,
                seen@.len() >= n0,
                changed ==> seen@.len() > n0,
                !changed ==> strs(seen@) == sv0 && closed_upto(ls, sv0, i as int),
            decreases locs@.len() - i,
        {
            if find_text(&seen, locs[i].0.as_str()).is_some() {
                proof {
                    lemma_text_pos(strs(seen@), ls[i as int].0);
                }
                let exits = &locs[i].1.exits;
                let mut j: usize = 0;
                while j < exits.len()
                    invariant
                        ls == table_view(locs@),
                        i < locs@.len(),
                        exits@ == locs@[i as int].1.exits@,
                        j <= exits@.len(),
                        strs(seen@).no_duplicates(),
                        strs(seen@).contains(start@),
                        strs(seen@).contains(ls[i as int].0),
                        forall|x: Seq<char>| strs(seen@).contains(x) ==> has_key(ls, x),
                        forall|x: Seq<char>| strs(seen@).contains(x) ==> reachable(ls, start@, x),
                        sv0.len() == n0,
                        seen@.len() >= n0,
                        changed ==> seen@.len() > n0,
                        !changed ==> strs(seen@) == sv0 && closed_upto(ls, sv0, i as int),
                        !changed ==> forall|b: int|
                            #![trigger ls[i as int].1.exits[b]]
                            0 <= b < j && has_key(ls, ls[i as int].1.exits[b].1) ==> sv0.contains(
                                ls[i as int].1.exits[b].1,
                            ),
                    decreases exits@.len() - j,
                {
                    let dest = exits[j].1.as_str();
                    assert(ls[i as int].1.exits[j as int].1 == dest@);
                    if find_key(locs, chars_of(dest).as_slice()).is_some() {
                        match find_text(&seen, dest) {
                            Some(_) => {
                                proof {
                                    lemma_text_pos(strs(seen@), dest@);
                                }
                            },
                            None => {
                                proof {
                                    lemma_text_pos(strs(seen@), dest@);
                                    lemma_reach_step(ls, start@, i as int, j as int);
                                }
                                let ghost s0 = strs(seen@);
                                seen.push(String::from_str(dest));
                                proof {
                                    assert(strs(seen@) =~= s0.push(dest@));
                                    assert forall|x: Seq<char>| strs(seen@).contains(x) implies x == dest@
                                        || s0.contains(x) by {
                                        let k = choose|k: int| 0 <= k < strs(seen@).len() && strs(seen@)[k] == x;
                                        if k < s0.len() {
                                            assert(s0[k] == x);
                                        }
                                    }
                                    assert(strs(seen@)[s0.len() as int] == dest@);
                                    let w = choose|k: int| 0 <= k < s0.len() && s0[k] == start@;
                                    assert(strs(seen@)[w] == start@);
                                    let w2 = choose|k: int| 0 <= k < s0.len() && s0[k] == ls[i as int].0;
                                    assert(strs(seen@)[w2] == ls[i as int].0);
                                }
                                changed = true;
                            },
                        }
                    }
                    j = j + 1;
                }
            } else {
                proof {
                    lemma_text_pos(strs(seen@), ls[i as int].0);
                }
            }
            i = i + 1;
        }
        if !changed {
            proof {
                assert forall|x: Seq<char>| reachable(ls, start@, x) implies strs(seen@).contains(x) by {
                    let k = choose|k: nat| #[trigger] reach(ls, start@, k).contains(x);
                    lemma_reach_within(ls, start@, sv0, k);
                }
            }
            break;
        }
        proof {
            lemma_rooms_bounded(ls, strs(seen@));
        }
    }
    seen
}


/// The connections, as unordered pairs of distinct existing rooms, that the exits of room `id`
/// make.
pub open spec fn exit_edges(
    locs: Seq<(Seq<char>, LocationView)>,
    id: Seq<char>,
    exits: Seq<(Seq<char>, Seq<char>)>,
) -> Seq<Set<Seq<char>>>
    decreases exits.len(),
{
    if exits.len() == 0 {
        Seq::empty()
    } else {
        let r = exit_edges(locs, id, exits.drop_last());
        let d = exits.last().1;
        if id != d && has_key(locs, d) {
            r.push(set![id, d])
        } else {
            r
        }
    }
}

/// The connections that the exits of the rooms of `ls` make, repeats included.
pub open spec fn all_edges(locs: Seq<(Seq<char>, LocationView)>, ls: Seq<(Seq<char>, LocationView)>) -> Seq<
    Set<Seq<char>>,
>
    decreases ls.len(),
{
    if ls.len() == 0 {
        Seq::empty()
    } else {
        all_edges(locs, ls.drop_last()) + exit_edges(locs, ls.last().0, ls.last().1.exits)
    }
}

/// The map has a loop: it has at least as many distinct connections between two rooms as
/// it has rooms, which a map without a circuit never has.
pub open spec fn has_loop(locs: Seq<(Seq<char>, LocationView)>) -> bool {
    all_edges(locs, locs).to_set().len() >= locs.len()
}

pub open spec fn pair_sets(v: Seq<(String, String)>) -> Seq<Set<Seq<char>>> {
    v.map_values(|p: (String, String)| set![p.0@, p.1@])
}

proof fn lemma_pair_eq(a: Seq<char>, b: Seq<char>, c: Seq<char>, d: Seq<char>)
    ensures
        (set![a, b] == set![c, d]) <==> ((a == c && b == d) || (a == d && b == c)),
{
    if set![a, b] == set![c, d] {
        assert(set![c, d].contains(a));
        assert(set![c, d].contains(b));
        assert(set![a, b].contains(c));
        assert(set![a, b].contains(d));
    }
    if (a == c && b == d) || (a == d && b == c) {
        assert(set![a, b] =~= set![c, d]);
    }
}

fn has_pair(found: &Vec<(String, String)>, a: &str, b: &str) -> (r: bool)
    ensures
        r == pair_sets(found@).contains(set![a@, b@]),
{
    let ghost ps = pair_sets(found@);
    let ca = chars_of(a);
    let cb = chars_of(b);
    let mut k: usize = 0;
    while k < found.len()
        invariant
            k <= found@.len(),
            ps == pair_sets(found@),
            ca@ == a@,
            cb@ == b@,
            forall|m: int| 0 <= m < k ==> ps[m] != set![a@, b@],
        decreases found@.len() - k,
    {
        let x = chars_of(found[k].0.as_str());
        let y = chars_of(found[k].1.as_str());
        proof {
            lemma_pair_eq(found@[k as int].0@, found@[k as int].1@, a@, b@);
        }
        if (crate::text::same_chars(x.as_slice(), ca.as_slice()) && crate::text::same_chars(
            y.as_slice(),
            cb.as_slice(),
        )) || (crate::text::same_chars(x.as_slice(), cb.as_slice()) && crate::text::same_chars(
            y.as_slice(),
            ca.as_slice(),
        )) {
            assert(ps[k as int] == set![a@, b@]);
            return true;
        }
        k = k + 1;
    }
    false
}

/// How many distinct connections the map has.
fn edge_count(locs: &Vec<(String, Location)>) -> (r: usize)
    ensures
        r == all_edges(table_view(locs@), table_view(locs@)).to_set().len(),
{
    let ghost ls = table_view(locs@);
    let mut found: Vec<(String, String)> = Vec::new();
    let mut i: usize = 0;
    assert(ls.take(0) =~= Seq::<(Seq<char>, LocationView)>::empty());
    while i < locs.len()
        invariant
            ls == table_view(locs@),
            i <= locs@.len(),
            pair_sets(found@).no_duplicates(),
            forall|x: Set<Seq<char>>|
                pair_sets(found@).contains(x) <==> all_edges(ls, ls.take(i as int)).contains(x),
        decreases locs@.len() - i,
    {
        let id = locs[i].0.as_str();
        let exits = &locs[i].1.exits;
        let ghost xs = ls[i as int].1.exits;
        let ghost base = all_edges(ls, ls.take(i as int));
        let mut j: usize = 0;
        assert(xs.take(0) =~= Seq::<(Seq<char>, Seq<char>)>::empty());
        assert(base + Seq::<Set<Seq<char>>>::empty() =~= base);
        while j < exits.len()
            invariant
                ls == table_view(locs@),
                i < locs@.len(),
                id@ == ls[i as int].0,
                xs == ls[i as int].1.exits,
                exits@ == locs@[i as int].1.exits@,
                xs == table_view(exits@),
                j <= exits@.len(),
                pair_sets(found@).no_duplicates(),
                forall|x: Set<Seq<char>>|
                    pair_sets(found@).contains(x) <==> (base + exit_edges(ls, id@, xs.take(j as int))).contains(x),
            decreases exits@.len() - j,
        {
            let dest = exits[j].1.as_str();
            let ghost before = base + exit_edges(ls, id@, xs.take(j as int));
            assert(xs.take(j + 1).drop_last() =~= xs.take(j as int));
            assert(xs.take(j + 1).last().1 == dest@);
            if !crate::text::same_chars(chars_of(id).as_slice(), chars_of(dest).as_slice())
                && find_key(locs, chars_of(dest).as_slice()).is_some() {
                let ghost e = set![id@, dest@];
                assert(base + exit_edges(ls, id@, xs.take(j + 1)) =~= before.push(e));
                if !has_pair(&found, id, dest) {
                    let ghost f0 = pair_sets(found@);
                    found.push((String::from_str(id), String::from_str(dest)));
                    assert(pair_sets(found@) =~= f0.push(e));
                    assert forall|x: Set<Seq<char>>|
                        pair_sets(found@).contains(x) <==> before.push(e).contains(x) by {
                        if pair_sets(found@).contains(x) {
                            let k = choose|k: int| 0 <= k < pair_sets(found@).len() && pair_sets(found@)[k] == x;
                            if k < f0.len() {
                                assert(f0[k] == x);
                                assert(f0.contains(x));
                                assert(before.contains(x));
                                let m = choose|m: int| 0 <= m < before.len() && before[m] == x;
                                assert(before.push(e)[m] == x);
                            } else {
                                assert(x == e);
                                assert(before.push(e)[before.len() as int] == e);
                            }
                        }
                        if before.push(e).contains(x) {
                            let k = choose|k: int| 0 <= k < before.push(e).len() && before.push(e)[k] == x;
                            if k < before.len() {
                                assert(before[k] == x);
                                assert(before.contains(x));
                                assert(f0.contains(x));
                                let m = choose|m: int| 0 <= m < f0.len() && f0[m] == x;
                                assert(pair_sets(found@)[m] == x);
                            } else {
                                assert(pair_sets(found@)[f0.len() as int] == x);
                            }
                        }
                    }
                } else {
                    assert forall|x: Set<Seq<char>>|
                        pair_sets(found@).contains(x) <==> before.push(e).contains(x) by {
                        if pair_sets(found@).contains(x) {
                            assert(before.contains(x));
                            let k = choose|k: int| 0 <= k < before.len() && before[k] == x;
                            assert(before.push(e)[k] == x);
                        }
                        if before.push(e).contains(x) {
                            let k = choose|k: int| 0 <= k < before.push(e).len() && before.push(e)[k] == x;
                            if k < before.len() {
                                assert(before[k] == x);
                            }
                        }
                    }
                }
            } else {
                assert(base + exit_edges(ls, id@, xs.take(j + 1)) =~= before);
            }
            j = j + 1;
        }
        assert(xs.take(exits@.len() as int) =~= xs);
        assert(ls.take(i + 1).drop_last() =~= ls.take(i as int));
        assert(ls.take(i + 1).last() == ls[i as int]);
        i = i + 1;
    }
    assert(ls.take(locs@.len() as int) =~= ls);
    proof {
        let ps = pair_sets(found@);
        assert(ps.to_set() =~= all_edges(ls, ls).to_set());
        ps.unique_seq_to_set();
    }
    found.len()
}


/// Everything wrong with a world definition, in this order: dangling references, display
/// names shared by items, then by NPCs, rooms that cannot be reached from the start (where the
/// start exists), and a map without a loop. The world is fit to serve when there is nothing.
pub open spec fn world_errors(w: GameWorldView) -> Seq<Seq<char>> {
    let locs = w.world.locations;
    let start = w.world.start_location;
    reference_errors(w) + clash_errors(item_labels(w.items), "items"@, w.items.len()) + clash_errors(
        npc_labels(w.npcs),
        "npcs"@,
        w.npcs.len(),
    ) + (if has_key(locs, start) {
        unreachable_errors(locs, start, locs)
    } else {
        Seq::empty()
    }) + check(
        locs.len() > 0 && !has_loop(locs),
        "world map has no loop: a full circuit must be possible (line-only maps are not allowed)"@,
    )
}

/// Lists every problem of a world definition; the server must not start on a world with any.
pub fn validate_world(w: &GameWorld) -> (errors: Vec<String>)
    ensures
        strs(errors@) == world_errors(w@),
{
    let ghost v = w@;
    let mut errors: Vec<String> = Vec::new();
    assert(strs(errors@) =~= Seq::<Seq<char>>::empty());
    push_reference_errors(w, &mut errors);
    assert(strs(errors@) =~= reference_errors(v));
    let labels = item_labels_of(&w.items);
    push_clash_errors(&labels, "items", &mut errors);
    let labels = npc_labels_of(&w.npcs);
    push_clash_errors(&labels, "npcs", &mut errors);
    let ghost e2 = strs(errors@);
    let locs = &w.world.locations;
    let start = w.world.start_location.as_str();
    let ghost ls = v.world.locations;
    if find_key(locs, chars_of(start).as_slice()).is_some() {
        let seen = reachable_rooms(locs, start);
        let mut i: usize = 0;
        assert(ls.take(0) =~= Seq::<(Seq<char>, LocationView)>::empty());
        assert(e2 + Seq::<Seq<char>>::empty() =~= e2);
        while i < locs.len()
            invariant
                i <= locs@.len(),
                v == w@,
                ls == v.world.locations,
                locs@ == w.world.locations@,
                start@ == v.world.start_location,
                forall|x: Seq<char>| strs(seen@).contains(x) <==> reachable(ls, start@, x),
                strs(errors@) == e2 + unreachable_errors(ls, start@, ls.take(i as int)),
            decreases locs@.len() - i,
        {
            assert(ls.take(i + 1).drop_last() =~= ls.take(i as int));
            let ghost before = strs(errors@);
            let id = locs[i].0.as_str();
            proof {
                lemma_text_pos(strs(seen@), id@);
            }
            if find_text(&seen, id).is_none() {
                let msg = join2("room '", id).concat("' cannot be reached from '").concat(start).concat("'");
                errors.push(msg);
                assert(strs(errors@) =~= before.push(msg@));
            } else {
                assert(strs(errors@) =~= before + Seq::<Seq<char>>::empty());
            }
            i = i + 1;
        }
        assert(ls.take(locs@.len() as int) =~= ls);
    } else {
        assert(strs(errors@) =~= e2 + Seq::<Seq<char>>::empty());
    }
    let ghost e3 = strs(errors@);
    if locs.len() > 0 && edge_count(locs) < locs.len() {
        errors.push(
            text(
                "world map has no loop: a full circuit must be possible (line-only maps are not allowed)",
            ),
        );
    }
    assert(strs(errors@) =~= world_errors(v));
    errors
}


/// Every reference of the world names something that exists: the start and respawn rooms,
/// the rooms exits lead to, the items and NPCs placed in rooms, the quests NPCs offer, and
/// each quest's giver, objective and reward.
pub open spec fn references_resolve(w: GameWorldView) -> bool {
    let locs = w.world.locations;
    &&& has_key(locs, w.world.start_location)
    &&& has_key(locs, w.world.respawn_location)
    &&& forall|i: int, j: int|
        0 <= i < locs.len() && 0 <= j < locs[i].1.exits.len() ==> has_key(
            locs,
            #[trigger] locs[i].1.exits[j].1,
        )
    &&& forall|i: int, j: int|
        0 <= i < locs.len() && 0 <= j < locs[i].1.items.len() ==> has_key(
            w.items,
            #[trigger] locs[i].1.items[j],
        )
    &&& forall|i: int, j: int|
        0 <= i < locs.len() && 0 <= j < locs[i].1.npcs.len() ==> has_key(
            w.npcs,
            #[trigger] locs[i].1.npcs[j],
        )
    &&& forall|i: int, j: int|
        0 <= i < w.npcs.len() && 0 <= j < w.npcs[i].1.quests.len() ==> has_key(
            w.quests,
            #[trigger] w.npcs[i].1.quests[j],
        )
    &&& forall|i: int| 0 <= i < w.quests.len() ==> quest_refs_resolve(w, #[trigger] w.quests[i].1)
}

pub open spec fn quest_refs_resolve(w: GameWorldView, q: QuestView) -> bool {
    &&& has_key(w.npcs, q.giver)
    &&& (q.objective.item matches Some(x) ==> has_key(w.items, x))
    &&& (q.objective.target matches Some(x) ==> has_key(w.npcs, x))
    &&& (q.objective.deliver_to matches Some(x) ==> has_key(w.npcs, x))
    &&& has_key(w.items, q.reward_item)
}

proof fn lemma_unknown_refs_empty<V>(t: Seq<(Seq<char>, V)>, refs: Seq<Seq<char>>, head: Seq<char>)
    ensures
        unknown_refs(t, refs, head).len() == 0 <==> forall|j: int|
            0 <= j < refs.len() ==> has_key(t, #[trigger] refs[j]),
    decreases refs.len(),
{
    if refs.len() > 0 {
        lemma_unknown_refs_empty(t, refs.drop_last(), head);
        assert forall|j: int| 0 <= j < refs.len() - 1 implies refs.drop_last()[j] == refs[j] by {}
    }
}

proof fn lemma_exit_errors_empty(
    locs: Seq<(Seq<char>, LocationView)>,
    id: Seq<char>,
    exits: Seq<(Seq<char>, Seq<char>)>,
)
    ensures
        exit_errors(locs, id, exits).len() == 0 <==> forall|j: int|
            0 <= j < exits.len() ==> has_key(locs, #[trigger] exits[j].1),
    decreases exits.len(),
{
    if exits.len() > 0 {
        lemma_exit_errors_empty(locs, id, exits.drop_last());
        assert forall|j: int| 0 <= j < exits.len() - 1 implies exits.drop_last()[j] == exits[j] by {}
    }
}

proof fn lemma_locations_errors_empty(w: GameWorldView, ls: Seq<(Seq<char>, LocationView)>)
    ensures
        locations_errors(w, ls).len() == 0 <==> (forall|i: int, j: int|
            0 <= i < ls.len() && 0 <= j < ls[i].1.exits.len() ==> has_key(
                w.world.locations,
                #[trigger] ls[i].1.exits[j].1,
            )) && (forall|i: int, j: int|
            0 <= i < ls.len() && 0 <= j < ls[i].1.items.len() ==> has_key(
                w.items,
                #[trigger] ls[i].1.items[j],
            )) && (forall|i: int, j: int|
            0 <= i < ls.len() && 0 <= j < ls[i].1.npcs.len() ==> has_key(
                w.npcs,
                #[trigger] ls[i].1.npcs[j],
            )),
    decreases ls.len(),
{
    if ls.len() > 0 {
        let n = ls.len() - 1;
        let (id, loc) = ls.last();
        lemma_locations_errors_empty(w, ls.drop_last());
        lemma_exit_errors_empty(w.world.locations, id, loc.exits);
        lemma_unknown_refs_empty(w.items, loc.items, "room '"@ + id + "' contains unknown item '"@);
        lemma_unknown_refs_empty(w.npcs, loc.npcs, "room '"@ + id + "' contains unknown npc '"@);
        assert forall|i: int| 0 <= i < n implies ls.drop_last()[i] == ls[i] by {}
        assert(ls[n] == ls.last());
    }
}

proof fn lemma_npcs_errors_empty(w: GameWorldView, ns: Seq<(Seq<char>, NpcView)>)
    ensures
        npcs_errors(w, ns).len() == 0 <==> forall|i: int, j: int|
            0 <= i < ns.len() && 0 <= j < ns[i].1.quests.len() ==> has_key(
                w.quests,
                #[trigger] ns[i].1.quests[j],
            ),
    decreases ns.len(),
{
    if ns.len() > 0 {
        let n = ns.len() - 1;
        lemma_npcs_errors_empty(w, ns.drop_last());
        lemma_unknown_refs_empty(
            w.quests,
            ns.last().1.quests,
            "npc '"@ + ns.last().0 + "' offers unknown quest '"@,
        );
        assert forall|i: int| 0 <= i < n implies ns.drop_last()[i] == ns[i] by {}
        assert(ns[n] == ns.last());
    }
}

proof fn lemma_quests_errors_empty(w: GameWorldView, qs: Seq<(Seq<char>, QuestView)>)
    ensures
        quests_errors(w, qs).len() == 0 <==> forall|i: int|
            0 <= i < qs.len() ==> quest_refs_resolve(w, #[trigger] qs[i].1),
    decreases qs.len(),
{
    if qs.len() > 0 {
        let n = qs.len() - 1;
        lemma_quests_errors_empty(w, qs.drop_last());
        assert forall|i: int| 0 <= i < n implies qs.drop_last()[i] == qs[i] by {}
        assert(qs[n] == qs.last());
    }
}

/// The reference checks report nothing exactly when every reference resolves; and a world
/// whose tables each hold an id once, and on which validation reports nothing, is one the
/// server can run on.
pub proof fn lemma_checked_world(w: GameWorldView)
    ensures
        reference_errors(w).len() == 0 <==> references_resolve(w),
        crate::server::world::keys_unique(w.world.locations) && crate::server::world::keys_unique(
            w.items,
        ) && crate::server::world::keys_unique(w.npcs) && crate::server::world::keys_unique(
            w.quests,
        ) && world_errors(w).len() == 0 ==> crate::server::game::world_ok(w),
{
    lemma_locations_errors_empty(w, w.world.locations);
    lemma_npcs_errors_empty(w, w.npcs);
    lemma_quests_errors_empty(w, w.quests);
}

} // verus!
