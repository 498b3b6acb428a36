//! Properties of the client: how replies meet the commands they answer, and how the lines
//! the server writes read back.

use crate::client::protocol::{
    evt_spec, parse_line_spec, word_chat, word_enter, word_err, word_evt, word_global,
    word_group, word_leave, word_ok, word_players, word_presence, word_room, word_stats,
    EvtView, MsgView, QuestReply,
};
use crate::client::state::ChatTab;
use crate::client::tap::{after_sends, step, ClientView, Decoded, QuestView};
use crate::text::{
    all_digits, decimal, digit_char, digits_value, find_char, lemma_find_char, lemma_split_first,
    parse_unsigned, piece, splitn,
};
use vstd::prelude::*;

verus! {

/// The commands of `cmds` that the writer took, in order.
pub open spec fn taken(cmds: Seq<Seq<char>>, sent: Seq<bool>) -> Seq<Seq<char>>
    decreases cmds.len(),
{
    if cmds.len() == 0 || sent.len() != cmds.len() {
        Seq::empty()
    } else if sent.last() {
        taken(cmds.drop_last(), sent.drop_last()).push(cmds.last())
    } else {
        taken(cmds.drop_last(), sent.drop_last())
    }
}

/// Commands wait for their replies in the order they were sent, and the lines handed to the
/// server are exactly the commands the writer took, in order.
pub proof fn law_sent_commands_queue(v: ClientView, cmds: Seq<Seq<char>>, sent: Seq<bool>)
    requires
        sent.len() == cmds.len(),
    ensures
        after_sends(v, cmds, sent).pending == v.pending + taken(cmds, sent),
        after_sends(v, cmds, sent).handed == v.handed + taken(cmds, sent),
    decreases cmds.len(),
{
    if cmds.len() == 0 {
        assert(v.pending + Seq::<Seq<char>>::empty() =~= v.pending);
        assert(v.handed + Seq::<Seq<char>>::empty() =~= v.handed);
    } else {
        law_sent_commands_queue(v, cmds.drop_last(), sent.drop_last());
        let t = taken(cmds.drop_last(), sent.drop_last());
        assert(v.pending + t.push(cmds.last()) =~= (v.pending + t).push(cmds.last()));
        assert(v.handed + t.push(cmds.last()) =~= (v.handed + t).push(cmds.last()));
    }
}

/// Replies answer commands in order: an `OK` or `ERR` reply, but for the disconnection
/// notice (900), takes the oldest waiting command off the queue; events and unreadable lines
/// leave it alone.
pub proof fn law_replies_in_order(v: ClientView, m: MsgView, dec: Decoded)
    ensures
        step(v, m, dec).0.pending == match m {
            MsgView::OkReply(_) => if v.pending.len() > 0 {
                v.pending.drop_first()
            } else {
                v.pending
            },
            MsgView::ErrReply(code, _) => if code != 900 && v.pending.len() > 0 {
                v.pending.drop_first()
            } else {
                v.pending
            },
            _ => v.pending,
        },
{
}


/// Cutting at the first space of `a b`, where `a` has none.
proof fn lemma_digit_char(d: nat)
    requires
        d < 10,
    ensures
        '0' <= digit_char(d) <= '9',
        digit_char(d) as nat - '0' as nat == d,
{
    let t = seq!['0', '1', '2', '3', '4', '5', '6', '7', '8', '9'];
    assert(t[0] == '0' && t[1] == '1' && t[2] == '2' && t[3] == '3' && t[4] == '4');
    assert(t[5] == '5' && t[6] == '6' && t[7] == '7' && t[8] == '8' && t[9] == '9');
}

/// The decimal notation of `n` reads back as `n`.
proof fn lemma_decimal_reads_back(n: nat)
    ensures
        decimal(n).len() > 0,
        all_digits(decimal(n)),
        digits_value(decimal(n)) == n,
        !decimal(n).contains(' '),
        decimal(n)[0] != '+',
    decreases n,
{
    if n < 10 {
        lemma_digit_char(n);
        assert(seq![digit_char(n)].drop_last() =~= Seq::<char>::empty());
        assert(seq![digit_char(n)].last() == digit_char(n));
        assert(digits_value(Seq::<char>::empty()) == 0);
    } else {
        lemma_decimal_reads_back(n / 10);
        lemma_digit_char(n % 10);
        let p = decimal(n / 10);
        assert(decimal(n) == p.push(digit_char(n % 10)));
        assert(p.push(digit_char(n % 10)).drop_last() =~= p);
        assert(decimal(n)[0] == p[0]);
        assert((n / 10) * 10 + n % 10 == n) by (nonlinear_arith);
        assert(digits_value(decimal(n)) == digits_value(p) * 10 + (digit_char(n % 10) as nat - '0' as nat) as nat);
    }
    assert forall|j: int| 0 <= j < decimal(n).len() implies decimal(n)[j] != ' ' by {
        assert('0' <= decimal(n)[j] <= '9');
    }
}

proof fn lemma_no_space_words()
    ensures
        !word_ok().contains(' '),
        !word_err().contains(' '),
        !word_evt().contains(' '),
        !word_room().contains(' '),
        !word_global().contains(' '),
        !word_group().contains(' '),
        !word_presence().contains(' '),
        !word_chat().contains(' '),
        !word_stats().contains(' '),
{
    assert forall|j: int| 0 <= j < word_ok().len() implies word_ok()[j] != ' ' by {}
    assert forall|j: int| 0 <= j < word_err().len() implies word_err()[j] != ' ' by {}
    assert forall|j: int| 0 <= j < word_evt().len() implies word_evt()[j] != ' ' by {}
    assert forall|j: int| 0 <= j < word_room().len() implies word_room()[j] != ' ' by {}
    assert forall|j: int| 0 <= j < word_global().len() implies word_global()[j] != ' ' by {}
    assert forall|j: int| 0 <= j < word_group().len() implies word_group()[j] != ' ' by {}
    assert forall|j: int| 0 <= j < word_presence().len() implies word_presence()[j] != ' ' by {}
    assert forall|j: int| 0 <= j < word_chat().len() implies word_chat()[j] != ' ' by {}
    assert forall|j: int| 0 <= j < word_stats().len() implies word_stats()[j] != ' ' by {}
}

/// An `OK` line reads back as its payload, and an `ERR` line with a code in range as its
/// code and description.
pub proof fn law_replies_read_back(d: Seq<char>, code: nat, desc: Seq<char>)
    requires
        code <= u16::MAX,
    ensures
        parse_line_spec("OK "@ + d) == MsgView::OkReply(d),
        parse_line_spec("ERR "@ + decimal(code) + " "@ + desc) == MsgView::ErrReply(code as u16, desc),
{
    reveal_strlit("OK ");
    reveal_strlit("ERR ");
    reveal_strlit(" ");
    lemma_no_space_words();
    assert("OK "@ + d =~= word_ok() + seq![' '] + d);
    lemma_split_first(word_ok(), d, 2);
    let text = decimal(code) + seq![' '] + desc;
    assert("ERR "@ + decimal(code) + " "@ + desc =~= word_err() + seq![' '] + text);
    lemma_split_first(word_err(), text, 2);
    lemma_decimal_reads_back(code);
    lemma_split_first(decimal(code), desc, 2);
    assert(splitn(text, 2, ' ')[0] == decimal(code));
}


/// The events the server writes read back as what they report: presence, chat in each scope,
/// group news about a player whose name has no space, and the head count.
pub proof fn law_events_read_back(name: Seq<char>, msg: Seq<char>, n: nat)
    requires
        !name.contains(' '),
        n <= u32::MAX,
    ensures
        parse_line_spec("EVT ROOM PRESENCE ENTER "@ + name) == MsgView::Evt(EvtView::Enter(name)),
        parse_line_spec("EVT ROOM PRESENCE LEAVE "@ + name) == MsgView::Evt(EvtView::Leave(name)),
        parse_line_spec("EVT ROOM CHAT "@ + name + " "@ + msg) == MsgView::Evt(
            EvtView::Chat(ChatTab::Room, name, msg),
        ),
        parse_line_spec("EVT GLOBAL CHAT "@ + name + " "@ + msg) == MsgView::Evt(
            EvtView::Chat(ChatTab::Global, name, msg),
        ),
        parse_line_spec("EVT GROUP CHAT "@ + name + " "@ + msg) == MsgView::Evt(
            EvtView::Chat(ChatTab::Group, name, msg),
        ),
        parse_line_spec("EVT GROUP INVITE "@ + name) == MsgView::Evt(EvtView::GroupInvite(name)),
        parse_line_spec("EVT GROUP JOIN "@ + name) == MsgView::Evt(EvtView::GroupJoin(name)),
        parse_line_spec("EVT GROUP LEAVE "@ + name) == MsgView::Evt(EvtView::GroupLeave(name)),
        parse_line_spec("EVT STATS players="@ + decimal(n)) == MsgView::Evt(
            EvtView::PlayerCount(n as u32),
        ),
{
    lemma_no_space_words();
    lemma_presence(name, word_enter(), "EVT ROOM PRESENCE ENTER "@);
    lemma_presence(name, word_leave(), "EVT ROOM PRESENCE LEAVE "@);
    lemma_chat(name, msg, word_room(), "EVT ROOM CHAT "@);
    lemma_chat(name, msg, word_global(), "EVT GLOBAL CHAT "@);
    lemma_chat(name, msg, word_group(), "EVT GROUP CHAT "@);
    lemma_group_news(name, crate::client::protocol::word_invite(), "EVT GROUP INVITE "@);
    lemma_group_news(name, crate::client::protocol::word_join(), "EVT GROUP JOIN "@);
    lemma_group_news(name, word_leave(), "EVT GROUP LEAVE "@);
    lemma_stats(n);
}

proof fn lemma_presence(name: Seq<char>, word: Seq<char>, head: Seq<char>)
    requires
        (word == word_enter() && head == "EVT ROOM PRESENCE ENTER "@) || (word == word_leave()
            && head == "EVT ROOM PRESENCE LEAVE "@),
    ensures
        parse_line_spec(head + name) == MsgView::Evt(
            if word == word_enter() {
                EvtView::Enter(name)
            } else {
                EvtView::Leave(name)
            },
        ),
{
    reveal_strlit("EVT ROOM PRESENCE ENTER ");
    reveal_strlit("EVT ROOM PRESENCE LEAVE ");
    lemma_no_space_words();
    assert(!word.contains(' ')) by {
        assert forall|j: int| 0 <= j < word.len() implies word[j] != ' ' by {}
    }
    let e = word_room() + seq![' '] + (word_presence() + seq![' '] + (word + seq![' '] + name));
    assert(head + name =~= word_evt() + seq![' '] + e);
    lemma_split_first(word_evt(), e, 2);
    lemma_split_first(word_room(), word_presence() + seq![' '] + (word + seq![' '] + name), 4);
    lemma_split_first(word_presence(), word + seq![' '] + name, 3);
    lemma_split_first(word, name, 2);
    let p = splitn(e, 4, ' ');
    assert(p =~= seq![word_room(), word_presence(), word, name]);
    assert(word_enter() != word_leave()) by {
        assert(word_enter()[0] != word_leave()[0]);
    }
}

proof fn lemma_chat(name: Seq<char>, msg: Seq<char>, scope: Seq<char>, head: Seq<char>)
    requires
        !name.contains(' '),
        (scope == word_room() && head == "EVT ROOM CHAT "@) || (scope == word_global() && head
            == "EVT GLOBAL CHAT "@) || (scope == word_group() && head == "EVT GROUP CHAT "@),
    ensures
        parse_line_spec(head + name + " "@ + msg) == MsgView::Evt(
            EvtView::Chat(
                if scope == word_room() {
                    ChatTab::Room
                } else if scope == word_global() {
                    ChatTab::Global
                } else {
                    ChatTab::Group
                },
                name,
                msg,
            ),
        ),
{
    reveal_strlit("EVT ROOM CHAT ");
    reveal_strlit("EVT GLOBAL CHAT ");
    reveal_strlit("EVT GROUP CHAT ");
    reveal_strlit(" ");
    lemma_no_space_words();
    assert(!scope.contains(' '));
    let e = scope + seq![' '] + (word_chat() + seq![' '] + (name + seq![' '] + msg));
    assert(head + name + " "@ + msg =~= word_evt() + seq![' '] + e);
    lemma_split_first(word_evt(), e, 2);
    lemma_split_first(scope, word_chat() + seq![' '] + (name + seq![' '] + msg), 4);
    lemma_split_first(word_chat(), name + seq![' '] + msg, 3);
    lemma_split_first(name, msg, 2);
    let p = splitn(e, 4, ' ');
    assert(p =~= seq![scope, word_chat(), name, msg]);
    assert(word_chat() != word_presence());
    assert(word_room() != word_global());
    assert(word_room() != word_group());
    assert(word_global() != word_group());
}

proof fn lemma_group_news(name: Seq<char>, word: Seq<char>, head: Seq<char>)
    requires
        !name.contains(' '),
        (word == crate::client::protocol::word_invite() && head == "EVT GROUP INVITE "@) || (word
            == crate::client::protocol::word_join() && head == "EVT GROUP JOIN "@) || (word
            == word_leave() && head == "EVT GROUP LEAVE "@),
    ensures
        parse_line_spec(head + name) == MsgView::Evt(
            if word == crate::client::protocol::word_invite() {
                EvtView::GroupInvite(name)
            } else if word == crate::client::protocol::word_join() {
                EvtView::GroupJoin(name)
            } else {
                EvtView::GroupLeave(name)
            },
        ),
{
    reveal_strlit("EVT GROUP INVITE ");
    reveal_strlit("EVT GROUP JOIN ");
    reveal_strlit("EVT GROUP LEAVE ");
    lemma_no_space_words();
    assert(!word.contains(' ')) by {
        assert forall|j: int| 0 <= j < word.len() implies word[j] != ' ' by {}
    }
    let e = word_group() + seq![' '] + (word + seq![' '] + name);
    assert(head + name =~= word_evt() + seq![' '] + e);
    lemma_split_first(word_evt(), e, 2);
    lemma_split_first(word_group(), word + seq![' '] + name, 4);
    lemma_split_first(word, name, 3);
    lemma_find_char(name, ' ');
    assert(splitn(name, 2, ' ') =~= seq![name]);
    let p = splitn(e, 4, ' ');
    assert(p =~= seq![word_group(), word, name]);
    assert(word != word_chat());
    assert(word_group() != word_room());
    assert(crate::client::protocol::word_invite() != crate::client::protocol::word_join());
    assert(crate::client::protocol::word_invite() != word_leave());
    assert(crate::client::protocol::word_join() != word_leave());
}

proof fn lemma_stats(n: nat)
    requires
        n <= u32::MAX,
    ensures
        parse_line_spec("EVT STATS players="@ + decimal(n)) == MsgView::Evt(
            EvtView::PlayerCount(n as u32),
        ),
{
    reveal_strlit("EVT STATS players=");
    lemma_no_space_words();
    lemma_decimal_reads_back(n);
    let b = word_players() + seq!['='] + decimal(n);
    assert(!b.contains(' ')) by {
        assert forall|j: int| 0 <= j < b.len() implies b[j] != ' ' by {
            if j >= word_players().len() + 1 {
                assert(b[j] == decimal(n)[j - word_players().len() - 1]);
            }
        }
    }
    let e = word_stats() + seq![' '] + b;
    assert("EVT STATS players="@ + decimal(n) =~= word_evt() + seq![' '] + e);
    lemma_split_first(word_evt(), e, 2);
    lemma_split_first(word_stats(), b, 4);
    lemma_find_char(b, ' ');
    assert(splitn(b, 3, ' ') =~= seq![b]);
    let p = splitn(e, 4, ' ');
    assert(p =~= seq![word_stats(), b]);
    lemma_find_char(b, '=');
    assert(b[word_players().len() as int] == '=');
    assert forall|j: int| 0 <= j < word_players().len() implies b[j] != '=' by {}
    assert(find_char(b, '=') == word_players().len());
    assert(b.take(word_players().len() as int) =~= word_players());
    assert(b.skip(word_players().len() as int + 1) =~= decimal(n));
    let st = splitn(b, 2, '=');
    let k = find_char(b, '=');
    assert(st == seq![b.take(k)] + splitn(b.skip(k + 1), 1, '='));
    assert(splitn(decimal(n), 1, '=') == seq![decimal(n)]);
    assert(st =~= seq![word_players(), decimal(n)]);
    assert(parse_unsigned(decimal(n), u32::MAX as nat) == Some(n));
    assert(b.len() != word_chat().len());
    assert(word_stats() != word_room());
    assert(word_stats() != word_group());
}


/// A server line sends nothing by itself: only the commands it calls for go to the server,
/// and events, unreadable lines and `ERR` replies call for none.
pub proof fn law_replies_send_only_their_commands(v: ClientView, m: MsgView, dec: Decoded)
    ensures
        step(v, m, dec).0.handed == v.handed,
        (m is Evt || m is Unknown || m is ErrReply) ==> step(v, m, dec).1.len() == 0,
{
}

/// Journal entries keep distinct ids.
pub open spec fn ids_distinct(qs: Seq<QuestView>) -> bool {
    forall|a: int, b: int| 0 <= a < b < qs.len() ==> qs[a].quest_id != qs[b].quest_id
}

/// A reply to `QUEST <npc>` puts the reported entry in the journal, in place of the entry with
/// its id if there is one, else last; the other entries stay, in order, and ids stay distinct.
/// A completed quest makes the client ask for its inventory, and the journal refresh comes
/// after that request.
pub proof fn law_quest_reply(v: ClientView, d: Seq<char>, q: QuestReply)
    requires
        v.pending.len() > 0,
        splitn(v.pending[0], 3, ' ')[0] == "QUEST"@,
        piece(splitn(v.pending[0], 3, ' '), 1) is Some,
        ids_distinct(v.quests),
    ensures
        ({
            let (v1, cmds) = step(v, MsgView::OkReply(d), Decoded::Quest(Some(q)));
            let e = crate::client::tap::quest_view(q);
            let k = crate::client::tap::quest_pos(v.quests, e.quest_id);
            &&& ids_distinct(v1.quests)
            &&& k >= 0 ==> v1.quests == v.quests.update(k, e)
            &&& k < 0 ==> v1.quests == v.quests.push(e)
            &&& cmds == if q.status@ == "completed"@ {
                seq!["INVENTORY"@]
            } else {
                Seq::empty()
            }
            &&& crate::client::tap::sends_after(v, MsgView::OkReply(d), Decoded::Quest(Some(q)))
                == if v1.in_combat {
                cmds
            } else {
                cmds.push("QUESTS"@)
            }
        }),
{
    reveal_strlit("QUEST");
    reveal_strlit("QUESTS");
    reveal_strlit("CONNECT");
    reveal_strlit("MOVE");
    reveal_strlit("TAKE");
    reveal_strlit("DROP");
    reveal_strlit("GROUP");
    reveal_strlit("CHAT");
    reveal_strlit("STATUS");
    reveal_strlit("LOOK");
    reveal_strlit("WHO");
    reveal_strlit("TALK");
    reveal_strlit("INVENTORY");
    reveal_strlit("ATTACK");
    reveal_strlit("DEFEND");
    reveal_strlit("FLEE");
    let w = "QUEST"@;
    assert(w.len() == 5 && w[4] == 'T' && w[0] == 'Q');
    assert(w != "CONNECT"@ && w != "MOVE"@ && w != "TAKE"@ && w != "DROP"@);
    assert(w != "GROUP"@ && "GROUP"@[0] == 'G');
    assert(w != "CHAT"@ && w != "STATUS"@ && w != "LOOK"@ && w != "WHO"@ && w != "TALK"@);
    assert(w != "INVENTORY"@ && w != "ATTACK"@ && w != "DEFEND"@ && w != "FLEE"@);
    assert(w != "QUESTS"@);
    let e = crate::client::tap::quest_view(q);
    crate::client::tap::lemma_quest_pos(v.quests, e.quest_id);
    let k = crate::client::tap::quest_pos(v.quests, e.quest_id);
    let (v1, cmds) = step(v, MsgView::OkReply(d), Decoded::Quest(Some(q)));
    assert(k >= 0 ==> v1.quests == v.quests.update(k, e));
    assert(k < 0 ==> v1.quests == v.quests.push(e));
    law_upsert_keeps_ids_distinct(v.quests, e);
}

/// Reporting a quest keeps the journal's ids distinct: the reported entry takes the place of
/// the entry with its id, or comes last where there is none, and every other entry stays where
/// it was.
pub proof fn law_upsert_keeps_ids_distinct(qs: Seq<QuestView>, q: QuestView)
    requires
        ids_distinct(qs),
    ensures
        ids_distinct(crate::client::tap::upsert_quest(qs, q)),
        crate::client::tap::upsert_quest(qs, q).contains(q),
        crate::client::tap::upsert_quest(qs, q).len() == qs.len() + if crate::client::tap::quest_pos(
            qs,
            q.quest_id,
        ) < 0 {
            1int
        } else {
            0int
        },
        forall|j: int|
            0 <= j < qs.len() && qs[j].quest_id != q.quest_id ==> #[trigger] crate::client::tap::upsert_quest(
                qs,
                q,
            )[j] == qs[j],
{
    crate::client::tap::lemma_quest_pos(qs, q.quest_id);
    let k = crate::client::tap::quest_pos(qs, q.quest_id);
    let u = crate::client::tap::upsert_quest(qs, q);
    if k < 0 {
        assert(u[qs.len() as int] == q);
    } else {
        assert(u[k] == q);
    }
    assert forall|a: int, b: int| 0 <= a < b < u.len() implies u[a].quest_id != u[b].quest_id by {
        if k < 0 && b == qs.len() {
            assert(u[a] == qs[a]);
        } else if k >= 0 && (a == k || b == k) {
            if a == k {
                assert(u[b] == qs[b]);
            } else {
                assert(u[a] == qs[a]);
                assert(qs[a].quest_id != qs[k].quest_id);
            }
        } else {
            assert(u[a] == qs[a]);
            assert(u[b] == qs[b]);
        }
    }
}

/// The journal after the quests of `rs` were reported, one after the other.
pub open spec fn upsert_all(qs: Seq<QuestView>, rs: Seq<QuestView>) -> Seq<QuestView>
    decreases rs.len(),
{
    if rs.len() == 0 {
        qs
    } else {
        crate::client::tap::upsert_quest(upsert_all(qs, rs.drop_last()), rs.last())
    }
}

/// However many quests are reported, in whatever order, the journal never holds two entries
/// with one id, and each reported quest has an entry.
pub proof fn law_journal_ids_stay_distinct(qs: Seq<QuestView>, rs: Seq<QuestView>)
    requires
        ids_distinct(qs),
    ensures
        ids_distinct(upsert_all(qs, rs)),
        forall|k: int|
            0 <= k < rs.len() ==> exists|j: int|
                0 <= j < upsert_all(qs, rs).len() && upsert_all(qs, rs)[j].quest_id
                    == (#[trigger] rs[k]).quest_id,
    decreases rs.len(),
{
    if rs.len() > 0 {
        let init = rs.drop_last();
        law_journal_ids_stay_distinct(qs, init);
        let before = upsert_all(qs, init);
        law_upsert_keeps_ids_distinct(before, rs.last());
        let after = upsert_all(qs, rs);
        assert forall|k: int| 0 <= k < rs.len() implies exists|j: int|
            0 <= j < after.len() && after[j].quest_id == (#[trigger] rs[k]).quest_id by {
            if k == rs.len() - 1 {
                let j = choose|j: int| 0 <= j < after.len() && after[j] == rs.last();
                assert(after[j].quest_id == rs[k].quest_id);
            } else {
                assert(rs[k] == init[k]);
                let j = choose|j: int| 0 <= j < before.len() && before[j].quest_id == init[k].quest_id;
                if before[j].quest_id == rs.last().quest_id {
                    let j2 = choose|j2: int| 0 <= j2 < after.len() && after[j2] == rs.last();
                    assert(after[j2].quest_id == rs[k].quest_id);
                } else {
                    assert(after[j] == before[j]);
                }
            }
        }
    }
}

} // verus!
