//! Decisions of a lobby session: which lobby to join, what a lobby row shows, how room
//! details are stored, how friends are listed, and who is host and in which slot.
//!
//! The calls into the platform (creating and joining lobbies, reading lobby data and
//! friend lists) happen around these functions; they take and give plain values.

use vstd::prelude::*;
use std::collections::VecDeque;
use crate::lobby::{LobbyPlayerTable, SteamID, first_slot};
use crate::text::{str_eq, str_lex_lt, lex_lt, trim_str, is_trimmed, is_white_space, lemma_trimmed_empty, lemma_lex_irreflexive, lemma_lex_total, lemma_lex_transitive};

verus! {

/// Lobby data key under which a host publishes the match key.
pub const MATCH_KEY: &'static str = "matchkey";
/// The match key value of this game's lobbies.
pub const MATCH_VALUE: &'static str = "remake_arena_v1";
/// Lobby data key of the room name.
pub const ROOM_NAME_KEY: &'static str = "room_name";
/// Lobby data key of the room note.
pub const ROOM_NOTE_KEY: &'static str = "room_note";
/// Presence key of the status line that friends see.
pub const PRESENCE_STATUS_KEY: &'static str = "status";
/// Presence key of the join string that gives friends a join button.
pub const PRESENCE_CONNECT_KEY: &'static str = "connect";
/// Name shown for a room that has none.
pub const DEFAULT_ROOM_NAME: &'static str = "未命名房间";
/// Member limit assumed for a lobby that reports none.
pub const DEFAULT_MEMBER_LIMIT: usize = 2;

/// A friend's request to join a lobby, as the platform reports it.
#[derive(Debug, Clone, Copy, PartialEq, Eq, Structural)]
pub struct JoinRequest {
    /// The lobby to join.
    pub lobby: u64,
    /// The friend who asked (may be 0 when unknown).
    pub from: u64,
}

/// Join requests in arrival order.
pub struct JoinRequests {
    queue: VecDeque<JoinRequest>,
}

impl JoinRequests {
    /// The requests waiting, oldest first.
    pub closed spec fn waiting(&self) -> Seq<JoinRequest> {
        self.queue@
    }

    /// No request waiting.
    pub fn new() -> (r: JoinRequests)
        ensures
            r.waiting() == Seq::<JoinRequest>::empty(),
    {
        JoinRequests { queue: VecDeque::new() }
    }

    /// Adds a request behind those waiting.
    pub fn push(&mut self, req: JoinRequest)
        ensures
            final(self).waiting() == old(self).waiting().push(req),
    {
        self.queue.push_back(req);
    }

    /// Takes the oldest waiting request, if any.
    pub fn take(&mut self) -> (r: Option<JoinRequest>)
        ensures
            match r {
                Some(req) => old(self).waiting().len() > 0 && req == old(self).waiting()[0]
                    && final(self).waiting() == old(self).waiting().drop_first(),
                None => old(self).waiting().len() == 0 && final(self).waiting() == old(self).waiting(),
            },
    {
        let r = self.queue.pop_front();
        proof {
            if r is Some {
                assert(self.queue@ =~= old(self).queue@.drop_first());
            }
        }
        r
    }
}

/// A row of the room list: a public lobby as it can be read before joining.
pub struct LobbyInfo {
    pub id: u64,
    /// The host's identity.
    pub owner: u64,
    /// Members who have joined.
    pub members: usize,
    /// Member limit, fixed when the lobby was created.
    pub limit: usize,
    /// Room name.
    pub name: String,
    /// Room note (may be empty).
    pub note: String,
}

/// Builds a room-list row from what the lobby reports: a lobby without a member limit
/// counts as [`DEFAULT_MEMBER_LIMIT`], one without a name as [`DEFAULT_ROOM_NAME`], one
/// without a note as the empty note.
pub fn lobby_info(
    id: u64,
    owner: u64,
    members: usize,
    limit: Option<usize>,
    name: Option<String>,
    note: Option<String>,
) -> (r: LobbyInfo)
    ensures
        r.id == id,
        r.owner == owner,
        r.members == members,
        r.limit == (match limit {
            Some(l) => l,
            None => DEFAULT_MEMBER_LIMIT,
        }),
        r.name@ == (match name {
            Some(n) => n@,
            None => DEFAULT_ROOM_NAME@,
        }),
        r.note@ == (match note {
            Some(n) => n@,
            None => Seq::<char>::empty(),
        }),
{
    let limit = match limit {
        Some(l) => l,
        None => DEFAULT_MEMBER_LIMIT,
    };
    let name = match name {
        Some(n) => n,
        None => DEFAULT_ROOM_NAME.to_owned(),
    };
    let note = match note {
        Some(n) => n,
        None => String::new(),
    };
    LobbyInfo { id, owner, members, limit, name, note }
}

/// Whether a lobby's match key value is this game's.
pub open spec fn is_match(value: Option<String>) -> bool {
    value matches Some(v) && v@ == MATCH_VALUE@
}

/// The first lobby, in the order listed, whose match key value is this game's; `None`
/// when there is none. `values[i]` is the value that lobby `i` publishes under
/// [`MATCH_KEY`], if any.
pub fn pick_matching_lobby(values: &Vec<Option<String>>) -> (r: Option<usize>)
    ensures
        match r {
            Some(i) => i < values@.len() && is_match(values@[i as int]) && forall|j: int|
                0 <= j < i ==> !is_match(#[trigger] values@[j]),
            None => forall|j: int| 0 <= j < values@.len() ==> !is_match(#[trigger] values@[j]),
        },
{
    let n = values.len();
    let mut i: usize = 0;
    while i < n
        invariant
            n == values@.len(),
            i <= n,
            forall|j: int| 0 <= j < i ==> !is_match(#[trigger] values@[j]),
        decreases n - i,
    {
        match &values[i] {
            Some(v) => {
                if str_eq(v.as_str(), MATCH_VALUE) {
                    return Some(i);
                }
            },
            None => {},
        }
        i = i + 1;
    }
    None
}

/// The host's identity: slot 0 of the player table when there is one, else the lobby
/// owner that the platform reports (none when not in a lobby).
pub fn host_steam_id_of(table: Option<&LobbyPlayerTable>, lobby_owner: Option<u64>) -> (r: Option<u64>)
    ensures
        r == (match table {
            Some(t) => if t.slots().len() > 0 {
                Some(t.slots()[0].0)
            } else {
                None
            },
            None => lobby_owner,
        }),
{
    match table {
        Some(t) => {
            let ids = t.identities_in_order();
            if ids.len() > 0 {
                Some(ids[0].1.0)
            } else {
                None
            }
        },
        None => lobby_owner,
    }
}

/// This player's slot: its slot in the player table, or 0 when there is no table or it
/// is not in it.
pub fn my_slot_in(table: Option<&LobbyPlayerTable>, me: SteamID) -> (r: u8)
    ensures
        r == (match table {
            Some(t) => match first_slot(t.slots(), me) {
                Some(k) => k as u8,
                None => 0u8,
            },
            None => 0u8,
        }),
{
    match table {
        Some(t) => match t.slot_of(me) {
            Some(k) => k,
            None => 0,
        },
        None => 0,
    }
}

/// Every `(slot, identity)` pair in slot order, the host's slot 0 included; empty
/// without a table.
pub fn identities_of(table: Option<&LobbyPlayerTable>) -> (r: Vec<(u8, u64)>)
    ensures
        match table {
            Some(t) => r@.len() == t.slots().len() && forall|k: int|
                0 <= k < r@.len() ==> #[trigger] r@[k] == (k as u8, t.slots()[k].0),
            None => r@.len() == 0,
        },
{
    match table {
        Some(t) => {
            let ids = t.identities_in_order();
            let n = ids.len();
            let mut out: Vec<(u8, u64)> = Vec::new();
            let mut k: usize = 0;
            while k < n
                invariant
                    n == ids@.len(),
                    ids@.len() == t.slots().len(),
                    forall|j: int| 0 <= j < ids@.len() ==> #[trigger] ids@[j] == (j as u8, t.slots()[j]),
                    k <= n,
                    out@.len() == k,
                    forall|j: int| 0 <= j < k ==> #[trigger] out@[j] == (j as u8, t.slots()[j].0),
                decreases n - k,
            {
                let (slot, id) = ids[k];
                out.push((slot, id.0));
                k = k + 1;
            }
            out
        },
        None => Vec::new(),
    }
}

/// The room name to store: the given name without leading and trailing white space, or
/// [`DEFAULT_ROOM_NAME`] when nothing else is left.
pub fn room_name_value(name: &str) -> (r: String)
    ensures
        (forall|i: int| 0 <= i < name@.len() ==> is_white_space(#[trigger] name@[i])) ==> r@
            == DEFAULT_ROOM_NAME@,
        !(forall|i: int| 0 <= i < name@.len() ==> is_white_space(#[trigger] name@[i])) ==> is_trimmed(
            name@,
            r@,
        ),
{
    let t = trim_str(name);
    proof {
        lemma_trimmed_empty(name@, t@);
    }
    if t.is_empty() {
        DEFAULT_ROOM_NAME.to_owned()
    } else {
        t.to_owned()
    }
}

/// The room note to store: the given note without leading and trailing white space.
pub fn room_note_value(note: &str) -> (r: String)
    ensures
        is_trimmed(note@, r@),
{
    trim_str(note).to_owned()
}

/// One entry of the invite list.
pub struct FriendInfo {
    pub id: u64,
    /// Display name.
    pub name: String,
    /// Whether the friend can receive an invitation now (online, busy, away...).
    pub online: bool,
    /// Whether the friend is already in the current room.
    pub in_lobby: bool,
}

/// The value of a [`FriendInfo`].
pub struct FriendView {
    pub id: u64,
    pub name: Seq<char>,
    pub online: bool,
    pub in_lobby: bool,
}

impl View for FriendInfo {
    type V = FriendView;

    open spec fn view(&self) -> FriendView {
        FriendView { id: self.id, name: self.name@, online: self.online, in_lobby: self.in_lobby }
    }
}

/// The values of a list of friends.
pub open spec fn friends_view(s: Seq<FriendInfo>) -> Seq<FriendView> {
    s.map_values(|f: FriendInfo| f@)
}

/// A friend's entry: `in_lobby` says whether the friend is among the current room's
/// members.
pub fn friend_info(id: u64, name: String, online: bool, room_members: &Vec<u64>) -> (f: FriendInfo)
    ensures
        f@ == (FriendView { id, name: name@, online, in_lobby: room_members@.contains(id) }),
{
    let n = room_members.len();
    let mut in_lobby = false;
    let mut k: usize = 0;
    while k < n
        invariant
            n == room_members@.len(),
            k <= n,
            in_lobby == room_members@.take(k as int).contains(id),
        decreases n - k,
    {
        proof {
            let t0 = room_members@.take(k as int);
            let t1 = room_members@.take(k as int + 1);
            assert(t1 =~= t0.push(room_members@[k as int]));
            if t0.contains(id) {
                let j = choose|j: int| 0 <= j < t0.len() && t0[j] == id;
                assert(t1[j] == id);
            }
            if room_members@[k as int] == id {
                assert(t1[k as int] == id);
            }
            if t1.contains(id) {
                let j = choose|j: int| 0 <= j < t1.len() && t1[j] == id;
                if j < k {
                    assert(t0[j] == id);
                }
            }
            assert(t1.contains(id) == (t0.contains(id) || room_members@[k as int] == id));
        }
        if room_members[k] == id {
            in_lobby = true;
        }
        k = k + 1;
    }
    proof {
        assert(room_members@.take(n as int) =~= room_members@);
    }
    FriendInfo { id, name, online, in_lobby }
}

/// Invite-list order: online friends first, then by name.
pub open spec fn friend_before(a: FriendView, b: FriendView) -> bool {
    (a.online && !b.online) || (a.online == b.online && lex_lt(a.name, b.name))
}

/// Two entries that the invite-list order does not tell apart.
pub open spec fn same_rank(a: FriendView, b: FriendView) -> bool {
    a.online == b.online && a.name == b.name
}

/// The entries that rank like `x`.
pub open spec fn ranks_like(x: FriendView) -> spec_fn(FriendView) -> bool {
    |f: FriendView| same_rank(f, x)
}

/// A list in invite-list order.
pub open spec fn friends_sorted(s: Seq<FriendView>) -> bool {
    forall|i: int, j: int| 0 <= i < j < s.len() ==> !friend_before(#[trigger] s[j], #[trigger] s[i])
}

/// The invite-list order is a strict weak order: irreflexive, transitive, and any two
/// entries either rank alike or one comes first.
proof fn lemma_friend_order(a: FriendView, b: FriendView, c: FriendView)
    ensures
        !friend_before(a, a),
        friend_before(a, b) ==> !friend_before(b, a) && !same_rank(a, b),
        friend_before(a, b) && friend_before(b, c) ==> friend_before(a, c),
        friend_before(a, b) && same_rank(b, c) ==> friend_before(a, c),
        same_rank(a, b) && friend_before(b, c) ==> friend_before(a, c),
        friend_before(a, b) || friend_before(b, a) || same_rank(a, b),
{
    lemma_lex_irreflexive(a.name);
    lemma_lex_total(a.name, b.name);
    if lex_lt(a.name, b.name) && lex_lt(b.name, c.name) {
        lemma_lex_transitive(a.name, b.name, c.name);
    }
}

/// Inserting an entry before the first entry it comes before keeps a list in order, and
/// within its own rank it lands last.
proof fn lemma_insert_in_order(o: Seq<FriendView>, v: FriendView, p: int)
    requires
        friends_sorted(o),
        0 <= p <= o.len(),
        forall|q: int| 0 <= q < p ==> !friend_before(v, #[trigger] o[q]),
        p < o.len() ==> friend_before(v, o[p]),
    ensures
        friends_sorted(o.insert(p, v)),
        forall|x: FriendView|
            #[trigger] o.insert(p, v).filter(ranks_like(x)) == (if same_rank(v, x) {
                o.filter(ranks_like(x)).push(v)
            } else {
                o.filter(ranks_like(x))
            }),
{
    let n = o.len();
    // Every entry from `p` on comes after `v`.
    assert forall|q: int| p <= q < n implies friend_before(v, #[trigger] o[q]) by {
        if q > p {
            lemma_friend_order(v, o[p], o[q]);
            lemma_friend_order(o[p], o[q], o[q]);
            assert(!friend_before(o[q], o[p]));
        }
    }
    let o2 = o.insert(p, v);
    assert forall|i: int, j: int| 0 <= i < j < o2.len() implies !friend_before(#[trigger] o2[j], #[trigger] o2[i]) by {
        if i < p && j < p {
            assert(o2[i] == o[i] && o2[j] == o[j]);
        } else if i < p && j == p {
            assert(o2[j] == v && o2[i] == o[i]);
        } else if i < p && j > p {
            assert(o2[i] == o[i] && o2[j] == o[j - 1]);
        } else if i == p {
            assert(o2[i] == v && o2[j] == o[j - 1]);
            lemma_friend_order(v, o[j - 1], v);
        } else {
            assert(o2[i] == o[i - 1] && o2[j] == o[j - 1]);
        }
    }
    let head = o.take(p);
    let tail = o.skip(p);
    assert(o =~= head + tail);
    assert(o2 =~= head + seq![v] + tail);
    assert forall|x: FriendView|
        #[trigger] o.insert(p, v).filter(ranks_like(x)) == (if same_rank(v, x) {
            o.filter(ranks_like(x)).push(v)
        } else {
            o.filter(ranks_like(x))
        }) by {
        let pr = ranks_like(x);
        Seq::filter_distributes_over_add(head + seq![v], tail, pr);
        Seq::filter_distributes_over_add(head, seq![v], pr);
        Seq::filter_distributes_over_add(head, tail, pr);
        Seq::<FriendView>::empty().lemma_filter_push(v, pr);
        assert(seq![v] =~= Seq::<FriendView>::empty().push(v));
        assert(Seq::<FriendView>::empty().filter(pr) =~= Seq::<FriendView>::empty()) by {
            reveal(Seq::filter);
        }
        if same_rank(v, x) {
            assert forall|k: int| 0 <= k < tail.len() implies !pr(#[trigger] tail[k]) by {
                assert(tail[k] == o[p + k]);
                lemma_friend_order(v, o[p + k], o[p + k]);
            }
            tail.lemma_all_neg_filter_empty(pr);
            assert(tail.filter(pr) =~= Seq::<FriendView>::empty());
            assert(head.filter(pr) + seq![v] =~= head.filter(pr).push(v));
        }
    }
}

fn friend_before_exec(a: &FriendInfo, b: &FriendInfo) -> (r: bool)
    ensures
        r == friend_before(a@, b@),
{
    (a.online && !b.online) || (a.online == b.online && str_lex_lt(a.name.as_str(), b.name.as_str()))
}

/// The invite list in display order: online friends first, then by name; entries that
/// rank alike keep their relative order (the list is a stable sort of its entries).
pub fn sort_friends(friends: Vec<FriendInfo>) -> (out: Vec<FriendInfo>)
    ensures
        friends_sorted(friends_view(out@)),
        forall|x: FriendView|
            #[trigger] friends_view(out@).filter(ranks_like(x)) == friends_view(friends@).filter(
                ranks_like(x),
            ),
{
    let ghost input = friends_view(friends@);
    let mut rest = friends;
    let mut out: Vec<FriendInfo> = Vec::new();
    let ghost mut i: int = 0;
    proof {
        assert(input.skip(0) =~= input);
        assert forall|x: FriendView| #[trigger] friends_view(out@).filter(ranks_like(x)) == input.take(0).filter(ranks_like(x)) by {
            assert(friends_view(out@) =~= input.take(0));
        }
    }
    while rest.len() > 0
        invariant
            0 <= i <= input.len(),
            friends_view(rest@) == input.skip(i),
            friends_sorted(friends_view(out@)),
            forall|x: FriendView|
                #[trigger] friends_view(out@).filter(ranks_like(x)) == input.take(i).filter(ranks_like(x)),
        decreases rest@.len(),
    {
        let ghost rv = friends_view(rest@);
        let f = rest.remove(0);
        proof {
            assert(rv[0] == f@);
            assert(friends_view(rest@) =~= rv.drop_first());
        }
        let ghost o = friends_view(out@);
        let mut p: usize = 0;
        while p < out.len()
            invariant
                p <= out@.len(),
                o == friends_view(out@),
                forall|q: int| 0 <= q < p ==> !friend_before(f@, #[trigger] o[q]),
            ensures
                p <= out@.len(),
                forall|q: int| 0 <= q < p ==> !friend_before(f@, #[trigger] o[q]),
                p < out@.len() ==> friend_before(f@, o[p as int]),
            decreases out@.len() - p,
        {
            if friend_before_exec(&f, &out[p]) {
                break;
            }
            p = p + 1;
        }
        proof {
            lemma_insert_in_order(o, f@, p as int);
        }
        let ghost fv = f@;
        out.insert(p, f);
        proof {
            assert(friends_view(out@) =~= o.insert(p as int, fv));
            assert(input[i] == fv) by {
                assert(input.skip(i)[0] == input[i]);
            }
            assert(input.take(i + 1) =~= input.take(i).push(fv));
            assert forall|x: FriendView|
                #[trigger] friends_view(out@).filter(ranks_like(x)) == input.take(i + 1).filter(ranks_like(x)) by {
                input.take(i).lemma_filter_push(fv, ranks_like(x));
            }
            assert(friends_view(rest@) =~= input.skip(i + 1));
            i = i + 1;
        }
    }
    proof {
        assert(i == input.len()) by {
            assert(input.skip(i).len() == 0);
        }
        assert(input.take(i) =~= input);
    }
    out
}

} // verus!
