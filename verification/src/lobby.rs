//! Lobby member list → player slots.
//!
//! The host always takes slot 0; every other member takes the following slots
//! in ascending order of its stable identity, so every peer derives the same
//! table from the same member list, whatever order the list came in.
//! Slots are `u8` values: the slot of the `i`-th other member (0-based) is
//! `(i + 1) as u8`, so a later member may take over a slot number that wraps
//! around.

use vstd::prelude::*;
use vstd::relations::*;
use vstd::seq_lib::*;
use vstd::multiset::*;
use std::collections::BTreeMap;

verus! {

broadcast use group_to_multiset_ensures;

/// Stable identity of a lobby member (the 64-bit Steam identity).
#[derive(Debug, Clone, Copy, PartialEq, Eq, PartialOrd, Ord, Hash)]
pub struct SteamID(pub u64);

/// Ordering of identities by their numeric value.
pub open spec fn id_order() -> spec_fn(SteamID, SteamID) -> bool {
    |a: SteamID, b: SteamID| a.0 <= b.0
}

/// Whether a member is someone other than the host.
pub open spec fn not_host(host: SteamID) -> spec_fn(SteamID) -> bool {
    |m: SteamID| m != host
}

/// The non-host members, in the order they were listed.
pub open spec fn others_of(host: SteamID, members: Seq<SteamID>) -> Seq<SteamID> {
    members.filter(not_host(host))
}

/// Slot table built from the host and the sorted non-host members: slot 0 holds
/// the host, and the `i`-th member is written into slot `(i + 1) % 256`
/// (a later write to the same slot replaces the earlier one).
pub open spec fn spec_table(host: SteamID, s: Seq<SteamID>) -> Seq<SteamID>
    decreases s.len(),
{
    if s.len() == 0 {
        seq![host]
    } else {
        let t = spec_table(host, s.drop_last());
        let k = s.len() % 256;
        if k < t.len() {
            t.update(k as int, s.last())
        } else {
            t.push(s.last())
        }
    }
}

/// The slot table that a member list yields.
pub open spec fn table_for(host: SteamID, members: Seq<SteamID>) -> Seq<SteamID> {
    spec_table(host, others_of(host, members).sort_by(id_order()))
}

/// First slot holding `id`, if any.
pub open spec fn first_slot(s: Seq<SteamID>, id: SteamID) -> Option<int> {
    if s.contains(id) {
        Some(choose|k: int| 0 <= k < s.len() && s[k] == id && forall|j: int| 0 <= j < k ==> s[j] != id)
    } else {
        None
    }
}

/// The slot map of a table: slot `k` holds `s[k]`.
pub open spec fn slot_map(s: Seq<SteamID>) -> Map<u8, SteamID> {
    Map::new(|k: u8| (k as int) < s.len(), |k: u8| s[k as int])
}

/// A table of at most 256 slots has one key per slot.
proof fn lemma_slot_map_len(s: Seq<SteamID>)
    requires
        s.len() <= 256,
    ensures
        slot_map(s).dom().finite(),
        slot_map(s).dom().len() == s.len(),
    decreases s.len(),
{
    if s.len() == 0 {
        assert(slot_map(s).dom() =~= Set::<u8>::empty());
    } else {
        let t = s.drop_last();
        lemma_slot_map_len(t);
        let last: u8 = (s.len() - 1) as u8;
        assert(last as int == s.len() - 1);
        assert(slot_map(s).dom() =~= slot_map(t).dom().insert(last));
        assert(!slot_map(t).dom().contains(last));
    }
}

/// Slot numbers are ordered as integers, as the slot map needs.
proof fn lemma_slot_keys_ordered()
    ensures
        vstd::laws_cmp::obeys_cmp::<u8>(),
{
    broadcast use vstd::laws_cmp::group_laws_cmp;
}

/// Player table derived from a lobby member list.
#[derive(Debug)]
pub struct LobbyPlayerTable {
    /// Identity of each slot, keyed by slot number.
    slots: BTreeMap<u8, SteamID>,
    /// Identity of the host.
    host: SteamID,
}

impl LobbyPlayerTable {
    /// Between one and 256 slots, numbered from 0 without a gap.
    #[verifier::type_invariant]
    spec fn well_formed(self) -> bool {
        &&& 1 <= self.slots@.dom().len() <= 256
        &&& forall|k: u8| #[trigger] self.slots@.contains_key(k) <==> (k as int) < self.slots@.dom().len()
    }

    /// Identities by slot number.
    pub closed spec fn slots(&self) -> Seq<SteamID> {
        Seq::new(self.slots@.dom().len(), |k: int| self.slots@[k as u8])
    }

    /// Identity of the host.
    pub closed spec fn host_id(&self) -> SteamID {
        self.host
    }

    /// Builds the table: the host takes slot 0, the other members (the host's own
    /// entries removed) take the next slots in ascending identity order.
    pub fn new(host: SteamID, members: Vec<SteamID>) -> (t: LobbyPlayerTable)
        ensures
            t.host_id() == host,
            t.slots() == table_for(host, members@),
    {
        broadcast use vstd::std_specs::btree::group_btree_axioms;

        proof {
            lemma_slot_keys_ordered();
        }

        let mut others: Vec<SteamID> = Vec::new();
        let n = members.len();
        let ghost pred = not_host(host);
        let mut i: usize = 0;
        while i < n
            invariant
                n == members.len(),
                i <= n,
                pred == not_host(host),
                others@ == members@.take(i as int).filter(pred),
            decreases n - i,
        {
            let m = members[i];
            proof {
                assert(members@.take(i as int + 1) =~= members@.take(i as int).push(m));
                members@.take(i as int).lemma_filter_push(m, pred);
            }
            if m.0 != host.0 {
                others.push(m);
            }
            i = i + 1;
        }
        proof {
            assert(members@.take(n as int) =~= members@);
        }
        let sorted = sort_ids(others);
        proof {
            lemma_id_order_total();
            others_of(host, members@).lemma_sort_by_ensures(id_order());
            lemma_sorted_unique(sorted@, others_of(host, members@).sort_by(id_order()), id_order());
        }
        let mut slots: BTreeMap<u8, SteamID> = BTreeMap::new();
        slots.insert(0, host);
        proof {
            assert(sorted@.take(0) =~= Seq::<SteamID>::empty());
            assert(slots@ =~= slot_map(seq![host]));
        }
        let ns = sorted.len();
        let mut j: usize = 0;
        while j < ns
            invariant
                ns == sorted.len(),
                j <= ns,
                slots@ == slot_map(spec_table(host, sorted@.take(j as int))),
                spec_table(host, sorted@.take(j as int)).len() == if j + 1 < 256 { j + 1 } else { 256 },
            decreases ns - j,
        {
            let m = sorted[j];
            let ghost t = spec_table(host, sorted@.take(j as int));
            proof {
                assert(sorted@.take(j as int + 1).drop_last() =~= sorted@.take(j as int));
            }
            let k: usize = (j % 256 + 1) % 256;
            proof {
                assert(k == (j + 1) % 256) by (nonlinear_arith)
                    requires k == (j % 256 + 1) % 256;
                let t1 = spec_table(host, sorted@.take(j as int + 1));
                if k < t.len() {
                    assert(t1 == t.update(k as int, m));
                } else {
                    assert(t1 == t.push(m));
                }
                assert(slot_map(t1) =~= slot_map(t).insert(k as u8, m));
            }
            slots.insert(k as u8, m);
            j = j + 1;
        }
        let ghost tab = spec_table(host, sorted@);
        proof {
            assert(sorted@.take(ns as int) =~= sorted@);
            lemma_slot_map_len(tab);
        }
        let t = LobbyPlayerTable { slots, host };
        proof {
            assert(t.slots() =~= tab);
        }
        t
    }

    /// Whether `id` is the host.
    pub fn is_host(&self, id: SteamID) -> (r: bool)
        ensures
            r == (id == self.host_id()),
    {
        id.0 == self.host.0
    }

    /// Slot of an identity: the first slot holding it, or `None` when it is not in the table.
    pub fn slot_of(&self, id: SteamID) -> (r: Option<u8>)
        ensures
            r matches Some(k) ==> first_slot(self.slots(), id) == Some(k as int),
            r is None ==> first_slot(self.slots(), id) is None,
    {
        broadcast use vstd::std_specs::btree::group_btree_axioms;

        proof {
            lemma_slot_keys_ordered();
        }

        proof {
            use_type_invariant(self);
        }
        let ghost s = self.slots();
        let n = self.slots.len();
        let mut k: usize = 0;
        while k < n
            invariant
                n == s.len(),
                s == self.slots(),
                n <= 256,
                k <= n,
                forall|q: u8| #[trigger] self.slots@.contains_key(q) <==> (q as int) < n,
                forall|j: int| 0 <= j < k ==> s[j] != id,
            decreases n - k,
        {
            let key: u8 = k as u8;
            match self.slots.get(&key) {
                Some(v) => {
                    proof {
                        assert(s[k as int] == *v);
                    }
                    if v.0 == id.0 {
                        proof {
                            assert(s[k as int] == id);
                            assert(s.contains(id));
                            let c = choose|c: int| 0 <= c < s.len() && s[c] == id && forall|j: int| 0 <= j < c ==> s[j] != id;
                            assert(c == k) by {
                                if c < k {
                                } else if c > k {
                                    assert(s[k as int] != id);
                                }
                            };
                        }
                        return Some(key);
                    }
                },
                None => {},
            }
            k = k + 1;
        }
        proof {
            assert(!s.contains(id));
        }
        None
    }

    /// Number of players, host included.
    pub fn total_players(&self) -> (r: usize)
        ensures
            r == self.slots().len(),
    {
        broadcast use vstd::std_specs::btree::group_btree_axioms;

        proof {
            lemma_slot_keys_ordered();
        }

        self.slots.len()
    }

    /// `(slot, identity)` pairs in slot order.
    pub fn identities_in_order(&self) -> (out: Vec<(u8, SteamID)>)
        ensures
            out@.len() == self.slots().len(),
            forall|k: int| 0 <= k < out@.len() ==> #[trigger] out@[k] == (k as u8, self.slots()[k]),
    {
        broadcast use vstd::std_specs::btree::group_btree_axioms;

        proof {
            lemma_slot_keys_ordered();
        }

        proof {
            use_type_invariant(self);
        }
        let ghost s = self.slots();
        let n = self.slots.len();
        let mut out: Vec<(u8, SteamID)> = Vec::new();
        let mut k: usize = 0;
        while k < n
            invariant
                n == s.len(),
                s == self.slots(),
                n <= 256,
                k <= n,
                forall|q: u8| #[trigger] self.slots@.contains_key(q) <==> (q as int) < n,
                out@.len() == k,
                forall|j: int| 0 <= j < k ==> #[trigger] out@[j] == (j as u8, s[j]),
            decreases n - k,
        {
            let key: u8 = k as u8;
            match self.slots.get(&key) {
                Some(v) => {
                    out.push((key, *v));
                },
                None => {
                    proof {
                        assert(self.slots@.contains_key(key));
                    }
                },
            }
            k = k + 1;
        }
        out
    }
}

impl Clone for LobbyPlayerTable {
    fn clone(&self) -> (r: Self)
        ensures
            r.slots() == self.slots(),
            r.host_id() == self.host_id(),
    {
        proof {
            use_type_invariant(self);
        }
        LobbyPlayerTable { slots: self.slots.clone(), host: self.host }
    }
}

/// `id_order` is a total order on identities.
pub proof fn lemma_id_order_total()
    ensures
        total_ordering(id_order()),
{
}

/// Inserting into a sequence adds exactly that element to its multiset.
proof fn lemma_insert_multiset(s: Seq<SteamID>, j: int, x: SteamID)
    requires
        0 <= j <= s.len(),
    ensures
        s.insert(j, x).to_multiset() =~= s.to_multiset().insert(x),
{
    broadcast use group_multiset_axioms;
    let t = s.insert(j, x);
    assert(t.remove(j) =~= s);
    assert(t[j] == x);
    assert(t.to_multiset().count(x) > 0) by {
        assert(t.contains(x));
    }
}

/// Sorts identities in ascending numeric order.
fn sort_ids(v: Vec<SteamID>) -> (r: Vec<SteamID>)
    ensures
        sorted_by(r@, id_order()),
        r@.to_multiset() == v@.to_multiset(),
{
    let mut r: Vec<SteamID> = Vec::new();
    let n = v.len();
    let mut i: usize = 0;
    while i < n
        invariant
            n == v.len(),
            i <= n,
            sorted_by(r@, id_order()),
            r@.to_multiset() == v@.take(i as int).to_multiset(),
        decreases n - i,
    {
        let x = v[i];
        let m = r.len();
        let mut j: usize = 0;
        while j < m && r[j].0 <= x.0
            invariant
                m == r.len(),
                j <= m,
                forall|q: int| 0 <= q < j ==> r@[q].0 <= x.0,
            decreases m - j,
        {
            j = j + 1;
        }
        let ghost old_r = r@;
        r.insert(j, x);
        proof {
            assert(r@ == old_r.insert(j as int, x));
            lemma_insert_multiset(old_r, j as int, x);
            assert(v@.take(i as int + 1) =~= v@.take(i as int).push(x));
            assert forall|a: int, b: int| 0 <= a < b < r@.len() implies #[trigger] (id_order())(r@[a], r@[b]) by {
                if b < j {
                    assert(r@[a] == old_r[a] && r@[b] == old_r[b]);
                } else if b == j {
                    assert(r@[a] == old_r[a]);
                } else if a == j {
                    assert(r@[b] == old_r[b - 1]);
                    if j < m {
                        assert(old_r[j as int].0 > x.0);
                        assert((id_order())(old_r[j as int], old_r[b - 1]));
                    }
                } else if a < j {
                    assert(r@[a] == old_r[a] && r@[b] == old_r[b - 1]);
                } else {
                    assert(r@[a] == old_r[a - 1] && r@[b] == old_r[b - 1]);
                }
            };
        }
        i = i + 1;
    }
    proof {
        assert(v@.take(n as int) =~= v@);
    }
    r
}


/// Counting an element in a filtered sequence: kept elements keep their count, dropped ones vanish.
proof fn lemma_filter_count(s: Seq<SteamID>, p: spec_fn(SteamID) -> bool, x: SteamID)
    ensures
        s.filter(p).to_multiset().count(x) == if p(x) { s.to_multiset().count(x) } else { 0 },
    decreases s.len(),
{
    broadcast use group_multiset_axioms;
    if s.len() == 0 {
        assert(s.filter(p) =~= Seq::<SteamID>::empty()) by {
            reveal(Seq::filter);
        }
    } else {
        let t = s.drop_last();
        let y = s.last();
        assert(t.push(y) =~= s);
        t.lemma_filter_push(y, p);
        lemma_filter_count(t, p, x);
    }
}

/// The slot table for fewer than 256 other members: the host, then the others in order.
proof fn lemma_table_small(host: SteamID, s: Seq<SteamID>)
    requires
        s.len() < 256,
    ensures
        spec_table(host, s) =~= seq![host] + s,
    decreases s.len(),
{
    if s.len() > 0 {
        lemma_table_small(host, s.drop_last());
        assert(s.drop_last().push(s.last()) =~= s);
    }
}

/// Law (determinism across peers): two member lists with the same members, in whatever
/// order, give the same slot table.
pub proof fn law_member_order_irrelevant(host: SteamID, m1: Seq<SteamID>, m2: Seq<SteamID>)
    requires
        m1.to_multiset() == m2.to_multiset(),
    ensures
        table_for(host, m1) == table_for(host, m2),
{
    let o1 = others_of(host, m1);
    let o2 = others_of(host, m2);
    assert(o1.to_multiset() =~= o2.to_multiset()) by {
        assert forall|x: SteamID| o1.to_multiset().count(x) == o2.to_multiset().count(x) by {
            lemma_filter_count(m1, not_host(host), x);
            lemma_filter_count(m2, not_host(host), x);
        }
    }
    lemma_id_order_total();
    o1.lemma_sort_by_ensures(id_order());
    o2.lemma_sort_by_ensures(id_order());
    lemma_sorted_unique(o1.sort_by(id_order()), o2.sort_by(id_order()), id_order());
}

/// Law (slot layout): with fewer than 256 other members, the host holds slot 0 and the
/// `i`-th other member in ascending identity order holds slot `i + 1`; the table has one
/// slot per member, host included.
pub proof fn law_host_first_then_sorted(host: SteamID, members: Seq<SteamID>)
    requires
        others_of(host, members).len() < 256,
    ensures
        table_for(host, members) == seq![host] + others_of(host, members).sort_by(id_order()),
        table_for(host, members).len() == others_of(host, members).len() + 1,
        table_for(host, members)[0] == host,
        first_slot(table_for(host, members), host) == Some(0int),
        sorted_by(table_for(host, members).skip(1), id_order()),
        forall|m: SteamID| #[trigger] members.contains(m) ==> table_for(host, members).contains(m),
{
    let o = others_of(host, members);
    lemma_id_order_total();
    o.lemma_sort_by_ensures(id_order());
    let so = o.sort_by(id_order());
    assert(so.len() == o.len()) by {
        assert(so.to_multiset().len() == o.to_multiset().len());
    }
    lemma_table_small(host, so);
    let t = table_for(host, members);
    assert(t == seq![host] + so);
    assert(t[0] == host);
    assert(t.skip(1) =~= so);
    assert(t.contains(host)) by {
        assert(0 < t.len() && t[0] == host);
    }
    let c = choose|k: int| 0 <= k < t.len() && t[k] == host && forall|j: int| 0 <= j < k ==> t[j] != host;
    assert(c == 0);
    assert forall|m: SteamID| #[trigger] members.contains(m) implies t.contains(m) by {
        lemma_member_in_table(host, members, m);
    }
}

/// A non-host member listed in `members` appears among the sorted others.
proof fn lemma_member_in_table(host: SteamID, members: Seq<SteamID>, m: SteamID)
    requires
        members.contains(m),
        others_of(host, members).len() < 256,
        total_ordering(id_order()),
        table_for(host, members) == seq![host] + others_of(host, members).sort_by(id_order()),
        others_of(host, members).to_multiset() =~= others_of(host, members).sort_by(id_order()).to_multiset(),
    ensures
        table_for(host, members).contains(m),
{
    let o = others_of(host, members);
    let so = o.sort_by(id_order());
    let t = table_for(host, members);
    if m != host {
        members.lemma_filter_contains_rev(not_host(host), m);
        assert(o.contains(m));
        assert(o.to_multiset().count(m) > 0);
        assert(so.to_multiset().count(m) > 0);
        assert(so.contains(m));
        let j = choose|j: int| 0 <= j < so.len() && so[j] == m;
        assert(t[j + 1] == m);
    } else {
        assert(t[0] == m);
    }
}

} // verus!
