use vstd::prelude::*;
use crate::account::Account;
use crate::room::{contains_id, ids_view, Room, RoomModel};

verus! {

/// `current_room[app][account_id]`: the room the account is in, if any.
#[derive(Debug)]
pub struct CurrentRoom {
    pub account_id: String,
    pub room_id: Option<u64>,
}

/// One entry of `rooms_by_owner[app][owner_id]`.
#[derive(Debug)]
pub struct OwnedRoom {
    pub owner_id: String,
    pub room_id: u64,
}

/// The three indexes of one app namespace.
#[derive(Debug)]
pub struct AppIndex {
    pub app_name: String,
    pub available_rooms: Vec<u64>,
    pub current_rooms: Vec<CurrentRoom>,
    pub rooms_by_owner: Vec<OwnedRoom>,
}

/// An account of the ledger, under its owner's id.
#[derive(Debug)]
pub struct AccountRecord {
    pub account_id: String,
    pub account: Account,
}

/// The whole store: rooms by id (a removed room leaves `None`), the
/// account ledger, and the indexes of each app.
#[derive(Debug)]
pub struct Contract {
    pub rooms: Vec<Option<Room>>,
    pub accounts: Vec<AccountRecord>,
    pub apps: Vec<AppIndex>,
    pub next_room_id: u64,
}

/// The (owner, room) pairs of a rooms-by-owner list.
pub open spec fn owned_pairs(s: Seq<OwnedRoom>) -> Seq<(Seq<char>, u64)> {
    s.map_values(|e: OwnedRoom| (e.owner_id@, e.room_id))
}

/// The pairs of `s` that do not name room `id`, in order.
pub open spec fn kept_pairs(s: Seq<OwnedRoom>, id: u64) -> Seq<(Seq<char>, u64)>
    decreases s.len(),
{
    if s.len() == 0 {
        Seq::empty()
    } else {
        let r = kept_pairs(s.drop_last(), id);
        if s.last().room_id != id {
            r.push((s.last().owner_id@, s.last().room_id))
        } else {
            r
        }
    }
}

/// A pair is kept exactly when some entry has it and it does not name `id`.
pub proof fn lemma_kept_pairs(s: Seq<OwnedRoom>, id: u64)
    ensures
        forall|p: (Seq<char>, u64)| #[trigger] kept_pairs(s, id).contains(p) <==> p.1 != id && owned_pairs(s).contains(p),
    decreases s.len(),
{
    if s.len() > 0 {
        lemma_kept_pairs(s.drop_last(), id);
        let r = kept_pairs(s.drop_last(), id);
        let last = (s.last().owner_id@, s.last().room_id);
        assert forall|p: (Seq<char>, u64)| #[trigger] kept_pairs(s, id).contains(p) <==> p.1 != id && owned_pairs(s).contains(p) by {
            if owned_pairs(s).contains(p) && p.1 != id {
                let t = choose|t: int| 0 <= t < owned_pairs(s).len() && owned_pairs(s)[t] == p;
                if t < s.len() - 1 {
                    assert(owned_pairs(s.drop_last())[t] == p);
                    assert(r.contains(p));
                    if s.last().room_id != id {
                        let q = choose|q: int| 0 <= q < r.len() && r[q] == p;
                        assert(kept_pairs(s, id)[q] == p);
                    }
                } else {
                    assert(kept_pairs(s, id)[kept_pairs(s, id).len() - 1] == p);
                }
            }
            if kept_pairs(s, id).contains(p) {
                let q = choose|q: int| 0 <= q < kept_pairs(s, id).len() && kept_pairs(s, id)[q] == p;
                if q < r.len() {
                    assert(r[q] == p);
                    assert(r.contains(p));
                    assert(owned_pairs(s.drop_last()).contains(p));
                    let t = choose|t: int| 0 <= t < owned_pairs(s.drop_last()).len() && owned_pairs(s.drop_last())[t] == p;
                    assert(owned_pairs(s)[t] == p);
                } else {
                    assert(s.last().room_id != id);
                    assert(p == last);
                    assert(owned_pairs(s)[s.len() - 1] == p);
                }
            }
        }
    }
}

impl AppIndex {
    pub open spec fn current_of(&self, account: Seq<char>) -> Option<u64> {
        if exists|j: int| 0 <= j < self.current_rooms@.len() && #[trigger] self.current_rooms@[j].account_id@ == account {
            let j = choose|j: int| 0 <= j < self.current_rooms@.len() && #[trigger] self.current_rooms@[j].account_id@ == account;
            self.current_rooms@[j].room_id
        } else {
            None
        }
    }

    pub open spec fn accounts_unique(&self) -> bool {
        forall|i: int, j: int|
            0 <= i < self.current_rooms@.len() && 0 <= j < self.current_rooms@.len() && i != j
                ==> #[trigger] self.current_rooms@[i].account_id@ != #[trigger] self.current_rooms@[j].account_id@
    }
}

impl AppIndex {
    /// Takes `id` out of the available rooms, if there.
    pub(crate) fn remove_available(&mut self, id: u64)
        requires
            old(self).available_rooms@.no_duplicates(),
        ensures
            final(self).available_rooms@.no_duplicates(),
            forall|e: u64| #[trigger] final(self).available_rooms@.contains(e) <==> old(self).available_rooms@.contains(e) && e != id,
            forall|j: int| 0 <= j < final(self).available_rooms@.len() ==> old(self).available_rooms@.contains(#[trigger] final(self).available_rooms@[j]),
            final(self).app_name == old(self).app_name,
            final(self).current_rooms == old(self).current_rooms,
            final(self).rooms_by_owner == old(self).rooms_by_owner,
    {
        let mut i: usize = 0;
        while i < self.available_rooms.len()
            invariant
                *self == *old(self),
                self.available_rooms@.no_duplicates(),
                i <= self.available_rooms@.len(),
                forall|j: int| 0 <= j < i ==> self.available_rooms@[j] != id,
            decreases self.available_rooms@.len() - i,
        {
            if self.available_rooms[i] == id {
                proof {
                    crate::room::lemma_remove(self.available_rooms@, i as int);
                }
                self.available_rooms.remove(i);
                proof {
                    let o = old(self).available_rooms@;
                    assert forall|j: int| 0 <= j < self.available_rooms@.len() implies o.contains(#[trigger] self.available_rooms@[j]) by {
                        assert(self.available_rooms@.contains(self.available_rooms@[j]));
                    }
                }
                return;
            }
            i = i + 1;
        }
        proof {
            let o = old(self).available_rooms@;
            assert forall|j: int| 0 <= j < self.available_rooms@.len() implies o.contains(#[trigger] self.available_rooms@[j]) by {
                assert(o[j] == self.available_rooms@[j]);
            }
        }
    }

    /// Clears the current-room entry of each of `members`, and every entry
    /// that names room `id`.
    pub(crate) fn purge_current(&mut self, id: u64, members: &Vec<String>)
        requires
            old(self).accounts_unique(),
        ensures
            final(self).accounts_unique(),
            final(self).app_name == old(self).app_name,
            final(self).available_rooms == old(self).available_rooms,
            final(self).rooms_by_owner == old(self).rooms_by_owner,
            final(self).current_rooms@.len() == old(self).current_rooms@.len(),
            forall|j: int| #![trigger final(self).current_rooms@[j]] 0 <= j < final(self).current_rooms@.len() ==> {
                &&& final(self).current_rooms@[j].account_id == old(self).current_rooms@[j].account_id
                &&& final(self).current_rooms@[j].room_id == if old(self).current_rooms@[j].room_id == Some(id) || ids_view(members@).contains(old(self).current_rooms@[j].account_id@) {
                        None
                    } else {
                        old(self).current_rooms@[j].room_id
                    }
            },
    {
        let mut i: usize = 0;
        while i < self.current_rooms.len()
            invariant
                self.app_name == old(self).app_name,
                self.available_rooms == old(self).available_rooms,
                self.rooms_by_owner == old(self).rooms_by_owner,
                self.current_rooms@.len() == old(self).current_rooms@.len(),
                i <= self.current_rooms@.len(),
                forall|j: int| #![trigger self.current_rooms@[j]] 0 <= j < self.current_rooms@.len() ==>
                    self.current_rooms@[j].account_id == old(self).current_rooms@[j].account_id,
                forall|j: int| #![trigger self.current_rooms@[j]] 0 <= j < i ==>
                    self.current_rooms@[j].room_id == if old(self).current_rooms@[j].room_id == Some(id) || ids_view(members@).contains(old(self).current_rooms@[j].account_id@) {
                        None
                    } else {
                        old(self).current_rooms@[j].room_id
                    },
                forall|j: int| #![trigger self.current_rooms@[j]] i <= j < self.current_rooms@.len() ==>
                    self.current_rooms@[j] == old(self).current_rooms@[j],
            decreases self.current_rooms@.len() - i,
        {
            let names_room = match self.current_rooms[i].room_id {
                Some(r) => r == id,
                None => false,
            };
            let hit = names_room || contains_id(members, &self.current_rooms[i].account_id);
            if hit {
                self.current_rooms[i].room_id = None;
            }
            i = i + 1;
        }
        proof {
            let n = self.current_rooms@;
            let o = old(self).current_rooms@;
            assert forall|a: int, b: int| 0 <= a < n.len() && 0 <= b < n.len() && a != b
                implies #[trigger] n[a].account_id@ != #[trigger] n[b].account_id@ by {
                assert(o[a].account_id@ != o[b].account_id@);
            }
        }
    }

    /// Drops every rooms-by-owner entry of room `id`.
    pub(crate) fn purge_owned(&mut self, id: u64)
        ensures
            final(self).app_name == old(self).app_name,
            final(self).available_rooms == old(self).available_rooms,
            final(self).current_rooms == old(self).current_rooms,
            owned_pairs(final(self).rooms_by_owner@) == kept_pairs(old(self).rooms_by_owner@, id),
    {
        let mut kept: Vec<OwnedRoom> = Vec::new();
        let mut i: usize = 0;
        while i < self.rooms_by_owner.len()
            invariant
                *self == *old(self),
                i <= self.rooms_by_owner@.len(),
                owned_pairs(kept@) == kept_pairs(self.rooms_by_owner@.take(i as int), id),
            decreases self.rooms_by_owner@.len() - i,
        {
            let ghost s = self.rooms_by_owner@;
            assert(s.take(i + 1).drop_last() =~= s.take(i as int));
            if self.rooms_by_owner[i].room_id != id {
                let entry = OwnedRoom {
                    owner_id: self.rooms_by_owner[i].owner_id.clone(),
                    room_id: self.rooms_by_owner[i].room_id,
                };
                kept.push(entry);
                assert(owned_pairs(kept@) =~= kept_pairs(s.take(i as int), id).push((s[i as int].owner_id@, s[i as int].room_id)));
            }
            i = i + 1;
        }
        assert(self.rooms_by_owner@.take(i as int) =~= self.rooms_by_owner@);
        self.rooms_by_owner = kept;
    }

    /// `current_room[account]`.
    pub(crate) fn current_of_exec(&self, account: &String) -> (r: Option<u64>)
        requires
            self.accounts_unique(),
        ensures
            r == self.current_of(account@),
    {
        let mut i: usize = 0;
        while i < self.current_rooms.len()
            invariant
                self.accounts_unique(),
                i <= self.current_rooms@.len(),
                forall|j: int| 0 <= j < i ==> #[trigger] self.current_rooms@[j].account_id@ != account@,
            decreases self.current_rooms@.len() - i,
        {
            if self.current_rooms[i].account_id == *account {
                proof {
                    let p = choose|p: int| 0 <= p < self.current_rooms@.len() && #[trigger] self.current_rooms@[p].account_id@ == account@;
                    if p != i as int {
                        assert(self.current_rooms@[p].account_id@ != self.current_rooms@[i as int].account_id@);
                    }
                }
                return self.current_rooms[i].room_id;
            }
            i = i + 1;
        }
        None
    }

    /// Sets `current_room[account]` to `room`, adding an entry if the
    /// account has none.
    pub(crate) fn set_current(&mut self, account: &String, room: Option<u64>)
        requires
            old(self).accounts_unique(),
        ensures
            final(self).accounts_unique(),
            final(self).app_name == old(self).app_name,
            final(self).available_rooms == old(self).available_rooms,
            final(self).rooms_by_owner == old(self).rooms_by_owner,
            final(self).current_of(account@) == room,
            forall|x: Seq<char>| x != account@ ==> #[trigger] final(self).current_of(x) == old(self).current_of(x),
            forall|j: int| #![trigger final(self).current_rooms@[j]]
                0 <= j < final(self).current_rooms@.len() ==> (final(self).current_rooms@[j].account_id@ == account@
                    && final(self).current_rooms@[j].room_id == room) || (j < old(self).current_rooms@.len()
                    && final(self).current_rooms@[j] == old(self).current_rooms@[j]),
    {
        let mut i: usize = 0;
        while i < self.current_rooms.len()
            invariant
                *self == *old(self),
                self.accounts_unique(),
                i <= self.current_rooms@.len(),
                forall|j: int| 0 <= j < i ==> #[trigger] self.current_rooms@[j].account_id@ != account@,
            decreases self.current_rooms@.len() - i,
        {
            if self.current_rooms[i].account_id == *account {
                self.current_rooms[i].room_id = room;
                proof {
                    let ghost o = old(self).current_rooms@;
                    let ghost n = self.current_rooms@;
                    assert(n[i as int].account_id@ == account@);
                    assert forall|x: Seq<char>| x != account@ implies #[trigger] self.current_of(x) == old(self).current_of(x) by {
                        if exists|j: int| 0 <= j < n.len() && #[trigger] n[j].account_id@ == x {
                            let j = choose|j: int| 0 <= j < n.len() && #[trigger] n[j].account_id@ == x;
                            assert(o[j].account_id@ == x);
                        }
                        if exists|j: int| 0 <= j < o.len() && #[trigger] o[j].account_id@ == x {
                            let j = choose|j: int| 0 <= j < o.len() && #[trigger] o[j].account_id@ == x;
                            assert(n[j].account_id@ == x);
                        }
                    }
                    let p = choose|p: int| 0 <= p < n.len() && #[trigger] n[p].account_id@ == account@;
                    if p != i as int {
                        assert(n[p].account_id@ != n[i as int].account_id@);
                    }
                }
                return;
            }
            i = i + 1;
        }
        self.current_rooms.push(CurrentRoom { account_id: account.clone(), room_id: room });
        proof {
            let ghost o = old(self).current_rooms@;
            let ghost n = self.current_rooms@;
            let m = o.len() as int;
            assert(n[m].account_id@ == account@);
            assert forall|x: Seq<char>| x != account@ implies #[trigger] self.current_of(x) == old(self).current_of(x) by {
                if exists|j: int| 0 <= j < n.len() && #[trigger] n[j].account_id@ == x {
                    let j = choose|j: int| 0 <= j < n.len() && #[trigger] n[j].account_id@ == x;
                    assert(o[j].account_id@ == x);
                }
                if exists|j: int| 0 <= j < o.len() && #[trigger] o[j].account_id@ == x {
                    let j = choose|j: int| 0 <= j < o.len() && #[trigger] o[j].account_id@ == x;
                    assert(n[j].account_id@ == x);
                }
            }
            let p = choose|p: int| 0 <= p < n.len() && #[trigger] n[p].account_id@ == account@;
            if p != m {
                assert(o[p].account_id@ == account@);
            }
        }
    }
}

impl Contract {
    /// The room with id `id`, if it exists.
    pub open spec fn room(&self, id: int) -> Option<RoomModel> {
        if 0 <= id < self.rooms@.len() {
            match self.rooms@[id] {
                Some(r) => Some(r@),
                None => None,
            }
        } else {
            None
        }
    }

    pub open spec fn has_app(&self, app: Seq<char>) -> bool {
        exists|k: int| 0 <= k < self.apps@.len() && #[trigger] self.apps@[k].app_name@ == app
    }

    /// Position of `app` among the namespaces (meaningful when `has_app`).
    pub open spec fn app_pos(&self, app: Seq<char>) -> int {
        choose|k: int| 0 <= k < self.apps@.len() && #[trigger] self.apps@[k].app_name@ == app
    }

    /// `available_rooms[app]`, in enumeration order.
    pub open spec fn available(&self, app: Seq<char>) -> Seq<u64> {
        if self.has_app(app) {
            self.apps@[self.app_pos(app)].available_rooms@
        } else {
            Seq::empty()
        }
    }

    /// `current_room[app][account]`.
    pub open spec fn current_room(&self, app: Seq<char>, account: Seq<char>) -> Option<u64> {
        if self.has_app(app) {
            self.apps@[self.app_pos(app)].current_of(account)
        } else {
            None
        }
    }

    /// The ids in `rooms_by_owner[app][owner]`.
    pub open spec fn owned_by(&self, app: Seq<char>, owner: Seq<char>) -> Set<u64> {
        Set::new(
            |id: u64|
                self.has_app(app) && exists|j: int|
                    0 <= j < self.apps@[self.app_pos(app)].rooms_by_owner@.len()
                        && #[trigger] self.apps@[self.app_pos(app)].rooms_by_owner@[j].owner_id@ == owner
                        && self.apps@[self.app_pos(app)].rooms_by_owner@[j].room_id == id,
        )
    }

    /// The account of `id` in the ledger, if any.
    pub open spec fn account_of(&self, id: Seq<char>) -> Option<Account> {
        if exists|i: int| 0 <= i < self.accounts@.len() && #[trigger] self.accounts@[i].account_id@ == id {
            let i = choose|i: int| 0 <= i < self.accounts@.len() && #[trigger] self.accounts@[i].account_id@ == id;
            Some(self.accounts@[i].account)
        } else {
            None
        }
    }

    /// Each stored room is filed under its own id, is well formed, and
    /// belongs to a known app, whose available set holds it while open.
    pub open spec fn rooms_wf(&self) -> bool {
        forall|id: int| #![trigger self.rooms@[id]]
            0 <= id < self.rooms@.len() && self.rooms@[id] is Some ==> {
                let r = self.rooms@[id]->Some_0@;
                &&& r.room_id == id
                &&& r.wf()
                &&& self.has_app(r.app_name)
                &&& (!r.is_closed ==> self.available(r.app_name).contains(id as u64))
            }
    }

    /// The indexes of app `k` point only at rooms of that app, in the
    /// state that each index stands for.
    pub open spec fn index_wf(&self, k: int) -> bool {
        let ix = self.apps@[k];
        let app = ix.app_name@;
        &&& ix.available_rooms@.no_duplicates()
        &&& forall|j: int| #![trigger ix.available_rooms@[j]]
            0 <= j < ix.available_rooms@.len() ==> {
                let r = self.room(ix.available_rooms@[j] as int);
                r is Some && r->Some_0.app_name == app && !r->Some_0.is_closed
            }
        &&& self.current_wf(k)
        &&& forall|j: int| #![trigger ix.rooms_by_owner@[j]]
            0 <= j < ix.rooms_by_owner@.len() ==> {
                let r = self.room(ix.rooms_by_owner@[j].room_id as int);
                r is Some && r->Some_0.app_name == app && r->Some_0.owner_id == ix.rooms_by_owner@[j].owner_id@
            }
    }

    /// The current-room entries of app `k` have distinct accounts, each in
    /// the room of that app that the entry names.
    pub open spec fn current_wf(&self, k: int) -> bool {
        let ix = self.apps@[k];
        let app = ix.app_name@;
        &&& ix.accounts_unique()
        &&& forall|j: int| #![trigger ix.current_rooms@[j]]
            0 <= j < ix.current_rooms@.len() && ix.current_rooms@[j].room_id is Some ==> {
                let r = self.room(ix.current_rooms@[j].room_id->Some_0 as int);
                r is Some && r->Some_0.app_name == app && r->Some_0.has_player(ix.current_rooms@[j].account_id@)
            }
    }

    /// Every account is unique, covered, and has no open bracket.
    pub open spec fn accounts_wf(&self) -> bool {
        &&& forall|i: int, j: int|
            0 <= i < self.accounts@.len() && 0 <= j < self.accounts@.len() && i != j
                ==> #[trigger] self.accounts@[i].account_id@ != #[trigger] self.accounts@[j].account_id@
        &&& forall|i: int| #![trigger self.accounts@[i]]
            0 <= i < self.accounts@.len() ==> self.accounts@[i].account.is_covered()
                && !self.accounts@[i].account.storage_tracker.is_active
    }

    pub open spec fn apps_unique(&self) -> bool {
        forall|k1: int, k2: int|
            0 <= k1 < self.apps@.len() && 0 <= k2 < self.apps@.len() && k1 != k2
                ==> #[trigger] self.apps@[k1].app_name@ != #[trigger] self.apps@[k2].app_name@
    }

    pub open spec fn wf(&self) -> bool {
        &&& self.rooms@.len() == self.next_room_id
        &&& self.rooms_wf()
        &&& self.apps_unique()
        &&& forall|k: int| 0 <= k < self.apps@.len() ==> #[trigger] self.index_wf(k)
        &&& self.accounts_wf()
    }

    /// An empty store.
    pub fn new() -> (r: Contract)
        ensures
            r.wf(),
            r.next_room_id == 0,
            forall|id: int| r.room(id) is None,
            forall|app: Seq<char>| !r.has_app(app),
            forall|id: Seq<char>| r.account_of(id) is None,
    {
        Contract { rooms: Vec::new(), accounts: Vec::new(), apps: Vec::new(), next_room_id: 0 }
    }

    /// The position of room `id` in the store.
    pub(crate) fn slot_index(&self, id: u64) -> (r: usize)
        requires
            self.wf(),
            id < self.next_room_id,
        ensures
            r as int == id as int,
            r < self.rooms@.len(),
    {
        let stored: usize = self.rooms.len();
        assert(id < stored);
        id as usize
    }

    /// Where `app` stands among the namespaces.
    pub(crate) fn find_app(&self, app: &String) -> (r: Option<usize>)
        requires
            self.wf(),
        ensures
            match r {
                Some(k) => k < self.apps@.len() && self.has_app(app@) && k == self.app_pos(app@),
                None => !self.has_app(app@),
            },
    {
        let mut k: usize = 0;
        while k < self.apps.len()
            invariant
                self.wf(),
                k <= self.apps@.len(),
                forall|i: int| 0 <= i < k ==> #[trigger] self.apps@[i].app_name@ != app@,
            decreases self.apps@.len() - k,
        {
            if self.apps[k].app_name == *app {
                assert(self.has_app(app@));
                let ghost p = self.app_pos(app@);
                assert(self.apps@[p].app_name@ == app@);
                proof {
                    assert(0 <= p < self.apps@.len());
                    if p != k as int {
                        assert(self.apps@[p].app_name@ != self.apps@[k as int].app_name@);
                    }
                }
                return Some(k);
            }
            k = k + 1;
        }
        None
    }
}

/// With distinct names, the namespace at `k` is the one found by name.
pub proof fn lemma_app_pos(c: &Contract, k: int)
    requires
        c.apps_unique(),
        0 <= k < c.apps@.len(),
    ensures
        c.has_app(c.apps@[k].app_name@),
        c.app_pos(c.apps@[k].app_name@) == k,
        c.available(c.apps@[k].app_name@) == c.apps@[k].available_rooms@,
        forall|x: Seq<char>| c.current_room(c.apps@[k].app_name@, x) == #[trigger] c.apps@[k].current_of(x),
{
    let app = c.apps@[k].app_name@;
    assert(c.has_app(app));
    let p = c.app_pos(app);
    if p != k {
        assert(c.apps@[p].app_name@ != c.apps@[k].app_name@);
    }
}

/// Replacing one room by another with the same id, app, owner and state,
/// and changing no index but the current-room entries of its app, keeps
/// well-formedness as long as those entries stay consistent.
pub proof fn lemma_room_update(o: &Contract, n: &Contract, id: int, k: int)
    requires
        o.wf(),
        0 <= id < o.rooms@.len(),
        o.rooms@[id] is Some,
        0 <= k < o.apps@.len(),
        o.apps@[k].app_name@ == o.rooms@[id]->Some_0.app_name@,
        n.next_room_id == o.next_room_id,
        n.accounts == o.accounts,
        n.rooms@.len() == o.rooms@.len(),
        n.rooms@[id] is Some,
        forall|i: int| 0 <= i < n.rooms@.len() && i != id ==> n.rooms@[i] == o.rooms@[i],
        ({
            let a = o.rooms@[id]->Some_0@;
            let b = n.rooms@[id]->Some_0@;
            b.wf() && b.room_id == a.room_id && b.app_name == a.app_name && b.owner_id == a.owner_id
                && b.is_closed == a.is_closed
        }),
        n.apps@.len() == o.apps@.len(),
        forall|j: int| 0 <= j < n.apps@.len() && j != k ==> n.apps@[j] == o.apps@[j],
        n.apps@[k].app_name == o.apps@[k].app_name,
        n.apps@[k].available_rooms == o.apps@[k].available_rooms,
        n.apps@[k].rooms_by_owner == o.apps@[k].rooms_by_owner,
        n.current_wf(k),
    ensures
        n.wf(),
        forall|a: Seq<char>| #[trigger] n.has_app(a) == o.has_app(a) && n.available(a) == o.available(a),
        forall|a: Seq<char>, x: Seq<char>| a != o.apps@[k].app_name@ ==> #[trigger] n.current_room(a, x) == o.current_room(a, x),
        forall|a: Seq<char>, x: Seq<char>| #[trigger] n.owned_by(a, x) == o.owned_by(a, x),
{
    assert forall|j: int| 0 <= j < n.apps@.len() implies #[trigger] n.apps@[j].app_name@ == o.apps@[j].app_name@ by {}
    assert(n.apps_unique()) by {
        assert forall|k1: int, k2: int|
            0 <= k1 < n.apps@.len() && 0 <= k2 < n.apps@.len() && k1 != k2
                implies #[trigger] n.apps@[k1].app_name@ != #[trigger] n.apps@[k2].app_name@ by {
            assert(o.apps@[k1].app_name@ != o.apps@[k2].app_name@);
        }
    }
    assert forall|a: Seq<char>| #[trigger] n.has_app(a) == o.has_app(a) && n.available(a) == o.available(a) by {
        if o.has_app(a) {
            let p = o.app_pos(a);
            lemma_app_pos(o, p);
            lemma_app_pos(n, p);
        }
        if n.has_app(a) {
            let p = n.app_pos(a);
            lemma_app_pos(o, p);
            lemma_app_pos(n, p);
        }
    }
    assert forall|a: Seq<char>, x: Seq<char>| a != o.apps@[k].app_name@ implies #[trigger] n.current_room(a, x) == o.current_room(a, x) by {
        if o.has_app(a) {
            let p = o.app_pos(a);
            lemma_app_pos(o, p);
            lemma_app_pos(n, p);
        }
    }
    assert forall|a: Seq<char>, x: Seq<char>| #[trigger] n.owned_by(a, x) == o.owned_by(a, x) by {
        if o.has_app(a) {
            let p = o.app_pos(a);
            lemma_app_pos(o, p);
            lemma_app_pos(n, p);
        }
        assert(n.owned_by(a, x) =~= o.owned_by(a, x));
    }
    let app = o.apps@[k].app_name@;
    assert forall|q: int| q != id implies #[trigger] n.room(q) == o.room(q) by {}
    assert forall|j: int| 0 <= j < n.apps@.len() implies #[trigger] n.index_wf(j) by {
        assert(o.index_wf(j));
        let ix = n.apps@[j];
        assert forall|i: int| #![trigger ix.available_rooms@[i]] 0 <= i < ix.available_rooms@.len() implies {
            let r = n.room(ix.available_rooms@[i] as int);
            r is Some && r->Some_0.app_name == ix.app_name@ && !r->Some_0.is_closed
        } by {
            assert(ix.available_rooms@[i] == o.apps@[j].available_rooms@[i]);
        }
        assert forall|i: int| #![trigger ix.rooms_by_owner@[i]] 0 <= i < ix.rooms_by_owner@.len() implies {
            let r = n.room(ix.rooms_by_owner@[i].room_id as int);
            r is Some && r->Some_0.app_name == ix.app_name@ && r->Some_0.owner_id == ix.rooms_by_owner@[i].owner_id@
        } by {
            assert(ix.rooms_by_owner@[i] == o.apps@[j].rooms_by_owner@[i]);
        }
        if j != k {
            assert(ix == o.apps@[j]);
            assert forall|i: int| #![trigger ix.current_rooms@[i]]
                0 <= i < ix.current_rooms@.len() && ix.current_rooms@[i].room_id is Some implies {
                let r = n.room(ix.current_rooms@[i].room_id->Some_0 as int);
                r is Some && r->Some_0.app_name == ix.app_name@ && r->Some_0.has_player(ix.current_rooms@[i].account_id@)
            } by {
                assert(o.apps@[j].app_name@ != app);
            }
        }
    }
    assert(n.rooms_wf()) by {
        assert forall|i: int| #![trigger n.rooms@[i]] 0 <= i < n.rooms@.len() && n.rooms@[i] is Some implies {
            let r = n.rooms@[i]->Some_0@;
            &&& r.room_id == i
            &&& r.wf()
            &&& n.has_app(r.app_name)
            &&& (!r.is_closed ==> n.available(r.app_name).contains(i as u64))
        } by {
            if i != id {
                assert(n.rooms@[i] == o.rooms@[i]);
            }
        }
    }
}

/// Opening or closing one room, with the matching change to the
/// available rooms of its app, keeps well-formedness.
pub proof fn lemma_state_update(o: &Contract, n: &Contract, id: int, k: int)
    requires
        o.wf(),
        0 <= id < o.rooms@.len(),
        o.rooms@[id] is Some,
        0 <= k < o.apps@.len(),
        o.apps@[k].app_name@ == o.rooms@[id]->Some_0.app_name@,
        n.next_room_id == o.next_room_id,
        n.accounts == o.accounts,
        n.rooms@.len() == o.rooms@.len(),
        n.rooms@[id] is Some,
        forall|i: int| 0 <= i < n.rooms@.len() && i != id ==> n.rooms@[i] == o.rooms@[i],
        n.rooms@[id]->Some_0@ == (RoomModel { is_closed: n.rooms@[id]->Some_0.is_closed, ..o.rooms@[id]->Some_0@ }),
        n.apps@.len() == o.apps@.len(),
        forall|j: int| 0 <= j < n.apps@.len() && j != k ==> n.apps@[j] == o.apps@[j],
        n.apps@[k].app_name == o.apps@[k].app_name,
        n.apps@[k].current_rooms == o.apps@[k].current_rooms,
        n.apps@[k].rooms_by_owner == o.apps@[k].rooms_by_owner,
        n.apps@[k].available_rooms@.no_duplicates(),
        forall|e: u64| e != id ==> (#[trigger] n.apps@[k].available_rooms@.contains(e) <==> o.apps@[k].available_rooms@.contains(e)),
        n.apps@[k].available_rooms@.contains(id as u64) <==> !n.rooms@[id]->Some_0.is_closed,
    ensures
        n.wf(),
        forall|a: Seq<char>| #[trigger] n.has_app(a) == o.has_app(a),
        forall|a: Seq<char>| a != o.apps@[k].app_name@ ==> #[trigger] n.available(a) == o.available(a),
        n.available(o.apps@[k].app_name@) == n.apps@[k].available_rooms@,
        forall|a: Seq<char>, x: Seq<char>| #[trigger] n.current_room(a, x) == o.current_room(a, x),
        forall|a: Seq<char>, x: Seq<char>| #[trigger] n.owned_by(a, x) == o.owned_by(a, x),
{
    let app = o.apps@[k].app_name@;
    assert forall|j: int| 0 <= j < n.apps@.len() implies #[trigger] n.apps@[j].app_name@ == o.apps@[j].app_name@ by {}
    assert(n.apps_unique()) by {
        assert forall|k1: int, k2: int|
            0 <= k1 < n.apps@.len() && 0 <= k2 < n.apps@.len() && k1 != k2
                implies #[trigger] n.apps@[k1].app_name@ != #[trigger] n.apps@[k2].app_name@ by {
            assert(o.apps@[k1].app_name@ != o.apps@[k2].app_name@);
        }
    }
    lemma_app_pos(n, k);
    lemma_app_pos(o, k);
    assert forall|a: Seq<char>| #[trigger] n.has_app(a) == o.has_app(a) && (a != app ==> n.available(a) == o.available(a)) by {
        if o.has_app(a) {
            let p = o.app_pos(a);
            lemma_app_pos(o, p);
            lemma_app_pos(n, p);
        }
        if n.has_app(a) {
            let p = n.app_pos(a);
            lemma_app_pos(o, p);
            lemma_app_pos(n, p);
        }
    }
    assert forall|a: Seq<char>, x: Seq<char>| #[trigger] n.current_room(a, x) == o.current_room(a, x) by {
        if o.has_app(a) {
            let p = o.app_pos(a);
            lemma_app_pos(o, p);
            lemma_app_pos(n, p);
        }
    }
    assert forall|a: Seq<char>, x: Seq<char>| #[trigger] n.owned_by(a, x) == o.owned_by(a, x) by {
        if o.has_app(a) {
            let p = o.app_pos(a);
            lemma_app_pos(o, p);
            lemma_app_pos(n, p);
        }
        assert(n.owned_by(a, x) =~= o.owned_by(a, x));
    }
    assert forall|q: int| q != id implies #[trigger] n.room(q) == o.room(q) by {}
    assert forall|j: int| 0 <= j < n.apps@.len() implies #[trigger] n.index_wf(j) by {
        assert(o.index_wf(j));
        let ix = n.apps@[j];
        assert forall|i: int| #![trigger ix.rooms_by_owner@[i]] 0 <= i < ix.rooms_by_owner@.len() implies {
            let r = n.room(ix.rooms_by_owner@[i].room_id as int);
            r is Some && r->Some_0.app_name == ix.app_name@ && r->Some_0.owner_id == ix.rooms_by_owner@[i].owner_id@
        } by {
            assert(ix.rooms_by_owner@[i] == o.apps@[j].rooms_by_owner@[i]);
        }
        assert forall|i: int| #![trigger ix.current_rooms@[i]]
            0 <= i < ix.current_rooms@.len() && ix.current_rooms@[i].room_id is Some implies {
            let r = n.room(ix.current_rooms@[i].room_id->Some_0 as int);
            r is Some && r->Some_0.app_name == ix.app_name@ && r->Some_0.has_player(ix.current_rooms@[i].account_id@)
        } by {
            assert(ix.current_rooms@[i] == o.apps@[j].current_rooms@[i]);
        }
        assert forall|i: int| #![trigger ix.available_rooms@[i]] 0 <= i < ix.available_rooms@.len() implies {
            let r = n.room(ix.available_rooms@[i] as int);
            r is Some && r->Some_0.app_name == ix.app_name@ && !r->Some_0.is_closed
        } by {
            let e = ix.available_rooms@[i];
            if j != k {
                assert(ix == o.apps@[j]);
                assert(o.apps@[j].app_name@ != app);
            } else {
                assert(ix.available_rooms@.contains(e));
                if e != id {
                    assert(o.apps@[k].available_rooms@.contains(e));
                    let t = choose|t: int| 0 <= t < o.apps@[k].available_rooms@.len() && o.apps@[k].available_rooms@[t] == e;
                }
            }
        }
    }
    assert(n.rooms_wf()) by {
        assert forall|i: int| #![trigger n.rooms@[i]] 0 <= i < n.rooms@.len() && n.rooms@[i] is Some implies {
            let r = n.rooms@[i]->Some_0@;
            &&& r.room_id == i
            &&& r.wf()
            &&& n.has_app(r.app_name)
            &&& (!r.is_closed ==> n.available(r.app_name).contains(i as u64))
        } by {
            if i != id {
                assert(n.rooms@[i] == o.rooms@[i]);
                let r = n.rooms@[i]->Some_0@;
                if !r.is_closed && r.app_name == app {
                    assert(o.available(app).contains(i as u64));
                }
            }
        }
    }
}

/// Dropping one room, with every index entry that names it, keeps
/// well-formedness.
pub proof fn lemma_remove_update(o: &Contract, n: &Contract, id: int, k: int, members: Seq<Seq<char>>)
    requires
        o.wf(),
        0 <= id < o.rooms@.len(),
        o.rooms@[id] is Some,
        0 <= k < o.apps@.len(),
        o.apps@[k].app_name@ == o.rooms@[id]->Some_0.app_name@,
        n.next_room_id == o.next_room_id,
        n.accounts == o.accounts,
        n.rooms@ == o.rooms@.update(id, None),
        n.apps@.len() == o.apps@.len(),
        forall|j: int| 0 <= j < n.apps@.len() && j != k ==> n.apps@[j] == o.apps@[j],
        n.apps@[k].app_name == o.apps@[k].app_name,
        n.apps@[k].available_rooms@.no_duplicates(),
        forall|e: u64| #[trigger] n.apps@[k].available_rooms@.contains(e) <==> o.apps@[k].available_rooms@.contains(e) && e != id,
        n.apps@[k].accounts_unique(),
        n.apps@[k].current_rooms@.len() == o.apps@[k].current_rooms@.len(),
        forall|j: int| #![trigger n.apps@[k].current_rooms@[j]] 0 <= j < n.apps@[k].current_rooms@.len() ==> {
            &&& n.apps@[k].current_rooms@[j].account_id == o.apps@[k].current_rooms@[j].account_id
            &&& n.apps@[k].current_rooms@[j].room_id == if o.apps@[k].current_rooms@[j].room_id == Some(id as u64)
                    || members.contains(o.apps@[k].current_rooms@[j].account_id@) {
                    None
                } else {
                    o.apps@[k].current_rooms@[j].room_id
                }
        },
        owned_pairs(n.apps@[k].rooms_by_owner@) == kept_pairs(o.apps@[k].rooms_by_owner@, id as u64),
    ensures
        n.wf(),
        forall|a: Seq<char>| #[trigger] n.has_app(a) == o.has_app(a),
        forall|a: Seq<char>| a != o.apps@[k].app_name@ ==> #[trigger] n.available(a) == o.available(a),
        forall|e: u64| #[trigger] n.available(o.apps@[k].app_name@).contains(e)
            <==> o.available(o.apps@[k].app_name@).contains(e) && e != id,
        forall|a: Seq<char>, x: Seq<char>| #[trigger] n.current_room(a, x)
            == if o.current_room(a, x) == Some(id as u64) || (a == o.apps@[k].app_name@ && members.contains(x)) {
                None
            } else {
                o.current_room(a, x)
            },
        forall|a: Seq<char>, x: Seq<char>| #[trigger] n.owned_by(a, x) == o.owned_by(a, x).remove(id as u64),
{
    let app = o.apps@[k].app_name@;
    let nix = n.apps@[k];
    let oix = o.apps@[k];
    assert forall|j: int| 0 <= j < n.apps@.len() implies #[trigger] n.apps@[j].app_name@ == o.apps@[j].app_name@ by {}
    assert(n.apps_unique()) by {
        assert forall|k1: int, k2: int|
            0 <= k1 < n.apps@.len() && 0 <= k2 < n.apps@.len() && k1 != k2
                implies #[trigger] n.apps@[k1].app_name@ != #[trigger] n.apps@[k2].app_name@ by {
            assert(o.apps@[k1].app_name@ != o.apps@[k2].app_name@);
        }
    }
    assert(o.index_wf(k));
    lemma_app_pos(n, k);
    lemma_app_pos(o, k);
    lemma_kept_pairs(oix.rooms_by_owner@, id as u64);
    assert forall|a: Seq<char>| #[trigger] n.has_app(a) == o.has_app(a) && (a != app ==> n.available(a) == o.available(a)) by {
        if o.has_app(a) {
            let p = o.app_pos(a);
            lemma_app_pos(o, p);
            lemma_app_pos(n, p);
        }
        if n.has_app(a) {
            let p = n.app_pos(a);
            lemma_app_pos(o, p);
            lemma_app_pos(n, p);
        }
    }
    // entries of other apps never name the removed room
    assert forall|j: int, x: Seq<char>| 0 <= j < o.apps@.len() && j != k implies #[trigger] o.apps@[j].current_of(x) != Some(id as u64) by {
        assert(o.index_wf(j));
        let cix = o.apps@[j];
        if exists|i: int| 0 <= i < cix.current_rooms@.len() && #[trigger] cix.current_rooms@[i].account_id@ == x {
            let i = choose|i: int| 0 <= i < cix.current_rooms@.len() && #[trigger] cix.current_rooms@[i].account_id@ == x;
            assert(o.apps@[j].app_name@ != app);
        }
    }
    assert forall|x: Seq<char>| #[trigger] nix.current_of(x)
        == if oix.current_of(x) == Some(id as u64) || members.contains(x) { None } else { oix.current_of(x) } by {
        if exists|i: int| 0 <= i < nix.current_rooms@.len() && #[trigger] nix.current_rooms@[i].account_id@ == x {
            let i = choose|i: int| 0 <= i < nix.current_rooms@.len() && #[trigger] nix.current_rooms@[i].account_id@ == x;
            assert(oix.current_rooms@[i].account_id@ == x);
            let i2 = choose|i2: int| 0 <= i2 < oix.current_rooms@.len() && #[trigger] oix.current_rooms@[i2].account_id@ == x;
            if i2 != i {
                assert(oix.current_rooms@[i2].account_id@ != oix.current_rooms@[i].account_id@);
            }
        } else {
            if exists|i: int| 0 <= i < oix.current_rooms@.len() && #[trigger] oix.current_rooms@[i].account_id@ == x {
                let i = choose|i: int| 0 <= i < oix.current_rooms@.len() && #[trigger] oix.current_rooms@[i].account_id@ == x;
                assert(nix.current_rooms@[i].account_id@ == x);
            }
        }
    }
    assert forall|a: Seq<char>, x: Seq<char>| #[trigger] n.current_room(a, x)
        == if o.current_room(a, x) == Some(id as u64) || (a == app && members.contains(x)) {
            None
        } else {
            o.current_room(a, x)
        } by {
        if o.has_app(a) {
            let p = o.app_pos(a);
            lemma_app_pos(o, p);
            lemma_app_pos(n, p);
            if p != k {
                assert(o.apps@[p].current_of(x) != Some(id as u64));
            }
        }
    }
    assert forall|a: Seq<char>, x: Seq<char>| #[trigger] n.owned_by(a, x) == o.owned_by(a, x).remove(id as u64) by {
        if o.has_app(a) {
            let p = o.app_pos(a);
            lemma_app_pos(o, p);
            lemma_app_pos(n, p);
            if p != k {
                assert(o.index_wf(p));
                assert forall|e: u64| o.owned_by(a, x).contains(e) implies e != id by {
                    let t = choose|t: int| 0 <= t < o.apps@[p].rooms_by_owner@.len()
                        && #[trigger] o.apps@[p].rooms_by_owner@[t].owner_id@ == x && o.apps@[p].rooms_by_owner@[t].room_id == e;
                    assert(o.apps@[p].app_name@ != app);
                }
            } else {
                assert forall|e: u64| n.owned_by(a, x).contains(e) <==> o.owned_by(a, x).remove(id as u64).contains(e) by {
                    if n.owned_by(a, x).contains(e) {
                        let t = choose|t: int| 0 <= t < nix.rooms_by_owner@.len()
                            && #[trigger] nix.rooms_by_owner@[t].owner_id@ == x && nix.rooms_by_owner@[t].room_id == e;
                        assert(owned_pairs(nix.rooms_by_owner@)[t] == (x, e));
                        assert(kept_pairs(oix.rooms_by_owner@, id as u64).contains((x, e)));
                        let t2 = choose|t2: int| 0 <= t2 < owned_pairs(oix.rooms_by_owner@).len() && owned_pairs(oix.rooms_by_owner@)[t2] == (x, e);
                        assert(oix.rooms_by_owner@[t2].owner_id@ == x);
                    }
                    if o.owned_by(a, x).remove(id as u64).contains(e) {
                        let t = choose|t: int| 0 <= t < oix.rooms_by_owner@.len()
                            && #[trigger] oix.rooms_by_owner@[t].owner_id@ == x && oix.rooms_by_owner@[t].room_id == e;
                        assert(owned_pairs(oix.rooms_by_owner@)[t] == (x, e));
                        assert(kept_pairs(oix.rooms_by_owner@, id as u64).contains((x, e)));
                        assert(owned_pairs(nix.rooms_by_owner@).contains((x, e)));
                        let t2 = choose|t2: int| 0 <= t2 < owned_pairs(nix.rooms_by_owner@).len() && owned_pairs(nix.rooms_by_owner@)[t2] == (x, e);
                        assert(nix.rooms_by_owner@[t2].owner_id@ == x);
                    }
                }
            }
        }
        assert(n.owned_by(a, x) =~= o.owned_by(a, x).remove(id as u64));
    }
    assert forall|q: int| q != id implies #[trigger] n.room(q) == o.room(q) by {}
    assert forall|j: int| 0 <= j < n.apps@.len() implies #[trigger] n.index_wf(j) by {
        assert(o.index_wf(j));
        let ix = n.apps@[j];
        if j != k {
            assert(ix == o.apps@[j]);
            assert(o.apps@[j].app_name@ != app);
        } else {
            assert forall|i: int| #![trigger ix.available_rooms@[i]] 0 <= i < ix.available_rooms@.len() implies {
                let r = n.room(ix.available_rooms@[i] as int);
                r is Some && r->Some_0.app_name == app && !r->Some_0.is_closed
            } by {
                let e = ix.available_rooms@[i];
                assert(ix.available_rooms@.contains(e));
                let t = choose|t: int| 0 <= t < oix.available_rooms@.len() && oix.available_rooms@[t] == e;
            }
            assert forall|i: int| #![trigger ix.current_rooms@[i]]
                0 <= i < ix.current_rooms@.len() && ix.current_rooms@[i].room_id is Some implies {
                let r = n.room(ix.current_rooms@[i].room_id->Some_0 as int);
                r is Some && r->Some_0.app_name == app && r->Some_0.has_player(ix.current_rooms@[i].account_id@)
            } by {
                assert(oix.current_rooms@[i].room_id is Some);
            }
            assert forall|i: int| #![trigger ix.rooms_by_owner@[i]] 0 <= i < ix.rooms_by_owner@.len() implies {
                let r = n.room(ix.rooms_by_owner@[i].room_id as int);
                r is Some && r->Some_0.app_name == app && r->Some_0.owner_id == ix.rooms_by_owner@[i].owner_id@
            } by {
                let pr = (ix.rooms_by_owner@[i].owner_id@, ix.rooms_by_owner@[i].room_id);
                assert(owned_pairs(nix.rooms_by_owner@)[i] == pr);
                assert(kept_pairs(oix.rooms_by_owner@, id as u64).contains(pr));
                let t = choose|t: int| 0 <= t < owned_pairs(oix.rooms_by_owner@).len() && owned_pairs(oix.rooms_by_owner@)[t] == pr;
                assert(oix.rooms_by_owner@[t].room_id == pr.1);
            }
        }
    }
    assert(n.rooms_wf()) by {
        assert forall|i: int| #![trigger n.rooms@[i]] 0 <= i < n.rooms@.len() && n.rooms@[i] is Some implies {
            let r = n.rooms@[i]->Some_0@;
            &&& r.room_id == i
            &&& r.wf()
            &&& n.has_app(r.app_name)
            &&& (!r.is_closed ==> n.available(r.app_name).contains(i as u64))
        } by {
            assert(n.rooms@[i] == o.rooms@[i]);
            let r = n.rooms@[i]->Some_0@;
            if !r.is_closed && r.app_name == app {
                assert(o.available(app).contains(i as u64));
                assert(nix.available_rooms@.contains(i as u64));
            }
        }
    }
}

/// Once a room is gone, no index names it: it is in no app's available
/// rooms, in no rooms-by-owner list, and is no account's current room.
pub proof fn lemma_no_reference(c: &Contract, id: u64)
    requires
        c.wf(),
        c.room(id as int) is None,
    ensures
        forall|a: Seq<char>| !(#[trigger] c.available(a)).contains(id),
        forall|a: Seq<char>, x: Seq<char>| #[trigger] c.current_room(a, x) != Some(id),
        forall|a: Seq<char>, x: Seq<char>| !(#[trigger] c.owned_by(a, x)).contains(id),
{
    assert forall|a: Seq<char>| !(#[trigger] c.available(a)).contains(id) by {
        if c.has_app(a) && c.available(a).contains(id) {
            let p = c.app_pos(a);
            assert(c.index_wf(p));
            let t = choose|t: int| 0 <= t < c.available(a).len() && c.available(a)[t] == id;
            assert(c.apps@[p].available_rooms@[t] == id);
        }
    }
    assert forall|a: Seq<char>, x: Seq<char>| #[trigger] c.current_room(a, x) != Some(id) by {
        if c.has_app(a) {
            let p = c.app_pos(a);
            assert(c.index_wf(p));
            let ix = c.apps@[p];
            if exists|j: int| 0 <= j < ix.current_rooms@.len() && #[trigger] ix.current_rooms@[j].account_id@ == x {
                let j = choose|j: int| 0 <= j < ix.current_rooms@.len() && #[trigger] ix.current_rooms@[j].account_id@ == x;
                assert(c.current_wf(p));
                if ix.current_rooms@[j].room_id == Some(id) {
                    assert(c.room(id as int) is Some);
                }
            }
        }
    }
    assert forall|a: Seq<char>, x: Seq<char>| !(#[trigger] c.owned_by(a, x)).contains(id) by {
        if c.owned_by(a, x).contains(id) {
            let p = c.app_pos(a);
            assert(c.index_wf(p));
            let t = choose|t: int| 0 <= t < c.apps@[p].rooms_by_owner@.len()
                && #[trigger] c.apps@[p].rooms_by_owner@[t].owner_id@ == x && c.apps@[p].rooms_by_owner@[t].room_id == id;
            assert(c.room(c.apps@[p].rooms_by_owner@[t].room_id as int) is Some);
        }
    }
}

/// Well-formedness reads the ledger only through `accounts_wf`.
pub proof fn lemma_wf_ledger_frame(a: &Contract, b: &Contract)
    requires
        a.wf(),
        b.accounts_wf(),
        b.rooms == a.rooms,
        b.apps == a.apps,
        b.next_room_id == a.next_room_id,
    ensures
        b.wf(),
{
    assert forall|app: Seq<char>| b.has_app(app) == a.has_app(app) && b.available(app) == a.available(app) by {}
    assert forall|k: int| 0 <= k < b.apps@.len() implies #[trigger] b.index_wf(k) by {
        assert(a.index_wf(k));
    }
}

impl Default for Contract {
    fn default() -> (r: Contract)
        ensures
            r.wf(),
            r.next_room_id == 0,
            forall|id: int| r.room(id) is None,
            forall|app: Seq<char>| !r.has_app(app),
            forall|id: Seq<char>| r.account_of(id) is None,
    {
        Contract::new()
    }
}

} // verus!
