use vstd::prelude::*;
use crate::contract::{lemma_app_pos, Contract, OwnedRoom};
use crate::room::{Room, RoomError};

verus! {

/// The position that the random byte `r` picks among `n` entries:
/// `floor(r / 256 * n)`.
pub open spec fn pick_index(r: u8, n: int) -> int {
    (r as int * n) / 256
}

/// `pick_index` is a position of a non-empty list.
pub proof fn lemma_pick_in_range(r: u8, n: int)
    requires
        n > 0,
    ensures
        0 <= pick_index(r, n) < n,
{
    assert(0 <= r as int * n <= 255 * n) by (nonlinear_arith)
        requires n > 0, 0 <= r as int <= 255;
    assert((r as int * n) / 256 < n) by (nonlinear_arith)
        requires r as int * n <= 255 * n, n > 0;
    assert(0 <= (r as int * n) / 256) by (nonlinear_arith)
        requires 0 <= r as int * n;
}

/// The ids that `owner` has in a rooms-by-owner list, in order.
pub open spec fn owner_ids(s: Seq<OwnedRoom>, owner: Seq<char>) -> Seq<u64>
    decreases s.len(),
{
    if s.len() == 0 {
        Seq::empty()
    } else {
        let r = owner_ids(s.drop_last(), owner);
        if s.last().owner_id@ == owner {
            r.push(s.last().room_id)
        } else {
            r
        }
    }
}

/// Some entry of `s` files room `id` under `owner`.
pub open spec fn has_entry_for(s: Seq<OwnedRoom>, owner: Seq<char>, id: u64) -> bool {
    exists|t: int| 0 <= t < s.len() && #[trigger] s[t].owner_id@ == owner && s[t].room_id == id
}

/// Every id in an owner's list comes from an entry of that owner.
pub proof fn lemma_owner_ids(s: Seq<OwnedRoom>, owner: Seq<char>)
    ensures
        forall|i: int| 0 <= i < owner_ids(s, owner).len() ==> has_entry_for(s, owner, #[trigger] owner_ids(s, owner)[i]),
    decreases s.len(),
{
    if s.len() > 0 {
        let d = s.drop_last();
        lemma_owner_ids(d, owner);
        let r = owner_ids(d, owner);
        assert forall|i: int| 0 <= i < owner_ids(s, owner).len() implies has_entry_for(s, owner, #[trigger] owner_ids(s, owner)[i]) by {
            if i < r.len() {
                assert(owner_ids(s, owner)[i] == owner_ids(d, owner)[i]);
                assert(has_entry_for(d, owner, owner_ids(d, owner)[i]));
                let t = choose|t: int| 0 <= t < d.len() && #[trigger] d[t].owner_id@ == owner && d[t].room_id == r[i];
                assert(s[t] == d[t]);
            } else {
                assert(s[s.len() - 1].owner_id@ == owner);
            }
        }
    }
}

/// The ids of `rooms_by_owner[app][owner]`, in order of creation.
pub open spec fn owner_room_ids(c: &Contract, app: Seq<char>, owner: Seq<char>) -> Seq<u64> {
    if c.has_app(app) {
        owner_ids(c.apps@[c.app_pos(app)].rooms_by_owner@, owner)
    } else {
        Seq::empty()
    }
}

/// The length of the page at `start` of at most `want` of `len` entries.
pub open spec fn page_len(len: int, start: int, want: int) -> int {
    if start >= len { 0 } else if len - start < want { len - start } else { want }
}

impl Contract {
    /// Up to `limit` (none: zero) rooms that `owner_id` owns in `app_name`,
    /// from position `from_index` (none: zero) of the owner's list.
    pub fn get_owner_rooms(&self, app_name: &String, owner_id: &String, from_index: Option<u128>, limit: Option<usize>) -> (r: Result<Vec<Room>, RoomError>)
        requires
            self.wf(),
        ensures
            !self.has_app(app_name@) ==> r == Err::<Vec<Room>, RoomError>(RoomError::NotFound),
            self.has_app(app_name@) ==> r is Ok && {
                let ids = owner_room_ids(self, app_name@, owner_id@);
                let start = match from_index { Some(f) => f as int, None => 0 };
                let want = match limit { Some(l) => l as int, None => 0 };
                let n = page_len(ids.len() as int, start, want);
                &&& r->Ok_0@.len() == n
                &&& forall|i: int| 0 <= i < n ==> self.room(ids[start + i] as int) == Some((#[trigger] r->Ok_0@[i])@)
            },
    {
        let k = match self.find_app(app_name) {
            Some(k) => k,
            None => return Err(RoomError::NotFound),
        };
        proof {
            lemma_app_pos(self, k as int);
            assert(self.index_wf(k as int));
        }
        let entries = &self.apps[k].rooms_by_owner;
        let mut ids: Vec<u64> = Vec::new();
        let mut i: usize = 0;
        while i < entries.len()
            invariant
                i <= entries@.len(),
                ids@ == owner_ids(entries@.take(i as int), owner_id@),
            decreases entries@.len() - i,
        {
            assert(entries@.take(i + 1).drop_last() =~= entries@.take(i as int));
            if entries[i].owner_id == *owner_id {
                ids.push(entries[i].room_id);
            }
            i = i + 1;
        }
        assert(entries@.take(i as int) =~= entries@);
        proof {
            lemma_owner_ids(entries@, owner_id@);
            assert forall|q: int| 0 <= q < ids@.len() implies has_entry_for(entries@, owner_id@, #[trigger] ids@[q]) by {
                assert(ids@[q] == owner_ids(entries@, owner_id@)[q]);
            }
        }
        let total: usize = ids.len();
        let start: usize = match from_index {
            Some(f) => if f >= total as u128 { total } else { f as usize },
            None => 0,
        };
        let want: usize = match limit {
            Some(l) => l,
            None => 0,
        };
        let n: usize = if total - start < want { total - start } else { want };
        let mut out: Vec<Room> = Vec::new();
        let mut j: usize = 0;
        while j < n
            invariant
                self.wf(),
                k < self.apps@.len(),
                self.index_wf(k as int),
                *entries == self.apps@[k as int].rooms_by_owner,
                ids@ == owner_ids(entries@, owner_id@),
                forall|q: int| 0 <= q < ids@.len() ==> has_entry_for(entries@, owner_id@, #[trigger] ids@[q]),
                total == ids@.len(),
                start <= total,
                n <= total - start,
                j <= n,
                out@.len() == j,
                forall|q: int| 0 <= q < j ==> self.room(ids@[start + q] as int) == Some((#[trigger] out@[q])@),
            decreases n - j,
        {
            let id = ids[start + j];
            proof {
                assert(has_entry_for(entries@, owner_id@, ids@[start + j]));
                let t = choose|t: int| 0 <= t < entries@.len() && #[trigger] entries@[t].owner_id@ == owner_id@ && entries@[t].room_id == ids@[start + j];
                assert(self.room(entries@[t].room_id as int) is Some);
            }
            let idx = self.slot_index(id);
            let room = match &self.rooms[idx] {
                Some(room) => room.copy(),
                None => return Err(RoomError::NotFound),
            };
            out.push(room);
            j = j + 1;
        }
        Ok(out)
    }

    /// The room with id `room_id` in app `app_name`, if any.
    pub fn get_room(&self, app_name: &String, room_id: u64) -> (r: Option<Room>)
        requires
            self.wf(),
        ensures
            match self.room(room_id as int) {
                Some(m) => if m.app_name == app_name@ { r is Some && r->Some_0@ == m } else { r is None },
                None => r is None,
            },
    {
        if room_id >= self.next_room_id {
            return None;
        }
        let idx = self.slot_index(room_id);
        match &self.rooms[idx] {
            Some(room) => if room.app_name == *app_name {
                Some(room.copy())
            } else {
                None
            },
            None => None,
        }
    }

    /// The room that `account_id` is currently in within `app_name`.
    pub fn get_app_account_room(&self, app_name: &String, account_id: &String) -> (r: Option<Room>)
        requires
            self.wf(),
        ensures
            match self.current_room(app_name@, account_id@) {
                Some(id) => r is Some && self.room(id as int) == Some(r->Some_0@),
                None => r is None,
            },
    {
        let k = match self.find_app(app_name) {
            Some(k) => k,
            None => return None,
        };
        proof {
            lemma_app_pos(self, k as int);
            assert(self.index_wf(k as int));
        }
        match self.apps[k].current_of_exec(account_id) {
            None => None,
            Some(id) => {
                proof {
                    let ix = self.apps@[k as int];
                    let j = choose|j: int| 0 <= j < ix.current_rooms@.len() && #[trigger] ix.current_rooms@[j].account_id@ == account_id@;
                    assert(self.current_wf(k as int));
                    assert(ix.current_rooms@[j].room_id == Some(id));
                    assert(self.room(id as int) is Some);
                }
                let idx = self.slot_index(id);
                match &self.rooms[idx] {
                    Some(room) => Some(room.copy()),
                    None => None,
                }
            },
        }
    }

    /// How many rooms of `app_name` are available.
    pub fn get_number_of_available_rooms(&self, app_name: &String) -> (r: usize)
        requires
            self.wf(),
        ensures
            r == self.available(app_name@).len(),
    {
        match self.find_app(app_name) {
            Some(k) => {
                proof {
                    lemma_app_pos(self, k as int);
                }
                self.apps[k].available_rooms.len()
            },
            None => 0,
        }
    }

    /// Up to `limit` (none: zero) available rooms of `app_name`, from
    /// position `from_index` (none: zero) of the enumeration.
    pub fn get_app_rooms(&self, app_name: &String, from_index: Option<u128>, limit: Option<usize>) -> (r: Result<Vec<Room>, RoomError>)
        requires
            self.wf(),
        ensures
            !self.has_app(app_name@) ==> r == Err::<Vec<Room>, RoomError>(RoomError::NotFound),
            self.has_app(app_name@) ==> r is Ok && {
                let ids = self.available(app_name@);
                let start = match from_index { Some(f) => f as int, None => 0 };
                let want = match limit { Some(l) => l as int, None => 0 };
                let n = if start >= ids.len() { 0 } else if ids.len() - start < want { ids.len() - start } else { want };
                &&& r->Ok_0@.len() == n
                &&& forall|i: int| 0 <= i < n ==> self.room(ids[start + i] as int) == Some((#[trigger] r->Ok_0@[i])@)
            },
    {
        let k = match self.find_app(app_name) {
            Some(k) => k,
            None => return Err(RoomError::NotFound),
        };
        proof {
            lemma_app_pos(self, k as int);
            assert(self.index_wf(k as int));
        }
        let ids = &self.apps[k].available_rooms;
        let total: usize = ids.len();
        let start: usize = match from_index {
            Some(f) => if f >= total as u128 { total } else { f as usize },
            None => 0,
        };
        let want: usize = match limit {
            Some(l) => l,
            None => 0,
        };
        let n: usize = if total - start < want { total - start } else { want };
        let mut out: Vec<Room> = Vec::new();
        let mut i: usize = 0;
        while i < n
            invariant
                self.wf(),
                k < self.apps@.len(),
                self.index_wf(k as int),
                *ids == self.apps@[k as int].available_rooms,
                total == ids@.len(),
                start <= total,
                n <= total - start,
                i <= n,
                out@.len() == i,
                forall|j: int| 0 <= j < i ==> self.room(ids@[start + j] as int) == Some((#[trigger] out@[j])@),
            decreases n - i,
        {
            let id = ids[start + i];
            proof {
                assert(self.room(ids@[start + i] as int) is Some);
            }
            let idx = self.slot_index(id);
            let room = match &self.rooms[idx] {
                Some(room) => room.copy(),
                None => return Err(RoomError::NotFound),
            };
            out.push(room);
            i = i + 1;
        }
        Ok(out)
    }

    /// A position in `min..max` drawn from byte `index` of `random_seed`:
    /// `min + floor(r / 256 * (max - min))`.
    pub fn get_random_in_range(&self, min: usize, max: usize, index: usize, random_seed: &Vec<u8>) -> (r: usize)
        requires
            min <= max,
            index < random_seed@.len(),
        ensures
            r == min + pick_index(random_seed@[index as int], max - min),
            min <= r <= max,
            min < max ==> r < max,
    {
        let random: u8 = random_seed[index];
        let span: usize = max - min;
        proof {
            if span > 0 {
                lemma_pick_in_range(random, span as int);
            }
            assert(random as int * span as int <= 255 * span as int) by (nonlinear_arith)
                requires random as int <= 255, span as int >= 0;
            assert(0 <= random as int * span as int) by (nonlinear_arith)
                requires random as int >= 0, span as int >= 0;
        }
        let scaled: u128 = (random as u128) * (span as u128) / 256;
        proof {
            if span == 0 {
                assert(scaled == 0);
            }
        }
        min + scaled as usize
    }

    /// What `get_random_room` returns, by the id it picks.
    pub open spec fn random_room_outcome(&self, app: Seq<char>, r: u8) -> Result<u64, RoomError> {
        if !self.has_app(app) {
            Err(RoomError::NotFound)
        } else if self.available(app).len() == 0 {
            Err(RoomError::NoRoomsAvailable)
        } else {
            Ok(self.available(app)[pick_index(r, self.available(app).len() as int)])
        }
    }

    /// An available room of `app_name`, picked by the first byte of
    /// `random_seed`.
    pub fn get_random_room(&self, app_name: &String, random_seed: &Vec<u8>) -> (r: Result<Room, RoomError>)
        requires
            self.wf(),
            random_seed@.len() > 0,
        ensures
            match self.random_room_outcome(app_name@, random_seed@[0]) {
                Ok(id) => r is Ok && self.room(id as int) == Some(r->Ok_0@),
                Err(e) => r == Err::<Room, RoomError>(e),
            },
    {
        let k = match self.find_app(app_name) {
            Some(k) => k,
            None => return Err(RoomError::NotFound),
        };
        proof {
            lemma_app_pos(self, k as int);
            assert(self.index_wf(k as int));
        }
        let number_of_rooms: usize = self.apps[k].available_rooms.len();
        if number_of_rooms == 0 {
            return Err(RoomError::NoRoomsAvailable);
        }
        let rnd_idx = self.get_random_in_range(0, number_of_rooms, 0, random_seed);
        let id = self.apps[k].available_rooms[rnd_idx];
        proof {
            assert(self.room(self.apps@[k as int].available_rooms@[rnd_idx as int] as int) is Some);
        }
        let idx = self.slot_index(id);
        match &self.rooms[idx] {
            Some(room) => Ok(room.copy()),
            None => Err(RoomError::NotFound),
        }
    }
}

} // verus!
