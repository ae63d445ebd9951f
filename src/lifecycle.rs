use vstd::prelude::*;
use vstd::utf8::encode_utf8;
use crate::account::Account;
use crate::contract::{lemma_app_pos, lemma_remove_update, lemma_room_update, lemma_state_update, AppIndex, Contract, OwnedRoom};
use crate::room::{lemma_remove, lemma_swap_remove, opt_view, position_of, Room, RoomConfig, RoomError, RoomModel};
use crate::storage_tracker::StorageTracker;
use crate::enumerable::{owner_ids, owner_room_ids};

verus! {

/// Fixed storage cost of one key-value record.
pub const RECORD_OVERHEAD: u64 = 40;

/// Bytes of a string as stored: its UTF-8 length.
pub open spec fn utf8_len(s: Seq<char>) -> usize {
    encode_utf8(s).len() as usize
}

/// Bytes of a length-prefixed string.
pub open spec fn str_bytes(s: Seq<char>) -> int {
    4 + utf8_len(s)
}

/// Bytes that creating a room adds: the room record (id key, id, app,
/// name, owner, a one-player list, an empty ban list, the limit, two
/// flags, the optional extra), the available-rooms entry, the owner's
/// current-room entry when the owner has none yet in the app, and the
/// rooms-by-owner entry.
pub open spec fn new_room_bytes(
    app: Seq<char>,
    owner: Seq<char>,
    name: Seq<char>,
    extra: Option<Seq<char>>,
    new_entry: bool,
) -> int {
    let extra_bytes = match extra {
        Some(e) => 1 + str_bytes(e),
        None => 1,
    };
    let record = RECORD_OVERHEAD + 8 + 8 + str_bytes(app) + str_bytes(name) + str_bytes(owner) + 4
        + str_bytes(owner) + 4 + 8 + 2 + extra_bytes;
    let available = RECORD_OVERHEAD + str_bytes(app) + 8;
    let entry = if new_entry { RECORD_OVERHEAD + str_bytes(app) + str_bytes(owner) + 9 } else { 0 };
    let owned = RECORD_OVERHEAD + str_bytes(app) + str_bytes(owner) + 8;
    record + available + entry + owned
}

fn str_bytes_exec(s: &String) -> (r: u128)
    ensures
        r == str_bytes(s@),
{
    let n: usize = s.as_str().len();
    4 + n as u128
}

/// `new_room_bytes`, computed.
fn room_bytes(app: &String, owner: &String, name: &String, extra: &Option<String>, new_entry: bool) -> (r: u128)
    ensures
        r == new_room_bytes(app@, owner@, name@, opt_view(*extra), new_entry),
{
    let app_bytes = str_bytes_exec(app);
    let owner_bytes = str_bytes_exec(owner);
    let name_bytes = str_bytes_exec(name);
    let extra_bytes: u128 = match extra {
        Some(e) => 1 + str_bytes_exec(e),
        None => 1,
    };
    let overhead = RECORD_OVERHEAD as u128;
    let record: u128 = overhead + 8 + 8 + app_bytes + name_bytes + owner_bytes + 4 + owner_bytes + 4 + 8 + 2 + extra_bytes;
    let available: u128 = overhead + app_bytes + 8;
    let entry: u128 = if new_entry { overhead + app_bytes + owner_bytes + 9 } else { 0 };
    let owned: u128 = overhead + app_bytes + owner_bytes + 8;
    record + available + entry + owned
}

/// The room that `create_room` makes.
pub open spec fn new_room_model(id: u64, config: RoomConfig, owner: Seq<char>) -> RoomModel {
    RoomModel {
        room_id: id,
        app_name: config.app_name@,
        name: config.name@,
        owner_id: owner,
        players: seq![owner],
        banned_players: Seq::empty(),
        player_limit: config.player_limit,
        is_hidden: config.is_hidden,
        is_closed: false,
        extra: opt_view(config.extra),
    }
}

impl Contract {
    /// Whether `account` has a current-room entry in `app`.
    pub open spec fn has_current_entry(&self, app: Seq<char>, account: Seq<char>) -> bool {
        self.has_app(app) && exists|j: int|
            0 <= j < self.apps@[self.app_pos(app)].current_rooms@.len()
                && #[trigger] self.apps@[self.app_pos(app)].current_rooms@[j].account_id@ == account
    }

    /// The account that `create_room` charges, before reconciliation.
    pub open spec fn charged_account(a: Account, bytes: int) -> Account {
        Account { storage_tracker: StorageTracker { bytes_added: bytes as u64, bytes_released: 0, is_active: false }, ..a }
    }

    pub open spec fn create_room_bytes(&self, owner: Seq<char>, config: RoomConfig) -> int {
        new_room_bytes(config.app_name@, owner, config.name@, opt_view(config.extra),
            !self.has_current_entry(config.app_name@, owner))
    }

    /// What `create_room` returns.
    pub open spec fn create_room_outcome(&self, owner: Seq<char>, deposit: u128, config: RoomConfig) -> Result<u64, RoomError> {
        if config.player_limit == 0 {
            Err(RoomError::CapacityExceeded)
        } else {
            match self.account_or_create_outcome(owner, deposit) {
                Err(e) => Err(e),
                Ok(a) => {
                    let bytes = self.create_room_bytes(owner, config);
                    if bytes > u64::MAX {
                        Err(RoomError::StorageLimitExceeded)
                    } else {
                        match Self::charged_account(a, bytes).reconcile_outcome() {
                            Err(e) => Err(e),
                            Ok(_) => Ok(self.next_room_id),
                        }
                    }
                }
            }
        }
    }

    /// Whether `account` has a current-room entry in the index `ix`.
    fn has_entry(ix: &AppIndex, account: &String) -> (r: bool)
        ensures
            r == exists|j: int| 0 <= j < ix.current_rooms@.len() && #[trigger] ix.current_rooms@[j].account_id@ == account@,
    {
        let mut i: usize = 0;
        while i < ix.current_rooms.len()
            invariant
                i <= ix.current_rooms@.len(),
                forall|j: int| 0 <= j < i ==> #[trigger] ix.current_rooms@[j].account_id@ != account@,
            decreases ix.current_rooms@.len() - i,
        {
            if ix.current_rooms[i].account_id == *account {
                return true;
            }
            i = i + 1;
        }
        false
    }

    /// Files a new room under the next id and in every index of its app.
    fn save_new_room(&mut self, new_room: Room)
        requires
            old(self).wf(),
            old(self).next_room_id < u64::MAX,
            new_room.room_id == old(self).next_room_id,
            new_room@.wf(),
            !new_room.is_closed,
            new_room@.players == seq![new_room.owner_id@],
        ensures
            final(self).wf(),
            final(self).next_room_id == old(self).next_room_id + 1,
            final(self).room(new_room.room_id as int) == Some(new_room@),
            forall|i: int| i != new_room.room_id ==> #[trigger] final(self).room(i) == old(self).room(i),
            final(self).has_app(new_room.app_name@),
            forall|a: Seq<char>| #[trigger] final(self).has_app(a) <==> old(self).has_app(a) || a == new_room.app_name@,
            final(self).available(new_room.app_name@) == old(self).available(new_room.app_name@).push(new_room.room_id),
            forall|a: Seq<char>| a != new_room.app_name@ ==> #[trigger] final(self).available(a) == old(self).available(a),
            final(self).current_room(new_room.app_name@, new_room.owner_id@) == Some(new_room.room_id),
            forall|a: Seq<char>, x: Seq<char>| (a, x) != (new_room.app_name@, new_room.owner_id@)
                ==> #[trigger] final(self).current_room(a, x) == old(self).current_room(a, x),
            final(self).owned_by(new_room.app_name@, new_room.owner_id@)
                == old(self).owned_by(new_room.app_name@, new_room.owner_id@).insert(new_room.room_id),
            owner_room_ids(final(self), new_room.app_name@, new_room.owner_id@)
                == owner_room_ids(old(self), new_room.app_name@, new_room.owner_id@).push(new_room.room_id),
            forall|a: Seq<char>, x: Seq<char>| (a, x) != (new_room.app_name@, new_room.owner_id@)
                ==> #[trigger] final(self).owned_by(a, x) == old(self).owned_by(a, x),
            final(self).accounts == old(self).accounts,
    {
        let ghost old_self = *old(self);
        let id = new_room.room_id;
        let k: usize = match self.find_app(&new_room.app_name) {
            Some(k) => k,
            None => {
                self.apps.push(AppIndex {
                    app_name: new_room.app_name.clone(),
                    available_rooms: Vec::new(),
                    current_rooms: Vec::new(),
                    rooms_by_owner: Vec::new(),
                });
                self.apps.len() - 1
            },
        };
        let ghost mid = *self;
        let ghost app = new_room.app_name@;
        let ghost owner = new_room.owner_id@;
        proof {
            assert(mid.apps_unique()) by {
                if mid.apps@.len() > old_self.apps@.len() {
                    assert forall|k1: int| 0 <= k1 < old_self.apps@.len() implies #[trigger] mid.apps@[k1].app_name@ != app by {
                        assert(old_self.apps@[k1].app_name@ != app);
                    }
                }
            }
            assert(mid.apps@[k as int].app_name@ == app);
            if mid.apps@.len() == old_self.apps@.len() {
                assert(old_self.index_wf(k as int));
                assert(mid.apps@ == old_self.apps@);
            } else {
                assert(mid.apps@[k as int].current_rooms@.len() == 0);
            }
        }
        let ghost ix0 = mid.apps@[k as int];
        self.apps[k].available_rooms.push(id);
        let ghost ix1 = self.apps@[k as int];
        self.apps[k].set_current(&new_room.owner_id, Some(id));
        let ghost ix2 = self.apps@[k as int];
        self.apps[k].rooms_by_owner.push(OwnedRoom { owner_id: new_room.owner_id.clone(), room_id: id });
        let ghost model = new_room@;
        self.rooms.push(Some(new_room));
        self.next_room_id = self.next_room_id + 1;
        proof {
            let n = *self;
            let ix = n.apps@[k as int];
            assert(n.apps@ == mid.apps@.update(k as int, ix));
            assert(n.rooms@ == old_self.rooms@.push(Some(new_room)));
            assert(ix.app_name@ == app);
            assert(ix.available_rooms@ == ix0.available_rooms@.push(id));
            assert(ix.rooms_by_owner@ == ix0.rooms_by_owner@.push(OwnedRoom { owner_id: new_room.owner_id, room_id: id }));
            // names are kept
            assert forall|j: int| 0 <= j < n.apps@.len() implies #[trigger] n.apps@[j].app_name@ == mid.apps@[j].app_name@ by {}
            assert(n.apps_unique()) by {
                assert forall|k1: int, k2: int|
                    0 <= k1 < n.apps@.len() && 0 <= k2 < n.apps@.len() && k1 != k2
                        implies #[trigger] n.apps@[k1].app_name@ != #[trigger] n.apps@[k2].app_name@ by {
                    assert(mid.apps@[k1].app_name@ != mid.apps@[k2].app_name@);
                }
            }
            lemma_app_pos(&n, k as int);
            // rooms below the new id are unchanged
            assert forall|i: int| i != id implies #[trigger] n.room(i) == old_self.room(i) by {}
            assert(n.room(id as int) == Some(model));
            // the namespaces other than `app` are those of the old state
            assert forall|a: Seq<char>| #[trigger] n.has_app(a) <==> old_self.has_app(a) || a == app by {
                if old_self.has_app(a) {
                    let p = old_self.app_pos(a);
                    assert(n.apps@[p].app_name@ == a);
                }
                if n.has_app(a) && a != app {
                    let p = n.app_pos(a);
                    assert(p != k);
                    assert(old_self.apps@[p].app_name@ == a);
                }
            }
            assert forall|a: Seq<char>| a != app implies #[trigger] n.available(a) == old_self.available(a)
                && (forall|x: Seq<char>| #[trigger] n.current_room(a, x) == old_self.current_room(a, x)) by {
                if n.has_app(a) {
                    let p = n.app_pos(a);
                    assert(p != k);
                    assert(old_self.apps@[p].app_name@ == a);
                    lemma_app_pos(&old_self, p);
                    lemma_app_pos(&n, p);
                }
            }
            if old_self.has_app(app) {
                lemma_app_pos(&old_self, k as int);
                assert(mid.apps@ == old_self.apps@);
            } else {
                assert(old_self.available(app) == Seq::<u64>::empty());
                assert(ix0.available_rooms@ == Seq::<u64>::empty());
                assert forall|x: Seq<char>| old_self.current_room(app, x) == ix0.current_of(x) by {}
            }
            assert(n.available(app) == old_self.available(app).push(id));
            assert forall|x: Seq<char>| old_self.current_room(app, x) == ix0.current_of(x) by {
                if old_self.has_app(app) {
                    lemma_app_pos(&old_self, k as int);
                }
            }
            assert(n.current_room(app, owner) == Some(id));
            assert forall|a: Seq<char>, x: Seq<char>| (a, x) != (app, owner)
                implies #[trigger] n.current_room(a, x) == old_self.current_room(a, x) by {
                if a == app {
                    assert(ix1.current_of(x) == ix0.current_of(x));
                    assert(ix2.current_of(x) == ix1.current_of(x));
                    assert(ix.current_rooms == ix2.current_rooms);
                }
            }
            assert(ix.rooms_by_owner@.drop_last() =~= ix0.rooms_by_owner@);
            assert(owner_ids(ix.rooms_by_owner@, owner) == owner_ids(ix0.rooms_by_owner@, owner).push(id));
            if old_self.has_app(app) {
                lemma_app_pos(&old_self, k as int);
            } else {
                assert(ix0.rooms_by_owner@ =~= Seq::<OwnedRoom>::empty());
            }
            assert(owner_room_ids(&n, app, owner) == owner_room_ids(&old_self, app, owner).push(id));
            assert forall|a: Seq<char>, x: Seq<char>| (a, x) != (app, owner)
                implies #[trigger] n.owned_by(a, x) == old_self.owned_by(a, x) by {
                if a == app {
                    if old_self.has_app(app) {
                        lemma_app_pos(&old_self, k as int);
                    }
                    assert forall|e: u64| n.owned_by(a, x).contains(e) <==> old_self.owned_by(a, x).contains(e) by {
                        if n.owned_by(a, x).contains(e) {
                            let t = choose|t: int| 0 <= t < ix.rooms_by_owner@.len()
                                && #[trigger] ix.rooms_by_owner@[t].owner_id@ == x && ix.rooms_by_owner@[t].room_id == e;
                            assert(t < ix0.rooms_by_owner@.len());
                            assert(ix0.rooms_by_owner@[t] == ix.rooms_by_owner@[t]);
                        }
                        if old_self.owned_by(a, x).contains(e) {
                            let t = choose|t: int| 0 <= t < ix0.rooms_by_owner@.len()
                                && #[trigger] ix0.rooms_by_owner@[t].owner_id@ == x && ix0.rooms_by_owner@[t].room_id == e;
                            assert(ix.rooms_by_owner@[t] == ix0.rooms_by_owner@[t]);
                        }
                    }
                } else if old_self.has_app(a) || n.has_app(a) {
                    assert(n.has_app(a));
                    let p = n.app_pos(a);
                    assert(n.apps@[p].app_name@ == a);
                    assert(n.apps@[k as int].app_name@ == app);
                    assert(p != k);
                    assert(old_self.apps@[p].app_name@ == a);
                    lemma_app_pos(&old_self, p);
                    lemma_app_pos(&n, p);
                }
                assert(n.owned_by(a, x) =~= old_self.owned_by(a, x));
            }
            assert(n.owned_by(app, owner) =~= old_self.owned_by(app, owner).insert(id)) by {
                if old_self.has_app(app) {
                    lemma_app_pos(&old_self, k as int);
                }
                assert forall|e: u64| n.owned_by(app, owner).contains(e) implies old_self.owned_by(app, owner).insert(id).contains(e) by {
                    let j = choose|j: int| 0 <= j < ix.rooms_by_owner@.len()
                        && #[trigger] ix.rooms_by_owner@[j].owner_id@ == owner && ix.rooms_by_owner@[j].room_id == e;
                    if j < ix0.rooms_by_owner@.len() {
                        assert(ix0.rooms_by_owner@[j] == ix.rooms_by_owner@[j]);
                    }
                }
                assert forall|e: u64| old_self.owned_by(app, owner).insert(id).contains(e) implies n.owned_by(app, owner).contains(e) by {
                    if e == id {
                        let j = ix0.rooms_by_owner@.len() as int;
                        assert(ix.rooms_by_owner@[j].owner_id@ == owner);
                    } else {
                        let j = choose|j: int| 0 <= j < ix0.rooms_by_owner@.len()
                            && #[trigger] ix0.rooms_by_owner@[j].owner_id@ == owner && ix0.rooms_by_owner@[j].room_id == e;
                        assert(ix.rooms_by_owner@[j] == ix0.rooms_by_owner@[j]);
                    }
                }
            }
            // old index entries refer to rooms below the new id
            assert forall|k2: int| 0 <= k2 < n.apps@.len() implies #[trigger] n.index_wf(k2) by {
                if k2 != k {
                    assert(old_self.index_wf(k2));
                    let ixk = n.apps@[k2];
                    assert(ixk == old_self.apps@[k2]);
                    assert forall|j: int| 0 <= j < ixk.available_rooms@.len() implies
                        #[trigger] n.room(ixk.available_rooms@[j] as int) == old_self.room(ixk.available_rooms@[j] as int) by {}
                } else {
                    if old_self.has_app(app) {
                        lemma_app_pos(&old_self, k as int);
                        assert(old_self.index_wf(k as int));
                        assert(ix0 == old_self.apps@[k as int]);
                    }
                    assert forall|j: int| 0 <= j < ix0.available_rooms@.len() implies
                        (#[trigger] ix0.available_rooms@[j]) < id by {
                        assert(old_self.room(ix0.available_rooms@[j] as int) is Some);
                    }
                    assert(ix.available_rooms@.no_duplicates()) by {
                        assert forall|i1: int, i2: int| 0 <= i1 < ix.available_rooms@.len() && 0 <= i2 < ix.available_rooms@.len() && i1 != i2
                            implies ix.available_rooms@[i1] != ix.available_rooms@[i2] by {
                            if i1 < ix0.available_rooms@.len() && i2 < ix0.available_rooms@.len() {
                                assert(ix0.available_rooms@[i1] != ix0.available_rooms@[i2]);
                            } else if i1 < ix0.available_rooms@.len() {
                                assert(ix0.available_rooms@[i1] < id);
                            } else if i2 < ix0.available_rooms@.len() {
                                assert(ix0.available_rooms@[i2] < id);
                            }
                        }
                    }
                    assert forall|j: int| #![trigger ix.available_rooms@[j]] 0 <= j < ix.available_rooms@.len() implies {
                        let r = n.room(ix.available_rooms@[j] as int);
                        r is Some && r->Some_0.app_name == app && !r->Some_0.is_closed
                    } by {
                        if j < ix0.available_rooms@.len() {
                            assert(ix.available_rooms@[j] == ix0.available_rooms@[j]);
                            assert(ix0.available_rooms@[j] < id);
                        }
                    }
                    assert(model.players[0] == owner);
                    assert(model.has_player(owner));
                    assert forall|j: int| #![trigger ix.current_rooms@[j]]
                        0 <= j < ix.current_rooms@.len() && ix.current_rooms@[j].room_id is Some implies {
                        let r = n.room(ix.current_rooms@[j].room_id->Some_0 as int);
                        r is Some && r->Some_0.app_name == app && r->Some_0.has_player(ix.current_rooms@[j].account_id@)
                    } by {
                        if !(ix.current_rooms@[j].account_id@ == owner && ix.current_rooms@[j].room_id == Some(id)) {
                            assert(ix.current_rooms@[j] == ix0.current_rooms@[j]);
                            assert(old_self.room(ix0.current_rooms@[j].room_id->Some_0 as int) is Some);
                        }
                    }
                    assert forall|j: int| #![trigger ix.rooms_by_owner@[j]] 0 <= j < ix.rooms_by_owner@.len() implies {
                        let r = n.room(ix.rooms_by_owner@[j].room_id as int);
                        r is Some && r->Some_0.app_name == app && r->Some_0.owner_id == ix.rooms_by_owner@[j].owner_id@
                    } by {
                        if j < ix0.rooms_by_owner@.len() {
                            assert(ix.rooms_by_owner@[j] == ix0.rooms_by_owner@[j]);
                            assert(old_self.room(ix0.rooms_by_owner@[j].room_id as int) is Some);
                        }
                    }
                }
            }
            assert(n.rooms_wf()) by {
                assert forall|i: int| #![trigger n.rooms@[i]] 0 <= i < n.rooms@.len() && n.rooms@[i] is Some implies {
                    let r = n.rooms@[i]->Some_0@;
                    &&& r.room_id == i
                    &&& r.wf()
                    &&& n.has_app(r.app_name)
                    &&& (!r.is_closed ==> n.available(r.app_name).contains(i as u64))
                } by {
                    if i < old_self.rooms@.len() {
                        assert(n.rooms@[i] == old_self.rooms@[i]);
                        let r = n.rooms@[i]->Some_0@;
                        assert(old_self.has_app(r.app_name));
                        if !r.is_closed {
                            assert(old_self.available(r.app_name).contains(i as u64));
                            if r.app_name == app {
                                let q = choose|q: int| 0 <= q < old_self.available(app).len() && old_self.available(app)[q] == i as u64;
                                assert(n.available(app)[q] == i as u64);
                            }
                        }
                    } else {
                        assert(n.available(app)[n.available(app).len() - 1] == id);
                    }
                }
            }
        }
    }

    /// Creates a room owned by `account_id`, funded by `attached_deposit`,
    /// and charges its bytes to the owner's account. On an error nothing
    /// changes.
    pub fn create_room(&mut self, account_id: &String, attached_deposit: u128, room_config: RoomConfig) -> (r: Result<u64, RoomError>)
        requires
            old(self).wf(),
            old(self).next_room_id < u64::MAX,
        ensures
            final(self).wf(),
            r == old(self).create_room_outcome(account_id@, attached_deposit, room_config),
            r is Err ==> *final(self) == *old(self),
            r is Ok ==> {
                let id = old(self).next_room_id;
                let app = room_config.app_name@;
                let owner = account_id@;
                &&& final(self).next_room_id == id + 1
                &&& final(self).room(id as int) == Some(new_room_model(id, room_config, owner))
                &&& forall|i: int| i != id ==> #[trigger] final(self).room(i) == old(self).room(i)
                &&& final(self).available(app) == old(self).available(app).push(id)
                &&& forall|a: Seq<char>| a != app ==> #[trigger] final(self).available(a) == old(self).available(a)
                &&& final(self).current_room(app, owner) == Some(id)
                &&& forall|a: Seq<char>, x: Seq<char>| (a, x) != (app, owner)
                    ==> #[trigger] final(self).current_room(a, x) == old(self).current_room(a, x)
                &&& final(self).owned_by(app, owner) == old(self).owned_by(app, owner).insert(id)
                &&& owner_room_ids(final(self), app, owner) == owner_room_ids(old(self), app, owner).push(id)
                &&& forall|a: Seq<char>, x: Seq<char>| (a, x) != (app, owner)
                    ==> #[trigger] final(self).owned_by(a, x) == old(self).owned_by(a, x)
                &&& final(self).account_of(owner) == Some(Self::charged_account(
                        old(self).account_or_create_outcome(owner, attached_deposit)->Ok_0,
                        old(self).create_room_bytes(owner, room_config),
                    ).reconcile_outcome()->Ok_0)
                &&& forall|x: Seq<char>| x != owner ==> #[trigger] final(self).account_of(x) == old(self).account_of(x)
            },
    {
        if room_config.player_limit == 0 {
            return Err(RoomError::CapacityExceeded);
        }
        let account = match self.account_or_create(account_id, attached_deposit) {
            Ok(a) => a,
            Err(e) => return Err(e),
        };
        let new_entry = match self.find_app(&room_config.app_name) {
            Some(k) => !Self::has_entry(&self.apps[k], account_id),
            None => true,
        };
        let bytes = room_bytes(&room_config.app_name, account_id, &room_config.name, &room_config.extra, new_entry);
        if bytes > u64::MAX as u128 {
            return Err(RoomError::StorageLimitExceeded);
        }
        let mut account = account;
        account.start_storage_tracker();
        account.storage_tracker.add(bytes as u64);
        account.stop_storage_tracker();
        match self.internal_set_account(account_id, account) {
            Ok(_) => {},
            Err(e) => return Err(e),
        }
        let room_id = self.next_room_id;
        let mut players: Vec<String> = Vec::new();
        players.push(account_id.clone());
        let new_room = Room {
            room_id,
            app_name: room_config.app_name.clone(),
            name: room_config.name,
            owner_id: account_id.clone(),
            players,
            banned_players: Vec::new(),
            player_limit: room_config.player_limit,
            is_hidden: room_config.is_hidden,
            is_closed: false,
            extra: room_config.extra,
        };
        proof {
            assert(new_room@.players =~= seq![account_id@]);
            assert(new_room@.banned_players =~= Seq::<Seq<char>>::empty());
            assert(new_room@ == new_room_model(room_id, room_config, account_id@));
        }
        self.save_new_room(new_room);
        Ok(room_id)
    }

    /// What `join` returns.
    pub open spec fn join_outcome(&self, caller: Seq<char>, room_id: u64, app: Seq<char>) -> Result<(), RoomError> {
        match self.room(room_id as int) {
            None => Err(RoomError::NotFound),
            Some(r) => if r.app_name != app {
                Err(RoomError::NotFound)
            } else if r.is_closed {
                Err(RoomError::InvalidState)
            } else if r.players.len() >= r.player_limit {
                Err(RoomError::CapacityExceeded)
            } else if r.has_player(caller) {
                Err(RoomError::AlreadyJoined)
            } else if r.is_banned(caller) {
                Err(RoomError::PlayerBanned)
            } else {
                Ok(())
            },
        }
    }

    /// Adds `account_id` to the players of room `room_id` of app `app_name`
    /// and makes it the account's current room there. Joining is not
    /// metered: a player needs no storage account, and only the owner's
    /// `create_room` and `remove` move bytes in the ledger.
    pub fn join(&mut self, account_id: &String, room_id: u64, app_name: &String) -> (r: Result<(), RoomError>)
        requires
            old(self).wf(),
        ensures
            final(self).wf(),
            r == old(self).join_outcome(account_id@, room_id, app_name@),
            r is Err ==> *final(self) == *old(self),
            r is Ok ==> {
                let old_room = old(self).room(room_id as int)->Some_0;
                &&& final(self).room(room_id as int) == Some(RoomModel { players: old_room.players.push(account_id@), ..old_room })
                &&& forall|i: int| i != room_id ==> #[trigger] final(self).room(i) == old(self).room(i)
                &&& final(self).current_room(app_name@, account_id@) == Some(room_id)
                &&& forall|a: Seq<char>, x: Seq<char>| (a, x) != (app_name@, account_id@)
                    ==> #[trigger] final(self).current_room(a, x) == old(self).current_room(a, x)
                &&& forall|a: Seq<char>| #[trigger] final(self).available(a) == old(self).available(a)
                &&& forall|a: Seq<char>, x: Seq<char>| #[trigger] final(self).owned_by(a, x) == old(self).owned_by(a, x)
                &&& final(self).accounts == old(self).accounts
                &&& final(self).next_room_id == old(self).next_room_id
            },
    {
        if room_id >= self.next_room_id {
            return Err(RoomError::NotFound);
        }
        let idx = self.slot_index(room_id);
        match &self.rooms[idx] {
            None => return Err(RoomError::NotFound),
            Some(room) => {
                if room.app_name != *app_name {
                    return Err(RoomError::NotFound);
                }
                if room.is_closed {
                    return Err(RoomError::InvalidState);
                }
                if room.player_limit <= room.players.len() {
                    return Err(RoomError::CapacityExceeded);
                }
                if crate::room::contains_id(&room.players, account_id) {
                    return Err(RoomError::AlreadyJoined);
                }
                if crate::room::contains_id(&room.banned_players, account_id) {
                    return Err(RoomError::PlayerBanned);
                }
            },
        }
        let ghost o = *old(self);
        let ghost old_room = o.room(room_id as int)->Some_0;
        assert(o.rooms@[idx as int] is Some);
        assert(o.has_app(app_name@));
        let k = match self.find_app(app_name) {
            Some(k) => k,
            None => return Err(RoomError::NotFound),
        };
        proof {
            lemma_app_pos(&o, k as int);
            assert(o.index_wf(k as int));
        }
        match &mut self.rooms[idx] {
            Some(room) => room.players.push(account_id.clone()),
            None => {},
        }
        let ghost ix1 = self.apps@[k as int];
        self.apps[k].set_current(account_id, Some(room_id));
        proof {
            let n = *self;
            let ix = n.apps@[k as int];
            let new_room = n.rooms@[idx as int]->Some_0@;
            assert(new_room.players =~= old_room.players.push(account_id@));
            assert(new_room.players.last() == account_id@);
            assert(new_room.has_player(account_id@));
            assert forall|j: int| #![trigger ix.current_rooms@[j]]
                0 <= j < ix.current_rooms@.len() && ix.current_rooms@[j].room_id is Some implies {
                let r = n.room(ix.current_rooms@[j].room_id->Some_0 as int);
                r is Some && r->Some_0.app_name == app_name@ && r->Some_0.has_player(ix.current_rooms@[j].account_id@)
            } by {
                if !(ix.current_rooms@[j].account_id@ == account_id@ && ix.current_rooms@[j].room_id == Some(room_id)) {
                    let e = ix.current_rooms@[j];
                    assert(e == ix1.current_rooms@[j]);
                    let q = e.room_id->Some_0 as int;
                    if q == room_id {
                        let t = choose|t: int| 0 <= t < old_room.players.len() && old_room.players[t] == e.account_id@;
                        assert(new_room.players[t] == e.account_id@);
                    }
                }
            }
            assert(new_room.wf()) by {
                assert forall|i: int| 0 <= i < new_room.players.len() implies !new_room.banned_players.contains(#[trigger] new_room.players[i]) by {
                    if i < old_room.players.len() {
                        assert(new_room.players[i] == old_room.players[i]);
                    }
                }
            }
            lemma_room_update(&o, &n, room_id as int, k as int);
            assert forall|x: Seq<char>| x != account_id@ implies #[trigger] n.current_room(app_name@, x) == o.current_room(app_name@, x) by {
                lemma_app_pos(&n, k as int);
            }
            lemma_app_pos(&n, k as int);
            assert(n.room(room_id as int) == Some(RoomModel { players: old_room.players.push(account_id@), ..old_room }));
        }
        Ok(())
    }

    /// What `leave` returns.
    pub open spec fn leave_outcome(&self, caller: Seq<char>, room_id: u64, app: Seq<char>) -> Result<(), RoomError> {
        match self.room(room_id as int) {
            None => Err(RoomError::NotFound),
            Some(r) => if r.app_name != app {
                Err(RoomError::NotFound)
            } else if r.is_closed {
                Err(RoomError::InvalidState)
            } else if !r.has_player(caller) {
                Err(RoomError::NotAMember)
            } else {
                Ok(())
            },
        }
    }

    /// Takes `account_id` out of the players of room `room_id` (the last
    /// player takes its place) and clears its current room in the app.
    pub fn leave(&mut self, account_id: &String, room_id: u64, app_name: &String) -> (r: Result<(), RoomError>)
        requires
            old(self).wf(),
        ensures
            final(self).wf(),
            r == old(self).leave_outcome(account_id@, room_id, app_name@),
            r is Err ==> *final(self) == *old(self),
            r is Ok ==> {
                let old_room = old(self).room(room_id as int)->Some_0;
                &&& exists|p: int| 0 <= p < old_room.players.len() && old_room.players[p] == account_id@
                    && final(self).room(room_id as int) == Some(RoomModel {
                        players: old_room.players.update(p, old_room.players.last()).drop_last(),
                        ..old_room
                    })
                &&& forall|i: int| i != room_id ==> #[trigger] final(self).room(i) == old(self).room(i)
                &&& final(self).current_room(app_name@, account_id@) is None
                &&& forall|a: Seq<char>, x: Seq<char>| (a, x) != (app_name@, account_id@)
                    ==> #[trigger] final(self).current_room(a, x) == old(self).current_room(a, x)
                &&& forall|a: Seq<char>| #[trigger] final(self).available(a) == old(self).available(a)
                &&& forall|a: Seq<char>, x: Seq<char>| #[trigger] final(self).owned_by(a, x) == old(self).owned_by(a, x)
                &&& final(self).accounts == old(self).accounts
                &&& final(self).next_room_id == old(self).next_room_id
            },
    {
        if room_id >= self.next_room_id {
            return Err(RoomError::NotFound);
        }
        let idx = self.slot_index(room_id);
        let p: usize = match &self.rooms[idx] {
            None => return Err(RoomError::NotFound),
            Some(room) => {
                if room.app_name != *app_name {
                    return Err(RoomError::NotFound);
                }
                if room.is_closed {
                    return Err(RoomError::InvalidState);
                }
                match position_of(&room.players, account_id) {
                    Some(p) => p,
                    None => return Err(RoomError::NotAMember),
                }
            },
        };
        let ghost o = *old(self);
        let ghost old_room = o.room(room_id as int)->Some_0;
        assert(o.rooms@[idx as int] is Some);
        assert(o.has_app(app_name@));
        let k = match self.find_app(app_name) {
            Some(k) => k,
            None => return Err(RoomError::NotFound),
        };
        proof {
            lemma_app_pos(&o, k as int);
            assert(o.index_wf(k as int));
            assert(old_room.players[p as int] == account_id@);
            lemma_swap_remove(old_room.players, p as int);
        }
        match &mut self.rooms[idx] {
            Some(room) => {
                room.players.swap_remove(p);
            },
            None => {},
        }
        let ghost ix1 = self.apps@[k as int];
        self.apps[k].set_current(account_id, None);
        proof {
            let n = *self;
            let ix = n.apps@[k as int];
            let new_room = n.rooms@[idx as int]->Some_0@;
            let t = old_room.players.update(p as int, old_room.players.last()).drop_last();
            assert(new_room.players =~= t);
            assert forall|j: int| #![trigger ix.current_rooms@[j]]
                0 <= j < ix.current_rooms@.len() && ix.current_rooms@[j].room_id is Some implies {
                let r = n.room(ix.current_rooms@[j].room_id->Some_0 as int);
                r is Some && r->Some_0.app_name == app_name@ && r->Some_0.has_player(ix.current_rooms@[j].account_id@)
            } by {
                let e = ix.current_rooms@[j];
                if !(e.account_id@ == account_id@ && e.room_id is None) {
                    assert(e == ix1.current_rooms@[j]);
                    if e.account_id@ == account_id@ {
                        assert(ix.current_rooms@[j].account_id@ == account_id@);
                        let jj = choose|jj: int| 0 <= jj < ix.current_rooms@.len() && #[trigger] ix.current_rooms@[jj].account_id@ == account_id@;
                        if jj != j {
                            assert(ix.current_rooms@[jj].account_id@ != ix.current_rooms@[j].account_id@);
                        }
                    }
                    assert(e.account_id@ != account_id@);
                    let q = e.room_id->Some_0 as int;
                    if q == room_id {
                        assert(old_room.has_player(e.account_id@));
                        assert(t.contains(e.account_id@));
                    }
                }
            }
            assert(new_room.wf()) by {
                assert forall|i: int| 0 <= i < new_room.players.len() implies !new_room.banned_players.contains(#[trigger] new_room.players[i]) by {
                    assert(t.contains(new_room.players[i]));
                    let y = new_room.players[i];
                    let si = choose|si: int| 0 <= si < old_room.players.len() && old_room.players[si] == y;
                }
            }
            lemma_room_update(&o, &n, room_id as int, k as int);
            assert forall|x: Seq<char>| x != account_id@ implies #[trigger] n.current_room(app_name@, x) == o.current_room(app_name@, x) by {
                lemma_app_pos(&n, k as int);
            }
            lemma_app_pos(&n, k as int);
            assert(n.room(room_id as int) == Some(RoomModel { players: t, ..old_room }));
        }
        Ok(())
    }

    /// What `kick_and_ban` returns.
    pub open spec fn kick_and_ban_outcome(&self, caller: Seq<char>, room_id: u64) -> Result<(), RoomError> {
        match self.room(room_id as int) {
            None => Err(RoomError::NotFound),
            Some(r) => if r.is_closed {
                Err(RoomError::InvalidState)
            } else if r.owner_id != caller {
                Err(RoomError::NotAuthorized)
            } else {
                Ok(())
            },
        }
    }

    /// The room after `target` is banned from it.
    pub open spec fn banned_room(r: RoomModel, target: Seq<char>) -> RoomModel {
        let players = if r.has_player(target) {
            r.players.remove(r.players.index_of(target))
        } else {
            r.players
        };
        let banned = if r.is_banned(target) { r.banned_players } else { r.banned_players.push(target) };
        RoomModel { players, banned_players: banned, ..r }
    }

    /// The owner removes `player_to_ban_id` from the players, if there, and
    /// bans it; its current room in the app is cleared if it was this one.
    pub fn kick_and_ban(&mut self, account_id: &String, player_to_ban_id: &String, room_id: u64) -> (r: Result<(), RoomError>)
        requires
            old(self).wf(),
        ensures
            final(self).wf(),
            r == old(self).kick_and_ban_outcome(account_id@, room_id),
            r is Err ==> *final(self) == *old(self),
            r is Ok ==> {
                let old_room = old(self).room(room_id as int)->Some_0;
                let app = old_room.app_name;
                let target = player_to_ban_id@;
                &&& final(self).room(room_id as int) == Some(Self::banned_room(old_room, target))
                &&& forall|i: int| i != room_id ==> #[trigger] final(self).room(i) == old(self).room(i)
                &&& final(self).current_room(app, target) == (if old(self).current_room(app, target) == Some(room_id) {
                        None
                    } else {
                        old(self).current_room(app, target)
                    })
                &&& forall|a: Seq<char>, x: Seq<char>| (a, x) != (app, target)
                    ==> #[trigger] final(self).current_room(a, x) == old(self).current_room(a, x)
                &&& forall|a: Seq<char>| #[trigger] final(self).available(a) == old(self).available(a)
                &&& forall|a: Seq<char>, x: Seq<char>| #[trigger] final(self).owned_by(a, x) == old(self).owned_by(a, x)
                &&& final(self).accounts == old(self).accounts
                &&& final(self).next_room_id == old(self).next_room_id
            },
    {
        if room_id >= self.next_room_id {
            return Err(RoomError::NotFound);
        }
        let idx = self.slot_index(room_id);
        let (pos, already_banned, k) = match &self.rooms[idx] {
            None => return Err(RoomError::NotFound),
            Some(room) => {
                if room.is_closed {
                    return Err(RoomError::InvalidState);
                }
                if room.owner_id != *account_id {
                    return Err(RoomError::NotAuthorized);
                }
                let ghost o = *self;
                assert(o.rooms@[idx as int] is Some);
                assert(o.has_app(room.app_name@));
                let k = match self.find_app(&room.app_name) {
                    Some(k) => k,
                    None => return Err(RoomError::NotFound),
                };
                (position_of(&room.players, player_to_ban_id), crate::room::contains_id(&room.banned_players, player_to_ban_id), k)
            },
        };
        let ghost o = *old(self);
        let ghost old_room = o.room(room_id as int)->Some_0;
        let ghost app = old_room.app_name;
        let ghost target = player_to_ban_id@;
        proof {
            lemma_app_pos(&o, k as int);
            assert(o.index_wf(k as int));
            if pos is Some {
                let p = pos->Some_0 as int;
                assert(old_room.players[p] == target);
                lemma_remove(old_room.players, p);
                assert(old_room.players.index_of(target) == p) by {
                    let q = old_room.players.index_of(target);
                    if q != p {
                        assert(old_room.players[q] != old_room.players[p]);
                    }
                }
            }
        }
        match &mut self.rooms[idx] {
            Some(room) => {
                match pos {
                    Some(p) => {
                        room.players.remove(p);
                    },
                    None => {},
                }
                if !already_banned {
                    room.banned_players.push(player_to_ban_id.clone());
                }
            },
            None => {},
        }
        let current = self.apps[k].current_of_exec(player_to_ban_id);
        let ghost ix1 = self.apps@[k as int];
        if current == Some(room_id) {
            self.apps[k].set_current(player_to_ban_id, None);
        }
        proof {
            let n = *self;
            let ix = n.apps@[k as int];
            let new_room = n.rooms@[idx as int]->Some_0@;
            let expected = Self::banned_room(old_room, target);
            assert(new_room.players =~= expected.players);
            assert(new_room.banned_players =~= expected.banned_players);
            assert(new_room == expected);
            assert(expected.banned_players.contains(target)) by {
                if !old_room.is_banned(target) {
                    assert(expected.banned_players[expected.banned_players.len() - 1] == target);
                }
            }
            assert forall|y: Seq<char>| #[trigger] new_room.players.contains(y) implies old_room.players.contains(y) && y != target by {
                if !old_room.has_player(target) {
                    assert(old_room.players.contains(y));
                }
            }
            assert forall|y: Seq<char>| old_room.players.contains(y) && y != target implies #[trigger] new_room.players.contains(y) by {}
            assert forall|j: int| #![trigger ix.current_rooms@[j]]
                0 <= j < ix.current_rooms@.len() && ix.current_rooms@[j].room_id is Some implies {
                let r = n.room(ix.current_rooms@[j].room_id->Some_0 as int);
                r is Some && r->Some_0.app_name == app && r->Some_0.has_player(ix.current_rooms@[j].account_id@)
            } by {
                let e = ix.current_rooms@[j];
                assert(e == ix1.current_rooms@[j]);
                let q = e.room_id->Some_0 as int;
                if q == room_id && e.account_id@ == target {
                    // the entry was cleared
                    assert(ix1.current_of(target) == Some(room_id)) by {
                        let jj = choose|jj: int| 0 <= jj < ix1.current_rooms@.len() && #[trigger] ix1.current_rooms@[jj].account_id@ == target;
                        if jj != j {
                            assert(ix1.current_rooms@[jj].account_id@ != ix1.current_rooms@[j].account_id@);
                        }
                    }
                    assert(false);
                }
                if q == room_id {
                    assert(old_room.has_player(e.account_id@));
                }
            }
            assert(new_room.wf()) by {
                assert forall|i: int| 0 <= i < new_room.players.len() implies !new_room.banned_players.contains(#[trigger] new_room.players[i]) by {
                    let y = new_room.players[i];
                    assert(new_room.players.contains(y));
                    if new_room.banned_players.contains(y) && y != target {
                        if !old_room.is_banned(target) {
                            let b = choose|b: int| 0 <= b < new_room.banned_players.len() && new_room.banned_players[b] == y;
                            assert(old_room.banned_players[b] == y);
                        }
                        let si = choose|si: int| 0 <= si < old_room.players.len() && old_room.players[si] == y;
                    }
                }
                if !old_room.has_player(target) {
                    assert(new_room.players == old_room.players);
                }
            }
            assert(n.current_wf(k as int));
            lemma_room_update(&o, &n, room_id as int, k as int);
            lemma_app_pos(&n, k as int);
            assert forall|x: Seq<char>| x != target implies #[trigger] n.current_room(app, x) == o.current_room(app, x) by {}
        }
        Ok(())
    }

    /// What `open` returns.
    pub open spec fn open_outcome(&self, caller: Seq<char>, room_id: u64, app: Seq<char>) -> Result<(), RoomError> {
        match self.room(room_id as int) {
            None => Err(RoomError::NotFound),
            Some(r) => if r.app_name != app {
                Err(RoomError::NotFound)
            } else if r.owner_id != caller {
                Err(RoomError::NotAuthorized)
            } else if !r.is_closed {
                Err(RoomError::InvalidState)
            } else {
                Ok(())
            },
        }
    }

    /// What `close` returns.
    pub open spec fn close_outcome(&self, caller: Seq<char>, room_id: u64, app: Seq<char>) -> Result<(), RoomError> {
        match self.room(room_id as int) {
            None => Err(RoomError::NotFound),
            Some(r) => if r.app_name != app {
                Err(RoomError::NotFound)
            } else if r.is_closed {
                Err(RoomError::InvalidState)
            } else if r.owner_id != caller {
                Err(RoomError::NotAuthorized)
            } else {
                Ok(())
            },
        }
    }

    /// The owner reopens a closed room: it is available again in its app.
    pub fn open(&mut self, account_id: &String, room_id: u64, app_name: &String) -> (r: Result<(), RoomError>)
        requires
            old(self).wf(),
        ensures
            final(self).wf(),
            r == old(self).open_outcome(account_id@, room_id, app_name@),
            r is Err ==> *final(self) == *old(self),
            r is Ok ==> {
                let old_room = old(self).room(room_id as int)->Some_0;
                &&& final(self).room(room_id as int) == Some(RoomModel { is_closed: false, ..old_room })
                &&& forall|i: int| i != room_id ==> #[trigger] final(self).room(i) == old(self).room(i)
                &&& final(self).available(app_name@) == old(self).available(app_name@).push(room_id)
                &&& forall|a: Seq<char>| a != app_name@ ==> #[trigger] final(self).available(a) == old(self).available(a)
                &&& forall|a: Seq<char>, x: Seq<char>| #[trigger] final(self).current_room(a, x) == old(self).current_room(a, x)
                &&& forall|a: Seq<char>, x: Seq<char>| #[trigger] final(self).owned_by(a, x) == old(self).owned_by(a, x)
                &&& final(self).accounts == old(self).accounts
                &&& final(self).next_room_id == old(self).next_room_id
            },
    {
        if room_id >= self.next_room_id {
            return Err(RoomError::NotFound);
        }
        let idx = self.slot_index(room_id);
        match &self.rooms[idx] {
            None => return Err(RoomError::NotFound),
            Some(room) => {
                if room.app_name != *app_name {
                    return Err(RoomError::NotFound);
                }
                if room.owner_id != *account_id {
                    return Err(RoomError::NotAuthorized);
                }
                if !room.is_closed {
                    return Err(RoomError::InvalidState);
                }
            },
        }
        let ghost o = *old(self);
        let ghost old_room = o.room(room_id as int)->Some_0;
        assert(o.rooms@[idx as int] is Some);
        assert(o.has_app(app_name@));
        let k = match self.find_app(app_name) {
            Some(k) => k,
            None => return Err(RoomError::NotFound),
        };
        proof {
            lemma_app_pos(&o, k as int);
            assert(o.index_wf(k as int));
            // a closed room is not available
            if o.apps@[k as int].available_rooms@.contains(room_id) {
                let t = choose|t: int| 0 <= t < o.apps@[k as int].available_rooms@.len() && o.apps@[k as int].available_rooms@[t] == room_id;
                assert(o.room(o.apps@[k as int].available_rooms@[t] as int) is Some);
            }
        }
        match &mut self.rooms[idx] {
            Some(room) => {
                room.is_closed = false;
            },
            None => {},
        }
        self.apps[k].available_rooms.push(room_id);
        proof {
            let n = *self;
            let av = n.apps@[k as int].available_rooms@;
            let oav = o.apps@[k as int].available_rooms@;
            assert(av == oav.push(room_id));
            assert(av.no_duplicates()) by {
                assert forall|i1: int, i2: int| 0 <= i1 < av.len() && 0 <= i2 < av.len() && i1 != i2 implies av[i1] != av[i2] by {
                    if i1 < oav.len() && i2 < oav.len() {
                        assert(oav[i1] != oav[i2]);
                    } else if i1 < oav.len() {
                        assert(oav.contains(oav[i1]));
                    } else if i2 < oav.len() {
                        assert(oav.contains(oav[i2]));
                    }
                }
            }
            assert forall|e: u64| e != room_id implies (#[trigger] av.contains(e) <==> oav.contains(e)) by {
                if av.contains(e) {
                    let t = choose|t: int| 0 <= t < av.len() && av[t] == e;
                    assert(oav[t] == e);
                }
                if oav.contains(e) {
                    let t = choose|t: int| 0 <= t < oav.len() && oav[t] == e;
                    assert(av[t] == e);
                }
            }
            assert(av[av.len() - 1] == room_id);
            lemma_state_update(&o, &n, room_id as int, k as int);
        }
        Ok(())
    }

    /// The owner closes an open room: it leaves the available rooms of its
    /// app; its players stay.
    pub fn close(&mut self, account_id: &String, room_id: u64, app_name: &String) -> (r: Result<(), RoomError>)
        requires
            old(self).wf(),
        ensures
            final(self).wf(),
            r == old(self).close_outcome(account_id@, room_id, app_name@),
            r is Err ==> *final(self) == *old(self),
            r is Ok ==> {
                let old_room = old(self).room(room_id as int)->Some_0;
                &&& final(self).room(room_id as int) == Some(RoomModel { is_closed: true, ..old_room })
                &&& forall|i: int| i != room_id ==> #[trigger] final(self).room(i) == old(self).room(i)
                &&& forall|e: u64| #[trigger] final(self).available(app_name@).contains(e)
                    <==> old(self).available(app_name@).contains(e) && e != room_id
                &&& forall|a: Seq<char>| a != app_name@ ==> #[trigger] final(self).available(a) == old(self).available(a)
                &&& forall|a: Seq<char>, x: Seq<char>| #[trigger] final(self).current_room(a, x) == old(self).current_room(a, x)
                &&& forall|a: Seq<char>, x: Seq<char>| #[trigger] final(self).owned_by(a, x) == old(self).owned_by(a, x)
                &&& final(self).accounts == old(self).accounts
                &&& final(self).next_room_id == old(self).next_room_id
            },
    {
        if room_id >= self.next_room_id {
            return Err(RoomError::NotFound);
        }
        let idx = self.slot_index(room_id);
        match &self.rooms[idx] {
            None => return Err(RoomError::NotFound),
            Some(room) => {
                if room.app_name != *app_name {
                    return Err(RoomError::NotFound);
                }
                if room.is_closed {
                    return Err(RoomError::InvalidState);
                }
                if room.owner_id != *account_id {
                    return Err(RoomError::NotAuthorized);
                }
            },
        }
        let ghost o = *old(self);
        assert(o.rooms@[idx as int] is Some);
        assert(o.has_app(app_name@));
        let k = match self.find_app(app_name) {
            Some(k) => k,
            None => return Err(RoomError::NotFound),
        };
        proof {
            lemma_app_pos(&o, k as int);
            assert(o.index_wf(k as int));
        }
        match &mut self.rooms[idx] {
            Some(room) => {
                room.is_closed = true;
            },
            None => {},
        }
        self.remove_room_from_available(k, room_id);
        proof {
            let n = *self;
            lemma_state_update(&o, &n, room_id as int, k as int);
        }
        Ok(())
    }

    /// Takes `room_id` out of the available rooms of app `k`.
    fn remove_room_from_available(&mut self, k: usize, room_id: u64)
        requires
            k < old(self).apps@.len(),
            old(self).apps@[k as int].available_rooms@.no_duplicates(),
        ensures
            final(self).rooms == old(self).rooms,
            final(self).accounts == old(self).accounts,
            final(self).next_room_id == old(self).next_room_id,
            final(self).apps@.len() == old(self).apps@.len(),
            forall|j: int| 0 <= j < final(self).apps@.len() && j != k ==> final(self).apps@[j] == old(self).apps@[j],
            final(self).apps@[k as int].app_name == old(self).apps@[k as int].app_name,
            final(self).apps@[k as int].current_rooms == old(self).apps@[k as int].current_rooms,
            final(self).apps@[k as int].rooms_by_owner == old(self).apps@[k as int].rooms_by_owner,
            final(self).apps@[k as int].available_rooms@.no_duplicates(),
            forall|e: u64| #[trigger] final(self).apps@[k as int].available_rooms@.contains(e)
                <==> old(self).apps@[k as int].available_rooms@.contains(e) && e != room_id,
    {
        self.apps[k].remove_available(room_id);
    }

    /// The account handed to reconciliation when `bytes` are released.
    pub open spec fn released_account(a: Account, bytes: int) -> Account {
        Account { storage_tracker: StorageTracker { bytes_added: 0, bytes_released: bytes as u64, is_active: false }, ..a }
    }

    /// Bytes that removing `r` gives back: what `create_room` charged for
    /// its record, its available-rooms entry and its rooms-by-owner entry.
    /// The owner's current-room entry stays an entry and is not released.
    pub open spec fn removed_room_bytes(r: RoomModel) -> int {
        new_room_bytes(r.app_name, r.owner_id, r.name, r.extra, false)
    }

    /// What `remove` returns.
    pub open spec fn remove_outcome(&self, caller: Seq<char>, room_id: u64, app: Seq<char>) -> Result<(), RoomError> {
        match self.room(room_id as int) {
            None => Err(RoomError::NotFound),
            Some(r) => if r.app_name != app {
                Err(RoomError::NotFound)
            } else if r.owner_id != caller {
                Err(RoomError::NotAuthorized)
            } else {
                Ok(())
            },
        }
    }

    /// The bytes `remove` releases from account `a`: what the room was
    /// charged, but never more than the account holds.
    pub open spec fn released_bytes(a: Account, r: RoomModel) -> int {
        if Self::removed_room_bytes(r) > a.used_bytes { a.used_bytes as int } else { Self::removed_room_bytes(r) }
    }

    /// The owner deletes a room: it leaves the room store, the available
    /// rooms and the rooms-by-owner lists, and each of its players, like
    /// every account whose entry named it, is left in no room of the app.
    /// The bytes the room was charged are released from the owner's
    /// account (at most what it holds). Its id is never given out again.
    pub fn remove(&mut self, account_id: &String, room_id: u64, app_name: &String) -> (r: Result<(), RoomError>)
        requires
            old(self).wf(),
        ensures
            final(self).wf(),
            r == old(self).remove_outcome(account_id@, room_id, app_name@),
            r is Err ==> *final(self) == *old(self),
            r is Ok ==> {
                let old_room = old(self).room(room_id as int)->Some_0;
                &&& final(self).room(room_id as int) is None
                &&& forall|i: int| i != room_id ==> #[trigger] final(self).room(i) == old(self).room(i)
                &&& forall|a: Seq<char>| !(#[trigger] final(self).available(a)).contains(room_id)
                &&& forall|e: u64| #[trigger] final(self).available(app_name@).contains(e)
                    <==> old(self).available(app_name@).contains(e) && e != room_id
                &&& forall|a: Seq<char>| a != app_name@ ==> #[trigger] final(self).available(a) == old(self).available(a)
                &&& forall|p: Seq<char>| #[trigger] old_room.has_player(p)
                    ==> final(self).current_room(app_name@, p) is None
                &&& forall|a: Seq<char>, x: Seq<char>| #[trigger] final(self).current_room(a, x)
                    == if old(self).current_room(a, x) == Some(room_id)
                        || (a == app_name@ && old_room.has_player(x)) {
                        None
                    } else {
                        old(self).current_room(a, x)
                    }
                &&& forall|a: Seq<char>, x: Seq<char>| #[trigger] final(self).owned_by(a, x) == old(self).owned_by(a, x).remove(room_id)
                &&& final(self).account_of(account_id@) == match old(self).account_of(account_id@) {
                        Some(a) => Some(Self::released_account(a, Self::released_bytes(a, old_room)).reconcile_outcome()->Ok_0),
                        None => None,
                    }
                &&& forall|x: Seq<char>| x != account_id@ ==> #[trigger] final(self).account_of(x) == old(self).account_of(x)
                &&& final(self).next_room_id == old(self).next_room_id
            },
    {
        if room_id >= self.next_room_id {
            return Err(RoomError::NotFound);
        }
        let idx = self.slot_index(room_id);
        let (members, bytes) = match &self.rooms[idx] {
            None => return Err(RoomError::NotFound),
            Some(room) => {
                if room.app_name != *app_name {
                    return Err(RoomError::NotFound);
                }
                if room.owner_id != *account_id {
                    return Err(RoomError::NotAuthorized);
                }
                (crate::room::copy_ids(&room.players), room_bytes(&room.app_name, &room.owner_id, &room.name, &room.extra, false))
            },
        };
        match self.internal_get_account(account_id) {
            Ok(account) => {
                let release: u64 = if bytes > account.used_bytes as u128 { account.used_bytes } else { bytes as u64 };
                proof {
                    let i = choose|i: int| 0 <= i < self.accounts@.len() && #[trigger] self.accounts@[i].account_id@ == account_id@;
                    assert(self.accounts@[i].account.is_covered());
                }
                let mut account = account;
                account.start_storage_tracker();
                account.storage_tracker.release(release);
                account.stop_storage_tracker();
                match self.internal_set_account(account_id, account) {
                    Ok(_) => {},
                    Err(e) => return Err(e),
                }
            },
            Err(_) => {},
        }
        let ghost o = *self;
        assert(o.rooms@[idx as int] is Some);
        assert(o.has_app(app_name@));
        let k = match self.find_app(app_name) {
            Some(k) => k,
            None => return Err(RoomError::NotFound),
        };
        proof {
            lemma_app_pos(&o, k as int);
            assert(o.index_wf(k as int));
        }
        self.apps[k].purge_current(room_id, &members);
        self.apps[k].purge_owned(room_id);
        self.remove_room_from_available(k, room_id);
        self.rooms.set(idx, None);
        proof {
            let n = *self;
            assert(n.rooms@ == o.rooms@.update(room_id as int, None));
            lemma_remove_update(&o, &n, room_id as int, k as int, crate::room::ids_view(members@));
            crate::contract::lemma_no_reference(&n, room_id);
            let ghost p = *old(self);
            assert(o.rooms == p.rooms && o.apps == p.apps);
            assert forall|i: int| #[trigger] o.room(i) == p.room(i) by {}
            assert forall|a: Seq<char>| #[trigger] o.available(a) == p.available(a) by {}
            assert forall|a: Seq<char>, x: Seq<char>| #[trigger] o.current_room(a, x) == p.current_room(a, x) by {}
            assert forall|a: Seq<char>, x: Seq<char>| #[trigger] o.owned_by(a, x) == p.owned_by(a, x) by {
                assert(o.owned_by(a, x) =~= p.owned_by(a, x));
            }
            assert forall|x: Seq<char>| #[trigger] n.account_of(x) == o.account_of(x) by {}
        }
        Ok(())
    }

    /// What `random_join` returns.
    pub open spec fn random_join_outcome(&self, caller: Seq<char>, app: Seq<char>, r: u8) -> Result<u64, RoomError> {
        if !self.has_app(app) {
            Err(RoomError::NotFound)
        } else if self.current_room(app, caller) is Some {
            Err(RoomError::AlreadyInRoom)
        } else {
            match self.random_room_outcome(app, r) {
                Err(e) => Err(e),
                Ok(id) => match self.join_outcome(caller, id, app) {
                    Err(e) => Err(e),
                    Ok(()) => Ok(id),
                },
            }
        }
    }

    /// Joins an available room of `app_name` picked by the first byte of
    /// `random_seed`, unless the account is already in a room there.
    pub fn random_join(&mut self, account_id: &String, app_name: &String, random_seed: &Vec<u8>) -> (r: Result<u64, RoomError>)
        requires
            old(self).wf(),
            random_seed@.len() > 0,
        ensures
            final(self).wf(),
            r == old(self).random_join_outcome(account_id@, app_name@, random_seed@[0]),
            r is Err ==> *final(self) == *old(self),
            r is Ok ==> {
                let id = r->Ok_0;
                let old_room = old(self).room(id as int)->Some_0;
                &&& final(self).room(id as int) == Some(RoomModel { players: old_room.players.push(account_id@), ..old_room })
                &&& forall|i: int| i != id ==> #[trigger] final(self).room(i) == old(self).room(i)
                &&& final(self).current_room(app_name@, account_id@) == Some(id)
                &&& forall|a: Seq<char>, x: Seq<char>| (a, x) != (app_name@, account_id@)
                    ==> #[trigger] final(self).current_room(a, x) == old(self).current_room(a, x)
                &&& forall|a: Seq<char>| #[trigger] final(self).available(a) == old(self).available(a)
                &&& forall|a: Seq<char>, x: Seq<char>| #[trigger] final(self).owned_by(a, x) == old(self).owned_by(a, x)
                &&& final(self).accounts == old(self).accounts
                &&& final(self).next_room_id == old(self).next_room_id
            },
    {
        let k = match self.find_app(app_name) {
            Some(k) => k,
            None => return Err(RoomError::NotFound),
        };
        proof {
            lemma_app_pos(self, k as int);
            assert(self.index_wf(k as int));
        }
        if self.apps[k].current_of_exec(account_id).is_some() {
            return Err(RoomError::AlreadyInRoom);
        }
        let random_room = match self.get_random_room(app_name, random_seed) {
            Ok(room) => room,
            Err(e) => return Err(e),
        };
        let room_id = random_room.room_id;
        proof {
            let id = self.random_room_outcome(app_name@, random_seed@[0])->Ok_0;
            assert(self.rooms@[id as int] is Some);
        }
        match self.join(account_id, room_id, app_name) {
            Ok(()) => Ok(room_id),
            Err(e) => Err(e),
        }
    }
}

} // verus!
