use vstd::prelude::*;
use crate::contract::{lemma_no_reference, Contract};
use crate::room::RoomModel;

verus! {

/// Every account of a well-formed store pays for the bytes charged to it:
/// `used_bytes * price <= storage_balance`. Every operation keeps the store
/// well formed, and one that would break this is rejected with no change.
pub proof fn lemma_accounts_covered(c: &Contract, id: Seq<char>)
    requires
        c.wf(),
        c.account_of(id) is Some,
    ensures
        c.account_of(id)->Some_0.is_covered(),
        c.account_of(id)->Some_0.used_bytes * crate::account::STORAGE_PRICE_PER_BYTE <= c.account_of(id)->Some_0.storage_balance,
{
    let i = choose|i: int| 0 <= i < c.accounts@.len() && #[trigger] c.accounts@[i].account_id@ == id;
    assert(c.accounts@[i].account.is_covered());
}

/// A room's players never exceed its limit, are distinct, and include no
/// banned identity.
pub proof fn lemma_room_players(c: &Contract, id: int)
    requires
        c.wf(),
        c.room(id) is Some,
    ensures
        c.room(id)->Some_0.players.len() <= c.room(id)->Some_0.player_limit,
        c.room(id)->Some_0.players.no_duplicates(),
        forall|p: Seq<char>| #[trigger] c.room(id)->Some_0.has_player(p) ==> !c.room(id)->Some_0.is_banned(p),
{
    let r = c.room(id)->Some_0;
    assert(c.rooms@[id] is Some);
    assert forall|p: Seq<char>| #[trigger] r.has_player(p) implies !r.is_banned(p) by {
        let i = choose|i: int| 0 <= i < r.players.len() && r.players[i] == p;
        assert(!r.banned_players.contains(r.players[i]));
    }
}

/// `current_room[app][account]` is none, or a room of `app` that has the
/// account among its players.
pub proof fn lemma_current_room_is_membership(c: &Contract, app: Seq<char>, account: Seq<char>)
    requires
        c.wf(),
    ensures
        match c.current_room(app, account) {
            None => true,
            Some(id) => c.room(id as int) is Some && c.room(id as int)->Some_0.app_name == app
                && c.room(id as int)->Some_0.has_player(account),
        },
{
    if c.has_app(app) {
        let p = c.app_pos(app);
        assert(c.index_wf(p));
        assert(c.current_wf(p));
        let ix = c.apps@[p];
        if exists|j: int| 0 <= j < ix.current_rooms@.len() && #[trigger] ix.current_rooms@[j].account_id@ == account {
            let j = choose|j: int| 0 <= j < ix.current_rooms@.len() && #[trigger] ix.current_rooms@[j].account_id@ == account;
            assert(ix.current_rooms@[j].account_id@ == account);
        }
    }
}

/// After a room is removed, nothing refers to it: it is in no app's
/// available rooms, no owner's list, and no account's current room.
pub proof fn lemma_removed_room_unreferenced(c: &Contract, id: u64)
    requires
        c.wf(),
        c.room(id as int) is None,
    ensures
        forall|a: Seq<char>| !(#[trigger] c.available(a)).contains(id),
        forall|a: Seq<char>, x: Seq<char>| #[trigger] c.current_room(a, x) != Some(id),
        forall|a: Seq<char>, x: Seq<char>| !(#[trigger] c.owned_by(a, x)).contains(id),
{
    lemma_no_reference(c, id);
}

/// Closing a room and then opening it again, both by its owner, gives the
/// room back as it was: available again in its app, and open to exactly
/// the joins it was open to before.
pub proof fn lemma_close_then_open(c0: &Contract, c1: &Contract, c2: &Contract, owner: Seq<char>, id: u64, app: Seq<char>)
    requires
        c0.wf(),
        c1.wf(),
        c2.wf(),
        c0.close_outcome(owner, id, app) is Ok,
        c1.room(id as int) == Some(RoomModel { is_closed: true, ..c0.room(id as int)->Some_0 }),
        c1.open_outcome(owner, id, app) is Ok,
        c2.room(id as int) == Some(RoomModel { is_closed: false, ..c1.room(id as int)->Some_0 }),
    ensures
        c2.room(id as int) == c0.room(id as int),
        c2.available(app).contains(id),
        forall|x: Seq<char>| #[trigger] c2.join_outcome(x, id, app) == c0.join_outcome(x, id, app),
{
    assert(c2.rooms@[id as int] is Some);
}

} // verus!
