use vstd::prelude::*;

verus! {

/// Why an operation was rejected. A rejected operation changes nothing.
#[derive(Debug, Clone, Copy, PartialEq, Eq, Structural)]
pub enum RoomError {
    /// The room, the app or the account does not exist.
    NotFound,
    /// Someone other than the owner tried an owner-only action.
    NotAuthorized,
    /// The room is closed, or is already open.
    InvalidState,
    /// The room already holds `player_limit` players.
    CapacityExceeded,
    AlreadyJoined,
    AlreadyInRoom,
    NotAMember,
    PlayerBanned,
    NoRoomsAvailable,
    InsufficientDeposit,
    StorageLimitExceeded,
    /// The released bytes exceed what the account was charged.
    AccountingBug,
    /// The identity is not a well-formed account id.
    InvalidAccountId,
    /// A deposit would overflow the account's balance.
    BalanceOverflow,
}

/// What a caller asks for when creating a room.
#[derive(Debug, PartialEq, Eq)]
pub struct RoomConfig {
    pub app_name: String,
    pub name: String,
    pub is_hidden: bool,
    pub player_limit: usize,
    pub extra: Option<String>,
}

/// A room record: `players` and `banned_players` hold account ids.
#[derive(Debug, PartialEq, Eq)]
pub struct Room {
    pub room_id: u64,
    pub app_name: String,
    pub name: String,
    pub owner_id: String,
    pub players: Vec<String>,
    pub banned_players: Vec<String>,
    pub player_limit: usize,
    pub is_hidden: bool,
    pub is_closed: bool,
    pub extra: Option<String>,
}

/// The mathematical value of a `Room`.
pub struct RoomModel {
    pub room_id: u64,
    pub app_name: Seq<char>,
    pub name: Seq<char>,
    pub owner_id: Seq<char>,
    pub players: Seq<Seq<char>>,
    pub banned_players: Seq<Seq<char>>,
    pub player_limit: usize,
    pub is_hidden: bool,
    pub is_closed: bool,
    pub extra: Option<Seq<char>>,
}

pub open spec fn ids_view(v: Seq<String>) -> Seq<Seq<char>> {
    v.map_values(|s: String| s@)
}

pub open spec fn opt_view(o: Option<String>) -> Option<Seq<char>> {
    match o {
        Some(s) => Some(s@),
        None => None,
    }
}

impl View for Room {
    type V = RoomModel;

    open spec fn view(&self) -> RoomModel {
        RoomModel {
            room_id: self.room_id,
            app_name: self.app_name@,
            name: self.name@,
            owner_id: self.owner_id@,
            players: ids_view(self.players@),
            banned_players: ids_view(self.banned_players@),
            player_limit: self.player_limit,
            is_hidden: self.is_hidden,
            is_closed: self.is_closed,
            extra: opt_view(self.extra),
        }
    }
}

impl RoomModel {
    pub open spec fn has_player(&self, id: Seq<char>) -> bool {
        self.players.contains(id)
    }

    pub open spec fn is_banned(&self, id: Seq<char>) -> bool {
        self.banned_players.contains(id)
    }

    /// Players fit the limit, are distinct, and none is banned.
    pub open spec fn wf(&self) -> bool {
        &&& self.players.len() <= self.player_limit
        &&& self.players.no_duplicates()
        &&& forall|i: int| 0 <= i < self.players.len() ==> !self.banned_players.contains(#[trigger] self.players[i])
    }
}

/// Copies a list of ids.
pub(crate) fn copy_ids(v: &Vec<String>) -> (r: Vec<String>)
    ensures
        r@ == v@,
{
    let mut r: Vec<String> = Vec::new();
    let mut i: usize = 0;
    while i < v.len()
        invariant
            i <= v@.len(),
            r@ == v@.subrange(0, i as int),
        decreases v@.len() - i,
    {
        r.push(v[i].clone());
        i = i + 1;
        assert(r@ =~= v@.subrange(0, i as int));
    }
    assert(r@ =~= v@);
    r
}

/// Whether `id` occurs in `v`.
pub(crate) fn contains_id(v: &Vec<String>, id: &String) -> (r: bool)
    ensures
        r == ids_view(v@).contains(id@),
{
    let mut i: usize = 0;
    while i < v.len()
        invariant
            i <= v@.len(),
            forall|j: int| 0 <= j < i ==> v@[j]@ != id@,
        decreases v@.len() - i,
    {
        if v[i] == *id {
            assert(ids_view(v@)[i as int] == id@);
            return true;
        }
        i = i + 1;
    }
    proof {
        if ids_view(v@).contains(id@) {
            let j = choose|j: int| 0 <= j < ids_view(v@).len() && ids_view(v@)[j] == id@;
            assert(v@[j]@ == id@);
        }
    }
    false
}

/// Where `id` occurs in `v`, if it does.
pub(crate) fn position_of(v: &Vec<String>, id: &String) -> (r: Option<usize>)
    ensures
        match r {
            Some(i) => i < v@.len() && v@[i as int]@ == id@,
            None => !ids_view(v@).contains(id@),
        },
{
    let mut i: usize = 0;
    while i < v.len()
        invariant
            i <= v@.len(),
            forall|j: int| 0 <= j < i ==> v@[j]@ != id@,
        decreases v@.len() - i,
    {
        if v[i] == *id {
            return Some(i);
        }
        i = i + 1;
    }
    proof {
        if ids_view(v@).contains(id@) {
            let j = choose|j: int| 0 <= j < ids_view(v@).len() && ids_view(v@)[j] == id@;
            assert(v@[j]@ == id@);
        }
    }
    None
}

/// Swap-removing one entry of a list without duplicates drops exactly that
/// entry.
pub proof fn lemma_swap_remove(s: Seq<Seq<char>>, p: int)
    requires
        0 <= p < s.len(),
        s.no_duplicates(),
    ensures
        s.update(p, s.last()).drop_last().no_duplicates(),
        s.update(p, s.last()).drop_last().len() == s.len() - 1,
        forall|y: Seq<char>| #[trigger] s.update(p, s.last()).drop_last().contains(y) <==> s.contains(y) && y != s[p],
{
    let t = s.update(p, s.last()).drop_last();
    let m = s.len() - 1;
    assert forall|y: Seq<char>| #[trigger] t.contains(y) <==> s.contains(y) && y != s[p] by {
        if t.contains(y) {
            let i = choose|i: int| 0 <= i < t.len() && t[i] == y;
            if i == p {
                assert(s[m] == y);
            } else {
                assert(s[i] == y);
            }
        }
        if s.contains(y) && y != s[p] {
            let i = choose|i: int| 0 <= i < s.len() && s[i] == y;
            if i == m {
                assert(t[p] == y);
            } else {
                assert(t[i] == y);
            }
        }
    }
    assert forall|i: int, j: int| 0 <= i < t.len() && 0 <= j < t.len() && i != j implies t[i] != t[j] by {
        let si = if i == p { m } else { i };
        let sj = if j == p { m } else { j };
        assert(t[i] == s[si]);
        assert(t[j] == s[sj]);
    }
}

/// Removing one entry of a list without duplicates drops exactly that
/// entry.
pub proof fn lemma_remove<A>(s: Seq<A>, p: int)
    requires
        0 <= p < s.len(),
        s.no_duplicates(),
    ensures
        s.remove(p).no_duplicates(),
        s.remove(p).len() == s.len() - 1,
        forall|y: A| #[trigger] s.remove(p).contains(y) <==> s.contains(y) && y != s[p],
{
    let t = s.remove(p);
    assert forall|y: A| #[trigger] t.contains(y) <==> s.contains(y) && y != s[p] by {
        if t.contains(y) {
            let i = choose|i: int| 0 <= i < t.len() && t[i] == y;
            if i < p {
                assert(s[i] == y);
            } else {
                assert(s[i + 1] == y);
            }
        }
        if s.contains(y) && y != s[p] {
            let i = choose|i: int| 0 <= i < s.len() && s[i] == y;
            if i < p {
                assert(t[i] == y);
            } else {
                assert(t[i - 1] == y);
            }
        }
    }
    assert forall|i: int, j: int| 0 <= i < t.len() && 0 <= j < t.len() && i != j implies t[i] != t[j] by {
        let si = if i < p { i } else { i + 1 };
        let sj = if j < p { j } else { j + 1 };
        assert(t[i] == s[si]);
        assert(t[j] == s[sj]);
    }
}

impl Room {
    /// A copy with the same value.
    pub fn copy(&self) -> (r: Room)
        ensures
            r@ == self@,
    {
        let extra = match &self.extra {
            Some(e) => Some(e.clone()),
            None => None,
        };
        Room {
            room_id: self.room_id,
            app_name: self.app_name.clone(),
            name: self.name.clone(),
            owner_id: self.owner_id.clone(),
            players: copy_ids(&self.players),
            banned_players: copy_ids(&self.banned_players),
            player_limit: self.player_limit,
            is_hidden: self.is_hidden,
            is_closed: self.is_closed,
            extra,
        }
    }
}

} // verus!
