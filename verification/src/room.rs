//! Room coordination: the durable room record, the in-memory state of live
//! rooms, per-client views, and the coordinator that serializes every room
//! mutation.

use vstd::prelude::*;

use crate::condorcet::{
    ballots_view, ranked_pairs, ranked_pairs_ranks, ranks_view, tally_eq, totals_ok,
    CondorcetTally, VoteItem,
};
use crate::util::{strs_view, ClientId, RoomId};

verus! {

/// One submitted ballot: the voter's display name and their ranked
/// selections, in no particular order.
#[derive(Debug)]
pub struct UserVote {
    pub name: String,
    pub selections: Vec<VoteItem>,
}

/// Two ballots hold the same name and the same selections.
pub open spec fn user_vote_eq(a: UserVote, b: UserVote) -> bool {
    a.name@ == b.name@ && a.selections@ == b.selections@
}

impl UserVote {
    /// A copy of this ballot.
    pub fn duplicate(&self) -> (r: UserVote)
        ensures
            user_vote_eq(*self, r),
    {
        let mut sel: Vec<VoteItem> = Vec::new();
        let mut i: usize = 0;
        while i < self.selections.len()
            invariant
                i <= self.selections@.len(),
                sel@ == self.selections@.take(i as int),
            decreases self.selections@.len() - i,
        {
            sel.push(self.selections[i]);
            proof {
                assert(self.selections@.take(i + 1)
                    =~= self.selections@.take(i as int).push(self.selections@[i as int]));
            }
            i = i + 1;
        }
        proof {
            assert(self.selections@.take(self.selections@.len() as int) =~= self.selections@);
        }
        UserVote { name: self.name.clone(), selections: sel }
    }
}

/// Status reported to a client when it connects or asks for state.
#[derive(Clone, Copy, PartialEq, Eq, Structural, Debug)]
pub enum ClientStatus {
    Connected,
    InvalidRoom,
    InvalidIdentity,
}

/// The tally together with every ballot, disclosed once the room is tallied.
#[derive(Debug)]
pub struct VotingResults {
    pub tally: CondorcetTally,
    pub votes: Vec<UserVote>,
}

/// What one identity sees of a room.
#[derive(Debug)]
pub struct VoteView {
    pub choices: Vec<String>,
    pub your_vote: Option<UserVote>,
    pub num_votes: usize,
    pub num_players: usize,
    pub results: Option<VotingResults>,
}

/// The body of a new-room request: choice labels, one per line.
pub struct NewVoteForm {
    pub choices: String,
}

/// A command a connected client may send.
#[derive(Debug)]
pub enum Command {
    Vote(UserVote),
    Tally,
}

/// What is pushed to a client in response to a command or another change of
/// room state.
#[derive(Debug)]
pub struct ClientNotification {
    pub status: ClientStatus,
    pub vote: Option<VoteView>,
}

/// No two entries share a key.
pub open spec fn unique_keys<K, V>(entries: Seq<(K, V)>) -> bool {
    forall|i: int, j: int| 0 <= i < j < entries.len() ==> entries[i].0 != entries[j].0
}

/// An association list as a map; a later entry would win, and with unique
/// keys the entries are the map.
pub open spec fn assoc_map<K, V>(entries: Seq<(K, V)>) -> Map<K, V>
    decreases entries.len(),
{
    if entries.len() == 0 {
        Map::empty()
    } else {
        assoc_map(entries.drop_last()).insert(entries.last().0, entries.last().1)
    }
}

/// With unique keys, each entry is in the map, and every key of the map has
/// an entry.
pub proof fn lemma_assoc_map_props<K, V>(entries: Seq<(K, V)>)
    requires
        unique_keys(entries),
    ensures
        forall|i: int| 0 <= i < entries.len()
            ==> assoc_map(entries).contains_key((#[trigger] entries[i]).0)
                && assoc_map(entries)[entries[i].0] == entries[i].1,
        forall|k: K| #[trigger] assoc_map(entries).contains_key(k)
            ==> exists|i: int| 0 <= i < entries.len() && (#[trigger] entries[i]).0 == k,
    decreases entries.len(),
{
    if entries.len() != 0 {
        lemma_assoc_map_props(entries.drop_last());
        assert forall|i: int| 0 <= i < entries.len() implies
            assoc_map(entries).contains_key((#[trigger] entries[i]).0)
                && assoc_map(entries)[entries[i].0] == entries[i].1 by {
            if i < entries.len() - 1 {
                assert(entries.drop_last()[i] == entries[i]);
                assert(entries[i].0 != entries.last().0);
            }
        }
        assert forall|k: K| #[trigger] assoc_map(entries).contains_key(k) implies
            exists|i: int| 0 <= i < entries.len() && (#[trigger] entries[i]).0 == k by {
            if k == entries.last().0 {
                assert(entries[entries.len() - 1].0 == k);
            } else {
                assert(assoc_map(entries.drop_last()).contains_key(k));
                let i = choose|i: int|
                    0 <= i < entries.drop_last().len() && (#[trigger] entries.drop_last()[i]).0 == k;
                assert(entries[i].0 == k);
            }
        }
    }
}

/// Replacing the value at one entry inserts into the map.
proof fn lemma_assoc_map_update<K, V>(entries: Seq<(K, V)>, i: int, v: V)
    requires
        unique_keys(entries),
        0 <= i < entries.len(),
    ensures
        assoc_map(entries.update(i, (entries[i].0, v)))
            == assoc_map(entries).insert(entries[i].0, v),
        unique_keys(entries.update(i, (entries[i].0, v))),
    decreases entries.len(),
{
    let upd = entries.update(i, (entries[i].0, v));
    assert(unique_keys(upd)) by {
        assert forall|a: int, b: int| 0 <= a < b < upd.len() implies upd[a].0 != upd[b].0 by {
            assert(entries[a].0 != entries[b].0);
        }
    }
    if i == entries.len() - 1 {
        assert(upd.drop_last() =~= entries.drop_last());
        assert(assoc_map(upd) =~= assoc_map(entries).insert(entries[i].0, v));
    } else {
        assert(upd.drop_last() =~= entries.drop_last().update(i, (entries[i].0, v)));
        lemma_assoc_map_update(entries.drop_last(), i, v);
        assert(entries.drop_last()[i] == entries[i]);
        assert(upd.last() == entries.last());
        assert(assoc_map(upd)
            == assoc_map(entries.drop_last()).insert(entries[i].0, v).insert(
            entries.last().0,
            entries.last().1,
        ));
        assert(entries[i].0 != entries.last().0);
        assert(assoc_map(entries.drop_last()).insert(entries[i].0, v).insert(
            entries.last().0,
            entries.last().1,
        ) =~= assoc_map(entries).insert(entries[i].0, v));
    }
}

/// Appending a fresh key inserts into the map.
proof fn lemma_assoc_map_push<K, V>(entries: Seq<(K, V)>, k: K, v: V)
    requires
        unique_keys(entries),
        forall|i: int| 0 <= i < entries.len() ==> (#[trigger] entries[i]).0 != k,
    ensures
        assoc_map(entries.push((k, v))) == assoc_map(entries).insert(k, v),
        unique_keys(entries.push((k, v))),
{
    let p = entries.push((k, v));
    assert(p.drop_last() =~= entries);
    assert(p.last() == (k, v));
    assert forall|a: int, b: int| 0 <= a < b < p.len() implies p[a].0 != p[b].0 by {
        if b < p.len() - 1 {
            assert(entries[a].0 != entries[b].0);
        } else {
            assert(p[a] == entries[a]);
        }
    }
}

/// The durable record of one room: the source of truth for its existence,
/// its choices, its ballots and whether it has been tallied.
pub struct RoomRecord {
    pub choices: Vec<String>,
    pub votes: Vec<(ClientId, UserVote)>,
    pub tallied: bool,
}

/// The ballots of a record, in entry order, as the tally engine reads them.
pub open spec fn record_ballots(votes: Seq<(ClientId, UserVote)>) -> Seq<Seq<VoteItem>> {
    votes.map_values(|e: (ClientId, UserVote)| e.1.selections@)
}

impl RoomRecord {
    /// One ballot per identity.
    pub open spec fn wf(&self) -> bool {
        unique_keys(self.votes@)
    }

    /// The ballots keyed by the identity that owns them.
    pub open spec fn votes_map(&self) -> Map<ClientId, UserVote> {
        assoc_map(self.votes@)
    }

    /// The initial durable state of a fresh room: no ballots, not tallied.
    pub fn new(choices: Vec<String>) -> (r: RoomRecord)
        ensures
            r.choices == choices,
            r.votes@.len() == 0,
            !r.tallied,
            r.wf(),
    {
        RoomRecord { choices, votes: Vec::new(), tallied: false }
    }

    /// Store this identity's ballot: the latest submission wins, a
    /// resubmission replaces the prior ballot and is not an error.
    #[verifier::loop_isolation(false)]
    pub fn upsert_vote(&mut self, id: ClientId, vote: UserVote)
        requires
            old(self).wf(),
        ensures
            final(self).wf(),
            final(self).choices == old(self).choices,
            final(self).tallied == old(self).tallied,
            final(self).votes_map() == old(self).votes_map().insert(id, vote),
            old(self).votes_map().contains_key(id)
                ==> final(self).votes@.len() == old(self).votes@.len(),
            !old(self).votes_map().contains_key(id)
                ==> final(self).votes@.len() == old(self).votes@.len() + 1,
    {
        proof {
            lemma_assoc_map_props(self.votes@);
        }
        let mut i: usize = 0;
        while i < self.votes.len()
            invariant
                i <= self.votes@.len(),
                forall|k: int| 0 <= k < i ==> (#[trigger] self.votes@[k]).0 != id,
                *self == *old(self),
            decreases self.votes@.len() - i,
        {
            if self.votes[i].0 == id {
                proof {
                    lemma_assoc_map_update(self.votes@, i as int, vote);
                }
                self.votes.set(i, (id, vote));
                proof {
                    lemma_assoc_map_props(old(self).votes@);
                }
                return ;
            }
            i = i + 1;
        }
        proof {
            lemma_assoc_map_push(self.votes@, id, vote);
            if old(self).votes_map().contains_key(id) {
                let k = choose|k: int|
                    0 <= k < old(self).votes@.len() && (#[trigger] old(self).votes@[k]).0 == id;
                assert(false);
            }
        }
        self.votes.push((id, vote));
    }

    /// This identity's current ballot, if it has submitted one.
    #[verifier::loop_isolation(false)]
    pub fn vote_of(&self, id: ClientId) -> (r: Option<UserVote>)
        requires
            self.wf(),
        ensures
            match r {
                Some(v) => self.votes_map().contains_key(id)
                    && user_vote_eq(v, self.votes_map()[id]),
                None => !self.votes_map().contains_key(id),
            },
    {
        proof {
            lemma_assoc_map_props(self.votes@);
        }
        let mut i: usize = 0;
        while i < self.votes.len()
            invariant
                i <= self.votes@.len(),
                forall|k: int| 0 <= k < i ==> (#[trigger] self.votes@[k]).0 != id,
            decreases self.votes@.len() - i,
        {
            if self.votes[i].0 == id {
                return Some(self.votes[i].1.duplicate());
            }
            i = i + 1;
        }
        proof {
            if self.votes_map().contains_key(id) {
                let k = choose|k: int|
                    0 <= k < self.votes@.len() && (#[trigger] self.votes@[k]).0 == id;
                assert(false);
            }
        }
        None
    }

    /// Every ballot of the room, in entry order: what is disclosed to all
    /// identities once the room is tallied.
    pub fn all_votes(&self) -> (r: Vec<UserVote>)
        ensures
            r@.len() == self.votes@.len(),
            forall|i: int| 0 <= i < r@.len()
                ==> user_vote_eq(#[trigger] r@[i], self.votes@[i].1),
    {
        let mut r: Vec<UserVote> = Vec::new();
        let mut i: usize = 0;
        while i < self.votes.len()
            invariant
                i <= self.votes@.len(),
                r@.len() == i,
                forall|k: int| 0 <= k < i
                    ==> user_vote_eq(#[trigger] r@[k], self.votes@[k].1),
            decreases self.votes@.len() - i,
        {
            r.push(self.votes[i].1.duplicate());
            i = i + 1;
        }
        r
    }
}

/// A tally that is correct for `n` choices and the given ballots.
pub open spec fn tally_matches(t: CondorcetTally, n: int, bs: Seq<Seq<VoteItem>>) -> bool {
    totals_ok(n, t.totals@, bs) && ranks_view(t) == ranked_pairs_ranks(n, bs)
}

/// Run the tally engine over the ballots of a room.
pub fn calculate_room_tally(
    choices: &Vec<String>,
    votes: &Vec<(ClientId, UserVote)>,
) -> (t: CondorcetTally)
    ensures
        tally_matches(t, choices@.len() as int, record_ballots(votes@)),
{
    let mut ballots: Vec<Vec<VoteItem>> = Vec::new();
    let mut i: usize = 0;
    while i < votes.len()
        invariant
            i <= votes@.len(),
            ballots@.len() == i,
            forall|k: int| 0 <= k < i ==> (#[trigger] ballots@[k])@ == votes@[k].1.selections@,
        decreases votes@.len() - i,
    {
        let v = votes[i].1.duplicate();
        ballots.push(v.selections);
        i = i + 1;
    }
    let ghost bv = ballots_view(ballots);
    let t = ranked_pairs(choices.len(), ballots);
    proof {
        assert(bv =~= record_ballots(votes@));
    }
    t
}


fn clone_strings(v: &Vec<String>) -> (r: Vec<String>)
    ensures
        r@.len() == v@.len(),
        forall|i: int| 0 <= i < r@.len() ==> #[trigger] r@[i] == v@[i],
{
    let mut r: Vec<String> = Vec::new();
    let mut i: usize = 0;
    while i < v.len()
        invariant
            i <= v@.len(),
            r@.len() == i,
            forall|k: int| 0 <= k < i ==> #[trigger] r@[k] == v@[k],
        decreases v@.len() - i,
    {
        r.push(v[i].clone());
        i = i + 1;
    }
    r
}

/// In-memory state of one live room: the connected identities with their
/// connection handles, and the cached tally. The durable record stays the
/// source of truth; the cache only avoids recomputing the result.
pub struct ServerRoom {
    pub clients: Vec<(ClientId, Vec<u64>)>,
    pub results_cache: Option<CondorcetTally>,
}

/// The cache, when populated, holds the true tally of the record's ballots.
pub open spec fn cache_correct(cache: Option<CondorcetTally>, rec: RoomRecord) -> bool {
    match cache {
        Some(t) => tally_matches(t, rec.choices@.len() as int, record_ballots(rec.votes@)),
        None => true,
    }
}

/// How one cache refresh may move the cache: populated exactly when the
/// record is tallied, kept when already populated, computed from the
/// ballots when it was empty.
pub open spec fn cache_step(
    before: Option<CondorcetTally>,
    after: Option<CondorcetTally>,
    rec: RoomRecord,
) -> bool {
    &&& rec.tallied ==> after is Some
    &&& !rec.tallied ==> after is None
    &&& match after {
        Some(t) => {
            &&& (before matches Some(t0) ==> t == t0)
            &&& (before is None ==> tally_matches(
                t,
                rec.choices@.len() as int,
                record_ballots(rec.votes@),
            ))
        },
        None => true,
    }
}

/// A refresh keeps a correct cache correct.
pub proof fn lemma_cache_step_correct(
    before: Option<CondorcetTally>,
    after: Option<CondorcetTally>,
    rec: RoomRecord,
)
    requires
        cache_correct(before, rec),
        cache_step(before, after, rec),
    ensures
        cache_correct(after, rec),
{
}

/// The view an identity must be shown, given the room's in-memory state and
/// its durable record. The results and the full ballot list appear exactly
/// when the durable record says the room is tallied: before the tally no
/// other identity's ballot is exposed, whatever the cache holds.
pub open spec fn notif_matches(
    nf: ClientNotification,
    room: ServerRoom,
    rec: RoomRecord,
    id: ClientId,
) -> bool {
    &&& nf.status is Connected
    &&& match nf.vote {
        Some(v) => {
            &&& strs_view(v.choices@) == strs_view(rec.choices@)
            &&& v.num_votes == rec.votes@.len()
            &&& v.num_players == room.clients@.len()
            &&& match v.your_vote {
                Some(uv) => assoc_map(rec.votes@).contains_key(id)
                    && user_vote_eq(uv, assoc_map(rec.votes@)[id]),
                None => !assoc_map(rec.votes@).contains_key(id),
            }
            &&& match v.results {
                Some(res) => {
                    &&& rec.tallied
                    &&& votes_listed(res.votes@, rec.votes@)
                    &&& match room.results_cache {
                        Some(cache) => tally_eq(res.tally, cache),
                        None => tally_matches(
                            res.tally,
                            rec.choices@.len() as int,
                            record_ballots(rec.votes@),
                        ),
                    }
                },
                None => !rec.tallied,
            }
        },
        None => false,
    }
}

/// `out` lists every ballot of the record, in order.
pub open spec fn votes_listed(out: Seq<UserVote>, votes: Seq<(ClientId, UserVote)>) -> bool {
    &&& out.len() == votes.len()
    &&& forall|i: int| 0 <= i < votes.len() ==> user_vote_eq(#[trigger] out[i], votes[i].1)
}

/// One delivery per identity: its registry entry and the view every one of
/// its connection handles must be sent.
pub open spec fn fanout_ok(
    out: Seq<(ClientId, Vec<u64>, ClientNotification)>,
    room: ServerRoom,
    rec: RoomRecord,
) -> bool {
    &&& out.len() == room.clients@.len()
    &&& forall|i: int| 0 <= i < out.len()
        ==> (#[trigger] out[i]).0 == room.clients@[i].0
            && out[i].1@ == room.clients@[i].1@
            && notif_matches(out[i].2, room, rec, room.clients@[i].0)
}

/// The handle list without one handle, order kept.
pub open spec fn without_handle(hs: Seq<u64>, handle: u64) -> Seq<u64> {
    hs.filter(|h: u64| h != handle)
}

/// Every connection handle of the room belongs to this identity and is
/// this very handle: pruning it leaves the room without connections.
pub open spec fn only_handle(room: ServerRoom, id: ClientId, handle: u64) -> bool {
    forall|i: int| 0 <= i < room.clients@.len()
        ==> (#[trigger] room.clients@[i]).0 == id
            && (forall|j: int| 0 <= j < room.clients@[i].1@.len()
                ==> (#[trigger] room.clients@[i].1@[j]) == handle)
}

/// One connection that is not the pruned one refutes `only_handle`.
proof fn lemma_not_only_handle(room: ServerRoom, id: ClientId, handle: u64, i: int, j: int)
    requires
        0 <= i < room.clients@.len(),
        0 <= j < room.clients@[i].1@.len(),
        room.clients@[i].0 != id || room.clients@[i].1@[j] != handle,
    ensures
        !only_handle(room, id, handle),
{
    if only_handle(room, id, handle) {
        assert(room.clients@[i].0 == id);
        assert(room.clients@[i].1@[j] == handle);
        assert(false);
    }
}

/// Dropping one handle value empties a handle list exactly when the list
/// held nothing else.
proof fn lemma_without_handle_iff(hs: Seq<u64>, handle: u64)
    ensures
        (without_handle(hs, handle).len() == 0)
            <==> (forall|i: int| 0 <= i < hs.len() ==> hs[i] == handle),
    decreases hs.len(),
{
    reveal(Seq::filter);
    if hs.len() != 0 {
        lemma_without_handle_iff(hs.drop_last(), handle);
        if hs.last() == handle {
            if without_handle(hs, handle).len() == 0 {
                assert forall|i: int| 0 <= i < hs.len() implies hs[i] == handle by {
                    if i < hs.len() - 1 {
                        assert(hs.drop_last()[i] == hs[i]);
                    }
                }
            } else {
                assert(without_handle(hs.drop_last(), handle).len() > 0);
                let i = choose|i: int| 0 <= i < hs.drop_last().len() && hs.drop_last()[i] != handle;
                assert(hs[i] != handle);
            }
        } else {
            assert(without_handle(hs, handle).len() > 0);
            assert(hs[hs.len() - 1] != handle);
        }
    }
}

/// The registry after one handle of an identity was dropped: the handle is
/// gone, an identity without handles is gone, every other identity is
/// untouched.
pub open spec fn client_pruned(
    before: ServerRoom,
    after: ServerRoom,
    id: ClientId,
    handle: u64,
) -> bool {
    &&& (!before.clients_map().contains_key(id) ==> after.clients == before.clients)
    &&& forall|k: ClientId|
        k != id && #[trigger] before.clients_map().contains_key(k)
            ==> after.clients_map().contains_key(k)
                && after.clients_map()[k] == before.clients_map()[k]
    &&& forall|k: ClientId| #[trigger] after.clients_map().contains_key(k)
        ==> before.clients_map().contains_key(k)
    &&& (after.clients_map().contains_key(id)
        ==> after.clients_map()[id]@ == without_handle(before.clients_map()[id]@, handle)
            && after.clients_map()[id]@.len() > 0)
    &&& (before.clients_map().contains_key(id)
        && without_handle(before.clients_map()[id]@, handle).len() > 0
        ==> after.clients_map().contains_key(id))
}

impl ServerRoom {
    /// One registry entry per identity, and an entry only exists while the
    /// identity still has a connection handle.
    pub open spec fn wf(&self) -> bool {
        &&& unique_keys(self.clients@)
        &&& forall|i: int| 0 <= i < self.clients@.len()
            ==> (#[trigger] self.clients@[i]).1@.len() >= 1
    }

    /// The connection handles keyed by the identity that owns them.
    pub open spec fn clients_map(&self) -> Map<ClientId, Vec<u64>> {
        assoc_map(self.clients@)
    }

    /// A fresh in-memory room: no connections, no cached tally.
    pub fn new() -> (r: ServerRoom)
        ensures
            r.clients@.len() == 0,
            r.results_cache is None,
            r.wf(),
    {
        ServerRoom { clients: Vec::new(), results_cache: None }
    }

    /// Add one connection handle under an identity, creating the identity's
    /// registry entry when absent.
    #[verifier::loop_isolation(false)]
    pub fn add_client(&mut self, client_id: ClientId, handle: u64)
        requires
            old(self).wf(),
        ensures
            final(self).wf(),
            final(self).results_cache == old(self).results_cache,
            final(self).clients_map().dom()
                == old(self).clients_map().dom().insert(client_id),
            forall|k: ClientId|
                k != client_id && #[trigger] old(self).clients_map().contains_key(k)
                    ==> final(self).clients_map()[k] == old(self).clients_map()[k],
            old(self).clients_map().contains_key(client_id)
                ==> final(self).clients_map()[client_id]@
                    == old(self).clients_map()[client_id]@.push(handle),
            !old(self).clients_map().contains_key(client_id)
                ==> final(self).clients_map()[client_id]@ == seq![handle],
            old(self).clients_map().contains_key(client_id)
                ==> final(self).clients@.len() == old(self).clients@.len(),
            !old(self).clients_map().contains_key(client_id)
                ==> final(self).clients@.len() == old(self).clients@.len() + 1,
    {
        proof {
            lemma_assoc_map_props(self.clients@);
        }
        let mut i: usize = 0;
        while i < self.clients.len()
            invariant
                i <= self.clients@.len(),
                forall|k: int| 0 <= k < i ==> (#[trigger] self.clients@[k]).0 != client_id,
                *self == *old(self),
            decreases self.clients@.len() - i,
        {
            if self.clients[i].0 == client_id {
                let ghost handles0 = self.clients@[i as int].1@;
                let mut entry = self.clients.remove(i);
                entry.1.push(handle);
                self.clients.insert(i, entry);
                proof {
                    assert(self.clients@ =~= old(self).clients@.update(
                        i as int,
                        self.clients@[i as int],
                    ));
                    assert(self.clients@[i as int].0 == client_id);
                    assert(self.clients@[i as int].1@ == handles0.push(handle));
                    lemma_assoc_map_update(
                        old(self).clients@,
                        i as int,
                        self.clients@[i as int].1,
                    );
                    assert(final(self).clients_map().dom()
                        =~= old(self).clients_map().dom().insert(client_id));
                }
                return ;
            }
            i = i + 1;
        }
        proof {
            if old(self).clients_map().contains_key(client_id) {
                let k = choose|k: int|
                    0 <= k < old(self).clients@.len()
                        && (#[trigger] old(self).clients@[k]).0 == client_id;
                assert(false);
            }
        }
        let mut handles: Vec<u64> = Vec::new();
        handles.push(handle);
        proof {
            assert(handles@ =~= seq![handle]);
            lemma_assoc_map_push(self.clients@, client_id, handles);
        }
        self.clients.push((client_id, handles));
        proof {
            assert(final(self).clients_map().dom()
                =~= old(self).clients_map().dom().insert(client_id));
        }
    }

    /// Drop one connection handle of an identity; an identity left with no
    /// handles loses its registry entry. Returns whether the room still has
    /// any connection.
    #[verifier::loop_isolation(false)]
    pub fn prune_handle(&mut self, client_id: ClientId, handle: u64) -> (any_left: bool)
        requires
            old(self).wf(),
        ensures
            final(self).wf(),
            final(self).results_cache == old(self).results_cache,
            client_pruned(*old(self), *final(self), client_id, handle),
            any_left == (final(self).clients@.len() > 0),
            any_left == !only_handle(*old(self), client_id, handle),
    {
        proof {
            lemma_assoc_map_props(self.clients@);
        }
        let mut i: usize = 0;
        while i < self.clients.len()
            invariant
                i <= self.clients@.len(),
                forall|k: int| 0 <= k < i ==> (#[trigger] self.clients@[k]).0 != client_id,
                *self == *old(self),
            decreases self.clients@.len() - i,
        {
            if self.clients[i].0 == client_id {
                let entry = self.clients.remove(i);
                let ghost removed = self.clients@;
                proof {
                    assert(removed =~= old(self).clients@.remove(i as int));
                    lemma_assoc_remove(old(self).clients@, i as int);
                }
                // Keep the handles other than the one that closed.
                let mut kept: Vec<u64> = Vec::new();
                let mut j: usize = 0;
                while j < entry.1.len()
                    invariant
                        j <= entry.1@.len(),
                        kept@ == without_handle(entry.1@.take(j as int), handle),
                    decreases entry.1@.len() - j,
                {
                    let h = entry.1[j];
                    proof {
                        reveal(Seq::filter);
                        assert(entry.1@.take(j + 1).drop_last() =~= entry.1@.take(j as int));
                        assert(entry.1@.take(j + 1).last() == h);
                    }
                    if h != handle {
                        kept.push(h);
                    }
                    j = j + 1;
                }
                proof {
                    assert(entry.1@.take(entry.1@.len() as int) =~= entry.1@);
                }
                proof {
                    lemma_without_handle_iff(entry.1@, handle);
                }
                if kept.len() > 0 {
                    proof {
                        lemma_assoc_map_insert_back(removed, i as int, client_id, kept);
                    }
                    self.clients.insert(i, (client_id, kept));
                    proof {
                        assert(final(self).clients_map()
                            == assoc_map(removed).insert(client_id, final(self).clients@[i as int].1));
                        // A kept handle shows the pruned one was not alone.
                        let j0 = choose|j0: int|
                            0 <= j0 < entry.1@.len() && entry.1@[j0] != handle;
                        assert(old(self).clients@[i as int].1@[j0] != handle);
                        assert(!only_handle(*old(self), client_id, handle));
                    }
                } else {
                    proof {
                        assert(final(self).clients_map() == assoc_map(removed));
                        if old(self).clients@.len() > 1 {
                            // Another identity remains, with a handle of its
                            // own: the pruned one was not alone.
                            let k: int = if i == 0 { 1 } else { 0 };
                            assert(old(self).clients@[k].0 != client_id);
                            assert(old(self).clients@[k].1@.len() >= 1);
                            lemma_not_only_handle(*old(self), client_id, handle, k, 0);
                            assert(self.clients@.len() > 0);
                        } else {
                            assert(self.clients@.len() == 0);
                            assert forall|i2: int| 0 <= i2 < old(self).clients@.len() implies
                                (#[trigger] old(self).clients@[i2]).0 == client_id
                                    && (forall|j2: int|
                                        0 <= j2 < old(self).clients@[i2].1@.len()
                                            ==> (#[trigger] old(self).clients@[i2].1@[j2])
                                                == handle) by {
                                assert(i2 == i);
                                assert forall|j2: int|
                                    0 <= j2 < old(self).clients@[i2].1@.len() implies
                                    (#[trigger] old(self).clients@[i2].1@[j2]) == handle by {
                                    assert(old(self).clients@[i2].1@[j2] == entry.1@[j2]);
                                }
                            }
                            assert(only_handle(*old(self), client_id, handle));
                        }
                    }
                }
                let left = self.clients.len() > 0;
                return left;
            }
            i = i + 1;
        }
        proof {
            if old(self).clients_map().contains_key(client_id) {
                let k = choose|k: int|
                    0 <= k < old(self).clients@.len()
                        && (#[trigger] old(self).clients@[k]).0 == client_id;
                assert(false);
            }
            // No entry of this identity: the room empties exactly when it
            // already was empty.
            if self.clients@.len() > 0 {
                assert(old(self).clients@[0].0 != client_id);
                assert(old(self).clients@[0].1@.len() >= 1);
                lemma_not_only_handle(*old(self), client_id, handle, 0, 0);
            } else {
                assert(only_handle(*old(self), client_id, handle));
            }
        }
        self.clients.len() > 0
    }

    /// Keep the cached tally in line with the durable record: populate it
    /// when the room is tallied, drop it when the room is not. Returns false
    /// exactly when the cache was populated without the record being
    /// tallied: an internal fault the caller should log.
    pub fn update_results_cache(&mut self, rec: &RoomRecord) -> (consistent: bool)
        ensures
            final(self).clients == old(self).clients,
            cache_step(old(self).results_cache, final(self).results_cache, *rec),
            consistent == !(old(self).results_cache is Some && !rec.tallied),
    {
        if rec.tallied {
            if self.results_cache.is_none() {
                self.results_cache = Some(calculate_room_tally(&rec.choices, &rec.votes));
            }
            true
        } else {
            let had = self.results_cache.is_some();
            self.results_cache = None;
            !had
        }
    }

    /// Build the view one identity is shown. Every connection of one
    /// identity receives an identical view. The durable tallied flag alone
    /// decides whether results are disclosed: a cache populated while the
    /// record is untallied is an internal fault and is suppressed rather
    /// than propagated, and a tallied room with an empty cache has its
    /// result computed from the ballots on the spot.
    pub fn get_client_notification(&self, client_id: ClientId, rec: &RoomRecord) -> (r:
        ClientNotification)
        requires
            rec.wf(),
        ensures
            notif_matches(r, *self, *rec, client_id),
    {
        let results = if rec.tallied {
            let tally = match &self.results_cache {
                Some(t) => t.duplicate(),
                None => calculate_room_tally(&rec.choices, &rec.votes),
            };
            Some(VotingResults { tally, votes: rec.all_votes() })
        } else {
            None
        };
        let choices = clone_strings(&rec.choices);
        proof {
            assert(strs_view(choices@) =~= strs_view(rec.choices@));
        }
        ClientNotification {
            status: ClientStatus::Connected,
            vote: Some(
                VoteView {
                    choices,
                    your_vote: rec.vote_of(client_id),
                    num_votes: rec.votes.len(),
                    num_players: self.clients.len(),
                    results,
                },
            ),
        }
    }

    /// Refresh the cache, then build, once per identity, the notification
    /// to push to every connection handle of that identity. Returns the
    /// deliveries and whether cache and tallied flag agreed.
    #[verifier::loop_isolation(false)]
    pub fn broadcast_room_state(&mut self, rec: &RoomRecord) -> (out: (
        Vec<(ClientId, Vec<u64>, ClientNotification)>,
        bool,
    ))
        requires
            old(self).wf(),
            rec.wf(),
        ensures
            final(self).wf(),
            final(self).clients == old(self).clients,
            cache_step(old(self).results_cache, final(self).results_cache, *rec),
            out.1 == !(old(self).results_cache is Some && !rec.tallied),
            fanout_ok(out.0@, *final(self), *rec),
    {
        let consistent = self.update_results_cache(rec);
        let ghost sroom = *self;
        let mut out: Vec<(ClientId, Vec<u64>, ClientNotification)> = Vec::new();
        let mut i: usize = 0;
        while i < self.clients.len()
            invariant
                *self == sroom,
                i <= self.clients@.len(),
                out@.len() == i,
                forall|i0: int| 0 <= i0 < i
                    ==> (#[trigger] out@[i0]).0 == self.clients@[i0].0
                        && out@[i0].1@ == self.clients@[i0].1@
                        && notif_matches(out@[i0].2, *self, *rec, self.clients@[i0].0),
            decreases self.clients@.len() - i,
        {
            let client_id = self.clients[i].0;
            // Copy this identity's handle list.
            let mut handles: Vec<u64> = Vec::new();
            let mut j: usize = 0;
            while j < self.clients[i].1.len()
                invariant
                    *self == sroom,
                    i < self.clients@.len(),
                    j <= self.clients@[i as int].1@.len(),
                    handles@ == self.clients@[i as int].1@.take(j as int),
                decreases self.clients@[i as int].1@.len() - j,
            {
                handles.push(self.clients[i].1[j]);
                proof {
                    assert(self.clients@[i as int].1@.take(j + 1)
                        =~= self.clients@[i as int].1@.take(j as int).push(
                        self.clients@[i as int].1@[j as int],
                    ));
                }
                j = j + 1;
            }
            proof {
                assert(self.clients@[i as int].1@.take(self.clients@[i as int].1@.len() as int)
                    =~= self.clients@[i as int].1@);
            }
            let nf = self.get_client_notification(client_id, rec);
            out.push((client_id, handles, nf));
            i = i + 1;
        }
        (out, consistent)
    }
}

/// Removing an entry removes its key from the map.
proof fn lemma_assoc_remove<K, V>(entries: Seq<(K, V)>, i: int)
    requires
        unique_keys(entries),
        0 <= i < entries.len(),
    ensures
        unique_keys(entries.remove(i)),
        assoc_map(entries.remove(i)) == assoc_map(entries).remove(entries[i].0),
        forall|k: K| k != entries[i].0
            ==> (#[trigger] assoc_map(entries.remove(i)).contains_key(k)
                == assoc_map(entries).contains_key(k)),
    decreases entries.len(),
{
    let rem = entries.remove(i);
    assert forall|a: int, b: int| 0 <= a < b < rem.len() implies rem[a].0 != rem[b].0 by {
        if a < i && b < i {
            assert(entries[a].0 != entries[b].0);
        } else if a < i {
            assert(entries[a].0 != entries[b + 1].0);
        } else {
            assert(entries[a + 1].0 != entries[b + 1].0);
        }
    }
    if i == entries.len() - 1 {
        assert(rem =~= entries.drop_last());
        lemma_assoc_map_props(entries.drop_last());
        assert(!assoc_map(entries.drop_last()).contains_key(entries[i].0)) by {
            if assoc_map(entries.drop_last()).contains_key(entries[i].0) {
                let k = choose|k: int|
                    0 <= k < entries.drop_last().len()
                        && (#[trigger] entries.drop_last()[k]).0 == entries[i].0;
                assert(false);
            }
        }
        assert(assoc_map(rem) =~= assoc_map(entries).remove(entries[i].0));
    } else {
        lemma_assoc_remove(entries.drop_last(), i);
        assert(rem.drop_last() =~= entries.drop_last().remove(i));
        assert(rem.last() == entries.last());
        assert(entries.drop_last()[i] == entries[i]);
        assert(assoc_map(rem)
            == assoc_map(entries.drop_last()).remove(entries[i].0).insert(
            entries.last().0,
            entries.last().1,
        ));
        assert(entries[i].0 != entries.last().0);
        assert(assoc_map(entries.drop_last()).remove(entries[i].0).insert(
            entries.last().0,
            entries.last().1,
        ) =~= assoc_map(entries).remove(entries[i].0));
    }
}

/// Inserting an entry with a fresh key at any position puts it in the map.
proof fn lemma_assoc_map_insert_back<K, V>(entries: Seq<(K, V)>, i: int, k: K, v: V)
    requires
        unique_keys(entries),
        0 <= i <= entries.len(),
        forall|j: int| 0 <= j < entries.len() ==> (#[trigger] entries[j]).0 != k,
    ensures
        unique_keys(entries.insert(i, (k, v))),
        assoc_map(entries.insert(i, (k, v))) == assoc_map(entries).insert(k, v),
    decreases entries.len(),
{
    let ins = entries.insert(i, (k, v));
    assert forall|a: int, b: int| 0 <= a < b < ins.len() implies ins[a].0 != ins[b].0 by {
        if a < i && b < i {
            assert(entries[a].0 != entries[b].0);
        } else if a < i && b > i {
            assert(entries[a].0 != entries[b - 1].0);
        } else if a > i && b > i {
            assert(entries[a - 1].0 != entries[b - 1].0);
        } else if a == i && b > i {
            assert(entries[b - 1].0 != k);
        } else if b == i && a < i {
            assert(entries[a].0 != k);
        }
    }
    if i == entries.len() {
        assert(ins =~= entries.push((k, v)));
        lemma_assoc_map_push(entries, k, v);
    } else {
        assert(ins.drop_last() =~= entries.drop_last().insert(i, (k, v)));
        assert(ins.last() == entries.last());
        lemma_assoc_map_insert_back(entries.drop_last(), i, k, v);
        assert(assoc_map(ins)
            == assoc_map(entries.drop_last()).insert(k, v).insert(
            entries.last().0,
            entries.last().1,
        ));
        assert(entries.last().0 != k) by {
            assert(entries[entries.len() - 1].0 != k);
        }
        assert(assoc_map(entries.drop_last()).insert(k, v).insert(
            entries.last().0,
            entries.last().1,
        ) =~= assoc_map(entries).insert(k, v));
    }
}


/// The registry after one handle joined under an identity.
pub open spec fn client_added(
    before: ServerRoom,
    after: ServerRoom,
    id: ClientId,
    handle: u64,
) -> bool {
    &&& after.clients_map().dom() == before.clients_map().dom().insert(id)
    &&& (before.clients_map().contains_key(id)
        ==> after.clients_map()[id]@ == before.clients_map()[id]@.push(handle))
    &&& (!before.clients_map().contains_key(id) ==> after.clients_map()[id]@ == seq![handle])
    &&& forall|k: ClientId|
        k != id && #[trigger] before.clients_map().contains_key(k)
            ==> after.clients_map()[k] == before.clients_map()[k]
}

/// Outcome of registering a connection with a room.
pub enum RegisterOutcome {
    /// The room id names no durable room; send this to the new connection
    /// and nothing else.
    Rejected(ClientNotification),
    /// Registered; deliver these per-identity notifications. The flag is
    /// false when the result cache was populated although the record is
    /// not tallied — an internal fault the caller should log; the cache
    /// was healed, not propagated.
    Registered(Vec<(ClientId, Vec<u64>, ClientNotification)>, bool),
}

/// Outcome of a ballot submission.
pub enum SubmitOutcome {
    /// The room has no live entry; nothing changed, nothing to write.
    NotRegistered,
    /// The room is already tallied: voting is frozen; neither the record
    /// nor the cached result changed, and there is nothing to write.
    Frozen,
    /// The ballot was stored: write the record back and deliver these.
    /// The flag is false when a result cache was populated on this
    /// untallied room — an internal fault the caller should log; the
    /// cache was cleared, not propagated.
    Updated(Vec<(ClientId, Vec<u64>, ClientNotification)>, bool),
}

/// Outcome of a tally request.
pub enum TallyOutcome {
    /// The room has no live entry; nothing changed.
    NotRegistered,
    /// The room is tallied (idempotently): write the record back and
    /// deliver these. A tally leaves no cache mismatch to report: the
    /// record is tallied and the cache ends populated.
    Tallied(Vec<(ClientId, Vec<u64>, ClientNotification)>),
}

/// Outcome of pruning a connection handle.
pub enum PruneOutcome {
    /// The room has no live entry; nothing changed.
    NotRegistered,
    /// The last connection left: the in-memory room was evicted. The
    /// durable record is untouched.
    Evicted,
    /// Connections remain: deliver these notifications. The first flag is
    /// false when no durable record was found, the second when the result
    /// cache was populated although the record is not tallied — each an
    /// internal fault the caller should log. Without a record nothing is
    /// delivered and the cache is left as it was.
    Pruned(Vec<(ClientId, Vec<u64>, ClientNotification)>, bool, bool),
}

/// The process-wide coordinator: the authoritative table of live rooms.
/// Every room mutation flows through one value of this type; the caller
/// serializes operations behind one lock, store round trips included.
pub struct VoteState {
    pub rooms: Vec<(RoomId, ServerRoom)>,
}

/// Room keys are unique and every room registry is well formed.
pub open spec fn rooms_wf(rooms: Seq<(RoomId, ServerRoom)>) -> bool {
    &&& forall|i: int, j: int|
        0 <= i < j < rooms.len()
            ==> (#[trigger] rooms[i]).0.0@ != (#[trigger] rooms[j]).0.0@
    &&& forall|i: int| 0 <= i < rooms.len() ==> (#[trigger] rooms[i]).1.wf()
}

/// The index of the room with this id, or -1 when absent.
pub open spec fn find_room(rooms: Seq<(RoomId, ServerRoom)>, rid: Seq<char>) -> int
    decreases rooms.len(),
{
    if rooms.len() == 0 {
        -1
    } else if rooms.last().0.0@ == rid {
        rooms.len() - 1
    } else {
        find_room(rooms.drop_last(), rid)
    }
}

pub proof fn lemma_find_room(rooms: Seq<(RoomId, ServerRoom)>, rid: Seq<char>)
    ensures
        -1 <= find_room(rooms, rid) < rooms.len(),
        find_room(rooms, rid) >= 0 ==> rooms[find_room(rooms, rid)].0.0@ == rid,
        find_room(rooms, rid) == -1
            ==> forall|i: int| 0 <= i < rooms.len() ==> (#[trigger] rooms[i]).0.0@ != rid,
    decreases rooms.len(),
{
    if rooms.len() != 0 {
        lemma_find_room(rooms.drop_last(), rid);
        if rooms.last().0.0@ != rid && find_room(rooms.drop_last(), rid) == -1 {
            assert forall|i: int| 0 <= i < rooms.len() implies
                (#[trigger] rooms[i]).0.0@ != rid by {
                if i < rooms.len() - 1 {
                    assert(rooms.drop_last()[i] == rooms[i]);
                }
            }
        }
    }
}

/// With unique keys, any entry whose key matches is the found one.
proof fn lemma_find_room_unique(rooms: Seq<(RoomId, ServerRoom)>, rid: Seq<char>, i: int)
    requires
        rooms_wf(rooms),
        0 <= i < rooms.len(),
        rooms[i].0.0@ == rid,
    ensures
        find_room(rooms, rid) == i,
    decreases rooms.len(),
{
    if rooms.len() != 0 {
        if rooms.last().0.0@ == rid {
            assert(i == rooms.len() - 1);
        } else {
            assert(i < rooms.len() - 1);
            assert(rooms.drop_last()[i] == rooms[i]);
            lemma_find_room_unique(rooms.drop_last(), rid, i);
        }
    }
}

/// Replacing one entry, key kept, moves no other room.
proof fn lemma_find_room_update(
    rooms: Seq<(RoomId, ServerRoom)>,
    i: int,
    e: (RoomId, ServerRoom),
    rid: Seq<char>,
)
    requires
        0 <= i < rooms.len(),
        e.0.0@ == rooms[i].0.0@,
    ensures
        find_room(rooms.update(i, e), rid) == find_room(rooms, rid),
    decreases rooms.len(),
{
    let upd = rooms.update(i, e);
    if rooms.len() != 0 {
        if i == rooms.len() - 1 {
            assert(upd.drop_last() =~= rooms.drop_last());
        } else {
            assert(upd.drop_last() =~= rooms.drop_last().update(i, e));
            assert(upd.last() == rooms.last());
            lemma_find_room_update(rooms.drop_last(), i, e, rid);
        }
    }
}

impl VoteState {
    /// The coordinator invariant.
    pub open spec fn wf(&self) -> bool {
        rooms_wf(self.rooms@)
    }

    /// Whether a room with this id is live in memory.
    pub open spec fn has_room(&self, rid: Seq<char>) -> bool {
        find_room(self.rooms@, rid) >= 0
    }

    /// The live room with this id.
    pub open spec fn room_of(&self, rid: Seq<char>) -> ServerRoom {
        self.rooms@[find_room(self.rooms@, rid)].1
    }

    /// A coordinator with no live rooms.
    pub fn new() -> (s: VoteState)
        ensures
            s.rooms@.len() == 0,
            s.wf(),
    {
        VoteState { rooms: Vec::new() }
    }

    /// Find the table index of a live room.
    #[verifier::loop_isolation(false)]
    fn find_index(&self, room_id: &RoomId) -> (r: Option<usize>)
        requires
            self.wf(),
        ensures
            match r {
                Some(i) => i < self.rooms@.len() && find_room(self.rooms@, room_id.0@) == i,
                None => find_room(self.rooms@, room_id.0@) == -1,
            },
    {
        let mut i: usize = 0;
        while i < self.rooms.len()
            invariant
                i <= self.rooms@.len(),
                forall|k: int| 0 <= k < i ==> (#[trigger] self.rooms@[k]).0.0@ != room_id.0@,
            decreases self.rooms@.len() - i,
        {
            if self.rooms[i].0.same_as(room_id) {
                proof {
                    lemma_find_room_unique(self.rooms@, room_id.0@, i as int);
                }
                return Some(i);
            }
            i = i + 1;
        }
        proof {
            lemma_find_room(self.rooms@, room_id.0@);
            if find_room(self.rooms@, room_id.0@) >= 0 {
                assert(self.rooms@[find_room(self.rooms@, room_id.0@)].0.0@ == room_id.0@);
            }
        }
        None
    }

    /// Register a connection. The durable record, read by the caller,
    /// decides: a missing record rejects the client with InvalidRoom;
    /// otherwise the handle joins the lazily created in-memory room and
    /// every identity of the room is notified, the new one included.
    pub fn register_client(
        &mut self,
        room_id: &RoomId,
        client_id: ClientId,
        handle: u64,
        record: Option<&RoomRecord>,
    ) -> (out: RegisterOutcome)
        requires
            old(self).wf(),
            record matches Some(rec) ==> rec.wf(),
        ensures
            final(self).wf(),
            record is None ==> *final(self) == *old(self)
                && (out matches RegisterOutcome::Rejected(n)
                    ==> n.status is InvalidRoom && n.vote is None)
                && (out is Rejected),
            record matches Some(rec) ==> {
                &&& final(self).has_room(room_id.0@)
                &&& (out matches RegisterOutcome::Registered(v, cache_ok)
                    && fanout_ok(v@, final(self).room_of(room_id.0@), *rec)
                    && cache_ok == !(old(self).has_room(room_id.0@)
                        && old(self).room_of(room_id.0@).results_cache is Some
                        && !rec.tallied))
                &&& (old(self).has_room(room_id.0@) ==> {
                    &&& client_added(
                        old(self).room_of(room_id.0@),
                        final(self).room_of(room_id.0@),
                        client_id,
                        handle,
                    )
                    &&& cache_step(
                        old(self).room_of(room_id.0@).results_cache,
                        final(self).room_of(room_id.0@).results_cache,
                        *rec,
                    )
                    &&& final(self).rooms@.len() == old(self).rooms@.len()
                })
                &&& (!old(self).has_room(room_id.0@) ==> {
                    &&& final(self).room_of(room_id.0@).clients_map().dom()
                        =~= Set::<ClientId>::empty().insert(client_id)
                    &&& final(self).room_of(room_id.0@).clients_map()[client_id]@
                        == seq![handle]
                    &&& cache_step(None, final(self).room_of(room_id.0@).results_cache, *rec)
                    &&& final(self).rooms@.len() == old(self).rooms@.len() + 1
                })
                &&& forall|i: int|
                    0 <= i < old(self).rooms@.len() && i != find_room(old(self).rooms@, room_id.0@)
                        ==> #[trigger] final(self).rooms@[i] == old(self).rooms@[i]
            },
    {
        let rec = match record {
            Some(r) => r,
            None => {
                return RegisterOutcome::Rejected(
                    ClientNotification { status: ClientStatus::InvalidRoom, vote: None },
                );
            },
        };
        let idx = match self.find_index(room_id) {
            Some(i) => i,
            None => {
                let i = self.rooms.len();
                let fresh = ServerRoom::new();
                self.rooms.push((room_id.duplicate(), fresh));
                proof {
                    assert(self.rooms@.drop_last() =~= old(self).rooms@);
                    assert(rooms_wf(self.rooms@)) by {
                        lemma_find_room(old(self).rooms@, room_id.0@);
                        assert forall|a: int, b: int| 0 <= a < b < self.rooms@.len() implies
                            (#[trigger] self.rooms@[a]).0.0@ != (#[trigger] self.rooms@[b]).0.0@ by {
                            if b < self.rooms@.len() - 1 {
                                assert(old(self).rooms@[a].0.0@ != old(self).rooms@[b].0.0@);
                            } else {
                                assert(self.rooms@[a] == old(self).rooms@[a]);
                            }
                        }
                    }
                }
                i
            },
        };
        proof {
            if old(self).has_room(room_id.0@) {
                lemma_find_room(self.rooms@, room_id.0@);
            } else {
                lemma_find_room_unique(self.rooms@, room_id.0@, idx as int);
            }
        }
        let ghost mid = *self;
        let mut entry = self.rooms.remove(idx);
        entry.1.add_client(client_id, handle);
        let (deliveries, cache_ok) = entry.1.broadcast_room_state(rec);
        let ghost new_entry = entry;
        self.rooms.insert(idx, entry);
        proof {
            assert(self.rooms@ =~= mid.rooms@.update(idx as int, new_entry));
            assert(new_entry.0.0@ == room_id.0@);
            lemma_find_room_update(mid.rooms@, idx as int, new_entry, room_id.0@);
            assert forall|rid2: Seq<char>| true implies
                find_room(self.rooms@, rid2) == find_room(mid.rooms@, rid2) by {
                lemma_find_room_update(mid.rooms@, idx as int, new_entry, rid2);
            }
            assert(rooms_wf(self.rooms@)) by {
                assert forall|a: int, b: int| 0 <= a < b < self.rooms@.len() implies
                    (#[trigger] self.rooms@[a]).0.0@ != (#[trigger] self.rooms@[b]).0.0@ by {
                    assert(mid.rooms@[a].0.0@ != mid.rooms@[b].0.0@);
                }
            }
            assert(find_room(self.rooms@, room_id.0@) == idx);
            assert(self.rooms@[idx as int].1 == new_entry.1);
            if !old(self).has_room(room_id.0@) {
                assert(final(self).room_of(room_id.0@).clients_map().dom()
                    =~= Set::<ClientId>::empty().insert(client_id));
            }
        }
        RegisterOutcome::Registered(deliveries, cache_ok)
    }
}

/// Serialized upserts by two different identities lose neither update:
/// after both submissions, each identity's ballot is the one it sent.
pub proof fn lemma_no_lost_update(
    m: Map<ClientId, UserVote>,
    c1: ClientId,
    v1: UserVote,
    c2: ClientId,
    v2: UserVote,
)
    requires
        c1 != c2,
    ensures
        m.insert(c1, v1).insert(c2, v2).contains_key(c1),
        m.insert(c1, v1).insert(c2, v2).contains_key(c2),
        m.insert(c1, v1).insert(c2, v2)[c1] == v1,
        m.insert(c1, v1).insert(c2, v2)[c2] == v2,
{
}


impl VoteState {
    /// Store a ballot submitted by a connected identity. The caller reads
    /// the durable record, hands it in, and writes it back only when the
    /// outcome says it changed. A tallied room freezes voting: neither the
    /// ballots nor the cached result change.
    pub fn submit_vote(
        &mut self,
        room_id: &RoomId,
        client_id: ClientId,
        vote: UserVote,
        record: &mut RoomRecord,
    ) -> (out: SubmitOutcome)
        requires
            old(self).wf(),
            old(record).wf(),
        ensures
            final(self).wf(),
            final(record).wf(),
            !old(self).has_room(room_id.0@) ==> out is NotRegistered
                && *final(self) == *old(self) && *final(record) == *old(record),
            old(self).has_room(room_id.0@) && old(record).tallied ==> out is Frozen
                && *final(self) == *old(self) && *final(record) == *old(record),
            old(self).has_room(room_id.0@) && !old(record).tallied ==> {
                &&& final(record).votes_map()
                    == old(record).votes_map().insert(client_id, vote)
                &&& final(record).choices == old(record).choices
                &&& final(record).tallied == old(record).tallied
                &&& final(self).has_room(room_id.0@)
                &&& (out matches SubmitOutcome::Updated(v, cache_ok)
                    && fanout_ok(v@, final(self).room_of(room_id.0@), *final(record))
                    && cache_ok == !(old(self).room_of(room_id.0@).results_cache is Some))
                &&& final(self).room_of(room_id.0@).results_cache is None
                &&& final(self).room_of(room_id.0@).clients
                    == old(self).room_of(room_id.0@).clients
                &&& final(self).rooms@.len() == old(self).rooms@.len()
                &&& forall|i: int|
                    0 <= i < old(self).rooms@.len()
                        && i != find_room(old(self).rooms@, room_id.0@)
                        ==> #[trigger] final(self).rooms@[i] == old(self).rooms@[i]
            },
    {
        let idx = match self.find_index(room_id) {
            Some(i) => i,
            None => {
                return SubmitOutcome::NotRegistered;
            },
        };
        proof {
            lemma_find_room(self.rooms@, room_id.0@);
            assert(self.rooms@[idx as int].0.0@ == room_id.0@);
            assert(self.rooms@[idx as int].1.wf());
        }
        if record.tallied {
            return SubmitOutcome::Frozen;
        }
        record.upsert_vote(client_id, vote);
        let ghost mid = *self;
        let mut entry = self.rooms.remove(idx);
        let (deliveries, cache_ok) = entry.1.broadcast_room_state(record);
        let ghost new_entry = entry;
        self.rooms.insert(idx, entry);
        proof {
            assert(self.rooms@ =~= mid.rooms@.update(idx as int, new_entry));
            assert(new_entry.0.0@ == room_id.0@);
            assert forall|rid2: Seq<char>| true implies
                find_room(self.rooms@, rid2) == find_room(mid.rooms@, rid2) by {
                lemma_find_room_update(mid.rooms@, idx as int, new_entry, rid2);
            }
            assert(rooms_wf(self.rooms@)) by {
                assert forall|a: int, b: int| 0 <= a < b < self.rooms@.len() implies
                    (#[trigger] self.rooms@[a]).0.0@ != (#[trigger] self.rooms@[b]).0.0@ by {
                    assert(mid.rooms@[a].0.0@ != mid.rooms@[b].0.0@);
                }
            }
        }
        SubmitOutcome::Updated(deliveries, cache_ok)
    }

    /// Mark the room tallied and notify everyone. Tallying an already
    /// tallied room changes nothing but re-broadcasts: in particular the
    /// cached result, once present, is never replaced.
    pub fn tally(&mut self, room_id: &RoomId, record: &mut RoomRecord) -> (out: TallyOutcome)
        requires
            old(self).wf(),
            old(record).wf(),
        ensures
            final(self).wf(),
            final(record).wf(),
            !old(self).has_room(room_id.0@) ==> out is NotRegistered
                && *final(self) == *old(self) && *final(record) == *old(record),
            old(self).has_room(room_id.0@) ==> {
                &&& final(record).tallied
                &&& final(record).votes@ == old(record).votes@
                &&& final(record).choices == old(record).choices
                &&& final(self).has_room(room_id.0@)
                &&& (out matches TallyOutcome::Tallied(v)
                    && fanout_ok(v@, final(self).room_of(room_id.0@), *final(record)))
                &&& cache_step(
                    old(self).room_of(room_id.0@).results_cache,
                    final(self).room_of(room_id.0@).results_cache,
                    *final(record),
                )
                &&& (old(self).room_of(room_id.0@).results_cache matches Some(t0)
                    ==> final(self).room_of(room_id.0@).results_cache == Some(t0))
                &&& final(self).room_of(room_id.0@).clients
                    == old(self).room_of(room_id.0@).clients
                &&& final(self).rooms@.len() == old(self).rooms@.len()
                &&& forall|i: int|
                    0 <= i < old(self).rooms@.len()
                        && i != find_room(old(self).rooms@, room_id.0@)
                        ==> #[trigger] final(self).rooms@[i] == old(self).rooms@[i]
            },
    {
        let idx = match self.find_index(room_id) {
            Some(i) => i,
            None => {
                return TallyOutcome::NotRegistered;
            },
        };
        proof {
            lemma_find_room(self.rooms@, room_id.0@);
            assert(self.rooms@[idx as int].0.0@ == room_id.0@);
            assert(self.rooms@[idx as int].1.wf());
        }
        record.tallied = true;
        let ghost mid = *self;
        let mut entry = self.rooms.remove(idx);
        let (deliveries, _consistent) = entry.1.broadcast_room_state(record);
        let ghost new_entry = entry;
        self.rooms.insert(idx, entry);
        proof {
            assert(self.rooms@ =~= mid.rooms@.update(idx as int, new_entry));
            assert(new_entry.0.0@ == room_id.0@);
            assert forall|rid2: Seq<char>| true implies
                find_room(self.rooms@, rid2) == find_room(mid.rooms@, rid2) by {
                lemma_find_room_update(mid.rooms@, idx as int, new_entry, rid2);
            }
            assert(rooms_wf(self.rooms@)) by {
                assert forall|a: int, b: int| 0 <= a < b < self.rooms@.len() implies
                    (#[trigger] self.rooms@[a]).0.0@ != (#[trigger] self.rooms@[b]).0.0@ by {
                    assert(mid.rooms@[a].0.0@ != mid.rooms@[b].0.0@);
                }
            }
        }
        TallyOutcome::Tallied(deliveries)
    }

    /// Drop one connection handle after its socket closed. An identity left
    /// with no handles is dropped (its durable ballot stays); a room left
    /// with no handles is evicted from memory (its durable record stays).
    /// Otherwise the remaining identities are notified, when the durable
    /// record could be read.
    pub fn prune_connection_handles(
        &mut self,
        room_id: &RoomId,
        client_id: ClientId,
        handle: u64,
        record: Option<&RoomRecord>,
    ) -> (out: PruneOutcome)
        requires
            old(self).wf(),
            record matches Some(rec) ==> rec.wf(),
        ensures
            final(self).wf(),
            !old(self).has_room(room_id.0@) ==> out is NotRegistered
                && *final(self) == *old(self),
            old(self).has_room(room_id.0@) ==> {
                &&& (out is Evicted ==> final(self).rooms@
                    =~= old(self).rooms@.remove(find_room(old(self).rooms@, room_id.0@)))
                &&& (out matches PruneOutcome::Pruned(v, seen, cache_ok) ==> {
                    &&& final(self).has_room(room_id.0@)
                    &&& client_pruned(
                        old(self).room_of(room_id.0@),
                        final(self).room_of(room_id.0@),
                        client_id,
                        handle,
                    )
                    &&& final(self).room_of(room_id.0@).clients@.len() > 0
                    &&& seen == (record is Some)
                    &&& (record matches Some(rec)
                        ==> fanout_ok(v@, final(self).room_of(room_id.0@), *rec)
                            && cache_ok == !(old(self).room_of(room_id.0@).results_cache is Some
                                && !rec.tallied))
                    &&& (record is None ==> v@.len() == 0 && cache_ok
                        && final(self).room_of(room_id.0@).results_cache
                            == old(self).room_of(room_id.0@).results_cache)
                    &&& final(self).rooms@.len() == old(self).rooms@.len()
                    &&& forall|i: int|
                        0 <= i < old(self).rooms@.len()
                            && i != find_room(old(self).rooms@, room_id.0@)
                            ==> #[trigger] final(self).rooms@[i] == old(self).rooms@[i]
                })
                &&& (out is NotRegistered == false)
                &&& ((out is Evicted)
                    <==> only_handle(old(self).room_of(room_id.0@), client_id, handle))
            },
    {
        let idx = match self.find_index(room_id) {
            Some(i) => i,
            None => {
                return PruneOutcome::NotRegistered;
            },
        };
        proof {
            lemma_find_room(self.rooms@, room_id.0@);
            assert(self.rooms@[idx as int].0.0@ == room_id.0@);
            assert(self.rooms@[idx as int].1.wf());
        }
        let ghost mid0 = *self;
        let ghost old_room = self.rooms@[idx as int].1;
        let mut entry = self.rooms.remove(idx);
        let any_left = entry.1.prune_handle(client_id, handle);
        if !any_left {
            proof {
                assert(self.rooms@ =~= old(self).rooms@.remove(idx as int));
                assert(rooms_wf(self.rooms@)) by {
                    assert forall|a: int, b: int| 0 <= a < b < self.rooms@.len() implies
                        (#[trigger] self.rooms@[a]).0.0@ != (#[trigger] self.rooms@[b]).0.0@ by {
                        if a < idx && b < idx {
                            assert(old(self).rooms@[a].0.0@ != old(self).rooms@[b].0.0@);
                        } else if a < idx {
                            assert(old(self).rooms@[a].0.0@ != old(self).rooms@[b + 1].0.0@);
                        } else {
                            assert(old(self).rooms@[a + 1].0.0@ != old(self).rooms@[b + 1].0.0@);
                        }
                    }
                }
            }
            return PruneOutcome::Evicted;
        }
        let ghost mid = *self;
        match record {
            Some(rec) => {
                let (deliveries, cache_ok) = entry.1.broadcast_room_state(rec);
                let ghost new_entry = entry;
                self.rooms.insert(idx, entry);
                proof {
                    assert(self.rooms@ =~= mid0.rooms@.update(idx as int, new_entry));
                    assert(new_entry.0.0@ == room_id.0@);
                    assert forall|rid2: Seq<char>| true implies
                        find_room(self.rooms@, rid2) == find_room(mid0.rooms@, rid2) by {
                        lemma_find_room_update(mid0.rooms@, idx as int, new_entry, rid2);
                    }
                    assert(rooms_wf(self.rooms@)) by {
                        assert forall|a: int, b: int| 0 <= a < b < self.rooms@.len() implies
                            (#[trigger] self.rooms@[a]).0.0@ != (#[trigger] self.rooms@[b]).0.0@ by {
                            assert(mid0.rooms@[a].0.0@ != mid0.rooms@[b].0.0@);
                        }
                    }
                }
                PruneOutcome::Pruned(deliveries, true, cache_ok)
            },
            None => {
                let ghost new_entry = entry;
                self.rooms.insert(idx, entry);
                proof {
                    assert(self.rooms@ =~= mid0.rooms@.update(idx as int, new_entry));
                    assert(new_entry.0.0@ == room_id.0@);
                    assert forall|rid2: Seq<char>| true implies
                        find_room(self.rooms@, rid2) == find_room(mid0.rooms@, rid2) by {
                        lemma_find_room_update(mid0.rooms@, idx as int, new_entry, rid2);
                    }
                    assert(rooms_wf(self.rooms@)) by {
                        assert forall|a: int, b: int| 0 <= a < b < self.rooms@.len() implies
                            (#[trigger] self.rooms@[a]).0.0@ != (#[trigger] self.rooms@[b]).0.0@ by {
                            assert(mid0.rooms@[a].0.0@ != mid0.rooms@[b].0.0@);
                        }
                    }
                }
                PruneOutcome::Pruned(Vec::new(), false, true)
            },
        }
    }

    /// The ids of every room live in memory: the retention sweeper
    /// refreshes their durable activity timestamps so rooms with live
    /// connections are not deleted from the store.
    pub fn rooms_to_touch(&self) -> (r: Vec<RoomId>)
        ensures
            r@.len() == self.rooms@.len(),
            forall|i: int| 0 <= i < r@.len()
                ==> (#[trigger] r@[i]).0@ == self.rooms@[i].0.0@,
    {
        let mut r: Vec<RoomId> = Vec::new();
        let mut i: usize = 0;
        while i < self.rooms.len()
            invariant
                i <= self.rooms@.len(),
                r@.len() == i,
                forall|k: int| 0 <= k < i
                    ==> (#[trigger] r@[k]).0@ == self.rooms@[k].0.0@,
            decreases self.rooms@.len() - i,
        {
            r.push(self.rooms[i].0.duplicate());
            i = i + 1;
        }
        r
    }
}


/// The ballot lists of two results carry the same ballots.
pub open spec fn votes_lists_eq(a: Seq<UserVote>, b: Seq<UserVote>) -> bool {
    a.len() == b.len() && forall|i: int| 0 <= i < a.len()
        ==> user_vote_eq(#[trigger] a[i], #[trigger] b[i])
}

/// Two notifications carry the same client-visible content.
pub open spec fn notif_eq(a: ClientNotification, b: ClientNotification) -> bool {
    &&& a.status == b.status
    &&& match (a.vote, b.vote) {
        (Some(va), Some(vb)) => {
            &&& strs_view(va.choices@) == strs_view(vb.choices@)
            &&& va.num_votes == vb.num_votes
            &&& va.num_players == vb.num_players
            &&& match (va.your_vote, vb.your_vote) {
                (Some(x), Some(y)) => user_vote_eq(x, y),
                (None, None) => true,
                _ => false,
            }
            &&& match (va.results, vb.results) {
                (Some(ra), Some(rb)) => tally_eq(ra.tally, rb.tally)
                    && votes_lists_eq(ra.votes@, rb.votes@),
                (None, None) => true,
                _ => false,
            }
        },
        (None, None) => true,
        _ => false,
    }
}

/// A tally equal to a correct tally is itself correct.
proof fn lemma_tally_eq_matches(
    t1: CondorcetTally,
    t2: CondorcetTally,
    n: int,
    bs: Seq<Seq<VoteItem>>,
)
    requires
        tally_eq(t1, t2),
        tally_matches(t1, n, bs),
    ensures
        tally_matches(t2, n, bs),
{
    assert(t2.totals@.len() == n) by {
        assert(crate::condorcet::totals_view(t1).len() == t1.totals@.len());
        assert(crate::condorcet::totals_view(t2).len() == t2.totals@.len());
    }
    assert forall|a: int| 0 <= a < n implies (#[trigger] t2.totals@[a])@.len() == n by {
        assert(crate::condorcet::totals_view(t2)[a] == t2.totals@[a]@);
        assert(crate::condorcet::totals_view(t1)[a] == t1.totals@[a]@);
    }
    assert forall|a: int, b: int| 0 <= a < n && 0 <= b < n implies
        (#[trigger] t2.totals@[a]@[b]) as nat == crate::condorcet::pair_total(n, bs, a, b) by {
        assert(crate::condorcet::totals_view(t2)[a] == t2.totals@[a]@);
        assert(crate::condorcet::totals_view(t1)[a] == t1.totals@[a]@);
        assert(t1.totals@[a]@[b] == t2.totals@[a]@[b]);
    }
}

/// Two correct tallies of the same election are the same result.
proof fn lemma_tally_matches_unique(
    t1: CondorcetTally,
    t2: CondorcetTally,
    n: int,
    bs: Seq<Seq<VoteItem>>,
)
    requires
        n >= 0,
        tally_matches(t1, n, bs),
        tally_matches(t2, n, bs),
    ensures
        tally_eq(t1, t2),
{
    assert(crate::condorcet::totals_view(t1) =~~= crate::condorcet::totals_view(t2)) by {
        assert forall|a: int| 0 <= a < n implies
            crate::condorcet::totals_view(t1)[a] =~= crate::condorcet::totals_view(t2)[a] by {
            assert forall|b: int| 0 <= b < n implies
                t1.totals@[a]@[b] == t2.totals@[a]@[b] by {
                assert((t1.totals@[a]@[b]) as nat
                    == crate::condorcet::pair_total(n, bs, a, b));
                assert((t2.totals@[a]@[b]) as nat
                    == crate::condorcet::pair_total(n, bs, a, b));
            }
        }
    }
}

/// The view shown to an identity is a function of the durable record and
/// the number of connected identities alone, as long as any populated
/// cache is correct. An in-memory room evicted and later rebuilt from the
/// same durable record therefore shows every identity exactly the state it
/// showed before.
pub proof fn lemma_view_rebuilt(
    n1: ClientNotification,
    n2: ClientNotification,
    room1: ServerRoom,
    room2: ServerRoom,
    rec: RoomRecord,
    id: ClientId,
)
    requires
        notif_matches(n1, room1, rec, id),
        notif_matches(n2, room2, rec, id),
        room1.clients@.len() == room2.clients@.len(),
        cache_correct(room1.results_cache, rec),
        cache_correct(room2.results_cache, rec),
    ensures
        notif_eq(n1, n2),
{
    let va = n1.vote->0;
    let vb = n2.vote->0;
    let nn = rec.choices@.len() as int;
    let ballots = record_ballots(rec.votes@);
    match (va.results, vb.results) {
        (Some(ra), Some(rb)) => {
            assert(tally_matches(ra.tally, nn, ballots)) by {
                match room1.results_cache {
                    Some(c) => {
                        lemma_tally_eq_matches(c, ra.tally, nn, ballots);
                    },
                    None => {},
                }
            }
            assert(tally_matches(rb.tally, nn, ballots)) by {
                match room2.results_cache {
                    Some(c) => {
                        lemma_tally_eq_matches(c, rb.tally, nn, ballots);
                    },
                    None => {},
                }
            }
            lemma_tally_matches_unique(ra.tally, rb.tally, nn, ballots);
        },
        _ => {},
    }
}

} // verus!
