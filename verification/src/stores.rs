//! The three persistent tables of the ledger, each a vector of entries with
//! unique keys, viewed abstractly as a sequence or a map.
//!
//! `ProposalStore` owns proposal records keyed by id, `VoteStore` owns vote
//! records keyed by (voter, proposal id), and `TokenLedger` owns per-user
//! token balances.

use vstd::prelude::*;

use crate::types::Proposal;
use crate::types::ProposalModel;
use crate::types::Vote;

verus! {

/// Starting token allotment of a never-seen user.
pub const DEFAULT_TOKENS: u64 = 3;

/// Index of the first record with the given id, or -1 when there is none.
pub open spec fn find_idx(s: Seq<ProposalModel>, id: u64) -> int
    decreases s.len(),
{
    if s.len() == 0 {
        -1
    } else if s[0].id == id {
        0
    } else {
        let r = find_idx(s.skip(1), id);
        if r == -1 {
            -1
        } else {
            r + 1
        }
    }
}

/// Whether some record has the given id.
pub open spec fn has_id(s: Seq<ProposalModel>, id: u64) -> bool {
    find_idx(s, id) >= 0
}

/// The first record with the given id.
pub open spec fn get_by_id(s: Seq<ProposalModel>, id: u64) -> ProposalModel {
    s[find_idx(s, id)]
}

/// `find_idx` points at the first record with the id, and is -1 exactly when
/// no record has it.
pub proof fn lemma_find_idx(s: Seq<ProposalModel>, id: u64)
    ensures
        find_idx(s, id) >= -1,
        find_idx(s, id) == -1 ==> forall|i: int| 0 <= i < s.len() ==> (#[trigger] s[i]).id != id,
        find_idx(s, id) >= 0 ==> find_idx(s, id) < s.len() && s[find_idx(s, id)].id == id
            && forall|i: int| 0 <= i < find_idx(s, id) ==> (#[trigger] s[i]).id != id,
    decreases s.len(),
{
    if s.len() > 0 && s[0].id != id {
        let t = s.skip(1);
        lemma_find_idx(t, id);
        if find_idx(t, id) == -1 {
            assert forall|i: int| 0 <= i < s.len() implies (#[trigger] s[i]).id != id by {
                if i > 0 {
                    assert(t[i - 1] == s[i]);
                    assert(t[i - 1].id != id);
                }
            }
        } else {
            let r = find_idx(t, id);
            assert(s[r + 1] == t[r]);
            assert forall|i: int| 0 <= i < r + 1 implies (#[trigger] s[i]).id != id by {
                if i > 0 {
                    assert(t[i - 1] == s[i]);
                    assert(t[i - 1].id != id);
                }
            }
        }
    }
}

/// The proposal table: records with unique ids, in insertion order (ids are
/// issued in increasing order, so also in id order).
pub struct ProposalStore {
    entries: Vec<Proposal>,
}

impl View for ProposalStore {
    type V = Seq<ProposalModel>;

    closed spec fn view(&self) -> Seq<ProposalModel> {
        self.entries@.map_values(|p: Proposal| p@)
    }
}

impl ProposalStore {
    /// Record ids are unique.
    pub open spec fn wf(&self) -> bool {
        forall|i: int, j: int|
            0 <= i < j < self@.len() ==> (#[trigger] self@[i]).id != (#[trigger] self@[j]).id
    }

    /// An empty table.
    pub fn new() -> (r: Self)
        ensures
            r@ == Seq::<ProposalModel>::empty(),
            r.wf(),
    {
        let r = ProposalStore { entries: Vec::new() };
        proof {
            assert(r@ =~= Seq::<ProposalModel>::empty());
        }
        r
    }

    /// Number of records.
    pub fn len(&self) -> (r: usize)
        ensures
            r == self@.len(),
    {
        self.entries.len()
    }

    /// Borrow the record at an index.
    pub fn at(&self, i: usize) -> (r: &Proposal)
        requires
            i < self@.len(),
        ensures
            r@ == self@[i as int],
    {
        &self.entries[i]
    }

    /// Index of the record with the given id, if any.
    pub fn find(&self, id: u64) -> (r: Option<usize>)
        ensures
            match r {
                Some(i) => i == find_idx(self@, id) && i < self@.len() && self@[i as int].id == id,
                None => !has_id(self@, id),
            },
    {
        proof {
            lemma_find_idx(self@, id);
        }
        let n = self.entries.len();
        let mut i: usize = 0;
        while i < n
            invariant
                i <= n == self@.len(),
                find_idx(self@, id) >= -1,
                forall|k: int| 0 <= k < i ==> (#[trigger] self@[k]).id != id,
                find_idx(self@, id) == -1 ==> forall|k: int|
                    0 <= k < self@.len() ==> (#[trigger] self@[k]).id != id,
                find_idx(self@, id) >= 0 ==> find_idx(self@, id) < self@.len() && self@[find_idx(
                    self@,
                    id,
                )].id == id && forall|k: int|
                    0 <= k < find_idx(self@, id) ==> (#[trigger] self@[k]).id != id,
            decreases n - i,
        {
            if self.entries[i].id == id {
                proof {
                    // A hit at the first position the scan has not excluded
                    // is the first occurrence: an earlier or later first
                    // occurrence contradicts the scan or the hit.
                    assert(self@[i as int].id == id);
                    if 0 <= find_idx(self@, id) < i {
                        assert(self@[find_idx(self@, id)].id == id);
                        assert(false);
                    }
                    if find_idx(self@, id) > i {
                        assert(self@[i as int].id != id);
                    }
                    assert(i as int == find_idx(self@, id));
                }
                return Some(i);
            }
            proof {
                assert(self@[i as int].id != id);
            }
            i = i + 1;
        }
        None
    }

    /// Whether a record with the given id exists.
    pub fn contains(&self, id: u64) -> (r: bool)
        ensures
            r == has_id(self@, id),
    {
        match self.find(id) {
            Some(_) => true,
            None => false,
        }
    }

    /// A copy of the record with the given id, if any.
    pub fn get(&self, id: u64) -> (r: Option<Proposal>)
        ensures
            match r {
                Some(p) => has_id(self@, id) && p@ == get_by_id(self@, id),
                None => !has_id(self@, id),
            },
    {
        match self.find(id) {
            Some(i) => Some(self.entries[i].clone()),
            None => None,
        }
    }

    /// Append a record whose id is not yet present.
    pub fn insert_new(&mut self, p: Proposal)
        requires
            old(self).wf(),
            !has_id(old(self)@, p.id),
        ensures
            final(self)@ == old(self)@.push(p@),
            final(self).wf(),
    {
        proof {
            lemma_find_idx(old(self)@, p.id);
        }
        self.entries.push(p);
        proof {
            assert(self@ =~= old(self)@.push(p@));
        }
    }

    /// Replace the text fields of the record at an index; every other field
    /// is kept.
    pub fn set_text(&mut self, i: usize, title: String, description: String)
        requires
            old(self).wf(),
            i < old(self)@.len(),
        ensures
            final(self)@ == old(self)@.update(
                i as int,
                ProposalModel { title: title@, description: description@, ..old(self)@[i as int] },
            ),
            final(self).wf(),
    {
        let ghost target = ProposalModel {
            title: title@,
            description: description@,
            ..old(self)@[i as int]
        };
        let p = &mut self.entries[i];
        p.title = title;
        p.description = description;
        proof {
            assert(self@ =~= old(self)@.update(i as int, target));
        }
    }

    /// Add `amount` to one tally of the record at an index, saturating at the
    /// integer ceiling; every other field is kept.
    pub fn add_tally(&mut self, i: usize, is_for: bool, amount: u64)
        requires
            old(self).wf(),
            i < old(self)@.len(),
        ensures
            final(self)@ == old(self)@.update(
                i as int,
                if is_for {
                    ProposalModel {
                        votes_for: sat_add(old(self)@[i as int].votes_for, amount),
                        ..old(self)@[i as int]
                    }
                } else {
                    ProposalModel {
                        votes_against: sat_add(old(self)@[i as int].votes_against, amount),
                        ..old(self)@[i as int]
                    }
                },
            ),
            final(self).wf(),
    {
        let ghost target = if is_for {
            ProposalModel {
                votes_for: sat_add(old(self)@[i as int].votes_for, amount),
                ..old(self)@[i as int]
            }
        } else {
            ProposalModel {
                votes_against: sat_add(old(self)@[i as int].votes_against, amount),
                ..old(self)@[i as int]
            }
        };
        let p = &mut self.entries[i];
        if is_for {
            p.votes_for = if p.votes_for > u64::MAX - amount {
                u64::MAX
            } else {
                p.votes_for + amount
            };
        } else {
            p.votes_against = if p.votes_against > u64::MAX - amount {
                u64::MAX
            } else {
                p.votes_against + amount
            };
        }
        proof {
            assert(self@ =~= old(self)@.update(i as int, target));
        }
    }

    /// Remove the record at an index.
    pub fn remove_at(&mut self, i: usize)
        requires
            old(self).wf(),
            i < old(self)@.len(),
        ensures
            final(self)@ == old(self)@.remove(i as int),
            final(self).wf(),
    {
        self.entries.remove(i);
        proof {
            assert(self@ =~= old(self)@.remove(i as int));
        }
    }
}

/// Addition on token counts, saturating at the integer ceiling.
pub open spec fn sat_add(a: u64, b: u64) -> u64 {
    if a + b > u64::MAX {
        u64::MAX
    } else {
        (a + b) as u64
    }
}

/// The key of a vote record: who voted on which proposal.
pub open spec fn vote_key(v: Vote) -> (u64, u64) {
    (v.user, v.proposal_id)
}

/// The map a vote table denotes; a later record wins, though tables with
/// unique keys never exercise that.
pub open spec fn vote_map(s: Seq<Vote>) -> Map<(u64, u64), Vote>
    decreases s.len(),
{
    if s.len() == 0 {
        Map::empty()
    } else {
        vote_map(s.drop_last()).insert(vote_key(s.last()), s.last())
    }
}

/// The keys of `vote_map` are exactly the keys of the records.
pub proof fn lemma_vote_map_keys(s: Seq<Vote>)
    ensures
        forall|i: int| 0 <= i < s.len() ==> vote_map(s).contains_key(vote_key(#[trigger] s[i])),
        forall|k: (u64, u64)| #[trigger]
            vote_map(s).contains_key(k) ==> exists|i: int|
                0 <= i < s.len() && vote_key(#[trigger] s[i]) == k,
    decreases s.len(),
{
    if s.len() > 0 {
        let t = s.drop_last();
        lemma_vote_map_keys(t);
        assert forall|i: int| 0 <= i < s.len() implies vote_map(s).contains_key(
            vote_key(#[trigger] s[i]),
        ) by {
            if i < s.len() - 1 {
                assert(t[i] == s[i]);
                assert(vote_map(t).contains_key(vote_key(t[i])));
            } else {
                assert(s[i] == s.last());
            }
        }
        assert forall|k: (u64, u64)| #[trigger] vote_map(s).contains_key(k) implies exists|i: int|
            0 <= i < s.len() && vote_key(#[trigger] s[i]) == k by {
            if k == vote_key(s.last()) {
                assert(vote_key(s[s.len() - 1]) == k);
            } else {
                assert(vote_map(t).contains_key(k));
                let i = choose|i: int| 0 <= i < t.len() && vote_key(#[trigger] t[i]) == k;
                assert(t[i] == s[i]);
                assert(vote_key(s[i]) == k);
            }
        }
    }
}

/// The vote table: one immutable record per (voter, proposal id) pair.
pub struct VoteStore {
    entries: Vec<Vote>,
}

impl View for VoteStore {
    type V = Map<(u64, u64), Vote>;

    closed spec fn view(&self) -> Map<(u64, u64), Vote> {
        vote_map(self.entries@)
    }
}

impl VoteStore {
    /// Record keys are unique.
    pub closed spec fn wf(&self) -> bool {
        forall|i: int, j: int|
            0 <= i < j < self.entries@.len() ==> vote_key(#[trigger] self.entries@[i]) != vote_key(
                #[trigger] self.entries@[j],
            )
    }

    /// An empty table.
    pub fn new() -> (r: Self)
        ensures
            r@ == Map::<(u64, u64), Vote>::empty(),
            r.wf(),
    {
        VoteStore { entries: Vec::new() }
    }

    /// Whether the user has a recorded vote on the proposal.
    pub fn contains(&self, user: u64, proposal_id: u64) -> (r: bool)
        ensures
            r == self@.contains_key((user, proposal_id)),
    {
        proof {
            lemma_vote_map_keys(self.entries@);
        }
        let n = self.entries.len();
        let mut i: usize = 0;
        while i < n
            invariant
                i <= n == self.entries@.len(),
                self@ == vote_map(self.entries@),
                forall|k: int|
                    0 <= k < i ==> vote_key(#[trigger] self.entries@[k]) != (user, proposal_id),
                forall|k: int|
                    0 <= k < self.entries@.len() ==> vote_map(self.entries@).contains_key(
                        vote_key(#[trigger] self.entries@[k]),
                    ),
                self@.contains_key((user, proposal_id)) ==> exists|k: int|
                    0 <= k < self.entries@.len() && vote_key(#[trigger] self.entries@[k]) == (
                        user,
                        proposal_id,
                    ),
            decreases n - i,
        {
            let e = &self.entries[i];
            if e.user == user && e.proposal_id == proposal_id {
                return true;
            }
            i = i + 1;
        }
        false
    }

    /// Record a vote whose key is not yet present.
    pub fn insert(&mut self, v: Vote)
        requires
            old(self).wf(),
            !old(self)@.contains_key((v.user, v.proposal_id)),
        ensures
            final(self)@ == old(self)@.insert((v.user, v.proposal_id), v),
            final(self).wf(),
    {
        proof {
            lemma_vote_map_keys(self.entries@);
        }
        self.entries.push(v);
        proof {
            assert(self.entries@.drop_last() =~= old(self).entries@);
        }
    }
}

/// One user's balance row.
#[derive(Clone, Copy, PartialEq, Eq, Structural, Debug)]
pub struct BalanceEntry {
    pub user: u64,
    pub tokens: u64,
}

/// The balance map a ledger table denotes.
pub open spec fn bal_map(s: Seq<BalanceEntry>) -> Map<u64, u64>
    decreases s.len(),
{
    if s.len() == 0 {
        Map::empty()
    } else {
        bal_map(s.drop_last()).insert(s.last().user, s.last().tokens)
    }
}

/// With unique users, `bal_map` maps each row's user to that row's tokens,
/// and has no other keys.
pub proof fn lemma_bal_map(s: Seq<BalanceEntry>)
    requires
        forall|i: int, j: int|
            0 <= i < j < s.len() ==> (#[trigger] s[i]).user != (#[trigger] s[j]).user,
    ensures
        forall|i: int|
            0 <= i < s.len() ==> bal_map(s).contains_key((#[trigger] s[i]).user) && bal_map(
                s,
            )[s[i].user] == s[i].tokens,
        forall|k: u64| #[trigger]
            bal_map(s).contains_key(k) ==> exists|i: int| 0 <= i < s.len() && (#[trigger] s[i]).user
                == k,
    decreases s.len(),
{
    if s.len() > 0 {
        let t = s.drop_last();
        assert(forall|i: int| 0 <= i < s.len() - 1 ==> #[trigger] t[i] == s[i]);
        lemma_bal_map(t);
        assert forall|i: int| 0 <= i < s.len() implies bal_map(s).contains_key(
            (#[trigger] s[i]).user,
        ) && bal_map(s)[s[i].user] == s[i].tokens by {
            if i < s.len() - 1 {
                assert(t[i] == s[i]);
                assert(bal_map(t).contains_key(t[i].user) && bal_map(t)[t[i].user]
                    == t[i].tokens);
                assert(s[i].user != s.last().user);
            } else {
                assert(s[i] == s.last());
            }
        }
        assert forall|k: u64| #[trigger] bal_map(s).contains_key(k) implies exists|i: int|
            0 <= i < s.len() && (#[trigger] s[i]).user == k by {
            if k == s.last().user {
                assert(s[s.len() - 1].user == k);
            } else {
                assert(bal_map(t).contains_key(k));
                let i = choose|i: int| 0 <= i < t.len() && (#[trigger] t[i]).user == k;
                assert(t[i] == s[i]);
                assert(s[i].user == k);
            }
        }
    }
}

/// The token ledger: one balance row per user ever seen, materialized with
/// the default allotment on first access.
pub struct TokenLedger {
    entries: Vec<BalanceEntry>,
}

impl View for TokenLedger {
    type V = Map<u64, u64>;

    closed spec fn view(&self) -> Map<u64, u64> {
        bal_map(self.entries@)
    }
}

impl TokenLedger {
    /// Row users are unique.
    pub closed spec fn wf(&self) -> bool {
        forall|i: int, j: int|
            0 <= i < j < self.entries@.len() ==> (#[trigger] self.entries@[i]).user != (
            #[trigger] self.entries@[j]).user
    }

    /// An empty ledger.
    pub fn new() -> (r: Self)
        ensures
            r@ == Map::<u64, u64>::empty(),
            r.wf(),
    {
        TokenLedger { entries: Vec::new() }
    }

    /// The user's balance, materializing the default allotment for a user
    /// never seen before.
    pub fn get_or_init(&mut self, user: u64) -> (r: u64)
        requires
            old(self).wf(),
        ensures
            r == if old(self)@.contains_key(user) {
                old(self)@[user]
            } else {
                DEFAULT_TOKENS
            },
            final(self)@ == old(self)@.insert(user, r),
            final(self).wf(),
    {
        proof {
            lemma_bal_map(self.entries@);
        }
        let n = self.entries.len();
        let mut i: usize = 0;
        while i < n
            invariant
                i <= n == self.entries@.len(),
                self.entries@ == old(self).entries@,
                self.wf(),
                self@ == old(self)@,
                forall|k: int| 0 <= k < i ==> (#[trigger] self.entries@[k]).user != user,
                forall|k: int|
                    0 <= k < self.entries@.len() ==> bal_map(self.entries@).contains_key(
                        (#[trigger] self.entries@[k]).user,
                    ) && bal_map(self.entries@)[self.entries@[k].user]
                        == self.entries@[k].tokens,
                bal_map(self.entries@).contains_key(user) ==> exists|k: int|
                    0 <= k < self.entries@.len() && (#[trigger] self.entries@[k]).user == user,
            decreases n - i,
        {
            let e = &self.entries[i];
            if e.user == user {
                proof {
                    assert(self@.insert(user, self@[user]) =~= self@);
                }
                return e.tokens;
            }
            i = i + 1;
        }
        self.entries.push(BalanceEntry { user, tokens: DEFAULT_TOKENS });
        proof {
            assert(self.entries@.drop_last() =~= old(self).entries@);
        }
        DEFAULT_TOKENS
    }

    /// Overwrite the balance of a user already materialized.
    pub fn set(&mut self, user: u64, amount: u64)
        requires
            old(self).wf(),
            old(self)@.contains_key(user),
        ensures
            final(self)@ == old(self)@.insert(user, amount),
            final(self).wf(),
    {
        proof {
            lemma_bal_map(self.entries@);
        }
        let n = self.entries.len();
        let mut i: usize = 0;
        while i < n
            invariant
                i <= n == self.entries@.len(),
                old(self).wf(),
                self == old(self),
                forall|k: int| 0 <= k < i ==> (#[trigger] self.entries@[k]).user != user,
                old(self)@.contains_key(user) ==> exists|k: int|
                    0 <= k < self.entries@.len() && (#[trigger] self.entries@[k]).user == user,
            decreases n - i,
        {
            if self.entries[i].user == user {
                self.entries[i] = BalanceEntry { user, tokens: amount };
                proof {
                    lemma_bal_map_update(old(self).entries@, i as int, amount);
                }
                return ;
            }
            i = i + 1;
        }
        proof {
            // The user is materialized, so the scan cannot run off the end.
            assert(false);
        }
    }
}

/// Overwriting one row's tokens updates exactly that user's balance in the
/// denoted map.
proof fn lemma_bal_map_update(s: Seq<BalanceEntry>, i: int, amount: u64)
    requires
        forall|a: int, b: int|
            0 <= a < b < s.len() ==> (#[trigger] s[a]).user != (#[trigger] s[b]).user,
        0 <= i < s.len(),
    ensures
        bal_map(s.update(i, BalanceEntry { user: s[i].user, tokens: amount })) == bal_map(s).insert(
            s[i].user,
            amount,
        ),
    decreases s.len(),
{
    let e = BalanceEntry { user: s[i].user, tokens: amount };
    let t = s.update(i, e);
    if i == s.len() - 1 {
        assert(t.drop_last() =~= s.drop_last());
        assert(t.last() == e);
    } else {
        assert(forall|a: int| 0 <= a < s.len() - 1 ==> #[trigger] s.drop_last()[a] == s[a]);
        lemma_bal_map_update(s.drop_last(), i, amount);
        assert(t.drop_last() =~= s.drop_last().update(i, e));
        assert(t.last() == s.last());
        assert(s[i].user != s.last().user);
        assert(bal_map(t) == bal_map(s.drop_last()).insert(s[i].user, amount).insert(
            s.last().user,
            s.last().tokens,
        ));
        assert(bal_map(s.drop_last()).insert(s[i].user, amount).insert(
            s.last().user,
            s.last().tokens,
        ) =~= bal_map(s.drop_last()).insert(s.last().user, s.last().tokens).insert(
            s[i].user,
            amount,
        ));
    }
}

} // verus!
