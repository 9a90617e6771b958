//! The governance service: validates requests, advances proposal status,
//! executes votes and token transfers atomically per request, and applies
//! the authorization rules.
//!
//! The service owns the three stores and an id counter.  Caller identity and
//! the current time (epoch seconds) come in as plain arguments with every
//! request.  Each operation's contract ties its result and the new state to
//! a functional model of the whole service, so sequences of operations can
//! be reasoned about purely at the model level.

use vstd::prelude::*;

use crate::codec::spec_parse_date;
use crate::codec::parse_date;
use crate::stores::find_idx;
use crate::stores::lemma_find_idx;
use crate::stores::get_by_id;
use crate::stores::has_id;
use crate::stores::sat_add;
use crate::stores::ProposalStore;
use crate::stores::TokenLedger;
use crate::stores::VoteStore;
use crate::stores::DEFAULT_TOKENS;
use crate::types::compute_status;
use crate::types::spec_status;
use crate::types::Error;
use crate::types::ErrorKind;
use crate::types::Proposal;
use crate::types::ProposalModel;
use crate::types::ProposalStatus;
use crate::types::Vote;

verus! {

/// The functional model of the whole service: the three tables and the id
/// counter.
#[verifier::ext_equal]
pub ghost struct GovModel {
    pub proposals: Seq<ProposalModel>,
    pub votes: Map<(u64, u64), Vote>,
    pub balances: Map<u64, u64>,
    pub next_id: u64,
}

/// Consistency of a model: proposal ids are unique and positive, every id
/// was issued by the counter, and every voting window is non-empty.
pub open spec fn gov_model_ok(m: GovModel) -> bool {
    &&& forall|i: int, j: int|
        0 <= i < j < m.proposals.len() ==> (#[trigger] m.proposals[i]).id != (
        #[trigger] m.proposals[j]).id
    &&& forall|i: int|
        0 <= i < m.proposals.len() ==> 1 <= (#[trigger] m.proposals[i]).id && (m.proposals[i].id
            < m.next_id || m.next_id == u64::MAX) && m.proposals[i].start_date
            < m.proposals[i].end_date
    &&& m.next_id >= 1
}

/// The balance the ledger answers for a user: the stored balance, or the
/// default allotment for a user never seen.
pub open spec fn balance_of(m: GovModel, user: u64) -> u64 {
    if m.balances.contains_key(user) {
        m.balances[user]
    } else {
        DEFAULT_TOKENS
    }
}

/// The model with the user's balance materialized.
pub open spec fn with_balance(m: GovModel, user: u64, amount: u64) -> GovModel {
    GovModel { balances: m.balances.insert(user, amount), ..m }
}

/// What looking a proposal up yields: the record and its freshly derived
/// status, or the error.
pub open spec fn spec_get_proposal(m: GovModel, now: u64, id: u64) -> Result<
    (ProposalModel, ProposalStatus),
    ErrorKind,
> {
    if id == 0 {
        Err(ErrorKind::InvalidInput)
    } else if !has_id(m.proposals, id) {
        Err(ErrorKind::NotFound)
    } else {
        let p = get_by_id(m.proposals, id);
        Ok((p, spec_status(now, p.start_date, p.end_date)))
    }
}

/// What creating a proposal does to the model, and what it returns.
///
/// Both dates must parse, the window must be non-empty, and the start date
/// must not lie strictly before the current date at day granularity;
/// otherwise the request is invalid.  The id the counter would issue being
/// taken is a defensive failure that correct counter discipline never
/// reaches before the counter is exhausted.
pub open spec fn spec_create(
    m: GovModel,
    caller: u64,
    now: u64,
    title: Seq<char>,
    description: Seq<char>,
    start_text: Seq<char>,
    end_text: Seq<char>,
) -> (GovModel, Result<ProposalModel, ErrorKind>) {
    match (spec_parse_date(start_text), spec_parse_date(end_text)) {
        (Some(st), Some(en)) => {
            if en.0 <= st.0 {
                (m, Err(ErrorKind::InvalidInput))
            } else if st.0 / 86400 < now / 86400 {
                (m, Err(ErrorKind::InvalidInput))
            } else if has_id(m.proposals, m.next_id) {
                (m, Err(ErrorKind::AlreadyExists))
            } else {
                let p = ProposalModel {
                    id: m.next_id,
                    title: title,
                    description: description,
                    creator: caller,
                    created_at: now,
                    start_date: st.0,
                    end_date: en.0,
                    votes_for: 0,
                    votes_against: 0,
                };
                (
                    GovModel {
                        proposals: m.proposals.push(p),
                        next_id: if m.next_id < u64::MAX {
                            (m.next_id + 1) as u64
                        } else {
                            m.next_id
                        },
                        ..m
                    },
                    Ok(p),
                )
            }
        },
        _ => (m, Err(ErrorKind::InvalidInput)),
    }
}

/// What voting does to the model, and what it returns.
///
/// The caller's balance is read first (materializing the default allotment),
/// then the proposal is loaded, its window checked against the current time,
/// and the one-vote-per-user rule enforced; only when everything holds are
/// the tally, the vote record and the balance all updated, as one unit.
pub open spec fn spec_vote(
    m: GovModel,
    caller: u64,
    now: u64,
    proposal_id: u64,
    is_for: bool,
    tokens: u64,
) -> (GovModel, Result<(), ErrorKind>) {
    if proposal_id == 0 {
        (m, Err(ErrorKind::InvalidInput))
    } else {
        let bal = balance_of(m, caller);
        let m1 = with_balance(m, caller, bal);
        if bal < tokens {
            (m1, Err(ErrorKind::InsufficientTokens))
        } else if !has_id(m.proposals, proposal_id) {
            (m1, Err(ErrorKind::NotFound))
        } else {
            let i = find_idx(m.proposals, proposal_id);
            let p = m.proposals[i];
            if now > p.end_date {
                (m1, Err(ErrorKind::VotingEnded))
            } else if now < p.start_date {
                (m1, Err(ErrorKind::VotingNotStarted))
            } else if m.votes.contains_key((caller, proposal_id)) {
                (m1, Err(ErrorKind::AlreadyExists))
            } else {
                let p2 = if is_for {
                    ProposalModel { votes_for: sat_add(p.votes_for, tokens), ..p }
                } else {
                    ProposalModel { votes_against: sat_add(p.votes_against, tokens), ..p }
                };
                let v = Vote { user: caller, proposal_id: proposal_id, vote_power: tokens, is_for };
                (
                    GovModel {
                        proposals: m.proposals.update(i, p2),
                        votes: m.votes.insert((caller, proposal_id), v),
                        balances: m.balances.insert(caller, (bal - tokens) as u64),
                        next_id: m.next_id,
                    },
                    Ok(()),
                )
            }
        }
    }
}

/// What replacing a proposal's text does: only the text fields change, and
/// only when the proposal exists.  Deliberately, no authorization or timing
/// guard applies here, in contrast with deletion, which is guarded.
pub open spec fn spec_update(m: GovModel, id: u64, title: Seq<char>, description: Seq<char>) -> (
    GovModel,
    Result<(), ErrorKind>,
) {
    if !has_id(m.proposals, id) {
        (m, Err(ErrorKind::NotFound))
    } else {
        let i = find_idx(m.proposals, id);
        let p = m.proposals[i];
        (
            GovModel {
                proposals: m.proposals.update(
                    i,
                    ProposalModel { title: title, description: description, ..p },
                ),
                ..m
            },
            Ok(()),
        )
    }
}

/// What deleting a proposal does: only the creator may delete, only before
/// the voting window has started, and the record is removed entirely.
pub open spec fn spec_delete(m: GovModel, caller: u64, now: u64, id: u64) -> (
    GovModel,
    Result<(), ErrorKind>,
) {
    if !has_id(m.proposals, id) {
        (m, Err(ErrorKind::NotFound))
    } else {
        let i = find_idx(m.proposals, id);
        let p = m.proposals[i];
        if p.creator != caller {
            (m, Err(ErrorKind::NotAuthorized))
        } else if p.start_date <= now {
            (m, Err(ErrorKind::ProposalAlreadyStarted))
        } else {
            (GovModel { proposals: m.proposals.remove(i), ..m }, Ok(()))
        }
    }
}

/// What reading a proposal's tallies yields.
pub open spec fn spec_get_results(m: GovModel, id: u64) -> Result<(u64, u64), ErrorKind> {
    if id == 0 {
        Err(ErrorKind::InvalidInput)
    } else if !has_id(m.proposals, id) {
        Err(ErrorKind::NotFound)
    } else {
        let p = get_by_id(m.proposals, id);
        Ok((p.votes_for, p.votes_against))
    }
}

/// What granting tokens does: the balance is materialized, then credited,
/// saturating at the integer ceiling; the new balance is returned.
pub open spec fn spec_grant(m: GovModel, caller: u64, amount: u64) -> (GovModel, u64) {
    let nb = sat_add(balance_of(m, caller), amount);
    (with_balance(m, caller, nb), nb)
}

/// The proposals with the given status at time `now`.
pub open spec fn active_pred(now: u64) -> spec_fn(ProposalModel) -> bool {
    |p: ProposalModel| spec_status(now, p.start_date, p.end_date) == ProposalStatus::Active
}

/// The proposals whose window ended strictly before `now`.  This is a
/// deliberately narrower cut than status `Ended`: at the very instant
/// `now == end_date` a proposal is already `Ended` but not yet listed as
/// inactive.
pub open spec fn inactive_pred(now: u64) -> spec_fn(ProposalModel) -> bool {
    |p: ProposalModel| p.end_date < now
}

/// The models of a sequence of proposal records.
pub open spec fn models_of(s: Seq<Proposal>) -> Seq<ProposalModel> {
    s.map_values(|p: Proposal| p@)
}

/// How an executable proposal result realizes a model-level one: same
/// record, freshly derived status, matching error kind.
pub open spec fn matches_get(
    r: Result<Proposal, Error>,
    s: Result<(ProposalModel, ProposalStatus), ErrorKind>,
) -> bool {
    match (r, s) {
        (Ok(p), Ok(t)) => p@ == t.0 && p.status == t.1,
        (Err(e), Err(k)) => e.spec_kind() == k,
        _ => false,
    }
}

/// How an executable creation result realizes a model-level one: the
/// returned record is the created one, reported `Pending` as built.
pub open spec fn matches_create(
    r: Result<Proposal, Error>,
    s: Result<ProposalModel, ErrorKind>,
) -> bool {
    match (r, s) {
        (Ok(p), Ok(pm)) => p@ == pm && p.status == ProposalStatus::Pending,
        (Err(e), Err(k)) => e.spec_kind() == k,
        _ => false,
    }
}

/// How an executable plain result realizes a model-level one.
pub open spec fn matches_res<T>(r: Result<T, Error>, s: Result<T, ErrorKind>) -> bool {
    match (r, s) {
        (Ok(a), Ok(b)) => a == b,
        (Err(e), Err(k)) => e.spec_kind() == k,
        _ => false,
    }
}

/// The governance service: the stores it coordinates and the id counter.
pub struct GovernanceService {
    proposals: ProposalStore,
    votes: VoteStore,
    ledger: TokenLedger,
    next_id: u64,
}

impl View for GovernanceService {
    type V = GovModel;

    closed spec fn view(&self) -> GovModel {
        GovModel {
            proposals: self.proposals@,
            votes: self.votes@,
            balances: self.ledger@,
            next_id: self.next_id,
        }
    }
}

impl GovernanceService {
    /// The stores are internally consistent and the model is consistent.
    pub closed spec fn wf(&self) -> bool {
        &&& self.proposals.wf()
        &&& self.votes.wf()
        &&& self.ledger.wf()
        &&& gov_model_ok(self@)
    }

    /// A fresh service: no proposals, no votes, no balances, ids start at 1.
    pub fn new() -> (r: Self)
        ensures
            r.wf(),
            r@.proposals == Seq::<ProposalModel>::empty(),
            r@.votes == Map::<(u64, u64), Vote>::empty(),
            r@.balances == Map::<u64, u64>::empty(),
            r@.next_id == 1,
    {
        GovernanceService {
            proposals: ProposalStore::new(),
            votes: VoteStore::new(),
            ledger: TokenLedger::new(),
            next_id: 1,
        }
    }

    /// A consistent service has a consistent model.
    pub proof fn lemma_wf_model_ok(&self)
        requires
            self.wf(),
        ensures
            gov_model_ok(self@),
    {
    }

    /// Look a proposal up by id, recomputing its status from the current
    /// time before returning it.
    pub fn get_proposal(&self, now: u64, id: u64) -> (r: Result<Proposal, Error>)
        ensures
            matches_get(r, spec_get_proposal(self@, now, id)),
    {
        if id == 0 {
            return Err(Error::invalid_input("Invalid proposal ID. ID cannot be 0."));
        }
        match self.proposals.get(id) {
            Some(p) => {
                let mut p = p;
                p.update_status(now);
                Ok(p)
            },
            None => Err(Error::not_found("Proposal not found")),
        }
    }

    /// A proposal's tallies, read directly from the stored record.
    pub fn get_results(&self, id: u64) -> (r: Result<(u64, u64), Error>)
        ensures
            matches_res(r, spec_get_results(self@, id)),
    {
        if id == 0 {
            return Err(Error::invalid_input("Invalid proposal ID. ID cannot be 0."));
        }
        match self.proposals.get(id) {
            Some(p) => Ok((p.votes_for, p.votes_against)),
            None => Err(Error::not_found("Proposal not found")),
        }
    }

    /// A snapshot of every proposal, each with its status freshly derived
    /// from the current time.
    pub fn list_all(&self, now: u64) -> (r: Vec<Proposal>)
        ensures
            models_of(r@) == self@.proposals,
            forall|i: int|
                0 <= i < r@.len() ==> (#[trigger] r@[i]).status == spec_status(
                    now,
                    self@.proposals[i].start_date,
                    self@.proposals[i].end_date,
                ),
    {
        let n = self.proposals.len();
        let mut out: Vec<Proposal> = Vec::new();
        let mut i: usize = 0;
        while i < n
            invariant
                i <= n == self@.proposals.len(),
                models_of(out@) == self@.proposals.take(i as int),
                out@.len() == i,
                forall|j: int|
                    0 <= j < out@.len() ==> (#[trigger] out@[j]).status == spec_status(
                        now,
                        self@.proposals[j].start_date,
                        self@.proposals[j].end_date,
                    ),
            decreases n - i,
        {
            let mut p = self.proposals.at(i).clone();
            p.update_status(now);
            out.push(p);
            proof {
                assert(models_of(out@) =~= self@.proposals.take(i as int + 1));
            }
            i = i + 1;
        }
        proof {
            assert(self@.proposals.take(n as int) =~= self@.proposals);
        }
        out
    }

    /// A snapshot of the proposals whose voting window contains the current
    /// time, each reported `Active`.
    pub fn list_active(&self, now: u64) -> (r: Vec<Proposal>)
        ensures
            models_of(r@) == self@.proposals.filter(active_pred(now)),
            forall|i: int|
                0 <= i < r@.len() ==> (#[trigger] r@[i]).status == ProposalStatus::Active,
    {
        let n = self.proposals.len();
        let mut out: Vec<Proposal> = Vec::new();
        let mut i: usize = 0;
        proof {
            reveal(Seq::filter);
            assert(self@.proposals.take(0).filter(active_pred(now)) =~= models_of(out@));
        }
        while i < n
            invariant
                i <= n == self@.proposals.len(),
                models_of(out@) == self@.proposals.take(i as int).filter(active_pred(now)),
                forall|j: int|
                    0 <= j < out@.len() ==> (#[trigger] out@[j]).status == ProposalStatus::Active,
            decreases n - i,
        {
            let p = self.proposals.at(i);
            let status = compute_status(now, p.start_date, p.end_date);
            proof {
                reveal(Seq::filter);
                assert(self@.proposals.take(i as int + 1).drop_last() =~= self@.proposals.take(
                    i as int,
                ));
                assert(self@.proposals.take(i as int + 1).last() == self@.proposals[i as int]);
            }
            if matches!(status, ProposalStatus::Active) {
                let mut q = self.proposals.at(i).clone();
                q.update_status(now);
                out.push(q);
                proof {
                    assert(models_of(out@) =~= self@.proposals.take(i as int + 1).filter(
                        active_pred(now),
                    ));
                }
            }
            i = i + 1;
        }
        proof {
            assert(self@.proposals.take(n as int) =~= self@.proposals);
        }
        out
    }

    /// A snapshot of the proposals whose window ended strictly before the
    /// current time, each reported `Ended`.
    pub fn list_inactive(&self, now: u64) -> (r: Vec<Proposal>)
        requires
            self.wf(),
        ensures
            models_of(r@) == self@.proposals.filter(inactive_pred(now)),
            forall|i: int|
                0 <= i < r@.len() ==> (#[trigger] r@[i]).status == ProposalStatus::Ended,
    {
        let n = self.proposals.len();
        let mut out: Vec<Proposal> = Vec::new();
        let mut i: usize = 0;
        proof {
            reveal(Seq::filter);
            assert(self@.proposals.take(0).filter(inactive_pred(now)) =~= models_of(out@));
        }
        while i < n
            invariant
                self.wf(),
                i <= n == self@.proposals.len(),
                models_of(out@) == self@.proposals.take(i as int).filter(inactive_pred(now)),
                forall|j: int|
                    0 <= j < out@.len() ==> (#[trigger] out@[j]).status == ProposalStatus::Ended,
            decreases n - i,
        {
            let p = self.proposals.at(i);
            let ended_before = p.end_date < now;
            proof {
                reveal(Seq::filter);
                assert(self@.proposals.take(i as int + 1).drop_last() =~= self@.proposals.take(
                    i as int,
                ));
                assert(self@.proposals.take(i as int + 1).last() == self@.proposals[i as int]);
            }
            if ended_before {
                let mut q = self.proposals.at(i).clone();
                q.update_status(now);
                out.push(q);
                proof {
                    assert(models_of(out@) =~= self@.proposals.take(i as int + 1).filter(
                        inactive_pred(now),
                    ));
                }
            }
            i = i + 1;
        }
        proof {
            assert(self@.proposals.take(n as int) =~= self@.proposals);
        }
        out
    }

    /// The caller's balance, materializing the default allotment on first
    /// access.
    pub fn get_balance(&mut self, caller: u64) -> (r: u64)
        requires
            old(self).wf(),
        ensures
            final(self).wf(),
            r == balance_of(old(self)@, caller),
            final(self)@ == with_balance(old(self)@, caller, r),
    {
        let r = self.ledger.get_or_init(caller);
        proof {
            assert(self@ =~~= with_balance(old(self)@, caller, r));
        }
        r
    }

    /// Credit the caller's balance by `amount` (saturating at the integer
    /// ceiling), materializing the default allotment first; the new balance
    /// is returned.
    pub fn grant_tokens(&mut self, caller: u64, amount: u64) -> (r: u64)
        requires
            old(self).wf(),
        ensures
            final(self).wf(),
            final(self)@ == spec_grant(old(self)@, caller, amount).0,
            r == spec_grant(old(self)@, caller, amount).1,
    {
        let bal = self.ledger.get_or_init(caller);
        let nb = if bal > u64::MAX - amount {
            u64::MAX
        } else {
            bal + amount
        };
        self.ledger.set(caller, nb);
        proof {
            assert(old(self)@.balances.insert(caller, bal).insert(caller, nb)
                =~= old(self)@.balances.insert(caller, nb));
            assert(self@ =~~= spec_grant(old(self)@, caller, amount).0);
        }
        nb
    }

    /// Create a proposal from two `DD-MM-YYYY` date texts.
    ///
    /// Both dates must parse, the end must lie strictly after the start, and
    /// the start must not lie strictly before the current date at day
    /// granularity; any violation is `InvalidInput`.  A fresh id is issued
    /// and the record inserted with zero tallies; the caller becomes the
    /// creator.
    pub fn create_proposal(
        &mut self,
        caller: u64,
        now: u64,
        title: String,
        description: String,
        start_text: &str,
        end_text: &str,
    ) -> (r: Result<Proposal, Error>)
        requires
            old(self).wf(),
        ensures
            final(self).wf(),
            final(self)@ == spec_create(
                old(self)@,
                caller,
                now,
                title@,
                description@,
                start_text@,
                end_text@,
            ).0,
            matches_create(
                r,
                spec_create(
                    old(self)@,
                    caller,
                    now,
                    title@,
                    description@,
                    start_text@,
                    end_text@,
                ).1,
            ),
    {
        let start = match parse_date(start_text) {
            Ok(t) => t,
            Err(e) => {
                return Err(e);
            },
        };
        let end = match parse_date(end_text) {
            Ok(t) => t,
            Err(e) => {
                return Err(e);
            },
        };
        let start_ts = start.0;
        let end_ts = end.0;
        if end_ts <= start_ts {
            return Err(Error::invalid_input("End date must be after start date"));
        }
        if start_ts / 86400 < now / 86400 {
            return Err(Error::invalid_input("Start date must be in the future"));
        }
        let id = self.next_id;
        if self.proposals.contains(id) {
            return Err(Error::already_exists("Proposal with this ID already exists"));
        }
        let proposal = Proposal {
            id,
            title,
            description,
            creator: caller,
            created_at: now,
            start_date: start_ts,
            end_date: end_ts,
            votes_for: 0,
            votes_against: 0,
            status: ProposalStatus::Pending,
        };
        let result = proposal.clone();
        self.proposals.insert_new(proposal);
        if self.next_id < u64::MAX {
            self.next_id = self.next_id + 1;
        }
        proof {
            let m = old(self)@;
            let target = spec_create(m, caller, now, title@, description@, start_text@, end_text@);
            assert(self@ =~~= target.0);
            assert forall|i: int, j: int|
                0 <= i < j < self@.proposals.len() implies (
            #[trigger] self@.proposals[i]).id != (#[trigger] self@.proposals[j]).id by {
                if j < m.proposals.len() {
                    assert(m.proposals[i].id != m.proposals[j].id);
                }
            }
            assert forall|i: int| 0 <= i < self@.proposals.len() implies 1 <= (
            #[trigger] self@.proposals[i]).id && (self@.proposals[i].id
                < self@.next_id || self@.next_id == u64::MAX) && self@.proposals[i].start_date < self@.proposals[i].end_date by {
                if i < m.proposals.len() {
                    assert(1 <= m.proposals[i].id && (m.proposals[i].id < m.next_id || m.next_id
                        == u64::MAX) && m.proposals[i].start_date < m.proposals[i].end_date);
                }
            }
        }
        Ok(result)
    }

    /// Cast a token-weighted vote on a proposal.
    ///
    /// The caller's balance is read first (materializing the default
    /// allotment), the proposal must exist, the current time must lie inside
    /// its voting window, and the caller must not have voted on it before;
    /// only then are the tally incremented, the vote recorded and the
    /// balance debited, as one unit.  A failed request changes nothing but
    /// the materialization of the caller's balance.
    pub fn vote(&mut self, caller: u64, now: u64, proposal_id: u64, is_for: bool, tokens: u64) -> (r:
        Result<(), Error>)
        requires
            old(self).wf(),
        ensures
            final(self).wf(),
            final(self)@ == spec_vote(old(self)@, caller, now, proposal_id, is_for, tokens).0,
            matches_res(r, spec_vote(old(self)@, caller, now, proposal_id, is_for, tokens).1),
    {
        if proposal_id == 0 {
            return Err(Error::invalid_input("Invalid proposal ID. ID cannot be 0."));
        }
        let balance = self.ledger.get_or_init(caller);
        proof {
            assert(self@ =~~= with_balance(old(self)@, caller, balance));
        }
        if balance < tokens {
            return Err(Error::insufficient_tokens("Not enough tokens to vote"));
        }
        let idx = match self.proposals.find(proposal_id) {
            Some(i) => i,
            None => {
                return Err(Error::not_found("Proposal not found"));
            },
        };
        let (start_date, end_date) = {
            let p = self.proposals.at(idx);
            (p.start_date, p.end_date)
        };
        if now > end_date {
            return Err(Error::voting_ended("Voting has already ended for this proposal"));
        }
        if now < start_date {
            return Err(Error::voting_not_started("Voting has not yet started for this proposal"));
        }
        if self.votes.contains(caller, proposal_id) {
            return Err(Error::already_exists("User has already voted on this proposal"));
        }
        self.proposals.add_tally(idx, is_for, tokens);
        self.votes.insert(Vote { user: caller, proposal_id, vote_power: tokens, is_for });
        self.ledger.set(caller, balance - tokens);
        proof {
            let m = old(self)@;
            let target = spec_vote(m, caller, now, proposal_id, is_for, tokens);
            assert(m.balances.insert(caller, balance).insert(caller, (balance - tokens) as u64)
                =~= m.balances.insert(caller, (balance - tokens) as u64));
            assert(self@ =~~= target.0);
            assert forall|i: int, j: int|
                0 <= i < j < self@.proposals.len() implies (
            #[trigger] self@.proposals[i]).id != (#[trigger] self@.proposals[j]).id by {
                assert(m.proposals[i].id == self@.proposals[i].id);
                assert(m.proposals[j].id == self@.proposals[j].id);
                assert(m.proposals[i].id != m.proposals[j].id);
            }
            assert forall|i: int| 0 <= i < self@.proposals.len() implies 1 <= (
            #[trigger] self@.proposals[i]).id && (self@.proposals[i].id
                < self@.next_id || self@.next_id == u64::MAX) && self@.proposals[i].start_date < self@.proposals[i].end_date by {
                assert(1 <= m.proposals[i].id && (m.proposals[i].id < m.next_id || m.next_id
                    == u64::MAX) && m.proposals[i].start_date < m.proposals[i].end_date);
            }
        }
        Ok(())
    }

    /// Replace a proposal's title and description, preserving every other
    /// field.  Deliberately, no authorization or timing guard applies here,
    /// in contrast with deletion, which is guarded.
    pub fn update_proposal(&mut self, id: u64, title: String, description: String) -> (r: Result<
        (),
        Error,
    >)
        requires
            old(self).wf(),
        ensures
            final(self).wf(),
            final(self)@ == spec_update(old(self)@, id, title@, description@).0,
            matches_res(r, spec_update(old(self)@, id, title@, description@).1),
    {
        let idx = match self.proposals.find(id) {
            Some(i) => i,
            None => {
                return Err(Error::not_found("Proposal not found"));
            },
        };
        self.proposals.set_text(idx, title, description);
        proof {
            let m = old(self)@;
            assert(self@ =~~= spec_update(m, id, title@, description@).0);
            assert forall|i: int, j: int|
                0 <= i < j < self@.proposals.len() implies (
            #[trigger] self@.proposals[i]).id != (#[trigger] self@.proposals[j]).id by {
                assert(m.proposals[i].id == self@.proposals[i].id);
                assert(m.proposals[j].id == self@.proposals[j].id);
                assert(m.proposals[i].id != m.proposals[j].id);
            }
            assert forall|i: int| 0 <= i < self@.proposals.len() implies 1 <= (
            #[trigger] self@.proposals[i]).id && (self@.proposals[i].id
                < self@.next_id || self@.next_id == u64::MAX) && self@.proposals[i].start_date < self@.proposals[i].end_date by {
                assert(1 <= m.proposals[i].id && (m.proposals[i].id < m.next_id || m.next_id
                    == u64::MAX) && m.proposals[i].start_date < m.proposals[i].end_date);
            }
        }
        Ok(())
    }

    /// Delete a proposal.  Only its creator may delete it, and only while
    /// its voting window has not yet started; the record is removed
    /// entirely.
    pub fn delete_proposal(&mut self, caller: u64, now: u64, id: u64) -> (r: Result<(), Error>)
        requires
            old(self).wf(),
        ensures
            final(self).wf(),
            final(self)@ == spec_delete(old(self)@, caller, now, id).0,
            matches_res(r, spec_delete(old(self)@, caller, now, id).1),
    {
        let idx = match self.proposals.find(id) {
            Some(i) => i,
            None => {
                return Err(Error::not_found("Proposal not found"));
            },
        };
        let (creator, start_date) = {
            let p = self.proposals.at(idx);
            (p.creator, p.start_date)
        };
        if creator != caller {
            return Err(Error::not_authorized("Only the creator can delete this proposal"));
        }
        if start_date <= now {
            return Err(
                Error::proposal_already_started("Proposal can no longer be deleted: voting has started"),
            );
        }
        self.proposals.remove_at(idx);
        proof {
            let m = old(self)@;
            assert(self@ =~~= spec_delete(m, caller, now, id).0);
            assert forall|i: int, j: int|
                0 <= i < j < self@.proposals.len() implies (
            #[trigger] self@.proposals[i]).id != (#[trigger] self@.proposals[j]).id by {
                let a = if i < idx {
                    i
                } else {
                    i + 1
                };
                let b = if j < idx {
                    j
                } else {
                    j + 1
                };
                assert(m.proposals[a].id != m.proposals[b].id);
            }
            assert forall|i: int| 0 <= i < self@.proposals.len() implies 1 <= (
            #[trigger] self@.proposals[i]).id && (self@.proposals[i].id
                < self@.next_id || self@.next_id == u64::MAX) && self@.proposals[i].start_date < self@.proposals[i].end_date by {
                let a = if i < idx {
                    i
                } else {
                    i + 1
                };
                assert(1 <= m.proposals[a].id && (m.proposals[a].id < m.next_id || m.next_id
                    == u64::MAX) && m.proposals[a].start_date < m.proposals[a].end_date);
            }
        }
        Ok(())
    }
}

/// In a model with unique proposal ids, looking a record's own id up finds
/// exactly that record.
pub proof fn lemma_unique_find(s: Seq<ProposalModel>, i: int)
    requires
        forall|a: int, b: int| 0 <= a < b < s.len() ==> (#[trigger] s[a]).id != (#[trigger] s[b]).id,
        0 <= i < s.len(),
    ensures
        find_idx(s, s[i].id) == i,
        has_id(s, s[i].id),
        get_by_id(s, s[i].id) == s[i],
{
    lemma_find_idx(s, s[i].id);
    let fi = find_idx(s, s[i].id);
    if fi == -1 {
        assert(s[i].id != s[i].id);
    }
    if fi < i {
        assert(s[fi].id != s[i].id);
    }
    if fi > i {
        assert(s[i].id != s[fi].id);
    }
}

/// A proposal whose dates text places the end on or before the start is
/// always rejected as invalid input, with nothing changed.
pub proof fn lemma_create_rejects_empty_window(
    m: GovModel,
    caller: u64,
    now: u64,
    title: Seq<char>,
    description: Seq<char>,
    start_text: Seq<char>,
    end_text: Seq<char>,
)
    requires
        spec_parse_date(start_text) matches Some(st) && spec_parse_date(end_text) matches Some(en)
            && en.0 <= st.0,
    ensures
        spec_create(m, caller, now, title, description, start_text, end_text).1 == Err::<
            ProposalModel,
            ErrorKind,
        >(ErrorKind::InvalidInput),
        spec_create(m, caller, now, title, description, start_text, end_text).0 == m,
{
}

/// A proposal whose start date lies strictly before the current date, at day
/// granularity, is always rejected as invalid input, with nothing changed.
pub proof fn lemma_create_rejects_past_start(
    m: GovModel,
    caller: u64,
    now: u64,
    title: Seq<char>,
    description: Seq<char>,
    start_text: Seq<char>,
    end_text: Seq<char>,
)
    requires
        spec_parse_date(start_text) matches Some(st) && st.0 / 86400 < now / 86400,
    ensures
        spec_create(m, caller, now, title, description, start_text, end_text).1 == Err::<
            ProposalModel,
            ErrorKind,
        >(ErrorKind::InvalidInput),
        spec_create(m, caller, now, title, description, start_text, end_text).0 == m,
{
}

/// After a successful creation, looking the new proposal up reports it with
/// the time-derived status: `Pending` strictly before its window, `Active`
/// inside it, `Ended` strictly after it.
pub proof fn lemma_get_after_create(
    m: GovModel,
    caller: u64,
    now: u64,
    title: Seq<char>,
    description: Seq<char>,
    start_text: Seq<char>,
    end_text: Seq<char>,
    now2: u64,
)
    requires
        gov_model_ok(m),
        spec_create(m, caller, now, title, description, start_text, end_text).1 is Ok,
    ensures
        ({
            let m2 = spec_create(m, caller, now, title, description, start_text, end_text).0;
            let p = spec_create(m, caller, now, title, description, start_text, end_text).1->Ok_0;
            &&& spec_get_proposal(m2, now2, p.id) == Ok::<_, ErrorKind>(
                (p, spec_status(now2, p.start_date, p.end_date)),
            )
            &&& now2 < p.start_date ==> spec_get_proposal(m2, now2, p.id)->Ok_0.1
                == ProposalStatus::Pending
            &&& p.start_date <= now2 <= p.end_date ==> spec_get_proposal(m2, now2, p.id)->Ok_0.1
                == ProposalStatus::Active
            &&& now2 > p.end_date ==> spec_get_proposal(m2, now2, p.id)->Ok_0.1
                == ProposalStatus::Ended
        }),
{
    let m2 = spec_create(m, caller, now, title, description, start_text, end_text).0;
    let p = spec_create(m, caller, now, title, description, start_text, end_text).1->Ok_0;
    lemma_find_idx(m.proposals, m.next_id);
    assert(forall|k: int|
        0 <= k < m.proposals.len() ==> (#[trigger] m.proposals[k]).id != m.next_id);
    assert(m2.proposals[m.proposals.len() as int] == p);
    assert forall|a: int, b: int|
        0 <= a < b < m2.proposals.len() implies (#[trigger] m2.proposals[a]).id != (
    #[trigger] m2.proposals[b]).id by {
        if b < m.proposals.len() {
            assert(m.proposals[a].id != m.proposals[b].id);
        } else {
            assert(m2.proposals[b] == p);
        }
    }
    lemma_unique_find(m2.proposals, m.proposals.len() as int);
}

/// A second vote by the same user on the same proposal never succeeds and
/// never changes the state; when the caller still has enough tokens and the
/// window is still open, the failure is `AlreadyExists`.  The tally carries
/// exactly the one recorded contribution.
pub proof fn lemma_vote_twice(
    m: GovModel,
    caller: u64,
    now1: u64,
    now2: u64,
    proposal_id: u64,
    is_for1: bool,
    is_for2: bool,
    tokens1: u64,
    tokens2: u64,
)
    requires
        gov_model_ok(m),
        spec_vote(m, caller, now1, proposal_id, is_for1, tokens1).1 is Ok,
    ensures
        ({
            let m1 = spec_vote(m, caller, now1, proposal_id, is_for1, tokens1).0;
            let m2 = spec_vote(m1, caller, now2, proposal_id, is_for2, tokens2).0;
            let r2 = spec_vote(m1, caller, now2, proposal_id, is_for2, tokens2).1;
            let p0 = get_by_id(m.proposals, proposal_id);
            let p1 = get_by_id(m1.proposals, proposal_id);
            &&& r2 is Err
            &&& m2 == m1
            &&& (tokens2 <= balance_of(m1, caller) && p1.start_date <= now2 <= p1.end_date)
                ==> r2 == Err::<(), ErrorKind>(ErrorKind::AlreadyExists)
            &&& p1.votes_for == if is_for1 {
                sat_add(p0.votes_for, tokens1)
            } else {
                p0.votes_for
            }
            &&& p1.votes_against == if is_for1 {
                p0.votes_against
            } else {
                sat_add(p0.votes_against, tokens1)
            }
        }),
{
    let i = find_idx(m.proposals, proposal_id);
    lemma_find_idx(m.proposals, proposal_id);
    let m1 = spec_vote(m, caller, now1, proposal_id, is_for1, tokens1).0;
    assert(m1.proposals[i].id == proposal_id);
    assert forall|a: int, b: int|
        0 <= a < b < m1.proposals.len() implies (#[trigger] m1.proposals[a]).id != (
    #[trigger] m1.proposals[b]).id by {
        assert(m1.proposals[a].id == m.proposals[a].id);
        assert(m1.proposals[b].id == m.proposals[b].id);
        assert(m.proposals[a].id != m.proposals[b].id);
    }
    lemma_unique_find(m1.proposals, i);
    assert(get_by_id(m.proposals, proposal_id) == m.proposals[i]);
    assert(m1.votes.contains_key((caller, proposal_id)));
    let m2 = spec_vote(m1, caller, now2, proposal_id, is_for2, tokens2).0;
    assert(m1.balances.contains_key(caller));
    assert(m1.balances.insert(caller, m1.balances[caller]) =~= m1.balances);
    assert(m2 =~~= m1);
}

/// A vote asking for more tokens than the caller's balance fails
/// `InsufficientTokens`, and leaves every proposal, every vote record and
/// every observable balance unchanged.
pub proof fn lemma_vote_insufficient(
    m: GovModel,
    caller: u64,
    now: u64,
    proposal_id: u64,
    is_for: bool,
    tokens: u64,
)
    requires
        proposal_id != 0,
        tokens > balance_of(m, caller),
    ensures
        spec_vote(m, caller, now, proposal_id, is_for, tokens).1 == Err::<(), ErrorKind>(
            ErrorKind::InsufficientTokens,
        ),
        spec_vote(m, caller, now, proposal_id, is_for, tokens).0.proposals == m.proposals,
        spec_vote(m, caller, now, proposal_id, is_for, tokens).0.votes == m.votes,
        forall|u: u64|
            balance_of(spec_vote(m, caller, now, proposal_id, is_for, tokens).0, u) == balance_of(
                m,
                u,
            ),
{
    let m2 = spec_vote(m, caller, now, proposal_id, is_for, tokens).0;
    assert forall|u: u64| balance_of(m2, u) == balance_of(m, u) by {
        if u != caller {
            assert(m2.balances.contains_key(u) == m.balances.contains_key(u));
        }
    }
}

/// A vote cast outside the proposal's voting window fails `VotingNotStarted`
/// or `VotingEnded`, and leaves every proposal, every vote record and every
/// observable balance unchanged.
pub proof fn lemma_vote_outside_window(
    m: GovModel,
    caller: u64,
    now: u64,
    proposal_id: u64,
    is_for: bool,
    tokens: u64,
)
    requires
        gov_model_ok(m),
        proposal_id != 0,
        tokens <= balance_of(m, caller),
        has_id(m.proposals, proposal_id),
        now < get_by_id(m.proposals, proposal_id).start_date || now > get_by_id(
            m.proposals,
            proposal_id,
        ).end_date,
    ensures
        now > get_by_id(m.proposals, proposal_id).end_date ==> spec_vote(
            m,
            caller,
            now,
            proposal_id,
            is_for,
            tokens,
        ).1 == Err::<(), ErrorKind>(ErrorKind::VotingEnded),
        now < get_by_id(m.proposals, proposal_id).start_date ==> spec_vote(
            m,
            caller,
            now,
            proposal_id,
            is_for,
            tokens,
        ).1 == Err::<(), ErrorKind>(ErrorKind::VotingNotStarted),
        spec_vote(m, caller, now, proposal_id, is_for, tokens).0.proposals == m.proposals,
        spec_vote(m, caller, now, proposal_id, is_for, tokens).0.votes == m.votes,
        forall|u: u64|
            balance_of(spec_vote(m, caller, now, proposal_id, is_for, tokens).0, u) == balance_of(
                m,
                u,
            ),
{
    lemma_find_idx(m.proposals, proposal_id);
    let p = get_by_id(m.proposals, proposal_id);
    assert(p.start_date < p.end_date);
    let m2 = spec_vote(m, caller, now, proposal_id, is_for, tokens).0;
    assert forall|u: u64| balance_of(m2, u) == balance_of(m, u) by {
        if u != caller {
            assert(m2.balances.contains_key(u) == m.balances.contains_key(u));
        }
    }
}

/// The deletion rules: a non-creator is refused, the creator is refused once
/// the window has started, and a deletion by the creator before the start
/// removes the record, after which a lookup reports `NotFound`.
pub proof fn lemma_delete_rules(m: GovModel, caller: u64, now: u64, id: u64, now2: u64)
    requires
        gov_model_ok(m),
        has_id(m.proposals, id),
    ensures
        ({
            let p = get_by_id(m.proposals, id);
            let m2 = spec_delete(m, caller, now, id).0;
            let r = spec_delete(m, caller, now, id).1;
            &&& p.creator != caller ==> r == Err::<(), ErrorKind>(ErrorKind::NotAuthorized) && m2
                == m
            &&& (p.creator == caller && p.start_date <= now) ==> r == Err::<(), ErrorKind>(
                ErrorKind::ProposalAlreadyStarted,
            ) && m2 == m
            &&& (p.creator == caller && now < p.start_date) ==> r == Ok::<(), ErrorKind>(())
                && spec_get_proposal(m2, now2, id) == Err::<
                (ProposalModel, ProposalStatus),
                ErrorKind,
            >(ErrorKind::NotFound)
        }),
{
    lemma_find_idx(m.proposals, id);
    let i = find_idx(m.proposals, id);
    let p = get_by_id(m.proposals, id);
    if p.creator == caller && now < p.start_date {
        let m2 = spec_delete(m, caller, now, id).0;
        lemma_find_idx(m2.proposals, id);
        let fi = find_idx(m2.proposals, id);
        if fi >= 0 {
            let k = if fi < i {
                fi
            } else {
                fi + 1
            };
            assert(m2.proposals[fi] == m.proposals[k]);
            assert(m.proposals[k].id == id && m.proposals[i].id == id && k != i);
            if k < i {
                assert(m.proposals[k].id != m.proposals[i].id);
            } else {
                assert(m.proposals[i].id != m.proposals[k].id);
            }
        }
        assert(id != 0) by {
            assert(1 <= m.proposals[i].id);
        }
    }
}

/// A user the ledger has never seen is answered the default allotment.
pub proof fn lemma_default_allotment(m: GovModel, user: u64)
    requires
        !m.balances.contains_key(user),
    ensures
        balance_of(m, user) == DEFAULT_TOKENS,
{
}

} // verus!
