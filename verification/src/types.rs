//! Core data types of the ledger: proposals, votes, lifecycle status, and
//! the error taxonomy shared by every operation.

use vstd::prelude::*;

verus! {

/// Lifecycle state of a proposal, always derived from the current time and
/// the proposal's voting window, never trusted from storage.
#[derive(Clone, Copy, PartialEq, Eq, Structural, Debug)]
pub enum ProposalStatus {
    Pending,
    Active,
    Ended,
}

/// The status a proposal with window `[start, end]` has at time `now`:
/// `Pending` strictly before the window, `Active` inside it (both endpoints
/// included), `Ended` strictly after it.
pub open spec fn spec_status(now: u64, start: u64, end: u64) -> ProposalStatus {
    if now < start {
        ProposalStatus::Pending
    } else if now <= end {
        ProposalStatus::Active
    } else {
        ProposalStatus::Ended
    }
}

/// Compute the time-derived status of a voting window.
pub fn compute_status(now: u64, start: u64, end: u64) -> (r: ProposalStatus)
    ensures
        r == spec_status(now, start, end),
{
    if now < start {
        ProposalStatus::Pending
    } else if now <= end {
        ProposalStatus::Active
    } else {
        ProposalStatus::Ended
    }
}

/// A time-boxed proposal subject to for/against token-weighted voting.
///
/// The `status` field is a convenience snapshot for callers; the ledger
/// recomputes it from `now` on every read and never trusts a stored value.
#[derive(Debug)]
pub struct Proposal {
    pub id: u64,
    pub title: String,
    pub description: String,
    pub creator: u64,
    pub created_at: u64,
    pub start_date: u64,
    pub end_date: u64,
    pub votes_for: u64,
    pub votes_against: u64,
    pub status: ProposalStatus,
}

/// Mathematical model of a proposal: the durable fields, without the derived
/// status snapshot.
pub ghost struct ProposalModel {
    pub id: u64,
    pub title: Seq<char>,
    pub description: Seq<char>,
    pub creator: u64,
    pub created_at: u64,
    pub start_date: u64,
    pub end_date: u64,
    pub votes_for: u64,
    pub votes_against: u64,
}

impl View for Proposal {
    type V = ProposalModel;

    open spec fn view(&self) -> ProposalModel {
        ProposalModel {
            id: self.id,
            title: self.title@,
            description: self.description@,
            creator: self.creator,
            created_at: self.created_at,
            start_date: self.start_date,
            end_date: self.end_date,
            votes_for: self.votes_for,
            votes_against: self.votes_against,
        }
    }
}

impl Clone for Proposal {
    /// An exact copy, field for field.
    fn clone(&self) -> (r: Self)
        ensures
            r@ == self@,
            r.status == self.status,
    {
        Proposal {
            id: self.id,
            title: self.title.clone(),
            description: self.description.clone(),
            creator: self.creator,
            created_at: self.created_at,
            start_date: self.start_date,
            end_date: self.end_date,
            votes_for: self.votes_for,
            votes_against: self.votes_against,
            status: self.status,
        }
    }
}

impl Proposal {
    /// Recompute the status snapshot from the current time; every other
    /// field is kept.
    pub fn update_status(&mut self, now: u64)
        ensures
            final(self)@ == old(self)@,
            final(self).status == spec_status(now, old(self).start_date, old(self).end_date),
    {
        self.status = compute_status(now, self.start_date, self.end_date);
    }
}

/// One user's single, immutable commitment of tokens toward or against a
/// specific proposal.
#[derive(Clone, Copy, PartialEq, Eq, Structural, Debug)]
pub struct Vote {
    pub user: u64,
    pub proposal_id: u64,
    pub vote_power: u64,
    pub is_for: bool,
}

/// The kind tag of an error, the part callers are expected to branch on.
#[derive(Clone, Copy, PartialEq, Eq, Structural, Debug)]
pub enum ErrorKind {
    NotFound,
    AlreadyExists,
    NotAuthorized,
    VotingEnded,
    InvalidInput,
    VotingNotStarted,
    ProposalAlreadyStarted,
    InsufficientTokens,
}

/// A typed, recoverable failure: a stable kind tag plus a human-readable
/// message.
#[derive(Debug)]
pub enum Error {
    NotFound { msg: String },
    AlreadyExists { msg: String },
    NotAuthorized { msg: String },
    VotingEnded { msg: String },
    InvalidInput { msg: String },
    VotingNotStarted { msg: String },
    ProposalAlreadyStarted { msg: String },
    InsufficientTokens { msg: String },
}

impl Error {
    /// The kind tag of this error.
    pub open spec fn spec_kind(&self) -> ErrorKind {
        match self {
            Error::NotFound { .. } => ErrorKind::NotFound,
            Error::AlreadyExists { .. } => ErrorKind::AlreadyExists,
            Error::NotAuthorized { .. } => ErrorKind::NotAuthorized,
            Error::VotingEnded { .. } => ErrorKind::VotingEnded,
            Error::InvalidInput { .. } => ErrorKind::InvalidInput,
            Error::VotingNotStarted { .. } => ErrorKind::VotingNotStarted,
            Error::ProposalAlreadyStarted { .. } => ErrorKind::ProposalAlreadyStarted,
            Error::InsufficientTokens { .. } => ErrorKind::InsufficientTokens,
        }
    }

    /// The message carried by this error.
    pub open spec fn spec_message(&self) -> Seq<char> {
        match self {
            Error::NotFound { msg } => msg@,
            Error::AlreadyExists { msg } => msg@,
            Error::NotAuthorized { msg } => msg@,
            Error::VotingEnded { msg } => msg@,
            Error::InvalidInput { msg } => msg@,
            Error::VotingNotStarted { msg } => msg@,
            Error::ProposalAlreadyStarted { msg } => msg@,
            Error::InsufficientTokens { msg } => msg@,
        }
    }

    /// The kind tag, for callers that branch on the failure.
    pub fn kind(&self) -> (k: ErrorKind)
        ensures
            k == self.spec_kind(),
    {
        match self {
            Error::NotFound { .. } => ErrorKind::NotFound,
            Error::AlreadyExists { .. } => ErrorKind::AlreadyExists,
            Error::NotAuthorized { .. } => ErrorKind::NotAuthorized,
            Error::VotingEnded { .. } => ErrorKind::VotingEnded,
            Error::InvalidInput { .. } => ErrorKind::InvalidInput,
            Error::VotingNotStarted { .. } => ErrorKind::VotingNotStarted,
            Error::ProposalAlreadyStarted { .. } => ErrorKind::ProposalAlreadyStarted,
            Error::InsufficientTokens { .. } => ErrorKind::InsufficientTokens,
        }
    }

    /// The human-readable message.
    pub fn message(&self) -> (m: &String)
        ensures
            m@ == self.spec_message(),
    {
        match self {
            Error::NotFound { msg } => msg,
            Error::AlreadyExists { msg } => msg,
            Error::NotAuthorized { msg } => msg,
            Error::VotingEnded { msg } => msg,
            Error::InvalidInput { msg } => msg,
            Error::VotingNotStarted { msg } => msg,
            Error::ProposalAlreadyStarted { msg } => msg,
            Error::InsufficientTokens { msg } => msg,
        }
    }

    /// An `InvalidInput` error with the given message.
    pub fn invalid_input(msg: &str) -> (e: Error)
        ensures
            e.spec_kind() == ErrorKind::InvalidInput,
            e.spec_message() == msg@,
    {
        Error::InvalidInput { msg: String::from_str(msg) }
    }

    /// A `NotFound` error with the given message.
    pub fn not_found(msg: &str) -> (e: Error)
        ensures
            e.spec_kind() == ErrorKind::NotFound,
            e.spec_message() == msg@,
    {
        Error::NotFound { msg: String::from_str(msg) }
    }

    /// An `AlreadyExists` error with the given message.
    pub fn already_exists(msg: &str) -> (e: Error)
        ensures
            e.spec_kind() == ErrorKind::AlreadyExists,
            e.spec_message() == msg@,
    {
        Error::AlreadyExists { msg: String::from_str(msg) }
    }

    /// A `NotAuthorized` error with the given message.
    pub fn not_authorized(msg: &str) -> (e: Error)
        ensures
            e.spec_kind() == ErrorKind::NotAuthorized,
            e.spec_message() == msg@,
    {
        Error::NotAuthorized { msg: String::from_str(msg) }
    }

    /// A `VotingEnded` error with the given message.
    pub fn voting_ended(msg: &str) -> (e: Error)
        ensures
            e.spec_kind() == ErrorKind::VotingEnded,
            e.spec_message() == msg@,
    {
        Error::VotingEnded { msg: String::from_str(msg) }
    }

    /// A `VotingNotStarted` error with the given message.
    pub fn voting_not_started(msg: &str) -> (e: Error)
        ensures
            e.spec_kind() == ErrorKind::VotingNotStarted,
            e.spec_message() == msg@,
    {
        Error::VotingNotStarted { msg: String::from_str(msg) }
    }

    /// A `ProposalAlreadyStarted` error with the given message.
    pub fn proposal_already_started(msg: &str) -> (e: Error)
        ensures
            e.spec_kind() == ErrorKind::ProposalAlreadyStarted,
            e.spec_message() == msg@,
    {
        Error::ProposalAlreadyStarted { msg: String::from_str(msg) }
    }

    /// An `InsufficientTokens` error with the given message.
    pub fn insufficient_tokens(msg: &str) -> (e: Error)
        ensures
            e.spec_kind() == ErrorKind::InsufficientTokens,
            e.spec_message() == msg@,
    {
        Error::InsufficientTokens { msg: String::from_str(msg) }
    }
}

} // verus!
