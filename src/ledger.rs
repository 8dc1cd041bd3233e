use vstd::prelude::*;

use crate::account::{AccountId, VoteError};

verus! {

/// Position of `a` in `list`, if it is there.
fn position_of(list: &Vec<AccountId>, a: &AccountId) -> (r: Option<usize>)
    ensures
        match r {
            Some(i) => i < list@.len() && list@[i as int] == *a,
            None => !list@.contains(*a),
        },
{
    let mut i: usize = 0;
    while i < list.len()
        invariant
            0 <= i <= list@.len(),
            forall|j: int| 0 <= j < i ==> list@[j] != *a,
        decreases list@.len() - i,
    {
        if list[i].same_as(a) {
            return Some(i);
        }
        i = i + 1;
    }
    None
}

/// In a sequence without repeats, the index of an element is where it stands.
proof fn lemma_index_of_unique(s: Seq<AccountId>, i: int)
    requires
        s.no_duplicates(),
        0 <= i < s.len(),
    ensures
        s.contains(s[i]),
        s.index_of(s[i]) == i,
{
    assert(s.contains(s[i]));
}

/// Filtering by two predicates that agree on every element gives one result.
proof fn lemma_filter_agree(s: Seq<AccountId>, p: spec_fn(AccountId) -> bool, q: spec_fn(AccountId) -> bool)
    requires
        forall|i: int| 0 <= i < s.len() ==> p(s[i]) == q(s[i]),
    ensures
        s.filter(p) == s.filter(q),
    decreases s.len(),
{
    reveal(Seq::filter);
    if s.len() > 0 {
        lemma_filter_agree(s.drop_last(), p, q);
    }
}

/// Filtering by a predicate that no element meets gives the empty sequence.
proof fn lemma_filter_none(s: Seq<AccountId>, p: spec_fn(AccountId) -> bool)
    requires
        forall|i: int| 0 <= i < s.len() ==> !p(s[i]),
    ensures
        s.filter(p) == Seq::<AccountId>::empty(),
{
    broadcast use vstd::seq_lib::group_filter_ensures;

    if s.filter(p).len() > 0 {
        let e = s.filter(p)[0];
        assert(s.filter(p).contains(e));
        s.lemma_filter_contains_rev(p, e);
    }
    assert(s.filter(p) =~= Seq::<AccountId>::empty());
}

/// The vote ledger: which candidates have been voted for (the runners, in
/// the order of their first vote), how many votes each holds, and which
/// voters have voted.
pub struct Voting {
    runners: Vec<AccountId>,
    /// One count per runner, at the runner's position.
    votes: Vec<u32>,
    already_voted: Vec<AccountId>,
}

impl Default for Voting {
    fn default() -> (s: Self)
        ensures
            s.wf(),
            s.runners() == Seq::<AccountId>::empty(),
            forall|c: AccountId| s.count(c) == 0,
            forall|v: AccountId| !s.has_voted(v),
    {
        Voting::new()
    }
}

impl Voting {
    /// `votes[i]` is the count of `runners[i]`; no runner is listed twice;
    /// every count is at least one.
    pub closed spec fn wf(&self) -> bool {
        &&& self.runners@.len() == self.votes@.len()
        &&& self.runners@.no_duplicates()
        &&& forall|i: int| 0 <= i < self.votes@.len() ==> self.votes@[i] >= 1
    }

    /// The candidates that have received a vote, in the order of their first vote.
    pub closed spec fn runners(&self) -> Seq<AccountId> {
        self.runners@
    }

    /// The number of votes `c` holds; zero for a candidate never voted for.
    pub closed spec fn count(&self, c: AccountId) -> nat {
        if self.runners@.contains(c) {
            self.votes@[self.runners@.index_of(c)] as nat
        } else {
            0
        }
    }

    /// Whether voter `v` has cast a vote.
    pub closed spec fn has_voted(&self, v: AccountId) -> bool {
        self.already_voted@.contains(v)
    }

    /// `c` holds at least as many votes as every runner.
    pub open spec fn is_leader(&self, c: AccountId) -> bool {
        forall|d: AccountId| self.runners().contains(d) ==> self.count(d) <= self.count(c)
    }

    /// The runners that hold the highest count, in the order of the runners.
    pub open spec fn winners(&self) -> Seq<AccountId> {
        self.runners().filter(|c: AccountId| self.is_leader(c))
    }

    /// What a vote by `voter` for `candidate` does, taking the ledger from
    /// `self` to `post` with result `r`. A repeated voter changes nothing.
    /// A new voter is marked as having voted in any case; a candidate at
    /// the largest count keeps it and the vote is refused; otherwise the
    /// candidate gains one vote and, at its first, joins the runners.
    pub open spec fn records_vote(
        self,
        post: Self,
        candidate: AccountId,
        voter: AccountId,
        r: Result<(), VoteError>,
    ) -> bool {
        if self.has_voted(voter) {
            r == Err::<(), VoteError>(VoteError::AlreadyVoted) && post == self
        } else {
            &&& forall|v: AccountId| post.has_voted(v) == (self.has_voted(v) || v == voter)
            &&& forall|c: AccountId| c != candidate ==> post.count(c) == self.count(c)
            &&& if self.count(candidate) == u32::MAX as nat {
                &&& r == Err::<(), VoteError>(VoteError::VoteOverflow)
                &&& post.count(candidate) == self.count(candidate)
                &&& post.runners() == self.runners()
            } else {
                &&& r == Ok::<(), VoteError>(())
                &&& post.count(candidate) == self.count(candidate) + 1
                &&& post.runners() == if self.count(candidate) == 0 {
                    self.runners().push(candidate)
                } else {
                    self.runners()
                }
            }
        }
    }

    /// A candidate is a runner, and so can be among the winners, exactly
    /// when it holds at least one vote.
    pub proof fn runner_iff_voted_for(&self, c: AccountId)
        requires
            self.wf(),
        ensures
            self.runners().contains(c) <==> self.count(c) >= 1,
    {
        if self.runners@.contains(c) {
            let k = self.runners@.index_of(c);
            self.lemma_count_at(k);
        }
    }

    proof fn lemma_counts(&self)
        requires
            self.wf(),
        ensures
            forall|i: int| 0 <= i < self.runners@.len() ==> #[trigger] self.count(self.runners@[i]) == self.votes@[i] as nat,
    {
        assert forall|i: int| 0 <= i < self.runners@.len() implies #[trigger] self.count(self.runners@[i]) == self.votes@[i] as nat by {
            self.lemma_count_at(i);
        }
    }

    proof fn lemma_count_at(&self, i: int)
        requires
            self.wf(),
            0 <= i < self.runners@.len(),
        ensures
            self.count(self.runners@[i]) == self.votes@[i] as nat,
    {
        lemma_index_of_unique(self.runners@, i);
    }

    /// An empty ledger: no runners, no votes, no voters.
    pub fn new() -> (s: Self)
        ensures
            s.wf(),
            s.runners() == Seq::<AccountId>::empty(),
            forall|c: AccountId| s.count(c) == 0,
            forall|v: AccountId| !s.has_voted(v),
    {
        Voting { runners: Vec::new(), votes: Vec::new(), already_voted: Vec::new() }
    }

    /// The same as `new`.
    pub fn default() -> (s: Self)
        ensures
            s.wf(),
            s.runners() == Seq::<AccountId>::empty(),
            forall|c: AccountId| s.count(c) == 0,
            forall|v: AccountId| !s.has_voted(v),
    {
        Self::new()
    }

    /// Records a vote by `caller` for `address`. A voter who has voted
    /// before is refused with `AlreadyVoted` and nothing changes. Otherwise
    /// the voter is marked as having voted, whatever follows; a candidate
    /// whose count is already the largest `u32` keeps it and the vote is
    /// refused with `VoteOverflow`; else the count grows by one, and a
    /// candidate at its first vote is appended to the runners.
    pub fn vote(&mut self, address: AccountId, caller: AccountId) -> (r: Result<(), VoteError>)
        requires
            old(self).wf(),
        ensures
            final(self).wf(),
            old(self).records_vote(*final(self), address, caller, r),
    {
        if position_of(&self.already_voted, &caller).is_some() {
            return Err(VoteError::AlreadyVoted);
        }
        self.already_voted.push(caller);
        proof {
            let pre = old(self).already_voted@;
            assert forall|v: AccountId| self.has_voted(v) == (old(self).has_voted(v) || v == caller) by {
                if old(self).has_voted(v) {
                    let k = choose|k: int| 0 <= k < pre.len() && pre[k] == v;
                    assert(self.already_voted@[k] == v);
                }
                if v == caller {
                    assert(self.already_voted@[pre.len() as int] == v);
                }
                if self.has_voted(v) {
                    let k = choose|k: int| 0 <= k < self.already_voted@.len() && self.already_voted@[k] == v;
                    if k < pre.len() {
                        assert(pre[k] == v);
                    }
                }
            }
        }
        match position_of(&self.runners, &address) {
            None => {
                let ghost n = self.runners@.len();
                self.runners.push(address);
                self.votes.push(1);
                proof {
                    let pre = old(self).runners@;
                    assert(self.runners@.no_duplicates());
                    lemma_index_of_unique(self.runners@, n as int);
                    assert forall|c: AccountId| c != address implies self.count(c) == old(self).count(c) by {
                        if pre.contains(c) {
                            let k = pre.index_of(c);
                            assert(self.runners@[k] == c);
                            lemma_index_of_unique(self.runners@, k);
                        } else {
                            assert(!self.runners@.contains(c)) by {
                                if self.runners@.contains(c) {
                                    let k = choose|k: int| 0 <= k < self.runners@.len() && self.runners@[k] == c;
                                    assert(pre[k] == c);
                                }
                            }
                        }
                    }
                }
                Ok(())
            },
            Some(i) => {
                let current = self.votes[i];
                proof {
                    old(self).lemma_count_at(i as int);
                }
                match current.checked_add(1) {
                    Some(next) => {
                        self.votes.set(i, next);
                        proof {
                            self.lemma_count_at(i as int);
                            assert forall|c: AccountId| c != address implies self.count(c) == old(self).count(c) by {
                                if self.runners@.contains(c) {
                                    let k = self.runners@.index_of(c);
                                    assert(k != i);
                                }
                            }
                        }
                        Ok(())
                    },
                    None => Err(VoteError::VoteOverflow),
                }
            },
        }
    }

    /// The number of votes `address` holds, zero if none.
    pub fn get_votes(&self, address: AccountId) -> (r: u32)
        requires
            self.wf(),
        ensures
            r as nat == self.count(address),
    {
        match position_of(&self.runners, &address) {
            Some(i) => {
                proof {
                    self.lemma_count_at(i as int);
                }
                self.votes[i]
            },
            None => 0,
        }
    }

    /// The runners that hold the highest count, in the order in which they
    /// first received a vote; empty when nobody has voted.
    pub fn get_current_winner(&self) -> (r: Vec<AccountId>)
        requires
            self.wf(),
        ensures
            r@ == self.winners(),
    {
        let mut current_winners: Vec<AccountId> = Vec::new();
        let mut highest_votes: u32 = 0;
        let mut i: usize = 0;
        proof {
            self.lemma_counts();
            assert(self.runners@.subrange(0, 0) =~= Seq::<AccountId>::empty());
            reveal(Seq::filter);
        }
        while i < self.runners.len()
            invariant
                self.wf(),
                0 <= i <= self.runners@.len(),
                forall|k: int| 0 <= k < self.runners@.len() ==> #[trigger] self.count(self.runners@[k]) == self.votes@[k] as nat,
                forall|j: int| 0 <= j < i ==> self.votes@[j] <= highest_votes,
                i == 0 ==> highest_votes == 0,
                i > 0 ==> exists|j: int| 0 <= j < i && self.votes@[j] == highest_votes,
                current_winners@ == self.runners@.subrange(0, i as int).filter(
                    |c: AccountId| self.count(c) == highest_votes as nat,
                ),
            decreases self.runners@.len() - i,
        {
            let votes = self.votes[i];
            let ghost prefix = self.runners@.subrange(0, i as int);
            let ghost x = self.runners@[i as int];
            proof {
                assert(self.runners@.subrange(0, i + 1) =~= prefix.push(x));
                assert(self.count(x) == votes as nat);
            }
            if votes > highest_votes {
                proof {
                    let p = |c: AccountId| self.count(c) == votes as nat;
                    assert forall|j: int| 0 <= j < prefix.len() implies !p(prefix[j]) by {
                        assert(prefix[j] == self.runners@[j]);
                    }
                    lemma_filter_none(prefix, p);
                    prefix.lemma_filter_push(x, p);
                }
                highest_votes = votes;
                current_winners = Vec::new();
                current_winners.push(self.runners[i]);
                proof {
                    assert(current_winners@ =~= Seq::<AccountId>::empty().push(x));
                    assert(self.votes@[i as int] == highest_votes);
                }
            } else if votes == highest_votes {
                current_winners.push(self.runners[i]);
                proof {
                    prefix.lemma_filter_push(x, |c: AccountId| self.count(c) == highest_votes as nat);
                    assert(self.votes@[i as int] == highest_votes);
                }
            } else {
                proof {
                    prefix.lemma_filter_push(x, |c: AccountId| self.count(c) == highest_votes as nat);
                }
            }
            i = i + 1;
        }
        proof {
            let rs = self.runners@;
            assert(rs.subrange(0, rs.len() as int) =~= rs);
            let p = |c: AccountId| self.count(c) == highest_votes as nat;
            let q = |c: AccountId| self.is_leader(c);
            assert forall|j: int| 0 <= j < rs.len() implies p(rs[j]) == q(rs[j]) by {
                let w = choose|w: int| 0 <= w < i && self.votes@[w] == highest_votes;
                assert(self.count(rs[w]) == highest_votes as nat);
                if p(rs[j]) {
                    assert forall|d: AccountId| rs.contains(d) implies self.count(d) <= self.count(rs[j]) by {
                        let k = choose|k: int| 0 <= k < rs.len() && rs[k] == d;
                        assert(self.count(rs[k]) == self.votes@[k] as nat);
                    }
                }
                assert(self.count(rs[j]) == self.votes@[j] as nat);
                assert(self.votes@[j] <= highest_votes);
                if self.is_leader(rs[j]) {
                    assert(self.runners().contains(rs[w]));
                    assert(self.count(rs[w]) <= self.count(rs[j]));
                }
            }
            lemma_filter_agree(rs, p, q);
        }
        current_winners
    }
}

} // verus!
