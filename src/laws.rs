use vstd::prelude::*;

use crate::account::{AccountId, VoteError};
use crate::ledger::Voting;

verus! {

/// Once a voter has tried to vote, whatever came of it, a further vote by
/// the same voter is refused with `AlreadyVoted` and changes no count.
pub proof fn one_vote_per_voter(
    s0: Voting,
    s1: Voting,
    s2: Voting,
    c1: AccountId,
    c2: AccountId,
    v: AccountId,
    r1: Result<(), VoteError>,
    r2: Result<(), VoteError>,
)
    requires
        s0.records_vote(s1, c1, v, r1),
        s1.records_vote(s2, c2, v, r2),
    ensures
        s1.has_voted(v),
        r2 == Err::<(), VoteError>(VoteError::AlreadyVoted),
        forall|c: AccountId| s2.count(c) == s1.count(c),
{
}

/// A vote, accepted or refused, lowers no candidate's count.
pub proof fn vote_keeps_counts(
    pre: Voting,
    post: Voting,
    candidate: AccountId,
    voter: AccountId,
    r: Result<(), VoteError>,
)
    requires
        pre.records_vote(post, candidate, voter, r),
    ensures
        forall|c: AccountId| pre.count(c) <= post.count(c),
{
}

/// Along any run of votes, each candidate's count never decreases: state
/// `states[i + 1]` is what the vote by `voters[i]` for `candidates[i]`
/// made of `states[i]`.
pub proof fn counts_never_decrease(
    states: Seq<Voting>,
    candidates: Seq<AccountId>,
    voters: Seq<AccountId>,
    results: Seq<Result<(), VoteError>>,
    c: AccountId,
    i: int,
    j: int,
)
    requires
        candidates.len() == voters.len(),
        results.len() == voters.len(),
        states.len() == voters.len() + 1,
        forall|k: int|
            0 <= k < voters.len() ==> #[trigger] states[k].records_vote(
                states[k + 1],
                candidates[k],
                voters[k],
                results[k],
            ),
        0 <= i <= j < states.len(),
    ensures
        states[i].count(c) <= states[j].count(c),
    decreases j - i,
{
    if i < j {
        counts_never_decrease(states, candidates, voters, results, c, i, j - 1);
        let k = j - 1;
        assert(states[k].records_vote(states[k + 1], candidates[k], voters[k], results[k]));
        vote_keeps_counts(states[k], states[k + 1], candidates[k], voters[k], results[k]);
    }
}

/// When two candidates both hold the highest count in the ledger, both are
/// among the winners, and every winner holds that same count.
pub proof fn winners_include_all_ties(l: Voting, a: AccountId, b: AccountId)
    requires
        l.wf(),
        l.count(a) >= 1,
        l.count(b) == l.count(a),
        forall|c: AccountId| l.count(c) <= l.count(a),
    ensures
        l.winners().contains(a),
        l.winners().contains(b),
        forall|c: AccountId| l.winners().contains(c) ==> l.count(c) == l.count(a),
{
    broadcast use vstd::seq_lib::group_filter_ensures;

    let rs = l.runners();
    let p = |c: AccountId| l.is_leader(c);
    l.runner_iff_voted_for(a);
    l.runner_iff_voted_for(b);
    let ia = choose|k: int| 0 <= k < rs.len() && rs[k] == a;
    let ib = choose|k: int| 0 <= k < rs.len() && rs[k] == b;
    rs.lemma_filter_contains(p, ia);
    rs.lemma_filter_contains(p, ib);
    assert forall|c: AccountId| l.winners().contains(c) implies l.count(c) == l.count(a) by {
        rs.lemma_filter_contains_rev(p, c);
        let k = choose|k: int| 0 <= k < l.winners().len() && l.winners()[k] == c;
        assert(p(l.winners()[k]));
        assert(rs.contains(a));
    }
}

/// A new voter's vote for a candidate whose count is the largest `u32` is
/// refused with `VoteOverflow`, and that count stays as it was.
pub proof fn overflow_is_refused(
    pre: Voting,
    post: Voting,
    candidate: AccountId,
    voter: AccountId,
    r: Result<(), VoteError>,
)
    requires
        pre.count(candidate) == u32::MAX as nat,
        !pre.has_voted(voter),
        pre.records_vote(post, candidate, voter, r),
    ensures
        r == Err::<(), VoteError>(VoteError::VoteOverflow),
        post.count(candidate) == pre.count(candidate),
        post.runners() == pre.runners(),
{
}

} // verus!
