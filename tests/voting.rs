use voting::account::{AccountId, VoteError};
use voting::ledger::Voting;

fn account(byte: u8) -> AccountId {
    AccountId([byte; 32])
}

#[test]
fn lib_default_works() {
    let voting = Voting::default();
    assert_eq!(voting.get_current_winner(), Vec::<AccountId>::new());
    assert_eq!(voting.get_votes(account(1)), 0);
}

#[test]
fn accept_new_vote() {
    let mut voting = Voting::new();
    assert_eq!(voting.vote(account(2), account(1)), Ok(()));
    assert_eq!(voting.get_votes(account(2)), 1);
    assert_eq!(voting.get_votes(account(1)), 0);
}

#[test]
fn empty_ledger_has_no_winner() {
    let voting = Voting::new();
    assert!(voting.get_current_winner().is_empty());
    assert_eq!(voting.get_votes(account(7)), 0);
    assert_eq!(voting.get_votes(account(0)), 0);
}

#[test]
fn single_vote_makes_a_winner() {
    let mut voting = Voting::new();
    let (a, x) = (account(1), account(10));
    assert_eq!(voting.vote(x, a), Ok(()));
    assert_eq!(voting.get_votes(x), 1);
    assert_eq!(voting.get_current_winner(), vec![x]);
}

#[test]
fn tie_keeps_insertion_order() {
    let mut voting = Voting::new();
    let (a, b, x, y) = (account(1), account(2), account(10), account(11));
    assert_eq!(voting.vote(x, a), Ok(()));
    assert_eq!(voting.vote(y, b), Ok(()));
    assert_eq!(voting.get_votes(x), 1);
    assert_eq!(voting.get_votes(y), 1);
    assert_eq!(voting.get_current_winner(), vec![x, y]);
}

#[test]
fn tie_order_follows_first_vote() {
    let mut voting = Voting::new();
    let (a, b, x, y) = (account(1), account(2), account(10), account(11));
    assert_eq!(voting.vote(y, a), Ok(()));
    assert_eq!(voting.vote(x, b), Ok(()));
    assert_eq!(voting.get_current_winner(), vec![y, x]);
}

#[test]
fn higher_count_wins_alone() {
    let mut voting = Voting::new();
    let (a, b, c, x, y) = (account(1), account(2), account(3), account(10), account(11));
    assert_eq!(voting.vote(x, a), Ok(()));
    assert_eq!(voting.vote(x, b), Ok(()));
    assert_eq!(voting.vote(y, c), Ok(()));
    assert_eq!(voting.get_votes(x), 2);
    assert_eq!(voting.get_votes(y), 1);
    assert_eq!(voting.get_current_winner(), vec![x]);
}

#[test]
fn later_leader_replaces_earlier() {
    let mut voting = Voting::new();
    let (x, y) = (account(10), account(11));
    assert_eq!(voting.vote(x, account(1)), Ok(()));
    assert_eq!(voting.vote(y, account(2)), Ok(()));
    assert_eq!(voting.vote(y, account(3)), Ok(()));
    assert_eq!(voting.get_current_winner(), vec![y]);
    assert_eq!(voting.vote(x, account(4)), Ok(()));
    assert_eq!(voting.get_current_winner(), vec![x, y]);
}

#[test]
fn repeated_vote_is_refused() {
    let mut voting = Voting::new();
    let (a, x) = (account(1), account(10));
    assert_eq!(voting.vote(x, a), Ok(()));
    assert_eq!(voting.vote(x, a), Err(VoteError::AlreadyVoted));
    assert_eq!(voting.get_votes(x), 1);
    assert_eq!(voting.get_current_winner(), vec![x]);
}

#[test]
fn second_vote_for_other_candidate_is_refused() {
    let mut voting = Voting::new();
    let (v, c1, c2) = (account(1), account(10), account(11));
    assert_eq!(voting.vote(c1, v), Ok(()));
    assert_eq!(voting.vote(c2, v), Err(VoteError::AlreadyVoted));
    assert_eq!(voting.get_votes(c1), 1);
    assert_eq!(voting.get_votes(c2), 0);
    assert_eq!(voting.get_current_winner(), vec![c1]);
}

#[test]
fn voter_may_vote_for_itself() {
    let mut voting = Voting::new();
    let a = account(5);
    assert_eq!(voting.vote(a, a), Ok(()));
    assert_eq!(voting.get_votes(a), 1);
    assert_eq!(voting.vote(account(6), a), Err(VoteError::AlreadyVoted));
}

#[test]
fn counts_never_decrease_over_votes() {
    let mut voting = Voting::new();
    let candidates = [account(10), account(11), account(12)];
    let mut before = [0u32; 3];
    for voter in 0u8..30 {
        let target = candidates[(voter % 3) as usize];
        let _ = voting.vote(target, account(100 + voter));
        let _ = voting.vote(candidates[0], account(100 + voter));
        for (k, c) in candidates.iter().enumerate() {
            let now = voting.get_votes(*c);
            assert!(now >= before[k]);
            before[k] = now;
        }
    }
    assert_eq!(before, [10, 10, 10]);
    assert_eq!(voting.get_current_winner(), candidates.to_vec());
}

#[test]
fn identities_differing_in_one_byte_are_distinct() {
    let mut voting = Voting::new();
    let x = account(10);
    let mut bytes = [10u8; 32];
    bytes[31] = 11;
    let y = AccountId(bytes);
    assert_ne!(x, y);
    assert_eq!(voting.vote(x, account(1)), Ok(()));
    assert_eq!(voting.get_votes(y), 0);
    assert_eq!(voting.vote(y, account(2)), Ok(()));
    assert_eq!(voting.get_current_winner(), vec![x, y]);
}

#[test]
fn default_trait_gives_empty_ledger() {
    let voting: Voting = Default::default();
    assert!(voting.get_current_winner().is_empty());
    assert_eq!(voting.get_votes(account(3)), 0);
}
