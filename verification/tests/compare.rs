use git_compare::compare::{
    get_patchid_from_commit, list_commits, set_compare, Args, CompareError, Reading, Visit,
    WhichBranch,
};
use git_compare::history::HistorySet;
use git_compare::object_id::ObjectId;

fn id(n: u8) -> ObjectId {
    let mut bytes = [0u8; 20];
    bytes[0] = n;
    bytes[19] = n;
    ObjectId::from_bytes(bytes)
}

fn visit(commit: u8, parent: u8, patch: u8) -> Visit {
    Visit { commit: id(commit), parent: Some(id(parent)), patch: Some(id(patch)) }
}

fn args() -> Args {
    Args { repo: ".".to_string(), target1: "a".to_string(), target2: "b".to_string() }
}

fn reading(walk1: Vec<Visit>, walk2: Vec<Visit>) -> Reading {
    Reading { target1: Some(id(201)), target2: Some(id(202)), base: Some(id(200)), walk1, walk2 }
}

fn set_of(pairs: &[(u8, u8)]) -> HistorySet {
    let mut set = HistorySet::new();
    for (patch, commit) in pairs {
        set.insert(id(*patch), id(*commit));
    }
    set
}

#[test]
fn object_ids_compare_by_bytes() {
    assert_eq!(id(1), id(1));
    assert_ne!(id(1), id(2));
    let mut bytes = [7u8; 20];
    let a = ObjectId::from_bytes(bytes);
    bytes[19] = 8;
    let b = ObjectId::from_bytes(bytes);
    assert_ne!(a, b);
    assert_eq!(a.as_bytes()[19], 7);
    assert_eq!(b.as_bytes()[19], 8);
}

#[test]
fn history_set_starts_empty() {
    let set = HistorySet::new();
    assert!(set.is_empty());
    assert_eq!(set.len(), 0);
    assert!(!set.contains_key(&id(1)));
    assert_eq!(set.get(&id(1)), None);
}

#[test]
fn history_set_insert_and_get() {
    let mut set = HistorySet::new();
    set.insert(id(1), id(10));
    set.insert(id(2), id(20));
    assert_eq!(set.len(), 2);
    assert!(!set.is_empty());
    assert!(set.contains_key(&id(1)));
    assert!(set.contains_key(&id(2)));
    assert!(!set.contains_key(&id(3)));
    assert_eq!(set.get(&id(1)), Some(id(10)));
    assert_eq!(set.get(&id(2)), Some(id(20)));
    assert_eq!(set.entry(0), (id(1), id(10)));
    assert_eq!(set.entry(1), (id(2), id(20)));
}

#[test]
fn history_set_last_writer_wins() {
    let mut set = HistorySet::new();
    set.insert(id(1), id(10));
    set.insert(id(2), id(20));
    set.insert(id(1), id(11));
    assert_eq!(set.len(), 2);
    assert_eq!(set.get(&id(1)), Some(id(11)));
    assert_eq!(set.entry(0), (id(1), id(11)));
    assert_eq!(set.entry(1), (id(2), id(20)));
}

#[test]
fn patch_identity_of_a_commit_with_parent() {
    assert_eq!(get_patchid_from_commit(&visit(1, 0, 9)), Ok(id(9)));
}

#[test]
fn patch_identity_of_a_root_commit_fails() {
    let root = Visit { commit: id(1), parent: None, patch: Some(id(9)) };
    assert_eq!(get_patchid_from_commit(&root), Err(CompareError::NoParent));
    let bare = Visit { commit: id(1), parent: None, patch: None };
    assert_eq!(get_patchid_from_commit(&bare), Err(CompareError::NoParent));
}

#[test]
fn patch_identity_without_a_diff_fails() {
    let broken = Visit { commit: id(1), parent: Some(id(0)), patch: None };
    assert_eq!(get_patchid_from_commit(&broken), Err(CompareError::DiffComputation));
}

#[test]
fn list_commits_of_an_empty_walk() {
    let set = list_commits(&Vec::new()).unwrap();
    assert!(set.is_empty());
}

#[test]
fn list_commits_records_every_visit() {
    let set = list_commits(&vec![visit(3, 2, 13), visit(2, 1, 12), visit(1, 0, 11)]).unwrap();
    assert_eq!(set.len(), 3);
    assert_eq!(set.get(&id(13)), Some(id(3)));
    assert_eq!(set.get(&id(12)), Some(id(2)));
    assert_eq!(set.get(&id(11)), Some(id(1)));
    assert_eq!(set.entry(0), (id(13), id(3)));
    assert_eq!(set.entry(2), (id(11), id(1)));
}

#[test]
fn list_commits_keeps_the_older_of_two_equal_diffs() {
    // newest first: commit 3 and commit 1 carry the same fingerprint
    let set = list_commits(&vec![visit(3, 2, 11), visit(2, 1, 12), visit(1, 0, 11)]).unwrap();
    assert_eq!(set.len(), 2);
    assert_eq!(set.get(&id(11)), Some(id(1)));
    assert_eq!(set.get(&id(12)), Some(id(2)));
    assert_eq!(set.entry(0), (id(11), id(1)));
}

#[test]
fn list_commits_stops_at_the_first_failure() {
    let root = Visit { commit: id(2), parent: None, patch: None };
    let broken = Visit { commit: id(1), parent: Some(id(0)), patch: None };
    let walk = vec![visit(3, 2, 13), root, broken];
    assert_eq!(list_commits(&walk).err(), Some(CompareError::NoParent));
    let walk = vec![visit(3, 2, 13), broken, root];
    assert_eq!(list_commits(&walk).err(), Some(CompareError::DiffComputation));
}

#[test]
fn set_compare_of_empty_sets() {
    assert_eq!(set_compare(HistorySet::new(), HistorySet::new()), vec![]);
}

#[test]
fn set_compare_reports_first_then_second() {
    let first = set_of(&[(1, 10), (2, 20), (3, 30)]);
    let second = set_of(&[(4, 40), (2, 21), (5, 50)]);
    assert_eq!(
        set_compare(first, second),
        vec![
            (WhichBranch::Branch1Only, id(10)),
            (WhichBranch::Both, id(20)),
            (WhichBranch::Branch1Only, id(30)),
            (WhichBranch::Branch2Only, id(40)),
            (WhichBranch::Branch2Only, id(50)),
        ]
    );
}

#[test]
fn shared_change_is_reported_once_under_the_first_commit() {
    let first = set_of(&[(7, 10)]);
    let second = set_of(&[(7, 20)]);
    let result = set_compare(first, second);
    assert_eq!(result, vec![(WhichBranch::Both, id(10))]);
    assert!(!result.iter().any(|entry| entry.1 == id(20)));
}

#[test]
fn cherry_pick_on_the_second_branch() {
    // base M; first branch M -> X -> Y; second branch M -> X', X' a pick of X
    let (x, y, x2) = (1, 2, 3);
    let (px, py) = (11, 12);
    let walk1 = vec![visit(y, x, py), visit(x, 200, px)];
    let walk2 = vec![visit(x2, 200, px)];
    let result = args().execute(&reading(walk1, walk2)).unwrap();
    assert_eq!(result.len(), 2);
    assert!(result.contains(&(WhichBranch::Both, id(x))));
    assert!(result.contains(&(WhichBranch::Branch1Only, id(y))));
    assert!(!result.iter().any(|entry| entry.1 == id(x2)));
    assert_eq!(result, vec![(WhichBranch::Branch1Only, id(y)), (WhichBranch::Both, id(x))]);
}

#[test]
fn disjoint_branches_share_nothing() {
    let walk1 = vec![visit(2, 1, 12), visit(1, 200, 11)];
    let walk2 = vec![visit(5, 4, 15), visit(4, 3, 14), visit(3, 200, 13)];
    let result = args().execute(&reading(walk1, walk2)).unwrap();
    assert_eq!(
        result,
        vec![
            (WhichBranch::Branch1Only, id(2)),
            (WhichBranch::Branch1Only, id(1)),
            (WhichBranch::Branch2Only, id(5)),
            (WhichBranch::Branch2Only, id(4)),
            (WhichBranch::Branch2Only, id(3)),
        ]
    );
    assert!(!result.iter().any(|entry| entry.0 == WhichBranch::Both));
}

#[test]
fn first_branch_at_the_merge_base() {
    let walk2 = vec![visit(4, 3, 14), visit(3, 200, 13)];
    assert!(list_commits(&Vec::new()).unwrap().is_empty());
    let result = args().execute(&reading(Vec::new(), walk2)).unwrap();
    assert_eq!(
        result,
        vec![(WhichBranch::Branch2Only, id(4)), (WhichBranch::Branch2Only, id(3))]
    );
}

#[test]
fn second_branch_at_the_merge_base() {
    let walk1 = vec![visit(4, 3, 14), visit(3, 200, 13)];
    let result = args().execute(&reading(walk1, Vec::new())).unwrap();
    assert_eq!(
        result,
        vec![(WhichBranch::Branch1Only, id(4)), (WhichBranch::Branch1Only, id(3))]
    );
}

#[test]
fn both_branches_at_the_merge_base() {
    assert_eq!(args().execute(&reading(Vec::new(), Vec::new())), Ok(vec![]));
}

#[test]
fn every_visited_commit_is_classified_once() {
    let walk1 = vec![visit(3, 2, 13), visit(2, 1, 12), visit(1, 200, 11)];
    let walk2 = vec![visit(6, 5, 12), visit(5, 4, 15), visit(4, 200, 16)];
    let result = args().execute(&reading(walk1, walk2)).unwrap();
    let count = |commit: u8| result.iter().filter(|entry| entry.1 == id(commit)).count();
    assert_eq!(count(1), 1);
    assert_eq!(count(2), 1);
    assert_eq!(count(3), 1);
    assert_eq!(count(4), 1);
    assert_eq!(count(5), 1);
    assert_eq!(count(6), 0);
    assert_eq!(result.len(), 5);
    assert!(result.contains(&(WhichBranch::Both, id(2))));
    assert!(result.contains(&(WhichBranch::Branch1Only, id(1))));
    assert!(result.contains(&(WhichBranch::Branch1Only, id(3))));
    assert!(result.contains(&(WhichBranch::Branch2Only, id(4))));
    assert!(result.contains(&(WhichBranch::Branch2Only, id(5))));
}

#[test]
fn comparison_gives_the_same_result_twice() {
    let walk1 = vec![visit(3, 2, 13), visit(2, 1, 12), visit(1, 200, 11)];
    let walk2 = vec![visit(6, 5, 12), visit(5, 4, 15)];
    let read = reading(walk1, walk2);
    let once = args().execute(&read);
    let twice = args().execute(&read);
    assert_eq!(once, twice);
}

#[test]
fn changed_pick_leaves_both_sides_exclusive() {
    // the pick on the second branch was resolved by hand: another fingerprint
    let walk1 = vec![visit(1, 200, 11)];
    let walk2 = vec![visit(2, 200, 21)];
    let result = args().execute(&reading(walk1, walk2)).unwrap();
    assert_eq!(
        result,
        vec![(WhichBranch::Branch1Only, id(1)), (WhichBranch::Branch2Only, id(2))]
    );
}

#[test]
fn duplicate_diff_on_one_branch_reports_the_older_commit() {
    let walk1 = vec![visit(3, 2, 11), visit(2, 1, 12), visit(1, 200, 11)];
    let walk2 = vec![visit(9, 200, 11)];
    let result = args().execute(&reading(walk1, walk2)).unwrap();
    assert_eq!(result, vec![(WhichBranch::Both, id(1)), (WhichBranch::Branch1Only, id(2))]);
}

#[test]
fn unresolved_target_fails() {
    let mut read = reading(vec![visit(1, 200, 11)], Vec::new());
    read.target1 = None;
    assert_eq!(args().execute(&read), Err(CompareError::UnresolvableReference));
    let mut read = reading(vec![visit(1, 200, 11)], Vec::new());
    read.target2 = None;
    assert_eq!(args().execute(&read), Err(CompareError::UnresolvableReference));
    let mut read = reading(Vec::new(), Vec::new());
    read.target2 = None;
    read.base = None;
    assert_eq!(args().execute(&read), Err(CompareError::UnresolvableReference));
}

#[test]
fn unrelated_histories_fail() {
    let mut read = reading(vec![visit(1, 200, 11)], vec![visit(2, 200, 12)]);
    read.base = None;
    assert_eq!(args().execute(&read), Err(CompareError::NoCommonAncestor));
}

#[test]
fn root_commit_on_a_walk_fails() {
    let root = Visit { commit: id(1), parent: None, patch: None };
    let read = reading(vec![visit(2, 1, 12), root], vec![visit(3, 200, 13)]);
    assert_eq!(args().execute(&read), Err(CompareError::NoParent));
    let read = reading(vec![visit(3, 200, 13)], vec![visit(2, 1, 12), root]);
    assert_eq!(args().execute(&read), Err(CompareError::NoParent));
}

#[test]
fn failed_diff_on_a_walk_fails() {
    let broken = Visit { commit: id(1), parent: Some(id(200)), patch: None };
    let read = reading(vec![broken], vec![visit(3, 200, 13)]);
    assert_eq!(args().execute(&read), Err(CompareError::DiffComputation));
}

#[test]
fn first_walk_fails_before_the_second() {
    let root = Visit { commit: id(1), parent: None, patch: None };
    let broken = Visit { commit: id(2), parent: Some(id(200)), patch: None };
    let read = reading(vec![broken], vec![root]);
    assert_eq!(args().execute(&read), Err(CompareError::DiffComputation));
    let read = reading(vec![root], vec![broken]);
    assert_eq!(args().execute(&read), Err(CompareError::NoParent));
}

#[test]
fn which_branch_prints_its_name() {
    assert_eq!(format!("{:?}", WhichBranch::Branch1Only), "Branch1Only");
    assert_eq!(format!("{:?}", WhichBranch::Both), "Both");
    assert_eq!(format!("{:?}", WhichBranch::Branch2Only), "Branch2Only");
}

#[test]
fn result_set_ignores_the_order_of_entries() {
    let one = set_compare(set_of(&[(1, 10), (2, 20), (3, 30)]), set_of(&[(4, 40), (2, 21), (5, 50)]));
    let other =
        set_compare(set_of(&[(3, 30), (1, 10), (2, 20)]), set_of(&[(5, 50), (4, 40), (2, 21)]));
    assert_eq!(one.len(), other.len());
    for entry in &one {
        assert!(other.contains(entry));
    }
    for entry in &other {
        assert!(one.contains(entry));
    }
}

#[test]
fn errors_say_what_went_wrong() {
    assert_eq!(CompareError::UnresolvableReference.message(), "a target names no commit");
    assert_eq!(CompareError::NoCommonAncestor.message(), "the targets share no history");
    assert_eq!(
        CompareError::NoParent.message(),
        "a commit without a parent has no patch identity"
    );
    assert_eq!(
        CompareError::DiffComputation.message(),
        "the diff of a commit could not be computed"
    );
}
