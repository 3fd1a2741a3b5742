use peer_authority::{ClientId, ControlledBy, NetworkTarget};

const A: ClientId = 1;
const B: ClientId = 2;
const C: ClientId = 3;
const D: ClientId = 4;

#[test]
fn all_except_single_resolves_to_the_others() {
    let roster = vec![A, B, C];
    assert_eq!(NetworkTarget::AllExceptSingle(B).resolve(&roster), vec![A, C]);
}

#[test]
fn only_drops_clients_that_are_not_connected() {
    let roster = vec![A, B, C];
    assert_eq!(NetworkTarget::Only(vec![A, D]).resolve(&roster), vec![A]);
}

#[test]
fn nobody_resolves_to_nothing() {
    assert_eq!(
        NetworkTarget::Nobody.resolve(&vec![A, B, C]),
        Vec::<ClientId>::new()
    );
}

#[test]
fn single_resolves_to_the_client_if_connected() {
    let roster = vec![A, B, C];
    assert_eq!(NetworkTarget::Single(C).resolve(&roster), vec![C]);
    assert_eq!(NetworkTarget::Single(D).resolve(&roster), Vec::<ClientId>::new());
}

#[test]
fn all_resolves_to_the_roster() {
    let roster = vec![C, A, B];
    assert_eq!(NetworkTarget::All.resolve(&roster), vec![C, A, B]);
    assert_eq!(NetworkTarget::All.resolve(&vec![]), Vec::<ClientId>::new());
}

#[test]
fn only_keeps_the_order_of_the_roster() {
    let roster = vec![A, B, C];
    assert_eq!(NetworkTarget::Only(vec![C, A]).resolve(&roster), vec![A, C]);
    assert_eq!(NetworkTarget::Only(vec![]).resolve(&roster), Vec::<ClientId>::new());
    assert_eq!(NetworkTarget::Only(vec![B, B]).resolve(&roster), vec![B]);
}

#[test]
fn all_except_single_of_a_client_that_is_not_connected() {
    let roster = vec![A, B];
    assert_eq!(NetworkTarget::AllExceptSingle(D).resolve(&roster), vec![A, B]);
    assert_eq!(
        NetworkTarget::AllExceptSingle(A).resolve(&vec![A]),
        Vec::<ClientId>::new()
    );
}

#[test]
fn targets_tells_who_is_named() {
    assert!(!NetworkTarget::Nobody.targets(A));
    assert!(NetworkTarget::Single(A).targets(A));
    assert!(!NetworkTarget::Single(A).targets(B));
    assert!(NetworkTarget::Only(vec![A, D]).targets(D));
    assert!(!NetworkTarget::Only(vec![A, D]).targets(B));
    assert!(!NetworkTarget::Only(vec![]).targets(A));
    assert!(NetworkTarget::All.targets(D));
    assert!(NetworkTarget::AllExceptSingle(B).targets(A));
    assert!(!NetworkTarget::AllExceptSingle(B).targets(B));
}

#[test]
fn controlled_by_targets_its_target() {
    let controlled_by = ControlledBy {
        target: NetworkTarget::AllExceptSingle(B),
    };
    assert!(controlled_by.targets(A));
    assert!(!controlled_by.targets(B));
}

#[test]
fn resolving_twice_gives_the_same_clients() {
    let roster = vec![A, B, C];
    let target = NetworkTarget::AllExceptSingle(A);
    let once = target.resolve(&roster);
    assert_eq!(target.resolve(&once), once);
}
