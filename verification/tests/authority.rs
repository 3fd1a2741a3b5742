use peer_authority::{
    AuthorityChange, AuthorityError, AuthorityOwner, AuthorityRegistry, ClientId, Clients,
    ObjectId,
};

#[test]
fn transfer_overwrites_the_owner_and_tells_of_the_change() {
    let mut registry = AuthorityRegistry::new();
    let ball = ObjectId::from_raw(1);
    assert!(registry.register(ball, AuthorityOwner::Server));
    assert_eq!(registry.current_owner(ball), Ok(AuthorityOwner::Server));

    assert_eq!(
        registry.transfer_authority(ball, AuthorityOwner::Peer(7)),
        Ok(Some(AuthorityChange {
            object: ball,
            old_owner: AuthorityOwner::Server,
            new_owner: AuthorityOwner::Peer(7),
        }))
    );
    assert_eq!(registry.current_owner(ball), Ok(AuthorityOwner::Peer(7)));
}

#[test]
fn transfer_to_the_same_owner_tells_nobody() {
    let mut registry = AuthorityRegistry::new();
    let ball = ObjectId::from_raw(1);
    registry.register(ball, AuthorityOwner::Peer(7));
    assert_eq!(
        registry.transfer_authority(ball, AuthorityOwner::Peer(7)),
        Ok(None)
    );
    assert_eq!(registry.current_owner(ball), Ok(AuthorityOwner::Peer(7)));
    // another client is another owner
    assert_eq!(
        registry.transfer_authority(ball, AuthorityOwner::Peer(8)),
        Ok(Some(AuthorityChange {
            object: ball,
            old_owner: AuthorityOwner::Peer(7),
            new_owner: AuthorityOwner::Peer(8),
        }))
    );
}

#[test]
fn transfer_for_an_unknown_object_is_an_error() {
    let mut registry = AuthorityRegistry::new();
    let ball = ObjectId::from_raw(1);
    let stale = ObjectId::from_raw(2);
    registry.register(ball, AuthorityOwner::Unclaimed);
    assert_eq!(
        registry.transfer_authority(stale, AuthorityOwner::Server),
        Err(AuthorityError::UnknownObject(stale))
    );
    assert_eq!(
        registry.current_owner(stale),
        Err(AuthorityError::UnknownObject(stale))
    );
    assert!(!registry.contains(stale));
    assert_eq!(registry.current_owner(ball), Ok(AuthorityOwner::Unclaimed));
}

#[test]
fn of_several_transfers_the_last_one_stands() {
    let mut registry = AuthorityRegistry::new();
    let ball = ObjectId::from_raw(1);
    let other = ObjectId::from_raw(2);
    registry.register(ball, AuthorityOwner::Server);
    registry.register(other, AuthorityOwner::Peer(3));
    registry
        .transfer_authority(ball, AuthorityOwner::Peer(1))
        .unwrap();
    registry
        .transfer_authority(ball, AuthorityOwner::Unclaimed)
        .unwrap();
    registry
        .transfer_authority(ball, AuthorityOwner::Peer(2))
        .unwrap();
    assert_eq!(registry.current_owner(ball), Ok(AuthorityOwner::Peer(2)));
    assert_eq!(registry.current_owner(other), Ok(AuthorityOwner::Peer(3)));
}

#[test]
fn unclaimed_is_an_owner_like_the_others() {
    let mut registry = AuthorityRegistry::new();
    let ball = ObjectId::from_raw(1);
    registry.register(ball, AuthorityOwner::Server);
    assert_eq!(
        registry.transfer_authority(ball, AuthorityOwner::Unclaimed),
        Ok(Some(AuthorityChange {
            object: ball,
            old_owner: AuthorityOwner::Server,
            new_owner: AuthorityOwner::Unclaimed,
        }))
    );
    assert_eq!(registry.current_owner(ball), Ok(AuthorityOwner::Unclaimed));
    assert!(registry.contains(ball));
}

#[test]
fn register_keeps_the_owner_of_a_known_object() {
    let mut registry = AuthorityRegistry::new();
    let ball = ObjectId::from_raw(1);
    assert!(!registry.contains(ball));
    assert!(registry.register(ball, AuthorityOwner::Peer(4)));
    assert!(!registry.register(ball, AuthorityOwner::Server));
    assert_eq!(registry.current_owner(ball), Ok(AuthorityOwner::Peer(4)));
}

#[test]
fn unregister_returns_the_last_owner_once() {
    let mut registry = AuthorityRegistry::new();
    let ball = ObjectId::from_raw(1);
    registry.register(ball, AuthorityOwner::Peer(4));
    assert_eq!(registry.unregister(ball), Some(AuthorityOwner::Peer(4)));
    assert_eq!(registry.unregister(ball), None);
    assert_eq!(
        registry.transfer_authority(ball, AuthorityOwner::Server),
        Err(AuthorityError::UnknownObject(ball))
    );
}

/// The policy of the handoff, which is the caller's: the first client, in
/// the order of connection, whose object is closer to the ball than the
/// threshold gets authority, and the server if there is none.
fn closest_owner(
    clients: &Clients,
    positions: &[(ClientId, (f32, f32))],
    ball: (f32, f32),
    threshold: f32,
) -> AuthorityOwner {
    for client in clients.connected_clients() {
        for (owner, position) in positions {
            let dx = position.0 - ball.0;
            let dy = position.1 - ball.1;
            if *owner == client && (dx * dx + dy * dy).sqrt() < threshold {
                return AuthorityOwner::Peer(client);
            }
        }
    }
    AuthorityOwner::Server
}

#[test]
fn authority_goes_to_the_client_within_the_threshold_and_back() {
    let mut clients = Clients::new();
    let mut registry = AuthorityRegistry::new();
    clients.connect(1);
    clients.connect(2);

    let ball = ObjectId::from_raw(0);
    let near = ObjectId::from_raw(1);
    let far = ObjectId::from_raw(2);
    registry.register(ball, AuthorityOwner::Server);
    registry.register(near, AuthorityOwner::Server);
    registry.register(far, AuthorityOwner::Server);
    clients.add_controlled(1, near);
    clients.add_controlled(2, far);

    let ball_at = (300.0f32, 0.0f32);
    // 80 and 150 units away from the ball
    let mut positions = vec![(1u64, (220.0f32, 0.0f32)), (2u64, (300.0f32, 150.0f32))];

    let owner = closest_owner(&clients, &positions, ball_at, 100.0);
    assert_eq!(owner, AuthorityOwner::Peer(1));
    assert_eq!(
        registry.transfer_authority(ball, owner),
        Ok(Some(AuthorityChange {
            object: ball,
            old_owner: AuthorityOwner::Server,
            new_owner: AuthorityOwner::Peer(1),
        }))
    );
    assert_eq!(registry.current_owner(ball), Ok(AuthorityOwner::Peer(1)));

    // nothing moved: the next decision is the same and tells nobody
    let owner = closest_owner(&clients, &positions, ball_at, 100.0);
    assert_eq!(registry.transfer_authority(ball, owner), Ok(None));

    // both move beyond the threshold
    positions[0].1 = (199.0, 0.0);
    positions[1].1 = (300.0, 101.0);
    let owner = closest_owner(&clients, &positions, ball_at, 100.0);
    assert_eq!(owner, AuthorityOwner::Server);
    assert_eq!(
        registry.transfer_authority(ball, owner),
        Ok(Some(AuthorityChange {
            object: ball,
            old_owner: AuthorityOwner::Peer(1),
            new_owner: AuthorityOwner::Server,
        }))
    );
    assert_eq!(registry.current_owner(ball), Ok(AuthorityOwner::Server));
}
