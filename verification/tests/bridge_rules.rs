use poseidon_merkle::bridge::{
    ensure_admin, ensure_signed, next_free_id, Action, AnchorInfo, Config, DispatchError, Error,
    Event, Origin, Pallet,
};
use poseidon_merkle::merkle::MerkleError;

const BRIDGE: u64 = 1000;
const ADMIN: u64 = 7;
const ALICE: u64 = 1;

fn config() -> Config {
    Config { pallet_account: BRIDGE, native_currency_id: 0, default_admin: ADMIN }
}

fn refused(e: Error) -> DispatchError {
    DispatchError::Module(e)
}

/// An initialised bridge with anchor 3 of size 100 in currency 5, which
/// wraps into token 50.
fn bridge() -> Pallet {
    let mut pallet = Pallet::new(config());
    pallet.initialize().unwrap();
    pallet.anchors.insert(3, AnchorInfo { size: 100, currency_id: 5 });
    pallet.bridge_tree_ids = vec![3, 4];
    pallet.wrapped_token_registry.insert(5, 50);
    pallet.register_unwrap_target(50, 5);
    pallet.last_token_id = Some(50);
    pallet
}

#[test]
fn origins() {
    assert_eq!(ensure_signed(Origin::Signed(4)), Ok(4));
    assert_eq!(ensure_signed(Origin::Root), Err(DispatchError::BadOrigin));
    assert_eq!(ensure_signed(Origin::Unsigned), Err(DispatchError::BadOrigin));
    assert_eq!(ensure_admin(Origin::Root, ADMIN), Ok(()));
    assert_eq!(ensure_admin(Origin::Signed(ADMIN), ADMIN), Ok(()));
    assert_eq!(ensure_admin(Origin::Signed(ALICE), ADMIN), Err(DispatchError::BadOrigin));
    assert_eq!(ensure_admin(Origin::Unsigned, ADMIN), Err(DispatchError::BadOrigin));
}

#[test]
fn initialises_once() {
    let mut pallet = Pallet::new(config());
    assert!(!pallet.initialised);
    assert_eq!(pallet.account_id(), BRIDGE);
    assert_eq!(pallet.initialize(), Ok(()));
    assert!(pallet.initialised);
    assert_eq!(pallet.admin, ADMIN);
    assert_eq!(pallet.initialize(), Err(refused(Error::AlreadyInitialised)));
    assert_eq!(pallet.admin, ADMIN);
}

#[test]
fn anchors_of_size_zero_do_not_exist() {
    let mut pallet = bridge();
    assert_eq!(pallet.get_anchor_info(3), Ok(AnchorInfo { size: 100, currency_id: 5 }));
    assert_eq!(pallet.get_anchor_info(4), Err(refused(Error::NoAnchorForId)));
    pallet.anchors.insert(4, AnchorInfo { size: 0, currency_id: 5 });
    assert_eq!(pallet.get_anchor_info(4), Err(refused(Error::NoAnchorForId)));
}

#[test]
fn next_free_id_skips_taken_ids() {
    assert_eq!(next_free_id(50, &vec![]), Some(51));
    assert_eq!(next_free_id(50, &vec![51, 52, 54]), Some(53));
    assert_eq!(next_free_id(50, &vec![52, 49, 50]), Some(51));
    assert_eq!(next_free_id(u64::MAX, &vec![]), None);
    assert_eq!(next_free_id(u64::MAX - 1, &vec![u64::MAX]), None);
    assert_eq!(next_free_id(u64::MAX - 1, &vec![]), Some(u64::MAX));
}

#[test]
fn wrapping_a_registered_currency() {
    let pallet = bridge();
    assert_eq!(
        pallet.wrap(Origin::Signed(ALICE), 5, 30, true, Some(51)),
        Ok(vec![
            Action::Transfer { currency_id: 5, from: ALICE, to: BRIDGE, amount: 30 },
            Action::Mint { currency_id: 50, to: ALICE, amount: 30 },
        ])
    );
    assert_eq!(pallet.wrap(Origin::Root, 5, 30, true, Some(51)), Err(DispatchError::BadOrigin));
    assert_eq!(
        pallet.wrap(Origin::Signed(ALICE), 5, 30, false, Some(51)),
        Err(refused(Error::NoneValue))
    );
}

#[test]
fn wrapping_an_unregistered_currency() {
    let mut pallet = bridge();
    assert_eq!(
        pallet.wrap(Origin::Signed(ALICE), 6, 30, true, Some(51)),
        Ok(vec![
            Action::CreateToken { currency_id: 51, owner: BRIDGE, admin: BRIDGE, min_balance: 1 },
            Action::RegisterUnwrapTarget { wrapped: 51, target: 6 },
        ])
    );
    // the native currency need not exist as a token
    assert_eq!(
        pallet.wrap(Origin::Signed(ALICE), 0, 30, false, Some(51)),
        Ok(vec![
            Action::CreateToken { currency_id: 51, owner: BRIDGE, admin: BRIDGE, min_balance: 1 },
            Action::RegisterUnwrapTarget { wrapped: 51, target: 0 },
        ])
    );
    assert_eq!(pallet.wrap(Origin::Signed(ALICE), 6, 30, true, None), Ok(vec![]));
    pallet.last_token_id = None;
    assert_eq!(pallet.wrap(Origin::Signed(ALICE), 6, 30, true, Some(51)), Ok(vec![]));
    assert_eq!(pallet.wrap_plan(ALICE, 6, 30, Some(51)), vec![]);
}

#[test]
fn unwrap_targets_are_recorded() {
    let mut pallet = bridge();
    pallet.register_unwrap_target(50, 6);
    pallet.register_unwrap_target(51, 6);
    assert_eq!(pallet.reverse_wrapped_token_registry.get(&50), Some(&vec![5, 6]));
    assert_eq!(pallet.reverse_wrapped_token_registry.get(&51), Some(&vec![6]));
    assert_eq!(pallet.reverse_wrapped_token_registry.len(), 2);
}

#[test]
fn unwrapping() {
    let pallet = bridge();
    assert_eq!(
        pallet.unwrap(Origin::Signed(ALICE), 50, 5, 30, true),
        Ok(vec![
            Action::Transfer { currency_id: 5, from: BRIDGE, to: ALICE, amount: 30 },
            Action::Burn { currency_id: 50, from: ALICE, amount: 30 },
        ])
    );
    assert_eq!(pallet.unwrap(Origin::Unsigned, 50, 5, 30, true), Err(DispatchError::BadOrigin));
    assert_eq!(
        pallet.unwrap(Origin::Signed(ALICE), 50, 5, 30, false),
        Err(refused(Error::NoneValue))
    );
    // not a wrapped token
    assert_eq!(pallet.unwrap(Origin::Signed(ALICE), 5, 5, 30, true), Err(refused(Error::NoneValue)));
    // does not wrap the currency
    assert_eq!(pallet.unwrap(Origin::Signed(ALICE), 50, 6, 30, true), Err(refused(Error::NoneValue)));
}

#[test]
fn depositing() {
    let pallet = bridge();
    let leaf = [9u8; 32];
    assert_eq!(
        pallet.deposit(Origin::Signed(ALICE), 3, leaf, false, true, 100, 1),
        Ok(vec![
            Action::Transfer { currency_id: 5, from: ALICE, to: BRIDGE, amount: 100 },
            Action::AddMembers { manager: BRIDGE, tree_id: 3, leaf },
            Action::Emit(Event::Deposit(3, ALICE, 100)),
        ])
    );
    assert_eq!(
        pallet.deposit(Origin::Signed(ALICE), 3, leaf, false, true, 99, 1),
        Err(refused(Error::InsufficientBalance))
    );
}

#[test]
fn deposit_refusals_come_in_order() {
    let mut pallet = Pallet::new(config());
    let leaf = [9u8; 32];
    assert_eq!(pallet.deposit(Origin::Root, 3, leaf, true, false, 0, 1), Err(DispatchError::BadOrigin));
    assert_eq!(
        pallet.deposit(Origin::Signed(ALICE), 3, leaf, true, false, 0, 1),
        Err(refused(Error::NotInitialised))
    );
    pallet.initialize().unwrap();
    assert_eq!(
        pallet.deposit(Origin::Signed(ALICE), 3, leaf, true, false, 0, 1),
        Err(refused(Error::AnchorStopped))
    );
    assert_eq!(
        pallet.deposit(Origin::Signed(ALICE), 3, leaf, false, false, 0, 1),
        Err(refused(Error::NoAnchorForId))
    );
    pallet.anchors.insert(3, AnchorInfo { size: 100, currency_id: 5 });
    assert_eq!(
        pallet.deposit(Origin::Signed(ALICE), 3, leaf, false, false, 0, 1),
        Err(refused(Error::NoneValue))
    );
    assert_eq!(
        pallet.deposit(Origin::Signed(ALICE), 3, leaf, false, true, 0, 1),
        Err(refused(Error::NoneValue))
    );
    pallet.wrapped_token_registry.insert(5, 50);
    assert_eq!(
        pallet.deposit(Origin::Signed(ALICE), 3, leaf, false, true, 0, 1),
        Err(refused(Error::InsufficientBalance))
    );
    assert_eq!(
        pallet.deposit(Origin::Signed(ALICE), 3, leaf, false, true, 100, 0),
        Err(DispatchError::Tree(MerkleError::ExceedsMaxLeaves))
    );
    assert_eq!(
        pallet.deposit(Origin::Signed(ALICE), 3, leaf, false, true, 99, 0),
        Err(refused(Error::InsufficientBalance))
    );
    assert!(pallet.deposit(Origin::Signed(ALICE), 3, leaf, false, true, 100, 1).is_ok());
    assert_eq!(
        pallet.deposit_into(ALICE, 4, leaf, true, 100, 1),
        Err(refused(Error::NoAnchorForId))
    );
}

#[test]
fn wrapping_and_depositing() {
    let pallet = bridge();
    assert_eq!(
        pallet.wrap_and_deposit(Origin::Signed(ALICE), 5, 3, Some(51), 1),
        Ok(vec![
            Action::Transfer { currency_id: 5, from: ALICE, to: BRIDGE, amount: 100 },
            Action::Mint { currency_id: 50, to: ALICE, amount: 100 },
        ])
    );
    assert_eq!(
        pallet.wrap_and_deposit(Origin::Signed(ALICE), 5, 4, Some(51), 1),
        Err(refused(Error::NoAnchorForId))
    );
    assert_eq!(
        Pallet::new(config()).wrap_and_deposit(Origin::Signed(ALICE), 5, 3, Some(51), 1),
        Err(refused(Error::NotInitialised))
    );
    assert_eq!(
        pallet.wrap_and_deposit(Origin::Unsigned, 5, 3, Some(51), 1),
        Err(DispatchError::BadOrigin)
    );
    assert_eq!(
        pallet.wrap_and_deposit(Origin::Signed(ALICE), 5, 3, Some(51), 0),
        Err(DispatchError::Tree(MerkleError::ExceedsMaxLeaves))
    );
}

#[test]
fn stopping_is_for_the_administrator() {
    let pallet = bridge();
    let expected = vec![
        Action::SetStopped { manager: BRIDGE, tree_id: 3, stopped: true },
        Action::SetStopped { manager: BRIDGE, tree_id: 4, stopped: true },
    ];
    assert_eq!(pallet.set_stopped(Origin::Root, true), Ok(expected.clone()));
    assert_eq!(pallet.set_stopped(Origin::Signed(ADMIN), true), Ok(expected));
    assert_eq!(pallet.set_stopped(Origin::Signed(ALICE), true), Err(DispatchError::BadOrigin));
    assert_eq!(
        pallet.set_stopped(Origin::Root, false),
        Ok(vec![
            Action::SetStopped { manager: BRIDGE, tree_id: 3, stopped: false },
            Action::SetStopped { manager: BRIDGE, tree_id: 4, stopped: false },
        ])
    );
}

#[test]
fn administrator_is_handed_over() {
    let mut pallet = bridge();
    assert_eq!(pallet.transfer_admin(Origin::Signed(ALICE), ALICE), Err(DispatchError::BadOrigin));
    assert_eq!(pallet.admin, ADMIN);
    assert_eq!(pallet.transfer_admin(Origin::Signed(ADMIN), ALICE), Ok(()));
    assert_eq!(pallet.admin, ALICE);
    assert_eq!(pallet.transfer_admin(Origin::Signed(ADMIN), ADMIN), Err(DispatchError::BadOrigin));
    assert_eq!(pallet.transfer_admin(Origin::Root, ADMIN), Ok(()));
    assert_eq!(pallet.admin, ADMIN);
}

#[test]
fn other_calls_need_a_signer_and_an_initialised_bridge() {
    let fresh = Pallet::new(config());
    let pallet = bridge();
    let proof = vec![1u8, 2, 3];
    let signed = Origin::Signed(ALICE);
    assert_eq!(pallet.withdraw_zk(signed, 3, &proof), Ok(()));
    assert_eq!(pallet.withdraw_public(signed, 3, &proof), Ok(()));
    assert_eq!(pallet.withdraw_zk_and_unwrap(signed, 3, &proof), Ok(()));
    assert_eq!(pallet.withdraw_public_and_unwrap(signed, 3, &proof), Ok(()));
    assert_eq!(pallet.remix_zk(signed, 3, &proof, [0u8; 32]), Ok(()));
    assert_eq!(pallet.remix_public(signed, 3, &proof, [0u8; 32]), Ok(()));
    assert_eq!(pallet.create_new(signed, 5, 100, 0), Ok(()));
    assert_eq!(pallet.add_anchor_root(signed, 3, 1, [0u8; 32], 0), Ok(()));
    assert_eq!(pallet.remove_anchor_root(signed, 3, 1, 0), Ok(()));
    assert_eq!(pallet.set_fee(signed, 3, 1, 0), Ok(()));
    assert_eq!(pallet.set_multi_party_key(signed, 3, [0u8; 32], 0), Ok(()));
    assert_eq!(pallet.register(signed, [0u8; 32]), Ok(()));
    assert_eq!(pallet.withdraw_zk(Origin::Root, 3, &proof), Err(DispatchError::BadOrigin));
    assert_eq!(pallet.register(Origin::Unsigned, [0u8; 32]), Err(DispatchError::BadOrigin));
    assert_eq!(fresh.withdraw_zk(signed, 3, &proof), Err(refused(Error::NotInitialised)));
    assert_eq!(fresh.create_new(signed, 5, 100, 0), Err(refused(Error::NotInitialised)));
    assert_eq!(fresh.withdraw_zk(Origin::Root, 3, &proof), Err(DispatchError::BadOrigin));
    assert!(Pallet::validate_signature(0));
}
