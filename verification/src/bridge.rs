//! The rules of the bridge: who may call what, in which state, and what the
//! ledger is then asked to do.
//!
//! The bridge keeps its own records (anchors, token registries, the
//! administrator) and decides. It does not move funds or touch trees
//! itself: each call takes what was observed of the ledger as plain values
//! and returns the actions for the ledger, in the order in which they are to
//! be carried out. An action that fails ends the call; the actions after it
//! are not carried out.

use crate::merkle::MerkleError;
use std::collections::HashMap;
use vstd::prelude::*;
use vstd::std_specs::hash::*;

verus! {

broadcast use vstd::std_specs::hash::group_hash_axioms;

pub type AccountId = u64;

pub type Balance = u128;

pub type CurrencyId = u64;

pub type TreeId = u32;

pub type ChainId = u32;

/// Who makes a call.
#[derive(Clone, Copy, Debug, PartialEq, Eq, Structural)]
pub enum Origin {
    Root,
    Signed(AccountId),
    Unsigned,
}

/// Why the bridge refused a call.
#[derive(Clone, Copy, Debug, PartialEq, Eq, Structural)]
pub enum Error {
    /// Value was None.
    NoneValue,
    /// Anchor not found for specified id.
    NoAnchorForId,
    /// Anchor is not initialized.
    NotInitialised,
    /// Anchor is already initialized.
    AlreadyInitialised,
    /// User doesn't have enough balance for the deposit.
    InsufficientBalance,
    /// Caller doesn't have permission to make a call.
    UnauthorizedCall,
    /// Anchor is stopped.
    AnchorStopped,
}

/// Why a call failed: the origin may not make it, the bridge refused it,
/// or the tree of the anchor could not take what the call would append.
#[derive(Clone, Copy, Debug, PartialEq, Eq, Structural)]
pub enum DispatchError {
    BadOrigin,
    Module(Error),
    Tree(MerkleError),
}

/// The deposit size and the currency of an anchor. An anchor of size zero
/// does not exist.
#[derive(Clone, Copy, Debug, PartialEq, Eq, Structural)]
pub struct AnchorInfo {
    pub size: Balance,
    pub currency_id: CurrencyId,
}

/// What the bridge announces.
#[derive(Clone, Debug, PartialEq, Eq)]
pub enum Event {
    /// New deposit added to the specific bridge anchor: the anchor, the
    /// sender, the deposit size.
    Deposit(TreeId, AccountId, Balance),
    /// Withdrawal from the specific bridge anchor: the anchor, the sender,
    /// the recipient, the relayer, the Merkle root.
    Withdraw(TreeId, AccountId, AccountId, AccountId, Vec<u8>),
}

/// What the ledger is asked to do.
#[derive(Clone, Debug, PartialEq, Eq)]
pub enum Action {
    /// Move `amount` of a currency from one account to another.
    Transfer { currency_id: CurrencyId, from: AccountId, to: AccountId, amount: Balance },
    /// Mint `amount` of a wrapped token to an account.
    Mint { currency_id: CurrencyId, to: AccountId, amount: Balance },
    /// Burn `amount` of a wrapped token of an account.
    Burn { currency_id: CurrencyId, from: AccountId, amount: Balance },
    /// Create a token owned and administered by the bridge.
    CreateToken { currency_id: CurrencyId, owner: AccountId, admin: AccountId, min_balance: Balance },
    /// Record in the bridge that a wrapped token can be unwrapped into a
    /// currency.
    RegisterUnwrapTarget { wrapped: CurrencyId, target: CurrencyId },
    /// Append a leaf to the tree of an anchor.
    AddMembers { manager: AccountId, tree_id: TreeId, leaf: [u8; 32] },
    /// Stop or start the tree of an anchor.
    SetStopped { manager: AccountId, tree_id: TreeId, stopped: bool },
    /// Announce an event.
    Emit(Event),
}

/// The constants of a bridge.
#[derive(Clone, Copy, Debug, PartialEq, Eq, Structural)]
pub struct Config {
    /// The account that holds the funds of the bridge.
    pub pallet_account: AccountId,
    /// Native currency id.
    pub native_currency_id: CurrencyId,
    /// Default admin key.
    pub default_admin: AccountId,
}

/// The records of the bridge.
pub struct Pallet {
    pub config: Config,
    /// The map of merkle tree ids to their anchor metadata.
    pub anchors: HashMap<TreeId, AnchorInfo>,
    /// The vector of tree ids on the bridge.
    pub bridge_tree_ids: Vec<TreeId>,
    /// Flag indicating if the bridge is initialized.
    pub initialised: bool,
    /// Most recent wrapped token id.
    pub last_token_id: Option<CurrencyId>,
    /// Mapping of tokens to their wrapped token ids.
    pub wrapped_token_registry: HashMap<CurrencyId, CurrencyId>,
    /// Mapping of wrapped tokens to the tokens they unwrap into.
    pub reverse_wrapped_token_registry: HashMap<CurrencyId, Vec<CurrencyId>>,
    /// Administrator of the bridge, who can stop and start it.
    pub admin: AccountId,
}

/// The account of a signed origin.
pub open spec fn signer_of(origin: Origin) -> Result<AccountId, DispatchError> {
    match origin {
        Origin::Signed(account) => Ok(account),
        _ => Err(DispatchError::BadOrigin),
    }
}

/// The account that signed the call; `BadOrigin` for any other origin.
pub fn ensure_signed(origin: Origin) -> (r: Result<AccountId, DispatchError>)
    ensures
        r == signer_of(origin),
{
    match origin {
        Origin::Signed(account) => Ok(account),
        _ => Err(DispatchError::BadOrigin),
    }
}

/// Whether the origin is the root or the administrator.
pub open spec fn is_admin(origin: Origin, admin: AccountId) -> bool {
    origin == Origin::Root || origin == Origin::Signed(admin)
}

/// Lets the root and the administrator pass; `BadOrigin` for any other
/// origin.
pub fn ensure_admin(origin: Origin, admin: AccountId) -> (r: Result<(), DispatchError>)
    ensures
        r.is_ok() <==> is_admin(origin, admin),
        r matches Err(e) ==> e == DispatchError::BadOrigin,
{
    match origin {
        Origin::Root => Ok(()),
        Origin::Signed(account) => {
            if account == admin {
                Ok(())
            } else {
                Err(DispatchError::BadOrigin)
            }
        },
        Origin::Unsigned => Err(DispatchError::BadOrigin),
    }
}

/// The first id after `last` that is not taken, if there is one.
pub open spec fn is_next_free_id(last: CurrencyId, taken: Seq<CurrencyId>, id: CurrencyId) -> bool {
    &&& last < id
    &&& !taken.contains(id)
    &&& forall|other: CurrencyId| last < other < id ==> taken.contains(other)
}

/// Whether `id` is among `ids`.
fn contains_id(ids: &Vec<CurrencyId>, id: CurrencyId) -> (r: bool)
    ensures
        r == ids@.contains(id),
{
    let mut k: usize = 0;
    while k < ids.len()
        invariant
            k <= ids.len(),
            forall|i: int| 0 <= i < k ==> ids@[i] != id,
        decreases ids.len() - k,
    {
        if ids[k] == id {
            return true;
        }
        k += 1;
    }
    false
}

/// The id for a new wrapped token: the first id after `last` that no
/// existing token has; `None` when every later id is taken.
pub fn next_free_id(last: CurrencyId, taken: &Vec<CurrencyId>) -> (r: Option<CurrencyId>)
    ensures
        r matches Some(id) ==> is_next_free_id(last, taken@, id),
        r is None ==> forall|other: CurrencyId| last < other ==> taken@.contains(other),
{
    if last == u64::MAX {
        return None;
    }
    let mut temp_id = last + 1;
    while contains_id(taken, temp_id)
        invariant
            last < temp_id,
            forall|other: CurrencyId| last < other < temp_id ==> taken@.contains(other),
        decreases u64::MAX - temp_id,
    {
        if temp_id == u64::MAX {
            return None;
        }
        temp_id = temp_id + 1;
    }
    Some(temp_id)
}

impl Pallet {
    /// A bridge that has not been initialised.
    pub fn new(config: Config) -> (r: Pallet)
        ensures
            r.config == config,
            !r.initialised,
            r.last_token_id.is_none(),
            r.anchors@ == Map::<TreeId, AnchorInfo>::empty(),
            r.wrapped_token_registry@ == Map::<CurrencyId, CurrencyId>::empty(),
            r.reverse_wrapped_token_registry@ == Map::<CurrencyId, Vec<CurrencyId>>::empty(),
            r.bridge_tree_ids@ == Seq::<TreeId>::empty(),
    {
        Pallet {
            config,
            anchors: HashMap::new(),
            bridge_tree_ids: Vec::new(),
            initialised: false,
            last_token_id: None,
            wrapped_token_registry: HashMap::new(),
            reverse_wrapped_token_registry: HashMap::new(),
            admin: 0,
        }
    }

    /// The account that holds the funds of the bridge.
    pub fn account_id(&self) -> (r: AccountId)
        ensures
            r == self.config.pallet_account,
    {
        self.config.pallet_account
    }

    /// The anchor of a tree, as recorded; an anchor that was never recorded
    /// has size zero.
    pub open spec fn anchor_of(&self, tree_id: TreeId) -> AnchorInfo {
        if self.anchors@.contains_key(tree_id) {
            self.anchors@[tree_id]
        } else {
            AnchorInfo { size: 0, currency_id: 0 }
        }
    }

    /// The anchor of a tree; `NoAnchorForId` when its deposit size is zero,
    /// which means that there is no anchor for the id.
    pub fn get_anchor_info(&self, tree_id: TreeId) -> (r: Result<AnchorInfo, DispatchError>)
        ensures
            r == if self.anchor_of(tree_id).size > 0 {
                Ok::<AnchorInfo, DispatchError>(self.anchor_of(tree_id))
            } else {
                Err::<AnchorInfo, DispatchError>(DispatchError::Module(Error::NoAnchorForId))
            },
    {
        let anchor_info = match self.anchors.get(&tree_id) {
            Some(info) => *info,
            None => AnchorInfo { size: 0, currency_id: 0 },
        };
        if anchor_info.size > 0 {
            Ok(anchor_info)
        } else {
            Err(DispatchError::Module(Error::NoAnchorForId))
        }
    }

    /// Initialises the bridge with the default administrator;
    /// `AlreadyInitialised` when that has been done.
    pub fn initialize(&mut self) -> (r: Result<(), DispatchError>)
        ensures
            r.is_ok() <==> !old(self).initialised,
            r matches Err(e) ==> e == DispatchError::Module(Error::AlreadyInitialised),
            r.is_err() ==> *final(self) == *old(self),
            r.is_ok() ==> *final(self) == (Pallet {
                admin: old(self).config.default_admin,
                initialised: true,
                ..*old(self)
            }),
    {
        if self.initialised {
            return Err(DispatchError::Module(Error::AlreadyInitialised));
        }
        self.admin = self.config.default_admin;
        self.initialised = true;
        Ok(())
    }

    /// The actions of wrapping: for a currency with a wrapped token, the
    /// amount goes to the bridge and the same amount of the wrapped token
    /// is minted; for a currency without one, a token with the next free id
    /// is created and recorded as unwrapping into the currency, provided
    /// that a wrapped token has been created before and an id is free.
    pub open spec fn wrap_actions(
        &self,
        account_id: AccountId,
        currency_id: CurrencyId,
        amount: Balance,
        new_id: Option<CurrencyId>,
    ) -> Seq<Action> {
        if self.wrapped_token_registry@.contains_key(currency_id) {
            seq![
                Action::Transfer {
                    currency_id,
                    from: account_id,
                    to: self.config.pallet_account,
                    amount,
                },
                Action::Mint {
                    currency_id: self.wrapped_token_registry@[currency_id],
                    to: account_id,
                    amount,
                },
            ]
        } else if self.last_token_id.is_some() && new_id.is_some() {
            seq![
                Action::CreateToken {
                    currency_id: new_id->0,
                    owner: self.config.pallet_account,
                    admin: self.config.pallet_account,
                    min_balance: 1,
                },
                Action::RegisterUnwrapTarget { wrapped: new_id->0, target: currency_id },
            ]
        } else {
            Seq::empty()
        }
    }

    /// What `wrap` returns, given the id that is free for a new token.
    pub open spec fn wrap_outcome(
        &self,
        origin: Origin,
        currency_id: CurrencyId,
        amount: Balance,
        token_exists: bool,
        new_id: Option<CurrencyId>,
    ) -> Result<Seq<Action>, DispatchError> {
        match signer_of(origin) {
            Err(e) => Err(e),
            Ok(sender) => if !(token_exists || currency_id == self.config.native_currency_id) {
                Err(DispatchError::Module(Error::NoneValue))
            } else {
                Ok(self.wrap_actions(sender, currency_id, amount, new_id))
            },
        }
    }

    /// Wraps an amount of a currency. `token_exists` says whether the
    /// ledger knows the currency, `new_id` is the id that is free for a new
    /// wrapped token, as `next_free_id` finds it.
    pub fn wrap(
        &self,
        origin: Origin,
        currency_id: CurrencyId,
        amount: Balance,
        token_exists: bool,
        new_id: Option<CurrencyId>,
    ) -> (r: Result<Vec<Action>, DispatchError>)
        ensures
            match self.wrap_outcome(origin, currency_id, amount, token_exists, new_id) {
                Ok(actions) => r matches Ok(v) && v@ == actions,
                Err(e) => r == Err::<Vec<Action>, DispatchError>(e),
            },
    {
        let sender = match ensure_signed(origin) {
            Ok(sender) => sender,
            Err(e) => {
                return Err(e);
            },
        };
        if !(token_exists || currency_id == self.config.native_currency_id) {
            return Err(DispatchError::Module(Error::NoneValue));
        }
        Ok(self.wrap_plan(sender, currency_id, amount, new_id))
    }

    /// The actions of wrapping, given the id that is free for a new token.
    pub fn wrap_plan(
        &self,
        account_id: AccountId,
        currency_id: CurrencyId,
        amount: Balance,
        new_id: Option<CurrencyId>,
    ) -> (r: Vec<Action>)
        ensures
            r@ == self.wrap_actions(account_id, currency_id, amount, new_id),
    {
        match self.wrapped_token_registry.get(&currency_id) {
            Some(wrapped_currency_id) => {
                // the currency goes to the bridge, the wrapped token is minted
                let actions = vec![
                    Action::Transfer {
                        currency_id,
                        from: account_id,
                        to: self.config.pallet_account,
                        amount,
                    },
                    Action::Mint { currency_id: *wrapped_currency_id, to: account_id, amount },
                ];
                assert(actions@ =~= self.wrap_actions(account_id, currency_id, amount, new_id));
                actions
            },
            None => {
                match (self.last_token_id, new_id) {
                    (Some(_), Some(temp_id)) => {
                        let actions = vec![
                            Action::CreateToken {
                                currency_id: temp_id,
                                owner: self.config.pallet_account,
                                admin: self.config.pallet_account,
                                min_balance: 1,
                            },
                            Action::RegisterUnwrapTarget { wrapped: temp_id, target: currency_id },
                        ];
                        assert(actions@ =~= self.wrap_actions(
                            account_id,
                            currency_id,
                            amount,
                            new_id,
                        ));
                        actions
                    },
                    _ => Vec::new(),
                }
            },
        }
    }

    /// The currencies that a wrapped token can be unwrapped into, in the
    /// order in which they were recorded; none for a token that is not a
    /// wrapped token.
    pub open spec fn unwrap_targets(&self, wrapped: CurrencyId) -> Seq<CurrencyId> {
        if self.reverse_wrapped_token_registry@.contains_key(wrapped) {
            self.reverse_wrapped_token_registry@[wrapped]@
        } else {
            Seq::empty()
        }
    }

    /// Records that a wrapped token can be unwrapped into a currency.
    pub fn register_unwrap_target(&mut self, wrapped: CurrencyId, target: CurrencyId)
        ensures
            final(self).unwrap_targets(wrapped) == old(self).unwrap_targets(wrapped).push(target),
            forall|other: CurrencyId|
                other != wrapped ==> final(self).unwrap_targets(other) == old(self).unwrap_targets(
                    other,
                ),
            final(self).config == old(self).config,
            final(self).anchors == old(self).anchors,
            final(self).bridge_tree_ids == old(self).bridge_tree_ids,
            final(self).initialised == old(self).initialised,
            final(self).last_token_id == old(self).last_token_id,
            final(self).wrapped_token_registry == old(self).wrapped_token_registry,
            final(self).admin == old(self).admin,
    {
        let ghost before = self.reverse_wrapped_token_registry@;
        let mut unwrapping_targets: Vec<CurrencyId> =
            match self.reverse_wrapped_token_registry.remove(&wrapped) {
            Some(targets) => targets,
            None => Vec::new(),
        };
        assert(unwrapping_targets@ =~= old(self).unwrap_targets(wrapped));
        unwrapping_targets.push(target);
        self.reverse_wrapped_token_registry.insert(wrapped, unwrapping_targets);
        assert forall|other: CurrencyId| other != wrapped implies self.unwrap_targets(other)
            == old(self).unwrap_targets(other) by {
            assert(self.reverse_wrapped_token_registry@.contains_key(other)
                == before.contains_key(other));
        }
    }

    /// What `unwrap` returns.
    pub open spec fn unwrap_outcome(
        &self,
        origin: Origin,
        currency_id: CurrencyId,
        into_currency_id: CurrencyId,
        amount: Balance,
        token_exists: bool,
    ) -> Result<Seq<Action>, DispatchError> {
        match signer_of(origin) {
            Err(e) => Err(e),
            Ok(sender) => if !(token_exists || currency_id == self.config.native_currency_id) {
                Err(DispatchError::Module(Error::NoneValue))
            } else if !self.unwrap_targets(currency_id).contains(into_currency_id) {
                Err(DispatchError::Module(Error::NoneValue))
            } else {
                Ok(
                    seq![
                        Action::Transfer {
                            currency_id: into_currency_id,
                            from: self.config.pallet_account,
                            to: sender,
                            amount,
                        },
                        Action::Burn { currency_id, from: sender, amount },
                    ],
                )
            },
        }
    }

    /// Unwraps an amount of a wrapped token into one of the currencies it
    /// wraps: the amount of that currency goes from the bridge to the
    /// sender and the same amount of the wrapped token is burnt.
    /// `NoneValue` unless the token exists, is a wrapped token, and wraps
    /// the currency.
    pub fn unwrap(
        &self,
        origin: Origin,
        currency_id: CurrencyId,
        into_currency_id: CurrencyId,
        amount: Balance,
        token_exists: bool,
    ) -> (r: Result<Vec<Action>, DispatchError>)
        ensures
            match self.unwrap_outcome(origin, currency_id, into_currency_id, amount, token_exists) {
                Ok(actions) => r matches Ok(v) && v@ == actions,
                Err(e) => r == Err::<Vec<Action>, DispatchError>(e),
            },
    {
        let sender = match ensure_signed(origin) {
            Ok(sender) => sender,
            Err(e) => {
                return Err(e);
            },
        };
        // ensure token exists
        if !(token_exists || currency_id == self.config.native_currency_id) {
            return Err(DispatchError::Module(Error::NoneValue));
        }
        // ensure token is a wrapped token
        let unwrapped_currency_ids = match self.reverse_wrapped_token_registry.get(&currency_id) {
            Some(ids) => ids,
            None => {
                return Err(DispatchError::Module(Error::NoneValue));
            },
        };
        if !contains_id(unwrapped_currency_ids, into_currency_id) {
            return Err(DispatchError::Module(Error::NoneValue));
        }
        // the currency goes from the bridge to the sender, the wrapped token is burnt
        let actions = vec![
            Action::Transfer {
                currency_id: into_currency_id,
                from: self.config.pallet_account,
                to: sender,
                amount,
            },
            Action::Burn { currency_id, from: sender, amount },
        ];
        assert(actions@ =~= self.unwrap_outcome(
            origin,
            currency_id,
            into_currency_id,
            amount,
            token_exists,
        )->Ok_0);
        Ok(actions)
    }

    /// The actions of a deposit: the deposit size goes to the bridge, the
    /// leaf is appended to the tree of the anchor, and the deposit is
    /// announced.
    pub open spec fn deposit_actions(&self, sender: AccountId, tree_id: TreeId, leaf: [u8; 32]) -> Seq<
        Action,
    > {
        let anchor = self.anchor_of(tree_id);
        seq![
            Action::Transfer {
                currency_id: anchor.currency_id,
                from: sender,
                to: self.config.pallet_account,
                amount: anchor.size,
            },
            Action::AddMembers { manager: self.config.pallet_account, tree_id, leaf },
            Action::Emit(Event::Deposit(tree_id, sender, anchor.size)),
        ]
    }

    /// What `deposit_into` returns.
    pub open spec fn deposit_into_outcome(
        &self,
        account_id: AccountId,
        tree_id: TreeId,
        leaf: [u8; 32],
        token_exists: bool,
        free_balance: Balance,
        free_slots: u64,
    ) -> Result<Seq<Action>, DispatchError> {
        let anchor = self.anchor_of(tree_id);
        if anchor.size == 0 {
            Err(DispatchError::Module(Error::NoAnchorForId))
        } else if !token_exists {
            Err(DispatchError::Module(Error::NoneValue))
        } else if !self.wrapped_token_registry@.contains_key(anchor.currency_id) {
            Err(DispatchError::Module(Error::NoneValue))
        } else if free_balance < anchor.size {
            Err(DispatchError::Module(Error::InsufficientBalance))
        } else if free_slots == 0 {
            Err(DispatchError::Tree(MerkleError::ExceedsMaxLeaves))
        } else {
            Ok(self.deposit_actions(account_id, tree_id, leaf))
        }
    }

    /// What `deposit` returns.
    pub open spec fn deposit_outcome(
        &self,
        origin: Origin,
        tree_id: TreeId,
        leaf: [u8; 32],
        stopped: bool,
        token_exists: bool,
        free_balance: Balance,
        free_slots: u64,
    ) -> Result<Seq<Action>, DispatchError> {
        match signer_of(origin) {
            Err(e) => Err(e),
            Ok(sender) => if !self.initialised {
                Err(DispatchError::Module(Error::NotInitialised))
            } else if stopped {
                Err(DispatchError::Module(Error::AnchorStopped))
            } else {
                self.deposit_into_outcome(
                    sender,
                    tree_id,
                    leaf,
                    token_exists,
                    free_balance,
                    free_slots,
                )
            },
        }
    }

    /// Deposits the size of an anchor from an account and appends a leaf
    /// to the tree of the anchor. `token_exists` says whether the ledger
    /// knows the currency of the anchor, `free_balance` what the account
    /// holds of it, `free_slots` how many leaves the tree of the anchor
    /// can still take. Refused, in this order: with `NoAnchorForId` when
    /// there is no anchor; with `NoneValue` when the currency does not
    /// exist or has no wrapped token; with `InsufficientBalance` when the
    /// account holds less than the deposit size; with `ExceedsMaxLeaves`
    /// of the tree when the tree is full. A deposit that cannot be
    /// completed is thus refused before anything is moved.
    pub fn deposit_into(
        &self,
        account_id: AccountId,
        tree_id: TreeId,
        leaf: [u8; 32],
        token_exists: bool,
        free_balance: Balance,
        free_slots: u64,
    ) -> (r: Result<Vec<Action>, DispatchError>)
        ensures
            match self.deposit_into_outcome(
                account_id,
                tree_id,
                leaf,
                token_exists,
                free_balance,
                free_slots,
            ) {
                Ok(actions) => r matches Ok(v) && v@ == actions,
                Err(e) => r == Err::<Vec<Action>, DispatchError>(e),
            },
    {
        let anchor = match self.get_anchor_info(tree_id) {
            Ok(anchor) => anchor,
            Err(e) => {
                return Err(e);
            },
        };
        // ensure token exists
        if !token_exists {
            return Err(DispatchError::Module(Error::NoneValue));
        }
        // ensure token has a wrapped token
        if self.wrapped_token_registry.get(&anchor.currency_id).is_none() {
            return Err(DispatchError::Module(Error::NoneValue));
        }
        // ensure the account has enough balance to cover the anchor size
        if free_balance < anchor.size {
            return Err(DispatchError::Module(Error::InsufficientBalance));
        }
        // ensure the tree can take the leaf
        if free_slots == 0 {
            return Err(DispatchError::Tree(MerkleError::ExceedsMaxLeaves));
        }
        let actions = vec![
            Action::Transfer {
                currency_id: anchor.currency_id,
                from: account_id,
                to: self.config.pallet_account,
                amount: anchor.size,
            },
            Action::AddMembers { manager: self.config.pallet_account, tree_id, leaf },
            Action::Emit(Event::Deposit(tree_id, account_id, anchor.size)),
        ];
        assert(actions@ =~= self.deposit_actions(account_id, tree_id, leaf));
        Ok(actions)
    }

    /// Deposits the size of an anchor and appends a leaf to its tree, for
    /// the signer of the call. `stopped` says whether the tree is stopped.
    /// Refused with `NotInitialised` before the bridge is initialised, then
    /// with `AnchorStopped` when the tree is stopped, then as
    /// `deposit_into` refuses.
    pub fn deposit(
        &self,
        origin: Origin,
        tree_id: TreeId,
        leaf: [u8; 32],
        stopped: bool,
        token_exists: bool,
        free_balance: Balance,
        free_slots: u64,
    ) -> (r: Result<Vec<Action>, DispatchError>)
        ensures
            match self.deposit_outcome(
                origin,
                tree_id,
                leaf,
                stopped,
                token_exists,
                free_balance,
                free_slots,
            ) {
                Ok(actions) => r matches Ok(v) && v@ == actions,
                Err(e) => r == Err::<Vec<Action>, DispatchError>(e),
            },
    {
        let sender = match ensure_signed(origin) {
            Ok(sender) => sender,
            Err(e) => {
                return Err(e);
            },
        };
        if !self.initialised {
            return Err(DispatchError::Module(Error::NotInitialised));
        }
        if stopped {
            return Err(DispatchError::Module(Error::AnchorStopped));
        }
        self.deposit_into(sender, tree_id, leaf, token_exists, free_balance, free_slots)
    }

    /// What `wrap_and_deposit` returns.
    pub open spec fn wrap_and_deposit_outcome(
        &self,
        origin: Origin,
        currency_id: CurrencyId,
        tree_id: TreeId,
        new_id: Option<CurrencyId>,
        free_slots: u64,
    ) -> Result<Seq<Action>, DispatchError> {
        match signer_of(origin) {
            Err(e) => Err(e),
            Ok(sender) => if !self.initialised {
                Err(DispatchError::Module(Error::NotInitialised))
            } else if self.anchor_of(tree_id).size == 0 {
                Err(DispatchError::Module(Error::NoAnchorForId))
            } else if free_slots == 0 {
                Err(DispatchError::Tree(MerkleError::ExceedsMaxLeaves))
            } else {
                Ok(self.wrap_actions(sender, currency_id, self.anchor_of(tree_id).size, new_id))
            },
        }
    }

    /// The first half of wrapping and depositing: the actions that wrap the
    /// deposit size of the anchor for the signer. When they have been
    /// carried out, `deposit_into` gives the second half, from what the
    /// signer then holds. `free_slots` says how many leaves the tree of the
    /// anchor can still take: when it is full nothing is wrapped, and the
    /// call is refused with `ExceedsMaxLeaves` of the tree.
    pub fn wrap_and_deposit(
        &self,
        origin: Origin,
        currency_id: CurrencyId,
        tree_id: TreeId,
        new_id: Option<CurrencyId>,
        free_slots: u64,
    ) -> (r: Result<Vec<Action>, DispatchError>)
        ensures
            match self.wrap_and_deposit_outcome(origin, currency_id, tree_id, new_id, free_slots) {
                Ok(actions) => r matches Ok(v) && v@ == actions,
                Err(e) => r == Err::<Vec<Action>, DispatchError>(e),
            },
    {
        let sender = match ensure_signed(origin) {
            Ok(sender) => sender,
            Err(e) => {
                return Err(e);
            },
        };
        if !self.initialised {
            return Err(DispatchError::Module(Error::NotInitialised));
        }
        let anchor = match self.get_anchor_info(tree_id) {
            Ok(anchor) => anchor,
            Err(e) => {
                return Err(e);
            },
        };
        if free_slots == 0 {
            return Err(DispatchError::Tree(MerkleError::ExceedsMaxLeaves));
        }
        Ok(self.wrap_plan(sender, currency_id, anchor.size, new_id))
    }

    /// Stops or starts all the anchors of the bridge. Only the root and the
    /// administrator may do so.
    pub fn set_stopped(&self, origin: Origin, stopped: bool) -> (r: Result<Vec<Action>, DispatchError>)
        ensures
            r.is_ok() <==> is_admin(origin, self.admin),
            r matches Err(e) ==> e == DispatchError::BadOrigin,
            r matches Ok(actions) ==> {
                &&& actions@.len() == self.bridge_tree_ids@.len()
                &&& forall|i: int|
                    0 <= i < actions@.len() ==> #[trigger] actions@[i] == (Action::SetStopped {
                        manager: self.config.pallet_account,
                        tree_id: self.bridge_tree_ids@[i],
                        stopped,
                    })
            },
    {
        // Ensure the caller is admin or root
        match ensure_admin(origin, self.admin) {
            Ok(()) => {},
            Err(e) => {
                return Err(e);
            },
        }
        // Set the anchor state, `stopped` can be true or false
        let mut actions: Vec<Action> = Vec::new();
        let mut i: usize = 0;
        while i < self.bridge_tree_ids.len()
            invariant
                i <= self.bridge_tree_ids.len(),
                actions@.len() == i,
                forall|k: int|
                    0 <= k < i ==> #[trigger] actions@[k] == (Action::SetStopped {
                        manager: self.config.pallet_account,
                        tree_id: self.bridge_tree_ids@[k],
                        stopped,
                    }),
            decreases self.bridge_tree_ids.len() - i,
        {
            actions.push(
                Action::SetStopped {
                    manager: self.config.pallet_account,
                    tree_id: self.bridge_tree_ids[i],
                    stopped,
                },
            );
            i += 1;
        }
        Ok(actions)
    }

    /// Makes `to` the administrator. Only the root and the administrator
    /// may do so.
    pub fn transfer_admin(&mut self, origin: Origin, to: AccountId) -> (r: Result<(), DispatchError>)
        ensures
            r.is_ok() <==> is_admin(origin, old(self).admin),
            r matches Err(e) ==> e == DispatchError::BadOrigin && *final(self) == *old(self),
            r.is_ok() ==> *final(self) == (Pallet { admin: to, ..*old(self) }),
    {
        // Ensures that the caller is the root or the current admin
        match ensure_admin(origin, self.admin) {
            Ok(()) => {},
            Err(e) => {
                return Err(e);
            },
        }
        // Updating the admin
        self.admin = to;
        Ok(())
    }

    /// What a call gives that any signed origin may make once the bridge
    /// is initialised, and that asks nothing of the ledger.
    pub open spec fn signed_call_outcome(&self, origin: Origin) -> Result<(), DispatchError> {
        match signer_of(origin) {
            Err(e) => Err(e),
            Ok(_) => if self.initialised {
                Ok(())
            } else {
                Err(DispatchError::Module(Error::NotInitialised))
            },
        }
    }

    /// Checks that the origin is signed and the bridge initialised.
    fn signed_call(&self, origin: Origin) -> (r: Result<(), DispatchError>)
        ensures
            r == self.signed_call_outcome(origin),
    {
        match ensure_signed(origin) {
            Ok(_) => {},
            Err(e) => {
                return Err(e);
            },
        }
        if !self.initialised {
            return Err(DispatchError::Module(Error::NotInitialised));
        }
        Ok(())
    }

    /// A withdrawal by a zero-knowledge proof. The call checks no proof and
    /// moves nothing: it is accepted from any signed origin once the bridge
    /// is initialised. A withdrawal is checked by `mixer::verify_withdrawal`.
    pub fn withdraw_zk(&self, origin: Origin, tree_id: TreeId, proof: &Vec<u8>) -> (r: Result<
        (),
        DispatchError,
    >)
        ensures
            r == self.signed_call_outcome(origin),
    {
        self.signed_call(origin)
    }

    /// A withdrawal by a public proof. The call checks no proof and moves
    /// nothing: it is accepted from any signed origin once the bridge is
    /// initialised.
    pub fn withdraw_public(&self, origin: Origin, tree_id: TreeId, proof: &Vec<u8>) -> (r: Result<
        (),
        DispatchError,
    >)
        ensures
            r == self.signed_call_outcome(origin),
    {
        self.signed_call(origin)
    }

    /// A withdrawal by a zero-knowledge proof, with unwrapping. The call
    /// checks no proof and moves nothing: it is accepted from any signed
    /// origin once the bridge is initialised.
    pub fn withdraw_zk_and_unwrap(&self, origin: Origin, tree_id: TreeId, proof: &Vec<u8>) -> (r:
        Result<(), DispatchError>)
        ensures
            r == self.signed_call_outcome(origin),
    {
        self.signed_call(origin)
    }

    /// A withdrawal by a public proof, with unwrapping. The call checks no
    /// proof and moves nothing: it is accepted from any signed origin once
    /// the bridge is initialised.
    pub fn withdraw_public_and_unwrap(&self, origin: Origin, tree_id: TreeId, proof: &Vec<u8>) -> (r:
        Result<(), DispatchError>)
        ensures
            r == self.signed_call_outcome(origin),
    {
        self.signed_call(origin)
    }

    /// A withdrawal by a zero-knowledge proof whose funds are deposited
    /// again under a new leaf. The call checks no proof and appends no
    /// leaf: it is accepted from any signed origin once the bridge is
    /// initialised.
    pub fn remix_zk(&self, origin: Origin, tree_id: TreeId, proof: &Vec<u8>, leaf: [u8; 32]) -> (r:
        Result<(), DispatchError>)
        ensures
            r == self.signed_call_outcome(origin),
    {
        self.signed_call(origin)
    }

    /// A withdrawal by a public proof whose funds are deposited again under
    /// a new leaf. The call checks no proof and appends no leaf: it is
    /// accepted from any signed origin once the bridge is initialised.
    pub fn remix_public(&self, origin: Origin, tree_id: TreeId, proof: &Vec<u8>, leaf: [u8; 32]) -> (r:
        Result<(), DispatchError>)
        ensures
            r == self.signed_call_outcome(origin),
    {
        self.signed_call(origin)
    }

    /// Asks for a new anchor. The call checks no signature and creates
    /// nothing: it is accepted from any signed origin once the bridge is
    /// initialised.
    pub fn create_new(&self, origin: Origin, currency_id: CurrencyId, size: Balance, sig: u64) -> (r:
        Result<(), DispatchError>)
        ensures
            r == self.signed_call_outcome(origin),
    {
        self.signed_call(origin)
    }

    /// Asks to add the root of an anchor on another chain. The call checks
    /// no signature and records nothing: it is accepted from any signed
    /// origin once the bridge is initialised.
    pub fn add_anchor_root(
        &self,
        origin: Origin,
        tree_id: TreeId,
        chain_id: ChainId,
        root: [u8; 32],
        sig: u64,
    ) -> (r: Result<(), DispatchError>)
        ensures
            r == self.signed_call_outcome(origin),
    {
        self.signed_call(origin)
    }

    /// Asks to remove the root of an anchor on another chain. The call
    /// checks no signature and removes nothing: it is accepted from any
    /// signed origin once the bridge is initialised.
    pub fn remove_anchor_root(&self, origin: Origin, tree_id: TreeId, chain_id: ChainId, sig: u64) -> (r:
        Result<(), DispatchError>)
        ensures
            r == self.signed_call_outcome(origin),
    {
        self.signed_call(origin)
    }

    /// Asks to set the fee of an anchor. The call checks no signature and
    /// sets nothing: it is accepted from any signed origin once the bridge
    /// is initialised.
    pub fn set_fee(&self, origin: Origin, tree_id: TreeId, new_fee: Balance, sig: u64) -> (r: Result<
        (),
        DispatchError,
    >)
        ensures
            r == self.signed_call_outcome(origin),
    {
        self.signed_call(origin)
    }

    /// Asks to set the key of the parties that govern an anchor. The call
    /// checks no signature and sets nothing: it is accepted from any signed
    /// origin once the bridge is initialised.
    pub fn set_multi_party_key(&self, origin: Origin, tree_id: TreeId, new_key: [u8; 32], sig: u64) -> (r:
        Result<(), DispatchError>)
        ensures
            r == self.signed_call_outcome(origin),
    {
        self.signed_call(origin)
    }

    /// Registers a share of the threshold key. The call checks and records
    /// nothing: it is accepted from any signed origin once the bridge is
    /// initialised.
    pub fn register(&self, origin: Origin, threshold_key_share: [u8; 32]) -> (r: Result<
        (),
        DispatchError,
    >)
        ensures
            r == self.signed_call_outcome(origin),
    {
        self.signed_call(origin)
    }

    /// Every signature is accepted: none is checked.
    pub fn validate_signature(sig: u64) -> (r: bool)
        ensures
            r,
    {
        true
    }
}

} // verus!
