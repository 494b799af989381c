//! What a wallet decides when it builds a transaction from the coins it was
//! offered and when it reads what became of one.

use vstd::prelude::*;
use crate::ids::{Address, AssetId, Bytes32, ContractId, TxId, UtxoRef};
use crate::status::TxStatus;
use crate::transaction::Output;

verus! {

/// The amount set aside to cover the cost of a simple transaction. It is
/// also the gas limit of the transactions a wallet builds.
pub const BASE_AMOUNT: u64 = 10_000;

/// The gas price of the transactions a wallet builds.
pub const GAS_PRICE: u64 = 1;

/// A coin held on the ledger.
#[derive(Clone, Copy, Debug, PartialEq, Eq)]
pub struct Coin {
    /// The output that the coin is.
    pub utxo_id: UtxoRef,
    /// What it is worth.
    pub amount: u64,
    /// The asset it is denominated in.
    pub asset_id: AssetId,
    /// The height from which it may be spent.
    pub maturity: u32,
}

/// Something the node offers for spending.
#[derive(Clone, Copy, Debug, PartialEq, Eq)]
pub enum CoinType {
    /// A coin.
    Coin(Coin),
    /// Anything else, such as a message; a wallet does not spend it.
    Other,
}

/// One slot of the storage that a contract starts with.
#[derive(Clone, Copy, Debug, PartialEq, Eq)]
pub struct StorageSlot {
    pub key: Bytes32,
    pub value: Bytes32,
}

/// The root of the storage that a contract starts with: the root of the
/// sparse Merkle tree over its slots.
pub uninterp spec fn state_root_of(slots: Seq<StorageSlot>) -> Bytes32;

/// Computes the initial state root with `fuel_tx::Contract::initial_state_root`.
/// Nothing is proved of it; it is taken to depend on the slots alone.
#[verifier::external_body]
fn initial_state_root(slots: &Vec<StorageSlot>) -> (r: Bytes32)
    ensures
        r == state_root_of(slots@),
{
    let slots: Vec<fuel_core_types::fuel_tx::StorageSlot> = slots
        .iter()
        .map(|slot| fuel_core_types::fuel_tx::StorageSlot::new(slot.key.bytes.into(), slot.value.bytes.into()))
        .collect();
    Bytes32 { bytes: fuel_core_types::fuel_tx::Contract::initial_state_root(slots.iter()).into() }
}

/// The address that owns what is locked to the public key of a secret key:
/// the hash of that public key. `None` for bytes that are no secret key.
pub uninterp spec fn owner_of_secret(secret: Seq<u8>) -> Option<Address>;

/// Derives the owner's address with `fuel_tx::Input::owner`, from the public
/// key that `fuel_crypto` derives for the secret key. Nothing is proved of it;
/// it is taken to depend on the bytes of the secret alone.
#[verifier::external_body]
fn owner_address(secret: &[u8; 32]) -> (r: Option<Address>)
    ensures
        r == owner_of_secret(secret@),
{
    let secret = fuel_core_types::fuel_crypto::SecretKey::try_from(&secret[..]).ok()?;
    let public_key = fuel_core_types::fuel_crypto::PublicKey::from(&secret);
    Some(Bytes32 { bytes: fuel_core_types::fuel_tx::Input::owner(&public_key).into() })
}

/// The coins among what was offered, in order.
pub open spec fn coins_of(offered: Seq<CoinType>) -> Seq<Coin>
    decreases offered.len(),
{
    if offered.len() == 0 {
        Seq::empty()
    } else {
        let rest = coins_of(offered.drop_last());
        match offered.last() {
            CoinType::Coin(coin) => rest.push(coin),
            CoinType::Other => rest,
        }
    }
}

/// Whether one of the coins is the output `utxo_id`.
pub open spec fn lists_coin(page: Seq<Coin>, utxo_id: UtxoRef) -> bool {
    exists|i: int| 0 <= i < page.len() && (#[trigger] page[i]).utxo_id == utxo_id
}

/// A transaction that is ready to be signed: its price and limit, the coins
/// it spends and the outputs it produces.
#[derive(Debug, PartialEq, Eq)]
pub struct Draft {
    pub gas_price: u64,
    pub gas_limit: u64,
    pub inputs: Vec<Coin>,
    pub outputs: Vec<Output>,
}

/// The mathematical content of a [`Draft`].
pub struct DraftView {
    pub gas_price: u64,
    pub gas_limit: u64,
    pub inputs: Seq<Coin>,
    pub outputs: Seq<Output>,
}

impl View for Draft {
    type V = DraftView;

    open spec fn view(&self) -> DraftView {
        DraftView {
            gas_price: self.gas_price,
            gas_limit: self.gas_limit,
            inputs: self.inputs@,
            outputs: self.outputs@,
        }
    }
}

/// What a search through the pages of a wallet's coins does next.
#[derive(Clone, Copy, Debug, PartialEq, Eq, Structural)]
pub enum Scan {
    /// The coin is on this page.
    Found,
    /// The coin is not on this page; there may be further pages.
    NextPage,
    /// The page is empty: the coin is not there.
    Exhausted,
}

/// What became of a transfer.
#[derive(Clone, Copy, Debug, PartialEq, Eq)]
pub struct TransferResult {
    /// The transaction that made the transfer.
    pub tx_id: TxId,
    /// The coin that the recipient got.
    pub transferred_utxo: UtxoRef,
    /// Whether the transaction was executed successfully.
    pub success: bool,
    /// The status that the node reported.
    pub status: TxStatus,
}

/// The coins among what was offered, in order.
pub fn select_coins(offered: &Vec<CoinType>) -> (r: Vec<Coin>)
    ensures
        r@ == coins_of(offered@),
{
    let mut out: Vec<Coin> = Vec::new();
    let mut i: usize = 0;
    while i < offered.len()
        invariant
            i <= offered@.len(),
            out@ == coins_of(offered@.take(i as int)),
        decreases offered@.len() - i,
    {
        proof {
            let next = offered@.take(i + 1);
            assert(next.drop_last() =~= offered@.take(i as int));
            assert(next.last() == offered@[i as int]);
        }
        match offered[i] {
            CoinType::Coin(coin) => {
                out.push(coin);
            },
            CoinType::Other => {},
        }
        i += 1;
    }
    assert(offered@.take(i as int) =~= offered@);
    out
}

/// A wallet, as far as its decisions go: the address that owns its coins.
#[derive(Clone, Copy, Debug, PartialEq, Eq)]
pub struct Wallet {
    pub address: Address,
}

impl Wallet {
    /// The wallet of `address`.
    pub fn new(address: Address) -> (r: Wallet)
        ensures
            r.address == address,
    {
        Wallet { address }
    }

    /// The wallet that holds the given secret key: its address is the owner
    /// of what is locked to that key. Returns `None` for bytes that are no
    /// secret key.
    pub fn from_secret(secret: &[u8; 32]) -> (r: Option<Wallet>)
        ensures
            r == (match owner_of_secret(secret@) {
                Some(address) => Some(Wallet { address }),
                None => None,
            }),
    {
        match owner_address(secret) {
            Some(address) => Some(Wallet::new(address)),
            None => None,
        }
    }

    /// The draft of a transfer.
    pub open spec fn transfer_draft(
        self,
        destination: Address,
        transfer_amount: u64,
        asset_id: AssetId,
        offered: Seq<CoinType>,
    ) -> DraftView {
        DraftView {
            gas_price: GAS_PRICE,
            gas_limit: BASE_AMOUNT,
            inputs: coins_of(offered),
            outputs: seq![
                Output::Coin { to: destination, amount: transfer_amount, asset_id },
                Output::Change { to: self.address, amount: 0, asset_id },
            ],
        }
    }

    /// The draft of a deployment.
    pub open spec fn deploy_draft(self, contract_id: ContractId, state_root: Bytes32, offered: Seq<CoinType>) -> DraftView {
        DraftView {
            gas_price: GAS_PRICE,
            gas_limit: BASE_AMOUNT,
            inputs: coins_of(offered),
            outputs: seq![
                Output::ContractCreated { contract_id, state_root },
                Output::Change { to: self.address, amount: 0, asset_id: Bytes32::zero() },
            ],
        }
    }

    /// What to ask the node for before a transfer: the asset, which is the
    /// base asset unless one is named, and the amount to cover, which is the
    /// amount to transfer and the base amount. Returns `None` if that sum
    /// does not fit in 64 bits.
    pub fn spend_query(&self, transfer_amount: u64, asset_id: Option<AssetId>) -> (r: Option<(AssetId, u64)>)
        ensures
            r == (if transfer_amount + BASE_AMOUNT <= u64::MAX {
                Some(
                    (
                        match asset_id {
                            Some(asset) => asset,
                            None => Bytes32::zero(),
                        },
                        (transfer_amount + BASE_AMOUNT) as u64,
                    ),
                )
            } else {
                None
            }),
    {
        let asset = match asset_id {
            Some(asset) => asset,
            None => Bytes32::zeroed(),
        };
        if transfer_amount > u64::MAX - BASE_AMOUNT {
            None
        } else {
            Some((asset, transfer_amount + BASE_AMOUNT))
        }
    }

    /// Searches one page of the wallet's coins for `utxo_id`.
    pub fn owns_coin(&self, utxo_id: &UtxoRef, page: &Vec<Coin>) -> (r: Scan)
        ensures
            r == (if lists_coin(page@, *utxo_id) {
                Scan::Found
            } else if page@.len() == 0 {
                Scan::Exhausted
            } else {
                Scan::NextPage
            }),
    {
        let mut i: usize = 0;
        while i < page.len()
            invariant
                i <= page@.len(),
                forall|j: int| 0 <= j < i ==> (#[trigger] page@[j]).utxo_id != *utxo_id,
            decreases page@.len() - i,
        {
            if page[i].utxo_id == *utxo_id {
                return Scan::Found;
            }
            i += 1;
        }
        if page.len() == 0 {
            Scan::Exhausted
        } else {
            Scan::NextPage
        }
    }

    /// Drafts the transfer of `transfer_amount` to `destination`: it spends
    /// the coins among what the node offered, pays the recipient, and returns
    /// the change to the wallet. The asset is the base asset unless one is
    /// named.
    pub fn transfer_tx(
        &self,
        destination: Address,
        transfer_amount: u64,
        asset_id: Option<AssetId>,
        offered: &Vec<CoinType>,
    ) -> (r: Draft)
        ensures
            r@ == self.transfer_draft(
                destination,
                transfer_amount,
                match asset_id {
                    Some(asset) => asset,
                    None => Bytes32::zero(),
                },
                offered@,
            ),
    {
        let asset_id = match asset_id {
            Some(asset) => asset,
            None => Bytes32::zeroed(),
        };
        let mut outputs: Vec<Output> = Vec::new();
        outputs.push(Output::Coin { to: destination, amount: transfer_amount, asset_id });
        outputs.push(Output::Change { to: self.address, amount: 0, asset_id });
        let r = Draft { gas_price: GAS_PRICE, gas_limit: BASE_AMOUNT, inputs: select_coins(offered), outputs };
        assert(r@.outputs =~= self.transfer_draft(destination, transfer_amount, asset_id, offered@).outputs);
        r
    }

    /// Reads what became of a transfer made by transaction `tx_id`: the
    /// recipient's coin is the first output of the transaction, and the
    /// transfer succeeded if the transaction was executed successfully.
    pub fn transfer(&self, tx_id: TxId, status: TxStatus) -> (r: TransferResult)
        ensures
            r.tx_id == tx_id,
            r.transferred_utxo == (UtxoRef { tx_id, output_index: 0 }),
            r.success == (status == TxStatus::Success),
            r.status == status,
    {
        TransferResult {
            tx_id,
            transferred_utxo: UtxoRef::new(tx_id, 0),
            success: status == TxStatus::Success,
            status,
        }
    }

    /// Drafts the deployment of a contract with the given initial storage:
    /// the contract is created with the state root of `slots`.
    pub fn deploy_contract(&self, contract_id: ContractId, slots: &Vec<StorageSlot>, offered: &Vec<CoinType>) -> (r: Draft)
        ensures
            r@ == self.deploy_draft(contract_id, state_root_of(slots@), offered@),
    {
        let state_root = initial_state_root(slots);
        self.deployment(contract_id, state_root, offered)
    }

    /// Drafts the deployment of a contract whose state root is known: it
    /// spends the coins among what the node offered, creates the contract, and
    /// returns the change in the base asset to the wallet.
    pub fn deployment(&self, contract_id: ContractId, state_root: Bytes32, offered: &Vec<CoinType>) -> (r: Draft)
        ensures
            r@ == self.deploy_draft(contract_id, state_root, offered@),
    {
        let mut outputs: Vec<Output> = Vec::new();
        outputs.push(Output::ContractCreated { contract_id, state_root });
        outputs.push(Output::Change { to: self.address, amount: 0, asset_id: Bytes32::zeroed() });
        let r = Draft { gas_price: GAS_PRICE, gas_limit: BASE_AMOUNT, inputs: select_coins(offered), outputs };
        assert(r@.outputs =~= self.deploy_draft(contract_id, state_root, offered@).outputs);
        r
    }
}

/// Whether a deployment with this final status went through: it did unless
/// the transaction failed or was squeezed out.
pub fn deployment_accepted(status: TxStatus) -> (r: bool)
    ensures
        r == (status != TxStatus::Failure && status != TxStatus::SqueezedOut),
{
    match status {
        TxStatus::Failure => false,
        TxStatus::SqueezedOut => false,
        _ => true,
    }
}

} // verus!
