use vstd::prelude::*;

verus! {

#[verifier::external_type_specification]
#[verifier::external_body]
pub struct ExPathBuf(std::path::PathBuf);

/// Relies on `PathBuf::clone`: a copy of the path; nothing more is claimed of it.
pub assume_specification[ <std::path::PathBuf as core::clone::Clone>::clone ](
    p: &std::path::PathBuf,
) -> std::path::PathBuf;

/// How the wallet charges its fee.
#[derive(Clone, Copy, Debug, PartialEq, Eq, Structural)]
pub enum FeeType {
    Fixed,
    Percent,
}

/// Where one of the wallet's own key pairs is stored.
#[derive(Clone)]
pub struct Key {
    public: std::path::PathBuf,
    private: std::path::PathBuf,
}

impl Key {
    pub closed spec fn public_spec(&self) -> std::path::PathBuf {
        self.public
    }

    pub closed spec fn private_spec(&self) -> std::path::PathBuf {
        self.private
    }

    pub fn new(public: std::path::PathBuf, private: std::path::PathBuf) -> (r: Key)
        ensures
            r.public_spec() == public && r.private_spec() == private,
    {
        Key { public, private }
    }

    pub fn public_path(&self) -> (r: &std::path::PathBuf)
        ensures
            *r == self.public_spec(),
    {
        &self.public
    }

    pub fn private_path(&self) -> (r: &std::path::PathBuf)
        ensures
            *r == self.private_spec(),
    {
        &self.private
    }
}

/// A named contact and where their public key is stored.
#[derive(Clone)]
pub struct Recipient {
    name: String,
    key: std::path::PathBuf,
}

impl Recipient {
    pub closed spec fn name_spec(&self) -> Seq<char> {
        self.name@
    }

    pub closed spec fn key_spec(&self) -> std::path::PathBuf {
        self.key
    }

    pub fn new(name: String, key: std::path::PathBuf) -> (r: Recipient)
        ensures
            r.name_spec() == name@ && r.key_spec() == key,
    {
        Recipient { name, key }
    }

    pub fn name(&self) -> (r: &str)
        ensures
            r@ == self.name_spec(),
    {
        self.name.as_str()
    }

    pub fn key_path(&self) -> (r: &std::path::PathBuf)
        ensures
            *r == self.key_spec(),
    {
        &self.key
    }
}

/// Why the wallet could not build a payment.
#[derive(Clone, Copy, Debug, PartialEq, Eq, Structural)]
pub enum WalletError {
    /// The unreserved outputs do not cover amount plus fee.
    InsufficientFunds,
}

/// An output the wallet owns, with the index of the key that may spend it.
pub struct OwnedUtxo {
    pub key_index: usize,
    pub reserved: bool,
    pub output: crate::transaction::TransactionOutput,
}

pub struct OwnedUtxoView {
    pub key_index: usize,
    pub reserved: bool,
    pub output: crate::transaction::OutputView,
}

impl View for OwnedUtxo {
    type V = OwnedUtxoView;

    open spec fn view(&self) -> OwnedUtxoView {
        OwnedUtxoView { key_index: self.key_index, reserved: self.reserved, output: self.output@ }
    }
}

/// Total value of the owned outputs, reserved or not.
pub open spec fn owned_total(utxos: Seq<OwnedUtxoView>) -> nat
    decreases utxos.len(),
{
    if utxos.len() == 0 {
        0
    } else {
        (owned_total(utxos.drop_last()) + utxos.last().output.value) as nat
    }
}

/// The wallet's balance: the sum of every owned output.
pub fn get_balance(utxos: &Vec<OwnedUtxo>) -> (r: u128)
    ensures
        r == owned_total(utxos@.map_values(|u: OwnedUtxo| u@)),
{
    let ghost v = utxos@.map_values(|u: OwnedUtxo| u@);
    let mut total: u128 = 0;
    let mut i: usize = 0;
    while i < utxos.len()
        invariant
            0 <= i <= v.len(),
            v == utxos@.map_values(|u: OwnedUtxo| u@),
            total == owned_total(v.take(i as int)),
            total <= i * 0xFFFF_FFFF_FFFF_FFFFu128,
        decreases v.len() - i,
    {
        proof {
            crate::block::lemma_take_last(v, i as int);
            assert(v[i as int] == utxos@[i as int]@);
        }
        total = total + utxos[i].output.value() as u128;
        i += 1;
    }
    assert(v.take(i as int) =~= v);
    total
}

/// Inputs chosen in storage order, skipping reserved ones, until their total
/// reaches `need`: the chosen positions and their total.
pub open spec fn select_inputs(utxos: Seq<OwnedUtxoView>, need: nat) -> (Seq<int>, nat)
    decreases utxos.len(),
{
    if utxos.len() == 0 {
        (seq![], 0)
    } else {
        let (chosen, total) = select_inputs(utxos.drop_last(), need);
        let last = utxos.last();
        if total >= need || last.reserved {
            (chosen, total)
        } else {
            (chosen.push(utxos.len() - 1), (total + last.output.value) as nat)
        }
    }
}

proof fn lemma_select_bounds(utxos: Seq<OwnedUtxoView>, need: nat)
    ensures
        forall|j: int| 0 <= j < select_inputs(utxos, need).0.len() ==> 0 <= #[trigger] select_inputs(utxos, need).0[j] < utxos.len(),
        select_inputs(utxos, need).1 <= utxos.len() * 0xFFFF_FFFF_FFFF_FFFF,
    decreases utxos.len(),
{
    if utxos.len() > 0 {
        lemma_select_bounds(utxos.drop_last(), need);
    }
}

proof fn lemma_select_total(utxos: Seq<OwnedUtxoView>, need: nat)
    ensures
        select_inputs(utxos, need).1 < need + 0x1_0000_0000_0000_0000,
        select_inputs(utxos, need).1 > 0 ==> select_inputs(utxos, need).0.len() > 0,
    decreases utxos.len(),
{
    if utxos.len() > 0 {
        lemma_select_total(utxos.drop_last(), need);
    }
}

/// Builds a payment of `amount` to `recipient` with `fee` left to the miner: see
/// `select_inputs`; each input is signed over the spent output's hash by its key;
/// change above `amount + fee` goes back to the first key.
pub fn create_transaction(
    keys: &Vec<crate::crypto::PrivateKey>,
    utxos: &Vec<OwnedUtxo>,
    recipient: &crate::crypto::PublicKey,
    amount: u64,
    fee: u64,
    payment_id: u128,
    change_id: u128,
) -> (r: Result<crate::transaction::Transaction, WalletError>)
    requires
        forall|i: int| 0 <= i < utxos@.len() ==> (#[trigger] utxos@[i]).key_index < keys@.len(),
    ensures
        ({
            let v = utxos@.map_values(|u: OwnedUtxo| u@);
            let need = amount + fee;
            let (chosen, total) = select_inputs(v, need as nat);
            if total < need {
                r == Err::<crate::transaction::Transaction, WalletError>(WalletError::InsufficientFunds)
            } else {
                r matches Ok(t) && t@.inputs == chosen.map_values(|i: int| crate::transaction::InputView {
                    prev: crate::blockchain::output_key(v[i].output),
                    signature: crate::crypto::signature_of(
                        keys@[v[i].key_index as int]@,
                        crate::u256::u256_be(crate::blockchain::output_key(v[i].output).0),
                    ),
                }) && t@.outputs == if total > need {
                    seq![
                        crate::transaction::OutputView { value: amount, unique_id: payment_id, pubkey: recipient@ },
                        crate::transaction::OutputView {
                            value: (total - need) as u64,
                            unique_id: change_id,
                            pubkey: crate::crypto::public_of(keys@[0]@),
                        },
                    ]
                } else {
                    seq![crate::transaction::OutputView { value: amount, unique_id: payment_id, pubkey: recipient@ }]
                }
            }
        }),
{
    let ghost v = utxos@.map_values(|u: OwnedUtxo| u@);
    let need: u128 = amount as u128 + fee as u128;
    let mut chosen: Vec<usize> = Vec::new();
    let mut total: u128 = 0;
    let mut i: usize = 0;
    while i < utxos.len()
        invariant
            0 <= i <= utxos@.len(),
            v == utxos@.map_values(|u: OwnedUtxo| u@),
            need == amount + fee,
            chosen@.map_values(|c: usize| c as int) == select_inputs(v.take(i as int), need as nat).0,
            total == select_inputs(v.take(i as int), need as nat).1,
            total <= i * 0xFFFF_FFFF_FFFF_FFFFu128,
        decreases utxos@.len() - i,
    {
        proof {
            crate::block::lemma_take_last(v, i as int);
            assert(v[i as int] == utxos@[i as int]@);
        }
        let u = &utxos[i];
        if !(total >= need || u.reserved) {
            let ghost before = chosen@;
            chosen.push(i);
            assert(chosen@.map_values(|c: usize| c as int) =~= before.map_values(|c: usize| c as int).push(i as int));
            total = total + u.output.value() as u128;
        }
        i += 1;
    }
    assert(v.take(i as int) =~= v);
    if total < need {
        return Err(WalletError::InsufficientFunds);
    }
    proof {
        lemma_select_bounds(v, need as nat);
        lemma_select_total(v, need as nat);
    }
    let ghost sel = select_inputs(v, need as nat).0;
    let mut inputs: Vec<crate::transaction::TransactionInput> = Vec::new();
    let mut j: usize = 0;
    while j < chosen.len()
        invariant
            0 <= j <= chosen@.len(),
            v == utxos@.map_values(|u: OwnedUtxo| u@),
            chosen@.map_values(|c: usize| c as int) == sel,
            forall|k: int| 0 <= k < sel.len() ==> 0 <= #[trigger] sel[k] < v.len(),
            forall|k: int| 0 <= k < utxos@.len() ==> (#[trigger] utxos@[k]).key_index < keys@.len(),
            inputs@.map_values(|x: crate::transaction::TransactionInput| x@) == sel.take(j as int).map_values(|i: int| crate::transaction::InputView {
                prev: crate::blockchain::output_key(v[i].output),
                signature: crate::crypto::signature_of(
                    keys@[v[i].key_index as int]@,
                    crate::u256::u256_be(crate::blockchain::output_key(v[i].output).0),
                ),
            }),
        decreases chosen@.len() - j,
    {
        let idx = chosen[j];
        assert(sel[j as int] == idx as int);
        assert(v[idx as int] == utxos@[idx as int]@);
        let u = &utxos[idx];
        let h = u.output.hash();
        let sig = crate::crypto::Signature::sign_output(&h, &keys[u.key_index]);
        let input = crate::transaction::TransactionInput::new(h, sig);
        let ghost iv = input@;
        let ghost before = inputs@;
        inputs.push(input);
        assert(inputs@.map_values(|x: crate::transaction::TransactionInput| x@) =~= before.map_values(|x: crate::transaction::TransactionInput| x@).push(iv));
        assert(sel.take(j + 1) =~= sel.take(j as int).push(sel[j as int]));
        j += 1;
    }
    assert(sel.take(j as int) =~= sel);
    let mut outputs: Vec<crate::transaction::TransactionOutput> = Vec::new();
    outputs.push(crate::transaction::TransactionOutput::new(amount, payment_id, recipient.clone()));
    if total > need {
        assert(sel.len() > 0);
        assert(chosen@.map_values(|c: usize| c as int)[0] == chosen@[0] as int);
        assert(utxos@[chosen@[0] as int].key_index < keys@.len());
        let change = (total - need) as u64;
        outputs.push(crate::transaction::TransactionOutput::new(change, change_id, keys[0].public_key()));
    }
    let t = crate::transaction::Transaction::new(inputs, outputs);
    Ok(t)
}

} // verus!
