//! Wallet-address generation for the assets the exchange serves, and
//! the initial zero-balance asset wallets of a fresh user.
//!
//! Randomness, hashing and base encodings come from outside crates
//! behind trusted wrappers; the assembly of the address material is
//! verified here.

use vstd::prelude::*;
use vstd::string::StrSliceExecFns;
use vstd::string::StringExecFns;
use sha2::Digest;
use rand::RngCore;
use crate::amount::Amount;

verus! {

/// The lowercase hex digit of a value below sixteen.
pub open spec fn hex_digit(n: u8) -> char {
    if n < 10 {
        ((n + 48) as char)
    } else {
        ((n + 87) as char)
    }
}

/// Lowercase hex encoding: two digits per byte, high digit first.
pub open spec fn hex_of(b: Seq<u8>) -> Seq<char>
    decreases b.len(),
{
    if b.len() == 0 {
        Seq::empty()
    } else {
        hex_of(b.drop_last()) + seq![hex_digit(b.last() / 16), hex_digit(b.last() % 16)]
    }
}

/// Hex encoding yields two characters per byte.
pub proof fn lemma_hex_of_len(b: Seq<u8>)
    ensures
        hex_of(b).len() == 2 * b.len(),
    decreases b.len(),
{
    if b.len() > 0 {
        lemma_hex_of_len(b.drop_last());
    }
}

/// The SHA-256 digest of the input bytes; its value is fixed by the
/// input alone.
pub uninterp spec fn sha256_of(data: Seq<u8>) -> Seq<u8>;

/// The base58 rendering of the input bytes; its value is fixed by the
/// input alone.
pub uninterp spec fn base58_of(data: Seq<u8>) -> Seq<char>;

/// Relies on hex::encode: every byte becomes exactly two lowercase
/// hex digits, high digit first.
#[verifier::external_body]
fn hex_encode(b: &Vec<u8>) -> (r: String)
    ensures
        r@ == hex_of(b@),
{
    hex::encode(b.as_slice())
}

/// Relies on sha2::Sha256::digest: a 32-byte digest computed from the
/// input alone.
#[verifier::external_body]
fn sha256(data: &Vec<u8>) -> (r: Vec<u8>)
    ensures
        r@ == sha256_of(data@),
        r@.len() == 32,
{
    sha2::Sha256::digest(data.as_slice()).to_vec()
}

/// Relies on bs58::encode: the base58 string of the input alone.
#[verifier::external_body]
fn base58_encode(data: &Vec<u8>) -> (r: String)
    ensures
        r@ == base58_of(data@),
{
    bs58::encode(data.as_slice()).into_string()
}

/// Relies on rand::thread_rng and fill_bytes: `n` bytes of randomness;
/// nothing is promised of their values.
#[verifier::external_body]
fn random_bytes(n: usize) -> (r: Vec<u8>)
    ensures
        r@.len() == n,
{
    let mut buf = vec![0u8; n];
    rand::thread_rng().fill_bytes(&mut buf);
    buf
}

/// Relies on ed25519_dalek::SigningKey::generate and the verifying
/// key's to_bytes: a fresh random 32-byte public key.
#[verifier::external_body]
fn ed25519_public_key() -> (r: Vec<u8>)
    ensures
        r@.len() == 32,
{
    let signing_key = ed25519_dalek::SigningKey::generate(&mut rand::rngs::OsRng);
    signing_key.verifying_key().to_bytes().to_vec()
}

/// Relies on uuid::Uuid::new_v4 and its Display form: a fresh random
/// id in the 36-character hyphenated format.
#[verifier::external_body]
fn new_uuid_string() -> (r: String)
    ensures
        r@.len() == 36,
{
    uuid::Uuid::new_v4().to_string()
}

/// An Ethereum-style address: `0x` followed by the hex of the last
/// twenty bytes of the SHA-256 digest of fresh randomness.
pub fn generate_eth_wallet_address() -> (r: String)
    ensures
        r@.len() == 42,
        exists|tail: Seq<u8>|
            tail.len() == 20 && r@ == "0x"@ + #[trigger] hex_of(tail),
{
    let rb = random_bytes(32);
    let digest = sha256(&rb);
    let mut tail: Vec<u8> = Vec::new();
    let mut i: usize = 12;
    while i < 32
        invariant
            12 <= i <= 32,
            digest@.len() == 32,
            tail@.len() == i - 12,
        decreases 32 - i,
    {
        tail.push(digest[i]);
        i = i + 1;
    }
    let hex = hex_encode(&tail);
    proof {
        lemma_hex_of_len(tail@);
        reveal_strlit("0x");
    }
    let prefix = String::from_str("0x");
    let r = prefix.concat(hex.as_str());
    proof {
        assert(tail@.len() == 20 && r@ == "0x"@ + hex_of(tail@));
    }
    r
}

/// A Bitcoin-style address: base58 of a zero version byte, a random
/// 20-byte key hash, and the first four bytes of the double SHA-256
/// checksum of the 21 bytes before it — 25 payload bytes in all.
pub fn generate_btc_wallet_address() -> (r: String)
    ensures
        exists|payload: Seq<u8>|
            payload.len() == 25 && payload[0] == 0 && payload.subrange(21, 25) == sha256_of(
                sha256_of(payload.subrange(0, 21)),
            ).subrange(0, 4) && r@ == #[trigger] base58_of(payload),
{
    let hash = random_bytes(20);
    let mut data: Vec<u8> = Vec::new();
    data.push(0u8);
    let mut i: usize = 0;
    while i < 20
        invariant
            0 <= i <= 20,
            hash@.len() == 20,
            data@.len() == i + 1,
            data@[0] == 0u8,
        decreases 20 - i,
    {
        data.push(hash[i]);
        i = i + 1;
    }
    let first = sha256(&data);
    let second = sha256(&first);
    let mut j: usize = 0;
    let ghost before = data@;
    proof {
        assert(data@ =~= before + second@.subrange(0, 0));
    }
    while j < 4
        invariant
            0 <= j <= 4,
            second@.len() == 32,
            before.len() == 21,
            before[0] == 0u8,
            data@ == before + second@.subrange(0, j as int),
        decreases 4 - j,
    {
        proof {
            assert(second@.subrange(0, j as int + 1) =~= second@.subrange(0, j as int).push(
                second@[j as int],
            ));
            assert((before + second@.subrange(0, j as int)).push(second@[j as int]) =~= before
                + second@.subrange(0, j as int + 1));
        }
        data.push(second[j]);
        j = j + 1;
    }
    let r = base58_encode(&data);
    proof {
        assert(data@.subrange(0, 21) =~= before);
        assert(data@.subrange(21, 25) =~= second@.subrange(0, 4));
        assert(second@ == sha256_of(sha256_of(before)));
        assert(data@.len() == 25 && data@[0] == 0 && r@ == base58_of(data@));
        assert(data@.subrange(21, 25) == sha256_of(sha256_of(data@.subrange(0, 21))).subrange(
            0,
            4,
        ));
    }
    r
}

/// A Solana-style address: base58 of a fresh 32-byte public key.
pub fn generate_solana_wallet_address() -> (r: String)
    ensures
        exists|key: Seq<u8>| key.len() == 32 && r@ == #[trigger] base58_of(key),
{
    let key = ed25519_public_key();
    let r = base58_encode(&key);
    proof {
        assert(key@.len() == 32 && r@ == base58_of(key@));
    }
    r
}

/// The character's code, lowered through ASCII case.
pub open spec fn lower_code(c: char) -> u32 {
    if 65 <= c as u32 <= 90 {
        (c as u32 + 32) as u32
    } else {
        c as u32
    }
}

/// The two strings are equal up to ASCII case.
pub open spec fn ascii_ieq(a: Seq<char>, b: Seq<char>) -> bool {
    a.len() == b.len() && forall|i: int|
        0 <= i < a.len() ==> lower_code(#[trigger] a[i]) == lower_code(b[i])
}

/// Compares two strings for equality up to ASCII case.
fn eq_ignore_ascii(a: &str, b: &str) -> (r: bool)
    ensures
        r == ascii_ieq(a@, b@),
{
    let la = a.unicode_len();
    let lb = b.unicode_len();
    if la != lb {
        return false;
    }
    let mut i: usize = 0;
    while i < la
        invariant
            0 <= i <= a@.len(),
            la == a@.len(),
            lb == b@.len(),
            la == lb,
            forall|k: int| 0 <= k < i ==> lower_code(#[trigger] a@[k]) == lower_code(b@[k]),
        decreases a@.len() - i,
    {
        let x = a.get_char(i);
        let y = b.get_char(i);
        let cx = x as u32;
        let cy = y as u32;
        let lx: u32 = if 65 <= cx && cx <= 90 {
            cx + 32
        } else {
            cx
        };
        let ly: u32 = if 65 <= cy && cy <= 90 {
            cy + 32
        } else {
            cy
        };
        if lx != ly {
            return false;
        }
        i = i + 1;
    }
    true
}

/// Picks the address style of an asset by its (case-insensitive)
/// name: Bitcoin-style for bitcoin, litecoin and bitcoin_cash,
/// Solana-style for solana, Ethereum-style for ethereum and anything
/// unrecognised.
pub fn generate_wallet_address(asset: &str) -> (r: String)
    ensures
        ascii_ieq(asset@, "bitcoin"@) || ascii_ieq(asset@, "litecoin"@) || ascii_ieq(asset@, "bitcoin_cash"@) ==> exists|payload: Seq<u8>|
            payload.len() == 25 && payload[0] == 0 && payload.subrange(21, 25) == sha256_of(
                sha256_of(payload.subrange(0, 21)),
            ).subrange(0, 4) && r@ == #[trigger] base58_of(payload),
        ascii_ieq(asset@, "solana"@) ==> exists|key: Seq<u8>|
            key.len() == 32 && r@ == #[trigger] base58_of(key),
        !ascii_ieq(asset@, "bitcoin"@) && !ascii_ieq(asset@, "litecoin"@) && !ascii_ieq(asset@, "bitcoin_cash"@) && !ascii_ieq(asset@, "solana"@) ==> r@.len() == 42 && exists|tail: Seq<u8>|
            tail.len() == 20 && r@ == "0x"@ + #[trigger] hex_of(tail),
{
    proof {
        reveal_strlit("bitcoin");
        reveal_strlit("litecoin");
        reveal_strlit("bitcoin_cash");
        reveal_strlit("solana");
    }
    if eq_ignore_ascii(asset, "bitcoin") || eq_ignore_ascii(asset, "litecoin")
        || eq_ignore_ascii(asset, "bitcoin_cash") {
        generate_btc_wallet_address()
    } else if eq_ignore_ascii(asset, "solana") {
        generate_solana_wallet_address()
    } else {
        generate_eth_wallet_address()
    }
}

/// A per-asset wallet of one user, balances all zero at creation.
pub struct AssetWallet {
    pub user_id: String,
    pub asset_id: String,
    pub symbol: String,
    pub quantity: Amount,
    pub amount: Amount,
    pub filled_amount: Amount,
    pub created_at: u64,
    pub updated_at: u64,
}

/// Builds one zero-balance asset wallet with a fresh asset id of the
/// form `symbol-uuid`.
fn make_asset(user_id: &str, symbol: &str, now: u64) -> (r: AssetWallet)
    ensures
        r.user_id@ == user_id@,
        r.symbol@ == symbol@,
        r.asset_id@.len() == symbol@.len() + 37,
        r.quantity.units == 0,
        r.amount.units == 0,
        r.filled_amount.units == 0,
        r.created_at == now,
        r.updated_at == now,
{
    let u = new_uuid_string();
    let mut asset_id = String::from_str(symbol);
    asset_id.append("-");
    asset_id.append(u.as_str());
    proof {
        reveal_strlit("-");
    }
    AssetWallet {
        user_id: String::from_str(user_id),
        asset_id,
        symbol: String::from_str(symbol),
        quantity: Amount::zero(),
        amount: Amount::zero(),
        filled_amount: Amount::zero(),
        created_at: now,
        updated_at: now,
    }
}

/// The five zero-balance asset wallets a fresh user starts with, one
/// per supported symbol.
pub fn generate_user_assets(user_id: &str, now: u64) -> (r: Vec<AssetWallet>)
    ensures
        r@.len() == 5,
        r@[0].symbol@ == "BTC"@,
        r@[1].symbol@ == "ETH"@,
        r@[2].symbol@ == "BNB"@,
        r@[3].symbol@ == "SOL"@,
        r@[4].symbol@ == "ADA"@,
        forall|k: int|
            0 <= k < 5 ==> ({
                let w = #[trigger] r@[k];
                &&& w.user_id@ == user_id@
                &&& w.quantity.units == 0
                &&& w.amount.units == 0
                &&& w.filled_amount.units == 0
                &&& w.created_at == now
                &&& w.updated_at == now
                &&& w.asset_id@.len() == w.symbol@.len() + 37
            }),
{
    let mut out: Vec<AssetWallet> = Vec::new();
    out.push(make_asset(user_id, "BTC", now));
    out.push(make_asset(user_id, "ETH", now));
    out.push(make_asset(user_id, "BNB", now));
    out.push(make_asset(user_id, "SOL", now));
    out.push(make_asset(user_id, "ADA", now));
    out
}

} // verus!
