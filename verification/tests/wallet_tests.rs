use exchange_core::wallet_addr::{
    generate_btc_wallet_address, generate_eth_wallet_address, generate_solana_wallet_address,
    generate_user_assets, generate_wallet_address,
};
use sha2::Digest;

#[test]
fn eth_address_shape() {
    let a = generate_eth_wallet_address();
    assert_eq!(a.len(), 42);
    assert!(a.starts_with("0x"));
    // the tail really is lowercase hex
    assert!(a[2..]
        .chars()
        .all(|c| c.is_ascii_hexdigit() && !c.is_ascii_uppercase()));
    assert!(hex::decode(&a[2..]).is_ok());
    // two draws differ
    let b = generate_eth_wallet_address();
    assert_ne!(a, b);
}

#[test]
fn btc_address_decodes_with_checksum() {
    let a = generate_btc_wallet_address();
    let payload = bs58::decode(&a).into_vec().unwrap();
    assert_eq!(payload.len(), 25);
    assert_eq!(payload[0], 0);
    // the last four bytes are the double-SHA-256 checksum of the rest
    let first = sha2::Sha256::digest(&payload[..21]);
    let second = sha2::Sha256::digest(first);
    assert_eq!(&payload[21..25], &second[..4]);
}

#[test]
fn solana_address_is_32_byte_key() {
    let a = generate_solana_wallet_address();
    let key = bs58::decode(&a).into_vec().unwrap();
    assert_eq!(key.len(), 32);
}

#[test]
fn wallet_address_dispatch() {
    // bitcoin-style names decode to the 25-byte versioned payload
    for name in ["bitcoin", "Bitcoin", "LITECOIN", "bitcoin_cash"] {
        let a = generate_wallet_address(name);
        let payload = bs58::decode(&a).into_vec().unwrap();
        assert_eq!(payload.len(), 25);
        assert_eq!(payload[0], 0);
    }
    // solana decodes to a 32-byte key
    let sol = generate_wallet_address("Solana");
    assert_eq!(bs58::decode(&sol).into_vec().unwrap().len(), 32);
    // ethereum and unknown assets get the 0x form
    for name in ["ethereum", "Ethereum", "dogecoin"] {
        let a = generate_wallet_address(name);
        assert_eq!(a.len(), 42);
        assert!(a.starts_with("0x"));
    }
}

#[test]
fn fresh_user_assets() {
    let assets = generate_user_assets("user-7", 1234);
    assert_eq!(assets.len(), 5);
    let symbols: Vec<&str> = assets.iter().map(|a| a.symbol.as_str()).collect();
    assert_eq!(symbols, vec!["BTC", "ETH", "BNB", "SOL", "ADA"]);
    for a in &assets {
        assert_eq!(a.user_id, "user-7");
        assert_eq!(a.quantity.units, 0);
        assert_eq!(a.amount.units, 0);
        assert_eq!(a.filled_amount.units, 0);
        assert_eq!(a.created_at, 1234);
        assert_eq!(a.updated_at, 1234);
        // symbol, a dash, and a 36-character id
        assert_eq!(a.asset_id.len(), a.symbol.len() + 37);
        assert_eq!(&a.asset_id[..a.symbol.len() + 1], format!("{}-", a.symbol));
        let uuid_part = &a.asset_id[a.symbol.len() + 1..];
        assert!(uuid::Uuid::parse_str(uuid_part).is_ok());
    }
    // asset ids are fresh per call
    let again = generate_user_assets("user-7", 1234);
    assert_ne!(assets[0].asset_id, again[0].asset_id);
}
