use atc_chain::identity::{
    genesis_id_of, genesis_preimage, verify_genesis_id, ChainIdentity, IdentityError, CHAIN_ID,
    DEVNET_NETWORK_ID, PROTOCOL_VERSION, VM_VERSION,
};
use sha2::{Digest, Sha256};

fn peers() -> Vec<String> {
    vec!["atc-node-1".into(), "atc-node-2".into()]
}

fn preimage() -> Vec<u8> {
    genesis_preimage(
        CHAIN_ID,
        "A-TownChain Devnet",
        DEVNET_NETWORK_ID,
        0,
        &peers(),
        "0".repeat(64).as_str(),
        PROTOCOL_VERSION,
        VM_VERSION,
    )
}

#[test]
fn genesis_preimage_is_deterministic_and_canonical() {
    let a = preimage();
    let b = preimage();
    assert_eq!(a, b);
    let mut expected = Vec::new();
    for (k, v) in [
        ("chain_id", "atc".to_string()),
        ("chain_name", "A-TownChain Devnet".to_string()),
        ("network_id", "devnet".to_string()),
        ("genesis_height", "0".to_string()),
        ("initial_peers", "[\"atc-node-1\",\"atc-node-2\"]".to_string()),
        ("state_root", "0".repeat(64)),
        ("protocol_version", "1.0.0".to_string()),
        ("vm_version", "1.0.0".to_string()),
    ] {
        expected.extend_from_slice(&(k.len() as u32).to_be_bytes());
        expected.extend_from_slice(k.as_bytes());
        expected.extend_from_slice(&(v.len() as u64).to_be_bytes());
        expected.extend_from_slice(v.as_bytes());
    }
    assert_eq!(a, expected);
}

#[test]
fn genesis_id_is_lowercase_hex_of_the_digest() {
    assert_eq!(genesis_id_of(&[0x00, 0xab, 0x0f, 0xf0]), "00ab0ff0");
    let digest = Sha256::digest(preimage());
    assert_eq!(genesis_id_of(&digest).len(), 64);
}

#[test]
fn identity_verification_is_fail_closed() {
    let digest = Sha256::digest(preimage());
    let id = genesis_id_of(&digest);
    let good = ChainIdentity { chain_id: CHAIN_ID.into(), network_id: DEVNET_NETWORK_ID.into(), genesis_id: id.clone() };
    assert!(verify_genesis_id(&good, &digest).is_ok());

    let wrong = ChainIdentity { genesis_id: "00".into(), ..good.clone() };
    assert_eq!(
        verify_genesis_id(&wrong, &digest),
        Err(IdentityError::GenesisMismatch { configured: "00".into(), computed: id })
    );
    let empty = ChainIdentity { network_id: String::new(), ..good };
    assert_eq!(empty.validate(), Err(IdentityError::EmptyField("network_id")));
    assert_eq!(
        IdentityError::EmptyField("chain_id").message(),
        "identity field chain_id must not be empty"
    );
}

#[test]
fn peer_list_is_compact_escaped_json() {
    let peers: Vec<String> = vec!["a\"b\\c".into(), "d\ne\u{1}\u{1f}".into(), "é\u{7f}".into()];
    let expected = "[\"a\\\"b\\\\c\",\"d\\ne\\u0001\\u001f\",\"é\u{7f}\"]";
    let doc = genesis_preimage("atc", "n", "net", 0, &peers, "r", "p", "v");
    let key = b"initial_peers";
    let at = doc.windows(key.len()).position(|w| w == key).unwrap() + key.len();
    let len = u64::from_be_bytes(doc[at..at + 8].try_into().unwrap()) as usize;
    assert_eq!(&doc[at + 8..at + 8 + len], expected.as_bytes());
    let empty = genesis_preimage("atc", "n", "net", 0, &[], "r", "p", "v");
    let at = empty.windows(key.len()).position(|w| w == key).unwrap() + key.len();
    assert_eq!(&empty[at + 8..at + 10], b"[]");
}
