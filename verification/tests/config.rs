use atc_chain::config::{default_validators, hex_to_bytes, parse_seed, parse_validators};

#[test]
fn default_configuration_parses() {
    let raw = default_validators("atc-node-1");
    assert_eq!(raw, format!("atc-node-1:1:{}", "01".repeat(32)));
    let v = parse_validators(&raw).unwrap();
    assert_eq!(v.len(), 1);
    assert_eq!(v[0].id, "atc-node-1");
    assert_eq!(v[0].stake, 1);
    assert_eq!(v[0].seed, [1u8; 32]);
}

#[test]
fn several_validators_with_blank_items_and_spaces() {
    let raw = format!(" a :2:{} ,, b:+3:{}", "AB".repeat(32), "0f".repeat(32));
    let v = parse_validators(&raw).unwrap();
    assert_eq!(v.len(), 2);
    assert_eq!(v[0].id, "a");
    assert_eq!(v[0].stake, 2);
    assert_eq!(v[0].seed, [0xab; 32]);
    assert_eq!(v[1].id, "b");
    assert_eq!(v[1].stake, 3);
    assert_eq!(v[1].seed, [0x0f; 32]);
}

#[test]
fn configuration_errors_are_reported() {
    let seed = "01".repeat(32);
    assert_eq!(parse_validators("").unwrap_err(), "ATC_VALIDATORS must contain at least one validator");
    assert_eq!(parse_validators("a").unwrap_err(), "validator stake missing");
    assert_eq!(parse_validators("a:x:00").unwrap_err(), "invalid validator stake");
    assert_eq!(parse_validators("a:1").unwrap_err(), "validator seed missing");
    assert_eq!(parse_validators("a:1:00").unwrap_err(), "validator seed must contain exactly 64 hex characters");
    assert_eq!(parse_validators(&format!("a:0:{seed}")).unwrap_err(), "validator format is id:stake:64hexseed");
    assert_eq!(parse_validators(&format!(":1:{seed}")).unwrap_err(), "validator format is id:stake:64hexseed");
    assert_eq!(parse_validators(&format!("a:1:{seed}:x")).unwrap_err(), "validator format is id:stake:64hexseed");
    assert_eq!(parse_validators("a:18446744073709551616:00").unwrap_err(), "invalid validator stake");
}

#[test]
fn hex_and_seed_parsing() {
    assert_eq!(hex_to_bytes("0aFf").unwrap(), vec![0x0a, 0xff]);
    assert_eq!(hex_to_bytes("+f").unwrap(), vec![0x0f]);
    assert_eq!(hex_to_bytes("abc").unwrap_err(), "hex value has odd length");
    assert_eq!(hex_to_bytes("zz").unwrap_err(), "invalid hex value");
    assert_eq!(parse_seed(&format!("  {}\n", "ff".repeat(32))).unwrap(), [0xff; 32]);
    assert_eq!(parse_seed(&"g0".repeat(32)).unwrap_err(), "invalid hex value");
}
