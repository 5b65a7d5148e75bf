//! Chain identity: the chain, network and genesis a node runs on, and the genesis
//! identifier as a commitment to the canonical genesis document.
use crate::codec::{be32, be64, decimal, push_bytes, push_decimal, push_u32, push_u64};
use crate::mempool::utf8;
use crate::storage::{hex_digit, hex_text};
use vstd::prelude::*;

verus! {

pub const CHAIN_ID: &'static str = "atc";

pub const DEVNET_NETWORK_ID: &'static str = "devnet";

pub const PROTOCOL_VERSION: &'static str = "1.0.0";

pub const VM_VERSION: &'static str = "1.0.0";

/// The chain, network and genesis a node belongs to.
#[derive(Debug, Clone, PartialEq, Eq)]
pub struct ChainIdentity {
    pub chain_id: String,
    pub network_id: String,
    pub genesis_id: String,
}

/// Why an identity is refused.
#[derive(Debug, Clone, PartialEq, Eq)]
pub enum IdentityError {
    EmptyField(&'static str),
    GenesisMismatch { configured: String, computed: String },
}

/// The identity with the protocol and VM versions a node runs.
#[derive(Debug, Clone, PartialEq, Eq)]
pub struct RuntimeContext {
    pub identity: ChainIdentity,
    pub protocol_version: String,
    pub vm_version: String,
}

/// The first empty field of an identity, in the order chain, network, genesis.
pub open spec fn empty_field(i: ChainIdentity) -> Option<Seq<char>> {
    if i.chain_id@.len() == 0 {
        Some("chain_id"@)
    } else if i.network_id@.len() == 0 {
        Some("network_id"@)
    } else if i.genesis_id@.len() == 0 {
        Some("genesis_id"@)
    } else {
        None
    }
}

impl IdentityError {
    /// The message of the error.
    pub fn message(&self) -> (s: String)
        ensures
            s@ == match *self {
                IdentityError::EmptyField(f) => "identity field "@ + f@ + " must not be empty"@,
                IdentityError::GenesisMismatch { configured, computed } => "genesis id mismatch: configured "@
                    + configured@ + ", computed "@ + computed@,
            },
    {
        match self {
            IdentityError::EmptyField(f) => {
                let mut s = "identity field ".to_string();
                s.append(f);
                s.append(" must not be empty");
                s
            },
            IdentityError::GenesisMismatch { configured, computed } => {
                let mut s = "genesis id mismatch: configured ".to_string();
                s.append(configured.as_str());
                s.append(", computed ");
                s.append(computed.as_str());
                s
            },
        }
    }
}

impl ChainIdentity {
    /// Refuses an identity with an empty field.
    pub fn validate(&self) -> (r: Result<(), IdentityError>)
        ensures
            match empty_field(*self) {
                None => r is Ok,
                Some(f) => r matches Err(IdentityError::EmptyField(x)) && x@ == f,
            },
    {
        if self.chain_id.as_str().is_empty() {
            return Err(IdentityError::EmptyField("chain_id"));
        }
        if self.network_id.as_str().is_empty() {
            return Err(IdentityError::EmptyField("network_id"));
        }
        if self.genesis_id.as_str().is_empty() {
            return Err(IdentityError::EmptyField("genesis_id"));
        }
        Ok(())
    }
}

/// One canonical field: the key's length in four bytes, the key, the value's length
/// in eight bytes, the value.
pub open spec fn field_bytes(key: Seq<char>, value: Seq<char>) -> Seq<u8> {
    be32(utf8(key).len() as u32) + utf8(key) + be64(utf8(value).len() as u64) + utf8(value)
}

/// The canonical encoding of the genesis document, which the genesis identifier
/// hashes: each field under its name, the identifier itself excluded.
pub open spec fn genesis_document(
    chain_id: Seq<char>,
    chain_name: Seq<char>,
    network_id: Seq<char>,
    genesis_height: u64,
    peers_json: Seq<char>,
    state_root: Seq<char>,
    protocol_version: Seq<char>,
    vm_version: Seq<char>,
) -> Seq<u8> {
    field_bytes("chain_id"@, chain_id) + field_bytes("chain_name"@, chain_name) + field_bytes(
        "network_id"@,
        network_id,
    ) + field_bytes("genesis_height"@, decimal(genesis_height as nat)) + field_bytes(
        "initial_peers"@,
        peers_json,
    ) + field_bytes("state_root"@, state_root) + field_bytes(
        "protocol_version"@,
        protocol_version,
    ) + field_bytes("vm_version"@, vm_version)
}

/// A character inside a JSON string: a quote, a backslash and the control characters
/// escaped, those with a short escape by it, the others as `\u00` and two lowercase
/// hex digits; every other character as it is.
pub open spec fn json_escape(c: char) -> Seq<char> {
    let u = c as u32;
    if c == '"' {
        "\\\""@
    } else if c == '\\' {
        "\\\\"@
    } else if u == 8 {
        "\\b"@
    } else if u == 9 {
        "\\t"@
    } else if u == 10 {
        "\\n"@
    } else if u == 12 {
        "\\f"@
    } else if u == 13 {
        "\\r"@
    } else if u < 0x20 {
        "\\u00"@ + seq![hex_digit((u / 16) as int), hex_digit((u % 16) as int)]
    } else {
        seq![c]
    }
}

/// The escaped characters of a string, in order.
pub open spec fn json_escaped(s: Seq<char>) -> Seq<char>
    decreases s.len(),
{
    if s.len() == 0 {
        Seq::empty()
    } else {
        json_escaped(s.drop_last()) + json_escape(s.last())
    }
}

/// A string as a JSON string literal.
pub open spec fn json_string(s: Seq<char>) -> Seq<char> {
    "\""@ + json_escaped(s) + "\""@
}

/// The string literals of a list, separated by commas.
pub open spec fn json_items(items: Seq<Seq<char>>) -> Seq<char>
    decreases items.len(),
{
    if items.len() == 0 {
        Seq::empty()
    } else if items.len() == 1 {
        json_string(items[0])
    } else {
        json_items(items.drop_last()) + ","@ + json_string(items.last())
    }
}

/// The compact JSON text of a list of strings: its literals between brackets.
pub open spec fn json_string_list(items: Seq<Seq<char>>) -> Seq<char> {
    "["@ + json_items(items) + "]"@
}

/// Calls `serde_json::to_string` on a list of strings, which cannot fail for strings.
/// Claimed: the text is the compact JSON array of the strings, each escaped as
/// `json_escape` says (serde_json's escape table and compact formatter).
#[verifier::external_body]
fn peers_json(peers: &[String]) -> (s: String)
    ensures
        s@ == json_string_list(peers@.map_values(|p: String| p@)),
{
    match serde_json::to_string(peers) {
        Ok(s) => s,
        Err(_) => String::new(),
    }
}

fn push_field(out: &mut Vec<u8>, key: &str, value: &str)
    ensures
        final(out)@ == old(out)@ + field_bytes(key@, value@),
{
    let k = key.as_bytes();
    let v = value.as_bytes();
    #[verifier::truncate]
    let klen = k.len() as u32;
    push_u32(out, klen);
    push_bytes(out, k);
    push_u64(out, v.len() as u64);
    push_bytes(out, v);
    assert(final(out)@ =~= old(out)@ + field_bytes(key@, value@));
}

/// The canonical genesis document whose hash, in lowercase hex, is the genesis
/// identifier.
pub fn genesis_preimage(
    chain_id: &str,
    chain_name: &str,
    network_id: &str,
    genesis_height: u64,
    initial_peers: &[String],
    state_root: &str,
    protocol_version: &str,
    vm_version: &str,
) -> (o: Vec<u8>)
    ensures
        o@ == genesis_document(
            chain_id@,
            chain_name@,
            network_id@,
            genesis_height,
            json_string_list(initial_peers@.map_values(|p: String| p@)),
            state_root@,
            protocol_version@,
            vm_version@,
        ),
{
    let mut height = String::new();
    push_decimal(&mut height, genesis_height);
    let peers = peers_json(initial_peers);
    let mut o: Vec<u8> = Vec::new();
    push_field(&mut o, "chain_id", chain_id);
    push_field(&mut o, "chain_name", chain_name);
    push_field(&mut o, "network_id", network_id);
    push_field(&mut o, "genesis_height", height.as_str());
    push_field(&mut o, "initial_peers", peers.as_str());
    push_field(&mut o, "state_root", state_root);
    push_field(&mut o, "protocol_version", protocol_version);
    push_field(&mut o, "vm_version", vm_version);
    proof {
        reveal_strlit("chain_id");
        reveal_strlit("chain_name");
        reveal_strlit("network_id");
        reveal_strlit("genesis_height");
        reveal_strlit("initial_peers");
        reveal_strlit("state_root");
        reveal_strlit("protocol_version");
        reveal_strlit("vm_version");
    }
    assert(o@ =~= genesis_document(
        chain_id@,
        chain_name@,
        network_id@,
        genesis_height,
        json_string_list(initial_peers@.map_values(|p: String| p@)),
        state_root@,
        protocol_version@,
        vm_version@,
    ));
    o
}

/// The lowercase hex digit of `d`.
fn hex_char_str(d: u8) -> (s: &'static str)
    requires
        d < 16,
    ensures
        s@ == seq![hex_digit(d as int)],
{
    if d == 0 {
        proof { reveal_strlit("0"); }
        "0"
    } else if d == 1 {
        proof { reveal_strlit("1"); }
        "1"
    } else if d == 2 {
        proof { reveal_strlit("2"); }
        "2"
    } else if d == 3 {
        proof { reveal_strlit("3"); }
        "3"
    } else if d == 4 {
        proof { reveal_strlit("4"); }
        "4"
    } else if d == 5 {
        proof { reveal_strlit("5"); }
        "5"
    } else if d == 6 {
        proof { reveal_strlit("6"); }
        "6"
    } else if d == 7 {
        proof { reveal_strlit("7"); }
        "7"
    } else if d == 8 {
        proof { reveal_strlit("8"); }
        "8"
    } else if d == 9 {
        proof { reveal_strlit("9"); }
        "9"
    } else if d == 10 {
        proof { reveal_strlit("a"); }
        "a"
    } else if d == 11 {
        proof { reveal_strlit("b"); }
        "b"
    } else if d == 12 {
        proof { reveal_strlit("c"); }
        "c"
    } else if d == 13 {
        proof { reveal_strlit("d"); }
        "d"
    } else if d == 14 {
        proof { reveal_strlit("e"); }
        "e"
    } else {
        proof { reveal_strlit("f"); }
        "f"
    }
}

/// The genesis identifier of a genesis digest: its lowercase hex text.
pub fn genesis_id_of(digest: &[u8]) -> (s: String)
    ensures
        s@ == hex_text(digest@),
{
    let mut s = String::new();
    let mut i: usize = 0;
    while i < digest.len()
        invariant
            i <= digest@.len(),
            s@ == hex_text(digest@.take(i as int)),
        decreases digest@.len() - i,
    {
        let b = digest[i];
        s.append(hex_char_str(b / 16));
        s.append(hex_char_str(b % 16));
        proof {
            assert(s@ =~= hex_text(digest@.take(i as int + 1)));
        }
        i = i + 1;
    }
    assert(digest@.take(digest@.len() as int) =~= digest@);
    s
}

/// Checks an identity against the digest of its genesis document, as
/// `genesis_preimage` encodes it: the identity must have no empty field and its
/// genesis identifier must be the digest's hex text.
pub fn verify_genesis_id(identity: &ChainIdentity, digest: &[u8]) -> (r: Result<(), IdentityError>)
    ensures
        match empty_field(*identity) {
            Some(f) => r matches Err(IdentityError::EmptyField(x)) && x@ == f,
            None => if identity.genesis_id@ == hex_text(digest@) {
                r is Ok
            } else {
                r matches Err(IdentityError::GenesisMismatch { configured, computed })
                    && configured@ == identity.genesis_id@ && computed@ == hex_text(digest@)
            },
        },
{
    identity.validate()?;
    let computed = genesis_id_of(digest);
    if !crate::ordmap::str_equal(identity.genesis_id.as_str(), computed.as_str()) {
        return Err(
            IdentityError::GenesisMismatch { configured: identity.genesis_id.clone(), computed },
        );
    }
    Ok(())
}

} // verus!
