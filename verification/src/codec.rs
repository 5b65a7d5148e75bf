//! Big-endian integer encoding and length-prefixed byte fields, the building
//! blocks of every canonical wire, storage and hashing preimage format.
use vstd::prelude::*;

verus! {

/// `256^n`.
pub open spec fn pow256(n: nat) -> nat
    decreases n,
{
    if n == 0 {
        1
    } else {
        256 * pow256((n - 1) as nat)
    }
}

/// The `n` least significant bytes of `v`, most significant first.
pub open spec fn be(v: nat, n: nat) -> Seq<u8>
    decreases n,
{
    if n == 0 {
        Seq::empty()
    } else {
        be(v / 256, (n - 1) as nat).push((v % 256) as u8)
    }
}

/// The number that a big-endian byte string denotes.
pub open spec fn be_val(s: Seq<u8>) -> nat
    decreases s.len(),
{
    if s.len() == 0 {
        0
    } else {
        be_val(s.drop_last()) * 256 + s.last() as nat
    }
}

pub open spec fn be64(v: u64) -> Seq<u8> {
    be(v as nat, 8)
}

pub open spec fn be32(v: u32) -> Seq<u8> {
    be(v as nat, 4)
}

pub open spec fn be16(v: u16) -> Seq<u8> {
    be(v as nat, 2)
}

pub open spec fn be128(v: u128) -> Seq<u8> {
    be(v as nat, 16)
}

/// Length prefix of a field: its length as a `u32`, truncated as a `u32` cast truncates.
pub open spec fn len_prefix(len: nat) -> Seq<u8> {
    be(len % 0x1_0000_0000, 4)
}

/// A length-prefixed field.
pub open spec fn lp(bytes: Seq<u8>) -> Seq<u8> {
    len_prefix(bytes.len()) + bytes
}

pub proof fn lemma_pow256_pos(n: nat)
    ensures
        pow256(n) >= 1,
    decreases n,
{
    if n > 0 {
        lemma_pow256_pos((n - 1) as nat);
    }
}

pub proof fn lemma_be_len(v: nat, n: nat)
    ensures
        be(v, n).len() == n,
    decreases n,
{
    if n > 0 {
        lemma_be_len(v / 256, (n - 1) as nat);
    }
}

/// An encoding of width `n` has `n` bytes.
pub broadcast proof fn lemma_be_length(v: nat, n: nat)
    ensures
        #[trigger] be(v, n).len() == n,
{
    lemma_be_len(v, n);
}

/// Decoding an encoded number gives it back when it fits in `n` bytes.
pub proof fn lemma_be_roundtrip(v: nat, n: nat)
    requires
        v < pow256(n),
    ensures
        be_val(be(v, n)) == v,
        be(v, n).len() == n,
    decreases n,
{
    lemma_be_len(v, n);
    if n > 0 {
        let m = (n - 1) as nat;
        assert(v / 256 < pow256(m)) by (nonlinear_arith)
            requires
                v < 256 * pow256(m),
        ;
        lemma_be_roundtrip(v / 256, m);
        let s = be(v, n);
        assert(s.drop_last() =~= be(v / 256, m));
        assert(s.last() == (v % 256) as u8);
        assert((v / 256) * 256 + v % 256 == v) by (nonlinear_arith);
    }
}

/// Two encodings of equal width are equal only for equal numbers.
pub proof fn lemma_be_injective(a: nat, b: nat, n: nat)
    requires
        a < pow256(n),
        b < pow256(n),
        be(a, n) == be(b, n),
    ensures
        a == b,
{
    lemma_be_roundtrip(a, n);
    lemma_be_roundtrip(b, n);
}

pub proof fn lemma_be_val_bound(s: Seq<u8>)
    ensures
        be_val(s) < pow256(s.len()),
    decreases s.len(),
{
    if s.len() > 0 {
        lemma_be_val_bound(s.drop_last());
        let a = be_val(s.drop_last());
        let p = pow256(s.drop_last().len());
        assert(a * 256 + (s.last() as nat) < 256 * p) by (nonlinear_arith)
            requires
                a < p,
                s.last() < 256,
        ;
    }
}

/// Appends the `n`-byte big-endian encoding of `v`.
pub fn push_be(out: &mut Vec<u8>, v: u128, n: usize)
    requires
        n <= 16,
    ensures
        final(out)@ == old(out)@ + be(v as nat, n as nat),
    decreases n,
{
    if n == 0 {
        assert(old(out)@ + be(v as nat, 0) =~= old(out)@);
    } else {
        push_be(out, v / 256, n - 1);
        let b = (v % 256) as u8;
        out.push(b);
        assert(be(v as nat, n as nat) == be((v / 256) as nat, (n - 1) as nat).push(
            (v % 256) as u8,
        ));
        assert(final(out)@ =~= old(out)@ + be(v as nat, n as nat));
    }
}

pub fn push_u64(out: &mut Vec<u8>, v: u64)
    ensures
        final(out)@ == old(out)@ + be64(v),
{
    push_be(out, v as u128, 8);
}

pub fn push_u32(out: &mut Vec<u8>, v: u32)
    ensures
        final(out)@ == old(out)@ + be32(v),
{
    push_be(out, v as u128, 4);
}

pub fn push_u16(out: &mut Vec<u8>, v: u16)
    ensures
        final(out)@ == old(out)@ + be16(v),
{
    push_be(out, v as u128, 2);
}

pub fn push_u128(out: &mut Vec<u8>, v: u128)
    ensures
        final(out)@ == old(out)@ + be128(v),
{
    push_be(out, v, 16);
}

/// Appends every byte of `bytes`.
pub fn push_bytes(out: &mut Vec<u8>, bytes: &[u8])
    ensures
        final(out)@ == old(out)@ + bytes@,
{
    let mut i: usize = 0;
    while i < bytes.len()
        invariant
            i <= bytes@.len(),
            out@ == old(out)@ + bytes@.subrange(0, i as int),
        decreases bytes@.len() - i,
    {
        out.push(bytes[i]);
        i = i + 1;
        assert(out@ =~= old(out)@ + bytes@.subrange(0, i as int));
    }
    assert(bytes@.subrange(0, bytes@.len() as int) =~= bytes@);
}

/// Appends a length-prefixed field.
pub fn push_lp(out: &mut Vec<u8>, bytes: &[u8])
    ensures
        final(out)@ == old(out)@ + lp(bytes@),
{
    let n = bytes.len();
    push_be(out, (n as u128) % 0x1_0000_0000, 4);
    push_bytes(out, bytes);
    assert(final(out)@ =~= old(out)@ + lp(bytes@));
}

/// Reads `n` big-endian bytes at `start`.
pub fn read_be(b: &[u8], start: usize, n: usize) -> (r: u128)
    requires
        n <= 16,
        start + n <= b@.len(),
    ensures
        r as nat == be_val(b@.subrange(start as int, start + n)),
{
    let mut acc: u128 = 0;
    let mut i: usize = 0;
    while i < n
        invariant
            i <= n,
            n <= 16,
            start + n <= b@.len(),
            b@.len() == b.len(),
            acc as nat == be_val(b@.subrange(start as int, start + i)),
        decreases n - i,
    {
        proof {
            lemma_be_val_bound(b@.subrange(start as int, start + i));
            lemma_pow_le(i as nat);
        }
        let x = b[start + i];
        assert(b@.subrange(start as int, start + i + 1).drop_last() =~= b@.subrange(
            start as int,
            start + i,
        ));
        acc = acc * 256 + x as u128;
        i = i + 1;
    }
    acc
}

proof fn lemma_pow_le(i: nat)
    requires
        i <= 15,
    ensures
        pow256(i) <= 0x1_0000_0000_0000_0000_0000_0000_0000_00,
{
    lemma_pow_mono(i, 15);
    reveal_with_fuel(pow256, 16);
}

proof fn lemma_pow_mono(i: nat, j: nat)
    requires
        i <= j,
    ensures
        pow256(i) <= pow256(j),
    decreases j,
{
    if i < j {
        lemma_pow_mono(i, (j - 1) as nat);
    }
}

/// A big-endian number of `n` bytes at `q`, and the position after it.
pub open spec fn sp_num(b: Seq<u8>, q: int, n: nat) -> Option<(nat, int)> {
    if 0 <= q && q + n <= b.len() {
        Some((be_val(b.subrange(q, q + n)), q + n))
    } else {
        None
    }
}

/// `n` raw bytes at `q`, and the position after them.
pub open spec fn sp_bytes(b: Seq<u8>, q: int, n: nat) -> Option<(Seq<u8>, int)> {
    if 0 <= q && q + n <= b.len() {
        Some((b.subrange(q, q + n), q + n))
    } else {
        None
    }
}

/// A length-prefixed field at `q`, and the position after it.
pub open spec fn sp_lp(b: Seq<u8>, q: int) -> Option<(Seq<u8>, int)> {
    match sp_num(b, q, 4) {
        None => None,
        Some((n, q1)) => sp_bytes(b, q1, n),
    }
}

/// `piece` stands in `b` at position `q`.
#[verifier::opaque]
pub open spec fn holds_at(b: Seq<u8>, q: int, piece: Seq<u8>) -> bool {
    0 <= q && q + piece.len() <= b.len() && b.subrange(q, q + piece.len()) == piece
}

/// Where `x + y` stands at `q`, `x` stands at `q` and `y` right after it.
pub proof fn lemma_holds_at_split(b: Seq<u8>, q: int, x: Seq<u8>, y: Seq<u8>)
    requires
        holds_at(b, q, x + y),
    ensures
        holds_at(b, q, x),
        holds_at(b, q + x.len(), y),
{
    reveal(holds_at);
    let xy = x + y;
    assert(b.subrange(q, q + x.len()) =~= xy.subrange(0, x.len() as int));
    assert(xy.subrange(0, x.len() as int) =~= x);
    assert(b.subrange(q + x.len(), q + x.len() + y.len()) =~= xy.subrange(
        x.len() as int,
        xy.len() as int,
    ));
    assert(xy.subrange(x.len() as int, xy.len() as int) =~= y);
}

/// A whole byte string stands at its own start.
pub proof fn lemma_holds_at_whole(b: Seq<u8>)
    ensures
        holds_at(b, 0, b),
{
    reveal(holds_at);
    assert(b.subrange(0, b.len() as int) =~= b);
}

/// A piece standing at the start of `b` is its prefix.
pub proof fn lemma_holds_at_start(b: Seq<u8>, x: Seq<u8>)
    requires
        holds_at(b, 0, x),
    ensures
        x.len() <= b.len(),
        b.subrange(0, x.len() as int) == x,
{
    reveal(holds_at);
}

pub proof fn lemma_pow256_small()
    ensures
        pow256(1) == 0x100,
        pow256(2) == 0x1_0000,
        pow256(4) == 0x1_0000_0000,
        pow256(8) == 0x1_0000_0000_0000_0000,
        pow256(16) == 0x1_0000_0000_0000_0000_0000_0000_0000_0000,
{
    reveal_with_fuel(pow256, 17);
}

/// Reading `n` bytes where the encoding of `v` stands gives back `v`.
pub proof fn lemma_sp_num_at(b: Seq<u8>, q: int, v: nat, n: nat)
    requires
        holds_at(b, q, be(v, n)),
        v < pow256(n),
    ensures
        sp_num(b, q, n) == Some((v, q + n)),
{
    reveal(holds_at);
    lemma_be_roundtrip(v, n);
}

/// Reading a length-prefixed field where `lp(bytes)` stands gives back `bytes`,
/// when its length fits the prefix.
pub proof fn lemma_sp_lp_at(b: Seq<u8>, q: int, bytes: Seq<u8>)
    requires
        holds_at(b, q, lp(bytes)),
        bytes.len() < 0x1_0000_0000,
    ensures
        sp_lp(b, q) == Some((bytes, q + 4 + bytes.len())),
{
    lemma_be_len(bytes.len() % 0x1_0000_0000, 4);
    lemma_holds_at_split(b, q, len_prefix(bytes.len()), bytes);
    lemma_pow256_small();
    lemma_sp_num_at(b, q, bytes.len(), 4);
    reveal(holds_at);
}

/// Reads one byte, advancing the cursor.
pub fn take_u8(b: &[u8], p: &mut usize) -> (r: Option<u8>)
    ensures
        match sp_num(b@, *old(p) as int, 1) {
            None => r is None && *final(p) == *old(p),
            Some((v, q)) => r == Some(v as u8) && *final(p) == q,
        },
        sp_num(b@, *old(p) as int, 1) matches Some(_) ==> r == Some(b@[*old(p) as int]),
{
    if *p < b.len() {
        let v = b[*p];
        proof {
            let sub = b@.subrange(*p as int, *p + 1);
            assert(sub.drop_last() =~= Seq::<u8>::empty());
            assert(be_val(Seq::<u8>::empty()) == 0);
            assert(sub.last() == v);
            assert(be_val(sub) == v as nat);
        }
        *p = *p + 1;
        Some(v)
    } else {
        None
    }
}

/// Reads an `n`-byte big-endian number, advancing the cursor.
pub fn take_num(b: &[u8], p: &mut usize, n: usize) -> (r: Option<u128>)
    requires
        n <= 16,
    ensures
        match sp_num(b@, *old(p) as int, n as nat) {
            None => r is None && *final(p) == *old(p),
            Some((v, q)) => r matches Some(x) && x as nat == v && *final(p) == q && v < pow256(n as nat),
        },
{
    if *p <= b.len() && n <= b.len() - *p {
        let v = read_be(b, *p, n);
        proof {
            lemma_be_val_bound(b@.subrange(*p as int, *p + n));
        }
        *p = *p + n;
        Some(v)
    } else {
        None
    }
}

/// Reads `n` raw bytes, advancing the cursor.
pub fn take_bytes<'a>(b: &'a [u8], p: &mut usize, n: usize) -> (r: Option<&'a [u8]>)
    ensures
        match sp_bytes(b@, *old(p) as int, n as nat) {
            None => r is None && *final(p) == *old(p),
            Some((v, q)) => r matches Some(x) && x@ == v && *final(p) == q,
        },
{
    if *p <= b.len() && n <= b.len() - *p {
        let x = slice_range(b, *p, *p + n);
        *p = *p + n;
        Some(x)
    } else {
        None
    }
}

/// Reads a length-prefixed field, advancing the cursor.
pub fn take_lp<'a>(b: &'a [u8], p: &mut usize) -> (r: Option<&'a [u8]>)
    ensures
        match sp_lp(b@, *old(p) as int) {
            None => r is None,
            Some((v, q)) => r matches Some(x) && x@ == v && *final(p) == q,
        },
{
    let len = b.len();
    let ghost p0 = *p;
    match take_num(b, p, 4) {
        None => None,
        Some(n) => {
            assert(sp_num(b@, p0 as int, 4) == Some((n as nat, *p as int)));
            if n > len as u128 {
                return None;
            }
            let r = take_bytes(b, p, n as usize);
            assert(sp_lp(b@, p0 as int) == sp_bytes(b@, p0 + 4, n as nat));
            r
        },
    }
}

/// Reads 32 raw bytes, advancing the cursor.
pub fn take_array32(b: &[u8], p: &mut usize) -> (r: Option<[u8; 32]>)
    ensures
        match sp_bytes(b@, *old(p) as int, 32) {
            None => r is None && *final(p) == *old(p),
            Some((v, q)) => r matches Some(x) && x@ == v && *final(p) == q,
        },
{
    let s = match take_bytes(b, p, 32) {
        None => return None,
        Some(s) => s,
    };
    let mut a = [0u8; 32];
    let mut i: usize = 0;
    while i < 32
        invariant
            s@.len() == 32,
            i <= 32,
            forall|j: int| 0 <= j < i ==> a@[j] == s@[j],
        decreases 32 - i,
    {
        a[i] = s[i];
        i = i + 1;
    }
    assert(a@ =~= s@);
    Some(a)
}

/// Reads 64 raw bytes, advancing the cursor.
pub fn take_array64(b: &[u8], p: &mut usize) -> (r: Option<[u8; 64]>)
    ensures
        match sp_bytes(b@, *old(p) as int, 64) {
            None => r is None && *final(p) == *old(p),
            Some((v, q)) => r matches Some(x) && x@ == v && *final(p) == q,
        },
{
    let s = match take_bytes(b, p, 64) {
        None => return None,
        Some(s) => s,
    };
    let mut a = [0u8; 64];
    let mut i: usize = 0;
    while i < 64
        invariant
            s@.len() == 64,
            i <= 64,
            forall|j: int| 0 <= j < i ==> a@[j] == s@[j],
        decreases 64 - i,
    {
        a[i] = s[i];
        i = i + 1;
    }
    assert(a@ =~= s@);
    Some(a)
}

/// The sub-slice `b[lo..hi]`.
pub fn slice_range(b: &[u8], lo: usize, hi: usize) -> (r: &[u8])
    requires
        lo <= hi <= b@.len(),
    ensures
        r@ == b@.subrange(lo as int, hi as int),
{
    &b[lo..hi]
}

/// Calls `String::from_utf8` on a copy of `bytes`.
/// Claimed: the result is a string exactly when the bytes are valid UTF-8, and then
/// its characters are the ones the bytes encode.
#[verifier::external_body]
pub fn utf8_string(bytes: &[u8]) -> (r: Option<String>)
    ensures
        r is Some <==> vstd::utf8::valid_utf8(bytes@),
        r matches Some(s) ==> s@ == vstd::utf8::decode_utf8(bytes@),
{
    String::from_utf8(bytes.to_vec()).ok()
}

/// `a * b`, or `u64::MAX` where the product does not fit.
pub fn sat_mul_u64(a: u64, b: u64) -> (r: u64)
    ensures
        r == (if a * b > u64::MAX { u64::MAX as int } else { a * b }),
{
    match a.checked_mul(b) {
        Some(x) => x,
        None => u64::MAX,
    }
}

/// `a * b`, or `u128::MAX` where the product does not fit.
pub fn sat_mul_u128(a: u128, b: u128) -> (r: u128)
    ensures
        r == (if a * b > u128::MAX { u128::MAX as int } else { a * b }),
{
    match a.checked_mul(b) {
        Some(x) => x,
        None => u128::MAX,
    }
}


/// The character of a decimal digit.
pub open spec fn digit_char(d: nat) -> char {
    if d == 0 {
        '0'
    } else if d == 1 {
        '1'
    } else if d == 2 {
        '2'
    } else if d == 3 {
        '3'
    } else if d == 4 {
        '4'
    } else if d == 5 {
        '5'
    } else if d == 6 {
        '6'
    } else if d == 7 {
        '7'
    } else if d == 8 {
        '8'
    } else {
        '9'
    }
}

/// The decimal notation of `n`, without leading zeros.
pub open spec fn decimal(n: nat) -> Seq<char>
    decreases n,
{
    if n < 10 {
        seq![digit_char(n)]
    } else {
        decimal(n / 10).push(digit_char(n % 10))
    }
}

fn digit_str(d: u64) -> (s: &'static str)
    requires
        d < 10,
    ensures
        s@ == seq![digit_char(d as nat)],
{
    if d == 0 {
        proof {
            reveal_strlit("0");
        }
        "0"
    } else if d == 1 {
        proof {
            reveal_strlit("1");
        }
        "1"
    } else if d == 2 {
        proof {
            reveal_strlit("2");
        }
        "2"
    } else if d == 3 {
        proof {
            reveal_strlit("3");
        }
        "3"
    } else if d == 4 {
        proof {
            reveal_strlit("4");
        }
        "4"
    } else if d == 5 {
        proof {
            reveal_strlit("5");
        }
        "5"
    } else if d == 6 {
        proof {
            reveal_strlit("6");
        }
        "6"
    } else if d == 7 {
        proof {
            reveal_strlit("7");
        }
        "7"
    } else if d == 8 {
        proof {
            reveal_strlit("8");
        }
        "8"
    } else {
        proof {
            reveal_strlit("9");
        }
        "9"
    }
}

/// Appends the decimal notation of `n`.
pub fn push_decimal(out: &mut String, n: u64)
    ensures
        final(out)@ == old(out)@ + decimal(n as nat),
    decreases n,
{
    if n >= 10 {
        push_decimal(out, n / 10);
        out.append(digit_str(n % 10));
        assert(final(out)@ =~= old(out)@ + decimal(n as nat));
    } else {
        out.append(digit_str(n));
    }
}

/// The decimal notation of `n`.
pub fn decimal_string(n: u64) -> (s: String)
    ensures
        s@ == decimal(n as nat),
{
    let mut s = String::new();
    push_decimal(&mut s, n);
    assert(s@ =~= decimal(n as nat));
    s
}

} // verus!
