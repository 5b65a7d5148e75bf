//! The validator set a node is configured with: a list `id:stake:seed`, items
//! separated by commas, the seed as 64 hex characters.
use crate::mempool::utf8;
use vstd::prelude::*;
use vstd::string::StrSliceExecFns;

verus! {

/// A configured validator: its identity, stake and signing seed.
#[derive(Clone, Debug, PartialEq, Eq)]
pub struct ValidatorConfig {
    pub id: String,
    pub stake: u64,
    pub seed: [u8; 32],
}

/// Whether a character is white space, as `char::is_whitespace` decides.
pub open spec fn is_ws(c: char) -> bool {
    ||| '\t' <= c <= '\r'
    ||| c == ' '
    ||| c == '\u{85}'
    ||| c == '\u{a0}'
    ||| c == '\u{1680}'
    ||| '\u{2000}' <= c <= '\u{200a}'
    ||| c == '\u{2028}'
    ||| c == '\u{2029}'
    ||| c == '\u{202f}'
    ||| c == '\u{205f}'
    ||| c == '\u{3000}'
}

pub open spec fn trim_start(s: Seq<char>) -> Seq<char>
    decreases s.len(),
{
    if s.len() > 0 && is_ws(s[0]) {
        trim_start(s.subrange(1, s.len() as int))
    } else {
        s
    }
}

pub open spec fn trim_end(s: Seq<char>) -> Seq<char>
    decreases s.len(),
{
    if s.len() > 0 && is_ws(s.last()) {
        trim_end(s.drop_last())
    } else {
        s
    }
}

/// The text without white space at either end.
pub open spec fn trim(s: Seq<char>) -> Seq<char> {
    trim_end(trim_start(s))
}

/// The pieces of `s` between the occurrences of `sep`; there is always at least one.
pub open spec fn split(s: Seq<char>, sep: char) -> Seq<Seq<char>>
    decreases s.len(),
{
    if s.len() == 0 {
        seq![Seq::<char>::empty()]
    } else {
        let p = split(s.drop_last(), sep);
        if s.last() == sep {
            p.push(Seq::<char>::empty())
        } else {
            p.update(p.len() - 1, p.last().push(s.last()))
        }
    }
}

/// The value of a hex digit, either case.
pub open spec fn hex_val(c: char) -> Option<u8> {
    if '0' <= c <= '9' {
        Some((c as u32 - '0' as u32) as u8)
    } else if 'a' <= c <= 'f' {
        Some((c as u32 - 'a' as u32 + 10) as u8)
    } else if 'A' <= c <= 'F' {
        Some((c as u32 - 'A' as u32 + 10) as u8)
    } else {
        None
    }
}

/// The byte two characters denote in base 16, as `u8::from_str_radix` reads them: two
/// digits, or a plus sign and one digit.
pub open spec fn pair_val(a: char, b: char) -> Option<u8> {
    if a == '+' {
        hex_val(b)
    } else {
        match (hex_val(a), hex_val(b)) {
            (Some(x), Some(y)) => Some((x * 16 + y) as u8),
            _ => None,
        }
    }
}

/// The bytes of the first `k` character pairs, where each is a byte.
pub open spec fn hex_pairs(s: Seq<char>, k: nat) -> Option<Seq<u8>>
    decreases k,
{
    if k == 0 {
        Some(Seq::empty())
    } else {
        match hex_pairs(s, (k - 1) as nat) {
            None => None,
            Some(b) => match pair_val(s[2 * k - 2], s[2 * k - 1]) {
                None => None,
                Some(x) => Some(b.push(x)),
            },
        }
    }
}

/// The bytes a hex text denotes: an even number of bytes, each pair one byte. A
/// text with other than ASCII characters is refused as invalid.
pub open spec fn hex_decoded(s: Seq<char>) -> Result<Seq<u8>, Seq<char>> {
    if utf8(s).len() % 2 != 0 {
        Err("hex value has odd length"@)
    } else if !vstd::utf8::is_ascii_chars(s) {
        Err("invalid hex value"@)
    } else {
        match hex_pairs(s, s.len() / 2) {
            Some(b) => Ok(b),
            None => Err("invalid hex value"@),
        }
    }
}

pub open spec fn all_digits(s: Seq<char>) -> bool {
    forall|i: int| 0 <= i < s.len() ==> '0' <= #[trigger] s[i] <= '9'
}

pub open spec fn digits_value(s: Seq<char>) -> nat
    decreases s.len(),
{
    if s.len() == 0 {
        0
    } else {
        digits_value(s.drop_last()) * 10 + (s.last() as u32 - '0' as u32) as nat
    }
}

/// The number a text denotes as `u64::from_str` reads it: an optional plus sign and
/// at least one decimal digit, at most `u64::MAX`.
pub open spec fn number_of(s: Seq<char>) -> Option<u64> {
    let d = if s.len() > 0 && s[0] == '+' {
        s.subrange(1, s.len() as int)
    } else {
        s
    };
    if d.len() == 0 || !all_digits(d) || digits_value(d) > u64::MAX {
        None
    } else {
        Some(digits_value(d) as u64)
    }
}

/// The seed a configured text denotes: 64 hex characters once trimmed.
pub open spec fn seed_of(s: Seq<char>) -> Result<Seq<u8>, Seq<char>> {
    let raw = trim(s);
    if utf8(raw).len() != 64 {
        Err("validator seed must contain exactly 64 hex characters"@)
    } else {
        hex_decoded(raw)
    }
}

/// The validator one configured item denotes: `id:stake:seed`, with the identity
/// trimmed, a positive stake, and nothing after the seed.
pub open spec fn item_of(item: Seq<char>) -> Result<(Seq<char>, u64, Seq<u8>), Seq<char>> {
    let parts = split(item, ':');
    let id = trim(parts[0]);
    if parts.len() < 2 {
        Err("validator stake missing"@)
    } else {
        match number_of(parts[1]) {
            None => Err("invalid validator stake"@),
            Some(stake) => if parts.len() < 3 {
                Err("validator seed missing"@)
            } else {
                match seed_of(parts[2]) {
                    Err(e) => Err(e),
                    Ok(seed) => if parts.len() > 3 || id.len() == 0 || stake == 0 {
                        Err("validator format is id:stake:64hexseed"@)
                    } else {
                        Ok((id, stake, seed))
                    },
                }
            },
        }
    }
}

/// The validators of the items, blank items skipped; the first refused item decides.
pub open spec fn items_of(items: Seq<Seq<char>>) -> Result<
    Seq<(Seq<char>, u64, Seq<u8>)>,
    Seq<char>,
>
    decreases items.len(),
{
    if items.len() == 0 {
        Ok(Seq::empty())
    } else {
        match items_of(items.drop_last()) {
            Err(e) => Err(e),
            Ok(acc) => if trim(items.last()).len() == 0 {
                Ok(acc)
            } else {
                match item_of(items.last()) {
                    Err(e) => Err(e),
                    Ok(x) => Ok(acc.push(x)),
                }
            },
        }
    }
}

/// The validators a configuration text lists: at least one.
pub open spec fn validators_of(raw: Seq<char>) -> Result<
    Seq<(Seq<char>, u64, Seq<u8>)>,
    Seq<char>,
> {
    match items_of(split(raw, ',')) {
        Err(e) => Err(e),
        Ok(l) => if l.len() == 0 {
            Err("ATC_VALIDATORS must contain at least one validator"@)
        } else {
            Ok(l)
        },
    }
}

pub open spec fn config_view(c: ValidatorConfig) -> (Seq<char>, u64, Seq<u8>) {
    (c.id@, c.stake, c.seed@)
}

fn chars_of(s: &str) -> (v: Vec<char>)
    ensures
        v@ == s@,
{
    let n = s.unicode_len();
    let mut v: Vec<char> = Vec::new();
    let mut i: usize = 0;
    while i < n
        invariant
            n == s@.len(),
            i <= n,
            v@ == s@.take(i as int),
        decreases n - i,
    {
        v.push(s.get_char(i));
        proof {
            assert(v@ =~= s@.take(i as int + 1));
        }
        i = i + 1;
    }
    assert(s@.take(n as int) =~= s@);
    v
}

fn ws(c: char) -> (r: bool)
    ensures
        r == is_ws(c),
{
    ('\t' <= c && c <= '\r') || c == ' ' || c == '\u{85}' || c == '\u{a0}' || c == '\u{1680}' || (
    '\u{2000}' <= c && c <= '\u{200a}') || c == '\u{2028}' || c == '\u{2029}' || c == '\u{202f}'
        || c == '\u{205f}' || c == '\u{3000}'
}

/// The bounds of the trimmed piece of `v` between `lo` and `hi`.
fn trim_bounds(v: &Vec<char>, lo: usize, hi: usize) -> (r: (usize, usize))
    requires
        lo <= hi <= v@.len(),
    ensures
        lo <= r.0 <= r.1 <= hi,
        v@.subrange(r.0 as int, r.1 as int) == trim(v@.subrange(lo as int, hi as int)),
{
    let mut a = lo;
    while a < hi && ws(v[a])
        invariant
            lo <= a <= hi <= v@.len(),
            trim_start(v@.subrange(lo as int, hi as int)) == trim_start(
                v@.subrange(a as int, hi as int),
            ),
        decreases hi - a,
    {
        proof {
            assert(v@.subrange(a as int, hi as int).subrange(1, (hi - a) as int) =~= v@.subrange(
                a as int + 1,
                hi as int,
            ));
        }
        a = a + 1;
    }
    let ghost t = v@.subrange(a as int, hi as int);
    assert(trim_start(t) == t);
    let mut b = hi;
    while b > a && ws(v[b - 1])
        invariant
            lo <= a <= b <= hi <= v@.len(),
            trim_end(t) == trim_end(v@.subrange(a as int, b as int)),
            t == v@.subrange(a as int, hi as int),
        decreases b - a,
    {
        proof {
            assert(v@.subrange(a as int, b as int).drop_last() =~= v@.subrange(
                a as int,
                b as int - 1,
            ));
        }
        b = b - 1;
    }
    (a, b)
}

/// The bounds of the pieces of `v` between `lo` and `hi` that `sep` separates.
fn split_ranges(v: &Vec<char>, lo: usize, hi: usize, sep: char) -> (r: Vec<(usize, usize)>)
    requires
        lo <= hi <= v@.len(),
    ensures
        r@.len() == split(v@.subrange(lo as int, hi as int), sep).len(),
        forall|k: int|
            0 <= k < r@.len() ==> lo <= (#[trigger] r@[k]).0 <= r@[k].1 <= hi && v@.subrange(
                r@[k].0 as int,
                r@[k].1 as int,
            ) == split(v@.subrange(lo as int, hi as int), sep)[k],
{
    let mut r: Vec<(usize, usize)> = Vec::new();
    r.push((lo, lo));
    let mut i = lo;
    assert(v@.subrange(lo as int, lo as int) =~= Seq::<char>::empty());
    assert(r@[0].0 == lo);
    while i < hi
        invariant
            lo <= i <= hi <= v@.len(),
            r@.len() >= 1,
            r@.len() == split(v@.subrange(lo as int, i as int), sep).len(),
            r@[r@.len() - 1].1 == i,
            forall|k: int|
                0 <= k < r@.len() ==> lo <= (#[trigger] r@[k]).0 <= r@[k].1 <= i && v@.subrange(
                    r@[k].0 as int,
                    r@[k].1 as int,
                ) == split(v@.subrange(lo as int, i as int), sep)[k],
        decreases hi - i,
    {
        let ghost s1 = v@.subrange(lo as int, i as int + 1);
        proof {
            assert(s1.drop_last() =~= v@.subrange(lo as int, i as int));
            assert(s1.last() == v@[i as int]);
        }
        let ghost before = r@;
        if v[i] == sep {
            r.push((i + 1, i + 1));
            proof {
                assert(v@.subrange(i as int + 1, i as int + 1) =~= Seq::<char>::empty());
                assert forall|k: int| 0 <= k < r@.len() implies lo <= (#[trigger] r@[k]).0
                    <= r@[k].1 <= i + 1 && v@.subrange(r@[k].0 as int, r@[k].1 as int) == split(
                    s1,
                    sep,
                )[k] by {
                    if k < before.len() {
                        assert(r@[k] == before[k]);
                    }
                }
            }
        } else {
            let last = r.len() - 1;
            let (a, _) = r[last];
            r.set(last, (a, i + 1));
            proof {
                assert(v@.subrange(a as int, i as int + 1) =~= v@.subrange(a as int, i as int).push(
                    v@[i as int],
                ));
                assert forall|k: int| 0 <= k < r@.len() implies lo <= (#[trigger] r@[k]).0
                    <= r@[k].1 <= i + 1 && v@.subrange(r@[k].0 as int, r@[k].1 as int) == split(
                    s1,
                    sep,
                )[k] by {
                    if k < last {
                        assert(r@[k] == before[k]);
                    }
                }
            }
        }
        i = i + 1;
    }
    r
}

fn hex_value(c: char) -> (r: Option<u8>)
    ensures
        r == hex_val(c),
{
    if '0' <= c && c <= '9' {
        Some((c as u32 - '0' as u32) as u8)
    } else if 'a' <= c && c <= 'f' {
        Some((c as u32 - 'a' as u32 + 10) as u8)
    } else if 'A' <= c && c <= 'F' {
        Some((c as u32 - 'A' as u32 + 10) as u8)
    } else {
        None
    }
}

fn pair_value(a: char, b: char) -> (r: Option<u8>)
    ensures
        r == pair_val(a, b),
{
    if a == '+' {
        hex_value(b)
    } else {
        match (hex_value(a), hex_value(b)) {
            (Some(x), Some(y)) => Some(x * 16 + y),
            _ => None,
        }
    }
}

/// The bytes a hex text denotes, each pair of characters one byte.
pub fn hex_to_bytes(value: &str) -> (r: Result<Vec<u8>, String>)
    ensures
        match hex_decoded(value@) {
            Ok(b) => r matches Ok(v) && v@ == b,
            Err(e) => r matches Err(x) && x@ == e,
        },
{
    if value.as_bytes().len() % 2 != 0 {
        return Err("hex value has odd length".to_string());
    }
    if !value.is_ascii() {
        return Err("invalid hex value".to_string());
    }
    let v = chars_of(value);
    proof {
        vstd::utf8::is_ascii_chars_encode_utf8(value@);
    }
    let n = v.len() / 2;
    let mut out: Vec<u8> = Vec::new();
    let mut k: usize = 0;
    while k < n
        invariant
            v@ == value@,
            n == v@.len() / 2,
            k <= n,
            hex_pairs(v@, k as nat) == Some(out@),
            utf8(value@).len() % 2 == 0,
            vstd::utf8::is_ascii_chars(value@),
        decreases n - k,
    {
        let len = v.len();
        assert(2 * k + 1 < len) by (nonlinear_arith)
            requires
                k < n,
                n == len / 2,
        ;
        let j: usize = 2 * k;
        match pair_value(v[j], v[j + 1]) {
            None => {
                proof {
                    lemma_pairs_fail(v@, (k + 1) as nat, n as nat);
                }
                return Err("invalid hex value".to_string());
            },
            Some(x) => {
                out.push(x);
            },
        }
        k = k + 1;
    }
    Ok(out)
}

/// A failed pair makes every longer run of pairs fail.
proof fn lemma_pairs_fail(s: Seq<char>, k: nat, n: nat)
    requires
        k <= n,
        hex_pairs(s, k) is None,
    ensures
        hex_pairs(s, n) is None,
    decreases n - k,
{
    if k < n {
        lemma_pairs_fail(s, k + 1, n);
        assert(hex_pairs(s, (k + 1) as nat) is None);
    }
}

/// The digits value of a prefix is at most that of the whole.
proof fn lemma_digits_grow(s: Seq<char>, j: int)
    requires
        0 <= j <= s.len(),
        all_digits(s),
    ensures
        digits_value(s.take(j)) <= digits_value(s),
    decreases s.len() - j,
{
    if j < s.len() {
        lemma_digits_grow(s, j + 1);
        assert(s.take(j + 1).drop_last() =~= s.take(j));
        assert(digits_value(s.take(j + 1)) == digits_value(s.take(j)) * 10 + (s[j] as u32 - '0' as u32) as nat);
        assert(digits_value(s.take(j)) <= digits_value(s.take(j)) * 10) by (nonlinear_arith);
    } else {
        assert(s.take(j) =~= s);
    }
}

/// The number a text denotes, as `u64::from_str` reads it.
fn number(s: &str) -> (r: Option<u64>)
    ensures
        r == number_of(s@),
{
    let v = chars_of(s);
    let start: usize = if v.len() > 0 && v[0] == '+' {
        1
    } else {
        0
    };
    let ghost d = v@.subrange(start as int, v@.len() as int);
    assert(d == (if s@.len() > 0 && s@[0] == '+' {
        s@.subrange(1, s@.len() as int)
    } else {
        s@
    }));
    if start == v.len() {
        return None;
    }
    let mut value: u64 = 0;
    let mut i = start;
    let mut overflow = false;
    while i < v.len()
        invariant
            v@ == s@,
            start <= i <= v@.len(),
            d == v@.subrange(start as int, v@.len() as int),
            all_digits(d.take(i - start)),
            !overflow ==> value == digits_value(d.take(i - start)),
            overflow ==> digits_value(d.take(i - start)) > u64::MAX,
            d == (if s@.len() > 0 && s@[0] == '+' {
                s@.subrange(1, s@.len() as int)
            } else {
                s@
            }),
            d.len() > 0,
        decreases v@.len() - i,
    {
        let c = v[i];
        if !('0' <= c && c <= '9') {
            assert(d[i - start] == c);
            assert(!all_digits(d));
            return None;
        }
        let digit = (c as u32 - '0' as u32) as u64;
        proof {
            let j = i - start;
            assert(d.take(j + 1).drop_last() =~= d.take(j));
            assert(d.take(j + 1).last() == c);
            assert(all_digits(d.take(j + 1)));
            if overflow {
                assert(digits_value(d.take(j)) <= digits_value(d.take(j)) * 10) by (nonlinear_arith);
            }
        }
        if !overflow {
            match value.checked_mul(10) {
                None => {
                    overflow = true;
                },
                Some(m) => match m.checked_add(digit) {
                    None => {
                        overflow = true;
                    },
                    Some(x) => {
                        value = x;
                    },
                },
            }
        }
        i = i + 1;
    }
    assert(d.take(d.len() as int) =~= d);
    if overflow {
        return None;
    }
    Some(value)
}

/// The text without white space at either end.
fn trimmed(s: &str) -> (r: &str)
    ensures
        r@ == trim(s@),
{
    let v = chars_of(s);
    let (a, b) = trim_bounds(&v, 0, v.len());
    assert(v@.subrange(0, v@.len() as int) =~= v@);
    s.substring_char(a, b)
}

/// The 32-byte seed a configured text denotes.
pub fn parse_seed(value: &str) -> (r: Result<[u8; 32], String>)
    ensures
        match seed_of(value@) {
            Ok(b) => r matches Ok(a) && a@ == b,
            Err(e) => r matches Err(x) && x@ == e,
        },
{
    let raw = trimmed(value);
    if raw.as_bytes().len() != 64 {
        return Err("validator seed must contain exactly 64 hex characters".to_string());
    }
    let bytes = hex_to_bytes(raw)?;
    proof {
        vstd::utf8::is_ascii_chars_encode_utf8(raw@);
        lemma_pairs_len(raw@, raw@.len() / 2);
    }
    let mut seed = [0u8; 32];
    let mut i: usize = 0;
    while i < 32
        invariant
            bytes@.len() == 32,
            i <= 32,
            forall|j: int| 0 <= j < i ==> seed@[j] == bytes@[j],
        decreases 32 - i,
    {
        seed[i] = bytes[i];
        i = i + 1;
    }
    assert(seed@ =~= bytes@);
    Ok(seed)
}

/// Decoding `k` pairs gives `k` bytes.
proof fn lemma_pairs_len(s: Seq<char>, k: nat)
    ensures
        hex_pairs(s, k) matches Some(b) ==> b.len() == k,
    decreases k,
{
    if k > 0 {
        lemma_pairs_len(s, (k - 1) as nat);
    }
}

/// Every split has at least one piece.
proof fn lemma_split_nonempty(s: Seq<char>, sep: char)
    ensures
        split(s, sep).len() >= 1,
    decreases s.len(),
{
    if s.len() > 0 {
        lemma_split_nonempty(s.drop_last(), sep);
    }
}

/// The validator one configured item denotes.
fn parse_item(item: &str) -> (r: Result<ValidatorConfig, String>)
    ensures
        match item_of(item@) {
            Ok(x) => r matches Ok(c) && config_view(c) == x,
            Err(e) => r matches Err(m) && m@ == e,
        },
{
    let v = chars_of(item);
    let parts = split_ranges(&v, 0, v.len(), ':');
    proof {
        assert(v@.subrange(0, v@.len() as int) =~= item@);
        lemma_split_nonempty(item@, ':');
    }
    let (a0, b0) = parts[0];
    let (ia, ib) = trim_bounds(&v, a0, b0);
    if parts.len() < 2 {
        return Err("validator stake missing".to_string());
    }
    let (a1, b1) = parts[1];
    let stake = match number(item.substring_char(a1, b1)) {
        None => return Err("invalid validator stake".to_string()),
        Some(n) => n,
    };
    if parts.len() < 3 {
        return Err("validator seed missing".to_string());
    }
    let (a2, b2) = parts[2];
    let seed = parse_seed(item.substring_char(a2, b2))?;
    if parts.len() > 3 || ia == ib || stake == 0 {
        return Err("validator format is id:stake:64hexseed".to_string());
    }
    let id = item.substring_char(ia, ib).to_string();
    Ok(ValidatorConfig { id, stake, seed })
}

/// A refused item inside a list refuses every longer list with the same error.
proof fn lemma_items_refused(items: Seq<Seq<char>>, k: int)
    requires
        0 <= k <= items.len(),
        items_of(items.take(k)) is Err,
    ensures
        items_of(items) == items_of(items.take(k)),
    decreases items.len() - k,
{
    if k < items.len() {
        assert(items.take(k + 1).drop_last() =~= items.take(k));
        lemma_items_refused(items, k + 1);
    } else {
        assert(items.take(k) =~= items);
    }
}

/// The validators a configuration text lists: items `id:stake:seed` separated by
/// commas, blank items skipped, at least one validator.
pub fn parse_validators(raw: &str) -> (r: Result<Vec<ValidatorConfig>, String>)
    ensures
        match validators_of(raw@) {
            Ok(l) => r matches Ok(v) && v@.map_values(|c: ValidatorConfig| config_view(c)) == l,
            Err(e) => r matches Err(m) && m@ == e,
        },
{
    let v = chars_of(raw);
    let items = split_ranges(&v, 0, v.len(), ',');
    let ghost pieces = split(raw@, ',');
    proof {
        assert(v@.subrange(0, v@.len() as int) =~= raw@);
    }
    let mut out: Vec<ValidatorConfig> = Vec::new();
    let mut k: usize = 0;
    assert(pieces.take(0) =~= Seq::<Seq<char>>::empty());
    assert(out@.map_values(|c: ValidatorConfig| config_view(c)) =~= Seq::<(Seq<char>, u64, Seq<u8>)>::empty());
    while k < items.len()
        invariant
            v@ == raw@,
            pieces == split(raw@, ','),
            items@.len() == pieces.len(),
            forall|j: int|
                0 <= j < items@.len() ==> 0 <= (#[trigger] items@[j]).0 <= items@[j].1 <= v@.len()
                    && v@.subrange(items@[j].0 as int, items@[j].1 as int) == pieces[j],
            k <= items@.len(),
            items_of(pieces.take(k as int)) == Ok::<Seq<(Seq<char>, u64, Seq<u8>)>, Seq<char>>(
                out@.map_values(|c: ValidatorConfig| config_view(c)),
            ),
        decreases items@.len() - k,
    {
        let (a, b) = items[k];
        proof {
            assert(pieces.take(k as int + 1).drop_last() =~= pieces.take(k as int));
            assert(pieces.take(k as int + 1).last() == pieces[k as int]);
        }
        let (ta, tb) = trim_bounds(&v, a, b);
        if ta != tb {
            let ghost before = out@;
            match parse_item(raw.substring_char(a, b)) {
                Err(e) => {
                    proof {
                        lemma_items_refused(pieces, k as int + 1);
                    }
                    return Err(e);
                },
                Ok(c) => {
                    out.push(c);
                    proof {
                        assert(out@.map_values(|c: ValidatorConfig| config_view(c)) =~= before.map_values(
                            |c: ValidatorConfig| config_view(c),
                        ).push(config_view(c)));
                    }
                },
            }
        }
        k = k + 1;
    }
    assert(pieces.take(items@.len() as int) =~= pieces);
    if out.len() == 0 {
        return Err("ATC_VALIDATORS must contain at least one validator".to_string());
    }
    Ok(out)
}

/// The configuration of a single validator `node_id` with stake one and the seed of
/// thirty-two bytes 0x01.
pub fn default_validators(node_id: &str) -> (s: String)
    ensures
        s@ == node_id@ + ":1:"@ + Seq::new(64, |i: int| if i % 2 == 0 { '0' } else { '1' }),
{
    let mut s = node_id.to_string();
    s.append(":1:");
    let mut i: usize = 0;
    let ghost base = s@;
    while i < 32
        invariant
            i <= 32,
            s@ == base + Seq::new(2 * i as nat, |j: int| if j % 2 == 0 { '0' } else { '1' }),
        decreases 32 - i,
    {
        s.append("01");
        proof {
            reveal_strlit("01");
            assert(s@ =~= base + Seq::new(2 * (i + 1) as nat, |j: int| if j % 2 == 0 { '0' } else { '1' }));
        }
        i = i + 1;
    }
    s
}

} // verus!
