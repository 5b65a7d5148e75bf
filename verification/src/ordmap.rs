//! Ordered maps kept as strictly sorted association vectors, so that every
//! iteration, encoding and commitment walks the keys in one canonical order.
use vstd::prelude::*;

verus! {

/// Outcome of comparing two keys.
#[derive(PartialEq, Eq, Structural, Copy, Clone, Debug)]
pub enum KeyOrder {
    Before,
    Same,
    After,
}

/// Lexicographic order on byte strings (the order of `[u8]` and `str`).
pub open spec fn bytes_lt(a: Seq<u8>, b: Seq<u8>) -> bool
    decreases a.len(),
{
    if a.len() == 0 {
        b.len() > 0
    } else if b.len() == 0 {
        false
    } else if a[0] < b[0] {
        true
    } else if a[0] > b[0] {
        false
    } else {
        bytes_lt(a.drop_first(), b.drop_first())
    }
}

pub proof fn lemma_bytes_lt_irrefl(a: Seq<u8>)
    ensures
        !bytes_lt(a, a),
    decreases a.len(),
{
    if a.len() > 0 {
        lemma_bytes_lt_irrefl(a.drop_first());
    }
}

pub proof fn lemma_bytes_lt_trans(a: Seq<u8>, b: Seq<u8>, c: Seq<u8>)
    requires
        bytes_lt(a, b),
        bytes_lt(b, c),
    ensures
        bytes_lt(a, c),
    decreases a.len(),
{
    if a.len() > 0 && b.len() > 0 && c.len() > 0 && a[0] == b[0] && b[0] == c[0] {
        lemma_bytes_lt_trans(a.drop_first(), b.drop_first(), c.drop_first());
    }
}

pub proof fn lemma_bytes_lt_total(a: Seq<u8>, b: Seq<u8>)
    ensures
        bytes_lt(a, b) || bytes_lt(b, a) || a == b,
    decreases a.len(),
{
    if a.len() > 0 && b.len() > 0 && a[0] == b[0] {
        lemma_bytes_lt_total(a.drop_first(), b.drop_first());
        if a.drop_first() == b.drop_first() {
            assert(a =~= b) by {
                assert forall|i: int| 0 <= i < a.len() implies a[i] == b[i] by {
                    if i > 0 {
                        assert(a[i] == a.drop_first()[i - 1]);
                        assert(b[i] == b.drop_first()[i - 1]);
                    }
                }
            }
        }
    }
    if a.len() == 0 && b.len() == 0 {
        assert(a =~= b);
    }
}

pub proof fn lemma_bytes_lt_order(a: Seq<u8>, b: Seq<u8>, c: Seq<u8>)
    ensures
        !bytes_lt(a, a),
        bytes_lt(a, b) && bytes_lt(b, c) ==> bytes_lt(a, c),
        bytes_lt(a, b) || bytes_lt(b, a) || a == b,
{
    lemma_bytes_lt_irrefl(a);
    lemma_bytes_lt_total(a, b);
    if bytes_lt(a, b) && bytes_lt(b, c) {
        lemma_bytes_lt_trans(a, b, c);
    }
}

/// Whether two byte strings are equal.
pub fn bytes_equal(a: &[u8], b: &[u8]) -> (r: bool)
    ensures
        r == (a@ == b@),
{
    compare_bytes(a, b) == KeyOrder::Same
}

/// Whether two strings are equal.
pub fn str_equal(a: &str, b: &str) -> (r: bool)
    ensures
        r == (a@ == b@),
{
    proof {
        vstd::utf8::encode_utf8_decode_utf8(a@);
        vstd::utf8::encode_utf8_decode_utf8(b@);
    }
    bytes_equal(a.as_bytes(), b.as_bytes())
}

/// Compares two byte strings lexicographically.
pub fn compare_bytes(a: &[u8], b: &[u8]) -> (r: KeyOrder)
    ensures
        (r == KeyOrder::Before) == bytes_lt(a@, b@),
        (r == KeyOrder::Same) == (a@ == b@),
        (r == KeyOrder::After) == bytes_lt(b@, a@),
{
    proof {
        lemma_bytes_lt_order(a@, b@, a@);
        lemma_bytes_lt_order(b@, a@, b@);
    }
    let mut i: usize = 0;
    assert(a@.skip(0) =~= a@);
    assert(b@.skip(0) =~= b@);
    while i < a.len() && i < b.len()
        invariant
            i <= a@.len(),
            i <= b@.len(),
            forall|j: int| 0 <= j < i ==> a@[j] == b@[j],
            bytes_lt(a@, b@) == bytes_lt(a@.skip(i as int), b@.skip(i as int)),
            bytes_lt(b@, a@) == bytes_lt(b@.skip(i as int), a@.skip(i as int)),
        decreases a@.len() - i,
    {
        let x = a[i];
        let y = b[i];
        assert(a@.skip(i as int)[0] == x);
        assert(b@.skip(i as int)[0] == y);
        if x < y {
            return KeyOrder::Before;
        } else if x > y {
            return KeyOrder::After;
        }
        assert(a@.skip(i as int).drop_first() =~= a@.skip(i + 1));
        assert(b@.skip(i as int).drop_first() =~= b@.skip(i + 1));
        i = i + 1;
    }
    if i == a.len() && i == b.len() {
        assert(a@ =~= b@);
        KeyOrder::Same
    } else if i == a.len() {
        KeyOrder::Before
    } else {
        KeyOrder::After
    }
}

/// A key type with a total strict order on its view and an exact comparison.
pub trait MapKey: Sized + View {
    spec fn key_lt(a: Self::V, b: Self::V) -> bool;

    proof fn lemma_key_order(a: Self::V, b: Self::V, c: Self::V)
        ensures
            !Self::key_lt(a, a),
            Self::key_lt(a, b) && Self::key_lt(b, c) ==> Self::key_lt(a, c),
            Self::key_lt(a, b) || Self::key_lt(b, a) || a == b,
    ;

    fn compare_key(&self, other: &Self) -> (r: KeyOrder)
        ensures
            (r == KeyOrder::Before) == Self::key_lt(self@, other@),
            (r == KeyOrder::Same) == (self@ == other@),
            (r == KeyOrder::After) == Self::key_lt(other@, self@),
    ;

    fn copy_key(&self) -> (r: Self)
        ensures
            r@ == self@,
    ;
}

impl MapKey for u64 {
    open spec fn key_lt(a: u64, b: u64) -> bool {
        a < b
    }

    proof fn lemma_key_order(a: u64, b: u64, c: u64) {
    }

    fn compare_key(&self, other: &u64) -> (r: KeyOrder) {
        if *self < *other {
            KeyOrder::Before
        } else if *self == *other {
            KeyOrder::Same
        } else {
            KeyOrder::After
        }
    }

    fn copy_key(&self) -> (r: u64) {
        *self
    }
}

/// Strings are ordered by their UTF-8 bytes, as `str` orders them.
pub open spec fn str_lt(a: Seq<char>, b: Seq<char>) -> bool {
    bytes_lt(vstd::utf8::encode_utf8(a), vstd::utf8::encode_utf8(b))
}

pub proof fn lemma_str_order(a: Seq<char>, b: Seq<char>, c: Seq<char>)
    ensures
        !str_lt(a, a),
        str_lt(a, b) && str_lt(b, c) ==> str_lt(a, c),
        str_lt(a, b) || str_lt(b, a) || a == b,
{
    let ea = vstd::utf8::encode_utf8(a);
    let eb = vstd::utf8::encode_utf8(b);
    let ec = vstd::utf8::encode_utf8(c);
    lemma_bytes_lt_order(ea, eb, ec);
    vstd::utf8::encode_utf8_decode_utf8(a);
    vstd::utf8::encode_utf8_decode_utf8(b);
}

impl MapKey for String {
    open spec fn key_lt(a: Seq<char>, b: Seq<char>) -> bool {
        str_lt(a, b)
    }

    proof fn lemma_key_order(a: Seq<char>, b: Seq<char>, c: Seq<char>) {
        lemma_str_order(a, b, c);
    }

    fn compare_key(&self, other: &String) -> (r: KeyOrder) {
        proof {
            vstd::utf8::encode_utf8_decode_utf8(self@);
            vstd::utf8::encode_utf8_decode_utf8(other@);
        }
        compare_bytes(self.as_str().as_bytes(), other.as_str().as_bytes())
    }

    fn copy_key(&self) -> (r: String) {
        self.clone()
    }
}

impl MapKey for [u8; 32] {
    open spec fn key_lt(a: Seq<u8>, b: Seq<u8>) -> bool {
        bytes_lt(a, b)
    }

    proof fn lemma_key_order(a: Seq<u8>, b: Seq<u8>, c: Seq<u8>) {
        lemma_bytes_lt_order(a, b, c);
    }

    fn compare_key(&self, other: &[u8; 32]) -> (r: KeyOrder) {
        compare_bytes(self.as_slice(), other.as_slice())
    }

    fn copy_key(&self) -> (r: [u8; 32]) {
        *self
    }
}

/// Pairs are ordered by their first component, then by their second.
impl<A: MapKey, B: MapKey> MapKey for (A, B) {
    open spec fn key_lt(a: (A::V, B::V), b: (A::V, B::V)) -> bool {
        A::key_lt(a.0, b.0) || (a.0 == b.0 && B::key_lt(a.1, b.1))
    }

    proof fn lemma_key_order(a: (A::V, B::V), b: (A::V, B::V), c: (A::V, B::V)) {
        A::lemma_key_order(a.0, b.0, c.0);
        B::lemma_key_order(a.1, b.1, c.1);
        A::lemma_key_order(a.0, c.0, b.0);
        A::lemma_key_order(b.0, a.0, c.0);
    }

    fn compare_key(&self, other: &(A, B)) -> (r: KeyOrder) {
        proof {
            A::lemma_key_order(self.0@, other.0@, self.0@);
            B::lemma_key_order(self.1@, other.1@, self.1@);
        }
        match self.0.compare_key(&other.0) {
            KeyOrder::Same => self.1.compare_key(&other.1),
            o => o,
        }
    }

    fn copy_key(&self) -> (r: (A, B)) {
        (self.0.copy_key(), self.1.copy_key())
    }
}

/// The map that a sequence of (key, value) pairs denotes; later pairs win.
pub open spec fn map_of<K, V>(s: Seq<(K, V)>) -> Map<K, V>
    decreases s.len(),
{
    if s.len() == 0 {
        Map::empty()
    } else {
        map_of(s.drop_last()).insert(s.last().0, s.last().1)
    }
}

pub proof fn lemma_map_of_dom<K, V>(s: Seq<(K, V)>, k: K)
    ensures
        map_of(s).contains_key(k) <==> exists|i: int| 0 <= i < s.len() && (#[trigger] s[i]).0 == k,
    decreases s.len(),
{
    if s.len() > 0 {
        lemma_map_of_dom(s.drop_last(), k);
        if map_of(s.drop_last()).contains_key(k) {
            let i = choose|i: int| 0 <= i < s.drop_last().len() && (#[trigger] s.drop_last()[i]).0 == k;
            assert(s[i] == s.drop_last()[i]);
        }
        if exists|i: int| 0 <= i < s.len() && (#[trigger] s[i]).0 == k {
            let i = choose|i: int| 0 <= i < s.len() && (#[trigger] s[i]).0 == k;
            if i < s.len() - 1 {
                assert(s.drop_last()[i] == s[i]);
            }
        }
    }
}

/// With pairwise distinct keys, the pair at index `i` is what the map holds for its key.
pub proof fn lemma_map_of_at<K, V>(s: Seq<(K, V)>, i: int)
    requires
        0 <= i < s.len(),
        forall|a: int, b: int| 0 <= a < b < s.len() ==> (#[trigger] s[a]).0 != (#[trigger] s[b]).0,
    ensures
        map_of(s).contains_key(s[i].0),
        map_of(s)[s[i].0] == s[i].1,
    decreases s.len(),
{
    if i < s.len() - 1 {
        let t = s.drop_last();
        assert forall|a: int, b: int| 0 <= a < b < t.len() implies (#[trigger] t[a]).0 != (
        #[trigger] t[b]).0 by {
            assert(t[a] == s[a]);
            assert(t[b] == s[b]);
        }
        assert(t[i] == s[i]);
        lemma_map_of_at(t, i);
        assert(s[i].0 != s[s.len() - 1].0);
    }
}

/// Two sequences of pairs, each strictly sorted by key, that denote maps with the
/// same keys list those keys in the same order.
pub proof fn lemma_sorted_same_keys<K: MapKey, V, W>(s: Seq<(K::V, V)>, t: Seq<(K::V, W)>)
    requires
        forall|i: int, j: int| 0 <= i < j < s.len() ==> K::key_lt(#[trigger] s[i].0, #[trigger] s[j].0),
        forall|i: int, j: int| 0 <= i < j < t.len() ==> K::key_lt(#[trigger] t[i].0, #[trigger] t[j].0),
        map_of(s).dom() == map_of(t).dom(),
    ensures
        s.len() == t.len(),
        forall|i: int| 0 <= i < s.len() ==> (#[trigger] s[i]).0 == t[i].0,
    decreases s.len() + t.len(),
{
    if s.len() == 0 {
        if t.len() > 0 {
            lemma_map_of_dom(t, t[t.len() - 1].0);
            lemma_map_of_dom(s, t[t.len() - 1].0);
        }
    } else if t.len() == 0 {
        lemma_map_of_dom(s, s[s.len() - 1].0);
        lemma_map_of_dom(t, s[s.len() - 1].0);
    } else {
        let a = s.last().0;
        let c = t.last().0;
        lemma_map_of_dom(s, a);
        lemma_map_of_dom(t, a);
        lemma_map_of_dom(s, c);
        lemma_map_of_dom(t, c);
        assert(s[s.len() - 1].0 == a);
        assert(t[t.len() - 1].0 == c);
        let j = choose|j: int| 0 <= j < t.len() && (#[trigger] t[j]).0 == a;
        let i = choose|i: int| 0 <= i < s.len() && (#[trigger] s[i]).0 == c;
        K::lemma_key_order(a, c, a);
        if j < t.len() - 1 {
            assert(K::key_lt(t[j].0, t[t.len() - 1].0));
        }
        if i < s.len() - 1 {
            assert(K::key_lt(s[i].0, s[s.len() - 1].0));
        }
        assert(a == c);
        let s1 = s.drop_last();
        let t1 = t.drop_last();
        assert forall|x: K::V| map_of(s1).contains_key(x) implies x != a by {
            lemma_map_of_dom(s1, x);
            let k = choose|k: int| 0 <= k < s1.len() && (#[trigger] s1[k]).0 == x;
            assert(s[k] == s1[k]);
            assert(K::key_lt(s[k].0, s[s.len() - 1].0));
            K::lemma_key_order(a, a, a);
        }
        assert forall|x: K::V| map_of(t1).contains_key(x) implies x != a by {
            lemma_map_of_dom(t1, x);
            let k = choose|k: int| 0 <= k < t1.len() && (#[trigger] t1[k]).0 == x;
            assert(t[k] == t1[k]);
            assert(K::key_lt(t[k].0, t[t.len() - 1].0));
            K::lemma_key_order(a, a, a);
        }
        assert(map_of(s1).dom() =~= map_of(s).dom().remove(a));
        assert(map_of(t1).dom() =~= map_of(t).dom().remove(a));
        assert forall|x: int, y: int| 0 <= x < y < s1.len() implies K::key_lt(
            #[trigger] s1[x].0,
            #[trigger] s1[y].0,
        ) by {
            assert(s1[x] == s[x] && s1[y] == s[y]);
        }
        assert forall|x: int, y: int| 0 <= x < y < t1.len() implies K::key_lt(
            #[trigger] t1[x].0,
            #[trigger] t1[y].0,
        ) by {
            assert(t1[x] == t[x] && t1[y] == t[y]);
        }
        lemma_sorted_same_keys::<K, V, W>(s1, t1);
        assert forall|k: int| 0 <= k < s.len() implies (#[trigger] s[k]).0 == t[k].0 by {
            if k < s.len() - 1 {
                assert(s[k] == s1[k] && t[k] == t1[k]);
            }
        }
    }
}

/// A map with canonically ordered, pairwise distinct keys.
#[derive(Debug, Clone, PartialEq, Eq)]
pub struct OrdMap<K, V> {
    entries: Vec<(K, V)>,
}

impl<K: MapKey, V> OrdMap<K, V> {
    /// The entries in key order, keys taken by their view.
    pub closed spec fn pairs(&self) -> Seq<(K::V, V)> {
        self.entries@.map_values(|e: (K, V)| (e.0@, e.1))
    }

    pub closed spec fn wf(&self) -> bool {
        forall|i: int, j: int|
            0 <= i < j < self.entries@.len() ==> K::key_lt(
                (#[trigger] self.entries@[i]).0@,
                (#[trigger] self.entries@[j]).0@,
            )
    }

    pub open spec fn view(&self) -> Map<K::V, V> {
        map_of(self.pairs())
    }

    /// Every entry's key is strictly before the next one's.
    pub open spec fn sorted(&self) -> bool {
        forall|i: int, j: int|
            0 <= i < j < self.pairs().len() ==> K::key_lt(
                (#[trigger] self.pairs()[i]).0,
                (#[trigger] self.pairs()[j]).0,
            )
    }

    pub proof fn lemma_wf_sorted(&self)
        requires
            self.wf(),
        ensures
            self.sorted(),
    {
        assert forall|i: int, j: int| 0 <= i < j < self.pairs().len() implies K::key_lt(
            (#[trigger] self.pairs()[i]).0,
            (#[trigger] self.pairs()[j]).0,
        ) by {
            assert(self.pairs()[i].0 == self.entries@[i].0@);
            assert(self.pairs()[j].0 == self.entries@[j].0@);
        }
    }

    pub proof fn lemma_distinct(&self)
        requires
            self.wf(),
        ensures
            forall|a: int, b: int|
                0 <= a < b < self.pairs().len() ==> (#[trigger] self.pairs()[a]).0 != (
                #[trigger] self.pairs()[b]).0,
    {
        self.lemma_wf_sorted();
        assert forall|a: int, b: int| 0 <= a < b < self.pairs().len() implies (
        #[trigger] self.pairs()[a]).0 != (#[trigger] self.pairs()[b]).0 by {
            K::lemma_key_order(self.pairs()[a].0, self.pairs()[b].0, self.pairs()[a].0);
        }
    }

    /// The map holds, for the key of every entry, that entry's value.
    pub proof fn lemma_entry(&self, i: int)
        requires
            self.wf(),
            0 <= i < self.pairs().len(),
        ensures
            self@.contains_key(self.pairs()[i].0),
            self@[self.pairs()[i].0] == self.pairs()[i].1,
    {
        self.lemma_distinct();
        lemma_map_of_at(self.pairs(), i);
    }

    /// The keys of the map are exactly the keys of its entries.
    pub proof fn lemma_dom(&self, k: K::V)
        ensures
            self@.contains_key(k) <==> exists|i: int|
                0 <= i < self.pairs().len() && (#[trigger] self.pairs()[i]).0 == k,
    {
        lemma_map_of_dom(self.pairs(), k);
    }

    pub fn new() -> (m: Self)
        ensures
            m.wf(),
            m@ == Map::<K::V, V>::empty(),
            m.pairs().len() == 0,
    {
        let m = OrdMap { entries: Vec::new() };
        assert(m.pairs() =~= Seq::<(K::V, V)>::empty());
        m
    }

    pub fn len(&self) -> (n: usize)
        requires
            self.wf(),
        ensures
            n == self.pairs().len(),
            n == self@.len(),
    {
        proof {
            self.lemma_len();
        }
        self.entries.len()
    }

    /// Maps with the same keys hold them in the same order.
    pub proof fn lemma_same_keys<W>(&self, other: &OrdMap<K, W>)
        requires
            self.wf(),
            other.wf(),
            self@.dom() == other@.dom(),
        ensures
            self.pairs().len() == other.pairs().len(),
            forall|i: int| 0 <= i < self.pairs().len() ==> (#[trigger] self.pairs()[i]).0 == other.pairs()[i].0,
    {
        self.lemma_wf_sorted();
        other.lemma_wf_sorted();
        lemma_sorted_same_keys::<K, V, W>(self.pairs(), other.pairs());
    }

    /// Maps with the same contents have the same entries.
    pub proof fn lemma_same_view(&self, other: &Self)
        requires
            self.wf(),
            other.wf(),
            self@ == other@,
        ensures
            self.pairs() == other.pairs(),
    {
        self.lemma_same_keys(other);
        assert forall|i: int| 0 <= i < self.pairs().len() implies #[trigger] self.pairs()[i]
            == other.pairs()[i] by {
            self.lemma_entry(i);
            other.lemma_entry(i);
        }
        assert(self.pairs() =~= other.pairs());
    }

    pub proof fn lemma_len(&self)
        requires
            self.wf(),
        ensures
            self@.dom().finite(),
            self@.len() == self.pairs().len(),
    {
        self.lemma_distinct();
        lemma_map_of_len(self.pairs());
    }

    /// Position of `k` among the entries.
    pub fn find(&self, k: &K) -> (r: Option<usize>)
        requires
            self.wf(),
        ensures
            match r {
                Some(i) => i < self.pairs().len() && self.pairs()[i as int].0 == k@,
                None => !self@.contains_key(k@),
            },
    {
        let mut i: usize = 0;
        while i < self.entries.len()
            invariant
                i <= self.entries@.len(),
                forall|j: int| 0 <= j < i ==> (#[trigger] self.pairs()[j]).0 != k@,
            decreases self.entries@.len() - i,
        {
            if self.entries[i].0.compare_key(k) == KeyOrder::Same {
                return Some(i);
            }
            i = i + 1;
        }
        proof {
            self.lemma_dom(k@);
        }
        None
    }

    pub fn contains_key(&self, k: &K) -> (b: bool)
        requires
            self.wf(),
        ensures
            b == self@.contains_key(k@),
    {
        match self.find(k) {
            Some(i) => {
                proof {
                    self.lemma_entry(i as int);
                }
                true
            },
            None => false,
        }
    }

    pub fn get(&self, k: &K) -> (r: Option<&V>)
        requires
            self.wf(),
        ensures
            match r {
                Some(v) => self@.contains_key(k@) && *v == self@[k@],
                None => !self@.contains_key(k@),
            },
    {
        match self.find(k) {
            Some(i) => {
                proof {
                    self.lemma_entry(i as int);
                }
                Some(&self.entries[i].1)
            },
            None => None,
        }
    }

    pub fn key_at(&self, i: usize) -> (r: &K)
        requires
            i < self.pairs().len(),
        ensures
            r@ == self.pairs()[i as int].0,
    {
        &self.entries[i].0
    }

    pub fn value_at(&self, i: usize) -> (r: &V)
        requires
            i < self.pairs().len(),
        ensures
            *r == self.pairs()[i as int].1,
    {
        &self.entries[i].1
    }

    /// Where `k` stands, or would stand, in the key order.
    fn locate(&self, k: &K) -> (r: (usize, bool))
        requires
            self.wf(),
        ensures
            r.0 <= self.entries@.len(),
            forall|j: int| 0 <= j < r.0 ==> K::key_lt((#[trigger] self.entries@[j]).0@, k@),
            r.1 ==> r.0 < self.entries@.len() && self.entries@[r.0 as int].0@ == k@,
            !r.1 ==> forall|j: int|
                r.0 <= j < self.entries@.len() ==> K::key_lt(k@, (#[trigger] self.entries@[j]).0@),
    {
        let mut i: usize = 0;
        while i < self.entries.len()
            invariant
                self.wf(),
                i <= self.entries@.len(),
                forall|j: int| 0 <= j < i ==> K::key_lt((#[trigger] self.entries@[j]).0@, k@),
            decreases self.entries@.len() - i,
        {
            let o = self.entries[i].0.compare_key(k);
            if o == KeyOrder::Same {
                return (i, true);
            } else if o == KeyOrder::After {
                proof {
                    let ii = i as int;
                    assert forall|j: int| ii <= j < self.entries@.len() implies K::key_lt(
                        k@,
                        (#[trigger] self.entries@[j]).0@,
                    ) by {
                        if j > ii {
                            K::lemma_key_order(k@, self.entries@[ii].0@, self.entries@[j].0@);
                        }
                    }
                }
                return (i, false);
            }
            i = i + 1;
        }
        (i, false)
    }

    /// Replaces the value stored for `k`, or adds `k` in its place in the key order.
    pub fn insert(&mut self, k: K, v: V)
        requires
            old(self).wf(),
        ensures
            final(self).wf(),
            final(self)@ == old(self)@.insert(k@, v),
            old(self)@.contains_key(k@) ==> exists|i: int|
                0 <= i < old(self).pairs().len() && old(self).pairs()[i].0 == k@
                    && #[trigger] final(self).pairs() == old(self).pairs().update(i, (k@, v)),
            !old(self)@.contains_key(k@) ==> exists|i: int|
                0 <= i <= old(self).pairs().len() && #[trigger] final(self).pairs()
                    == old(self).pairs().insert(i, (k@, v)),
    {
        let ghost kv = k@;
        let (i, found) = self.locate(&k);
        let ghost before = self.pairs();
        let ghost idx = i as int;
        if found {
            proof {
                self.lemma_distinct();
            }
            self.entries.set(i, (k, v));
            proof {
                assert(self.pairs() =~= before.update(idx, (kv, v)));
                assert(self.wf()) by {
                    assert forall|a: int, b: int| 0 <= a < b < self.entries@.len() implies K::key_lt(
                        (#[trigger] self.entries@[a]).0@,
                        (#[trigger] self.entries@[b]).0@,
                    ) by {
                        assert(self.entries@[a].0@ == old(self).entries@[a].0@);
                        assert(self.entries@[b].0@ == old(self).entries@[b].0@);
                    }
                }
                lemma_map_of_update(before, idx, v);
                assert(before[idx].0 == kv);
                self.lemma_entry(idx);
                old(self).lemma_entry(idx);
            }
        } else {
            proof {
                assert forall|j: int| 0 <= j < before.len() implies (#[trigger] before[j]).0 != kv by {
                    assert(before[j].0 == old(self).entries@[j].0@);
                    K::lemma_key_order(kv, kv, kv);
                }
                self.lemma_dom(kv);
            }
            self.entries.insert(i, (k, v));
            proof {
                assert(self.pairs() =~= before.insert(idx, (kv, v)));
                assert(self.wf()) by {
                    assert forall|a: int, b: int| 0 <= a < b < self.entries@.len() implies K::key_lt(
                        (#[trigger] self.entries@[a]).0@,
                        (#[trigger] self.entries@[b]).0@,
                    ) by {
                        if a < idx && b < idx {
                            assert(self.entries@[a] == old(self).entries@[a]);
                            assert(self.entries@[b] == old(self).entries@[b]);
                        } else if a < idx && b == idx {
                            assert(self.entries@[a] == old(self).entries@[a]);
                        } else if a < idx {
                            assert(self.entries@[a] == old(self).entries@[a]);
                            assert(self.entries@[b] == old(self).entries@[b - 1]);
                        } else if a == idx {
                            assert(self.entries@[b] == old(self).entries@[b - 1]);
                        } else {
                            assert(self.entries@[a] == old(self).entries@[a - 1]);
                            assert(self.entries@[b] == old(self).entries@[b - 1]);
                        }
                    }
                }
                lemma_map_of_insert_absent(before, idx, kv, v);
                assert(!old(self)@.contains_key(kv));
            }
        }
    }

    /// Removes `k`, giving back its value.
    pub fn remove(&mut self, k: &K) -> (r: Option<V>)
        requires
            old(self).wf(),
        ensures
            final(self).wf(),
            final(self)@ == old(self)@.remove(k@),
            match r {
                Some(v) => old(self)@.contains_key(k@) && v == old(self)@[k@],
                None => !old(self)@.contains_key(k@),
            },
    {
        match self.find(k) {
            None => {
                assert(self@.remove(k@) =~= self@);
                None
            },
            Some(i) => {
                let ghost before = self.pairs();
                proof {
                    self.lemma_entry(i as int);
                    self.lemma_distinct();
                }
                let (_, v) = self.entries.remove(i);
                proof {
                    assert(self.pairs() =~= before.remove(i as int));
                    assert(self.wf()) by {
                        assert forall|a: int, b: int| 0 <= a < b < self.entries@.len() implies K::key_lt(
                            (#[trigger] self.entries@[a]).0@,
                            (#[trigger] self.entries@[b]).0@,
                        ) by {
                            if a < i {
                                assert(self.entries@[a] == old(self).entries@[a]);
                            } else {
                                assert(self.entries@[a] == old(self).entries@[a + 1]);
                            }
                            if b < i {
                                assert(self.entries@[b] == old(self).entries@[b]);
                            } else {
                                assert(self.entries@[b] == old(self).entries@[b + 1]);
                            }
                        }
                    }
                    lemma_map_of_remove(before, i as int);
                }
                Some(v)
            },
        }
    }
}

impl<K: MapKey> OrdMap<K, u128> {
    /// The listed values sum to the sum of the map.
    pub proof fn lemma_sum(&self)
        requires
            self.wf(),
        ensures
            self@.dom().finite(),
            pairs_sum(self.pairs()) == map_sum(self@),
    {
        self.lemma_distinct();
        lemma_pairs_sum(self.pairs());
    }
}

impl<K: MapKey, V: Copy> OrdMap<K, V> {
    /// An independent copy of the map.
    pub fn duplicate(&self) -> (r: Self)
        requires
            self.wf(),
        ensures
            r.wf(),
            r@ == self@,
            r.pairs() == self.pairs(),
    {
        let mut entries: Vec<(K, V)> = Vec::new();
        let mut i: usize = 0;
        while i < self.entries.len()
            invariant
                i <= self.entries@.len(),
                entries@.len() == i,
                forall|j: int| 0 <= j < i ==> (#[trigger] entries@[j]).0@ == self.entries@[j].0@
                    && entries@[j].1 == self.entries@[j].1,
            decreases self.entries@.len() - i,
        {
            let k = self.entries[i].0.copy_key();
            let v = self.entries[i].1;
            entries.push((k, v));
            i = i + 1;
        }
        let r = OrdMap { entries };
        assert(r.pairs() =~= self.pairs());
        assert(r.wf()) by {
            assert forall|a: int, b: int| 0 <= a < b < r.entries@.len() implies K::key_lt(
                (#[trigger] r.entries@[a]).0@,
                (#[trigger] r.entries@[b]).0@,
            ) by {
                assert(r.entries@[a].0@ == self.entries@[a].0@);
                assert(r.entries@[b].0@ == self.entries@[b].0@);
            }
        }
        r
    }
}

impl<K: MapKey> OrdMap<K, u128> {
    /// The same map with every value as a `u64`, when every value fits.
    pub fn narrow_u64(&self) -> (r: Option<OrdMap<K, u64>>)
        requires
            self.wf(),
        ensures
            match r {
                Some(m) => m.wf() && (forall|i: int|
                    0 <= i < self.pairs().len() ==> (#[trigger] self.pairs()[i]).1 <= u64::MAX)
                    && m.pairs() == self.pairs().map_values(
                    |p: (K::V, u128)| (p.0, p.1 as u64),
                ),
                None => exists|i: int|
                    0 <= i < self.pairs().len() && (#[trigger] self.pairs()[i]).1 > u64::MAX,
            },
    {
        let mut entries: Vec<(K, u64)> = Vec::new();
        let mut i: usize = 0;
        while i < self.entries.len()
            invariant
                i <= self.entries@.len(),
                entries@.len() == i,
                forall|j: int| 0 <= j < i ==> (#[trigger] entries@[j]).0@ == self.entries@[j].0@
                    && entries@[j].1 == self.entries@[j].1 && self.entries@[j].1 <= u64::MAX,
            decreases self.entries@.len() - i,
        {
            let v = self.entries[i].1;
            if v > u64::MAX as u128 {
                assert(self.pairs()[i as int].1 == v);
                return None;
            }
            let k = self.entries[i].0.copy_key();
            entries.push((k, v as u64));
            i = i + 1;
        }
        assert forall|i: int| 0 <= i < self.pairs().len() implies (#[trigger] self.pairs()[i]).1
            <= u64::MAX by {
            assert(self.pairs()[i].1 == self.entries@[i].1);
            assert(entries@[i].1 == self.entries@[i].1);
        }
        let r = OrdMap { entries };
        assert(r.pairs() =~= self.pairs().map_values(|p: (K::V, u128)| (p.0, p.1 as u64)));
        assert(r.wf()) by {
            assert forall|a: int, b: int| 0 <= a < b < r.entries@.len() implies K::key_lt(
                (#[trigger] r.entries@[a]).0@,
                (#[trigger] r.entries@[b]).0@,
            ) by {
                assert(r.entries@[a].0@ == self.entries@[a].0@);
                assert(r.entries@[b].0@ == self.entries@[b].0@);
            }
        }
        Some(r)
    }
}

impl<K: MapKey> OrdMap<K, u64> {
    /// The same map with every value as a `u128`.
    pub fn widen_u128(&self) -> (r: OrdMap<K, u128>)
        requires
            self.wf(),
        ensures
            r.wf(),
            r.pairs() == self.pairs().map_values(|p: (K::V, u64)| (p.0, p.1 as u128)),
    {
        let mut entries: Vec<(K, u128)> = Vec::new();
        let mut i: usize = 0;
        while i < self.entries.len()
            invariant
                i <= self.entries@.len(),
                entries@.len() == i,
                forall|j: int| 0 <= j < i ==> (#[trigger] entries@[j]).0@ == self.entries@[j].0@
                    && entries@[j].1 == self.entries@[j].1,
            decreases self.entries@.len() - i,
        {
            let k = self.entries[i].0.copy_key();
            entries.push((k, self.entries[i].1 as u128));
            i = i + 1;
        }
        let r = OrdMap { entries };
        assert(r.pairs() =~= self.pairs().map_values(|p: (K::V, u64)| (p.0, p.1 as u128)));
        assert(r.wf()) by {
            assert forall|a: int, b: int| 0 <= a < b < r.entries@.len() implies K::key_lt(
                (#[trigger] r.entries@[a]).0@,
                (#[trigger] r.entries@[b]).0@,
            ) by {
                assert(r.entries@[a].0@ == self.entries@[a].0@);
                assert(r.entries@[b].0@ == self.entries@[b].0@);
            }
        }
        r
    }
}

pub proof fn lemma_map_of_len<K, V>(s: Seq<(K, V)>)
    requires
        forall|a: int, b: int| 0 <= a < b < s.len() ==> (#[trigger] s[a]).0 != (#[trigger] s[b]).0,
    ensures
        map_of(s).dom().finite(),
        map_of(s).len() == s.len(),
    decreases s.len(),
{
    if s.len() > 0 {
        let t = s.drop_last();
        assert forall|a: int, b: int| 0 <= a < b < t.len() implies (#[trigger] t[a]).0 != (
        #[trigger] t[b]).0 by {
            assert(t[a] == s[a]);
            assert(t[b] == s[b]);
        }
        lemma_map_of_len(t);
        lemma_map_of_dom(t, s.last().0);
        if map_of(t).contains_key(s.last().0) {
            let i = choose|i: int| 0 <= i < t.len() && (#[trigger] t[i]).0 == s.last().0;
            assert(t[i] == s[i]);
        }
    }
}

pub proof fn lemma_map_of_update<K, V>(s: Seq<(K, V)>, i: int, v: V)
    requires
        0 <= i < s.len(),
        forall|a: int, b: int| 0 <= a < b < s.len() ==> (#[trigger] s[a]).0 != (#[trigger] s[b]).0,
    ensures
        map_of(s.update(i, (s[i].0, v))) == map_of(s).insert(s[i].0, v),
    decreases s.len(),
{
    let u = s.update(i, (s[i].0, v));
    if i == s.len() - 1 {
        assert(u.drop_last() =~= s.drop_last());
        assert(map_of(u) =~= map_of(s).insert(s[i].0, v));
    } else {
        let t = s.drop_last();
        assert forall|a: int, b: int| 0 <= a < b < t.len() implies (#[trigger] t[a]).0 != (
        #[trigger] t[b]).0 by {
            assert(t[a] == s[a]);
            assert(t[b] == s[b]);
        }
        lemma_map_of_update(t, i, v);
        assert(u.drop_last() =~= t.update(i, (t[i].0, v)));
        assert(s[i].0 != s.last().0);
        assert(map_of(u) =~= map_of(s).insert(s[i].0, v));
    }
}

pub proof fn lemma_map_of_insert_absent<K, V>(s: Seq<(K, V)>, i: int, k: K, v: V)
    requires
        0 <= i <= s.len(),
        !map_of(s).contains_key(k),
    ensures
        map_of(s.insert(i, (k, v))) == map_of(s).insert(k, v),
    decreases s.len(),
{
    let u = s.insert(i, (k, v));
    if i == s.len() {
        assert(u.drop_last() =~= s);
    } else {
        let t = s.drop_last();
        lemma_map_of_dom(s, k);
        lemma_map_of_dom(t, k);
        if map_of(t).contains_key(k) {
            let j = choose|j: int| 0 <= j < t.len() && (#[trigger] t[j]).0 == k;
            assert(s[j] == t[j]);
        }
        lemma_map_of_insert_absent(t, i, k, v);
        assert(u.drop_last() =~= t.insert(i, (k, v)));
        assert(u.last() == s.last());
        assert(s.last().0 != k) by {
            assert(s[s.len() - 1] == s.last());
        }
        assert(map_of(u) =~= map_of(s).insert(k, v));
    }
}

pub proof fn lemma_map_of_remove<K, V>(s: Seq<(K, V)>, i: int)
    requires
        0 <= i < s.len(),
        forall|a: int, b: int| 0 <= a < b < s.len() ==> (#[trigger] s[a]).0 != (#[trigger] s[b]).0,
    ensures
        map_of(s.remove(i)) == map_of(s).remove(s[i].0),
    decreases s.len(),
{
    let u = s.remove(i);
    let k = s[i].0;
    let t = s.drop_last();
    assert forall|a: int, b: int| 0 <= a < b < t.len() implies (#[trigger] t[a]).0 != (
    #[trigger] t[b]).0 by {
        assert(t[a] == s[a]);
        assert(t[b] == s[b]);
    }
    if i == s.len() - 1 {
        assert(u =~= t);
        lemma_map_of_dom(t, k);
        if map_of(t).contains_key(k) {
            let j = choose|j: int| 0 <= j < t.len() && (#[trigger] t[j]).0 == k;
            assert(s[j] == t[j]);
        }
        assert(map_of(u) =~= map_of(s).remove(k));
    } else {
        lemma_map_of_remove(t, i);
        assert(u.drop_last() =~= t.remove(i));
        assert(u.last() == s.last());
        assert(s.last().0 != k);
        assert(map_of(u) =~= map_of(s).remove(k));
    }
}


/// The sum of the values of a finite map.
pub open spec fn map_sum<K>(m: Map<K, u128>) -> int
    decreases m.len(),
    when m.dom().finite()
{
    if m.len() == 0 {
        0
    } else {
        let k = m.dom().choose();
        m[k] + map_sum(m.remove(k))
    }
}

/// The sum of the values of a sequence of pairs.
pub open spec fn pairs_sum<K>(s: Seq<(K, u128)>) -> int
    decreases s.len(),
{
    if s.len() == 0 {
        0
    } else {
        pairs_sum(s.drop_last()) + s.last().1
    }
}

/// Taking any one key out of a finite map takes its value out of the sum.
pub proof fn lemma_map_sum_remove<K>(m: Map<K, u128>, k: K)
    requires
        m.dom().finite(),
        m.contains_key(k),
    ensures
        map_sum(m) == m[k] + map_sum(m.remove(k)),
    decreases m.len(),
{
    let c = m.dom().choose();
    if c != k {
        let mc = m.remove(c);
        let mk = m.remove(k);
        lemma_map_sum_remove(mc, k);
        lemma_map_sum_remove(mk, c);
        assert(mc.remove(k) =~= mk.remove(c));
    }
}

/// Sums are never negative.
pub proof fn lemma_map_sum_nonneg<K>(m: Map<K, u128>)
    requires
        m.dom().finite(),
    ensures
        map_sum(m) >= 0,
    decreases m.len(),
{
    if m.len() > 0 {
        let k = m.dom().choose();
        lemma_map_sum_nonneg(m.remove(k));
    }
}

/// The pairs of distinct keys sum to the sum of the map they list.
pub proof fn lemma_pairs_sum<K>(s: Seq<(K, u128)>)
    requires
        forall|a: int, b: int| 0 <= a < b < s.len() ==> (#[trigger] s[a]).0 != (#[trigger] s[b]).0,
    ensures
        map_of(s).dom().finite(),
        pairs_sum(s) == map_sum(map_of(s)),
    decreases s.len(),
{
    lemma_map_of_len(s);
    if s.len() > 0 {
        let t = s.drop_last();
        assert forall|a: int, b: int| 0 <= a < b < t.len() implies (#[trigger] t[a]).0 != (
        #[trigger] t[b]).0 by {
            assert(t[a] == s[a]);
            assert(t[b] == s[b]);
        }
        lemma_pairs_sum(t);
        let m = map_of(t);
        let k = s.last().0;
        lemma_map_of_dom(t, k);
        assert(!m.contains_key(k)) by {
            if m.contains_key(k) {
                let i = choose|i: int| 0 <= i < t.len() && (#[trigger] t[i]).0 == k;
                assert(s[i].0 == s[s.len() - 1].0);
            }
        }
        let mi = m.insert(k, s.last().1);
        lemma_map_sum_remove(mi, k);
        assert(mi.remove(k) =~= m);
    }
}

} // verus!
