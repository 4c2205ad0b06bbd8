//! Byte-wise ordering of strings, the order in which report blocks are laid out.

use vstd::prelude::*;
use vstd::utf8::encode_scalar;
use vstd::utf8::encode_utf8;

verus! {

/// Compares `a` and `b` byte by byte from position `i` on: `a` comes first or
/// ties when it runs out first, or holds the smaller byte where they first differ.
pub open spec fn lex_le_from(a: Seq<u8>, b: Seq<u8>, i: int) -> bool
    decreases a.len() - i,
{
    if i < 0 || i >= a.len() {
        true
    } else if i >= b.len() {
        false
    } else if a[i] != b[i] {
        a[i] < b[i]
    } else {
        lex_le_from(a, b, i + 1)
    }
}

/// Lexicographic "less than or equal" on byte strings.
pub open spec fn lex_le(a: Seq<u8>, b: Seq<u8>) -> bool {
    lex_le_from(a, b, 0)
}

/// The bytes by which a sort key is compared: its UTF-8 encoding.
pub open spec fn key_bytes(key: Seq<char>) -> Seq<u8> {
    encode_utf8(key)
}

/// Byte-wise order on keys.
pub open spec fn key_le(a: Seq<char>, b: Seq<char>) -> bool {
    lex_le(key_bytes(a), key_bytes(b))
}

/// `a` and `b` agree on their first `n` bytes.
pub open spec fn agree_upto(a: Seq<u8>, b: Seq<u8>, n: int) -> bool {
    &&& 0 <= n <= a.len()
    &&& n <= b.len()
    &&& forall|j: int| 0 <= j < n ==> a[j] == b[j]
}

/// Comparing from the start and comparing from the end of a common prefix agree.
pub proof fn lemma_skip_common_prefix(a: Seq<u8>, b: Seq<u8>, n: int)
    requires
        agree_upto(a, b, n),
    ensures
        lex_le(a, b) == lex_le_from(a, b, n),
{
    lemma_skip_common(a, b, 0, n);
}

proof fn lemma_skip_common(a: Seq<u8>, b: Seq<u8>, i: int, n: int)
    requires
        agree_upto(a, b, n),
        0 <= i <= n,
    ensures
        lex_le_from(a, b, i) == lex_le_from(a, b, n),
    decreases n - i,
{
    if i < n {
        lemma_skip_common(a, b, i + 1, n);
    }
}

proof fn lemma_refl_from(a: Seq<u8>, i: int)
    requires
        0 <= i,
    ensures
        lex_le_from(a, a, i),
    decreases a.len() - i,
{
    if i < a.len() {
        lemma_refl_from(a, i + 1);
    }
}

proof fn lemma_total_from(a: Seq<u8>, b: Seq<u8>, i: int)
    requires
        0 <= i,
    ensures
        lex_le_from(a, b, i) || lex_le_from(b, a, i),
    decreases a.len() - i,
{
    if i < a.len() && i < b.len() && a[i] == b[i] {
        lemma_total_from(a, b, i + 1);
    }
}

proof fn lemma_trans_from(a: Seq<u8>, b: Seq<u8>, c: Seq<u8>, i: int)
    requires
        0 <= i,
        lex_le_from(a, b, i),
        lex_le_from(b, c, i),
    ensures
        lex_le_from(a, c, i),
    decreases a.len() - i,
{
    if i < a.len() && i < b.len() && i < c.len() && a[i] == b[i] && b[i] == c[i] {
        lemma_trans_from(a, b, c, i + 1);
    }
}

proof fn lemma_antisym_from(a: Seq<u8>, b: Seq<u8>, i: int)
    requires
        0 <= i <= a.len(),
        i <= b.len(),
        lex_le_from(a, b, i),
        lex_le_from(b, a, i),
    ensures
        a.len() == b.len(),
        forall|j: int| i <= j < a.len() ==> a[j] == b[j],
    decreases a.len() - i,
{
    if i < a.len() && i < b.len() {
        lemma_antisym_from(a, b, i + 1);
    }
}

/// Every byte string is at most itself.
pub proof fn lemma_lex_le_refl(a: Seq<u8>)
    ensures
        lex_le(a, a),
{
    lemma_refl_from(a, 0);
}

/// Any two byte strings are comparable.
pub proof fn lemma_lex_le_total(a: Seq<u8>, b: Seq<u8>)
    ensures
        lex_le(a, b) || lex_le(b, a),
{
    lemma_total_from(a, b, 0);
}

/// The order is transitive.
pub proof fn lemma_lex_le_trans(a: Seq<u8>, b: Seq<u8>, c: Seq<u8>)
    requires
        lex_le(a, b),
        lex_le(b, c),
    ensures
        lex_le(a, c),
{
    lemma_trans_from(a, b, c, 0);
}

/// Two byte strings that are each at most the other are the same string.
pub proof fn lemma_lex_le_antisym(a: Seq<u8>, b: Seq<u8>)
    requires
        lex_le(a, b),
        lex_le(b, a),
    ensures
        a == b,
{
    lemma_antisym_from(a, b, 0);
    assert(a =~= b);
}

/// Encoding a concatenation gives the concatenation of the encodings.
pub proof fn lemma_encode_concat(a: Seq<char>, b: Seq<char>)
    ensures
        encode_utf8(a + b) == encode_utf8(a) + encode_utf8(b),
    decreases a.len(),
{
    if a.len() == 0 {
        assert(a + b =~= b);
        assert(encode_utf8(a) + encode_utf8(b) =~= encode_utf8(b));
    } else {
        lemma_encode_concat(a.drop_first(), b);
        assert((a + b).drop_first() =~= a.drop_first() + b);
        assert(encode_utf8(a + b) =~= encode_scalar(a[0] as u32) + (encode_utf8(a.drop_first())
            + encode_utf8(b)));
    }
}

/// Whether `a` sorts at or before `b` in byte-wise order.
pub fn str_le(a: &str, b: &str) -> (r: bool)
    ensures
        r == key_le(a@, b@),
{
    let x = a.as_bytes();
    let y = b.as_bytes();
    let mut i: usize = 0;
    while i < x.len() && i < y.len()
        invariant
            x@ == key_bytes(a@),
            y@ == key_bytes(b@),
            agree_upto(x@, y@, i as int),
        decreases x.len() - i,
    {
        if x[i] != y[i] {
            proof {
                lemma_skip_common_prefix(x@, y@, i as int);
            }
            return x[i] < y[i];
        }
        i += 1;
    }
    proof {
        lemma_skip_common_prefix(x@, y@, i as int);
    }
    x.len() <= y.len()
}

/// `a` sorts strictly before `b`.
pub open spec fn key_lt(a: Seq<char>, b: Seq<char>) -> bool {
    !key_le(b, a)
}

/// Each key of `keys` sorts strictly before the next: none occurs twice.
pub open spec fn strictly_ascending(keys: Seq<Seq<char>>) -> bool {
    forall|i: int, j: int| 0 <= i < j < keys.len() ==> key_lt(keys[i], keys[j])
}

/// Keys with the same bytes are the same key.
pub proof fn lemma_key_bytes_injective(a: Seq<char>, b: Seq<char>)
    requires
        key_bytes(a) == key_bytes(b),
    ensures
        a == b,
{
    vstd::utf8::encode_utf8_decode_utf8(a);
    vstd::utf8::encode_utf8_decode_utf8(b);
}

/// Keys that are each at most the other are the same key.
pub proof fn lemma_key_le_antisym(a: Seq<char>, b: Seq<char>)
    requires
        key_le(a, b),
        key_le(b, a),
    ensures
        a == b,
{
    lemma_lex_le_antisym(key_bytes(a), key_bytes(b));
    lemma_key_bytes_injective(a, b);
}

/// "Strictly before" is transitive, also where one of the steps allows a tie.
pub proof fn lemma_key_lt_trans(a: Seq<char>, b: Seq<char>, c: Seq<char>)
    ensures
        key_lt(a, b) && key_lt(b, c) ==> key_lt(a, c),
        key_le(a, b) && key_lt(b, c) ==> key_lt(a, c),
        key_lt(a, b) && key_le(b, c) ==> key_lt(a, c),
        key_lt(a, b) ==> key_le(a, b),
{
    let (x, y, z) = (key_bytes(a), key_bytes(b), key_bytes(c));
    lemma_lex_le_total(x, y);
    lemma_lex_le_total(y, z);
    if lex_le(z, x) {
        if lex_le(x, y) {
            lemma_lex_le_trans(z, x, y);
        }
        if lex_le(y, z) {
            lemma_lex_le_trans(y, z, x);
        }
    }
}

/// In a strictly ascending sequence no key stands at two positions.
pub proof fn lemma_strictly_ascending_distinct(keys: Seq<Seq<char>>)
    requires
        strictly_ascending(keys),
    ensures
        forall|i: int, j: int| 0 <= i < keys.len() && 0 <= j < keys.len() && keys[i] == keys[j] ==> i == j,
{
    assert forall|i: int, j: int|
        0 <= i < keys.len() && 0 <= j < keys.len() && keys[i] == keys[j] implies i == j by {
        lemma_lex_le_refl(key_bytes(keys[i]));
        if i < j {
            assert(key_lt(keys[i], keys[j]));
        } else if j < i {
            assert(key_lt(keys[j], keys[i]));
        }
    }
}

/// Two strictly ascending sequences with the same keys are the same sequence.
pub proof fn lemma_ascending_unique(a: Seq<Seq<char>>, b: Seq<Seq<char>>)
    requires
        strictly_ascending(a),
        strictly_ascending(b),
        forall|k: Seq<char>| a.contains(k) <==> b.contains(k),
    ensures
        a == b,
    decreases a.len(),
{
    if a.len() == 0 {
        if b.len() > 0 {
            assert(b.contains(b[0]));
        }
        assert(a =~= b);
    } else {
        let x = a.last();
        assert(a.contains(x));
        assert(b.contains(x));
        let y = b.last();
        assert(b.contains(y));
        assert(a.contains(y));
        let i = choose|i: int| 0 <= i < b.len() && b[i] == x;
        let j = choose|j: int| 0 <= j < a.len() && a[j] == y;
        lemma_lex_le_refl(key_bytes(x));
        lemma_lex_le_refl(key_bytes(y));
        if i < b.len() - 1 {
            assert(key_lt(b[i], b[b.len() - 1]));
        }
        if j < a.len() - 1 {
            assert(key_lt(a[j], a[a.len() - 1]));
        }
        lemma_key_lt_trans(x, y, x);
        assert(x == y);
        let fa = a.drop_last();
        let fb = b.drop_last();
        assert forall|k: Seq<char>| fa.contains(k) <==> fb.contains(k) by {
            if fa.contains(k) {
                let w = choose|w: int| 0 <= w < fa.len() && fa[w] == k;
                assert(a[w] == k);
                assert(key_lt(a[w], a[a.len() - 1]));
                assert(a.contains(k));
                assert(b.contains(k));
                let v = choose|v: int| 0 <= v < b.len() && b[v] == k;
                assert(fb[v] == k);
            }
            if fb.contains(k) {
                let w = choose|w: int| 0 <= w < fb.len() && fb[w] == k;
                assert(b[w] == k);
                assert(key_lt(b[w], b[b.len() - 1]));
                assert(b.contains(k));
                assert(a.contains(k));
                let v = choose|v: int| 0 <= v < a.len() && a[v] == k;
                assert(fa[v] == k);
            }
        }
        assert(strictly_ascending(fa)) by {
            assert forall|p: int, q: int| 0 <= p < q < fa.len() implies key_lt(fa[p], fa[q]) by {
                assert(fa[p] == a[p] && fa[q] == a[q]);
            }
        }
        assert(strictly_ascending(fb)) by {
            assert forall|p: int, q: int| 0 <= p < q < fb.len() implies key_lt(fb[p], fb[q]) by {
                assert(fb[p] == b[p] && fb[q] == b[q]);
            }
        }
        lemma_ascending_unique(fa, fb);
        assert(a =~= fa.push(x));
        assert(b =~= fb.push(y));
    }
}

/// Whether `a` and `b` are the same text.
pub fn same_text(a: &str, b: &str) -> (r: bool)
    ensures
        r == (a@ == b@),
{
    let r = str_le(a, b) && str_le(b, a);
    proof {
        if r {
            lemma_key_le_antisym(a@, b@);
        }
        if a@ == b@ {
            lemma_lex_le_refl(key_bytes(a@));
        }
    }
    r
}

/// Looks `key` up in ascending `keys` by bisection. Returns whether it is
/// there, and the position where it stands or would have to be inserted.
fn find_key(keys: &Vec<String>, key: &str) -> (r: (bool, usize))
    requires
        strictly_ascending(keys.deep_view()),
    ensures
        r.1 <= keys.len(),
        r.0 ==> r.1 < keys.len() && keys[r.1 as int]@ == key@,
        r.0 <==> keys.deep_view().contains(key@),
        forall|j: int| 0 <= j < r.1 ==> key_lt(#[trigger] keys[j]@, key@),
        forall|j: int|
            r.1 <= j < keys.len() && !(r.0 && j == r.1) ==> key_lt(key@, #[trigger] keys[j]@),
{
    let ghost ks = keys.deep_view();
    let mut lo: usize = 0;
    let mut hi: usize = keys.len();
    while lo < hi
        invariant
            lo <= hi <= keys.len(),
            ks == keys.deep_view(),
            strictly_ascending(ks),
            forall|j: int| 0 <= j < lo ==> key_lt(#[trigger] ks[j], key@),
            forall|j: int| hi <= j < ks.len() ==> key_le(key@, #[trigger] ks[j]),
        decreases hi - lo,
    {
        let mid = lo + (hi - lo) / 2;
        assert(ks[mid as int] == keys[mid as int]@);
        if str_le(key, keys[mid].as_str()) {
            proof {
                assert forall|j: int| mid <= j < ks.len() implies key_le(key@, #[trigger] ks[j]) by {
                    if j > mid {
                        lemma_key_lt_trans(key@, ks[mid as int], ks[j]);
                        lemma_key_lt_trans(key@, ks[j], ks[j]);
                    }
                }
            }
            hi = mid;
        } else {
            proof {
                assert forall|j: int| 0 <= j < mid + 1 implies key_lt(#[trigger] ks[j], key@) by {
                    if j < mid {
                        lemma_key_lt_trans(ks[j], ks[mid as int], key@);
                    }
                }
            }
            lo = mid + 1;
        }
    }
    let found = lo < keys.len() && str_le(keys[lo].as_str(), key);
    proof {
        if lo < keys.len() {
            assert(ks[lo as int] == keys[lo as int]@);
        }
        if found {
            lemma_key_le_antisym(ks[lo as int], key@);
        }
        assert forall|j: int| lo <= j < keys.len() && !(found && j == lo) implies key_lt(
            key@,
            #[trigger] keys[j]@,
        ) by {
            assert(ks[j] == keys[j]@);
            if j > lo {
                lemma_key_lt_trans(key@, ks[lo as int], ks[j]);
            }
        }
        assert forall|j: int| 0 <= j < lo implies key_lt(#[trigger] keys[j]@, key@) by {
            assert(ks[j] == keys[j]@);
        }
        if ks.contains(key@) {
            let w = choose|w: int| 0 <= w < ks.len() && ks[w] == key@;
            lemma_lex_le_refl(key_bytes(key@));
            assert(ks[w] == keys[w]@);
            if w < lo {
                assert(key_lt(keys[w]@, key@));
            }
        }
    }
    (found, lo)
}

/// A set of keys, kept without repetition in ascending byte-wise order.
#[derive(Debug, PartialEq, Eq)]
pub struct KeySet {
    keys: Vec<String>,
}

impl KeySet {
    #[verifier::type_invariant]
    closed spec fn ascending(&self) -> bool {
        strictly_ascending(self.keys.deep_view())
    }

    /// The keys in ascending order.
    pub closed spec fn view(&self) -> Seq<Seq<char>> {
        self.keys.deep_view()
    }

    /// The set without keys.
    pub fn new() -> (set: KeySet)
        ensures
            set@ == Seq::<Seq<char>>::empty(),
    {
        let keys: Vec<String> = Vec::new();
        assert(keys.deep_view() =~= Seq::<Seq<char>>::empty());
        KeySet { keys }
    }

    /// The keys in ascending order.
    pub fn keys(&self) -> (keys: &Vec<String>)
        ensures
            keys.deep_view() == self@,
            strictly_ascending(self@),
    {
        proof {
            use_type_invariant(self);
        }
        &self.keys
    }

    /// The number of keys.
    pub fn len(&self) -> (n: usize)
        ensures
            n == self@.len(),
            strictly_ascending(self@),
    {
        proof {
            use_type_invariant(self);
        }
        self.keys.len()
    }

    /// The key at position `i`.
    pub fn key(&self, i: usize) -> (key: &String)
        requires
            i < self@.len(),
        ensures
            key@ == self@[i as int],
    {
        &self.keys[i]
    }

    /// Whether `key` is in the set, and the position where it stands or
    /// would have to be inserted: every key before that position sorts
    /// before `key`, and every other key sorts after it.
    pub fn find(&self, key: &str) -> (r: (bool, usize))
        ensures
            r.0 <==> self@.contains(key@),
            r.1 <= self@.len(),
            r.0 ==> r.1 < self@.len() && self@[r.1 as int] == key@,
            forall|j: int| 0 <= j < r.1 ==> key_lt(#[trigger] self@[j], key@),
            forall|j: int| r.1 <= j < self@.len() && !(r.0 && j == r.1) ==> key_lt(key@, #[trigger] self@[j]),
            strictly_ascending(self@),
    {
        proof {
            use_type_invariant(self);
        }
        let r = find_key(&self.keys, key);
        proof {
            assert(forall|j: int| 0 <= j < self@.len() ==> #[trigger] self@[j] == self.keys[j]@);
        }
        r
    }

    /// Puts `key` into the set. Returns whether it is new, and the position
    /// where it now stands.
    pub fn insert(&mut self, key: &str) -> (r: (bool, usize))
        ensures
            strictly_ascending(old(self)@),
            strictly_ascending(final(self)@),
            r.0 <==> !old(self)@.contains(key@),
            r.1 < final(self)@.len(),
            final(self)@[r.1 as int] == key@,
            r.0 ==> final(self)@ == old(self)@.insert(r.1 as int, key@) && r.1 <= old(self)@.len(),
            !r.0 ==> final(self)@ == old(self)@,
            forall|k: Seq<char>| final(self)@.contains(k) <==> old(self)@.contains(k) || k == key@,
    {
        proof {
            use_type_invariant(&*self);
        }
        let ghost before = self@;
        let (found, p) = find_key(&self.keys, key);
        proof {
            assert forall|j: int| 0 <= j < p implies key_lt(before[j], key@) by {
                assert(before[j] == self.keys[j]@);
            }
            assert forall|j: int| p <= j < before.len() && !(found && j == p) implies key_lt(
                key@,
                before[j],
            ) by {
                assert(before[j] == self.keys[j]@);
            }
            if found {
                assert(before[p as int] == self.keys[p as int]@);
            }
        }
        if found {
            proof {
                assert forall|k: Seq<char>| before.contains(k) <==> before.contains(k) || k == key@ by {
                    if k == key@ {
                        assert(before[p as int] == k);
                    }
                }
            }
            return (false, p);
        }
        let mut taken = KeySet::new();
        core::mem::swap(self, &mut taken);
        let KeySet { mut keys } = taken;
        keys.insert(p, key.to_owned());
        proof {
            let after = keys.deep_view();
            assert(after =~= before.insert(p as int, key@));
            assert forall|a: int, b: int| 0 <= a < b < after.len() implies key_lt(after[a], after[b]) by {
                let a0 = if a < p { a } else { a - 1 };
                let b0 = if b < p { b } else { b - 1 };
                if a != p {
                    assert(after[a] == before[a0]);
                }
                if b != p {
                    assert(after[b] == before[b0]);
                }
            }
            assert forall|k: Seq<char>| after.contains(k) <==> before.contains(k) || k == key@ by {
                if after.contains(k) {
                    let w = choose|w: int| 0 <= w < after.len() && after[w] == k;
                    if w != p {
                        let w0 = if w < p { w } else { w - 1 };
                        assert(before[w0] == k);
                    }
                }
                if before.contains(k) {
                    let w = choose|w: int| 0 <= w < before.len() && before[w] == k;
                    let w1 = if w < p { w } else { w + 1 };
                    assert(after[w1] == k);
                }
                if k == key@ {
                    assert(after[p as int] == k);
                }
            }
        }
        *self = KeySet { keys };
        (true, p)
    }
}

} // verus!
