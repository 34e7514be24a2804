//! Byte-string helpers: ASCII case folding, lexicographic order, substring search.

use vstd::prelude::*;

verus! {

/// The bytes of a sequence of ASCII characters.
pub open spec fn ascii_bytes(s: Seq<char>) -> Seq<u8> {
    Seq::new(s.len(), |i: int| s[i] as u8)
}

/// One byte with `A`..`Z` mapped to `a`..`z`; every other byte unchanged.
pub open spec fn fold_byte(b: u8) -> u8 {
    if 65 <= b <= 90 {
        (b + 32) as u8
    } else {
        b
    }
}

/// A byte string folded to ASCII lower case, byte by byte.
pub open spec fn folded(s: Seq<u8>) -> Seq<u8> {
    Seq::new(s.len(), |i: int| fold_byte(s[i]))
}

/// `a` and `b` agree on their first `k` bytes.
pub open spec fn common_prefix(a: Seq<u8>, b: Seq<u8>, k: int) -> bool {
    &&& 0 <= k <= a.len()
    &&& k <= b.len()
    &&& forall|j: int| 0 <= j < k ==> a[j] == b[j]
}

/// `a` comes strictly before `b` in lexicographic byte order: after some common
/// prefix either `a` ends and `b` goes on, or `a` holds the smaller byte.
pub open spec fn lex_lt(a: Seq<u8>, b: Seq<u8>) -> bool {
    exists|k: int| #[trigger]
        common_prefix(a, b, k) && (if k == a.len() {
            k < b.len()
        } else {
            k < b.len() && a[k] < b[k]
        })
}

pub open spec fn lex_le(a: Seq<u8>, b: Seq<u8>) -> bool {
    a == b || lex_lt(a, b)
}

/// `needle` occurs in `hay` starting at byte `at`.
pub open spec fn occurs_at(hay: Seq<u8>, needle: Seq<u8>, at: int) -> bool {
    &&& 0 <= at
    &&& at + needle.len() <= hay.len()
    &&& hay.subrange(at, at + needle.len()) == needle
}

/// `needle` occurs somewhere in `hay`; the empty needle occurs in every text.
pub open spec fn contains(hay: Seq<u8>, needle: Seq<u8>) -> bool {
    exists|at: int| occurs_at(hay, needle, at)
}

/// How two byte strings stand to each other in lexicographic order.
#[derive(Clone, Copy, Debug, PartialEq, Eq, Structural)]
pub enum Order {
    Before,
    Same,
    After,
}

/// The bytes of an ASCII string literal.
pub fn literal_bytes(lit: &str) -> (r: Vec<u8>)
    requires
        lit.is_ascii(),
    ensures
        r@ == ascii_bytes(lit@),
{
    proof {
        vstd::string::is_ascii_spec_bytes(lit);
    }
    let mut r: Vec<u8> = Vec::new();
    r.extend_from_slice(lit.as_bytes());
    assert(r@ =~= ascii_bytes(lit@));
    r
}

/// A fresh copy of a byte string.
pub fn copy_bytes(s: &[u8]) -> (r: Vec<u8>)
    ensures
        r@ == s@,
{
    let mut r: Vec<u8> = Vec::new();
    r.extend_from_slice(s);
    assert(r@ =~= s@);
    r
}

/// Folds a byte string to ASCII lower case.
pub fn fold_ascii(s: &[u8]) -> (r: Vec<u8>)
    ensures
        r@ == folded(s@),
{
    let mut r: Vec<u8> = Vec::new();
    let mut i: usize = 0;
    while i < s.len()
        invariant
            0 <= i <= s.len(),
            r@.len() == i,
            forall|j: int| 0 <= j < i ==> r@[j] == fold_byte(s@[j]),
        decreases s.len() - i,
    {
        let b: u8 = s[i];
        if 65 <= b && b <= 90 {
            r.push(b + 32);
        } else {
            r.push(b);
        }
        i += 1;
    }
    assert(r@ =~= folded(s@));
    r
}

/// Whether two byte strings are equal.
pub fn bytes_eq(a: &[u8], b: &[u8]) -> (r: bool)
    ensures
        r == (a@ == b@),
{
    if a.len() != b.len() {
        return false;
    }
    let mut i: usize = 0;
    while i < a.len()
        invariant
            0 <= i <= a.len(),
            a.len() == b.len(),
            forall|j: int| 0 <= j < i ==> a@[j] == b@[j],
        decreases a.len() - i,
    {
        if a[i] != b[i] {
            return false;
        }
        i += 1;
    }
    assert(a@ =~= b@);
    true
}

/// Compares two byte strings lexicographically.
pub fn lex_order(a: &[u8], b: &[u8]) -> (r: Order)
    ensures
        r == Order::Before <==> lex_lt(a@, b@),
        r == Order::Same <==> a@ == b@,
        r == Order::After <==> lex_lt(b@, a@),
{
    let mut i: usize = 0;
    while i < a.len() && i < b.len()
        invariant
            common_prefix(a@, b@, i as int),
        decreases a.len() - i,
    {
        if a[i] < b[i] {
            proof {
                lemma_order_exclusive(a@, b@, i as int);
            }
            return Order::Before;
        }
        if a[i] > b[i] {
            proof {
                assert(common_prefix(b@, a@, i as int));
                lemma_order_exclusive(b@, a@, i as int);
            }
            return Order::After;
        }
        i += 1;
    }
    if i < b.len() {
        proof {
            lemma_order_exclusive(a@, b@, i as int);
        }
        Order::Before
    } else if i < a.len() {
        proof {
            assert(common_prefix(b@, a@, i as int));
            lemma_order_exclusive(b@, a@, i as int);
        }
        Order::After
    } else {
        proof {
            assert(a@ =~= b@);
            lemma_lt_irreflexive(a@);
        }
        Order::Same
    }
}

/// Whether `needle` occurs in `hay`.
pub fn contains_bytes(hay: &[u8], needle: &[u8]) -> (r: bool)
    ensures
        r == contains(hay@, needle@),
{
    if needle.len() > hay.len() {
        return false;
    }
    let last: usize = hay.len() - needle.len();
    let mut at: usize = 0;
    while at <= last
        invariant
            0 <= at <= last + 1,
            last == hay.len() - needle.len(),
            forall|p: int| 0 <= p < at ==> !occurs_at(hay@, needle@, p),
        decreases last + 1 - at,
    {
        let mut j: usize = 0;
        while j < needle.len() && hay[at + j] == needle[j]
            invariant
                0 <= j <= needle.len(),
                at + needle.len() <= hay.len(),
                forall|t: int| 0 <= t < j ==> hay@[at + t] == needle@[t],
            decreases needle.len() - j,
        {
            j += 1;
        }
        if j == needle.len() {
            assert(hay@.subrange(at as int, at + needle.len()) =~= needle@);
            assert(occurs_at(hay@, needle@, at as int));
            return true;
        }
        assert(!occurs_at(hay@, needle@, at as int)) by {
            if occurs_at(hay@, needle@, at as int) {
                assert(hay@.subrange(at as int, at + needle.len())[j as int] == needle@[j as int]);
            }
        }
        at += 1;
    }
    false
}

/// A witness of `lex_lt(a, b)` at `k` rules out equality and the opposite order.
pub proof fn lemma_order_exclusive(a: Seq<u8>, b: Seq<u8>, k: int)
    requires
        common_prefix(a, b, k),
        if k == a.len() {
            k < b.len()
        } else {
            k < b.len() && a[k] < b[k]
        },
    ensures
        lex_lt(a, b),
        a != b,
        !lex_lt(b, a),
{
    if lex_lt(b, a) {
        let m = choose|m: int| #[trigger]
            common_prefix(b, a, m) && (if m == b.len() {
                m < a.len()
            } else {
                m < a.len() && b[m] < a[m]
            });
        if m < k {
            assert(a[m] == b[m]);
        } else if k < m {
            assert(b[k] == a[k]);
        }
    }
}

/// No byte string comes before itself.
pub proof fn lemma_lt_irreflexive(a: Seq<u8>)
    ensures
        !lex_lt(a, a),
{
}

/// Lexicographic order is transitive.
pub proof fn lemma_lex_lt_transitive(a: Seq<u8>, b: Seq<u8>, c: Seq<u8>)
    requires
        lex_lt(a, b),
        lex_lt(b, c),
    ensures
        lex_lt(a, c),
{
    let k1 = choose|k: int| #[trigger]
        common_prefix(a, b, k) && (if k == a.len() {
            k < b.len()
        } else {
            k < b.len() && a[k] < b[k]
        });
    let k2 = choose|k: int| #[trigger]
        common_prefix(b, c, k) && (if k == b.len() {
            k < c.len()
        } else {
            k < c.len() && b[k] < c[k]
        });
    let k = if k1 < k2 {
        k1
    } else {
        k2
    };
    assert(common_prefix(a, c, k));
    if k2 < k1 {
        assert(a[k2] == b[k2]);
    } else if k1 < k2 {
        assert(b[k1] == c[k1]);
    }
}

/// The order `lex_le` is transitive.
pub proof fn lemma_lex_le_transitive(a: Seq<u8>, b: Seq<u8>, c: Seq<u8>)
    requires
        lex_le(a, b),
        lex_le(b, c),
    ensures
        lex_le(a, c),
{
    if lex_lt(a, b) && lex_lt(b, c) {
        lemma_lex_lt_transitive(a, b, c);
    }
}

/// Two byte strings that agree on their first `k` bytes are equal, or one
/// comes before the other.
pub proof fn lemma_lex_connected(a: Seq<u8>, b: Seq<u8>, k: int)
    requires
        common_prefix(a, b, k),
    ensures
        a == b || lex_lt(a, b) || lex_lt(b, a),
    decreases a.len() - k,
{
    if k == a.len() || k == b.len() {
        if a.len() == b.len() {
            assert(a =~= b);
        } else if k == a.len() {
            lemma_order_exclusive(a, b, k);
        } else {
            assert(common_prefix(b, a, k));
            lemma_order_exclusive(b, a, k);
        }
    } else if a[k] < b[k] {
        lemma_order_exclusive(a, b, k);
    } else if b[k] < a[k] {
        assert(common_prefix(b, a, k));
        lemma_order_exclusive(b, a, k);
    } else {
        lemma_lex_connected(a, b, k + 1);
    }
}

} // verus!
