//! Total orders on keys, stated over the keys' views.

use vstd::prelude::*;
use vstd::utf8::encode_utf8;

verus! {

/// How one key stands to another.
#[derive(Debug, Clone, Copy, PartialEq, Eq, Structural)]
pub enum KeyOrder {
    Less,
    Equal,
    Greater,
}

/// A key type with a strict total order on its views, and an executable
/// three-way comparison that decides it.
pub trait TotalOrder: View + Sized {
    /// `a` comes strictly before `b`.
    spec fn precedes(a: Self::V, b: Self::V) -> bool;

    /// No key comes before itself.
    proof fn lemma_precedes_irreflexive(a: Self::V)
        ensures
            !Self::precedes(a, a),
    ;

    /// What comes before a key comes before all that the key comes before.
    proof fn lemma_precedes_transitive(a: Self::V, b: Self::V, c: Self::V)
        requires
            Self::precedes(a, b),
            Self::precedes(b, c),
        ensures
            Self::precedes(a, c),
    ;

    /// Of two keys with different views one comes before the other.
    proof fn lemma_precedes_total(a: Self::V, b: Self::V)
        ensures
            Self::precedes(a, b) || a == b || Self::precedes(b, a),
    ;

    /// Says which of the three cases of `lemma_precedes_total` holds.
    fn compare(&self, other: &Self) -> (o: KeyOrder)
        ensures
            match o {
                KeyOrder::Less => Self::precedes(self@, other@),
                KeyOrder::Equal => self@ == other@,
                KeyOrder::Greater => Self::precedes(other@, self@),
            },
    ;
}

/// Numbers are ordered by their size.
impl TotalOrder for usize {
    open spec fn precedes(a: usize, b: usize) -> bool {
        a < b
    }

    proof fn lemma_precedes_irreflexive(a: usize) {
    }

    proof fn lemma_precedes_transitive(a: usize, b: usize, c: usize) {
    }

    proof fn lemma_precedes_total(a: usize, b: usize) {
    }

    fn compare(&self, other: &Self) -> (o: KeyOrder) {
        if *self < *other {
            KeyOrder::Less
        } else if *self == *other {
            KeyOrder::Equal
        } else {
            KeyOrder::Greater
        }
    }
}

/// Lexicographic order on byte strings: the first differing byte decides,
/// and a proper prefix comes first.
pub open spec fn bytes_lt(a: Seq<u8>, b: Seq<u8>) -> bool
    decreases a.len(),
{
    if b.len() == 0 {
        false
    } else if a.len() == 0 {
        true
    } else if a[0] != b[0] {
        a[0] < b[0]
    } else {
        bytes_lt(a.skip(1), b.skip(1))
    }
}

/// No byte string comes before itself.
pub proof fn lemma_bytes_lt_irreflexive(a: Seq<u8>)
    ensures
        !bytes_lt(a, a),
    decreases a.len(),
{
    if a.len() > 0 {
        lemma_bytes_lt_irreflexive(a.skip(1));
    }
}

/// What comes before a byte string comes before all that it comes before.
pub proof fn lemma_bytes_lt_transitive(a: Seq<u8>, b: Seq<u8>, c: Seq<u8>)
    requires
        bytes_lt(a, b),
        bytes_lt(b, c),
    ensures
        bytes_lt(a, c),
    decreases a.len(),
{
    if a.len() > 0 && a[0] == b[0] && b[0] == c[0] {
        lemma_bytes_lt_transitive(a.skip(1), b.skip(1), c.skip(1));
    }
}

/// Of two different byte strings one comes before the other.
pub proof fn lemma_bytes_lt_total(a: Seq<u8>, b: Seq<u8>)
    ensures
        bytes_lt(a, b) || a == b || bytes_lt(b, a),
    decreases a.len(),
{
    if a.len() > 0 && b.len() > 0 && a[0] == b[0] {
        lemma_bytes_lt_total(a.skip(1), b.skip(1));
        if a.skip(1) == b.skip(1) {
            assert(a =~= seq![a[0]] + a.skip(1));
            assert(b =~= seq![b[0]] + b.skip(1));
        }
    } else if a.len() == 0 && b.len() == 0 {
        assert(a =~= b);
    }
}

/// Two byte strings that agree on their first `n` bytes are ordered as
/// what follows those bytes.
pub proof fn lemma_bytes_lt_common_prefix(a: Seq<u8>, b: Seq<u8>, n: nat)
    requires
        n <= a.len(),
        n <= b.len(),
        forall|i: int| 0 <= i < n ==> a[i] == b[i],
    ensures
        bytes_lt(a, b) == bytes_lt(a.skip(n as int), b.skip(n as int)),
    decreases n,
{
    if n == 0 {
        assert(a.skip(0) =~= a);
        assert(b.skip(0) =~= b);
    } else {
        let a1 = a.skip(1);
        let b1 = b.skip(1);
        assert forall|i: int| 0 <= i < n - 1 implies a1[i] == b1[i] by {
            assert(a1[i] == a[i + 1]);
            assert(b1[i] == b[i + 1]);
        }
        lemma_bytes_lt_common_prefix(a1, b1, (n - 1) as nat);
        assert(a1.skip(n - 1) =~= a.skip(n as int));
        assert(b1.skip(n - 1) =~= b.skip(n as int));
        assert(a[0] == b[0]);
    }
}

/// Compares two byte strings lexicographically.
pub fn compare_bytes(a: &[u8], b: &[u8]) -> (o: KeyOrder)
    ensures
        match o {
            KeyOrder::Less => bytes_lt(a@, b@),
            KeyOrder::Equal => a@ == b@,
            KeyOrder::Greater => bytes_lt(b@, a@),
        },
{
    let mut i: usize = 0;
    while i < a.len() && i < b.len()
        invariant
            i <= a.len(),
            i <= b.len(),
            forall|j: int| 0 <= j < i ==> a@[j] == b@[j],
        decreases a.len() - i,
    {
        if a[i] != b[i] {
            proof {
                lemma_bytes_lt_common_prefix(a@, b@, i as nat);
                lemma_bytes_lt_common_prefix(b@, a@, i as nat);
                assert(a@.skip(i as int)[0] == a@[i as int]);
                assert(b@.skip(i as int)[0] == b@[i as int]);
            }
            if a[i] < b[i] {
                return KeyOrder::Less;
            } else {
                return KeyOrder::Greater;
            }
        }
        i += 1;
    }
    proof {
        lemma_bytes_lt_common_prefix(a@, b@, i as nat);
        lemma_bytes_lt_common_prefix(b@, a@, i as nat);
        if a.len() == b.len() {
            assert(a@ =~= b@);
        }
    }
    if a.len() < b.len() {
        KeyOrder::Less
    } else if a.len() == b.len() {
        KeyOrder::Equal
    } else {
        KeyOrder::Greater
    }
}

/// Strings are ordered by their UTF-8 bytes.
impl TotalOrder for String {
    open spec fn precedes(a: Seq<char>, b: Seq<char>) -> bool {
        bytes_lt(encode_utf8(a), encode_utf8(b))
    }

    proof fn lemma_precedes_irreflexive(a: Seq<char>) {
        lemma_bytes_lt_irreflexive(encode_utf8(a));
    }

    proof fn lemma_precedes_transitive(a: Seq<char>, b: Seq<char>, c: Seq<char>) {
        lemma_bytes_lt_transitive(encode_utf8(a), encode_utf8(b), encode_utf8(c));
    }

    proof fn lemma_precedes_total(a: Seq<char>, b: Seq<char>) {
        lemma_bytes_lt_total(encode_utf8(a), encode_utf8(b));
        if encode_utf8(a) == encode_utf8(b) {
            vstd::utf8::encode_utf8_decode_utf8(a);
            vstd::utf8::encode_utf8_decode_utf8(b);
        }
    }

    fn compare(&self, other: &Self) -> (o: KeyOrder) {
        proof {
            if encode_utf8(self@) == encode_utf8(other@) {
                vstd::utf8::encode_utf8_decode_utf8(self@);
                vstd::utf8::encode_utf8_decode_utf8(other@);
            }
        }
        compare_bytes(self.as_str().as_bytes(), other.as_str().as_bytes())
    }
}

} // verus!
