//! The total order on keys.
//!
//! The tree is generic over its key type.  A key type supplies a spec-level
//! relation `le` that is total, reflexive and transitive (a total preorder),
//! and an executable three-way comparison that agrees with it.  Two keys may
//! compare `Equal` without being structurally identical; the container treats
//! such keys as the same key.

use vstd::prelude::*;
use vstd::std_specs::iter::IteratorSpec;

verus! {

broadcast use
    vstd::string::axiom_spec_iter,
    vstd::string::next_postcondition,
    vstd::string::is_ascii_spec_bytes;

/// Result of a three-way comparison of two keys.
pub enum Cmp {
    Less,
    Equal,
    Greater,
}

/// A total preorder on a key type, with an executable comparison.
pub trait TotalOrder: Sized {
    /// The ordering relation: `a.le(b)` means `a` sorts at or before `b`.
    spec fn le(self, other: Self) -> bool;

    /// `le` relates every pair of keys one way or the other.
    proof fn lemma_total(x: Self, y: Self)
        ensures
            x.le(y) || y.le(x),
    ;

    /// `le` is transitive.
    proof fn lemma_transitive(x: Self, y: Self, z: Self)
        requires
            x.le(y),
            y.le(z),
        ensures
            x.le(z),
    ;

    /// Three-way comparison agreeing with `le`.
    fn compare(&self, other: &Self) -> (c: Cmp)
        ensures
            match c {
                Cmp::Less => self.le(*other) && !other.le(*self),
                Cmp::Equal => self.le(*other) && other.le(*self),
                Cmp::Greater => other.le(*self) && !self.le(*other),
            },
    ;
}

/// Strictly before in the order.
pub open spec fn key_lt<K: TotalOrder>(a: K, b: K) -> bool {
    a.le(b) && !b.le(a)
}

/// Equivalent in the order: the container treats such keys as equal.
pub open spec fn key_eqv<K: TotalOrder>(a: K, b: K) -> bool {
    a.le(b) && b.le(a)
}

/// Quantified forms of the order laws, so that proofs about sequences of
/// keys can leave their instantiation to the solver.
pub proof fn order_facts<K: TotalOrder>()
    ensures
        forall|x: K, y: K| #![trigger x.le(y)] x.le(y) || y.le(x),
        forall|x: K, y: K, z: K| #![trigger x.le(y), y.le(z)]
            x.le(y) && y.le(z) ==> x.le(z),
{
    assert forall|x: K, y: K| #![trigger x.le(y)] x.le(y) || y.le(x) by {
        K::lemma_total(x, y);
    }
    assert forall|x: K, y: K, z: K| #![trigger x.le(y), y.le(z)]
        x.le(y) && y.le(z) ==> x.le(z) by {
        if x.le(y) && y.le(z) {
            K::lemma_transitive(x, y, z);
        }
    }
}

/// Lexicographic order on byte strings.
pub open spec fn bytes_le(x: Seq<u8>, y: Seq<u8>) -> bool
    decreases x.len(),
{
    if x.len() == 0 {
        true
    } else if y.len() == 0 {
        false
    } else if x[0] < y[0] {
        true
    } else if x[0] > y[0] {
        false
    } else {
        bytes_le(x.skip(1), y.skip(1))
    }
}

/// `bytes_le` relates every pair of byte strings one way or the other.
pub proof fn lemma_bytes_le_total(x: Seq<u8>, y: Seq<u8>)
    ensures
        bytes_le(x, y) || bytes_le(y, x),
    decreases x.len(),
{
    if x.len() > 0 && y.len() > 0 && x[0] == y[0] {
        lemma_bytes_le_total(x.skip(1), y.skip(1));
    }
}

/// `bytes_le` is transitive.
pub proof fn lemma_bytes_le_trans(x: Seq<u8>, y: Seq<u8>, z: Seq<u8>)
    requires
        bytes_le(x, y),
        bytes_le(y, z),
    ensures
        bytes_le(x, z),
    decreases x.len(),
{
    if x.len() > 0 && y.len() > 0 && z.len() > 0 && x[0] == y[0] && y[0] == z[0] {
        lemma_bytes_le_trans(x.skip(1), y.skip(1), z.skip(1));
    }
}

/// Skipping a shared prefix does not change the order.
pub proof fn lemma_bytes_le_skip(x: Seq<u8>, y: Seq<u8>, i: int)
    requires
        0 <= i <= x.len(),
        i <= y.len(),
        forall|j: int| 0 <= j < i ==> x[j] == y[j],
    ensures
        bytes_le(x, y) == bytes_le(x.skip(i), y.skip(i)),
    decreases i,
{
    if i > 0 {
        assert(x[0] == y[0]);
        assert forall|j: int| 0 <= j < i - 1 implies x.skip(1)[j] == y.skip(1)[j] by {
            assert(x.skip(1)[j] == x[j + 1] && y.skip(1)[j] == y[j + 1]);
        }
        lemma_bytes_le_skip(x.skip(1), y.skip(1), i - 1);
        assert(x.skip(1).skip(i - 1) =~= x.skip(i));
        assert(y.skip(1).skip(i - 1) =~= y.skip(i));
    } else {
        assert(x.skip(0) =~= x);
        assert(y.skip(0) =~= y);
    }
}

impl TotalOrder for [u8; 8] {
    open spec fn le(self, other: Self) -> bool {
        bytes_le(self@, other@)
    }

    proof fn lemma_total(x: Self, y: Self) {
        lemma_bytes_le_total(x@, y@);
    }

    proof fn lemma_transitive(x: Self, y: Self, z: Self) {
        lemma_bytes_le_trans(x@, y@, z@);
    }

    fn compare(&self, other: &Self) -> (c: Cmp) {
        let mut i: usize = 0;
        while i < 8
            invariant
                0 <= i <= 8,
                forall|j: int| 0 <= j < i ==> self@[j] == other@[j],
            decreases 8 - i,
        {
            let a = self[i];
            let b = other[i];
            proof {
                lemma_bytes_le_skip(self@, other@, i as int);
                lemma_bytes_le_skip(other@, self@, i as int);
            }
            if a < b {
                return Cmp::Less;
            }
            if a > b {
                return Cmp::Greater;
            }
            i = i + 1;
        }
        proof {
            lemma_bytes_le_skip(self@, other@, 8);
            lemma_bytes_le_skip(other@, self@, 8);
        }
        Cmp::Equal
    }
}

/// Lexicographic order on character strings, by code point.
pub open spec fn chars_le(x: Seq<char>, y: Seq<char>) -> bool
    decreases x.len(),
{
    if x.len() == 0 {
        true
    } else if y.len() == 0 {
        false
    } else if (x[0] as u32) < (y[0] as u32) {
        true
    } else if (x[0] as u32) > (y[0] as u32) {
        false
    } else {
        chars_le(x.skip(1), y.skip(1))
    }
}

/// `chars_le` relates every pair of strings one way or the other.
pub proof fn lemma_chars_le_total(x: Seq<char>, y: Seq<char>)
    ensures
        chars_le(x, y) || chars_le(y, x),
    decreases x.len(),
{
    if x.len() > 0 && y.len() > 0 && (x[0] as u32) == (y[0] as u32) {
        lemma_chars_le_total(x.skip(1), y.skip(1));
    }
}

/// `chars_le` is transitive.
pub proof fn lemma_chars_le_trans(x: Seq<char>, y: Seq<char>, z: Seq<char>)
    requires
        chars_le(x, y),
        chars_le(y, z),
    ensures
        chars_le(x, z),
    decreases x.len(),
{
    if x.len() > 0 && y.len() > 0 && z.len() > 0 && (x[0] as u32) == (y[0] as u32) && (y[0]
        as u32) == (z[0] as u32) {
        lemma_chars_le_trans(x.skip(1), y.skip(1), z.skip(1));
    }
}

/// Skipping a shared prefix does not change the order.
pub proof fn lemma_chars_le_skip(x: Seq<char>, y: Seq<char>, i: int)
    requires
        0 <= i <= x.len(),
        i <= y.len(),
        forall|j: int| 0 <= j < i ==> (x[j] as u32) == (y[j] as u32),
    ensures
        chars_le(x, y) == chars_le(x.skip(i), y.skip(i)),
    decreases i,
{
    if i > 0 {
        assert((x[0] as u32) == (y[0] as u32));
        assert forall|j: int| 0 <= j < i - 1 implies (x.skip(1)[j] as u32) == (y.skip(1)[j]
            as u32) by {
            assert(x.skip(1)[j] == x[j + 1] && y.skip(1)[j] == y[j + 1]);
        }
        lemma_chars_le_skip(x.skip(1), y.skip(1), i - 1);
        assert(x.skip(1).skip(i - 1) =~= x.skip(i));
        assert(y.skip(1).skip(i - 1) =~= y.skip(i));
    } else {
        assert(x.skip(0) =~= x);
        assert(y.skip(0) =~= y);
    }
}

impl TotalOrder for usize {
    open spec fn le(self, other: Self) -> bool {
        self <= other
    }

    proof fn lemma_total(x: Self, y: Self) {
    }

    proof fn lemma_transitive(x: Self, y: Self, z: Self) {
    }

    fn compare(&self, other: &Self) -> (c: Cmp) {
        if *self < *other {
            Cmp::Less
        } else if *self == *other {
            Cmp::Equal
        } else {
            Cmp::Greater
        }
    }
}

impl TotalOrder for u64 {
    open spec fn le(self, other: Self) -> bool {
        self <= other
    }

    proof fn lemma_total(x: Self, y: Self) {
    }

    proof fn lemma_transitive(x: Self, y: Self, z: Self) {
    }

    fn compare(&self, other: &Self) -> (c: Cmp) {
        if *self < *other {
            Cmp::Less
        } else if *self == *other {
            Cmp::Equal
        } else {
            Cmp::Greater
        }
    }
}

impl TotalOrder for u8 {
    open spec fn le(self, other: Self) -> bool {
        self <= other
    }

    proof fn lemma_total(x: Self, y: Self) {
    }

    proof fn lemma_transitive(x: Self, y: Self, z: Self) {
    }

    fn compare(&self, other: &Self) -> (c: Cmp) {
        if *self < *other {
            Cmp::Less
        } else if *self == *other {
            Cmp::Equal
        } else {
            Cmp::Greater
        }
    }
}

/// For characters within the ASCII range, the byte comparison and the
/// code-point comparison agree.
proof fn lemma_ascii_byte_order(a: char, b: char)
    requires
        '\0' <= a <= '\u{7f}',
        '\0' <= b <= '\u{7f}',
    ensures
        ((a as u8) < (b as u8)) == ((a as u32) < (b as u32)),
        ((a as u8) == (b as u8)) == ((a as u32) == (b as u32)),
{
    assert((a as u32) < 128 && (b as u32) < 128);
}

/// Three-way comparison of two ASCII strings, byte by byte.
fn compare_ascii(s1: &str, s2: &str) -> (c: Cmp)
    requires
        vstd::string::is_ascii(s1),
        vstd::string::is_ascii(s2),
    ensures
        match c {
            Cmp::Less => chars_le(s1@, s2@) && !chars_le(s2@, s1@),
            Cmp::Equal => chars_le(s1@, s2@) && chars_le(s2@, s1@),
            Cmp::Greater => chars_le(s2@, s1@) && !chars_le(s1@, s2@),
        },
{
    let b1 = s1.as_bytes();
    let b2 = s2.as_bytes();
    proof {
        assert(b1@ =~= Seq::new(s1@.len(), |i: int| s1@[i] as u8));
        assert(b2@ =~= Seq::new(s2@.len(), |i: int| s2@[i] as u8));
    }
    let n1 = b1.len();
    let n2 = b2.len();
    let min = if n1 < n2 {
        n1
    } else {
        n2
    };
    let mut i: usize = 0;
    while i < min
        invariant
            vstd::string::is_ascii(s1),
            vstd::string::is_ascii(s2),
            b1@.len() == s1@.len(),
            b2@.len() == s2@.len(),
            forall|j: int| 0 <= j < b1@.len() ==> b1@[j] == (s1@[j] as u8),
            forall|j: int| 0 <= j < b2@.len() ==> b2@[j] == (s2@[j] as u8),
            min <= b1@.len() && min <= b2@.len(),
            min == b1@.len() || min == b2@.len(),
            0 <= i <= min,
            forall|j: int| 0 <= j < i ==> (s1@[j] as u32) == (s2@[j] as u32),
        decreases min - i,
    {
        let x = b1[i];
        let y = b2[i];
        proof {
            lemma_chars_le_skip(s1@, s2@, i as int);
            lemma_chars_le_skip(s2@, s1@, i as int);
            assert('\0' <= s1@[i as int] <= '\u{7f}' && '\0' <= s2@[i as int] <= '\u{7f}');
            lemma_ascii_byte_order(s1@[i as int], s2@[i as int]);
        }
        if x < y {
            return Cmp::Less;
        }
        if x > y {
            return Cmp::Greater;
        }
        i = i + 1;
    }
    proof {
        lemma_chars_le_skip(s1@, s2@, min as int);
        lemma_chars_le_skip(s2@, s1@, min as int);
    }
    if n1 == n2 {
        Cmp::Equal
    } else if n1 < n2 {
        Cmp::Less
    } else {
        Cmp::Greater
    }
}

impl TotalOrder for String {
    open spec fn le(self, other: Self) -> bool {
        chars_le(self@, other@)
    }

    proof fn lemma_total(x: Self, y: Self) {
        lemma_chars_le_total(x@, y@);
    }

    proof fn lemma_transitive(x: Self, y: Self, z: Self) {
        lemma_chars_le_trans(x@, y@, z@);
    }

    fn compare(&self, other: &Self) -> (c: Cmp) {
        let s1 = self.as_str();
        let s2 = other.as_str();
        if s1.is_ascii() && s2.is_ascii() {
            return compare_ascii(s1, s2);
        }
        let mut it1 = s1.chars();
        let mut it2 = s2.chars();
        let ghost mut i: int = 0;
        loop
            invariant
                0 <= i <= self@.len(),
                0 <= i <= other@.len(),
                it1.obeys_prophetic_iter_laws(),
                it2.obeys_prophetic_iter_laws(),
                it1.remaining() =~= self@.skip(i),
                it2.remaining() =~= other@.skip(i),
                forall|j: int| 0 <= j < i ==> (self@[j] as u32) == (other@[j] as u32),
            decreases self@.len() - i,
        {
            let a = it1.next();
            let b = it2.next();
            proof {
                lemma_chars_le_skip(self@, other@, i);
                lemma_chars_le_skip(other@, self@, i);
            }
            match (a, b) {
                (None, None) => {
                    return Cmp::Equal;
                },
                (None, Some(_)) => {
                    return Cmp::Less;
                },
                (Some(_), None) => {
                    return Cmp::Greater;
                },
                (Some(ca), Some(cb)) => {
                    proof {
                        assert(ca == self@[i] && cb == other@[i]);
                    }
                    let ua = ca as u32;
                    let ub = cb as u32;
                    if ua < ub {
                        return Cmp::Less;
                    } else if ua > ub {
                        return Cmp::Greater;
                    } else {
                        proof {
                            assert(it1.remaining() =~= self@.skip(i + 1));
                            assert(it2.remaining() =~= other@.skip(i + 1));
                            i = i + 1;
                        }
                    }
                },
            }
        }
    }
}

impl TotalOrder for i32 {
    open spec fn le(self, other: Self) -> bool {
        self <= other
    }

    proof fn lemma_total(x: Self, y: Self) {
    }

    proof fn lemma_transitive(x: Self, y: Self, z: Self) {
    }

    fn compare(&self, other: &Self) -> (c: Cmp) {
        if *self < *other {
            Cmp::Less
        } else if *self == *other {
            Cmp::Equal
        } else {
            Cmp::Greater
        }
    }
}

} // verus!
