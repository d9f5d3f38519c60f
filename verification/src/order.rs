//! Keys and their order.
//!
//! A key is seen through its view; the order is a strict total order on
//! views, and every implementation proves that it is one.

use vstd::prelude::*;

verus! {

/// Where one key lies relative to another.
#[derive(Clone, Copy, Debug, PartialEq, Eq, Structural)]
pub enum Side {
    /// Strictly before the other key.
    Below,
    /// The same key.
    Same,
    /// Strictly after the other key.
    Above,
}

/// A key type with a strict total order on its views.
pub trait SortKey: View + Clone + Sized {
    /// `a` comes strictly before `b`.
    spec fn precedes(a: Self::V, b: Self::V) -> bool;

    /// No key comes before itself.
    proof fn precedes_irreflexive(a: Self::V)
        ensures
            !Self::precedes(a, a),
    ;

    /// The order is transitive.
    proof fn precedes_transitive(a: Self::V, b: Self::V, c: Self::V)
        requires
            Self::precedes(a, b),
            Self::precedes(b, c),
        ensures
            Self::precedes(a, c),
    ;

    /// Any two different keys are ordered one way or the other.
    proof fn precedes_total(a: Self::V, b: Self::V)
        ensures
            Self::precedes(a, b) || a == b || Self::precedes(b, a),
    ;

    /// Three-way comparison of `self` with `other`.
    fn side_of(&self, other: &Self) -> (side: Side)
        ensures
            match side {
                Side::Below => Self::precedes(self@, other@),
                Side::Same => self@ == other@,
                Side::Above => Self::precedes(other@, self@),
            },
    ;
}

impl SortKey for i32 {
    open spec fn precedes(a: i32, b: i32) -> bool {
        a < b
    }

    proof fn precedes_irreflexive(a: i32) {
    }

    proof fn precedes_transitive(a: i32, b: i32, c: i32) {
    }

    proof fn precedes_total(a: i32, b: i32) {
    }

    fn side_of(&self, other: &Self) -> (side: Side) {
        if *self < *other {
            Side::Below
        } else if *self == *other {
            Side::Same
        } else {
            Side::Above
        }
    }
}

impl SortKey for u32 {
    open spec fn precedes(a: u32, b: u32) -> bool {
        a < b
    }

    proof fn precedes_irreflexive(a: u32) {
    }

    proof fn precedes_transitive(a: u32, b: u32, c: u32) {
    }

    proof fn precedes_total(a: u32, b: u32) {
    }

    fn side_of(&self, other: &Self) -> (side: Side) {
        if *self < *other {
            Side::Below
        } else if *self == *other {
            Side::Same
        } else {
            Side::Above
        }
    }
}

impl SortKey for i64 {
    open spec fn precedes(a: i64, b: i64) -> bool {
        a < b
    }

    proof fn precedes_irreflexive(a: i64) {
    }

    proof fn precedes_transitive(a: i64, b: i64, c: i64) {
    }

    proof fn precedes_total(a: i64, b: i64) {
    }

    fn side_of(&self, other: &Self) -> (side: Side) {
        if *self < *other {
            Side::Below
        } else if *self == *other {
            Side::Same
        } else {
            Side::Above
        }
    }
}

impl SortKey for u64 {
    open spec fn precedes(a: u64, b: u64) -> bool {
        a < b
    }

    proof fn precedes_irreflexive(a: u64) {
    }

    proof fn precedes_transitive(a: u64, b: u64, c: u64) {
    }

    proof fn precedes_total(a: u64, b: u64) {
    }

    fn side_of(&self, other: &Self) -> (side: Side) {
        if *self < *other {
            Side::Below
        } else if *self == *other {
            Side::Same
        } else {
            Side::Above
        }
    }
}

/// `x` comes before `y` from position `i` on: at the first position from
/// there where the two differ `x` has the smaller byte, or `x` ends there
/// and `y` goes on.
pub open spec fn bytes_before(x: Seq<u8>, y: Seq<u8>, i: int) -> bool
    decreases x.len() - i,
{
    if i < 0 {
        false
    } else if i >= x.len() {
        i < y.len()
    } else if i >= y.len() {
        false
    } else if x[i] != y[i] {
        x[i] < y[i]
    } else {
        bytes_before(x, y, i + 1)
    }
}

/// No byte string comes before itself.
pub proof fn lemma_bytes_irreflexive(x: Seq<u8>, i: int)
    requires
        0 <= i,
    ensures
        !bytes_before(x, x, i),
    decreases x.len() - i,
{
    if i < x.len() {
        lemma_bytes_irreflexive(x, i + 1);
    }
}

/// The order of byte strings is transitive.
pub proof fn lemma_bytes_transitive(x: Seq<u8>, y: Seq<u8>, z: Seq<u8>, i: int)
    requires
        0 <= i,
        bytes_before(x, y, i),
        bytes_before(y, z, i),
    ensures
        bytes_before(x, z, i),
    decreases x.len() - i,
{
    if i < x.len() && i < y.len() && i < z.len() && x[i] == y[i] && y[i] == z[i] {
        lemma_bytes_transitive(x, y, z, i + 1);
    }
}

/// Two byte strings that agree up to position `i` are the same, or one comes before the other.
pub proof fn lemma_bytes_total(x: Seq<u8>, y: Seq<u8>, i: int)
    requires
        0 <= i <= x.len(),
        i <= y.len(),
        x.take(i) == y.take(i),
    ensures
        bytes_before(x, y, i) || bytes_before(y, x, i) || x == y,
    decreases x.len() - i,
{
    if i < x.len() && i < y.len() {
        if x[i] == y[i] {
            assert(x.take(i + 1) =~= x.take(i).push(x[i]));
            assert(y.take(i + 1) =~= y.take(i).push(y[i]));
            lemma_bytes_total(x, y, i + 1);
        }
    } else if i == x.len() && i == y.len() {
        assert(x.take(i) =~= x);
        assert(y.take(i) =~= y);
    }
}

/// Strings are ordered by their bytes, as `str` orders them.
impl SortKey for String {
    open spec fn precedes(a: Seq<char>, b: Seq<char>) -> bool {
        bytes_before(vstd::utf8::encode_utf8(a), vstd::utf8::encode_utf8(b), 0)
    }

    proof fn precedes_irreflexive(a: Seq<char>) {
        lemma_bytes_irreflexive(vstd::utf8::encode_utf8(a), 0);
    }

    proof fn precedes_transitive(a: Seq<char>, b: Seq<char>, c: Seq<char>) {
        lemma_bytes_transitive(
            vstd::utf8::encode_utf8(a),
            vstd::utf8::encode_utf8(b),
            vstd::utf8::encode_utf8(c),
            0,
        );
    }

    proof fn precedes_total(a: Seq<char>, b: Seq<char>) {
        let x = vstd::utf8::encode_utf8(a);
        let y = vstd::utf8::encode_utf8(b);
        assert(x.take(0) =~= y.take(0));
        lemma_bytes_total(x, y, 0);
        if x == y {
            vstd::utf8::encode_utf8_decode_utf8(a);
            vstd::utf8::encode_utf8_decode_utf8(b);
        }
    }

    fn side_of(&self, other: &Self) -> (side: Side) {
        let x = self.as_str().as_bytes();
        let y = other.as_str().as_bytes();
        let mut i: usize = 0;
        while i < x.len() && i < y.len()
            invariant
                i <= x@.len(),
                i <= y@.len(),
                x@ == vstd::utf8::encode_utf8(self@),
                y@ == vstd::utf8::encode_utf8(other@),
                x@.take(i as int) == y@.take(i as int),
                bytes_before(x@, y@, 0) == bytes_before(x@, y@, i as int),
                bytes_before(y@, x@, 0) == bytes_before(y@, x@, i as int),
            decreases x@.len() - i,
        {
            if x[i] < y[i] {
                return Side::Below;
            }
            if x[i] > y[i] {
                return Side::Above;
            }
            proof {
                assert(x@.take(i + 1) =~= x@.take(i as int).push(x@[i as int]));
                assert(y@.take(i + 1) =~= y@.take(i as int).push(y@[i as int]));
            }
            i += 1;
        }
        if x.len() < y.len() {
            Side::Below
        } else if x.len() > y.len() {
            Side::Above
        } else {
            proof {
                assert(x@.take(i as int) =~= x@);
                assert(y@.take(i as int) =~= y@);
                vstd::utf8::encode_utf8_decode_utf8(self@);
                vstd::utf8::encode_utf8_decode_utf8(other@);
            }
            Side::Same
        }
    }
}

} // verus!
