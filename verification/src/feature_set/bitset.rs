//! A fixed-size bit set over a storage type: an unsigned integer whose bits
//! are the set's positions, bit `i` of the integer being position `i`, or an
//! array of storages, whose elements hold the positions in turn.
use vstd::prelude::*;

verus! {

/// A storage for bits: bit `i` holds position `i`.
pub trait BitStorage: Sized + Copy {
    /// The number of bits the storage holds.
    spec fn width() -> nat;

    /// Whether bit `i` is set; no bit outside the width is.
    spec fn bit(self, i: int) -> bool;

    /// Only bits within the width are set.
    proof fn lemma_bit_within(self)
        ensures
            forall|i: int| #[trigger] self.bit(i) ==> 0 <= i < Self::width(),
    ;

    /// Whether any bit is set.
    fn any(self) -> (r: bool)
        ensures
            r == exists|i: int| 0 <= i < Self::width() && #[trigger] self.bit(i),
    ;

    /// The bits set in either.
    fn bitor(self, other: Self) -> (r: Self)
        ensures
            forall|i: int| #[trigger] r.bit(i) == (self.bit(i) || other.bit(i)),
    ;

    /// The bits set in both.
    fn bitand(self, other: Self) -> (r: Self)
        ensures
            forall|i: int| #[trigger] r.bit(i) == (self.bit(i) && other.bit(i)),
    ;

    /// The bits not set, within the width.
    fn not(self) -> (r: Self)
        ensures
            forall|i: int| #[trigger] r.bit(i) == (0 <= i < Self::width() && !self.bit(i)),
    ;

    /// No bit set.
    fn zeroed() -> (r: Self)
        ensures
            forall|i: int| !(#[trigger] r.bit(i)),
    ;

    /// The number of bits the storage holds, which must fit in a `usize`.
    fn bit_len() -> (n: usize)
        requires
            Self::width() <= usize::MAX,
        ensures
            n == Self::width(),
    ;

    /// Whether bit `i` is set.
    fn read_bit(self, i: usize) -> (r: bool)
        requires
            i < Self::width(),
            Self::width() <= usize::MAX,
        ensures
            r == self.bit(i as int),
    ;

    /// The storage with bit `i` set to `value` and the others unchanged.
    fn with_bit(self, i: usize, value: bool) -> (r: Self)
        requires
            i < Self::width(),
            Self::width() <= usize::MAX,
        ensures
            forall|j: int| #[trigger] r.bit(j) == if j == i {
                value
            } else {
                self.bit(j)
            },
    ;
}

/// A nonzero integer has a set bit.
proof fn lemma_set_bit_u128(a: u128, hi: u128) -> (i: u128)
    requires
        a != 0,
        hi <= 128,
        a >> hi == 0,
    ensures
        i < hi,
        (a >> i) & 1 == 1,
    decreases hi,
{
    assert(hi != 0) by (bit_vector)
        requires
            a != 0,
            hi <= 128,
            a >> hi == 0,
    ;
    if a & 1 == 1 {
        assert(a >> 0 == a) by (bit_vector);
        0
    } else {
        assert((a >> 1) != 0 && (a >> 1) >> (hi - 1) as u128 == 0) by (bit_vector)
            requires
                a & 1 != 1,
                a != 0,
                hi <= 128,
                hi != 0,
                a >> hi == 0,
        ;
        let j = lemma_set_bit_u128(a >> 1, (hi - 1) as u128);
        assert((a >> (j + 1) as u128) & 1 == 1) by (bit_vector)
            requires
                ((a >> 1) >> j) & 1 == 1,
                j < 127,
        ;
        (j + 1) as u128
    }
}

/// The bit facts of `u8`.
proof fn lemma_bits_u8()
    by (bit_vector)
    ensures
        forall|x: u8, y: u8, i: u8|
            #![trigger ((x | y) >> i) & 1]
            i < 8 ==> ((((x | y) >> i) & 1 == 1) == ((((x >> i) & 1) == 1) || (((y >> i) & 1) == 1))),
        forall|x: u8, y: u8, i: u8|
            #![trigger ((x & y) >> i) & 1]
            i < 8 ==> ((((x & y) >> i) & 1 == 1) == ((((x >> i) & 1) == 1) && (((y >> i) & 1) == 1))),
        forall|x: u8, i: u8| #![trigger ((!x) >> i) & 1] i < 8 ==> ((((!x) >> i) & 1 == 1) == !(((x >> i) & 1) == 1)),
        forall|i: u8| #![trigger (0u8 >> i) & 1] i < 8 ==> !((0u8 >> i) & 1 == 1),
        forall|x: u8, i: u8, j: u8|
            #![trigger ((x | (1u8 << i)) >> j) & 1]
            i < 8 && j < 8 ==> ((((x | (1u8 << i)) >> j) & 1 == 1) == (j == i || ((x >> j) & 1 == 1))),
        forall|x: u8, i: u8, j: u8|
            #![trigger ((x & !(1u8 << i)) >> j) & 1]
            i < 8 && j < 8 ==> ((((x & !(1u8 << i)) >> j) & 1 == 1) == (j != i && ((x >> j) & 1 == 1))),
        forall|x: u8, i: u8| #![trigger (x >> i) & 1] i < 8 && (x >> i) & 1 == 1 ==> x != 0,
        forall|x: u8| #![trigger x as u128] (x as u128) >> 8u128 == 0 && (x != 0 <==> x as u128 != 0),
        forall|x: u8, i: u128| #![trigger ((x as u128) >> i) & 1] i < 8u128 ==> (((x as u128) >> i) & 1 == ((x >> (i as u8)) & 1) as u128),
{
}

impl BitStorage for u8 {
    open spec fn width() -> nat {
        8 as nat
    }

    open spec fn bit(self, i: int) -> bool {
        0 <= i < 8 && (self >> (i as u8)) & 1 == 1
    }

    proof fn lemma_bit_within(self) {
    }

    fn any(self) -> (r: bool) {
        proof {
            lemma_bits_u8();
            if self != 0 {
                let i = lemma_set_bit_u128(self as u128, 8u128);
                assert(((self as u128) >> i) & 1 == ((self >> (i as u8)) & 1) as u128);
                assert(self.bit(i as int));
            }
            assert forall|i: int| 0 <= i < 8 && #[trigger] self.bit(i) implies self != 0 by {
                assert((self >> (i as u8)) & 1 == 1);
            }
        }
        self != 0
    }

    fn bitor(self, other: Self) -> (r: Self) {
        proof {
            lemma_bits_u8();
        }
        let r = self | other;
        proof {
            assert forall|i: int| #[trigger] r.bit(i) == (self.bit(i) || other.bit(i)) by {
                if 0 <= i < 8 {
                    assert(((r >> (i as u8)) & 1 == 1) == (((self >> (i as u8)) & 1 == 1) || ((other >> (i as u8)) & 1 == 1)));
                }
            }
        }
        r
    }

    fn bitand(self, other: Self) -> (r: Self) {
        proof {
            lemma_bits_u8();
        }
        let r = self & other;
        proof {
            assert forall|i: int| #[trigger] r.bit(i) == (self.bit(i) && other.bit(i)) by {
                if 0 <= i < 8 {
                    assert(((r >> (i as u8)) & 1 == 1) == (((self >> (i as u8)) & 1 == 1) && ((other >> (i as u8)) & 1 == 1)));
                }
            }
        }
        r
    }

    fn not(self) -> (r: Self) {
        proof {
            lemma_bits_u8();
        }
        let r = !self;
        proof {
            assert forall|i: int| #[trigger] r.bit(i) == (0 <= i < 8 && !self.bit(i)) by {
                if 0 <= i < 8 {
                    assert(((r >> (i as u8)) & 1 == 1) == !((self >> (i as u8)) & 1 == 1));
                }
            }
        }
        r
    }

    fn zeroed() -> (r: Self) {
        proof {
            lemma_bits_u8();
            assert forall|i: int| !(#[trigger] 0u8.bit(i)) by {
                if 0 <= i < 8 {
                    assert(!((0u8 >> (i as u8)) & 1 == 1));
                }
            }
        }
        0
    }

    fn bit_len() -> (n: usize) {
        8
    }

    fn read_bit(self, i: usize) -> (r: bool) {
        (self >> (i as u8)) & 1 == 1
    }

    fn with_bit(self, i: usize, value: bool) -> (r: Self) {
        proof {
            lemma_bits_u8();
        }
        let k = i as u8;
        let r = if value {
            self | (1 << k)
        } else {
            self & !(1 << k)
        };
        proof {
            assert forall|j: int| #[trigger] r.bit(j) == if j == i {
                value
            } else {
                self.bit(j)
            } by {
                if 0 <= j < 8 {
                    let jj = j as u8;
                    if value {
                        assert((((self | (1u8 << k)) >> jj) & 1 == 1) == (jj == k || ((self >> jj) & 1 == 1)));
                    } else {
                        assert((((self & !(1u8 << k)) >> jj) & 1 == 1) == (jj != k && ((self >> jj) & 1 == 1)));
                    }
                }
            }
        }
        r
    }
}

/// The bit facts of `u16`.
proof fn lemma_bits_u16()
    by (bit_vector)
    ensures
        forall|x: u16, y: u16, i: u16|
            #![trigger ((x | y) >> i) & 1]
            i < 16 ==> ((((x | y) >> i) & 1 == 1) == ((((x >> i) & 1) == 1) || (((y >> i) & 1) == 1))),
        forall|x: u16, y: u16, i: u16|
            #![trigger ((x & y) >> i) & 1]
            i < 16 ==> ((((x & y) >> i) & 1 == 1) == ((((x >> i) & 1) == 1) && (((y >> i) & 1) == 1))),
        forall|x: u16, i: u16| #![trigger ((!x) >> i) & 1] i < 16 ==> ((((!x) >> i) & 1 == 1) == !(((x >> i) & 1) == 1)),
        forall|i: u16| #![trigger (0u16 >> i) & 1] i < 16 ==> !((0u16 >> i) & 1 == 1),
        forall|x: u16, i: u16, j: u16|
            #![trigger ((x | (1u16 << i)) >> j) & 1]
            i < 16 && j < 16 ==> ((((x | (1u16 << i)) >> j) & 1 == 1) == (j == i || ((x >> j) & 1 == 1))),
        forall|x: u16, i: u16, j: u16|
            #![trigger ((x & !(1u16 << i)) >> j) & 1]
            i < 16 && j < 16 ==> ((((x & !(1u16 << i)) >> j) & 1 == 1) == (j != i && ((x >> j) & 1 == 1))),
        forall|x: u16, i: u16| #![trigger (x >> i) & 1] i < 16 && (x >> i) & 1 == 1 ==> x != 0,
        forall|x: u16| #![trigger x as u128] (x as u128) >> 16u128 == 0 && (x != 0 <==> x as u128 != 0),
        forall|x: u16, i: u128| #![trigger ((x as u128) >> i) & 1] i < 16u128 ==> (((x as u128) >> i) & 1 == ((x >> (i as u16)) & 1) as u128),
{
}

impl BitStorage for u16 {
    open spec fn width() -> nat {
        16 as nat
    }

    open spec fn bit(self, i: int) -> bool {
        0 <= i < 16 && (self >> (i as u16)) & 1 == 1
    }

    proof fn lemma_bit_within(self) {
    }

    fn any(self) -> (r: bool) {
        proof {
            lemma_bits_u16();
            if self != 0 {
                let i = lemma_set_bit_u128(self as u128, 16u128);
                assert(((self as u128) >> i) & 1 == ((self >> (i as u16)) & 1) as u128);
                assert(self.bit(i as int));
            }
            assert forall|i: int| 0 <= i < 16 && #[trigger] self.bit(i) implies self != 0 by {
                assert((self >> (i as u16)) & 1 == 1);
            }
        }
        self != 0
    }

    fn bitor(self, other: Self) -> (r: Self) {
        proof {
            lemma_bits_u16();
        }
        let r = self | other;
        proof {
            assert forall|i: int| #[trigger] r.bit(i) == (self.bit(i) || other.bit(i)) by {
                if 0 <= i < 16 {
                    assert(((r >> (i as u16)) & 1 == 1) == (((self >> (i as u16)) & 1 == 1) || ((other >> (i as u16)) & 1 == 1)));
                }
            }
        }
        r
    }

    fn bitand(self, other: Self) -> (r: Self) {
        proof {
            lemma_bits_u16();
        }
        let r = self & other;
        proof {
            assert forall|i: int| #[trigger] r.bit(i) == (self.bit(i) && other.bit(i)) by {
                if 0 <= i < 16 {
                    assert(((r >> (i as u16)) & 1 == 1) == (((self >> (i as u16)) & 1 == 1) && ((other >> (i as u16)) & 1 == 1)));
                }
            }
        }
        r
    }

    fn not(self) -> (r: Self) {
        proof {
            lemma_bits_u16();
        }
        let r = !self;
        proof {
            assert forall|i: int| #[trigger] r.bit(i) == (0 <= i < 16 && !self.bit(i)) by {
                if 0 <= i < 16 {
                    assert(((r >> (i as u16)) & 1 == 1) == !((self >> (i as u16)) & 1 == 1));
                }
            }
        }
        r
    }

    fn zeroed() -> (r: Self) {
        proof {
            lemma_bits_u16();
            assert forall|i: int| !(#[trigger] 0u16.bit(i)) by {
                if 0 <= i < 16 {
                    assert(!((0u16 >> (i as u16)) & 1 == 1));
                }
            }
        }
        0
    }

    fn bit_len() -> (n: usize) {
        16
    }

    fn read_bit(self, i: usize) -> (r: bool) {
        (self >> (i as u16)) & 1 == 1
    }

    fn with_bit(self, i: usize, value: bool) -> (r: Self) {
        proof {
            lemma_bits_u16();
        }
        let k = i as u16;
        let r = if value {
            self | (1 << k)
        } else {
            self & !(1 << k)
        };
        proof {
            assert forall|j: int| #[trigger] r.bit(j) == if j == i {
                value
            } else {
                self.bit(j)
            } by {
                if 0 <= j < 16 {
                    let jj = j as u16;
                    if value {
                        assert((((self | (1u16 << k)) >> jj) & 1 == 1) == (jj == k || ((self >> jj) & 1 == 1)));
                    } else {
                        assert((((self & !(1u16 << k)) >> jj) & 1 == 1) == (jj != k && ((self >> jj) & 1 == 1)));
                    }
                }
            }
        }
        r
    }
}

/// The bit facts of `u32`.
proof fn lemma_bits_u32()
    by (bit_vector)
    ensures
        forall|x: u32, y: u32, i: u32|
            #![trigger ((x | y) >> i) & 1]
            i < 32 ==> ((((x | y) >> i) & 1 == 1) == ((((x >> i) & 1) == 1) || (((y >> i) & 1) == 1))),
        forall|x: u32, y: u32, i: u32|
            #![trigger ((x & y) >> i) & 1]
            i < 32 ==> ((((x & y) >> i) & 1 == 1) == ((((x >> i) & 1) == 1) && (((y >> i) & 1) == 1))),
        forall|x: u32, i: u32| #![trigger ((!x) >> i) & 1] i < 32 ==> ((((!x) >> i) & 1 == 1) == !(((x >> i) & 1) == 1)),
        forall|i: u32| #![trigger (0u32 >> i) & 1] i < 32 ==> !((0u32 >> i) & 1 == 1),
        forall|x: u32, i: u32, j: u32|
            #![trigger ((x | (1u32 << i)) >> j) & 1]
            i < 32 && j < 32 ==> ((((x | (1u32 << i)) >> j) & 1 == 1) == (j == i || ((x >> j) & 1 == 1))),
        forall|x: u32, i: u32, j: u32|
            #![trigger ((x & !(1u32 << i)) >> j) & 1]
            i < 32 && j < 32 ==> ((((x & !(1u32 << i)) >> j) & 1 == 1) == (j != i && ((x >> j) & 1 == 1))),
        forall|x: u32, i: u32| #![trigger (x >> i) & 1] i < 32 && (x >> i) & 1 == 1 ==> x != 0,
        forall|x: u32| #![trigger x as u128] (x as u128) >> 32u128 == 0 && (x != 0 <==> x as u128 != 0),
        forall|x: u32, i: u128| #![trigger ((x as u128) >> i) & 1] i < 32u128 ==> (((x as u128) >> i) & 1 == ((x >> (i as u32)) & 1) as u128),
{
}

impl BitStorage for u32 {
    open spec fn width() -> nat {
        32 as nat
    }

    open spec fn bit(self, i: int) -> bool {
        0 <= i < 32 && (self >> (i as u32)) & 1 == 1
    }

    proof fn lemma_bit_within(self) {
    }

    fn any(self) -> (r: bool) {
        proof {
            lemma_bits_u32();
            if self != 0 {
                let i = lemma_set_bit_u128(self as u128, 32u128);
                assert(((self as u128) >> i) & 1 == ((self >> (i as u32)) & 1) as u128);
                assert(self.bit(i as int));
            }
            assert forall|i: int| 0 <= i < 32 && #[trigger] self.bit(i) implies self != 0 by {
                assert((self >> (i as u32)) & 1 == 1);
            }
        }
        self != 0
    }

    fn bitor(self, other: Self) -> (r: Self) {
        proof {
            lemma_bits_u32();
        }
        let r = self | other;
        proof {
            assert forall|i: int| #[trigger] r.bit(i) == (self.bit(i) || other.bit(i)) by {
                if 0 <= i < 32 {
                    assert(((r >> (i as u32)) & 1 == 1) == (((self >> (i as u32)) & 1 == 1) || ((other >> (i as u32)) & 1 == 1)));
                }
            }
        }
        r
    }

    fn bitand(self, other: Self) -> (r: Self) {
        proof {
            lemma_bits_u32();
        }
        let r = self & other;
        proof {
            assert forall|i: int| #[trigger] r.bit(i) == (self.bit(i) && other.bit(i)) by {
                if 0 <= i < 32 {
                    assert(((r >> (i as u32)) & 1 == 1) == (((self >> (i as u32)) & 1 == 1) && ((other >> (i as u32)) & 1 == 1)));
                }
            }
        }
        r
    }

    fn not(self) -> (r: Self) {
        proof {
            lemma_bits_u32();
        }
        let r = !self;
        proof {
            assert forall|i: int| #[trigger] r.bit(i) == (0 <= i < 32 && !self.bit(i)) by {
                if 0 <= i < 32 {
                    assert(((r >> (i as u32)) & 1 == 1) == !((self >> (i as u32)) & 1 == 1));
                }
            }
        }
        r
    }

    fn zeroed() -> (r: Self) {
        proof {
            lemma_bits_u32();
            assert forall|i: int| !(#[trigger] 0u32.bit(i)) by {
                if 0 <= i < 32 {
                    assert(!((0u32 >> (i as u32)) & 1 == 1));
                }
            }
        }
        0
    }

    fn bit_len() -> (n: usize) {
        32
    }

    fn read_bit(self, i: usize) -> (r: bool) {
        (self >> (i as u32)) & 1 == 1
    }

    fn with_bit(self, i: usize, value: bool) -> (r: Self) {
        proof {
            lemma_bits_u32();
        }
        let k = i as u32;
        let r = if value {
            self | (1 << k)
        } else {
            self & !(1 << k)
        };
        proof {
            assert forall|j: int| #[trigger] r.bit(j) == if j == i {
                value
            } else {
                self.bit(j)
            } by {
                if 0 <= j < 32 {
                    let jj = j as u32;
                    if value {
                        assert((((self | (1u32 << k)) >> jj) & 1 == 1) == (jj == k || ((self >> jj) & 1 == 1)));
                    } else {
                        assert((((self & !(1u32 << k)) >> jj) & 1 == 1) == (jj != k && ((self >> jj) & 1 == 1)));
                    }
                }
            }
        }
        r
    }
}

/// The bit facts of `u64`.
proof fn lemma_bits_u64()
    by (bit_vector)
    ensures
        forall|x: u64, y: u64, i: u64|
            #![trigger ((x | y) >> i) & 1]
            i < 64 ==> ((((x | y) >> i) & 1 == 1) == ((((x >> i) & 1) == 1) || (((y >> i) & 1) == 1))),
        forall|x: u64, y: u64, i: u64|
            #![trigger ((x & y) >> i) & 1]
            i < 64 ==> ((((x & y) >> i) & 1 == 1) == ((((x >> i) & 1) == 1) && (((y >> i) & 1) == 1))),
        forall|x: u64, i: u64| #![trigger ((!x) >> i) & 1] i < 64 ==> ((((!x) >> i) & 1 == 1) == !(((x >> i) & 1) == 1)),
        forall|i: u64| #![trigger (0u64 >> i) & 1] i < 64 ==> !((0u64 >> i) & 1 == 1),
        forall|x: u64, i: u64, j: u64|
            #![trigger ((x | (1u64 << i)) >> j) & 1]
            i < 64 && j < 64 ==> ((((x | (1u64 << i)) >> j) & 1 == 1) == (j == i || ((x >> j) & 1 == 1))),
        forall|x: u64, i: u64, j: u64|
            #![trigger ((x & !(1u64 << i)) >> j) & 1]
            i < 64 && j < 64 ==> ((((x & !(1u64 << i)) >> j) & 1 == 1) == (j != i && ((x >> j) & 1 == 1))),
        forall|x: u64, i: u64| #![trigger (x >> i) & 1] i < 64 && (x >> i) & 1 == 1 ==> x != 0,
        forall|x: u64| #![trigger x as u128] (x as u128) >> 64u128 == 0 && (x != 0 <==> x as u128 != 0),
        forall|x: u64, i: u128| #![trigger ((x as u128) >> i) & 1] i < 64u128 ==> (((x as u128) >> i) & 1 == ((x >> (i as u64)) & 1) as u128),
{
}

impl BitStorage for u64 {
    open spec fn width() -> nat {
        64 as nat
    }

    open spec fn bit(self, i: int) -> bool {
        0 <= i < 64 && (self >> (i as u64)) & 1 == 1
    }

    proof fn lemma_bit_within(self) {
    }

    fn any(self) -> (r: bool) {
        proof {
            lemma_bits_u64();
            if self != 0 {
                let i = lemma_set_bit_u128(self as u128, 64u128);
                assert(((self as u128) >> i) & 1 == ((self >> (i as u64)) & 1) as u128);
                assert(self.bit(i as int));
            }
            assert forall|i: int| 0 <= i < 64 && #[trigger] self.bit(i) implies self != 0 by {
                assert((self >> (i as u64)) & 1 == 1);
            }
        }
        self != 0
    }

    fn bitor(self, other: Self) -> (r: Self) {
        proof {
            lemma_bits_u64();
        }
        let r = self | other;
        proof {
            assert forall|i: int| #[trigger] r.bit(i) == (self.bit(i) || other.bit(i)) by {
                if 0 <= i < 64 {
                    assert(((r >> (i as u64)) & 1 == 1) == (((self >> (i as u64)) & 1 == 1) || ((other >> (i as u64)) & 1 == 1)));
                }
            }
        }
        r
    }

    fn bitand(self, other: Self) -> (r: Self) {
        proof {
            lemma_bits_u64();
        }
        let r = self & other;
        proof {
            assert forall|i: int| #[trigger] r.bit(i) == (self.bit(i) && other.bit(i)) by {
                if 0 <= i < 64 {
                    assert(((r >> (i as u64)) & 1 == 1) == (((self >> (i as u64)) & 1 == 1) && ((other >> (i as u64)) & 1 == 1)));
                }
            }
        }
        r
    }

    fn not(self) -> (r: Self) {
        proof {
            lemma_bits_u64();
        }
        let r = !self;
        proof {
            assert forall|i: int| #[trigger] r.bit(i) == (0 <= i < 64 && !self.bit(i)) by {
                if 0 <= i < 64 {
                    assert(((r >> (i as u64)) & 1 == 1) == !((self >> (i as u64)) & 1 == 1));
                }
            }
        }
        r
    }

    fn zeroed() -> (r: Self) {
        proof {
            lemma_bits_u64();
            assert forall|i: int| !(#[trigger] 0u64.bit(i)) by {
                if 0 <= i < 64 {
                    assert(!((0u64 >> (i as u64)) & 1 == 1));
                }
            }
        }
        0
    }

    fn bit_len() -> (n: usize) {
        64
    }

    fn read_bit(self, i: usize) -> (r: bool) {
        (self >> (i as u64)) & 1 == 1
    }

    fn with_bit(self, i: usize, value: bool) -> (r: Self) {
        proof {
            lemma_bits_u64();
        }
        let k = i as u64;
        let r = if value {
            self | (1 << k)
        } else {
            self & !(1 << k)
        };
        proof {
            assert forall|j: int| #[trigger] r.bit(j) == if j == i {
                value
            } else {
                self.bit(j)
            } by {
                if 0 <= j < 64 {
                    let jj = j as u64;
                    if value {
                        assert((((self | (1u64 << k)) >> jj) & 1 == 1) == (jj == k || ((self >> jj) & 1 == 1)));
                    } else {
                        assert((((self & !(1u64 << k)) >> jj) & 1 == 1) == (jj != k && ((self >> jj) & 1 == 1)));
                    }
                }
            }
        }
        r
    }
}

/// The bit facts of `u128`.
proof fn lemma_bits_u128()
    by (bit_vector)
    ensures
        forall|x: u128, y: u128, i: u128|
            #![trigger ((x | y) >> i) & 1]
            i < 128 ==> ((((x | y) >> i) & 1 == 1) == ((((x >> i) & 1) == 1) || (((y >> i) & 1) == 1))),
        forall|x: u128, y: u128, i: u128|
            #![trigger ((x & y) >> i) & 1]
            i < 128 ==> ((((x & y) >> i) & 1 == 1) == ((((x >> i) & 1) == 1) && (((y >> i) & 1) == 1))),
        forall|x: u128, i: u128| #![trigger ((!x) >> i) & 1] i < 128 ==> ((((!x) >> i) & 1 == 1) == !(((x >> i) & 1) == 1)),
        forall|i: u128| #![trigger (0u128 >> i) & 1] i < 128 ==> !((0u128 >> i) & 1 == 1),
        forall|x: u128, i: u128, j: u128|
            #![trigger ((x | (1u128 << i)) >> j) & 1]
            i < 128 && j < 128 ==> ((((x | (1u128 << i)) >> j) & 1 == 1) == (j == i || ((x >> j) & 1 == 1))),
        forall|x: u128, i: u128, j: u128|
            #![trigger ((x & !(1u128 << i)) >> j) & 1]
            i < 128 && j < 128 ==> ((((x & !(1u128 << i)) >> j) & 1 == 1) == (j != i && ((x >> j) & 1 == 1))),
        forall|x: u128, i: u128| #![trigger (x >> i) & 1] i < 128 && (x >> i) & 1 == 1 ==> x != 0,
        forall|x: u128| #![trigger x as u128] (x as u128) >> 128u128 == 0 && (x != 0 <==> x as u128 != 0),
        forall|x: u128, i: u128| #![trigger ((x as u128) >> i) & 1] i < 128u128 ==> (((x as u128) >> i) & 1 == ((x >> (i as u128)) & 1) as u128),
{
}

impl BitStorage for u128 {
    open spec fn width() -> nat {
        128 as nat
    }

    open spec fn bit(self, i: int) -> bool {
        0 <= i < 128 && (self >> (i as u128)) & 1 == 1
    }

    proof fn lemma_bit_within(self) {
    }

    fn any(self) -> (r: bool) {
        proof {
            lemma_bits_u128();
            if self != 0 {
                let i = lemma_set_bit_u128(self as u128, 128u128);
                assert(((self as u128) >> i) & 1 == ((self >> (i as u128)) & 1) as u128);
                assert(self.bit(i as int));
            }
            assert forall|i: int| 0 <= i < 128 && #[trigger] self.bit(i) implies self != 0 by {
                assert((self >> (i as u128)) & 1 == 1);
            }
        }
        self != 0
    }

    fn bitor(self, other: Self) -> (r: Self) {
        proof {
            lemma_bits_u128();
        }
        let r = self | other;
        proof {
            assert forall|i: int| #[trigger] r.bit(i) == (self.bit(i) || other.bit(i)) by {
                if 0 <= i < 128 {
                    assert(((r >> (i as u128)) & 1 == 1) == (((self >> (i as u128)) & 1 == 1) || ((other >> (i as u128)) & 1 == 1)));
                }
            }
        }
        r
    }

    fn bitand(self, other: Self) -> (r: Self) {
        proof {
            lemma_bits_u128();
        }
        let r = self & other;
        proof {
            assert forall|i: int| #[trigger] r.bit(i) == (self.bit(i) && other.bit(i)) by {
                if 0 <= i < 128 {
                    assert(((r >> (i as u128)) & 1 == 1) == (((self >> (i as u128)) & 1 == 1) && ((other >> (i as u128)) & 1 == 1)));
                }
            }
        }
        r
    }

    fn not(self) -> (r: Self) {
        proof {
            lemma_bits_u128();
        }
        let r = !self;
        proof {
            assert forall|i: int| #[trigger] r.bit(i) == (0 <= i < 128 && !self.bit(i)) by {
                if 0 <= i < 128 {
                    assert(((r >> (i as u128)) & 1 == 1) == !((self >> (i as u128)) & 1 == 1));
                }
            }
        }
        r
    }

    fn zeroed() -> (r: Self) {
        proof {
            lemma_bits_u128();
            assert forall|i: int| !(#[trigger] 0u128.bit(i)) by {
                if 0 <= i < 128 {
                    assert(!((0u128 >> (i as u128)) & 1 == 1));
                }
            }
        }
        0
    }

    fn bit_len() -> (n: usize) {
        128
    }

    fn read_bit(self, i: usize) -> (r: bool) {
        (self >> (i as u128)) & 1 == 1
    }

    fn with_bit(self, i: usize, value: bool) -> (r: Self) {
        proof {
            lemma_bits_u128();
        }
        let k = i as u128;
        let r = if value {
            self | (1 << k)
        } else {
            self & !(1 << k)
        };
        proof {
            assert forall|j: int| #[trigger] r.bit(j) == if j == i {
                value
            } else {
                self.bit(j)
            } by {
                if 0 <= j < 128 {
                    let jj = j as u128;
                    if value {
                        assert((((self | (1u128 << k)) >> jj) & 1 == 1) == (jj == k || ((self >> jj) & 1 == 1)));
                    } else {
                        assert((((self & !(1u128 << k)) >> jj) & 1 == 1) == (jj != k && ((self >> jj) & 1 == 1)));
                    }
                }
            }
        }
        r
    }
}

/// The bit facts of `usize`.
proof fn lemma_bits_usize()
    by (bit_vector)
    ensures
        forall|x: usize, y: usize, i: usize|
            #![trigger ((x | y) >> i) & 1]
            i < (usize::BITS as usize) ==> ((((x | y) >> i) & 1 == 1) == ((((x >> i) & 1) == 1) || (((y >> i) & 1) == 1))),
        forall|x: usize, y: usize, i: usize|
            #![trigger ((x & y) >> i) & 1]
            i < (usize::BITS as usize) ==> ((((x & y) >> i) & 1 == 1) == ((((x >> i) & 1) == 1) && (((y >> i) & 1) == 1))),
        forall|x: usize, i: usize| #![trigger ((!x) >> i) & 1] i < (usize::BITS as usize) ==> ((((!x) >> i) & 1 == 1) == !(((x >> i) & 1) == 1)),
        forall|i: usize| #![trigger (0usize >> i) & 1] i < (usize::BITS as usize) ==> !((0usize >> i) & 1 == 1),
        forall|x: usize, i: usize, j: usize|
            #![trigger ((x | (1usize << i)) >> j) & 1]
            i < (usize::BITS as usize) && j < (usize::BITS as usize) ==> ((((x | (1usize << i)) >> j) & 1 == 1) == (j == i || ((x >> j) & 1 == 1))),
        forall|x: usize, i: usize, j: usize|
            #![trigger ((x & !(1usize << i)) >> j) & 1]
            i < (usize::BITS as usize) && j < (usize::BITS as usize) ==> ((((x & !(1usize << i)) >> j) & 1 == 1) == (j != i && ((x >> j) & 1 == 1))),
        forall|x: usize, i: usize| #![trigger (x >> i) & 1] i < (usize::BITS as usize) && (x >> i) & 1 == 1 ==> x != 0,
        forall|x: usize| #![trigger x as u128] (x as u128) >> (usize::BITS as u128) == 0 && (x != 0 <==> x as u128 != 0),
        forall|x: usize, i: u128| #![trigger ((x as u128) >> i) & 1] i < (usize::BITS as u128) ==> (((x as u128) >> i) & 1 == ((x >> (i as usize)) & 1) as u128),
{
}

impl BitStorage for usize {
    open spec fn width() -> nat {
        (usize::BITS as int) as nat
    }

    open spec fn bit(self, i: int) -> bool {
        0 <= i < (usize::BITS as int) && (self >> (i as usize)) & 1 == 1
    }

    proof fn lemma_bit_within(self) {
    }

    fn any(self) -> (r: bool) {
        proof {
            lemma_bits_usize();
            if self != 0 {
                let i = lemma_set_bit_u128(self as u128, (usize::BITS as u128));
                assert(((self as u128) >> i) & 1 == ((self >> (i as usize)) & 1) as u128);
                assert(self.bit(i as int));
            }
            assert forall|i: int| 0 <= i < (usize::BITS as int) && #[trigger] self.bit(i) implies self != 0 by {
                assert((self >> (i as usize)) & 1 == 1);
            }
        }
        self != 0
    }

    fn bitor(self, other: Self) -> (r: Self) {
        proof {
            lemma_bits_usize();
        }
        let r = self | other;
        proof {
            assert forall|i: int| #[trigger] r.bit(i) == (self.bit(i) || other.bit(i)) by {
                if 0 <= i < (usize::BITS as int) {
                    assert(((r >> (i as usize)) & 1 == 1) == (((self >> (i as usize)) & 1 == 1) || ((other >> (i as usize)) & 1 == 1)));
                }
            }
        }
        r
    }

    fn bitand(self, other: Self) -> (r: Self) {
        proof {
            lemma_bits_usize();
        }
        let r = self & other;
        proof {
            assert forall|i: int| #[trigger] r.bit(i) == (self.bit(i) && other.bit(i)) by {
                if 0 <= i < (usize::BITS as int) {
                    assert(((r >> (i as usize)) & 1 == 1) == (((self >> (i as usize)) & 1 == 1) && ((other >> (i as usize)) & 1 == 1)));
                }
            }
        }
        r
    }

    fn not(self) -> (r: Self) {
        proof {
            lemma_bits_usize();
        }
        let r = !self;
        proof {
            assert forall|i: int| #[trigger] r.bit(i) == (0 <= i < (usize::BITS as int) && !self.bit(i)) by {
                if 0 <= i < (usize::BITS as int) {
                    assert(((r >> (i as usize)) & 1 == 1) == !((self >> (i as usize)) & 1 == 1));
                }
            }
        }
        r
    }

    fn zeroed() -> (r: Self) {
        proof {
            lemma_bits_usize();
            assert forall|i: int| !(#[trigger] 0usize.bit(i)) by {
                if 0 <= i < (usize::BITS as int) {
                    assert(!((0usize >> (i as usize)) & 1 == 1));
                }
            }
        }
        0
    }

    fn bit_len() -> (n: usize) {
        (usize::BITS as usize)
    }

    fn read_bit(self, i: usize) -> (r: bool) {
        (self >> (i as usize)) & 1 == 1
    }

    fn with_bit(self, i: usize, value: bool) -> (r: Self) {
        proof {
            lemma_bits_usize();
        }
        let k = i as usize;
        let r = if value {
            self | (1 << k)
        } else {
            self & !(1 << k)
        };
        proof {
            assert forall|j: int| #[trigger] r.bit(j) == if j == i {
                value
            } else {
                self.bit(j)
            } by {
                if 0 <= j < (usize::BITS as int) {
                    let jj = j as usize;
                    if value {
                        assert((((self | (1usize << k)) >> jj) & 1 == 1) == (jj == k || ((self >> jj) & 1 == 1)));
                    } else {
                        assert((((self & !(1usize << k)) >> jj) & 1 == 1) == (jj != k && ((self >> jj) & 1 == 1)));
                    }
                }
            }
        }
        r
    }
}

/// Position `i` of `n` blocks of `w` bits is bit `i % w` of block `i / w`.
proof fn lemma_block_split(i: int, w: int, n: int)
    requires
        0 < w,
        0 <= i < n * w,
    ensures
        0 <= i / w < n,
        0 <= i % w < w,
        i == (i / w) * w + i % w,
{
    vstd::arithmetic::div_mod::lemma_fundamental_div_mod(i, w);
    assert(0 <= i / w) by (nonlinear_arith)
        requires
            0 < w,
            0 <= i,
    ;
    assert(i / w < n) by (nonlinear_arith)
        requires
            0 < w,
            0 <= i < n * w,
            i == w * (i / w) + i % w,
            0 <= i % w,
    ;
}

/// Bit `j` of block `k`, of `n` blocks of `w` bits, is position `k * w + j`.
proof fn lemma_block_join(k: int, j: int, w: int, n: int)
    requires
        0 <= k < n,
        0 <= j < w,
    ensures
        0 <= k * w + j < n * w,
        (k * w + j) / w == k,
        (k * w + j) % w == j,
{
    vstd::arithmetic::div_mod::lemma_fundamental_div_mod_converse(k * w + j, w, k, j);
    assert(0 <= k * w + j < n * w) by (nonlinear_arith)
        requires
            0 <= k < n,
            0 <= j < w,
    ;
}

/// An array of storages holds the bits of each element in turn: bit `j` of
/// element `k` is position `k * w + j`, where `w` is the width of an element.
impl<B: BitStorage, const N: usize> BitStorage for [B; N] {
    open spec fn width() -> nat {
        (N * B::width()) as nat
    }

    open spec fn bit(self, i: int) -> bool {
        0 <= i < N * B::width() && self[i / (B::width() as int)].bit(i % (B::width() as int))
    }

    proof fn lemma_bit_within(self) {
    }

    fn any(self) -> (r: bool) {
        let mut k: usize = 0;
        while k < N
            invariant
                0 <= k <= N,
                forall|q: int, j: int| 0 <= q < k ==> !(#[trigger] self[q].bit(j)),
            decreases N - k,
        {
            if self[k].any() {
                proof {
                    let j = choose|j: int| 0 <= j < B::width() && #[trigger] self[k as int].bit(j);
                    let w = B::width() as int;
                    lemma_block_join(k as int, j, w, N as int);
                    assert(self.bit(k * w + j));
                }
                return true;
            }
            proof {
                assert forall|j: int| !(#[trigger] self[k as int].bit(j)) by {
                    self[k as int].lemma_bit_within();
                }
            }
            k = k + 1;
        }
        proof {
            assert forall|i: int| !(0 <= i < Self::width() && #[trigger] self.bit(i)) by {
                if 0 <= i < Self::width() {
                    lemma_block_split(i, B::width() as int, N as int);
                }
            }
        }
        false
    }

    fn bitor(self, other: Self) -> (r: Self) {
        let mut r = self;
        let mut k: usize = 0;
        while k < N
            invariant
                0 <= k <= N,
                forall|q: int, j: int|
                    0 <= q < k ==> #[trigger] r[q].bit(j) == (self[q].bit(j) || other[q].bit(j)),
                forall|q: int| k <= q < N ==> r[q] == self[q],
            decreases N - k,
        {
            let v = self[k].bitor(other[k]);
            r[k] = v;
            k = k + 1;
        }
        proof {
            assert forall|i: int| #[trigger] r.bit(i) == (self.bit(i) || other.bit(i)) by {
                if 0 <= i < N * B::width() {
                    lemma_block_split(i, B::width() as int, N as int);
                }
            }
        }
        r
    }

    fn bitand(self, other: Self) -> (r: Self) {
        let mut r = self;
        let mut k: usize = 0;
        while k < N
            invariant
                0 <= k <= N,
                forall|q: int, j: int|
                    0 <= q < k ==> #[trigger] r[q].bit(j) == (self[q].bit(j) && other[q].bit(j)),
                forall|q: int| k <= q < N ==> r[q] == self[q],
            decreases N - k,
        {
            let v = self[k].bitand(other[k]);
            r[k] = v;
            k = k + 1;
        }
        proof {
            assert forall|i: int| #[trigger] r.bit(i) == (self.bit(i) && other.bit(i)) by {
                if 0 <= i < N * B::width() {
                    lemma_block_split(i, B::width() as int, N as int);
                }
            }
        }
        r
    }

    fn not(self) -> (r: Self) {
        let mut r = self;
        let mut k: usize = 0;
        while k < N
            invariant
                0 <= k <= N,
                forall|q: int, j: int|
                    0 <= q < k ==> #[trigger] r[q].bit(j) == (0 <= j < B::width() && !self[q].bit(
                        j,
                    )),
                forall|q: int| k <= q < N ==> r[q] == self[q],
            decreases N - k,
        {
            let v = self[k].not();
            r[k] = v;
            k = k + 1;
        }
        proof {
            assert forall|i: int| #[trigger] r.bit(i) == (0 <= i < Self::width() && !self.bit(i)) by {
                if 0 <= i < N * B::width() {
                    lemma_block_split(i, B::width() as int, N as int);
                }
            }
        }
        r
    }

    fn zeroed() -> (r: Self) {
        let z = B::zeroed();
        let r = [z; N];
        proof {
            assert forall|i: int| !(#[trigger] r.bit(i)) by {
                if 0 <= i < N * B::width() {
                    lemma_block_split(i, B::width() as int, N as int);
                    assert(r[i / (B::width() as int)] == z);
                }
            }
        }
        r
    }

    fn bit_len() -> (n: usize) {
        if N == 0 {
            0
        } else {
            assert(B::width() <= N * B::width()) by (nonlinear_arith)
                requires
                    N >= 1,
            ;
            let w = B::bit_len();
            N * w
        }
    }

    fn read_bit(self, i: usize) -> (r: bool) {
        proof {
            lemma_block_split(i as int, B::width() as int, N as int);
            assert(B::width() <= N * B::width()) by (nonlinear_arith)
                requires
                    N >= 1,
            ;
        }
        let w = B::bit_len();
        self[i / w].read_bit(i % w)
    }

    fn with_bit(self, i: usize, value: bool) -> (r: Self) {
        proof {
            lemma_block_split(i as int, B::width() as int, N as int);
            assert(B::width() <= N * B::width()) by (nonlinear_arith)
                requires
                    N >= 1,
            ;
        }
        let w = B::bit_len();
        let k = i / w;
        let v = self[k].with_bit(i % w, value);
        let mut r = self;
        r[k] = v;
        proof {
            let wi = w as int;
            assert forall|j: int| #[trigger] r.bit(j) == if j == i {
                value
            } else {
                self.bit(j)
            } by {
                if 0 <= j < N * B::width() {
                    lemma_block_split(j, wi, N as int);
                    if j / wi == k as int {
                        if j != i as int {
                            assert(j % wi != (i as int) % wi);
                        }
                    }
                }
            }
        }
        r
    }
}

/// A set of positions, held in the bits of a storage `S`.
#[derive(Clone, Copy, PartialEq, Eq, PartialOrd, Ord, Hash)]
pub struct BitSet<S: BitStorage = usize> {
    bits: S,
}

/// The positions a storage `S` holds.
pub open spec fn storage_range<S: BitStorage>() -> Set<int> {
    Set::new(|i: int| 0 <= i < S::width())
}

impl<S: BitStorage> BitSet<S> {
    /// The positions that are set.
    pub closed spec fn positions(&self) -> Set<int> {
        Set::new(|i: int| self.bits.bit(i))
    }
}

impl<S: BitStorage> View for BitSet<S> {
    type V = Set<int>;

    open spec fn view(&self) -> Set<int> {
        self.positions()
    }
}

impl<S: BitStorage> BitSet<S> {
    /// Only positions of the storage are set.
    pub proof fn lemma_within(&self)
        ensures
            self@.subset_of(storage_range::<S>()),
    {
        self.bits.lemma_bit_within();
    }

    /// The empty set.
    pub fn new() -> (r: Self)
        ensures
            r@ == Set::<int>::empty(),
    {
        let r = BitSet { bits: S::zeroed() };
        proof {
            assert(r@ =~= Set::<int>::empty());
        }
        r
    }
}

impl<S: BitStorage> BitSet<S> {
    /// Sets `bit` to `value`. The bit must be one of the storage.
    pub fn set(&mut self, bit: usize, value: bool)
        requires
            bit < S::width(),
            S::width() <= usize::MAX,
        ensures
            final(self)@ == if value {
                old(self)@.insert(bit as int)
            } else {
                old(self)@.remove(bit as int)
            },
    {
        self.bits = self.bits.with_bit(bit, value);
        proof {
            if value {
                assert(self@ =~= old(self)@.insert(bit as int));
            } else {
                assert(self@ =~= old(self)@.remove(bit as int));
            }
        }
    }

    /// Sets `bit`.
    pub fn insert(&mut self, bit: usize)
        requires
            bit < S::width(),
            S::width() <= usize::MAX,
        ensures
            final(self)@ == old(self)@.insert(bit as int),
    {
        self.set(bit, true);
    }

    /// The positions of either set.
    pub fn bitor(self, rhs: Self) -> (r: Self)
        ensures
            r@ == self@.union(rhs@),
    {
        let r = BitSet { bits: self.bits.bitor(rhs.bits) };
        proof {
            assert(r@ =~= self@.union(rhs@));
        }
        r
    }

    /// Adds the positions of `rhs`.
    pub fn bitor_assign(&mut self, rhs: Self)
        ensures
            final(self)@ == old(self)@.union(rhs@),
    {
        self.bits = self.bits.bitor(rhs.bits);
        proof {
            assert(self@ =~= old(self)@.union(rhs@));
        }
    }

    /// The positions of both sets.
    pub fn bitand(self, rhs: Self) -> (r: Self)
        ensures
            r@ == self@.intersect(rhs@),
    {
        let r = BitSet { bits: self.bits.bitand(rhs.bits) };
        proof {
            assert(r@ =~= self@.intersect(rhs@));
        }
        r
    }

    /// Keeps the positions that `rhs` has too.
    pub fn bitand_assign(&mut self, rhs: Self)
        ensures
            final(self)@ == old(self)@.intersect(rhs@),
    {
        self.bits = self.bits.bitand(rhs.bits);
        proof {
            assert(self@ =~= old(self)@.intersect(rhs@));
        }
    }

    /// The positions of the storage that are not set.
    pub fn not(self) -> (r: Self)
        ensures
            r@ == storage_range::<S>().difference(self@),
    {
        let r = BitSet { bits: self.bits.not() };
        proof {
            assert(r@ =~= storage_range::<S>().difference(self@));
        }
        r
    }

    /// The positions of `self` that `rhs` does not have.
    pub fn sub(self, rhs: Self) -> (r: Self)
        ensures
            r@ == self@.difference(rhs@),
    {
        let r = BitSet { bits: self.bits.bitand(rhs.bits.not()) };
        proof {
            self.lemma_within();
            assert(r@ =~= self@.difference(rhs@));
        }
        r
    }

    /// Removes the positions of `rhs`.
    pub fn sub_assign(&mut self, rhs: Self)
        ensures
            final(self)@ == old(self)@.difference(rhs@),
    {
        self.bits = self.bits.bitand(rhs.bits.not());
        proof {
            old(self).lemma_within();
            assert(self@ =~= old(self)@.difference(rhs@));
        }
    }

    /// The positions of either set.
    pub fn union(self, other: Self) -> (r: Self)
        ensures
            r@ == self@.union(other@),
    {
        self.bitor(other)
    }

    /// Adds the positions of `other`.
    pub fn union_with(&mut self, other: Self)
        ensures
            final(self)@ == old(self)@.union(other@),
    {
        self.bitor_assign(other);
    }

    /// The positions of `self` that `other` does not have.
    pub fn difference(self, other: Self) -> (r: Self)
        ensures
            r@ == self@.difference(other@),
    {
        let r = self.bitand(other.not());
        proof {
            self.lemma_within();
            assert(r@ =~= self@.difference(other@));
        }
        r
    }

    /// Removes the positions of `other`.
    pub fn difference_with(&mut self, other: Self)
        ensures
            final(self)@ == old(self)@.difference(other@),
    {
        self.bitand_assign(other.not());
        proof {
            old(self).lemma_within();
            assert(final(self)@ =~= old(self)@.difference(other@));
        }
    }

    /// Whether any position is set.
    pub fn any(self) -> (r: bool)
        ensures
            r == !self@.is_empty(),
    {
        let r = self.bits.any();
        proof {
            if r {
                let i = choose|i: int| 0 <= i < S::width() && #[trigger] self.bits.bit(i);
                assert(self@.contains(i));
            } else {
                self.bits.lemma_bit_within();
                assert(self@ =~= Set::<int>::empty());
            }
        }
        r
    }

    /// Whether every position of `self` is one of `other`.
    pub fn is_subset(self, other: Self) -> (r: bool)
        ensures
            r == self@.subset_of(other@),
    {
        let d = self.difference(other);
        let r = !d.any();
        proof {
            if !r {
                let i = d@.choose();
                assert(d@.contains(i));
            } else {
                assert(d@ =~= Set::<int>::empty());
                assert forall|i: int| self@.contains(i) implies other@.contains(i) by {
                    assert(!d@.contains(i));
                }
            }
        }
        r
    }

    /// Whether every position of `other` is one of `self`.
    pub fn is_superset(self, other: Self) -> (r: bool)
        ensures
            r == other@.subset_of(self@),
    {
        other.is_subset(self)
    }

    /// The set of the positions `bits`, each of which must be one of the storage.
    pub fn from_iter(bits: Vec<usize>) -> (r: Self)
        requires
            forall|i: int| 0 <= i < bits@.len() ==> (#[trigger] bits@[i]) < S::width(),
            S::width() <= usize::MAX,
        ensures
            r@ == Set::new(|i: int| exists|j: int| 0 <= j < bits@.len() && bits@[j] == i),
    {
        let mut set = Self::new();
        let mut k: usize = 0;
        while k < bits.len()
            invariant
                0 <= k <= bits@.len(),
                forall|i: int| 0 <= i < bits@.len() ==> (#[trigger] bits@[i]) < S::width(),
                S::width() <= usize::MAX,
                set@ == Set::new(|i: int| exists|j: int| 0 <= j < k && bits@[j] == i),
            decreases bits@.len() - k,
        {
            set.insert(bits[k]);
            proof {
                assert(set@ =~= Set::new(|i: int| exists|j: int| 0 <= j < k + 1 && bits@[j] == i));
            }
            k = k + 1;
        }
        set
    }
}

impl<S: BitStorage> Default for BitSet<S> {
    fn default() -> (r: Self)
        ensures
            r@ == Set::<int>::empty(),
    {
        Self::new()
    }
}

/// The set positions of `bits` from `lo` up to `hi`, in increasing order.
pub open spec fn ones_in<S: BitStorage>(bits: S, lo: int, hi: int) -> Seq<int>
    decreases hi - lo,
{
    if lo >= hi {
        Seq::empty()
    } else {
        let rest = ones_in(bits, lo + 1, hi);
        if bits.bit(lo) {
            seq![lo] + rest
        } else {
            rest
        }
    }
}

/// The positions `ones_in` hands out are increasing, set, and within `lo..hi`,
/// and every set position of that range is among them.
pub proof fn lemma_ones_in<S: BitStorage>(bits: S, lo: int, hi: int)
    ensures
        forall|a: int, b: int|
            0 <= a < b < ones_in(bits, lo, hi).len() ==> ones_in(bits, lo, hi)[a] < ones_in(
                bits,
                lo,
                hi,
            )[b],
        forall|a: int|
            0 <= a < ones_in(bits, lo, hi).len() ==> lo <= #[trigger] ones_in(bits, lo, hi)[a]
                < hi && bits.bit(ones_in(bits, lo, hi)[a]),
        forall|x: int| lo <= x < hi && #[trigger] bits.bit(x) ==> ones_in(bits, lo, hi).contains(x),
    decreases hi - lo,
{
    if lo < hi {
        lemma_ones_in(bits, lo + 1, hi);
        let rest = ones_in(bits, lo + 1, hi);
        if bits.bit(lo) {
            let s = seq![lo] + rest;
            assert(ones_in(bits, lo, hi) == s);
            assert forall|a: int, b: int| 0 <= a < b < s.len() implies s[a] < s[b] by {
                assert(s[b] == rest[b - 1]);
                if a > 0 {
                    assert(s[a] == rest[a - 1]);
                }
            }
            assert forall|a: int| 0 <= a < s.len() implies lo <= #[trigger] s[a] < hi && bits.bit(
                s[a],
            ) by {
                if a > 0 {
                    assert(s[a] == rest[a - 1]);
                }
            }
            assert forall|x: int| lo <= x < hi && #[trigger] bits.bit(x) implies s.contains(x) by {
                if x == lo {
                    assert(s[0] == lo);
                } else {
                    let k = choose|k: int| 0 <= k < rest.len() && rest[k] == x;
                    assert(s[k + 1] == x);
                }
            }
        }
    }
}

/// The set positions up to `hi` are those up to `hi - 1`, then `hi - 1` if it is
/// set.
proof fn lemma_ones_in_back<S: BitStorage>(bits: S, lo: int, hi: int)
    requires
        lo < hi,
    ensures
        ones_in(bits, lo, hi) == ones_in(bits, lo, hi - 1) + if bits.bit(hi - 1) {
            seq![hi - 1]
        } else {
            Seq::<int>::empty()
        },
    decreases hi - lo,
{
    if lo + 1 < hi {
        lemma_ones_in_back(bits, lo + 1, hi);
        let tail = if bits.bit(hi - 1) {
            seq![hi - 1]
        } else {
            Seq::<int>::empty()
        };
        if bits.bit(lo) {
            assert(seq![lo] + (ones_in(bits, lo + 1, hi - 1) + tail) =~= (seq![lo] + ones_in(
                bits,
                lo + 1,
                hi - 1,
            )) + tail);
        }
    } else {
        assert(ones_in(bits, hi, hi) =~= Seq::<int>::empty());
        assert(ones_in(bits, lo, hi - 1) =~= Seq::<int>::empty());
        if bits.bit(lo) {
            assert(seq![lo] + Seq::<int>::empty() =~= Seq::<int>::empty() + seq![lo]);
        } else {
            assert(Seq::<int>::empty() =~= Seq::<int>::empty() + Seq::<int>::empty());
        }
    }
}

/// The positions of a bit set, from either end.
pub struct Bits<S: BitStorage> {
    bits: S,
    remaining: std::ops::Range<usize>,
}

impl<S: BitStorage> Bits<S> {
    /// The range left to scan lies within the storage.
    #[verifier::type_invariant]
    spec fn inv(&self) -> bool {
        &&& self.remaining.start <= self.remaining.end <= S::width()
        &&& S::width() <= usize::MAX
    }

    /// The positions still to come, in increasing order.
    pub closed spec fn remaining(&self) -> Seq<int> {
        ones_in(self.bits, self.remaining.start as int, self.remaining.end as int)
    }

    /// The lowest position still to come, or `None` once all were handed out.
    pub fn next(&mut self) -> (r: Option<usize>)
        ensures
            old(self).remaining().len() > 0 ==> r == Some(old(self).remaining()[0] as usize)
                && final(self).remaining() == old(self).remaining().drop_first(),
            old(self).remaining().len() == 0 ==> r is None && final(self).remaining().len() == 0,
    {
        proof {
            use_type_invariant(&*self);
        }
        let ghost start = old(self).remaining();
        while self.remaining.start < self.remaining.end
            invariant
                self.bits == old(self).bits,
                self.remaining.start <= self.remaining.end <= S::width(),
                S::width() <= usize::MAX,
                start == old(self).remaining(),
                start == self.remaining(),
            decreases self.remaining.end - self.remaining.start,
        {
            let index = self.remaining.start;
            self.remaining.start = index + 1;
            if self.bits.read_bit(index) {
                return Some(index);
            }
        }
        None
    }

    /// The highest position still to come, or `None` once all were handed out.
    pub fn next_back(&mut self) -> (r: Option<usize>)
        ensures
            old(self).remaining().len() > 0 ==> r == Some(old(self).remaining().last() as usize)
                && final(self).remaining() == old(self).remaining().drop_last(),
            old(self).remaining().len() == 0 ==> r is None && final(self).remaining().len() == 0,
    {
        proof {
            use_type_invariant(&*self);
        }
        let ghost start = old(self).remaining();
        while self.remaining.start < self.remaining.end
            invariant
                self.bits == old(self).bits,
                self.remaining.start <= self.remaining.end <= S::width(),
                S::width() <= usize::MAX,
                start == old(self).remaining(),
                start == self.remaining(),
            decreases self.remaining.end - self.remaining.start,
        {
            let index = self.remaining.end - 1;
            proof {
                lemma_ones_in_back(self.bits, self.remaining.start as int, self.remaining.end as int);
            }
            self.remaining.end = index;
            if self.bits.read_bit(index) {
                proof {
                    assert(start.drop_last() =~= self.remaining());
                }
                return Some(index);
            }
            proof {
                assert(start =~= self.remaining());
            }
        }
        None
    }
}

impl<S: BitStorage> BitSet<S> {
    /// The positions of the set, from either end: each position of the set
    /// once, in increasing order.
    pub fn iter(self) -> (r: Bits<S>)
        requires
            S::width() <= usize::MAX,
        ensures
            r.remaining() == ones_in(self.bits_of(), 0, S::width() as int),
            forall|a: int, b: int|
                0 <= a < b < r.remaining().len() ==> r.remaining()[a] < r.remaining()[b],
            forall|x: int| #[trigger] r.remaining().contains(x) <==> self@.contains(x),
    {
        proof {
            self.lemma_iterated();
        }
        Bits { bits: self.bits, remaining: 0..S::bit_len() }
    }

    /// Law: the positions the set's iterator hands out, collected in that order,
    /// are positions of the storage, and the set built from them is the set.
    pub proof fn lemma_collect_round_trip(&self, collected: Seq<usize>)
        requires
            collected.len() == ones_in(self.bits_of(), 0, S::width() as int).len(),
            forall|k: int|
                0 <= k < collected.len() ==> collected[k] as int == ones_in(
                    self.bits_of(),
                    0,
                    S::width() as int,
                )[k],
        ensures
            forall|k: int| 0 <= k < collected.len() ==> (#[trigger] collected[k]) < S::width(),
            Set::new(|i: int| exists|j: int| 0 <= j < collected.len() && collected[j] == i)
                == self@,
    {
        let s = ones_in(self.bits, 0, S::width() as int);
        lemma_ones_in(self.bits, 0, S::width() as int);
        self.lemma_iterated();
        assert forall|k: int| 0 <= k < collected.len() implies (#[trigger] collected[k])
            < S::width() by {
            assert(s[k] < S::width());
        }
        let c = Set::new(|i: int| exists|j: int| 0 <= j < collected.len() && collected[j] == i);
        assert forall|i: int| c.contains(i) <==> self@.contains(i) by {
            if c.contains(i) {
                let j = choose|j: int| 0 <= j < collected.len() && collected[j] == i;
                assert(s.contains(s[j]));
            }
            if self@.contains(i) {
                assert(s.contains(i));
                let k = choose|k: int| 0 <= k < s.len() && s[k] == i;
                assert(collected[k] == i);
            }
        }
        assert(c =~= self@);
    }

    /// A position is in the set exactly when its bit of the storage is set.
    pub proof fn lemma_view_bits(&self)
        ensures
            forall|i: int| #[trigger] self@.contains(i) <==> self.bits_of().bit(i),
    {
    }

    /// The set positions of the whole storage, in increasing order, are each
    /// position of the set once.
    pub proof fn lemma_iterated(&self)
        ensures
            forall|a: int, b: int|
                0 <= a < b < ones_in(self.bits_of(), 0, S::width() as int).len() ==> ones_in(
                    self.bits_of(),
                    0,
                    S::width() as int,
                )[a] < ones_in(self.bits_of(), 0, S::width() as int)[b],
            forall|x: int| #[trigger]
                ones_in(self.bits_of(), 0, S::width() as int).contains(x) <==> self@.contains(x),
    {
        let s = ones_in(self.bits, 0, S::width() as int);
        lemma_ones_in(self.bits, 0, S::width() as int);
        self.bits.lemma_bit_within();
        assert forall|x: int| #[trigger] s.contains(x) <==> self@.contains(x) by {
            if s.contains(x) {
                let k = choose|k: int| 0 <= k < s.len() && s[k] == x;
                assert(self.bits.bit(s[k]));
            }
        }
    }

    /// The storage of the set.
    pub closed spec fn bits_of(&self) -> S {
        self.bits
    }

}

/// The digit of a bit.
pub open spec fn digit(b: bool) -> char {
    if b {
        '1'
    } else {
        '0'
    }
}

/// The digits of byte `k` of `bits`: from its lowest bit up, with a `_` before
/// each half.
pub open spec fn byte_digits<S: BitStorage>(bits: S, k: int) -> Seq<char> {
    Seq::new(
        10,
        |j: int|
            if j == 0 || j == 5 {
                '_'
            } else if j < 5 {
                digit(bits.bit(8 * k + j - 1))
            } else {
                digit(bits.bit(8 * k + j - 2))
            },
    )
}

/// The digits of the bytes below `n`, the highest byte first.
pub open spec fn bytes_digits<S: BitStorage>(bits: S, n: int) -> Seq<char>
    decreases n,
{
    if n <= 0 {
        Seq::empty()
    } else {
        byte_digits(bits, n - 1) + bytes_digits(bits, n - 1)
    }
}

/// The binary form of a storage: `0b`, then its bytes from the highest down.
pub open spec fn binary_digits<S: BitStorage>(bits: S) -> Seq<char> {
    seq!['0', 'b'] + bytes_digits(bits, S::width() as int / 8)
}

impl<S: BitStorage> BitSet<S> {
    /// The set in binary: `0b`, then each byte of the storage from the highest,
    /// each written from its lowest bit up, with a `_` before each half byte.
    pub fn binary(&self) -> (r: String)
        requires
            S::width() <= usize::MAX,
        ensures
            r@ == binary_digits(self.bits_of()),
    {
        let mut out = String::new();
        out.append("0b");
        proof {
            reveal_strlit("0b");
            reveal_strlit("_");
            reveal_strlit("0");
            reveal_strlit("1");
        }
        let width = S::bit_len();
        let n = width / 8;
        let mut k = n;
        while k > 0
            invariant
                width == S::width(),
                n == S::width() / 8,
                k <= n,
                out@ + bytes_digits(self.bits, k as int) == binary_digits(self.bits),
            decreases k,
        {
            k = k - 1;
            let ghost before = out@;
            let ghost bd = byte_digits(self.bits, k as int);
            assert(8 * k + 8 <= width) by (nonlinear_arith)
                requires
                    k < n,
                    n == width / 8,
            ;
            let mut bit: usize = 0;
            while bit < 8
                invariant
                    k < n,
                    8 * k + 8 <= width,
                    width == S::width(),
                    bd == byte_digits(self.bits, k as int),
                    bit <= 8,
                    out@ == before + bd.take(
                        bit as int + if bit >= 5 {
                            2int
                        } else if bit >= 1 {
                            1int
                        } else {
                            0int
                        },
                    ),
                decreases 8 - bit,
            {
                let ghost m = bit as int + if bit >= 5 {
                    2int
                } else if bit >= 1 {
                    1int
                } else {
                    0int
                };
                if bit == 0 || bit == 4 {
                    out.append("_");
                    proof {
                        reveal_strlit("_");
                        assert(bd.take(m + 1) =~= bd.take(m).push('_'));
                        assert(out@ =~= before + bd.take(m + 1));
                    }
                }
                let ghost m2 = if bit == 0 || bit == 4 {
                    m + 1
                } else {
                    m
                };
                let set = self.bits.read_bit(8 * k + bit);
                if set {
                    out.append("1");
                } else {
                    out.append("0");
                }
                proof {
                    reveal_strlit("0");
                    reveal_strlit("1");
                    assert(bd[m2] == digit(self.bits.bit(8 * k + bit)));
                    assert(bd.take(m2 + 1) =~= bd.take(m2).push(bd[m2]));
                    assert(out@ =~= before + bd.take(m2 + 1));
                }
                bit = bit + 1;
            }
            proof {
                assert(bd.take(10) =~= bd);
                assert(bytes_digits(self.bits, k as int + 1) == bd + bytes_digits(
                    self.bits,
                    k as int,
                ));
                assert(out@ + bytes_digits(self.bits, k as int) =~= before + bytes_digits(
                    self.bits,
                    k as int + 1,
                ));
            }
        }
        proof {
            assert(out@ + Seq::<char>::empty() =~= out@);
        }
        out
    }
}

} // verus!
