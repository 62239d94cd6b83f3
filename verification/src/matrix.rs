//! Matrices of binary32 numbers, kept as bit patterns.

use vstd::prelude::*;
use vstd::std_specs::cmp::PartialEqSpecImpl;

verus! {

/// Bit pattern of the binary32 number one.
pub const ONE: u32 = 0x3f80_0000;

/// Whether a binary32 bit pattern encodes a NaN: all exponent bits set and
/// a mantissa that is not zero.
pub open spec fn is_nan(bits: u32) -> bool {
    bits % 0x8000_0000 > 0x7f80_0000
}

/// Whether a binary32 bit pattern encodes zero, of either sign.
pub open spec fn is_zero(bits: u32) -> bool {
    bits % 0x8000_0000 == 0
}

/// Numeric equality of two binary32 bit patterns: a NaN equals nothing, the
/// two zeros equal each other, and any other number equals only itself.
pub open spec fn same_number(a: u32, b: u32) -> bool {
    !is_nan(a) && !is_nan(b) && (a == b || (is_zero(a) && is_zero(b)))
}

/// Decides numeric equality of two binary32 bit patterns.
pub fn number_eq(a: u32, b: u32) -> (r: bool)
    ensures
        r == same_number(a, b),
{
    let ma: u32 = a % 0x8000_0000;
    let mb: u32 = b % 0x8000_0000;
    ma <= 0x7f80_0000 && mb <= 0x7f80_0000 && (a == b || (ma == 0 && mb == 0))
}

/// Where the number of a binary32 bit pattern that is no NaN stands among
/// all such numbers: the greater the number, the greater its rank, and the
/// two zeros share one rank.
pub open spec fn rank(bits: u32) -> int {
    if bits >= 0x8000_0000 {
        -((bits % 0x8000_0000) as int)
    } else {
        bits as int
    }
}

/// Whether the number of one binary32 bit pattern is greater than that of
/// another: a NaN is neither greater nor less than anything.
pub open spec fn greater_number(a: u32, b: u32) -> bool {
    !is_nan(a) && !is_nan(b) && rank(a) > rank(b)
}

/// Decides whether the number of `a` is greater than that of `b`.
pub fn number_gt(a: u32, b: u32) -> (r: bool)
    ensures
        r == greater_number(a, b),
{
    let ma: u32 = a % 0x8000_0000;
    let mb: u32 = b % 0x8000_0000;
    if ma > 0x7f80_0000 || mb > 0x7f80_0000 {
        return false;
    }
    let ra: i64 = if a >= 0x8000_0000 {
        -(ma as i64)
    } else {
        a as i64
    };
    let rb: i64 = if b >= 0x8000_0000 {
        -(mb as i64)
    } else {
        b as i64
    };
    ra > rb
}

/// A 4x4 matrix of binary32 numbers, kept as bit patterns; `m[r][c]` is the
/// entry at row `r` and column `c`.
#[derive(Clone, Copy, Debug)]
pub struct Matrix4 {
    pub m: [[u32; 4]; 4],
}

impl Matrix4 {
    /// The entry at row `r` and column `c`.
    pub open spec fn at(self, r: int, c: int) -> u32 {
        self.m[r][c]
    }

    /// Entrywise numeric equality.
    pub open spec fn same(self, other: Matrix4) -> bool {
        forall|r: int, c: int|
            0 <= r < 4 && 0 <= c < 4 ==> same_number(#[trigger] self.at(r, c), other.at(r, c))
    }

    /// The identity matrix.
    pub open spec fn unit() -> Matrix4 {
        Matrix4 { m: [[ONE, 0, 0, 0], [0, ONE, 0, 0], [0, 0, ONE, 0], [0, 0, 0, ONE]] }
    }

    /// The identity matrix.
    pub fn identity() -> (id: Matrix4)
        ensures
            id == Matrix4::unit(),
    {
        Matrix4 { m: [[ONE, 0, 0, 0], [0, ONE, 0, 0], [0, 0, ONE, 0], [0, 0, 0, ONE]] }
    }
}

impl PartialEq for Matrix4 {
    fn eq(&self, other: &Self) -> (r: bool) {
        let mut i: usize = 0;
        while i < 4
            invariant
                0 <= i <= 4,
                forall|r: int, c: int|
                    0 <= r < i && 0 <= c < 4 ==> same_number(#[trigger] self.at(r, c), other.at(r, c)),
            decreases 4 - i,
        {
            let mut j: usize = 0;
            while j < 4
                invariant
                    0 <= i < 4,
                    0 <= j <= 4,
                    forall|r: int, c: int|
                        0 <= r < i && 0 <= c < 4 ==> same_number(
                            #[trigger] self.at(r, c),
                            other.at(r, c),
                        ),
                    forall|c: int| 0 <= c < j ==> same_number(#[trigger] self.at(i as int, c), other.at(i as int, c)),
                decreases 4 - j,
            {
                if !number_eq(self.m[i][j], other.m[i][j]) {
                    assert(!same_number(self.at(i as int, j as int), other.at(i as int, j as int)));
                    return false;
                }
                j += 1;
            }
            i += 1;
        }
        true
    }
}

impl PartialEqSpecImpl for Matrix4 {
    open spec fn obeys_eq_spec() -> bool {
        true
    }

    open spec fn eq_spec(&self, other: &Self) -> bool {
        self.same(*other)
    }
}

/// Builds a matrix from its rows.
pub fn to_matrix4(m: &[[u32; 4]; 4]) -> (r: Matrix4)
    ensures
        r.m == *m,
{
    Matrix4 { m: *m }
}

} // verus!
