use vstd::prelude::*;
use vstd::std_specs::bits::{
    u32_leading_zeros, u32_trailing_zeros, u64_leading_zeros, u64_trailing_zeros,
};

use crate::error::Error;
use crate::wasm::{
    in_bounds, le_value, payload_of, store_bytes, stored, ControlInfo, Function, Memory, MemoryView,
    PrimitiveType, Stack, Trap, Value,
};

verus! {

#[derive(Clone, Copy, Debug, PartialEq, Eq, Structural)]
pub enum Signedness {
    Signed,
    Unsigned,
}

#[derive(Clone, Copy, Debug, PartialEq, Eq, Structural)]
pub enum IBinOpType {
    Add,
    Sub,
    Mul,
    Div(Signedness),
    Rem(Signedness),
    And,
    Or,
    Xor,
    Shl,
    Shr(Signedness),
    Rotl,
    Rotr,
}

#[derive(Clone, Copy, Debug, PartialEq, Eq, Structural)]
pub enum IUnOpType {
    Clz,
    Ctz,
    Popcnt,
}

#[derive(Clone, Copy, Debug, PartialEq, Eq, Structural)]
pub enum FBinOpType {
    Add,
    Sub,
    Mul,
    Div,
    Min,
    Max,
    CopySign,
}

#[derive(Clone, Copy, Debug, PartialEq, Eq, Structural)]
pub enum FUnOpType {
    Abs,
    Neg,
    Sqrt,
    Ceil,
    Floor,
    Trunc,
    Nearest,
}

#[derive(Clone, Copy, Debug, PartialEq, Eq, Structural)]
pub enum RelOpType {
    Eq,
    Neq,
    Lt(Signedness),
    Gt(Signedness),
    Le(Signedness),
    Ge(Signedness),
}

/// Conversions; the types name the source, then the result.
#[derive(Clone, Copy, Debug, PartialEq, Eq, Structural)]
pub enum CvtOpType {
    Wrap,
    Extend(Signedness),
    Trunc(Signedness, PrimitiveType, PrimitiveType),
    TruncSat(Signedness, PrimitiveType, PrimitiveType),
    Convert(Signedness, PrimitiveType, PrimitiveType),
    Demote,
    Promote,
    /// Names the source type; the result is the other type of its width.
    Reinterpret(PrimitiveType),
}

// ---------------------------------------------------------------------------
// Integer semantics, over the bit patterns of the operands
// ---------------------------------------------------------------------------

/// Integer division rounded toward zero.
pub open spec fn div_trunc(x: int, y: int) -> int {
    let q = (vstd::math::abs(x) / vstd::math::abs(y)) as int;
    if (x >= 0) == (y > 0) || x == 0 {
        q
    } else {
        -q
    }
}

/// The remainder that goes with `div_trunc`: it has the sign of `x`.
pub open spec fn rem_trunc(x: int, y: int) -> int {
    x - y * div_trunc(x, y)
}

pub open spec fn rotl32(a: u32, k: u32) -> u32 {
    if k % 32 == 0 {
        a
    } else {
        (a << (k % 32)) | (a >> (32 - k % 32) as u32)
    }
}

pub open spec fn rotr32(a: u32, k: u32) -> u32 {
    if k % 32 == 0 {
        a
    } else {
        (a >> (k % 32)) | (a << (32 - k % 32) as u32)
    }
}

pub open spec fn rotl64(a: u64, k: u64) -> u64 {
    if k % 64 == 0 {
        a
    } else {
        (a << (k % 64)) | (a >> (64 - k % 64) as u64)
    }
}

pub open spec fn rotr64(a: u64, k: u64) -> u64 {
    if k % 64 == 0 {
        a
    } else {
        (a >> (k % 64)) | (a << (64 - k % 64) as u64)
    }
}

/// The number of one bits among the low `n` bits of `x`.
pub open spec fn popcount(x: nat, n: nat) -> nat
    decreases n,
{
    if n == 0 {
        0
    } else {
        (x % 2 + popcount(x / 2, (n - 1) as nat)) as nat
    }
}

/// A 32-bit binary operation; `None` where it traps on an undefined
/// division.
pub open spec fn ibinop32(op: IBinOpType, a: u32, b: u32) -> Option<u32> {
    let sa = a as i32;
    let sb = b as i32;
    match op {
        IBinOpType::Add => Some(((a + b) % 0x1_0000_0000int) as u32),
        IBinOpType::Sub => Some(((a - b) % 0x1_0000_0000int) as u32),
        IBinOpType::Mul => Some(((a * b) % 0x1_0000_0000int) as u32),
        IBinOpType::Div(Signedness::Signed) => if b == 0 || (sa == i32::MIN && sb == -1) {
            None
        } else {
            Some(div_trunc(sa as int, sb as int) as i32 as u32)
        },
        IBinOpType::Div(Signedness::Unsigned) => if b == 0 {
            None
        } else {
            Some(a / b)
        },
        IBinOpType::Rem(Signedness::Signed) => if b == 0 {
            None
        } else {
            Some(rem_trunc(sa as int, sb as int) as i32 as u32)
        },
        IBinOpType::Rem(Signedness::Unsigned) => if b == 0 {
            None
        } else {
            Some(a % b)
        },
        IBinOpType::And => Some(a & b),
        IBinOpType::Or => Some(a | b),
        IBinOpType::Xor => Some(a ^ b),
        IBinOpType::Shl => Some(a << (b % 32)),
        IBinOpType::Shr(Signedness::Signed) => Some((sa >> (b % 32)) as u32),
        IBinOpType::Shr(Signedness::Unsigned) => Some(a >> (b % 32)),
        IBinOpType::Rotl => Some(rotl32(a, b)),
        IBinOpType::Rotr => Some(rotr32(a, b)),
    }
}

/// A 64-bit binary operation; `None` where it traps on an undefined
/// division.
pub open spec fn ibinop64(op: IBinOpType, a: u64, b: u64) -> Option<u64> {
    let sa = a as i64;
    let sb = b as i64;
    match op {
        IBinOpType::Add => Some(((a + b) % 0x1_0000_0000_0000_0000int) as u64),
        IBinOpType::Sub => Some(((a - b) % 0x1_0000_0000_0000_0000int) as u64),
        IBinOpType::Mul => Some(((a * b) % 0x1_0000_0000_0000_0000int) as u64),
        IBinOpType::Div(Signedness::Signed) => if b == 0 || (sa == i64::MIN && sb == -1) {
            None
        } else {
            Some(div_trunc(sa as int, sb as int) as i64 as u64)
        },
        IBinOpType::Div(Signedness::Unsigned) => if b == 0 {
            None
        } else {
            Some(a / b)
        },
        IBinOpType::Rem(Signedness::Signed) => if b == 0 {
            None
        } else {
            Some(rem_trunc(sa as int, sb as int) as i64 as u64)
        },
        IBinOpType::Rem(Signedness::Unsigned) => if b == 0 {
            None
        } else {
            Some(a % b)
        },
        IBinOpType::And => Some(a & b),
        IBinOpType::Or => Some(a | b),
        IBinOpType::Xor => Some(a ^ b),
        IBinOpType::Shl => Some(a << (b % 64)),
        IBinOpType::Shr(Signedness::Signed) => Some((sa >> (b % 64)) as u64),
        IBinOpType::Shr(Signedness::Unsigned) => Some(a >> (b % 64)),
        IBinOpType::Rotl => Some(rotl64(a, b)),
        IBinOpType::Rotr => Some(rotr64(a, b)),
    }
}

pub open spec fn iunop32(op: IUnOpType, a: u32) -> u32 {
    match op {
        IUnOpType::Clz => u32_leading_zeros(a),
        IUnOpType::Ctz => u32_trailing_zeros(a),
        IUnOpType::Popcnt => popcount(a as nat, 32) as u32,
    }
}

pub open spec fn iunop64(op: IUnOpType, a: u64) -> u64 {
    match op {
        IUnOpType::Clz => u64_leading_zeros(a) as u64,
        IUnOpType::Ctz => u64_trailing_zeros(a) as u64,
        IUnOpType::Popcnt => popcount(a as nat, 64) as u64,
    }
}

/// An integer comparison of two 32-bit patterns.
pub open spec fn irelop32(op: RelOpType, a: u32, b: u32) -> bool {
    let sa = a as i32;
    let sb = b as i32;
    match op {
        RelOpType::Eq => a == b,
        RelOpType::Neq => a != b,
        RelOpType::Lt(Signedness::Signed) => sa < sb,
        RelOpType::Lt(Signedness::Unsigned) => a < b,
        RelOpType::Gt(Signedness::Signed) => sa > sb,
        RelOpType::Gt(Signedness::Unsigned) => a > b,
        RelOpType::Le(Signedness::Signed) => sa <= sb,
        RelOpType::Le(Signedness::Unsigned) => a <= b,
        RelOpType::Ge(Signedness::Signed) => sa >= sb,
        RelOpType::Ge(Signedness::Unsigned) => a >= b,
    }
}

/// An integer comparison of two 64-bit patterns.
pub open spec fn irelop64(op: RelOpType, a: u64, b: u64) -> bool {
    let sa = a as i64;
    let sb = b as i64;
    match op {
        RelOpType::Eq => a == b,
        RelOpType::Neq => a != b,
        RelOpType::Lt(Signedness::Signed) => sa < sb,
        RelOpType::Lt(Signedness::Unsigned) => a < b,
        RelOpType::Gt(Signedness::Signed) => sa > sb,
        RelOpType::Gt(Signedness::Unsigned) => a > b,
        RelOpType::Le(Signedness::Signed) => sa <= sb,
        RelOpType::Le(Signedness::Unsigned) => a <= b,
        RelOpType::Ge(Signedness::Signed) => sa >= sb,
        RelOpType::Ge(Signedness::Unsigned) => a >= b,
    }
}

fn rotl32_exec(a: u32, k: u32) -> (r: u32)
    ensures
        r == rotl32(a, k),
{
    let s = k % 32;
    if s == 0 {
        a
    } else {
        (a << s) | (a >> (32 - s))
    }
}

fn rotr32_exec(a: u32, k: u32) -> (r: u32)
    ensures
        r == rotr32(a, k),
{
    let s = k % 32;
    if s == 0 {
        a
    } else {
        (a >> s) | (a << (32 - s))
    }
}

fn rotl64_exec(a: u64, k: u64) -> (r: u64)
    ensures
        r == rotl64(a, k),
{
    let s = k % 64;
    if s == 0 {
        a
    } else {
        (a << s) | (a >> (64 - s))
    }
}

fn rotr64_exec(a: u64, k: u64) -> (r: u64)
    ensures
        r == rotr64(a, k),
{
    let s = k % 64;
    if s == 0 {
        a
    } else {
        (a >> s) | (a << (64 - s))
    }
}

/// The number of one bits among the low `n` bits of `x`.
fn count_ones(x: u64, n: u32) -> (r: u32)
    requires
        n <= 64,
    ensures
        r == popcount(x as nat, n as nat),
        r <= n,
{
    let mut count: u32 = 0;
    let mut rest = x;
    let mut k: u32 = 0;
    while k < n
        invariant
            k <= n <= 64,
            count <= k,
            count + popcount(rest as nat, (n - k) as nat) == popcount(x as nat, n as nat),
        decreases n - k,
    {
        count = count + (rest % 2) as u32;
        rest = rest / 2;
        k = k + 1;
    }
    count
}

proof fn lemma_div_trunc_matches(x: int, y: int)
    requires
        y != 0,
    ensures
        div_trunc(x, y) == (if x == 0 {
            0
        } else if x > 0 && y > 0 {
            x / y
        } else if x < 0 && y < 0 {
            (x * -1) / (y * -1)
        } else if x < 0 {
            ((x * -1) / y) * -1
        } else {
            (x / (y * -1)) * -1
        }),
{
    if x == 0 {
        assert(0int / (vstd::math::abs(y) as int) == 0) by (nonlinear_arith)
            requires
                y != 0,
        ;
    }
}

proof fn lemma_div_trunc_range(x: int, y: int, hi: int)
    requires
        y != 0,
        hi > 0,
        -hi - 1 <= x <= hi,
        !(x == -hi - 1 && y == -1),
    ensures
        -hi - 1 <= div_trunc(x, y) <= hi,
{
    let ax = vstd::math::abs(x) as int;
    let ay = vstd::math::abs(y) as int;
    assert(ax / ay <= ax) by (nonlinear_arith)
        requires
            ax >= 0,
            ay >= 1,
    ;
    assert(0 <= ax / ay) by (nonlinear_arith)
        requires
            ax >= 0,
            ay >= 1,
    ;
    if ay >= 2 {
        assert(ax / ay <= ax / 2) by (nonlinear_arith)
            requires
                ax >= 0,
                ay >= 2,
        ;
    } else {
        assert(ax / 1 == ax);
    }
}

proof fn lemma_rem_trunc_matches(x: int, y: int)
    requires
        y != 0,
    ensures
        rem_trunc(x, y) == (if x == 0 {
            0
        } else if x > 0 && y > 0 {
            x % y
        } else if x < 0 && y < 0 {
            ((x * -1) % (y * -1)) * -1
        } else if x < 0 {
            ((x * -1) % y) * -1
        } else {
            x % (y * -1)
        }),
{
    lemma_div_trunc_matches(x, y);
    let ax = vstd::math::abs(x) as int;
    let ay = vstd::math::abs(y) as int;
    vstd::arithmetic::div_mod::lemma_fundamental_div_mod(ax, ay);
    if x == 0 {
    } else if x > 0 && y > 0 {
    } else if x < 0 && y < 0 {
        assert(y * (ax / ay) == -(ay * (ax / ay))) by (nonlinear_arith)
            requires
                ay == -y,
        ;
    } else if x < 0 {
        assert(y * (-(ax / ay)) == -(ay * (ax / ay))) by (nonlinear_arith)
            requires
                ay == y,
        ;
    } else {
        assert(y * (-(ax / ay)) == ay * (ax / ay)) by (nonlinear_arith)
            requires
                ay == -y,
        ;
    }
}

/// Applies a 32-bit binary operation; `None` where it traps.
pub fn exec_ibinop32(op: IBinOpType, a: u32, b: u32) -> (r: Option<u32>)
    ensures
        r == ibinop32(op, a, b),
{
    let sa = a as i32;
    let sb = b as i32;
    match op {
        IBinOpType::Add => Some(a.wrapping_add(b)),
        IBinOpType::Sub => Some(a.wrapping_sub(b)),
        IBinOpType::Mul => Some(a.wrapping_mul(b)),
        IBinOpType::Div(Signedness::Signed) => {
            proof {
                assert(b == 0 <==> sb == 0) by (bit_vector)
                    requires
                        sb == b as i32,
                ;
                if b != 0 {
                    lemma_div_trunc_matches(sa as int, sb as int);
                    if !(sa == i32::MIN && sb == -1) {
                        lemma_div_trunc_range(sa as int, sb as int, 0x7fff_ffff);
                    } else {
                        assert((sa as int * -1) / (sb as int * -1) == (0x8000_0000int) / 1int);
                    }
                }
            }
            // checked_div fails on a zero divisor and on MIN / -1
            match sa.checked_div(sb) {
                Some(q) => Some(q as u32),
                None => None,
            }
        },
        IBinOpType::Div(Signedness::Unsigned) => a.checked_div(b),
        IBinOpType::Rem(Signedness::Signed) => {
            proof {
                assert(b == 0 <==> sb == 0) by (bit_vector)
                    requires
                        sb == b as i32,
                ;
            }
            if b == 0 {
                None
            } else if sa == i32::MIN && sb == -1 {
                proof {
                    lemma_div_trunc_matches(sa as int, sb as int);
                }
                assert(rem_trunc(sa as int, sb as int) == 0);
                Some(0)
            } else {
                proof {
                    lemma_rem_trunc_matches(sa as int, sb as int);
                }
                match sa.checked_rem(sb) {
                    Some(q) => Some(q as u32),
                    None => None,
                }
            }
        },
        IBinOpType::Rem(Signedness::Unsigned) => a.checked_rem(b),
        IBinOpType::And => Some(a & b),
        IBinOpType::Or => Some(a | b),
        IBinOpType::Xor => Some(a ^ b),
        IBinOpType::Shl => Some(a << (b % 32)),
        IBinOpType::Shr(Signedness::Signed) => Some((sa >> (b % 32)) as u32),
        IBinOpType::Shr(Signedness::Unsigned) => Some(a >> (b % 32)),
        IBinOpType::Rotl => Some(rotl32_exec(a, b)),
        IBinOpType::Rotr => Some(rotr32_exec(a, b)),
    }
}

/// Applies a 64-bit binary operation; `None` where it traps.
pub fn exec_ibinop64(op: IBinOpType, a: u64, b: u64) -> (r: Option<u64>)
    ensures
        r == ibinop64(op, a, b),
{
    let sa = a as i64;
    let sb = b as i64;
    match op {
        IBinOpType::Add => Some(a.wrapping_add(b)),
        IBinOpType::Sub => Some(a.wrapping_sub(b)),
        IBinOpType::Mul => Some(a.wrapping_mul(b)),
        IBinOpType::Div(Signedness::Signed) => {
            proof {
                assert(b == 0 <==> sb == 0) by (bit_vector)
                    requires
                        sb == b as i64,
                ;
                if b != 0 {
                    lemma_div_trunc_matches(sa as int, sb as int);
                    if !(sa == i64::MIN && sb == -1) {
                        lemma_div_trunc_range(sa as int, sb as int, 0x7fff_ffff_ffff_ffff);
                    } else {
                        assert((sa as int * -1) / (sb as int * -1) == (0x8000_0000_0000_0000int) / 1int);
                    }
                }
            }
            // checked_div fails on a zero divisor and on MIN / -1
            match sa.checked_div(sb) {
                Some(q) => Some(q as u64),
                None => None,
            }
        },
        IBinOpType::Div(Signedness::Unsigned) => a.checked_div(b),
        IBinOpType::Rem(Signedness::Signed) => {
            proof {
                assert(b == 0 <==> sb == 0) by (bit_vector)
                    requires
                        sb == b as i64,
                ;
            }
            if b == 0 {
                None
            } else if sa == i64::MIN && sb == -1 {
                proof {
                    lemma_div_trunc_matches(sa as int, sb as int);
                }
                assert(rem_trunc(sa as int, sb as int) == 0);
                Some(0)
            } else {
                proof {
                    lemma_rem_trunc_matches(sa as int, sb as int);
                }
                match sa.checked_rem(sb) {
                    Some(q) => Some(q as u64),
                    None => None,
                }
            }
        },
        IBinOpType::Rem(Signedness::Unsigned) => a.checked_rem(b),
        IBinOpType::And => Some(a & b),
        IBinOpType::Or => Some(a | b),
        IBinOpType::Xor => Some(a ^ b),
        IBinOpType::Shl => Some(a << (b % 64)),
        IBinOpType::Shr(Signedness::Signed) => Some((sa >> (b % 64)) as u64),
        IBinOpType::Shr(Signedness::Unsigned) => Some(a >> (b % 64)),
        IBinOpType::Rotl => Some(rotl64_exec(a, b)),
        IBinOpType::Rotr => Some(rotr64_exec(a, b)),
    }
}

pub fn exec_iunop32(op: IUnOpType, a: u32) -> (r: u32)
    ensures
        r == iunop32(op, a),
{
    match op {
        IUnOpType::Clz => a.leading_zeros(),
        IUnOpType::Ctz => a.trailing_zeros(),
        IUnOpType::Popcnt => count_ones(a as u64, 32),
    }
}

pub fn exec_iunop64(op: IUnOpType, a: u64) -> (r: u64)
    ensures
        r == iunop64(op, a),
{
    match op {
        IUnOpType::Clz => a.leading_zeros() as u64,
        IUnOpType::Ctz => a.trailing_zeros() as u64,
        IUnOpType::Popcnt => count_ones(a, 64) as u64,
    }
}

pub fn exec_irelop32(op: RelOpType, a: u32, b: u32) -> (r: bool)
    ensures
        r == irelop32(op, a, b),
{
    let sa = a as i32;
    let sb = b as i32;
    match op {
        RelOpType::Eq => a == b,
        RelOpType::Neq => a != b,
        RelOpType::Lt(Signedness::Signed) => sa < sb,
        RelOpType::Lt(Signedness::Unsigned) => a < b,
        RelOpType::Gt(Signedness::Signed) => sa > sb,
        RelOpType::Gt(Signedness::Unsigned) => a > b,
        RelOpType::Le(Signedness::Signed) => sa <= sb,
        RelOpType::Le(Signedness::Unsigned) => a <= b,
        RelOpType::Ge(Signedness::Signed) => sa >= sb,
        RelOpType::Ge(Signedness::Unsigned) => a >= b,
    }
}

pub fn exec_irelop64(op: RelOpType, a: u64, b: u64) -> (r: bool)
    ensures
        r == irelop64(op, a, b),
{
    let sa = a as i64;
    let sb = b as i64;
    match op {
        RelOpType::Eq => a == b,
        RelOpType::Neq => a != b,
        RelOpType::Lt(Signedness::Signed) => sa < sb,
        RelOpType::Lt(Signedness::Unsigned) => a < b,
        RelOpType::Gt(Signedness::Signed) => sa > sb,
        RelOpType::Gt(Signedness::Unsigned) => a > b,
        RelOpType::Le(Signedness::Signed) => sa <= sb,
        RelOpType::Le(Signedness::Unsigned) => a <= b,
        RelOpType::Ge(Signedness::Signed) => sa >= sb,
        RelOpType::Ge(Signedness::Unsigned) => a >= b,
    }
}

// ---------------------------------------------------------------------------
// Floating point
// ---------------------------------------------------------------------------

/// The floating-point arithmetic that the interpreter hands out. Values go in
/// and out as IEEE-754 bit patterns; the interpreter checks the operand types
/// and tags the results.
pub trait FloatOps {
    /// The bit pattern this unit gives for `op` on `a` and `b`.
    spec fn f32_binop_spec(&self, op: FBinOpType, a: u32, b: u32) -> u32;

    spec fn f64_binop_spec(&self, op: FBinOpType, a: u64, b: u64) -> u64;

    spec fn f32_unop_spec(&self, op: FUnOpType, a: u32) -> u32;

    spec fn f64_unop_spec(&self, op: FUnOpType, a: u64) -> u64;

    spec fn f32_relop_spec(&self, op: RelOpType, a: u32, b: u32) -> bool;

    spec fn f64_relop_spec(&self, op: RelOpType, a: u64, b: u64) -> bool;

    spec fn convert_spec(&self, op: CvtOpType, a: u64) -> u64;

    fn f32_binop(&self, op: FBinOpType, a: u32, b: u32) -> (r: u32)
        ensures
            r == self.f32_binop_spec(op, a, b),
    ;

    fn f64_binop(&self, op: FBinOpType, a: u64, b: u64) -> (r: u64)
        ensures
            r == self.f64_binop_spec(op, a, b),
    ;

    fn f32_unop(&self, op: FUnOpType, a: u32) -> (r: u32)
        ensures
            r == self.f32_unop_spec(op, a),
    ;

    fn f64_unop(&self, op: FUnOpType, a: u64) -> (r: u64)
        ensures
            r == self.f64_unop_spec(op, a),
    ;

    fn f32_relop(&self, op: RelOpType, a: u32, b: u32) -> (r: bool)
        ensures
            r == self.f32_relop_spec(op, a, b),
    ;

    fn f64_relop(&self, op: RelOpType, a: u64, b: u64) -> (r: bool)
        ensures
            r == self.f64_relop_spec(op, a, b),
    ;

    /// A conversion from or to a float other than a reinterpretation: the bit
    /// pattern of the result for the bit pattern `a` of the operand.
    fn convert(&self, op: CvtOpType, a: u64) -> (r: u64)
        ensures
            r == self.convert_spec(op, a),
    ;
}

// ---------------------------------------------------------------------------
// Instructions
// ---------------------------------------------------------------------------

pub struct Const {
    pub value: Value,
}

impl Const {
    pub fn new(value: Value) -> (r: Self)
        ensures
            r.value == value,
    {
        Self { value }
    }

    pub fn execute(&self, stack: &mut Stack) -> (r: Result<ControlInfo, Error>)
        ensures
            !is_trap_error(r),
            r == Ok::<ControlInfo, Error>(ControlInfo::Continue),
            final(stack)@ == old(stack)@.push(self.value),
    {
        stack.push_value(self.value);
        Ok(ControlInfo::Continue)
    }
}

proof fn lemma_narrow_payload(v: u64)
    ensures
        v < 0x1_0000_0000 ==> v as u32 as u64 == v,
        v as u32 as u64 <= 0xffff_ffff,
{
    assert(v < 0x1_0000_0000 ==> v as u32 as u64 == v) by (bit_vector);
    assert(v as u32 as u64 <= 0xffff_ffff) by (bit_vector);
}

/// Whether `r` is a trap reported as an error.
pub open spec fn is_trap_error<T>(r: Result<T, Error>) -> bool {
    r matches Err(Error::Trap(_))
}

/// The two operands on top of a stack: the second one was pushed last.
pub open spec fn top_two(s: Seq<Value>) -> (Value, Value) {
    (s[s.len() - 2], s[s.len() - 1])
}

/// A stack with its top two values popped.
pub open spec fn pop_two(s: Seq<Value>) -> Seq<Value> {
    s.subrange(0, s.len() - 2)
}

pub struct IBinOp {
    pub result_type: PrimitiveType,
    pub op_type: IBinOpType,
}

impl IBinOp {
    pub fn new(result_type: PrimitiveType, op_type: IBinOpType) -> (r: Self)
        ensures
            r.result_type == result_type,
            r.op_type == op_type,
    {
        Self { result_type, op_type }
    }

    /// The payload of the result on operands of payloads `a` and `b`;
    /// `None` where the operation traps.
    pub open spec fn eval(self, a: u64, b: u64) -> Option<u64> {
        if self.result_type == PrimitiveType::I32 {
            match ibinop32(self.op_type, a as u32, b as u32) {
                Some(x) => Some(x as u64),
                None => None,
            }
        } else {
            ibinop64(self.op_type, a, b)
        }
    }

    /// Pops two operands of the instruction's integer type and pushes the
    /// result, or traps on an undefined division.
    pub fn execute(&self, stack: &mut Stack) -> (r: Result<ControlInfo, Error>)
        ensures
            !is_trap_error(r),
            old(stack)@.len() < 2 ==> r == Err::<ControlInfo, Error>(Error::StackViolation),
            old(stack)@.len() >= 2 ==> {
                let (a, b) = top_two(old(stack)@);
                if a.t != self.result_type || b.t != self.result_type || !(self.result_type
                    == PrimitiveType::I32 || self.result_type == PrimitiveType::I64) {
                    r matches Err(Error::Misc(_))
                } else {
                    match self.eval(a.v, b.v) {
                        Some(v) => r == Ok::<ControlInfo, Error>(ControlInfo::Continue)
                            && final(stack)@ == pop_two(old(stack)@).push(
                            Value { t: self.result_type, v },
                        ),
                        None => r == Ok::<ControlInfo, Error>(
                            ControlInfo::Trap(Trap::UndefinedDivision),
                        ) && final(stack)@ == pop_two(old(stack)@),
                    }
                }
            },
    {
        if stack.len() < 2 {
            return Err(Error::StackViolation);
        }
        let op_1 = stack.pop_value()?;
        let op_0 = stack.pop_value()?;
        assert(stack@ == pop_two(old(stack)@));
        if op_0.t != self.result_type || op_1.t != self.result_type {
            return Err(Error::Misc("Operand type mismatch"));
        }
        let result = match self.result_type {
            PrimitiveType::I32 => match exec_ibinop32(self.op_type, op_0.v as u32, op_1.v as u32) {
                Some(x) => x as u64,
                None => return Ok(ControlInfo::Trap(Trap::UndefinedDivision)),
            },
            PrimitiveType::I64 => match exec_ibinop64(self.op_type, op_0.v, op_1.v) {
                Some(x) => x,
                None => return Ok(ControlInfo::Trap(Trap::UndefinedDivision)),
            },
            _ => return Err(Error::Misc("Integer operation on a float type")),
        };
        stack.push_value(Value { t: self.result_type, v: result });
        Ok(ControlInfo::Continue)
    }
}

pub struct FBinOp {
    pub result_type: PrimitiveType,
    pub op_type: FBinOpType,
}

impl FBinOp {
    pub fn new(result_type: PrimitiveType, op_type: FBinOpType) -> (r: Self)
        ensures
            r.result_type == result_type,
            r.op_type == op_type,
    {
        Self { result_type, op_type }
    }

    /// Pops two operands of the instruction's float type and pushes the
    /// result that `float` computes, tagged with that type.
    pub fn execute<F: FloatOps>(&self, stack: &mut Stack, float: &F) -> (r: Result<
        ControlInfo,
        Error,
    >)
        ensures
            !is_trap_error(r),
            old(stack)@.len() < 2 ==> r == Err::<ControlInfo, Error>(Error::StackViolation),
            old(stack)@.len() >= 2 ==> {
                let (a, b) = top_two(old(stack)@);
                if a.t != self.result_type || b.t != self.result_type || !(self.result_type
                    == PrimitiveType::F32 || self.result_type == PrimitiveType::F64) {
                    r matches Err(Error::Misc(_))
                } else {
                    r == Ok::<ControlInfo, Error>(ControlInfo::Continue) && final(stack)@.len()
                        == old(stack)@.len() - 1 && final(stack)@.drop_last() == pop_two(
                        old(stack)@,
                    ) && final(stack)@.last().t == self.result_type
                        && final(stack)@.last().v == payload_of(
                        self.result_type,
                        final(stack)@.last().v,
                    ) && (self.result_type == PrimitiveType::F32 ==> final(stack)@.last().v
                        == float.f32_binop_spec(self.op_type, a.v as u32, b.v as u32) as u64) && (
                    self.result_type == PrimitiveType::F64 ==> final(stack)@.last().v
                        == float.f64_binop_spec(self.op_type, a.v, b.v))
                }
            },
    {
        if stack.len() < 2 {
            return Err(Error::StackViolation);
        }
        let op_1 = stack.pop_value()?;
        let op_0 = stack.pop_value()?;
        if op_0.t != self.result_type || op_1.t != self.result_type {
            return Err(Error::Misc("Operand type mismatch"));
        }
        let result = match self.result_type {
            PrimitiveType::F32 => Value::from_f32_bits(
                float.f32_binop(self.op_type, op_0.v as u32, op_1.v as u32),
            ),
            PrimitiveType::F64 => Value::from_f64_bits(float.f64_binop(self.op_type, op_0.v, op_1.v)),
            _ => return Err(Error::Misc("Float operation on an integer type")),
        };
        proof {
            lemma_narrow_payload(result.v);
        }
        stack.push_value(result);
        Ok(ControlInfo::Continue)
    }
}

/// A boolean as an `i32` value.
pub open spec fn bool_value(b: bool) -> Value {
    Value { t: PrimitiveType::I32, v: if b { 1 } else { 0 } }
}

fn bool_to_value(b: bool) -> (r: Value)
    ensures
        r == bool_value(b),
{
    Value { t: PrimitiveType::I32, v: if b { 1 } else { 0 } }
}

pub struct RelOp {
    pub arg_type: PrimitiveType,
    pub op_type: RelOpType,
}

impl RelOp {
    pub fn new(arg_type: PrimitiveType, op_type: RelOpType) -> (r: Self)
        ensures
            r.arg_type == arg_type,
            r.op_type == op_type,
    {
        Self { arg_type, op_type }
    }

    /// Pops two operands of the instruction's type and pushes the outcome of
    /// the comparison as an `i32` 1 or 0. Integers are compared here; floats
    /// by `float`.
    pub fn execute<F: FloatOps>(&self, stack: &mut Stack, float: &F) -> (r: Result<
        ControlInfo,
        Error,
    >)
        ensures
            !is_trap_error(r),
            old(stack)@.len() < 2 ==> r == Err::<ControlInfo, Error>(Error::StackViolation),
            old(stack)@.len() >= 2 ==> {
                let (a, b) = top_two(old(stack)@);
                if a.t != self.arg_type || b.t != self.arg_type {
                    r matches Err(Error::Misc(_))
                } else if self.arg_type == PrimitiveType::I32 {
                    r == Ok::<ControlInfo, Error>(ControlInfo::Continue) && final(stack)@
                        == pop_two(old(stack)@).push(
                        bool_value(irelop32(self.op_type, a.v as u32, b.v as u32)),
                    )
                } else if self.arg_type == PrimitiveType::I64 {
                    r == Ok::<ControlInfo, Error>(ControlInfo::Continue) && final(stack)@
                        == pop_two(old(stack)@).push(bool_value(irelop64(self.op_type, a.v, b.v)))
                } else {
                    r == Ok::<ControlInfo, Error>(ControlInfo::Continue) && final(stack)@
                        == pop_two(old(stack)@).push(
                        bool_value(
                            if self.arg_type == PrimitiveType::F32 {
                                float.f32_relop_spec(self.op_type, a.v as u32, b.v as u32)
                            } else {
                                float.f64_relop_spec(self.op_type, a.v, b.v)
                            },
                        ),
                    )
                }
            },
    {
        if stack.len() < 2 {
            return Err(Error::StackViolation);
        }
        let op_1 = stack.pop_value()?;
        let op_0 = stack.pop_value()?;
        assert(stack@ == pop_two(old(stack)@));
        if op_0.t != self.arg_type || op_1.t != self.arg_type {
            return Err(Error::Misc("Operand type mismatch"));
        }
        let c = match self.arg_type {
            PrimitiveType::I32 => exec_irelop32(self.op_type, op_0.v as u32, op_1.v as u32),
            PrimitiveType::I64 => exec_irelop64(self.op_type, op_0.v, op_1.v),
            PrimitiveType::F32 => float.f32_relop(self.op_type, op_0.v as u32, op_1.v as u32),
            PrimitiveType::F64 => float.f64_relop(self.op_type, op_0.v, op_1.v),
        };
        stack.push_value(bool_to_value(c));
        Ok(ControlInfo::Continue)
    }
}

pub struct ITestOpEqz {
    pub arg_type: PrimitiveType,
}

impl ITestOpEqz {
    pub fn new(arg_type: PrimitiveType) -> (r: Self)
        ensures
            r.arg_type == arg_type,
    {
        Self { arg_type }
    }

    /// Pops an integer of the instruction's type and pushes `i32` 1 if it is
    /// zero, else 0.
    pub fn execute(&self, stack: &mut Stack) -> (r: Result<ControlInfo, Error>)
        ensures
            !is_trap_error(r),
            old(stack)@.len() == 0 ==> r == Err::<ControlInfo, Error>(Error::StackViolation),
            old(stack)@.len() > 0 ==> {
                let a = old(stack)@.last();
                if a.t != self.arg_type || !(self.arg_type == PrimitiveType::I32 || self.arg_type
                    == PrimitiveType::I64) {
                    r matches Err(Error::Misc(_))
                } else {
                    r == Ok::<ControlInfo, Error>(ControlInfo::Continue) && final(stack)@
                        == old(stack)@.drop_last().push(
                        bool_value(payload_of(self.arg_type, a.v) == 0),
                    )
                }
            },
    {
        let op = stack.pop_value()?;
        if op.t != self.arg_type {
            return Err(Error::Misc("Operand type mismatch"));
        }
        let c = match self.arg_type {
            PrimitiveType::I32 => op.v as u32 == 0,
            PrimitiveType::I64 => op.v == 0,
            _ => return Err(Error::Misc("Integer test on a float type")),
        };
        proof {
            lemma_narrow_zero(op.v);
        }
        stack.push_value(bool_to_value(c));
        Ok(ControlInfo::Continue)
    }
}

proof fn lemma_narrow_zero(v: u64)
    ensures
        (v as u32 == 0) == (v as u32 as u64 == 0),
{
    assert((v as u32 == 0) == (v as u32 as u64 == 0)) by (bit_vector);
}

pub struct IUnOp {
    pub result_type: PrimitiveType,
    pub op_type: IUnOpType,
}

impl IUnOp {
    pub fn new(result_type: PrimitiveType, op_type: IUnOpType) -> (r: Self)
        ensures
            r.result_type == result_type,
            r.op_type == op_type,
    {
        Self { result_type, op_type }
    }

    /// Pops an integer of the instruction's type and pushes the count of
    /// leading zeros, trailing zeros or one bits.
    pub fn execute(&self, stack: &mut Stack) -> (r: Result<ControlInfo, Error>)
        ensures
            !is_trap_error(r),
            old(stack)@.len() == 0 ==> r == Err::<ControlInfo, Error>(Error::StackViolation),
            old(stack)@.len() > 0 ==> {
                let a = old(stack)@.last();
                if a.t != self.result_type || !(self.result_type == PrimitiveType::I32
                    || self.result_type == PrimitiveType::I64) {
                    r matches Err(Error::Misc(_))
                } else {
                    r == Ok::<ControlInfo, Error>(ControlInfo::Continue) && final(stack)@
                        == old(stack)@.drop_last().push(
                        Value {
                            t: self.result_type,
                            v: if self.result_type == PrimitiveType::I32 {
                                iunop32(self.op_type, a.v as u32) as u64
                            } else {
                                iunop64(self.op_type, a.v)
                            },
                        },
                    )
                }
            },
    {
        let op = stack.pop_value()?;
        if op.t != self.result_type {
            return Err(Error::Misc("Operand type mismatch"));
        }
        let v = match self.result_type {
            PrimitiveType::I32 => exec_iunop32(self.op_type, op.v as u32) as u64,
            PrimitiveType::I64 => exec_iunop64(self.op_type, op.v),
            _ => return Err(Error::Misc("Integer operation on a float type")),
        };
        stack.push_value(Value { t: self.result_type, v });
        Ok(ControlInfo::Continue)
    }
}

pub struct FUnOp {
    pub result_type: PrimitiveType,
    pub op_type: FUnOpType,
}

impl FUnOp {
    pub fn new(result_type: PrimitiveType, op_type: FUnOpType) -> (r: Self)
        ensures
            r.result_type == result_type,
            r.op_type == op_type,
    {
        Self { result_type, op_type }
    }

    /// Pops a float of the instruction's type and pushes the result that
    /// `float` computes, tagged with that type.
    pub fn execute<F: FloatOps>(&self, stack: &mut Stack, float: &F) -> (r: Result<
        ControlInfo,
        Error,
    >)
        ensures
            !is_trap_error(r),
            old(stack)@.len() == 0 ==> r == Err::<ControlInfo, Error>(Error::StackViolation),
            old(stack)@.len() > 0 ==> {
                let a = old(stack)@.last();
                if a.t != self.result_type || !(self.result_type == PrimitiveType::F32
                    || self.result_type == PrimitiveType::F64) {
                    r matches Err(Error::Misc(_))
                } else {
                    r == Ok::<ControlInfo, Error>(ControlInfo::Continue) && final(stack)@.len()
                        == old(stack)@.len() && final(stack)@.drop_last()
                        == old(stack)@.drop_last() && final(stack)@.last().t == self.result_type
                        && final(stack)@.last().v == payload_of(
                        self.result_type,
                        final(stack)@.last().v,
                    ) && (self.result_type == PrimitiveType::F32 ==> final(stack)@.last().v
                        == float.f32_unop_spec(self.op_type, a.v as u32) as u64) && (
                    self.result_type == PrimitiveType::F64 ==> final(stack)@.last().v
                        == float.f64_unop_spec(self.op_type, a.v))
                }
            },
    {
        let op = stack.pop_value()?;
        if op.t != self.result_type {
            return Err(Error::Misc("Operand type mismatch"));
        }
        let result = match self.result_type {
            PrimitiveType::F32 => Value::from_f32_bits(float.f32_unop(self.op_type, op.v as u32)),
            PrimitiveType::F64 => Value::from_f64_bits(float.f64_unop(self.op_type, op.v)),
            _ => return Err(Error::Misc("Float operation on an integer type")),
        };
        proof {
            lemma_narrow_payload(result.v);
            assert(result.v as u32 as u64 == result.v ==> (result.v as u32) as u64 == result.v);
        }
        stack.push_value(result);
        Ok(ControlInfo::Continue)
    }
}

/// The operand type of a conversion.
pub open spec fn cvt_source(op: CvtOpType) -> PrimitiveType {
    match op {
        CvtOpType::Wrap => PrimitiveType::I64,
        CvtOpType::Extend(_) => PrimitiveType::I32,
        CvtOpType::Trunc(_, src, _) => src,
        CvtOpType::TruncSat(_, src, _) => src,
        CvtOpType::Convert(_, src, _) => src,
        CvtOpType::Demote => PrimitiveType::F64,
        CvtOpType::Promote => PrimitiveType::F32,
        CvtOpType::Reinterpret(src) => src,
    }
}

/// The result type of a conversion.
pub open spec fn cvt_result(op: CvtOpType) -> PrimitiveType {
    match op {
        CvtOpType::Wrap => PrimitiveType::I32,
        CvtOpType::Extend(_) => PrimitiveType::I64,
        CvtOpType::Trunc(_, _, dst) => dst,
        CvtOpType::TruncSat(_, _, dst) => dst,
        CvtOpType::Convert(_, _, dst) => dst,
        CvtOpType::Demote => PrimitiveType::F32,
        CvtOpType::Promote => PrimitiveType::F64,
        CvtOpType::Reinterpret(src) => match src {
            PrimitiveType::I32 => PrimitiveType::F32,
            PrimitiveType::F32 => PrimitiveType::I32,
            PrimitiveType::I64 => PrimitiveType::F64,
            PrimitiveType::F64 => PrimitiveType::I64,
        },
    }
}

/// The payload of a conversion that involves no float arithmetic; `None`
/// for the others.
pub open spec fn cvt_bits(op: CvtOpType, v: u64) -> Option<u64> {
    match op {
        CvtOpType::Wrap => Some(v as u32 as u64),
        CvtOpType::Extend(Signedness::Signed) => Some(v as u32 as i32 as i64 as u64),
        CvtOpType::Extend(Signedness::Unsigned) => Some(v as u32 as u64),
        CvtOpType::Reinterpret(src) => Some(payload_of(src, v)),
        _ => None,
    }
}

fn cvt_result_type(op: CvtOpType) -> (r: PrimitiveType)
    ensures
        r == cvt_result(op),
{
    match op {
        CvtOpType::Wrap => PrimitiveType::I32,
        CvtOpType::Extend(_) => PrimitiveType::I64,
        CvtOpType::Trunc(_, _, dst) => dst,
        CvtOpType::TruncSat(_, _, dst) => dst,
        CvtOpType::Convert(_, _, dst) => dst,
        CvtOpType::Demote => PrimitiveType::F32,
        CvtOpType::Promote => PrimitiveType::F64,
        CvtOpType::Reinterpret(src) => match src {
            PrimitiveType::I32 => PrimitiveType::F32,
            PrimitiveType::F32 => PrimitiveType::I32,
            PrimitiveType::I64 => PrimitiveType::F64,
            PrimitiveType::F64 => PrimitiveType::I64,
        },
    }
}

pub struct CvtOp {
    pub op_type: CvtOpType,
}

impl CvtOp {
    pub fn new(op_type: CvtOpType) -> (r: Self)
        ensures
            r.op_type == op_type,
    {
        Self { op_type }
    }

    /// Pops an operand of the conversion's source type and pushes the
    /// converted value, tagged with the result type.
    pub fn execute<F: FloatOps>(&self, stack: &mut Stack, float: &F) -> (r: Result<
        ControlInfo,
        Error,
    >)
        ensures
            !is_trap_error(r),
            old(stack)@.len() == 0 ==> r == Err::<ControlInfo, Error>(Error::StackViolation),
            old(stack)@.len() > 0 ==> {
                let a = old(stack)@.last();
                if a.t != cvt_source(self.op_type) {
                    r matches Err(Error::Misc(_))
                } else {
                    &&& r == Ok::<ControlInfo, Error>(ControlInfo::Continue)
                    &&& final(stack)@.len() == old(stack)@.len()
                    &&& final(stack)@.drop_last() == old(stack)@.drop_last()
                    &&& final(stack)@.last().t == cvt_result(self.op_type)
                    &&& final(stack)@.last().v == payload_of(
                        cvt_result(self.op_type),
                        final(stack)@.last().v,
                    )
                    &&& cvt_bits(self.op_type, a.v) matches Some(v) ==> final(stack)@.last().v
                        == payload_of(cvt_result(self.op_type), v)
                    &&& cvt_bits(self.op_type, a.v) is None ==> final(stack)@.last().v == payload_of(
                        cvt_result(self.op_type),
                        float.convert_spec(self.op_type, a.v),
                    )
                }
            },
    {
        let op = stack.pop_value()?;
        let source = match self.op_type {
            CvtOpType::Wrap => PrimitiveType::I64,
            CvtOpType::Extend(_) => PrimitiveType::I32,
            CvtOpType::Trunc(_, src, _) => src,
            CvtOpType::TruncSat(_, src, _) => src,
            CvtOpType::Convert(_, src, _) => src,
            CvtOpType::Demote => PrimitiveType::F64,
            CvtOpType::Promote => PrimitiveType::F32,
            CvtOpType::Reinterpret(src) => src,
        };
        if op.t != source {
            return Err(Error::Misc("Operand type mismatch"));
        }
        let bits = match self.op_type {
            CvtOpType::Wrap => op.v as u32 as u64,
            CvtOpType::Extend(Signedness::Signed) => op.v as u32 as i32 as i64 as u64,
            CvtOpType::Extend(Signedness::Unsigned) => op.v as u32 as u64,
            CvtOpType::Reinterpret(PrimitiveType::I32) | CvtOpType::Reinterpret(
                PrimitiveType::F32,
            ) => op.v as u32 as u64,
            CvtOpType::Reinterpret(_) => op.v,
            _ => float.convert(self.op_type, op.v),
        };
        let result = Value::from_explicit_type(cvt_result_type(self.op_type), bits);
        proof {
            lemma_narrow_payload(result.v);
            lemma_narrow_payload(bits as u32 as u64);
        }
        stack.push_value(result);
        Ok(ControlInfo::Continue)
    }
}

pub struct LocalGet {
    pub index: usize,
}

impl LocalGet {
    pub fn new(index: usize) -> (r: Self)
        ensures
            r.index == index,
    {
        Self { index }
    }

    /// Pushes the local at the index.
    pub fn execute(&self, stack: &mut Stack, locals: &Vec<Value>) -> (r: Result<
        ControlInfo,
        Error,
    >)
        ensures
            !is_trap_error(r),
            self.index < locals@.len() ==> r == Ok::<ControlInfo, Error>(ControlInfo::Continue)
                && final(stack)@ == old(stack)@.push(locals@[self.index as int]),
            self.index >= locals@.len() ==> (r matches Err(Error::Misc(_))) && final(stack)@ == old(
                stack,
            )@,
    {
        if self.index >= locals.len() {
            return Err(Error::Misc("Local index out of range"));
        }
        stack.push_value(locals[self.index]);
        Ok(ControlInfo::Continue)
    }
}

pub struct LocalSet {
    pub index: usize,
}

impl LocalSet {
    pub fn new(index: usize) -> (r: Self)
        ensures
            r.index == index,
    {
        Self { index }
    }

    /// Pops a value into the local at the index.
    pub fn execute(&self, stack: &mut Stack, locals: &mut Vec<Value>) -> (r: Result<
        ControlInfo,
        Error,
    >)
        ensures
            !is_trap_error(r),
            final(locals)@.len() == old(locals)@.len(),
            self.index < old(locals)@.len() && old(stack)@.len() > 0 ==> r == Ok::<
                ControlInfo,
                Error,
            >(ControlInfo::Continue) && final(stack)@ == old(stack)@.drop_last()
                && final(locals)@ == old(locals)@.update(self.index as int, old(stack)@.last()),
            self.index >= old(locals)@.len() ==> r matches Err(Error::Misc(_)),
            self.index < old(locals)@.len() && old(stack)@.len() == 0 ==> r == Err::<
                ControlInfo,
                Error,
            >(Error::StackViolation),
    {
        if self.index >= locals.len() {
            return Err(Error::Misc("Local index out of range"));
        }
        let v = stack.pop_value()?;
        locals.set(self.index, v);
        Ok(ControlInfo::Continue)
    }
}

pub struct LocalTee {
    pub index: usize,
}

impl LocalTee {
    pub fn new(index: usize) -> (r: Self)
        ensures
            r.index == index,
    {
        Self { index }
    }

    /// Copies the value on top of the stack into the local at the index.
    pub fn execute(&self, stack: &mut Stack, locals: &mut Vec<Value>) -> (r: Result<
        ControlInfo,
        Error,
    >)
        ensures
            !is_trap_error(r),
            final(locals)@.len() == old(locals)@.len(),
            final(stack)@ == old(stack)@,
            self.index < old(locals)@.len() && old(stack)@.len() > 0 ==> r == Ok::<
                ControlInfo,
                Error,
            >(ControlInfo::Continue) && final(locals)@ == old(locals)@.update(
                self.index as int,
                old(stack)@.last(),
            ),
            self.index >= old(locals)@.len() ==> r matches Err(Error::Misc(_)),
            self.index < old(locals)@.len() && old(stack)@.len() == 0 ==> r == Err::<
                ControlInfo,
                Error,
            >(Error::StackViolation),
    {
        if self.index >= locals.len() {
            return Err(Error::Misc("Local index out of range"));
        }
        let v = *stack.fetch_value(0)?;
        locals.set(self.index, v);
        Ok(ControlInfo::Continue)
    }
}

pub struct Load {
    pub result_type: PrimitiveType,
    pub load_bitwidth: u8,
    pub offset: u32,
}

impl Load {
    /// The alignment hint is read and dropped: it does not change what a
    /// load does.
    pub fn new(result_type: PrimitiveType, load_bitwidth: u8, _align: u32, offset: u32) -> (r: Self)
        ensures
            r.result_type == result_type,
            r.load_bitwidth == load_bitwidth,
            r.offset == offset,
    {
        Self { result_type, load_bitwidth, offset }
    }

    /// Pops an `i32` address and pushes the value read at the address plus
    /// the offset; traps when the bytes lie past the memory's size.
    pub fn execute(&self, stack: &mut Stack, memory: &Memory) -> (r: Result<ControlInfo, Error>)
        ensures
            !is_trap_error(r),
            old(stack)@.len() == 0 ==> r == Err::<ControlInfo, Error>(Error::StackViolation),
            old(stack)@.len() > 0 && (old(stack)@.last().t != PrimitiveType::I32
                || self.load_bitwidth % 8 != 0 || self.load_bitwidth > 64) ==> r matches Err(Error::Misc(_)),
            old(stack)@.len() > 0 && old(stack)@.last().t == PrimitiveType::I32
                && self.load_bitwidth % 8 == 0 && self.load_bitwidth <= 64 ==> {
                let a = old(stack)@.last().v as u32 as int + self.offset;
                let n = (self.load_bitwidth / 8) as nat;
                if in_bounds(memory@.pages, a, n) {
                    r == Ok::<ControlInfo, Error>(ControlInfo::Continue) && final(stack)@
                        == old(stack)@.drop_last().push(
                        Value {
                            t: self.result_type,
                            v: payload_of(self.result_type, le_value(memory@.bytes, a, n) as u64),
                        },
                    )
                } else {
                    r == Ok::<ControlInfo, Error>(ControlInfo::Trap(Trap::MemoryOutOfBounds))
                        && final(stack)@ == old(stack)@.drop_last()
                }
            },
    {
        let address = stack.pop_value()?.as_u32()? as u64 + self.offset as u64;
        if self.load_bitwidth % 8 != 0 || self.load_bitwidth > 64 {
            return Err(Error::Misc("Unsupported access width"));
        }
        match memory.read(self.result_type, self.load_bitwidth, address) {
            Some(v) => {
                stack.push_value(v);
                Ok(ControlInfo::Continue)
            },
            None => Ok(ControlInfo::Trap(Trap::MemoryOutOfBounds)),
        }
    }
}

pub struct Store {
    pub bitwidth: u8,
    pub offset: u32,
}

impl Store {
    /// The alignment hint is read and dropped.
    pub fn new(bitwidth: u8, _align: u32, offset: u32) -> (r: Self)
        ensures
            r.bitwidth == bitwidth,
            r.offset == offset,
    {
        Self { bitwidth, offset }
    }

    /// Pops the value, then the `i32` address, and stores the low bits of the
    /// value at the address plus the offset; traps when the bytes lie past
    /// the memory's size.
    pub fn execute(&self, stack: &mut Stack, memory: &mut Memory) -> (r: Result<
        ControlInfo,
        Error,
    >)
        ensures
            !is_trap_error(r),
            old(memory).wf() ==> final(memory).wf(),
            final(memory)@.pages == old(memory)@.pages,
            old(stack)@.len() < 2 ==> r == Err::<ControlInfo, Error>(Error::StackViolation),
            old(stack)@.len() >= 2 && (top_two(old(stack)@).0.t != PrimitiveType::I32
                || self.bitwidth % 8 != 0 || self.bitwidth > 64) ==> r matches Err(Error::Misc(_)),
            old(stack)@.len() >= 2 && top_two(old(stack)@).0.t == PrimitiveType::I32
                && self.bitwidth % 8 == 0 && self.bitwidth <= 64 ==> {
                let (addr, value) = top_two(old(stack)@);
                let a = addr.v as u32 as int + self.offset;
                if in_bounds(old(memory)@.pages, a, (self.bitwidth / 8) as nat) {
                    &&& r == Ok::<ControlInfo, Error>(ControlInfo::Continue)
                    &&& final(stack)@ == pop_two(old(stack)@)
                    &&& final(memory)@ == MemoryView {
                        bytes: store_bytes(old(memory)@.bytes, value.v, self.bitwidth, a as u64),
                        ..old(memory)@
                    }
                    &&& stored(
                        old(memory)@.bytes,
                        final(memory)@.bytes,
                        value.v,
                        self.bitwidth,
                        a as u64,
                    )
                } else {
                    &&& r == Ok::<ControlInfo, Error>(ControlInfo::Trap(Trap::MemoryOutOfBounds))
                    &&& final(memory)@ == old(memory)@
                    &&& final(stack)@ == pop_two(old(stack)@)
                }
            },
    {
        if stack.len() < 2 {
            return Err(Error::StackViolation);
        }
        let value = stack.pop_value()?;
        let address = stack.pop_value()?.as_u32()? as u64 + self.offset as u64;
        assert(stack@ == pop_two(old(stack)@));
        if self.bitwidth % 8 != 0 || self.bitwidth > 64 {
            return Err(Error::Misc("Unsupported access width"));
        }
        match memory.write(value.v, self.bitwidth, address) {
            Some(_) => Ok(ControlInfo::Continue),
            None => Ok(ControlInfo::Trap(Trap::MemoryOutOfBounds)),
        }
    }
}

pub struct Branch {
    pub branch_index: u32,
}

impl Branch {
    pub fn new(branch_index: u32) -> (r: Self)
        ensures
            r.branch_index == branch_index,
    {
        Self { branch_index }
    }

    pub fn execute(&self) -> (r: Result<ControlInfo, Error>)
        ensures
            !is_trap_error(r),
            r == Ok::<ControlInfo, Error>(ControlInfo::Branch(self.branch_index)),
    {
        Ok(ControlInfo::Branch(self.branch_index))
    }
}

pub struct BranchIf {
    pub branch_index: u32,
}

impl BranchIf {
    pub fn new(branch_index: u32) -> (r: Self)
        ensures
            r.branch_index == branch_index,
    {
        Self { branch_index }
    }

    /// Pops the condition; branches when it is not zero.
    pub fn execute(&self, stack: &mut Stack) -> (r: Result<ControlInfo, Error>)
        ensures
            !is_trap_error(r),
            old(stack)@.len() == 0 ==> r == Err::<ControlInfo, Error>(Error::StackViolation),
            old(stack)@.len() > 0 ==> final(stack)@ == old(stack)@.drop_last() && r == Ok::<
                ControlInfo,
                Error,
            >(
                if old(stack)@.last().v != 0 {
                    ControlInfo::Branch(self.branch_index)
                } else {
                    ControlInfo::Continue
                },
            ),
    {
        let condition = stack.pop_value()?;
        if condition.v == 0 {
            Ok(ControlInfo::Continue)
        } else {
            Ok(ControlInfo::Branch(self.branch_index))
        }
    }
}

pub struct Call {
    pub function_index: usize,
}

impl Call {
    pub fn new(function_index: usize) -> (r: Self)
        ensures
            r.function_index == function_index,
    {
        Self { function_index }
    }
}

pub struct Return {}

impl Return {
    pub fn new() -> (r: Self) {
        Self {  }
    }

    pub fn execute(&self) -> (r: Result<ControlInfo, Error>)
        ensures
            !is_trap_error(r),
            r == Ok::<ControlInfo, Error>(ControlInfo::Return),
    {
        Ok(ControlInfo::Return)
    }
}

/// What a branch to a structured block does: leave it, or run it again.
#[derive(Clone, Copy, Debug, PartialEq, Eq, Structural)]
pub enum BlockContinuation {
    Loop,
    Branch,
}

/// A structured block: a body and what a branch to it does.
pub struct Block {
    pub continuation: BlockContinuation,
    pub instructions: Vec<Instruction>,
}

impl Block {
    pub fn new(continuation: BlockContinuation, instructions: Vec<Instruction>) -> (r: Self)
        ensures
            r.continuation == continuation,
            r.instructions@ == instructions@,
    {
        Self { continuation, instructions }
    }
}

/// One decoded instruction.
pub enum Instruction {
    Const(Const),
    IBinOp(IBinOp),
    FBinOp(FBinOp),
    RelOp(RelOp),
    ITestOpEqz(ITestOpEqz),
    IUnOp(IUnOp),
    FUnOp(FUnOp),
    CvtOp(CvtOp),
    LocalGet(LocalGet),
    LocalSet(LocalSet),
    LocalTee(LocalTee),
    Load(Load),
    Store(Store),
    Branch(Branch),
    BranchIf(BranchIf),
    Call(Call),
    Return(Return),
    Block(Block),
}

/// What a block does when its body hands it `c`: `None` to run the body
/// again, else the signal it hands on to the blocks around it.
pub open spec fn block_outcome(continuation: BlockContinuation, c: ControlInfo) -> Option<ControlInfo> {
    match c {
        ControlInfo::Branch(d) => if d == 0 {
            if continuation == BlockContinuation::Loop {
                None
            } else {
                Some(ControlInfo::Continue)
            }
        } else {
            Some(ControlInfo::Branch((d - 1) as u32))
        },
        _ => Some(c),
    }
}

/// Where a signal `c` from the innermost of the nested blocks `conts`
/// (innermost first) ends: the number of blocks it leaves, whether the next
/// block restarts as a loop, and what escapes all of them.
pub open spec fn unwind(conts: Seq<BlockContinuation>, c: ControlInfo) -> (nat, bool, Option<
    ControlInfo,
>)
    decreases conts.len(),
{
    if conts.len() == 0 {
        (0, false, Some(c))
    } else {
        match block_outcome(conts[0], c) {
            None => (0, true, None),
            Some(ControlInfo::Continue) => (1, false, None),
            Some(next) => {
                let (left, restarted, escaped) = unwind(conts.drop_first(), next);
                (left + 1, restarted, escaped)
            },
        }
    }
}

/// Within `N` nested blocks, `br k` for `k < N` leaves the `k` blocks inside
/// the `k`-th one and then leaves that one too, or runs it again if it is a
/// loop; `br N` leaves all `N` and reaches the function's body as `br 0`.
pub proof fn lemma_branch_depth(conts: Seq<BlockContinuation>, k: nat)
    requires
        k <= conts.len(),
        conts.len() < u32::MAX,
    ensures
        k < conts.len() ==> unwind(conts, ControlInfo::Branch(k as u32)) == if conts[k as int]
            == BlockContinuation::Loop {
            (k, true, None::<ControlInfo>)
        } else {
            (k + 1, false, None::<ControlInfo>)
        },
        k == conts.len() ==> unwind(conts, ControlInfo::Branch(k as u32)) == (
            k,
            false,
            Some(ControlInfo::Branch(0)),
        ),
    decreases k,
{
    if k > 0 {
        lemma_branch_depth(conts.drop_first(), (k - 1) as nat);
        assert(block_outcome(conts[0], ControlInfo::Branch(k as u32)) == Some(
            ControlInfo::Branch((k - 1) as u32),
        ));
    } else if conts.len() > 0 {
        assert(block_outcome(conts[0], ControlInfo::Branch(0)) == if conts[0]
            == BlockContinuation::Loop {
            None::<ControlInfo>
        } else {
            Some(ControlInfo::Continue)
        });
    }
}

// ---------------------------------------------------------------------------
// The meaning of a program
// ---------------------------------------------------------------------------

/// What one function activation sees: its value stack and locals, and the
/// shared memory.
pub struct ExecState {
    pub stack: Seq<Value>,
    pub locals: Seq<Value>,
    pub mem: MemoryView,
}

/// How running an instruction, a body or a block ends: with an interpreter
/// error, or with a signal for the blocks around it and the state after.
pub enum Outcome {
    Fail,
    Done(ControlInfo, ExecState),
}

/// How a call ends: with an interpreter error, with the result, or with a
/// trap; the memory is the one left behind.
pub enum CallOutcome {
    Fail,
    /// The body ended with other than exactly one value on its stack.
    Unbalanced,
    Returned(Value, MemoryView),
    Trapped(Trap, MemoryView),
}

pub open spec fn with_stack(s: ExecState, stack: Seq<Value>) -> ExecState {
    ExecState { stack, ..s }
}

/// One step of an instruction other than a block or a call, with `float`
/// giving the results of float arithmetic. `None` for blocks and calls.
pub open spec fn simple_step<F: FloatOps>(
    float: &F,
    i: Instruction,
    s: ExecState,
) -> Option<Outcome> {
    let st = s.stack;
    let n = st.len();
    let cont = ControlInfo::Continue;
    match i {
        Instruction::Const(c) => Some(Outcome::Done(cont, with_stack(s, st.push(c.value)))),
        Instruction::IBinOp(x) => if n < 2 {
            Some(Outcome::Fail)
        } else {
            let (a, b) = top_two(st);
            if a.t != x.result_type || b.t != x.result_type || !(x.result_type
                == PrimitiveType::I32 || x.result_type == PrimitiveType::I64) {
                Some(Outcome::Fail)
            } else {
                match x.eval(a.v, b.v) {
                    Some(v) => Some(
                        Outcome::Done(
                            cont,
                            with_stack(s, pop_two(st).push(Value { t: x.result_type, v })),
                        ),
                    ),
                    None => Some(
                        Outcome::Done(
                            ControlInfo::Trap(Trap::UndefinedDivision),
                            with_stack(s, pop_two(st)),
                        ),
                    ),
                }
            }
        },
        Instruction::FBinOp(x) => if n < 2 {
            Some(Outcome::Fail)
        } else {
            let (a, b) = top_two(st);
            if a.t != x.result_type || b.t != x.result_type || !(x.result_type
                == PrimitiveType::F32 || x.result_type == PrimitiveType::F64) {
                Some(Outcome::Fail)
            } else {
                let v = if x.result_type == PrimitiveType::F32 {
                    float.f32_binop_spec(x.op_type, a.v as u32, b.v as u32) as u64
                } else {
                    float.f64_binop_spec(x.op_type, a.v, b.v)
                };
                Some(
                    Outcome::Done(
                        cont,
                        with_stack(s, pop_two(st).push(Value { t: x.result_type, v })),
                    ),
                )
            }
        },
        Instruction::RelOp(x) => if n < 2 {
            Some(Outcome::Fail)
        } else {
            let (a, b) = top_two(st);
            if a.t != x.arg_type || b.t != x.arg_type {
                Some(Outcome::Fail)
            } else if x.arg_type == PrimitiveType::I32 {
                Some(
                    Outcome::Done(
                        cont,
                        with_stack(
                            s,
                            pop_two(st).push(bool_value(irelop32(x.op_type, a.v as u32, b.v as u32))),
                        ),
                    ),
                )
            } else if x.arg_type == PrimitiveType::I64 {
                Some(
                    Outcome::Done(
                        cont,
                        with_stack(s, pop_two(st).push(bool_value(irelop64(x.op_type, a.v, b.v)))),
                    ),
                )
            } else {
                let c = if x.arg_type == PrimitiveType::F32 {
                    float.f32_relop_spec(x.op_type, a.v as u32, b.v as u32)
                } else {
                    float.f64_relop_spec(x.op_type, a.v, b.v)
                };
                Some(Outcome::Done(cont, with_stack(s, pop_two(st).push(bool_value(c)))))
            }
        },
        Instruction::ITestOpEqz(x) => if n == 0 {
            Some(Outcome::Fail)
        } else {
            let a = st.last();
            if a.t != x.arg_type || !(x.arg_type == PrimitiveType::I32 || x.arg_type
                == PrimitiveType::I64) {
                Some(Outcome::Fail)
            } else {
                Some(
                    Outcome::Done(
                        cont,
                        with_stack(
                            s,
                            st.drop_last().push(bool_value(payload_of(x.arg_type, a.v) == 0)),
                        ),
                    ),
                )
            }
        },
        Instruction::IUnOp(x) => if n == 0 {
            Some(Outcome::Fail)
        } else {
            let a = st.last();
            if a.t != x.result_type || !(x.result_type == PrimitiveType::I32 || x.result_type
                == PrimitiveType::I64) {
                Some(Outcome::Fail)
            } else {
                let v = if x.result_type == PrimitiveType::I32 {
                    iunop32(x.op_type, a.v as u32) as u64
                } else {
                    iunop64(x.op_type, a.v)
                };
                Some(
                    Outcome::Done(
                        cont,
                        with_stack(s, st.drop_last().push(Value { t: x.result_type, v })),
                    ),
                )
            }
        },
        Instruction::FUnOp(x) => if n == 0 {
            Some(Outcome::Fail)
        } else {
            let a = st.last();
            if a.t != x.result_type || !(x.result_type == PrimitiveType::F32 || x.result_type
                == PrimitiveType::F64) {
                Some(Outcome::Fail)
            } else {
                let v = if x.result_type == PrimitiveType::F32 {
                    float.f32_unop_spec(x.op_type, a.v as u32) as u64
                } else {
                    float.f64_unop_spec(x.op_type, a.v)
                };
                Some(
                    Outcome::Done(
                        cont,
                        with_stack(s, st.drop_last().push(Value { t: x.result_type, v })),
                    ),
                )
            }
        },
        Instruction::CvtOp(x) => if n == 0 {
            Some(Outcome::Fail)
        } else {
            let a = st.last();
            if a.t != cvt_source(x.op_type) {
                Some(Outcome::Fail)
            } else {
                match cvt_bits(x.op_type, a.v) {
                    Some(v) => Some(
                        Outcome::Done(
                            cont,
                            with_stack(
                                s,
                                st.drop_last().push(
                                    Value {
                                        t: cvt_result(x.op_type),
                                        v: payload_of(cvt_result(x.op_type), v),
                                    },
                                ),
                            ),
                        ),
                    ),
                    None => Some(
                        Outcome::Done(
                            cont,
                            with_stack(
                                s,
                                st.drop_last().push(
                                    Value {
                                        t: cvt_result(x.op_type),
                                        v: payload_of(
                                            cvt_result(x.op_type),
                                            float.convert_spec(x.op_type, a.v),
                                        ),
                                    },
                                ),
                            ),
                        ),
                    ),
                }
            }
        },
        Instruction::LocalGet(x) => if x.index < s.locals.len() {
            Some(Outcome::Done(cont, with_stack(s, st.push(s.locals[x.index as int]))))
        } else {
            Some(Outcome::Fail)
        },
        Instruction::LocalSet(x) => if x.index < s.locals.len() && n > 0 {
            Some(
                Outcome::Done(
                    cont,
                    ExecState {
                        stack: st.drop_last(),
                        locals: s.locals.update(x.index as int, st.last()),
                        mem: s.mem,
                    },
                ),
            )
        } else {
            Some(Outcome::Fail)
        },
        Instruction::LocalTee(x) => if x.index < s.locals.len() && n > 0 {
            Some(
                Outcome::Done(
                    cont,
                    ExecState { locals: s.locals.update(x.index as int, st.last()), ..s },
                ),
            )
        } else {
            Some(Outcome::Fail)
        },
        Instruction::Load(x) => if n == 0 || st.last().t != PrimitiveType::I32
            || x.load_bitwidth % 8 != 0 || x.load_bitwidth > 64 {
            Some(Outcome::Fail)
        } else {
            let a = st.last().v as u32 as int + x.offset;
            let w = (x.load_bitwidth / 8) as nat;
            if in_bounds(s.mem.pages, a, w) {
                let v = payload_of(x.result_type, le_value(s.mem.bytes, a, w) as u64);
                Some(
                    Outcome::Done(
                        cont,
                        with_stack(s, st.drop_last().push(Value { t: x.result_type, v })),
                    ),
                )
            } else {
                Some(
                    Outcome::Done(
                        ControlInfo::Trap(Trap::MemoryOutOfBounds),
                        with_stack(s, st.drop_last()),
                    ),
                )
            }
        },
        Instruction::Store(x) => if n < 2 || top_two(st).0.t != PrimitiveType::I32 || x.bitwidth
            % 8 != 0 || x.bitwidth > 64 {
            Some(Outcome::Fail)
        } else {
            let (addr, value) = top_two(st);
            let a = addr.v as u32 as int + x.offset;
            if in_bounds(s.mem.pages, a, (x.bitwidth / 8) as nat) {
                Some(
                    Outcome::Done(
                        cont,
                        ExecState {
                            stack: pop_two(st),
                            locals: s.locals,
                            mem: MemoryView {
                                bytes: store_bytes(s.mem.bytes, value.v, x.bitwidth, a as u64),
                                ..s.mem
                            },
                        },
                    ),
                )
            } else {
                Some(
                    Outcome::Done(
                        ControlInfo::Trap(Trap::MemoryOutOfBounds),
                        with_stack(s, pop_two(st)),
                    ),
                )
            }
        },
        Instruction::Branch(x) => Some(Outcome::Done(ControlInfo::Branch(x.branch_index), s)),
        Instruction::BranchIf(x) => if n == 0 {
            Some(Outcome::Fail)
        } else {
            let c = if st.last().v != 0 {
                ControlInfo::Branch(x.branch_index)
            } else {
                cont
            };
            Some(Outcome::Done(c, with_stack(s, st.drop_last())))
        },
        Instruction::Return(_) => Some(Outcome::Done(ControlInfo::Return, s)),
        Instruction::Call(_) => None,
        Instruction::Block(_) => None,
    }
}

/// Runs one instruction with `fuel` left: the outcome and the fuel left
/// after it. Entering a block or a call costs one unit.
pub open spec fn exec_instr<F: FloatOps>(
    float: &F,
    fns: Seq<Function>,
    i: Instruction,
    s: ExecState,
    fuel: nat,
) -> Option<(Outcome, nat)>
    decreases fuel, 0nat, 0nat,
{
    match i {
        Instruction::Call(c) => if fuel == 0 {
            Some((Outcome::Fail, 0))
        } else {
            exec_call(float, fns, c.function_index, s, (fuel - 1) as nat)
        },
        Instruction::Block(b) => if fuel == 0 {
            Some((Outcome::Fail, 0))
        } else {
            exec_block(float, fns, b.instructions@, b.continuation, s, (fuel - 1) as nat)
        },
        _ => match simple_step(float, i, s) {
            Some(o) => Some((o, fuel)),
            None => None,
        },
    }
}

/// Runs a body from index `idx` until an instruction hands out a signal
/// other than `Continue`, or to its end.
pub open spec fn exec_body<F: FloatOps>(float: &F, 
    fns: Seq<Function>,
    body: Seq<Instruction>,
    idx: nat,
    s: ExecState,
    fuel: nat,
) -> Option<(Outcome, nat)>
    decreases fuel, 1nat, body.len() - idx,
{
    if idx >= body.len() {
        Some((Outcome::Done(ControlInfo::Continue, s), fuel))
    } else {
        match exec_instr(float, fns, body[idx as int], s, fuel) {
            None => None,
            Some((Outcome::Fail, f)) => Some((Outcome::Fail, f)),
            Some((Outcome::Done(c, s2), f)) => if c == ControlInfo::Continue {
                if f > fuel {
                    None
                } else {
                    exec_body(float, fns, body, idx + 1, s2, f)
                }
            } else {
                Some((Outcome::Done(c, s2), f))
            },
        }
    }
}

/// Runs a structured block: every run of its body costs one unit of fuel.
pub open spec fn exec_block<F: FloatOps>(float: &F, 
    fns: Seq<Function>,
    body: Seq<Instruction>,
    continuation: BlockContinuation,
    s: ExecState,
    fuel: nat,
) -> Option<(Outcome, nat)>
    decreases fuel, 2nat, 0nat,
{
    if fuel == 0 {
        Some((Outcome::Fail, 0))
    } else {
        match exec_body(float, fns, body, 0, s, (fuel - 1) as nat) {
            None => None,
            Some((Outcome::Fail, f)) => Some((Outcome::Fail, f)),
            Some((Outcome::Done(c, s2), f)) => if c == ControlInfo::Continue {
                Some((Outcome::Done(c, s2), f))
            } else {
                match block_outcome(continuation, c) {
                    None => if f >= fuel {
                        None
                    } else {
                        exec_block(float, fns, body, continuation, s2, f)
                    },
                    Some(out) => Some((Outcome::Done(out, s2), f)),
                }
            },
        }
    }
}

/// Whether `args` fit the parameters of `f`, and `f` has one result.
pub open spec fn callable(f: Function, args: Seq<Value>) -> bool {
    &&& args.len() == f.ty.params@.len()
    &&& f.ty.results@.len() == 1
    &&& forall|k: int| 0 <= k < args.len() ==> args[k].t == f.ty.params@[k]
}

/// Runs function `f` on `args` with a fresh stack, and locals that hold the
/// arguments and then the declared locals.
pub open spec fn exec_invoke<F: FloatOps>(float: &F, 
    fns: Seq<Function>,
    f: Function,
    args: Seq<Value>,
    mem: MemoryView,
    fuel: nat,
) -> Option<(CallOutcome, nat)>
    decreases fuel, 3nat, 0nat,
{
    if !callable(f, args) {
        Some((CallOutcome::Fail, fuel))
    } else {
        let s = ExecState { stack: Seq::empty(), locals: args + f.locals@, mem };
        match exec_block(float, fns, f.instructions@, BlockContinuation::Branch, s, fuel) {
            None => None,
            Some((Outcome::Fail, fl)) => Some((CallOutcome::Fail, fl)),
            Some((Outcome::Done(c, s2), fl)) => match c {
                ControlInfo::Trap(k) => Some((CallOutcome::Trapped(k, s2.mem), fl)),
                ControlInfo::Branch(_) => Some((CallOutcome::Fail, fl)),
                _ => if s2.stack.len() != 1 {
                    Some((CallOutcome::Unbalanced, fl))
                } else if s2.stack[0].t == f.ty.results@[0] {
                    Some((CallOutcome::Returned(s2.stack[0], s2.mem), fl))
                } else {
                    Some((CallOutcome::Fail, fl))
                },
            },
        }
    }
}

/// Calls function `idx`: its arguments are the top values of the stack, the
/// last one on top; they are replaced by its result.
pub open spec fn exec_call<F: FloatOps>(
    float: &F,
    fns: Seq<Function>,
    idx: usize,
    s: ExecState,
    fuel: nat,
) -> Option<(Outcome, nat)>
    decreases fuel, 4nat, 0nat,
{
    if idx >= fns.len() {
        Some((Outcome::Fail, fuel))
    } else {
        let callee = fns[idx as int];
        let n = callee.ty.params@.len();
        if s.stack.len() < n {
            Some((Outcome::Fail, fuel))
        } else {
            let below = s.stack.subrange(0, s.stack.len() - n);
            let args = s.stack.subrange(s.stack.len() - n, s.stack.len() as int);
            match exec_invoke(float, fns, callee, args, s.mem, fuel) {
                None => None,
                Some((CallOutcome::Fail, f)) => Some((Outcome::Fail, f)),
                Some((CallOutcome::Unbalanced, f)) => Some((Outcome::Fail, f)),
                Some((CallOutcome::Returned(v, m), f)) => Some(
                    (
                        Outcome::Done(
                            ControlInfo::Continue,
                            ExecState { stack: below.push(v), locals: s.locals, mem: m },
                        ),
                        f,
                    ),
                ),
                Some((CallOutcome::Trapped(k, m), f)) => Some(
                    (
                        Outcome::Done(
                            ControlInfo::Trap(k),
                            ExecState { stack: below, locals: s.locals, mem: m },
                        ),
                        f,
                    ),
                ),
            }
        }
    }
}

/// A call that returns had left exactly one value on its own stack, its
/// result, which has the declared result type: popping it leaves the stack
/// empty.
pub proof fn lemma_result_balance<F: FloatOps>(
    float: &F,
    fns: Seq<Function>,
    f: Function,
    args: Seq<Value>,
    mem: MemoryView,
    fuel: nat,
)
    ensures
        exec_invoke(float, fns, f, args, mem, fuel) matches Some((CallOutcome::Returned(v, m), _))
            ==> {
            &&& callable(f, args)
            &&& v.t == f.ty.results@[0]
            &&& exec_block(float, 
                fns,
                f.instructions@,
                BlockContinuation::Branch,
                ExecState { stack: Seq::empty(), locals: args + f.locals@, mem },
                fuel,
            ) matches Some((Outcome::Done(_, s2), _))
            &&& s2.stack == seq![v]
            &&& s2.stack.drop_last().len() == 0
            &&& s2.mem == m
        },
{
    let s = ExecState { stack: Seq::empty(), locals: args + f.locals@, mem };
    if callable(f, args) {
        if let Some((Outcome::Done(_, s2), _)) = exec_block(float, 
            fns,
            f.instructions@,
            BlockContinuation::Branch,
            s,
            fuel,
        ) {
            if s2.stack.len() == 1 {
                assert(s2.stack =~= seq![s2.stack[0]]);
            }
        }
    }
}

/// A callee sees nothing of its caller's frame but its arguments: two
/// callers whose stacks end in the same arguments, and that share the
/// memory, get the same outcome from the call; each keeps its locals and
/// the rest of its stack, and finds the same result on top.
pub proof fn lemma_call_isolation<F: FloatOps>(
    float: &F,
    fns: Seq<Function>,
    idx: usize,
    s: ExecState,
    t: ExecState,
    fuel: nat,
)
    requires
        idx < fns.len(),
        fns[idx as int].ty.params@.len() <= s.stack.len(),
        fns[idx as int].ty.params@.len() <= t.stack.len(),
        s.stack.subrange(s.stack.len() - fns[idx as int].ty.params@.len(), s.stack.len() as int)
            == t.stack.subrange(
            t.stack.len() - fns[idx as int].ty.params@.len(),
            t.stack.len() as int,
        ),
        s.mem == t.mem,
    ensures
        exec_call(float, fns, idx, s, fuel) matches Some((Outcome::Done(c, s2), f)) ==> {
            let n = fns[idx as int].ty.params@.len();
            &&& s2.locals == s.locals
            &&& s2.stack.subrange(0, s.stack.len() - n) == s.stack.subrange(0, s.stack.len() - n)
            &&& exec_call(float, fns, idx, t, fuel) matches Some((Outcome::Done(c2, t2), f2))
            &&& c2 == c && f2 == f && t2.mem == s2.mem && t2.locals == t.locals
            &&& t2.stack.subrange(0, t.stack.len() - n) == t.stack.subrange(0, t.stack.len() - n)
            &&& c == ControlInfo::Continue ==> t2.stack.last() == s2.stack.last()
        },
        exec_call(float, fns, idx, s, fuel) matches Some((Outcome::Fail, _)) ==> exec_call(float, 
            fns,
            idx,
            t,
            fuel,
        ) matches Some((Outcome::Fail, _)),
{
    let n = fns[idx as int].ty.params@.len();
    let below_s = s.stack.subrange(0, s.stack.len() - n);
    let below_t = t.stack.subrange(0, t.stack.len() - n);
    assert forall|v: Value| #[trigger] below_s.push(v).subrange(0, s.stack.len() - n) == below_s by {
        assert(below_s.push(v).subrange(0, s.stack.len() - n) =~= below_s);
    }
    assert forall|v: Value| #[trigger] below_t.push(v).subrange(0, t.stack.len() - n) == below_t by {
        assert(below_t.push(v).subrange(0, t.stack.len() - n) =~= below_t);
    }
    assert(below_s.subrange(0, s.stack.len() - n) =~= below_s);
    assert(below_t.subrange(0, t.stack.len() - n) =~= below_t);
}

proof fn lemma_instr_defined<F: FloatOps>(
    float: &F,
    fns: Seq<Function>,
    i: Instruction,
    s: ExecState,
    fuel: nat,
)
    ensures
        exec_instr(float, fns, i, s, fuel) matches Some((_, f)) && f <= fuel,
    decreases fuel, 0nat, 0nat,
{
    match i {
        Instruction::Call(c) => {
            if fuel > 0 {
                lemma_call_defined(float, fns, c.function_index, s, (fuel - 1) as nat);
            }
        },
        Instruction::Block(b) => {
            if fuel > 0 {
                lemma_block_defined(float, fns, b.instructions@, b.continuation, s, (fuel - 1) as nat);
            }
        },
        _ => {},
    }
}

proof fn lemma_body_defined<F: FloatOps>(
    float: &F,
    fns: Seq<Function>,
    body: Seq<Instruction>,
    idx: nat,
    s: ExecState,
    fuel: nat,
)
    ensures
        exec_body(float, fns, body, idx, s, fuel) matches Some((_, f)) && f <= fuel,
    decreases fuel, 1nat, body.len() - idx,
{
    if idx < body.len() {
        lemma_instr_defined(float, fns, body[idx as int], s, fuel);
        if let Some((Outcome::Done(c, s2), f)) = exec_instr(float, fns, body[idx as int], s, fuel) {
            if c == ControlInfo::Continue {
                lemma_body_defined(float, fns, body, idx + 1, s2, f);
            }
        }
    }
}

proof fn lemma_block_defined<F: FloatOps>(
    float: &F,
    fns: Seq<Function>,
    body: Seq<Instruction>,
    continuation: BlockContinuation,
    s: ExecState,
    fuel: nat,
)
    ensures
        exec_block(float, fns, body, continuation, s, fuel) matches Some((_, f)) && f <= fuel,
    decreases fuel, 2nat, 0nat,
{
    if fuel > 0 {
        lemma_body_defined(float, fns, body, 0, s, (fuel - 1) as nat);
        if let Some((Outcome::Done(c, s2), f)) = exec_body(float, fns, body, 0, s, (fuel - 1) as nat) {
            if c != ControlInfo::Continue && block_outcome(continuation, c) is None {
                lemma_block_defined(float, fns, body, continuation, s2, f);
            }
        }
    }
}

proof fn lemma_invoke_defined<F: FloatOps>(
    float: &F,
    fns: Seq<Function>,
    f: Function,
    args: Seq<Value>,
    mem: MemoryView,
    fuel: nat,
)
    ensures
        exec_invoke(float, fns, f, args, mem, fuel) matches Some((_, fl)) && fl <= fuel,
    decreases fuel, 3nat, 0nat,
{
    if callable(f, args) {
        let s = ExecState { stack: Seq::empty(), locals: args + f.locals@, mem };
        lemma_block_defined(float, fns, f.instructions@, BlockContinuation::Branch, s, fuel);
    }
}

proof fn lemma_call_defined<F: FloatOps>(
    float: &F,
    fns: Seq<Function>,
    idx: usize,
    s: ExecState,
    fuel: nat,
)
    ensures
        exec_call(float, fns, idx, s, fuel) matches Some((_, f)) && f <= fuel,
    decreases fuel, 4nat, 0nat,
{
    if idx < fns.len() {
        let callee = fns[idx as int];
        let n = callee.ty.params@.len();
        if s.stack.len() >= n {
            let args = s.stack.subrange(s.stack.len() - n, s.stack.len() as int);
            lemma_invoke_defined(float, fns, callee, args, s.mem, fuel);
        }
    }
}

/// Every run has an outcome: within its fuel, a call ends in a result, a
/// trap or an error.
pub proof fn lemma_run_defined<F: FloatOps>(
    float: &F,
    fns: Seq<Function>,
    f: Function,
    args: Seq<Value>,
    mem: MemoryView,
    fuel: nat,
)
    ensures
        exec_invoke(float, fns, f, args, mem, fuel) is Some,
{
    lemma_invoke_defined(float, fns, f, args, mem, fuel);
}

/// Whether an executed step ended as `o` says: with an error where it
/// fails, else with its signal and state.
pub open spec fn matches_outcome(
    o: Outcome,
    r: Result<ControlInfo, Error>,
    stack: Seq<Value>,
    locals: Seq<Value>,
    mem: MemoryView,
) -> bool {
    match o {
        Outcome::Fail => r is Err && !is_trap_error(r),
        Outcome::Done(c, s) => r == Ok::<ControlInfo, Error>(c) && stack == s.stack && locals
            == s.locals && mem == s.mem,
    }
}

/// Whether a call ended as `o` says.
pub open spec fn matches_call(o: CallOutcome, r: Result<Value, Error>, mem: MemoryView) -> bool {
    match o {
        CallOutcome::Fail => r is Err && !is_trap_error(r),
        CallOutcome::Unbalanced => r == Err::<Value, Error>(Error::StackViolation),
        CallOutcome::Returned(v, m) => r == Ok::<Value, Error>(v) && mem == m,
        CallOutcome::Trapped(k, m) => r == Err::<Value, Error>(Error::Trap(k)) && mem == m,
    }
}

/// What a block does when its body hands it `c`: `None` to run the body
/// again, else the signal it hands on to the blocks around it.
pub fn block_exit(continuation: BlockContinuation, c: ControlInfo) -> (r: Option<ControlInfo>)
    ensures
        r == block_outcome(continuation, c),
{
    match c {
        ControlInfo::Branch(d) => {
            if d == 0 {
                match continuation {
                    BlockContinuation::Loop => None,
                    BlockContinuation::Branch => Some(ControlInfo::Continue),
                }
            } else {
                Some(ControlInfo::Branch(d - 1))
            }
        },
        _ => Some(c),
    }
}

/// The result of a function whose body has run: the one value left on the
/// stack, which must have the declared result type.
pub fn finish_call(stack: &mut Stack, result_type: PrimitiveType) -> (r: Result<Value, Error>)
    ensures
        !is_trap_error(r),
        r is Ok <==> old(stack)@.len() == 1 && old(stack)@[0].t == result_type,
        old(stack)@.len() != 1 ==> r == Err::<Value, Error>(Error::StackViolation),
        old(stack)@.len() == 1 && old(stack)@[0].t != result_type ==> r matches Err(
            Error::Misc(_),
        ),
        r is Ok ==> r->Ok_0 == old(stack)@[0] && final(stack)@.len() == 0,
{
    let ret = stack.pop_value()?;
    stack.assert_empty()?;
    if ret.t != result_type {
        return Err(Error::Misc("Result type mismatch"));
    }
    Ok(ret)
}

/// The state that an activation with these parts is in.
pub open spec fn state_of(stack: Seq<Value>, locals: Seq<Value>, mem: MemoryView) -> ExecState {
    ExecState { stack, locals, mem }
}

/// Runs a structured block until its body falls through, branches out of
/// it, returns or traps. Every run of the body costs one unit of fuel.
fn run_block<F: FloatOps>(
    body: &Vec<Instruction>,
    continuation: BlockContinuation,
    stack: &mut Stack,
    memory: &mut Memory,
    locals: &mut Vec<Value>,
    functions: &Vec<Function>,
    float: &F,
    fuel: u64,
) -> (r: (Result<ControlInfo, Error>, u64))
    ensures
        r.1 <= fuel,
        final(locals)@.len() == old(locals)@.len(),
        old(memory).wf() ==> final(memory).wf(),
        r.0 matches Ok(c) ==> c == ControlInfo::Continue || exists|s: ControlInfo|
            block_outcome(continuation, s) == Some(c),
        !is_trap_error(r.0),
        exec_block(float, 
            functions@,
            body@,
            continuation,
            state_of(old(stack)@, old(locals)@, old(memory)@),
            fuel as nat,
        ) matches Some((o, f)) ==> matches_outcome(
            o,
            r.0,
            final(stack)@,
            final(locals)@,
            final(memory)@,
        ) && (o is Done ==> r.1 == f),
    decreases fuel, 1nat,
{
    let ghost total = exec_block(float, 
        functions@,
        body@,
        continuation,
        state_of(stack@, locals@, memory@),
        fuel as nat,
    );
    let mut fuel_left = fuel;
    loop
        invariant
            fuel_left <= fuel,
            locals@.len() == old(locals)@.len(),
            old(memory).wf() ==> memory.wf(),
            total == exec_block(float, 
                functions@,
                body@,
                continuation,
                state_of(old(stack)@, old(locals)@, old(memory)@),
                fuel as nat,
            ),
            total is Some ==> total == exec_block(float, 
                functions@,
                body@,
                continuation,
                state_of(stack@, locals@, memory@),
                fuel_left as nat,
            ),
        decreases fuel_left,
    {
        if fuel_left == 0 {
            return (Err(Error::OutOfFuel), 0);
        }
        let ghost block_fuel = fuel_left;
        fuel_left = fuel_left - 1;
        let ghost start = fuel_left;
        let ghost s0 = state_of(stack@, locals@, memory@);
        let ghost body_total = exec_body(float, functions@, body@, 0, s0, start as nat);
        let mut i: usize = 0;
        let mut restart = false;
        while i < body.len() && !restart
            invariant
                i <= body@.len(),
                fuel_left <= start,
                start < fuel,
                block_fuel == start + 1,
                block_fuel <= fuel,
                locals@.len() == old(locals)@.len(),
                old(memory).wf() ==> memory.wf(),
                total == exec_block(float, 
                    functions@,
                    body@,
                    continuation,
                    state_of(old(stack)@, old(locals)@, old(memory)@),
                    fuel as nat,
                ),
                total is Some ==> total == exec_block(float, 
                    functions@,
                    body@,
                    continuation,
                    s0,
                    block_fuel as nat,
                ),
                body_total == exec_body(float, functions@, body@, 0, s0, start as nat),
                !restart ==> (body_total is Some ==> body_total == exec_body(float, 
                    functions@,
                    body@,
                    i as nat,
                    state_of(stack@, locals@, memory@),
                    fuel_left as nat,
                )),
                restart ==> (total is Some ==> total == exec_block(float, 
                    functions@,
                    body@,
                    continuation,
                    state_of(stack@, locals@, memory@),
                    fuel_left as nat,
                )),
            decreases body.len() - i, if restart {
                0int
            } else {
                1int
            },
        {
            let ghost before = state_of(stack@, locals@, memory@);
            let ghost fuel_before = fuel_left;
            let (res, f) = execute_instruction(
                &body[i],
                stack,
                memory,
                locals,
                functions,
                float,
                fuel_left,
            );
            fuel_left = f;
            match res {
                Err(e) => {
                    return (Err(e), fuel_left);
                },
                Ok(ControlInfo::Continue) => {
                    i = i + 1;
                },
                Ok(c) => {
                    match block_exit(continuation, c) {
                        None => {
                            restart = true;
                        },
                        Some(out) => {
                            return (Ok(out), fuel_left);
                        },
                    }
                },
            }
        }
        if !restart {
            return (Ok(ControlInfo::Continue), fuel_left);
        }
    }
}

impl Block {
    /// Runs this block in a function activation: its body over and over
    /// while it is a loop that a branch restarts, until the body falls
    /// through, a branch leaves it, or it returns or traps. Every run of
    /// the body costs one unit of fuel.
    pub fn execute<F: FloatOps>(
        &self,
        stack: &mut Stack,
        memory: &mut Memory,
        locals: &mut Vec<Value>,
        functions: &Vec<Function>,
        float: &F,
        fuel: u64,
    ) -> (r: (Result<ControlInfo, Error>, u64))
        ensures
            r.1 <= fuel,
            final(locals)@.len() == old(locals)@.len(),
            old(memory).wf() ==> final(memory).wf(),
            !is_trap_error(r.0),
            exec_block(float, 
                functions@,
                self.instructions@,
                self.continuation,
                state_of(old(stack)@, old(locals)@, old(memory)@),
                fuel as nat,
            ) matches Some((o, f)) ==> matches_outcome(
                o,
                r.0,
                final(stack)@,
                final(locals)@,
                final(memory)@,
            ) && (o is Done ==> r.1 == f),
    {
        run_block(&self.instructions, self.continuation, stack, memory, locals, functions, float, fuel)
    }
}

/// Runs a function on `args` with a fresh value stack and fresh locals: the
/// arguments, then the declared locals at their initial values.
fn invoke<F: FloatOps>(
    func: &Function,
    functions: &Vec<Function>,
    memory: &mut Memory,
    args: Vec<Value>,
    float: &F,
    fuel: u64,
) -> (r: (Result<Value, Error>, u64))
    ensures
        r.1 <= fuel,
        old(memory).wf() ==> final(memory).wf(),
        !callable(*func, args@) ==> r.0 is Err,
        r.0 is Ok ==> func.ty.results@.len() == 1 && r.0->Ok_0.t == func.ty.results@[0],
        exec_invoke(float, functions@, *func, args@, old(memory)@, fuel as nat) matches Some((o, f))
            ==> matches_call(o, r.0, final(memory)@) && (!(o is Fail) ==> r.1 == f),
    decreases fuel, 2nat,
{
    if args.len() != func.ty.params.len() {
        return (Err(Error::Misc("Wrong number of arguments")), fuel);
    }
    if func.ty.results.len() != 1 {
        return (Err(Error::Misc("Only functions with one result can be called")), fuel);
    }
    let mut locals: Vec<Value> = Vec::new();
    let mut k: usize = 0;
    while k < args.len()
        invariant
            k <= args@.len(),
            args@.len() == func.ty.params@.len(),
            locals@ == args@.subrange(0, k as int),
            forall|j: int| 0 <= j < k ==> args@[j].t == func.ty.params@[j],
        decreases args@.len() - k,
    {
        if args[k].t != func.ty.params[k] {
            return (Err(Error::Misc("Argument type mismatch")), fuel);
        }
        locals.push(args[k]);
        k = k + 1;
        assert(locals@ =~= args@.subrange(0, k as int));
    }
    assert(callable(*func, args@));
    let mut j: usize = 0;
    while j < func.locals.len()
        invariant
            j <= func.locals@.len(),
            locals@ == args@ + func.locals@.subrange(0, j as int),
        decreases func.locals@.len() - j,
    {
        locals.push(func.locals[j]);
        j = j + 1;
        assert(locals@ =~= args@ + func.locals@.subrange(0, j as int));
    }
    assert(locals@ =~= args@ + func.locals@);
    let mut stack = Stack::new();
    let (res, fuel_left) = run_block(
        &func.instructions,
        BlockContinuation::Branch,
        &mut stack,
        memory,
        &mut locals,
        functions,
        float,
        fuel,
    );
    match res {
        Err(e) => (Err(e), fuel_left),
        Ok(ControlInfo::Trap(k)) => (Err(Error::Trap(k)), fuel_left),
        Ok(ControlInfo::Branch(_)) => (
            Err(Error::Misc("Branch depth exceeds the enclosing blocks")),
            fuel_left,
        ),
        Ok(_) => (finish_call(&mut stack, func.ty.results[0]), fuel_left),
    }
}

impl Call {
    /// Calls the function at the index: pops its arguments (the last one on
    /// top) and runs the callee on a value stack and locals of its own, so that
    /// it sees nothing of the caller's but the arguments and the shared memory.
    /// Its one result is pushed; the rest of the caller's stack is as it was.
    pub fn execute<F: FloatOps>(
        &self,
        stack: &mut Stack,
        memory: &mut Memory,
        functions: &Vec<Function>,
        float: &F,
        fuel: u64,
    ) -> (r: (Result<ControlInfo, Error>, u64))
        ensures
            r.1 <= fuel,
            old(memory).wf() ==> final(memory).wf(),
            self.function_index >= functions@.len() ==> r.0 is Err,
            !is_trap_error(r.0),
            r.0 is Ok ==> self.function_index < functions@.len() && {
                let callee = functions@[self.function_index as int];
                let n = callee.ty.params@.len();
                let below = old(stack)@.subrange(0, old(stack)@.len() - n);
                &&& n <= old(stack)@.len()
                &&& r.0 == Ok::<ControlInfo, Error>(ControlInfo::Continue) ==> (exists|v: Value|
                    #![trigger below.push(v)]
                    v.t == callee.ty.results@[0] && final(stack)@ == below.push(v))
                &&& r.0 != Ok::<ControlInfo, Error>(ControlInfo::Continue) ==> (r.0 matches Ok(
                    ControlInfo::Trap(_),
                )) && final(stack)@ == below
            },
            exec_call(float, 
                functions@,
                self.function_index,
                state_of(old(stack)@, Seq::empty(), old(memory)@),
                fuel as nat,
            ) matches Some((o, f)) ==> matches_outcome(
                o,
                r.0,
                final(stack)@,
                Seq::empty(),
                final(memory)@,
            ) && (o is Done ==> r.1 == f),
        decreases fuel, 3nat,
    {
        if self.function_index >= functions.len() {
            return (Err(Error::Misc("Call to a function that does not exist")), fuel);
        }
        let callee = &functions[self.function_index];
        let n = callee.num_params();
        if stack.len() < n {
            return (Err(Error::StackViolation), fuel);
        }
        let ghost old_stack = stack@;
        let ghost len = old_stack.len();
        let mut popped: Vec<Value> = Vec::new();
        let mut k: usize = 0;
        while k < n
            invariant
                k <= n,
                n <= old_stack.len(),
                len == old_stack.len(),
                stack@ == old_stack.subrange(0, len - k),
                popped@.len() == k,
                forall|j: int| 0 <= j < k ==> popped@[j] == old_stack[len - 1 - j],
            decreases n - k,
        {
            let v = stack.pop_value();
            match v {
                Ok(v) => popped.push(v),
                Err(e) => return (Err(e), fuel),
            }
            k = k + 1;
            assert(stack@ =~= old_stack.subrange(0, len - k));
        }
        let mut args: Vec<Value> = Vec::new();
        let mut j: usize = n;
        while j > 0
            invariant
                j <= n,
                n <= len,
                len == old_stack.len(),
                popped@.len() == n,
                forall|i: int| 0 <= i < n ==> popped@[i] == old_stack[len - 1 - i],
                args@ == old_stack.subrange(len - n, len - j),
            decreases j,
        {
            j = j - 1;
            let ghost prev = args@;
            args.push(popped[j]);
            assert(popped@[j as int] == old_stack[len - 1 - j]);
            assert(args@ == prev.push(old_stack[len - 1 - j]));
            let ghost target = old_stack.subrange(len - n, len - j);
            assert(target.len() == args@.len());
            assert forall|m: int| 0 <= m < args@.len() implies args@[m] == target[m] by {
                if m < prev.len() {
                    assert(prev[m] == old_stack.subrange(len - n, len - j - 1)[m]);
                }
            }
            assert(args@ =~= target);
        }
        assert(args@ =~= old_stack.subrange(len - n, len as int));
        let (res, fuel_left) = invoke(callee, functions, memory, args, float, fuel);
        match res {
            Ok(v) => {
                stack.push_value(v);
                (Ok(ControlInfo::Continue), fuel_left)
            },
            Err(Error::Trap(k)) => (Ok(ControlInfo::Trap(k)), fuel_left),
            Err(e) => (Err(e), fuel_left),
        }
    }
}

/// Executes one instruction. Entering a block or a call costs one unit of
/// fuel.
fn execute_instruction<F: FloatOps>(
    inst: &Instruction,
    stack: &mut Stack,
    memory: &mut Memory,
    locals: &mut Vec<Value>,
    functions: &Vec<Function>,
    float: &F,
    fuel: u64,
) -> (r: (Result<ControlInfo, Error>, u64))
    ensures
        r.1 <= fuel,
        final(locals)@.len() == old(locals)@.len(),
        old(memory).wf() ==> final(memory).wf(),
        inst is Call ==> final(locals)@ == old(locals)@,
        !is_trap_error(r.0),
        exec_instr(
            float,
            functions@,
            *inst,
            state_of(old(stack)@, old(locals)@, old(memory)@),
            fuel as nat,
        )
            matches Some((o, f)) ==> matches_outcome(
            o,
            r.0,
            final(stack)@,
            final(locals)@,
            final(memory)@,
        ) && (o is Done ==> r.1 == f),
    decreases fuel, 0nat,
{
    let ghost s = state_of(stack@, locals@, memory@);
    match inst {
        Instruction::Const(i) => (i.execute(stack), fuel),
        Instruction::IBinOp(i) => (i.execute(stack), fuel),
        Instruction::FBinOp(i) => {
            let r = i.execute(stack, float);
            proof {
                if old(stack)@.len() >= 2 && r is Ok {
                    let x = stack@.last();
                    assert(stack@ =~= pop_two(old(stack)@).push(x));
                }
            }
            (r, fuel)
        },
        Instruction::RelOp(i) => (i.execute(stack, float), fuel),
        Instruction::ITestOpEqz(i) => (i.execute(stack), fuel),
        Instruction::IUnOp(i) => (i.execute(stack), fuel),
        Instruction::FUnOp(i) => {
            let r = i.execute(stack, float);
            proof {
                if old(stack)@.len() > 0 && r is Ok {
                    let x = stack@.last();
                    assert(stack@ =~= old(stack)@.drop_last().push(x));
                }
            }
            (r, fuel)
        },
        Instruction::CvtOp(i) => {
            let r = i.execute(stack, float);
            proof {
                if old(stack)@.len() > 0 && r is Ok {
                    let x = stack@.last();
                    assert(stack@ =~= old(stack)@.drop_last().push(x));
                }
            }
            (r, fuel)
        },
        Instruction::LocalGet(i) => (i.execute(stack, locals), fuel),
        Instruction::LocalSet(i) => (i.execute(stack, locals), fuel),
        Instruction::LocalTee(i) => (i.execute(stack, locals), fuel),
        Instruction::Load(i) => (i.execute(stack, memory), fuel),
        Instruction::Store(i) => (i.execute(stack, memory), fuel),
        Instruction::Branch(i) => (i.execute(), fuel),
        Instruction::BranchIf(i) => (i.execute(stack), fuel),
        Instruction::Return(i) => (i.execute(), fuel),
        Instruction::Call(i) => {
            if fuel == 0 {
                return (Err(Error::OutOfFuel), 0);
            }
            i.execute(stack, memory, functions, float, fuel - 1)
        },
        Instruction::Block(b) => {
            if fuel == 0 {
                return (Err(Error::OutOfFuel), 0);
            }
            run_block(
                &b.instructions,
                b.continuation,
                stack,
                memory,
                locals,
                functions,
                float,
                fuel - 1,
            )
        },
    }
}

/// Calls `func` on `args`, with `memory` shared and `functions` as the
/// targets of its calls. The result has the function's declared result
/// type. `fuel` bounds the number of blocks entered, loop iterations and
/// calls made; `Error::OutOfFuel` reports that it ran out. Its outcome is
/// the one `exec_invoke` describes, with `float` for float arithmetic.
pub fn call_function<F: FloatOps>(
    func: &Function,
    functions: &Vec<Function>,
    memory: &mut Memory,
    args: Vec<Value>,
    float: &F,
    fuel: u64,
) -> (r: Result<Value, Error>)
    ensures
        old(memory).wf() ==> final(memory).wf(),
        !callable(*func, args@) ==> r is Err,
        r is Ok ==> func.ty.results@.len() == 1 && r->Ok_0.t == func.ty.results@[0],
        exec_invoke(float, functions@, *func, args@, old(memory)@, fuel as nat) matches Some((o, _))
            ==> matches_call(o, r, final(memory)@),
        exec_invoke(float, functions@, *func, args@, old(memory)@, fuel as nat) is Some,
{
    proof {
        lemma_run_defined(float, functions@, *func, args@, memory@, fuel as nat);
    }
    invoke(func, functions, memory, args, float, fuel).0
}

// ---------------------------------------------------------------------------
// Laws of the integer operations
// ---------------------------------------------------------------------------

proof fn lemma_u32_cast_is_mod(x: i32)
    ensures
        (x as u32) as int == (x as int) % 0x1_0000_0000,
{
    if x >= 0 {
        assert(x >= 0 ==> (x as u32) as i64 == x as i64) by (bit_vector);
        vstd::arithmetic::div_mod::lemma_small_mod(x as nat, 0x1_0000_0000);
    } else {
        assert(x < 0 ==> (x as u32) as i64 == (x as i64) + 0x1_0000_0000) by (bit_vector);
        vstd::arithmetic::div_mod::lemma_mod_add_multiples_vanish(x as int, 0x1_0000_0000);
        vstd::arithmetic::div_mod::lemma_small_mod((x + 0x1_0000_0000) as nat, 0x1_0000_0000);
    }
}

proof fn lemma_u64_cast_is_mod(x: i64)
    ensures
        (x as u64) as int == (x as int) % 0x1_0000_0000_0000_0000,
{
    if x >= 0 {
        assert(x >= 0 ==> (x as u64) as i128 == x as i128) by (bit_vector);
        vstd::arithmetic::div_mod::lemma_small_mod(x as nat, 0x1_0000_0000_0000_0000);
    } else {
        assert(x < 0 ==> (x as u64) as i128 == (x as i128) + 0x1_0000_0000_0000_0000) by (bit_vector);
        vstd::arithmetic::div_mod::lemma_mod_add_multiples_vanish(
            x as int,
            0x1_0000_0000_0000_0000,
        );
        vstd::arithmetic::div_mod::lemma_small_mod(
            (x + 0x1_0000_0000_0000_0000) as nat,
            0x1_0000_0000_0000_0000,
        );
    }
}

/// Addition, subtraction and multiplication of 32-bit integers wrap: on any
/// two operands, read as two's-complement integers, the result is the exact
/// result taken modulo 2^32.
pub proof fn lemma_wrapping_arith32(x: i32, y: i32)
    ensures
        ibinop32(IBinOpType::Add, x as u32, y as u32) == Some(
            ((x + y) % 0x1_0000_0000int) as u32,
        ),
        ibinop32(IBinOpType::Sub, x as u32, y as u32) == Some(
            ((x - y) % 0x1_0000_0000int) as u32,
        ),
        ibinop32(IBinOpType::Mul, x as u32, y as u32) == Some(
            ((x * y) % 0x1_0000_0000int) as u32,
        ),
{
    let m: int = 0x1_0000_0000;
    lemma_u32_cast_is_mod(x);
    lemma_u32_cast_is_mod(y);
    vstd::arithmetic::div_mod::lemma_add_mod_noop(x as int, y as int, m);
    vstd::arithmetic::div_mod::lemma_sub_mod_noop(x as int, y as int, m);
    vstd::arithmetic::div_mod::lemma_mul_mod_noop_general(x as int, y as int, m);
}

/// Addition, subtraction and multiplication of 64-bit integers wrap: on any
/// two operands, read as two's-complement integers, the result is the exact
/// result taken modulo 2^64.
pub proof fn lemma_wrapping_arith64(x: i64, y: i64)
    ensures
        ibinop64(IBinOpType::Add, x as u64, y as u64) == Some(
            ((x + y) % 0x1_0000_0000_0000_0000int) as u64,
        ),
        ibinop64(IBinOpType::Sub, x as u64, y as u64) == Some(
            ((x - y) % 0x1_0000_0000_0000_0000int) as u64,
        ),
        ibinop64(IBinOpType::Mul, x as u64, y as u64) == Some(
            ((x * y) % 0x1_0000_0000_0000_0000int) as u64,
        ),
{
    let m: int = 0x1_0000_0000_0000_0000;
    lemma_u64_cast_is_mod(x);
    lemma_u64_cast_is_mod(y);
    vstd::arithmetic::div_mod::lemma_add_mod_noop(x as int, y as int, m);
    vstd::arithmetic::div_mod::lemma_sub_mod_noop(x as int, y as int, m);
    vstd::arithmetic::div_mod::lemma_mul_mod_noop_general(x as int, y as int, m);
}

/// Whether an operation is a shift or a rotation.
pub open spec fn is_shift(op: IBinOpType) -> bool {
    match op {
        IBinOpType::Shl | IBinOpType::Shr(_) | IBinOpType::Rotl | IBinOpType::Rotr => true,
        _ => false,
    }
}

/// A 32-bit shift or rotation by `k` is the same as one by `k mod 32`.
pub proof fn lemma_shift_modular32(op: IBinOpType, v: u32, k: u32)
    requires
        is_shift(op),
    ensures
        ibinop32(op, v, k) == ibinop32(op, v, k % 32),
{
    assert((k % 32) % 32 == k % 32);
}

/// A 64-bit shift or rotation by `k` is the same as one by `k mod 64`.
pub proof fn lemma_shift_modular64(op: IBinOpType, v: u64, k: u64)
    requires
        is_shift(op),
    ensures
        ibinop64(op, v, k) == ibinop64(op, v, k % 64),
{
    assert((k % 64) % 64 == k % 64);
}

/// Division and remainder by zero trap, and so does the signed division of
/// the least integer by -1; the signed remainder of that pair is 0.
pub proof fn lemma_division_traps(a: u64, s: Signedness)
    ensures
        ibinop32(IBinOpType::Div(s), a as u32, 0) is None,
        ibinop32(IBinOpType::Rem(s), a as u32, 0) is None,
        ibinop64(IBinOpType::Div(s), a, 0) is None,
        ibinop64(IBinOpType::Rem(s), a, 0) is None,
        ibinop32(IBinOpType::Div(Signedness::Signed), i32::MIN as u32, -1i32 as u32) is None,
        ibinop64(IBinOpType::Div(Signedness::Signed), i64::MIN as u64, -1i64 as u64) is None,
        ibinop32(IBinOpType::Rem(Signedness::Signed), i32::MIN as u32, -1i32 as u32) == Some(0u32),
        ibinop64(IBinOpType::Rem(Signedness::Signed), i64::MIN as u64, -1i64 as u64) == Some(0u64),
{
    assert((i32::MIN as u32) as i32 == i32::MIN) by (bit_vector);
    assert((-1i32 as u32) as i32 == -1i32) by (bit_vector);
    assert((i64::MIN as u64) as i64 == i64::MIN) by (bit_vector);
    assert((-1i64 as u64) as i64 == -1i64) by (bit_vector);
    assert(-1i32 as u32 != 0) by (bit_vector);
    assert(-1i64 as u64 != 0) by (bit_vector);
    lemma_div_trunc_matches(i32::MIN as int, -1);
    lemma_div_trunc_matches(i64::MIN as int, -1);
    assert((i32::MIN as int * -1) / (-1int * -1) == 0x8000_0000int / 1int);
    assert((i64::MIN as int * -1) / (-1int * -1) == 0x8000_0000_0000_0000int / 1int);
}

} // verus!
