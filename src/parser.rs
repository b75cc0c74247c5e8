use vstd::prelude::*;
use vstd::utf8::{decode_utf8, valid_utf8};

use crate::error::Error;
use crate::leb128::{parse_signed_leb128, parse_unsigned_leb128, sleb_decode, uleb_decode};
use crate::wasm::inst::{
    Block, BlockContinuation, Branch, BranchIf, Call, Const, CvtOp, CvtOpType, FBinOp, FBinOpType,
    FUnOp, FUnOpType, IBinOp, IBinOpType, ITestOpEqz, IUnOp, IUnOpType, Instruction, Load,
    LocalGet, LocalSet, LocalTee, RelOp, RelOpType, Return, Signedness, Store,
};
use crate::wasm::inst::Signedness::{Signed, Unsigned};
use crate::wasm::PrimitiveType::{F32, F64, I32, I64};
use crate::wasm::{
    le_value, pow256, unique_names, Export, Function, FunctionType, Memory, MemoryView, Module, ModuleView,
    PrimitiveType, Value,
};

verus! {

/// Relies on `String::from_utf8`: it accepts exactly the byte strings that
/// are valid UTF-8, and the string it returns holds the characters they
/// encode.
#[verifier::external_body]
fn utf8_string(bytes: Vec<u8>) -> (r: Option<String>)
    ensures
        match r {
            Some(s) => valid_utf8(bytes@) && s@ == decode_utf8(bytes@),
            None => !valid_utf8(bytes@),
        },
{
    match String::from_utf8(bytes) {
        Ok(s) => Some(s),
        Err(_) => None,
    }
}

/// The type that a value-type byte names.
pub open spec fn primitive_type_of(b: u8) -> Option<PrimitiveType> {
    if b == 0x7F {
        Some(PrimitiveType::I32)
    } else if b == 0x7E {
        Some(PrimitiveType::I64)
    } else if b == 0x7D {
        Some(PrimitiveType::F32)
    } else if b == 0x7C {
        Some(PrimitiveType::F64)
    } else {
        None
    }
}


// ---------------------------------------------------------------------------
// The opcode table of the numeric instructions
// ---------------------------------------------------------------------------

pub open spec fn ibinop_index(op: IBinOpType) -> u8 {
    match op {
        IBinOpType::Add => 0,
        IBinOpType::Sub => 1,
        IBinOpType::Mul => 2,
        IBinOpType::Div(Signedness::Signed) => 3,
        IBinOpType::Div(Signedness::Unsigned) => 4,
        IBinOpType::Rem(Signedness::Signed) => 5,
        IBinOpType::Rem(Signedness::Unsigned) => 6,
        IBinOpType::And => 7,
        IBinOpType::Or => 8,
        IBinOpType::Xor => 9,
        IBinOpType::Shl => 10,
        IBinOpType::Shr(Signedness::Signed) => 11,
        IBinOpType::Shr(Signedness::Unsigned) => 12,
        IBinOpType::Rotl => 13,
        IBinOpType::Rotr => 14,
    }
}

pub open spec fn iunop_index(op: IUnOpType) -> u8 {
    match op {
        IUnOpType::Clz => 0,
        IUnOpType::Ctz => 1,
        IUnOpType::Popcnt => 2,
    }
}

pub open spec fn irelop_index(op: RelOpType) -> u8 {
    match op {
        RelOpType::Eq => 0,
        RelOpType::Neq => 1,
        RelOpType::Lt(Signedness::Signed) => 2,
        RelOpType::Lt(Signedness::Unsigned) => 3,
        RelOpType::Gt(Signedness::Signed) => 4,
        RelOpType::Gt(Signedness::Unsigned) => 5,
        RelOpType::Le(Signedness::Signed) => 6,
        RelOpType::Le(Signedness::Unsigned) => 7,
        RelOpType::Ge(Signedness::Signed) => 8,
        RelOpType::Ge(Signedness::Unsigned) => 9,
    }
}

/// Float comparisons have no unsigned forms.
pub open spec fn frelop_index(op: RelOpType) -> Option<u8> {
    match op {
        RelOpType::Eq => Some(0),
        RelOpType::Neq => Some(1),
        RelOpType::Lt(Signedness::Signed) => Some(2),
        RelOpType::Gt(Signedness::Signed) => Some(3),
        RelOpType::Le(Signedness::Signed) => Some(4),
        RelOpType::Ge(Signedness::Signed) => Some(5),
        _ => None,
    }
}

pub open spec fn funop_index(op: FUnOpType) -> u8 {
    match op {
        FUnOpType::Abs => 0,
        FUnOpType::Neg => 1,
        FUnOpType::Ceil => 2,
        FUnOpType::Floor => 3,
        FUnOpType::Trunc => 4,
        FUnOpType::Nearest => 5,
        FUnOpType::Sqrt => 6,
    }
}

pub open spec fn fbinop_index(op: FBinOpType) -> u8 {
    match op {
        FBinOpType::Add => 0,
        FBinOpType::Sub => 1,
        FBinOpType::Mul => 2,
        FBinOpType::Div => 3,
        FBinOpType::Min => 4,
        FBinOpType::Max => 5,
        FBinOpType::CopySign => 6,
    }
}

pub open spec fn cvt_opcode(op: CvtOpType) -> Option<u8> {
    match op {
        CvtOpType::Wrap => Some(0xA7),
        CvtOpType::Trunc(Signed, F32, I32) => Some(0xA8),
        CvtOpType::Trunc(Unsigned, F32, I32) => Some(0xA9),
        CvtOpType::Trunc(Signed, F64, I32) => Some(0xAA),
        CvtOpType::Trunc(Unsigned, F64, I32) => Some(0xAB),
        CvtOpType::Extend(Signed) => Some(0xAC),
        CvtOpType::Extend(Unsigned) => Some(0xAD),
        CvtOpType::Trunc(Signed, F32, I64) => Some(0xAE),
        CvtOpType::Trunc(Unsigned, F32, I64) => Some(0xAF),
        CvtOpType::Trunc(Signed, F64, I64) => Some(0xB0),
        CvtOpType::Trunc(Unsigned, F64, I64) => Some(0xB1),
        CvtOpType::Convert(Signed, I32, F32) => Some(0xB2),
        CvtOpType::Convert(Unsigned, I32, F32) => Some(0xB3),
        CvtOpType::Convert(Signed, I64, F32) => Some(0xB4),
        CvtOpType::Convert(Unsigned, I64, F32) => Some(0xB5),
        CvtOpType::Demote => Some(0xB6),
        CvtOpType::Convert(Signed, I32, F64) => Some(0xB7),
        CvtOpType::Convert(Unsigned, I32, F64) => Some(0xB8),
        CvtOpType::Convert(Signed, I64, F64) => Some(0xB9),
        CvtOpType::Convert(Unsigned, I64, F64) => Some(0xBA),
        CvtOpType::Promote => Some(0xBB),
        CvtOpType::Reinterpret(F32) => Some(0xBC),
        CvtOpType::Reinterpret(F64) => Some(0xBD),
        CvtOpType::Reinterpret(I32) => Some(0xBE),
        CvtOpType::Reinterpret(I64) => Some(0xBF),
        _ => None,
    }
}

/// The one-byte opcode of an instruction that takes no immediate operand.
pub open spec fn opcode_of(i: Instruction) -> Option<u8> {
    match i {
        Instruction::ITestOpEqz(x) => match x.arg_type {
            PrimitiveType::I32 => Some(0x45),
            PrimitiveType::I64 => Some(0x50),
            _ => None,
        },
        Instruction::RelOp(x) => match x.arg_type {
            PrimitiveType::I32 => Some((0x46 + irelop_index(x.op_type)) as u8),
            PrimitiveType::I64 => Some((0x51 + irelop_index(x.op_type)) as u8),
            PrimitiveType::F32 => match frelop_index(x.op_type) {
                Some(k) => Some((0x5B + k) as u8),
                None => None,
            },
            PrimitiveType::F64 => match frelop_index(x.op_type) {
                Some(k) => Some((0x61 + k) as u8),
                None => None,
            },
        },
        Instruction::IUnOp(x) => match x.result_type {
            PrimitiveType::I32 => Some((0x67 + iunop_index(x.op_type)) as u8),
            PrimitiveType::I64 => Some((0x79 + iunop_index(x.op_type)) as u8),
            _ => None,
        },
        Instruction::IBinOp(x) => match x.result_type {
            PrimitiveType::I32 => Some((0x6A + ibinop_index(x.op_type)) as u8),
            PrimitiveType::I64 => Some((0x7C + ibinop_index(x.op_type)) as u8),
            _ => None,
        },
        Instruction::FUnOp(x) => match x.result_type {
            PrimitiveType::F32 => Some((0x8B + funop_index(x.op_type)) as u8),
            PrimitiveType::F64 => Some((0x99 + funop_index(x.op_type)) as u8),
            _ => None,
        },
        Instruction::FBinOp(x) => match x.result_type {
            PrimitiveType::F32 => Some((0x92 + fbinop_index(x.op_type)) as u8),
            PrimitiveType::F64 => Some((0xA0 + fbinop_index(x.op_type)) as u8),
            _ => None,
        },
        Instruction::CvtOp(x) => cvt_opcode(x.op_type),
        Instruction::Return(_) => Some(0x0F),
        _ => None,
    }
}

/// The opcode and index immediate of an instruction that takes one: a local,
/// a branch depth or a function.
pub open spec fn index_immediate(i: Instruction) -> Option<(u8, u64)> {
    match i {
        Instruction::LocalGet(x) => Some((0x20u8, x.index as u64)),
        Instruction::LocalSet(x) => Some((0x21u8, x.index as u64)),
        Instruction::LocalTee(x) => Some((0x22u8, x.index as u64)),
        Instruction::Branch(x) => Some((0x0Cu8, x.branch_index as u64)),
        Instruction::BranchIf(x) => Some((0x0Du8, x.branch_index as u64)),
        Instruction::Call(x) => Some((0x10u8, x.function_index as u64)),
        _ => None,
    }
}

/// The value of a `const` instruction.
pub open spec fn const_value(i: Instruction) -> Option<Value> {
    match i {
        Instruction::Const(c) => Some(c.value),
        _ => None,
    }
}

/// Whether the decoder knows the opcode `b`.
pub open spec fn is_known_opcode(b: u8) -> bool {
    b == 0x02 || b == 0x03 || b == 0x0B || b == 0x0C || b == 0x0D || b == 0x0F || b == 0x10 || (
    0x20 <= b <= 0x22) || (0x28 <= b <= 0x2B) || (0x36 <= b <= 0x3E) || (0x41 <= b <= 0xBF) || b
        == 0xFC
}

fn ibinop_at(k: u8) -> (r: IBinOpType)
    requires
        k < 15,
    ensures
        ibinop_index(r) == k,
{
    match k {
        0 => IBinOpType::Add,
        1 => IBinOpType::Sub,
        2 => IBinOpType::Mul,
        3 => IBinOpType::Div(Signedness::Signed),
        4 => IBinOpType::Div(Signedness::Unsigned),
        5 => IBinOpType::Rem(Signedness::Signed),
        6 => IBinOpType::Rem(Signedness::Unsigned),
        7 => IBinOpType::And,
        8 => IBinOpType::Or,
        9 => IBinOpType::Xor,
        10 => IBinOpType::Shl,
        11 => IBinOpType::Shr(Signedness::Signed),
        12 => IBinOpType::Shr(Signedness::Unsigned),
        13 => IBinOpType::Rotl,
        _ => IBinOpType::Rotr,
    }
}

fn iunop_at(k: u8) -> (r: IUnOpType)
    requires
        k < 3,
    ensures
        iunop_index(r) == k,
{
    match k {
        0 => IUnOpType::Clz,
        1 => IUnOpType::Ctz,
        _ => IUnOpType::Popcnt,
    }
}

fn irelop_at(k: u8) -> (r: RelOpType)
    requires
        k < 10,
    ensures
        irelop_index(r) == k,
{
    match k {
        0 => RelOpType::Eq,
        1 => RelOpType::Neq,
        2 => RelOpType::Lt(Signedness::Signed),
        3 => RelOpType::Lt(Signedness::Unsigned),
        4 => RelOpType::Gt(Signedness::Signed),
        5 => RelOpType::Gt(Signedness::Unsigned),
        6 => RelOpType::Le(Signedness::Signed),
        7 => RelOpType::Le(Signedness::Unsigned),
        8 => RelOpType::Ge(Signedness::Signed),
        _ => RelOpType::Ge(Signedness::Unsigned),
    }
}

fn frelop_at(k: u8) -> (r: RelOpType)
    requires
        k < 6,
    ensures
        frelop_index(r) == Some(k),
{
    match k {
        0 => RelOpType::Eq,
        1 => RelOpType::Neq,
        2 => RelOpType::Lt(Signedness::Signed),
        3 => RelOpType::Gt(Signedness::Signed),
        4 => RelOpType::Le(Signedness::Signed),
        _ => RelOpType::Ge(Signedness::Signed),
    }
}

fn funop_at(k: u8) -> (r: FUnOpType)
    requires
        k < 7,
    ensures
        funop_index(r) == k,
{
    match k {
        0 => FUnOpType::Abs,
        1 => FUnOpType::Neg,
        2 => FUnOpType::Ceil,
        3 => FUnOpType::Floor,
        4 => FUnOpType::Trunc,
        5 => FUnOpType::Nearest,
        _ => FUnOpType::Sqrt,
    }
}

fn fbinop_at(k: u8) -> (r: FBinOpType)
    requires
        k < 7,
    ensures
        fbinop_index(r) == k,
{
    match k {
        0 => FBinOpType::Add,
        1 => FBinOpType::Sub,
        2 => FBinOpType::Mul,
        3 => FBinOpType::Div,
        4 => FBinOpType::Min,
        5 => FBinOpType::Max,
        _ => FBinOpType::CopySign,
    }
}

fn cvt_at(b: u8) -> (r: CvtOpType)
    requires
        0xA7 <= b <= 0xBF,
    ensures
        cvt_opcode(r) == Some(b),
{
    match b {
        0xA7 => CvtOpType::Wrap,
        0xA8 => CvtOpType::Trunc(Signed, F32, I32),
        0xA9 => CvtOpType::Trunc(Unsigned, F32, I32),
        0xAA => CvtOpType::Trunc(Signed, F64, I32),
        0xAB => CvtOpType::Trunc(Unsigned, F64, I32),
        0xAC => CvtOpType::Extend(Signed),
        0xAD => CvtOpType::Extend(Unsigned),
        0xAE => CvtOpType::Trunc(Signed, F32, I64),
        0xAF => CvtOpType::Trunc(Unsigned, F32, I64),
        0xB0 => CvtOpType::Trunc(Signed, F64, I64),
        0xB1 => CvtOpType::Trunc(Unsigned, F64, I64),
        0xB2 => CvtOpType::Convert(Signed, I32, F32),
        0xB3 => CvtOpType::Convert(Unsigned, I32, F32),
        0xB4 => CvtOpType::Convert(Signed, I64, F32),
        0xB5 => CvtOpType::Convert(Unsigned, I64, F32),
        0xB6 => CvtOpType::Demote,
        0xB7 => CvtOpType::Convert(Signed, I32, F64),
        0xB8 => CvtOpType::Convert(Unsigned, I32, F64),
        0xB9 => CvtOpType::Convert(Signed, I64, F64),
        0xBA => CvtOpType::Convert(Unsigned, I64, F64),
        0xBB => CvtOpType::Promote,
        0xBC => CvtOpType::Reinterpret(F32),
        0xBD => CvtOpType::Reinterpret(F64),
        0xBE => CvtOpType::Reinterpret(I32),
        _ => CvtOpType::Reinterpret(I64),
    }
}

/// The instruction of a one-byte numeric opcode.
pub fn numeric_instruction(b: u8) -> (r: Instruction)
    requires
        0x45 <= b <= 0xBF,
    ensures
        opcode_of(r) == Some(b),
{
    if b == 0x45 {
        Instruction::ITestOpEqz(ITestOpEqz::new(I32))
    } else if b <= 0x4F {
        Instruction::RelOp(RelOp::new(I32, irelop_at(b - 0x46)))
    } else if b == 0x50 {
        Instruction::ITestOpEqz(ITestOpEqz::new(I64))
    } else if b <= 0x5A {
        Instruction::RelOp(RelOp::new(I64, irelop_at(b - 0x51)))
    } else if b <= 0x60 {
        Instruction::RelOp(RelOp::new(F32, frelop_at(b - 0x5B)))
    } else if b <= 0x66 {
        Instruction::RelOp(RelOp::new(F64, frelop_at(b - 0x61)))
    } else if b <= 0x69 {
        Instruction::IUnOp(IUnOp::new(I32, iunop_at(b - 0x67)))
    } else if b <= 0x78 {
        Instruction::IBinOp(IBinOp::new(I32, ibinop_at(b - 0x6A)))
    } else if b <= 0x7B {
        Instruction::IUnOp(IUnOp::new(I64, iunop_at(b - 0x79)))
    } else if b <= 0x8A {
        Instruction::IBinOp(IBinOp::new(I64, ibinop_at(b - 0x7C)))
    } else if b <= 0x91 {
        Instruction::FUnOp(FUnOp::new(F32, funop_at(b - 0x8B)))
    } else if b <= 0x98 {
        Instruction::FBinOp(FBinOp::new(F32, fbinop_at(b - 0x92)))
    } else if b <= 0x9F {
        Instruction::FUnOp(FUnOp::new(F64, funop_at(b - 0x99)))
    } else if b <= 0xA6 {
        Instruction::FBinOp(FBinOp::new(F64, fbinop_at(b - 0xA0)))
    } else {
        Instruction::CvtOp(CvtOp::new(cvt_at(b)))
    }
}

/// Whether the `count` bytes of `data` from `start` each name a value type.
pub open spec fn names_types_at(data: Seq<u8>, start: int, count: nat) -> bool {
    &&& 0 <= start
    &&& start + count <= data.len()
    &&& forall|i: int| 0 <= i < count ==> (#[trigger] primitive_type_of(data[start + i])) is Some
}

/// The value types that the `count` bytes of `data` from `start` name.
pub open spec fn types_named_at(data: Seq<u8>, start: int, count: nat) -> Seq<PrimitiveType> {
    Seq::new(count, |i: int| primitive_type_of(data[start + i])->Some_0)
}

/// A function type encoded at index `p` of `data`: `0x60`, then the
/// parameter types and the result types, each a LEB128 count and that many
/// type bytes. Gives the two lists and the length of the encoding.
pub open spec fn function_type_at(data: Seq<u8>, p: int) -> Option<
    (Seq<PrimitiveType>, Seq<PrimitiveType>, nat),
> {
    if 0 <= p < data.len() && data[p] == 0x60 {
        match uleb_decode(data.subrange(p + 1, data.len() as int)) {
            Ok((np, n1)) => if np <= u32::MAX && names_types_at(data, p + 1 + n1, np as nat) {
                let q = p + 1 + n1 + np;
                match uleb_decode(data.subrange(q, data.len() as int)) {
                    Ok((nr, n2)) => if nr <= u32::MAX && names_types_at(data, q + n2, nr as nat) {
                        Some(
                            (
                                types_named_at(data, p + 1 + n1, np as nat),
                                types_named_at(data, q + n2, nr as nat),
                                (q + n2 + nr - p) as nat,
                            ),
                        )
                    } else {
                        None
                    },
                    Err(_) => None,
                }
            } else {
                None
            },
            Err(_) => None,
        }
    } else {
        None
    }
}

/// `count` function types encoded one after another from index `p` of
/// `data`: their parameter and result lists, and the index after the last.
pub open spec fn function_types_at(data: Seq<u8>, p: int, count: nat) -> Option<
    (Seq<(Seq<PrimitiveType>, Seq<PrimitiveType>)>, int),
>
    decreases count,
{
    if count == 0 {
        Some((Seq::empty(), p))
    } else {
        match function_type_at(data, p) {
            Some((params, results, len)) => match function_types_at(data, p + len, (count - 1) as nat) {
                Some((more, end)) => Some((seq![(params, results)] + more, end)),
                None => None,
            },
            None => None,
        }
    }
}

proof fn lemma_signatures_len(types: Seq<FunctionType>)
    ensures
        signatures(types).len() == types.len(),
{
}

/// The parameter and result lists of function types.
pub open spec fn signatures(types: Seq<FunctionType>) -> Seq<(Seq<PrimitiveType>, Seq<PrimitiveType>)> {
    types.map_values(|t: FunctionType| (t.params@, t.results@))
}

/// `count` LEB128 indices one after another from index `p` of `data`, each
/// a 32-bit value below `bound`; and the index after the last.
pub open spec fn indices_at(data: Seq<u8>, p: int, count: nat, bound: nat) -> Option<
    (Seq<nat>, int),
>
    decreases count,
{
    if count == 0 {
        Some((Seq::empty(), p))
    } else if p < 0 || p > data.len() {
        None
    } else {
        match uleb_decode(data.subrange(p, data.len() as int)) {
            Ok((v, n)) => if v <= u32::MAX && v < bound {
                match indices_at(data, p + n, (count - 1) as nat, bound) {
                    Some((more, end)) => Some((seq![v as nat] + more, end)),
                    None => None,
                }
            } else {
                None
            },
            Err(_) => None,
        }
    }
}

/// Whether `f` is a function of type `t` with no locals and no body yet.
pub open spec fn declared(f: Function, t: FunctionType) -> bool {
    &&& f.ty.params@ == t.params@
    &&& f.ty.results@ == t.results@
    &&& f.locals@.len() == 0
    &&& f.instructions@.len() == 0
}

/// The limits of a memory encoded at index `p` of `data`: flag `0x00` and a
/// minimum (the maximum is then the largest 32-bit value), or flag `0x01`,
/// a minimum and a maximum; and the index after them.
pub open spec fn limits_at(data: Seq<u8>, p: int) -> Option<(u32, u32, int)> {
    if 0 <= p < data.len() && (data[p] == 0x00 || data[p] == 0x01) {
        match uleb_decode(data.subrange(p + 1, data.len() as int)) {
            Ok((min, n1)) => if min > u32::MAX {
                None
            } else if data[p] == 0x00 {
                Some((min as u32, u32::MAX, p + 1 + n1))
            } else {
                match uleb_decode(data.subrange(p + 1 + n1, data.len() as int)) {
                    Ok((max, n2)) => if max <= u32::MAX {
                        Some((min as u32, max as u32, p + 1 + n1 + n2))
                    } else {
                        None
                    },
                    Err(_) => None,
                }
            },
            Err(_) => None,
        }
    } else {
        None
    }
}

/// A name encoded at index `p` of `data`: a LEB128 length and that many
/// bytes of UTF-8; its characters and the index after it.
pub open spec fn name_at(data: Seq<u8>, p: int) -> Option<(Seq<char>, int)> {
    if 0 <= p <= data.len() {
        match uleb_decode(data.subrange(p, data.len() as int)) {
            Ok((len, n)) => if len <= u32::MAX && p + n + len <= data.len() && valid_utf8(
                data.subrange(p + n, p + n + len),
            ) {
                Some((decode_utf8(data.subrange(p + n, p + n + len)), p + n + len))
            } else {
                None
            },
            Err(_) => None,
        }
    } else {
        None
    }
}

/// The export that kind byte `k` names with `index`.
pub open spec fn export_kind(k: u8, index: usize) -> Export {
    if k == 0 {
        Export::Function(index)
    } else if k == 1 {
        Export::Table(index)
    } else if k == 2 {
        Export::Memory(index)
    } else {
        Export::Global(index)
    }
}

/// `count` exports encoded one after another from index `p` of `data`, each
/// a name, a kind byte and a LEB128 index; and the index after the last.
pub open spec fn exports_at(data: Seq<u8>, p: int, count: nat) -> Option<
    (Seq<(Seq<char>, Export)>, int),
>
    decreases count,
{
    if count == 0 {
        Some((Seq::empty(), p))
    } else {
        match name_at(data, p) {
            Some((name, q)) => if 0 <= q < data.len() && data[q] <= 3 {
                match uleb_decode(data.subrange(q + 1, data.len() as int)) {
                    Ok((index, n)) => if index <= u32::MAX {
                        match exports_at(data, q + 1 + n, (count - 1) as nat) {
                            Some((more, end)) => Some(
                                (seq![(name, export_kind(data[q], index as usize))] + more, end),
                            ),
                            None => None,
                        }
                    } else {
                        None
                    },
                    Err(_) => None,
                }
            } else {
                None
            },
            None => None,
        }
    }
}


/// A load or store's immediates at the front of `s`: the alignment hint and
/// the offset, two 32-bit LEB128 values; and the number of bytes they take.
pub open spec fn memarg_at(s: Seq<u8>) -> Option<(u64, u64, nat)> {
    match uleb_decode(s) {
        Ok((align, n1)) => if align <= u32::MAX {
            match uleb_decode(s.subrange(n1 as int, s.len() as int)) {
                Ok((offset, n2)) => if offset <= u32::MAX {
                    Some((align, offset, n1 + n2))
                } else {
                    None
                },
                Err(_) => None,
            }
        } else {
            None
        },
        Err(_) => None,
    }
}

/// The access that a memory opcode names: for a load its type and width,
/// for a store its width.
pub open spec fn memory_access(i: Instruction) -> Option<(u8, PrimitiveType, u8, u32)> {
    match i {
        Instruction::Load(l) => Some((0x28u8, l.result_type, l.load_bitwidth, l.offset)),
        Instruction::Store(st) => Some((0x36u8, PrimitiveType::I32, st.bitwidth, st.offset)),
        _ => None,
    }
}

/// The type and width of a load opcode.
pub open spec fn load_kind(b: u8) -> (PrimitiveType, u8) {
    if b == 0x28 {
        (PrimitiveType::I32, 32)
    } else if b == 0x29 {
        (PrimitiveType::I64, 64)
    } else if b == 0x2A {
        (PrimitiveType::F32, 32)
    } else {
        (PrimitiveType::F64, 64)
    }
}

/// The width of a store opcode.
pub open spec fn store_width(b: u8) -> u8 {
    if b == 0x36 || b == 0x38 || b == 0x3E {
        32
    } else if b == 0x37 || b == 0x39 {
        64
    } else if b == 0x3A || b == 0x3C {
        8
    } else {
        16
    }
}

/// The saturating truncation that sub-opcode `k` of the `0xFC` prefix names.
pub open spec fn trunc_sat_of(k: u64) -> CvtOpType {
    if k == 0 {
        CvtOpType::TruncSat(Signed, F32, I32)
    } else if k == 1 {
        CvtOpType::TruncSat(Unsigned, F32, I32)
    } else if k == 2 {
        CvtOpType::TruncSat(Signed, F64, I32)
    } else if k == 3 {
        CvtOpType::TruncSat(Unsigned, F64, I32)
    } else if k == 4 {
        CvtOpType::TruncSat(Signed, F32, I64)
    } else if k == 5 {
        CvtOpType::TruncSat(Unsigned, F32, I64)
    } else if k == 6 {
        CvtOpType::TruncSat(Signed, F64, I64)
    } else {
        CvtOpType::TruncSat(Unsigned, F64, I64)
    }
}

/// The conversion of a `CvtOp` instruction.
pub open spec fn conversion_of(i: Instruction) -> Option<CvtOpType> {
    match i {
        Instruction::CvtOp(c) => Some(c.op_type),
        _ => None,
    }
}

/// Whether byte `b` is a block type: none (`0x40`) or a value type.
pub open spec fn is_block_type(b: u8) -> bool {
    b == 0x40 || primitive_type_of(b) is Some
}

/// Whether `b` is an opcode with one 32-bit LEB128 index immediate.
pub open spec fn takes_index(b: u8) -> bool {
    b == 0x0C || b == 0x0D || b == 0x10 || (0x20 <= b <= 0x22)
}

/// Where the instruction encoded at index `p` of `data` ends, if it is one
/// that the decoder takes.
pub open spec fn skip_inst(data: Seq<u8>, p: int) -> Option<int>
    decreases data.len() - p, 0nat,
{
    if p < 0 || p >= data.len() {
        None
    } else {
        let b = data[p];
        let t = p + 1;
        let tail = data.subrange(t, data.len() as int);
        if (0x45 <= b <= 0xBF) || b == 0x0F {
            Some(t)
        } else if b == 0x02 || b == 0x03 {
            if t < data.len() && is_block_type(data[t]) {
                skip_body(data, t + 1)
            } else {
                None
            }
        } else if takes_index(b) {
            match uleb_decode(tail) {
                Ok((k, n)) => if k <= u32::MAX {
                    Some(t + n)
                } else {
                    None
                },
                Err(_) => None,
            }
        } else if b == 0x41 {
            match sleb_decode(tail) {
                Ok((k, n)) => if i32::MIN <= k <= i32::MAX {
                    Some(t + n)
                } else {
                    None
                },
                Err(_) => None,
            }
        } else if b == 0x42 {
            match sleb_decode(tail) {
                Ok((_, n)) => Some(t + n),
                Err(_) => None,
            }
        } else if b == 0x43 {
            if t + 4 <= data.len() {
                Some(t + 4)
            } else {
                None
            }
        } else if b == 0x44 {
            if t + 8 <= data.len() {
                Some(t + 8)
            } else {
                None
            }
        } else if (0x28 <= b <= 0x2B) || (0x36 <= b <= 0x3E) {
            match memarg_at(tail) {
                Some((_, _, n)) => Some(t + n),
                None => None,
            }
        } else if b == 0xFC {
            match uleb_decode(tail) {
                Ok((k, n)) => if k <= 7 {
                    Some(t + n)
                } else {
                    None
                },
                Err(_) => None,
            }
        } else {
            None
        }
    }
}

/// Where the body that starts at index `q` of `data` ends: after the `end`
/// opcode that closes it.
pub open spec fn skip_body(data: Seq<u8>, q: int) -> Option<int>
    decreases data.len() - q, 1nat,
{
    if q < 0 || q >= data.len() {
        None
    } else if data[q] == 0x0B {
        Some(q + 1)
    } else {
        match skip_inst(data, q) {
            Some(q2) => if q < q2 <= data.len() {
                skip_body(data, q2)
            } else {
                None
            },
            None => None,
        }
    }
}

/// Whether `i` is the instruction encoded at index `p` of `data`.
pub open spec fn inst_decodes(data: Seq<u8>, p: int, i: Instruction) -> bool
    decreases data.len() - p, 0nat,
{
    0 <= p < data.len() && {
        let b = data[p];
        let t = p + 1;
        let tail = data.subrange(t, data.len() as int);
        if (0x45 <= b <= 0xBF) || b == 0x0F {
            opcode_of(i) == Some(b)
        } else if b == 0x02 || b == 0x03 {
            &&& i is Block
            &&& i->Block_0.continuation == if b == 0x02 {
                BlockContinuation::Branch
            } else {
                BlockContinuation::Loop
            }
            &&& t < data.len() && is_block_type(data[t])
            &&& body_decodes(data, t + 1, i->Block_0.instructions@)
        } else if takes_index(b) {
            uleb_decode(tail) matches Ok((k, _)) && index_immediate(i) == Some((b, k))
        } else if b == 0x41 {
            sleb_decode(tail) matches Ok((k, _)) && const_value(i) == Some(
                Value { t: PrimitiveType::I32, v: k as i32 as u32 as u64 },
            )
        } else if b == 0x42 {
            sleb_decode(tail) matches Ok((k, _)) && const_value(i) == Some(
                Value { t: PrimitiveType::I64, v: k as u64 },
            )
        } else if b == 0x43 {
            const_value(i) == Some(
                Value { t: PrimitiveType::F32, v: le_value(data, t, 4) as u32 as u64 },
            )
        } else if b == 0x44 {
            const_value(i) == Some(Value { t: PrimitiveType::F64, v: le_value(data, t, 8) as u64 })
        } else if 0x28 <= b <= 0x2B {
            memarg_at(tail) matches Some((_, offset, _)) && memory_access(i) == Some(
                (0x28u8, load_kind(b).0, load_kind(b).1, offset as u32),
            )
        } else if 0x36 <= b <= 0x3E {
            memarg_at(tail) matches Some((_, offset, _)) && memory_access(i) == Some(
                (0x36u8, PrimitiveType::I32, store_width(b), offset as u32),
            )
        } else if b == 0xFC {
            uleb_decode(tail) matches Ok((k, _)) && k <= 7 && conversion_of(i) == Some(
                trunc_sat_of(k),
            )
        } else {
            false
        }
    }
}

/// Whether `s` is the body encoded from index `q` of `data`: its
/// instructions one after another, then the `end` opcode.
pub open spec fn body_decodes(data: Seq<u8>, q: int, s: Seq<Instruction>) -> bool
    decreases data.len() - q, 1nat,
{
    0 <= q < data.len() && if s.len() == 0 {
        data[q] == 0x0B
    } else {
        &&& data[q] != 0x0B
        &&& inst_decodes(data, q, s[0])
        &&& skip_inst(data, q) matches Some(q2)
        &&& q < q2 <= data.len()
        &&& body_decodes(data, q2, s.drop_first())
    }
}

/// The locals declared by `k` entries from index `p` of `data`, each a
/// LEB128 count and a type byte: `count` zero values of that type, in order;
/// and the index after the entries.
pub open spec fn local_entries_at(data: Seq<u8>, p: int, k: nat) -> Option<(Seq<Value>, int)>
    decreases k,
{
    if k == 0 {
        Some((Seq::empty(), p))
    } else if p < 0 || p > data.len() {
        None
    } else {
        match uleb_decode(data.subrange(p, data.len() as int)) {
            Ok((c, n)) => if c <= u32::MAX && p + n < data.len() && primitive_type_of(
                data[p + n],
            ) is Some {
                match local_entries_at(data, p + n + 1, (k - 1) as nat) {
                    Some((more, end)) => Some(
                        (
                            Seq::new(
                                c as nat,
                                |_j: int|
                                    Value {
                                        t: primitive_type_of(data[p + n])->Some_0,
                                        v: 0,
                                    },
                            ) + more,
                            end,
                        ),
                    ),
                    None => None,
                }
            } else {
                None
            },
            Err(_) => None,
        }
    }
}

/// The locals declaration at index `p` of `data`: a LEB128 number of
/// entries, then the entries.
pub open spec fn locals_at(data: Seq<u8>, p: int) -> Option<(Seq<Value>, int)> {
    if p < 0 || p > data.len() {
        None
    } else {
        match uleb_decode(data.subrange(p, data.len() as int)) {
            Ok((k, n)) => if k <= u32::MAX {
                local_entries_at(data, p + n, k as nat)
            } else {
                None
            },
            Err(_) => None,
        }
    }
}

/// `k` function bodies of a code section from index `p` of `data`, each a
/// LEB128 size, a locals declaration and instructions up to `end`. Gives
/// each body's locals and the index where its instructions start; and the
/// index after the last body.
pub open spec fn code_entries_at(data: Seq<u8>, p: int, k: nat) -> Option<
    (Seq<(Seq<Value>, int)>, int),
>
    decreases k,
{
    if k == 0 {
        Some((Seq::empty(), p))
    } else if p < 0 || p > data.len() {
        None
    } else {
        match uleb_decode(data.subrange(p, data.len() as int)) {
            Ok((size, n)) => if size <= u32::MAX {
                match locals_at(data, p + n) {
                    Some((locals, q)) => match skip_body(data, q) {
                        Some(end) => match code_entries_at(data, end, (k - 1) as nat) {
                            Some((more, last)) => Some((seq![(locals, q)] + more, last)),
                            None => None,
                        },
                        None => None,
                    },
                    None => None,
                }
            } else {
                None
            },
            Err(_) => None,
        }
    }
}

/// Whether `f` is `was` given the locals and the body that `entry`
/// describes in `data`.
pub open spec fn code_filled(f: Function, was: Function, data: Seq<u8>, entry: (Seq<Value>, int)) -> bool {
    &&& f.ty.params@ == was.ty.params@
    &&& f.ty.results@ == was.ty.results@
    &&& f.locals@ == entry.0
    &&& body_decodes(data, entry.1, f.instructions@)
}

/// What reading a code section does: the first functions, one per body,
/// get the locals declared there (each the zero value of its type) and the
/// instructions decoded there; the other functions stay as they were.
pub open spec fn code_section(
    data: Seq<u8>,
    pos: int,
    before: ModuleView,
    after: ModuleView,
    r: Result<(), Error>,
) -> bool {
    match uleb_decode(data.subrange(pos, data.len() as int)) {
        Ok((count, n)) => match code_entries_at(data, pos + n, count as nat) {
            Some((entries, _)) => (count <= u32::MAX && count <= before.functions.len() ==> r is Ok)
                && (r is Ok ==> {
                &&& count <= before.functions.len()
                &&& after.functions.len() == before.functions.len()
                &&& forall|i: int|
                    0 <= i < count ==> code_filled(
                        #[trigger] after.functions[i],
                        before.functions[i],
                        data,
                        entries[i],
                    )
                &&& forall|i: int|
                    count <= i < before.functions.len() ==> #[trigger] after.functions[i]
                        == before.functions[i]
            }),
            None => r is Err,
        },
        Err(_) => r is Err,
    }
}

/// Whether the function type at index `p` of `data` is framed well up to a
/// byte in one of its type lists that names no value type.
pub open spec fn bad_type_byte(data: Seq<u8>, p: int) -> bool {
    0 <= p < data.len() && data[p] == 0x60 && match uleb_decode(
        data.subrange(p + 1, data.len() as int),
    ) {
        Ok((np, n1)) => np <= u32::MAX && p + 1 + n1 + np <= data.len() && if !names_types_at(
            data,
            p + 1 + n1,
            np as nat,
        ) {
            true
        } else {
            let q = p + 1 + n1 + np;
            match uleb_decode(data.subrange(q, data.len() as int)) {
                Ok((nr, n2)) => nr <= u32::MAX && q + n2 + nr <= data.len() && !names_types_at(
                    data,
                    q + n2,
                    nr as nat,
                ),
                Err(_) => false,
            }
        },
        Err(_) => false,
    }
}

/// A cursor over a byte buffer.
pub struct ByteReader {
    content: Vec<u8>,
    offset: usize,
}

impl ByteReader {
    /// The bytes read from.
    pub closed spec fn data(&self) -> Seq<u8> {
        self.content@
    }

    /// The index of the next byte to read.
    pub closed spec fn pos(&self) -> nat {
        self.offset as nat
    }

    pub open spec fn wf(&self) -> bool {
        self.pos() <= self.data().len()
    }

    /// The bytes not read yet.
    pub open spec fn rest(&self) -> Seq<u8> {
        self.data().subrange(self.pos() as int, self.data().len() as int)
    }

    /// What a read leaves unchanged, and that it never moves back.
    pub open spec fn advanced(&self, before: &Self) -> bool {
        &&& self.data() == before.data()
        &&& self.wf()
        &&& before.pos() <= self.pos()
    }

    pub fn new(content: &[u8]) -> (r: Self)
        ensures
            r.data() == content@,
            r.pos() == 0,
            r.wf(),
    {
        Self { content: vstd::slice::slice_to_vec(content), offset: 0 }
    }

    /// Whether every byte has been read.
    pub fn at_end(&self) -> (r: bool)
        requires
            self.wf(),
        ensures
            r <==> self.pos() == self.data().len(),
    {
        self.offset >= self.content.len()
    }

    pub fn read_byte(&mut self) -> (r: Result<u8, Error>)
        requires
            old(self).wf(),
        ensures
            final(self).advanced(old(self)),
            old(self).pos() < old(self).data().len() ==> r == Ok::<u8, Error>(
                old(self).data()[old(self).pos() as int],
            ) && final(self).pos() == old(self).pos() + 1,
            old(self).pos() >= old(self).data().len() ==> r == Err::<u8, Error>(Error::EndOfData),
    {
        if self.offset >= self.content.len() {
            return Err(Error::EndOfData);
        }
        let byte = self.content[self.offset];
        self.offset = self.offset + 1;
        Ok(byte)
    }

    pub fn read_bytes(&mut self, count: usize) -> (r: Result<Vec<u8>, Error>)
        requires
            old(self).wf(),
        ensures
            final(self).advanced(old(self)),
            count <= old(self).rest().len() ==> r is Ok && r->Ok_0@ == old(self).rest().subrange(
                0,
                count as int,
            ) && final(self).pos() == old(self).pos() + count,
            count > old(self).rest().len() ==> r == Err::<Vec<u8>, Error>(Error::EndOfData),
    {
        if count > self.content.len() - self.offset {
            return Err(Error::EndOfData);
        }
        let mut bytes: Vec<u8> = Vec::new();
        let mut k: usize = 0;
        let len = self.content.len();
        while k < count
            invariant
                k <= count,
                len == self.content@.len(),
                count <= self.content@.len() - self.offset,
                bytes@ == self.content@.subrange(self.offset as int, self.offset + k),
            decreases count - k,
        {
            bytes.push(self.content[self.offset + k]);
            k = k + 1;
            assert(bytes@ =~= self.content@.subrange(self.offset as int, self.offset + k));
        }
        proof {
            assert(bytes@ =~= old(self).rest().subrange(0, count as int));
        }
        self.offset = self.offset + count;
        Ok(bytes)
    }

    /// An unsigned LEB128 integer of up to 64 bits.
    pub fn read_int(&mut self) -> (r: Result<u64, Error>)
        requires
            old(self).wf(),
        ensures
            final(self).advanced(old(self)),
            match uleb_decode(old(self).rest()) {
                Ok((v, n)) => r == Ok::<u64, Error>(v) && final(self).pos() == old(self).pos() + n,
                Err(e) => r == Err::<u64, Error>(e),
            },
    {
        let rest = vstd::slice::slice_subrange(self.content.as_slice(), self.offset, self.content.len());
        match parse_unsigned_leb128(rest) {
            Ok((value, read_bytes)) => {
                proof {
                    crate::leb128::lemma_uleb_length_in(rest@);
                }
                self.offset = self.offset + read_bytes;
                Ok(value)
            },
            Err(e) => Err(e),
        }
    }

    /// An unsigned LEB128 integer that must fit in 32 bits.
    pub fn read_u32(&mut self) -> (r: Result<u32, Error>)
        requires
            old(self).wf(),
        ensures
            final(self).advanced(old(self)),
            match uleb_decode(old(self).rest()) {
                Ok((v, n)) => if v <= u32::MAX {
                    r == Ok::<u32, Error>(v as u32) && final(self).pos() == old(self).pos() + n
                } else {
                    r == Err::<u32, Error>(Error::IntSizeViolation)
                },
                Err(e) => r == Err::<u32, Error>(e),
            },
    {
        let v = self.read_int()?;
        if v > u32::MAX as u64 {
            return Err(Error::IntSizeViolation);
        }
        Ok(v as u32)
    }

    /// A signed LEB128 integer of up to 64 bits.
    pub fn read_signed_int(&mut self) -> (r: Result<i64, Error>)
        requires
            old(self).wf(),
        ensures
            final(self).advanced(old(self)),
            match sleb_decode(old(self).rest()) {
                Ok((v, n)) => r == Ok::<i64, Error>(v) && final(self).pos() == old(self).pos() + n,
                Err(e) => r == Err::<i64, Error>(e),
            },
    {
        let rest = vstd::slice::slice_subrange(self.content.as_slice(), self.offset, self.content.len());
        match parse_signed_leb128(rest) {
            Ok((value, read_bytes)) => {
                proof {
                    crate::leb128::lemma_uleb_length_in(rest@);
                }
                self.offset = self.offset + read_bytes;
                Ok(value)
            },
            Err(e) => Err(e),
        }
    }

    /// A signed LEB128 integer that must fit in 32 bits.
    pub fn read_i32(&mut self) -> (r: Result<i32, Error>)
        requires
            old(self).wf(),
        ensures
            final(self).advanced(old(self)),
            match sleb_decode(old(self).rest()) {
                Ok((v, n)) => if i32::MIN <= v <= i32::MAX {
                    r == Ok::<i32, Error>(v as i32) && final(self).pos() == old(self).pos() + n
                } else {
                    r == Err::<i32, Error>(Error::IntSizeViolation)
                },
                Err(e) => r == Err::<i32, Error>(e),
            },
    {
        let v = self.read_signed_int()?;
        if v < i32::MIN as i64 || v > i32::MAX as i64 {
            return Err(Error::IntSizeViolation);
        }
        Ok(v as i32)
    }

    /// The next `n` bytes as a little-endian number.
    fn read_le(&mut self, n: usize) -> (r: Result<u64, Error>)
        requires
            old(self).wf(),
            n <= 8,
        ensures
            final(self).advanced(old(self)),
            n <= old(self).rest().len() ==> r == Ok::<u64, Error>(
                le_value(old(self).data(), old(self).pos() as int, n as nat) as u64,
            ) && final(self).pos() == old(self).pos() + n && le_value(
                old(self).data(),
                old(self).pos() as int,
                n as nat,
            ) < pow256(n as nat),
            n > old(self).rest().len() ==> r == Err::<u64, Error>(Error::FloatSizeViolation)
                && final(self).pos() == old(self).pos(),
    {
        if n > self.content.len() - self.offset {
            return Err(Error::FloatSizeViolation);
        }
        let mut result: u64 = 0;
        let mut k: usize = n;
        let len = self.content.len();
        while k > 0
            invariant
                k <= n <= 8,
                len == self.content@.len(),
                self.offset + n <= self.content@.len(),
                result == le_value(self.content@, self.offset + k, (n - k) as nat),
                result < pow256((n - k) as nat),
            decreases k,
        {
            proof {
                crate::wasm::lemma_pow256_monotone((n - k) as nat, 7);
                reveal_with_fuel(pow256, 8);
            }
            k = k - 1;
            result = result * 256 + self.content[self.offset + k] as u64;
        }
        self.offset = self.offset + n;
        Ok(result)
    }

    /// The bit pattern of a 32-bit float, stored little-endian.
    pub fn read_f32(&mut self) -> (r: Result<u32, Error>)
        requires
            old(self).wf(),
        ensures
            final(self).advanced(old(self)),
            4 <= old(self).rest().len() ==> r == Ok::<u32, Error>(
                le_value(old(self).data(), old(self).pos() as int, 4) as u32,
            ) && final(self).pos() == old(self).pos() + 4,
            4 > old(self).rest().len() ==> r == Err::<u32, Error>(Error::FloatSizeViolation)
                && final(self).pos() == old(self).pos(),
    {
        let v = self.read_le(4)?;
        proof {
            reveal_with_fuel(pow256, 5);
        }
        Ok(v as u32)
    }

    /// The bit pattern of a 64-bit float, stored little-endian.
    pub fn read_f64(&mut self) -> (r: Result<u64, Error>)
        requires
            old(self).wf(),
        ensures
            final(self).advanced(old(self)),
            8 <= old(self).rest().len() ==> r == Ok::<u64, Error>(
                le_value(old(self).data(), old(self).pos() as int, 8) as u64,
            ) && final(self).pos() == old(self).pos() + 8,
            8 > old(self).rest().len() ==> r == Err::<u64, Error>(Error::FloatSizeViolation)
                && final(self).pos() == old(self).pos(),
    {
        self.read_le(8)
    }

    pub fn read_primitive_type(&mut self) -> (r: Result<PrimitiveType, Error>)
        requires
            old(self).wf(),
        ensures
            final(self).advanced(old(self)),
            old(self).pos() >= old(self).data().len() ==> r == Err::<PrimitiveType, Error>(
                Error::EndOfData,
            ),
            old(self).pos() < old(self).data().len() ==> match primitive_type_of(
                old(self).data()[old(self).pos() as int],
            ) {
                Some(t) => r == Ok::<PrimitiveType, Error>(t) && final(self).pos() == old(self).pos()
                    + 1,
                None => r matches Err(Error::UnexpectedData(_)),
            },
    {
        match self.read_byte()? {
            0x7F => Ok(PrimitiveType::I32),
            0x7E => Ok(PrimitiveType::I64),
            0x7D => Ok(PrimitiveType::F32),
            0x7C => Ok(PrimitiveType::F64),
            _ => Err(Error::UnexpectedData("Expected a number type")),
        }
    }

    /// A load or store's immediates: the alignment hint, then the offset.
    fn read_memarg(&mut self) -> (r: Result<(u32, u32), Error>)
        requires
            old(self).wf(),
        ensures
            final(self).advanced(old(self)),
            match memarg_at(old(self).rest()) {
                Some((align, offset, n)) => r == Ok::<(u32, u32), Error>(
                    (align as u32, offset as u32),
                ) && final(self).pos() == old(self).pos() + n,
                None => r is Err,
            },
    {
        let align = self.read_u32()?;
        proof {
            if let Ok((a, n1)) = uleb_decode(old(self).rest()) {
                assert(self.rest() =~= old(self).rest().subrange(n1 as int, old(self).rest().len() as int));
            }
        }
        let offset = self.read_u32()?;
        Ok((align, offset))
    }

    /// Decodes one instruction. `Ok(None)` stands for the `end` opcode
    /// `0x0B` that closes a body.
    #[verifier::rlimit(100)]
    pub fn read_inst(&mut self) -> (r: Result<Option<Instruction>, Error>)
        requires
            old(self).wf(),
        ensures
            final(self).advanced(old(self)),
            r is Ok ==> final(self).pos() > old(self).pos(),
            old(self).pos() >= old(self).data().len() ==> r == Err::<Option<Instruction>, Error>(
                Error::EndOfData,
            ),
            old(self).pos() < old(self).data().len() ==> {
                let b = old(self).data()[old(self).pos() as int];
                &&& b == 0x0B ==> r == Ok::<Option<Instruction>, Error>(None) && final(self).pos()
                    == old(self).pos() + 1
                &&& (0x45 <= b <= 0xBF || b == 0x0F) ==> (r matches Ok(Some(i)) && opcode_of(i)
                    == Some(b)) && final(self).pos() == old(self).pos() + 1
                &&& !is_known_opcode(b) ==> r == Err::<Option<Instruction>, Error>(
                    Error::UnknownOpcode(b as u64),
                )
                &&& (b == 0x20 || b == 0x21 || b == 0x22 || b == 0x0C || b == 0x0D || b == 0x10)
                    ==> match uleb_decode(old(self).rest().drop_first()) {
                    Ok((k, n)) => if k <= u32::MAX {
                        (r matches Ok(Some(i)) && index_immediate(i) == Some((b, k)))
                            && final(self).pos() == old(self).pos() + 1 + n
                    } else {
                        r == Err::<Option<Instruction>, Error>(Error::IntSizeViolation)
                    },
                    Err(e) => r == Err::<Option<Instruction>, Error>(e),
                }
                &&& b == 0x41 ==> match sleb_decode(old(self).rest().drop_first()) {
                    Ok((k, n)) => if i32::MIN <= k <= i32::MAX {
                        (r matches Ok(Some(i)) && const_value(i) == Some(
                            Value { t: PrimitiveType::I32, v: k as i32 as u32 as u64 },
                        )) && final(self).pos() == old(self).pos() + 1 + n
                    } else {
                        r == Err::<Option<Instruction>, Error>(Error::IntSizeViolation)
                    },
                    Err(e) => r == Err::<Option<Instruction>, Error>(e),
                }
                &&& b == 0x42 ==> match sleb_decode(old(self).rest().drop_first()) {
                    Ok((k, n)) => (r matches Ok(Some(i)) && const_value(i) == Some(
                        Value { t: PrimitiveType::I64, v: k as u64 },
                    )) && final(self).pos() == old(self).pos() + 1 + n,
                    Err(e) => r == Err::<Option<Instruction>, Error>(e),
                }
                &&& b == 0x43 ==> if old(self).rest().len() >= 5 {
                    (r matches Ok(Some(i)) && const_value(i) == Some(
                        Value {
                            t: PrimitiveType::F32,
                            v: le_value(old(self).data(), old(self).pos() + 1int, 4) as u32 as u64,
                        },
                    )) && final(self).pos() == old(self).pos() + 5
                } else {
                    r == Err::<Option<Instruction>, Error>(Error::FloatSizeViolation)
                }
                &&& b == 0x44 ==> if old(self).rest().len() >= 9 {
                    (r matches Ok(Some(i)) && const_value(i) == Some(
                        Value {
                            t: PrimitiveType::F64,
                            v: le_value(old(self).data(), old(self).pos() + 1int, 8) as u64,
                        },
                    )) && final(self).pos() == old(self).pos() + 9
                } else {
                    r == Err::<Option<Instruction>, Error>(Error::FloatSizeViolation)
                }
                &&& r matches Ok(None) ==> b == 0x0B
                &&& skip_inst(old(self).data(), old(self).pos() as int) is Some ==> r is Ok
                &&& r matches Ok(Some(i)) ==> inst_decodes(
                    old(self).data(),
                    old(self).pos() as int,
                    i,
                ) && skip_inst(old(self).data(), old(self).pos() as int) == Some(
                    final(self).pos() as int,
                )
                &&& b == 0xFC ==> match uleb_decode(old(self).rest().drop_first()) {
                    Ok((k, n)) => if k <= 7 {
                        (r matches Ok(Some(i)) && conversion_of(i) == Some(trunc_sat_of(k)))
                            && final(self).pos() == old(self).pos() + 1 + n
                    } else if k <= u32::MAX {
                        r == Err::<Option<Instruction>, Error>(Error::UnknownSecondaryOpcode(k))
                    } else {
                        r == Err::<Option<Instruction>, Error>(Error::IntSizeViolation)
                    },
                    Err(e) => r == Err::<Option<Instruction>, Error>(e),
                }
                &&& 0x28 <= b <= 0x2B ==> match memarg_at(old(self).rest().drop_first()) {
                    Some((_, offset, n)) => (r matches Ok(Some(i)) && memory_access(i) == Some(
                        (0x28u8, load_kind(b).0, load_kind(b).1, offset as u32),
                    )) && final(self).pos() == old(self).pos() + 1 + n,
                    None => r is Err,
                }
                &&& 0x36 <= b <= 0x3E ==> match memarg_at(old(self).rest().drop_first()) {
                    Some((_, offset, n)) => (r matches Ok(Some(i)) && memory_access(i) == Some(
                        (0x36u8, PrimitiveType::I32, store_width(b), offset as u32),
                    )) && final(self).pos() == old(self).pos() + 1 + n,
                    None => r is Err,
                }
            },
        decreases old(self).data().len() - old(self).pos(), 0nat,
    {
        let opcode = self.read_byte()?;
        assert(self.rest() =~= old(self).rest().drop_first());
        if 0x45 <= opcode && opcode <= 0xBF {
            return Ok(Some(numeric_instruction(opcode)));
        }
        let inst = match opcode {
            0x0B => return Ok(None),
            0x02 => self.read_block(BlockContinuation::Branch)?,
            0x03 => self.read_block(BlockContinuation::Loop)?,
            0x0C => Instruction::Branch(Branch::new(self.read_u32()?)),
            0x0D => Instruction::BranchIf(BranchIf::new(self.read_u32()?)),
            0x0F => Instruction::Return(Return::new()),
            0x10 => Instruction::Call(Call::new(self.read_u32()? as usize)),
            0x20 => Instruction::LocalGet(LocalGet::new(self.read_u32()? as usize)),
            0x21 => Instruction::LocalSet(LocalSet::new(self.read_u32()? as usize)),
            0x22 => Instruction::LocalTee(LocalTee::new(self.read_u32()? as usize)),
            0x28 => {
                let (align, offset) = self.read_memarg()?;
                Instruction::Load(Load::new(I32, 32, align, offset))
            },
            0x29 => {
                let (align, offset) = self.read_memarg()?;
                Instruction::Load(Load::new(I64, 64, align, offset))
            },
            0x2A => {
                let (align, offset) = self.read_memarg()?;
                Instruction::Load(Load::new(F32, 32, align, offset))
            },
            0x2B => {
                let (align, offset) = self.read_memarg()?;
                Instruction::Load(Load::new(F64, 64, align, offset))
            },
            0x36 ..= 0x3E => {
                // i32.store, i64.store, f32.store, f64.store, then the
                // narrow integer stores
                let bitwidth: u8 = match opcode {
                    0x36 | 0x38 | 0x3E => 32,
                    0x37 | 0x39 => 64,
                    0x3A | 0x3C => 8,
                    _ => 16,
                };
                let (align, offset) = self.read_memarg()?;
                Instruction::Store(Store::new(bitwidth, align, offset))
            },
            0x41 => Instruction::Const(Const::new(Value::from_i32(self.read_i32()?))),
            0x42 => Instruction::Const(Const::new(Value::from_i64(self.read_signed_int()?))),
            0x43 => Instruction::Const(Const::new(Value::from_f32_bits(self.read_f32()?))),
            0x44 => Instruction::Const(Const::new(Value::from_f64_bits(self.read_f64()?))),
            0xFC => {
                let sub = self.read_u32()?;
                let op = match sub {
                    0 => CvtOpType::TruncSat(Signed, F32, I32),
                    1 => CvtOpType::TruncSat(Unsigned, F32, I32),
                    2 => CvtOpType::TruncSat(Signed, F64, I32),
                    3 => CvtOpType::TruncSat(Unsigned, F64, I32),
                    4 => CvtOpType::TruncSat(Signed, F32, I64),
                    5 => CvtOpType::TruncSat(Unsigned, F32, I64),
                    6 => CvtOpType::TruncSat(Signed, F64, I64),
                    7 => CvtOpType::TruncSat(Unsigned, F64, I64),
                    x => return Err(Error::UnknownSecondaryOpcode(x as u64)),
                };
                Instruction::CvtOp(CvtOp::new(op))
            },
            x => return Err(Error::UnknownOpcode(x as u64)),
        };
        Ok(Some(inst))
    }

    /// The rest of a `block` or `loop`: its block type, then its body up to
    /// the closing `end`.
    fn read_block(&mut self, continuation: BlockContinuation) -> (r: Result<Instruction, Error>)
        requires
            old(self).wf(),
        ensures
            final(self).advanced(old(self)),
            r is Ok ==> final(self).pos() > old(self).pos(),
            old(self).pos() < old(self).data().len() && is_block_type(
                old(self).data()[old(self).pos() as int],
            ) && skip_body(old(self).data(), old(self).pos() + 1int) is Some ==> r is Ok,
            r matches Ok(i) ==> {
                &&& i is Block
                &&& i->Block_0.continuation == continuation
                &&& old(self).pos() < old(self).data().len()
                &&& is_block_type(old(self).data()[old(self).pos() as int])
                &&& body_decodes(
                    old(self).data(),
                    old(self).pos() + 1int,
                    i->Block_0.instructions@,
                )
                &&& skip_body(old(self).data(), old(self).pos() + 1int) == Some(
                    final(self).pos() as int,
                )
            },
        decreases old(self).data().len() - old(self).pos(), 2nat,
    {
        let block_type = self.read_byte()?;
        if block_type != 0x40 && block_type != 0x7F && block_type != 0x7E && block_type != 0x7D
            && block_type != 0x7C {
            return Err(Error::UnexpectedData("Expected a block type"));
        }
        let body = self.read_body()?;
        Ok(Instruction::Block(Block::new(continuation, body)))
    }

    /// A body: instructions up to the `end` opcode that closes it.
    pub fn read_body(&mut self) -> (r: Result<Vec<Instruction>, Error>)
        requires
            old(self).wf(),
        ensures
            final(self).advanced(old(self)),
            r is Ok ==> final(self).pos() > old(self).pos(),
            skip_body(old(self).data(), old(self).pos() as int) is Some ==> r is Ok,
            r is Ok ==> body_decodes(old(self).data(), old(self).pos() as int, r->Ok_0@)
                && skip_body(old(self).data(), old(self).pos() as int) == Some(
                final(self).pos() as int,
            ),
        decreases old(self).data().len() - old(self).pos(), 1nat,
    {
        let ghost q0 = self.pos() as int;
        let ghost data = self.data();
        let mut body: Vec<Instruction> = Vec::new();
        let mut done = false;
        while !done
            invariant
                self.advanced(old(self)),
                self.data() == data,
                data == old(self).data(),
                q0 == old(self).pos(),
                done ==> self.pos() > q0,
                !done ==> skip_body(data, q0) == skip_body(data, self.pos() as int),
                done ==> skip_body(data, q0) == Some(self.pos() as int),
                !done ==> forall|t: Seq<Instruction>|
                    #[trigger] body_decodes(data, self.pos() as int, t) ==> body_decodes(
                        data,
                        q0,
                        body@ + t,
                    ),
                done ==> body_decodes(data, q0, body@),
            decreases self.data().len() - self.pos(), if done {
                0int
            } else {
                1int
            },
        {
            let ghost cur = self.pos() as int;
            let ghost before = body@;
            match self.read_inst()? {
                Some(i) => {
                    body.push(i);
                    proof {
                        let next = self.pos() as int;
                        assert(skip_body(data, cur) == skip_body(data, next));
                        assert forall|t: Seq<Instruction>|
                            #[trigger] body_decodes(data, next, t) implies body_decodes(
                            data,
                            q0,
                            body@ + t,
                        ) by {
                            let u = seq![i] + t;
                            assert(u.drop_first() =~= t);
                            assert(u[0] == i);
                            assert(body_decodes(data, next, u.drop_first()));
                            assert(0 <= cur < data.len());
                            assert(data[cur] != 0x0B);
                            assert(inst_decodes(data, cur, u[0]));
                            assert(skip_inst(data, cur) == Some(next));
                            assert(cur < next <= data.len());
                            assert(body_decodes(data, cur, u));
                            assert(before + u =~= body@ + t);
                        }
                    }
                },
                None => {
                    done = true;
                    proof {
                        assert(cur < data.len() && data[cur] == 0x0B);
                        assert(body_decodes(data, cur, Seq::empty()));
                        assert(before + Seq::<Instruction>::empty() =~= body@);
                    }
                },
            }
        }
        Ok(body)
    }

    /// A locals declaration: a LEB128 number of entries, each a LEB128
    /// count and a type; gives the declared locals at their zero values.
    pub fn read_locals(&mut self) -> (r: Result<Vec<Value>, Error>)
        requires
            old(self).wf(),
        ensures
            final(self).advanced(old(self)),
            r is Ok ==> locals_at(old(self).data(), old(self).pos() as int) == Some(
                (r->Ok_0@, final(self).pos() as int),
            ),
            locals_at(old(self).data(), old(self).pos() as int) is Some ==> r is Ok,
    {
        let ghost data = self.data();
        let entries = self.read_u32()?;
        let ghost lstart = self.pos() as int;
        let ghost total = local_entries_at(data, lstart, entries as nat);
        let mut locals: Vec<Value> = Vec::new();
        let mut j: u32 = 0;
        while j < entries
            invariant
                self.advanced(old(self)),
                self.data() == data,
                data == old(self).data(),
                j <= entries,
                uleb_decode(old(self).rest()) matches Ok((c, n)) && c == entries && lstart
                    == old(self).pos() + n,
                total == local_entries_at(data, lstart, entries as nat),
                total == match local_entries_at(data, self.pos() as int, (entries - j) as nat) {
                    Some((more, end)) => Some((locals@ + more, end)),
                    None => None,
                },
            decreases entries - j,
        {
            let ghost at = self.pos() as int;
            let num_locals = self.read_u32()?;
            let typ = self.read_primitive_type()?;
            let ghost prev = locals@;
            let ghost zero = Value { t: typ, v: 0 };
            let mut c: u32 = 0;
            while c < num_locals
                invariant
                    c <= num_locals,
                    locals@ == prev + Seq::new(c as nat, |_j: int| zero),
                    zero == (Value { t: typ, v: 0 }),
                decreases num_locals - c,
            {
                locals.push(Value::zero(typ));
                c = c + 1;
                assert(locals@ =~= prev + Seq::new(c as nat, |_j: int| zero));
            }
            proof {
                let rem = (entries - j) as nat;
                let z = Seq::new(num_locals as nat, |_j: int| zero);
                assert(local_entries_at(data, at, rem) == match local_entries_at(
                    data,
                    self.pos() as int,
                    (rem - 1) as nat,
                ) {
                    Some((more, end)) => Some((z + more, end)),
                    None => None,
                });
                if let Some((more, end)) = local_entries_at(
                    data,
                    self.pos() as int,
                    (rem - 1) as nat,
                ) {
                    assert(prev + (z + more) =~= locals@ + more);
                }
            }
            j = j + 1;
        }
        proof {
            assert(locals@ + Seq::<Value>::empty() =~= locals@);
        }
        Ok(locals)
    }

    /// A vector of value types: a LEB128 count, then one byte per type.
    pub fn read_type_vector(&mut self) -> (r: Result<Vec<PrimitiveType>, Error>)
        requires
            old(self).wf(),
        ensures
            final(self).advanced(old(self)),
            match uleb_decode(old(self).rest()) {
                Ok((count, n)) => if count <= u32::MAX && names_types_at(
                    old(self).data(),
                    (old(self).pos() + n) as int,
                    count as nat,
                ) {
                    r is Ok && r->Ok_0@ == types_named_at(
                        old(self).data(),
                        (old(self).pos() + n) as int,
                        count as nat,
                    ) && final(self).pos() == old(self).pos() + n + count
                } else {
                    r is Err
                },
                Err(_) => r is Err,
            },
            uleb_decode(old(self).rest()) matches Ok((count, n)) && count <= u32::MAX && old(
                self,
            ).pos() + n + count <= old(self).data().len() && !names_types_at(
                old(self).data(),
                (old(self).pos() + n) as int,
                count as nat,
            ) ==> r matches Err(Error::UnexpectedData(_)),
    {
        let count = self.read_u32()?;
        let ghost start = self.pos() as int;
        let mut types: Vec<PrimitiveType> = Vec::new();
        let mut k: u32 = 0;
        while k < count
            invariant
                self.advanced(old(self)),
                k <= count,
                self.pos() == start + k,
                start >= 0,
                uleb_decode(old(self).rest()) matches Ok((c, n)) && c == count && start
                    == old(self).pos() + n,
                types@ == types_named_at(self.data(), start, k as nat),
                forall|i: int| 0 <= i < k ==> (#[trigger] primitive_type_of(self.data()[start + i])) is Some,
            decreases count - k,
        {
            let ghost at = self.pos() as int;
            let t = self.read_primitive_type();
            match t {
                Ok(t) => {
                    types.push(t);
                },
                Err(e) => {
                    proof {
                        if start + count <= self.data().len() {
                            assert(primitive_type_of(self.data()[start + k]) is None);
                        }
                    }
                    return Err(e);
                },
            }
            k = k + 1;
            assert(types@ =~= types_named_at(self.data(), start, k as nat));
        }
        Ok(types)
    }

    pub fn read_function_type(&mut self) -> (r: Result<FunctionType, Error>)
        requires
            old(self).wf(),
        ensures
            final(self).advanced(old(self)),
            match function_type_at(old(self).data(), old(self).pos() as int) {
                Some((params, results, len)) => r is Ok && r->Ok_0.params@ == params
                    && r->Ok_0.results@ == results && final(self).pos() == old(self).pos() + len,
                None => r is Err,
            },
            old(self).pos() < old(self).data().len() && old(self).data()[old(self).pos() as int]
                != 0x60 ==> r matches Err(Error::UnexpectedData(_)),
            bad_type_byte(old(self).data(), old(self).pos() as int) ==> r matches Err(
                Error::UnexpectedData(_),
            ),
    {
        if self.read_byte()? != 0x60 {
            return Err(Error::UnexpectedData("Expected function type"));
        }
        assert(self.rest() =~= old(self).data().subrange(
            old(self).pos() + 1int,
            old(self).data().len() as int,
        ));
        let param_types = self.read_type_vector()?;
        let ghost q = self.pos() as int;
        assert(self.rest() =~= old(self).data().subrange(q, old(self).data().len() as int));
        let result_types = self.read_type_vector()?;
        Ok(FunctionType::new(param_types, result_types))
    }

    /// A length-prefixed UTF-8 string.
    pub fn read_name(&mut self) -> (r: Result<String, Error>)
        requires
            old(self).wf(),
        ensures
            final(self).advanced(old(self)),
            match uleb_decode(old(self).rest()) {
                Ok((len, n)) => if len > u32::MAX || n + len > old(self).rest().len() {
                    r is Err
                } else {
                    let bytes = old(self).rest().subrange(n as int, n + len);
                    if valid_utf8(bytes) {
                        r is Ok && r->Ok_0@ == decode_utf8(bytes) && final(self).pos()
                            == old(self).pos() + n + len
                    } else {
                        r is Err
                    }
                },
                Err(e) => r == Err::<String, Error>(e),
            },
    {
        let name_len = self.read_u32()?;
        let ghost mid = *self;
        proof {
            assert(mid.rest() =~= old(self).rest().subrange(
                (mid.pos() - old(self).pos()) as int,
                old(self).rest().len() as int,
            ));
        }
        let bytes = self.read_bytes(name_len as usize)?;
        proof {
            assert(bytes@ =~= old(self).rest().subrange(
                (mid.pos() - old(self).pos()) as int,
                (mid.pos() - old(self).pos()) + name_len,
            ));
        }
        match utf8_string(bytes) {
            Some(s) => Ok(s),
            None => Err(Error::UnexpectedData("Expected a valid UTF-8 string")),
        }
    }
}

/// One section of a module: its id and its bytes.
pub struct ModuleSection {
    pub section_type: u8,
    pub content: ByteReader,
}

impl ModuleSection {
    pub fn new(section_type: u8, content: &[u8]) -> (r: Self)
        ensures
            r.section_type == section_type,
            r.content.data() == content@,
            r.content.pos() == 0,
            r.content.wf(),
    {
        ModuleSection { section_type, content: ByteReader::new(content) }
    }

    /// Adds what the section declares to `module`: function types (id 1),
    /// functions (3), the memory (5), exports (7) or function bodies (10).
    /// Sections of other ids are skipped.
    #[verifier::rlimit(100)]
    pub fn update_module(&mut self, module: &mut Module) -> (r: Result<(), Error>)
        requires
            old(self).content.wf(),
            old(module).wf(),
        ensures
            final(module).wf(),
            !(old(self).section_type == 1 || old(self).section_type == 3
                || old(self).section_type == 5 || old(self).section_type == 7
                || old(self).section_type == 10) ==> r is Ok && final(module)@ == old(module)@,
            old(self).section_type != 1 ==> final(module)@.function_types == old(
                module,
            )@.function_types,
            old(self).section_type != 7 ==> final(module)@.exports == old(module)@.exports,
            old(self).section_type != 5 ==> final(module)@.memory == old(module)@.memory,
            old(self).section_type == 1 || old(self).section_type == 5 || old(self).section_type
                == 7 ==> final(module)@.functions == old(module)@.functions,
            final(module)@.functions.len() >= old(module)@.functions.len(),
            old(self).section_type == 1 ==> type_section(
                old(self).content.data(),
                old(self).content.pos() as int,
                old(module)@,
                final(module)@,
                r,
            ),
            old(self).section_type == 3 ==> function_section(
                old(self).content.data(),
                old(self).content.pos() as int,
                old(module)@,
                final(module)@,
                r,
            ),
            old(self).section_type == 5 ==> memory_section(
                old(self).content.data(),
                old(self).content.pos() as int,
                old(module)@,
                final(module)@,
                r,
            ),
            old(self).section_type == 7 ==> export_section(
                old(self).content.data(),
                old(self).content.pos() as int,
                old(module)@,
                final(module)@,
                r,
            ),
            old(self).section_type == 10 ==> code_section(
                old(self).content.data(),
                old(self).content.pos() as int,
                old(module)@,
                final(module)@,
                r,
            ),
            old(self).content.pos() == 0 && section_ok(
                old(self).section_type,
                old(self).content.data(),
                shape_of(old(module)@),
            ) ==> r is Ok,
            old(self).content.pos() == 0 && r is Ok ==> shape_of(final(module)@) == shape_after(
                old(self).section_type,
                old(self).content.data(),
                shape_of(old(module)@),
            ),
            old(self).content.pos() == 0 && r is Ok ==> section_effect(
                old(self).section_type,
                old(self).content.data(),
                old(module)@,
                final(module)@,
            ),
    {
        match self.section_type {
            1 => {
                let r = read_type_section(&mut self.content, module);
                proof {
                    lemma_signatures_len(old(module)@.function_types);
                    lemma_signatures_len(module@.function_types);
                    let data = old(self).content.data();
                    if r is Ok && old(self).content.pos() == 0 {
                        assert(old(self).content.rest() == data.subrange(0, data.len() as int));
                        assert(shape_of(module@) == shape_after(1, data, shape_of(old(module)@)));
                    }
                }
                r
            },
            3 => {
                let r = read_function_section(&mut self.content, module);
                proof {
                    let data = old(self).content.data();
                    if r is Ok && old(self).content.pos() == 0 {
                        assert(old(self).content.rest() == data.subrange(0, data.len() as int));
                        assert(shape_of(module@) == shape_after(3, data, shape_of(old(module)@)));
                    }
                }
                r
            },
            5 => read_memory_section(&mut self.content, module),
            7 => read_export_section(&mut self.content, module),
            10 => read_code_section(&mut self.content, module),
            _ => Ok(()),
        }
    }
}


/// What reading a type section from index `pos` of `data` does: the
/// function types it holds are appended.
pub open spec fn type_section(
    data: Seq<u8>,
    pos: int,
    before: ModuleView,
    after: ModuleView,
    r: Result<(), Error>,
) -> bool {
    match uleb_decode(data.subrange(pos, data.len() as int)) {
        Ok((count, n)) => match function_types_at(data, pos + n, count as nat) {
            Some((sigs, _)) => if count <= u32::MAX {
                r is Ok && signatures(after.function_types) == signatures(before.function_types)
                    + sigs
            } else {
                r is Err
            },
            None => r is Err,
        },
        Err(_) => r is Err,
    }
}

/// What reading a function section does: a function is appended for each
/// type index it holds, with that type and no body yet.
pub open spec fn function_section(
    data: Seq<u8>,
    pos: int,
    before: ModuleView,
    after: ModuleView,
    r: Result<(), Error>,
) -> bool {
    match uleb_decode(data.subrange(pos, data.len() as int)) {
        Ok((count, n)) => match indices_at(
            data,
            pos + n,
            count as nat,
            before.function_types.len(),
        ) {
            Some((indices, _)) => (count > u32::MAX ==> r is Err) && (count <= u32::MAX ==> r is Ok
                && after.functions.len()
                == before.functions.len() + count && forall|i: int|
                0 <= i < count ==> declared(
                    #[trigger] after.functions[before.functions.len() + i],
                    before.function_types[indices[i] as int],
                )),
            None => r is Err,
        },
        Err(_) => r is Err,
    }
}

/// What reading a memory section does: at most one memory, which replaces
/// the module's.
pub open spec fn memory_section(
    data: Seq<u8>,
    pos: int,
    before: ModuleView,
    after: ModuleView,
    r: Result<(), Error>,
) -> bool {
    match uleb_decode(data.subrange(pos, data.len() as int)) {
        Ok((count, n)) => if count > u32::MAX {
            r is Err
        } else if count > 1 {
            r matches Err(Error::Misc(_))
        } else if count == 0 {
            r is Ok && after.memory == before.memory
        } else if pos + n < data.len() && data[pos + n] != 0x00 && data[pos + n] != 0x01 {
            r matches Err(Error::UnexpectedData(_))
        } else {
            match limits_at(data, pos + n) {
                Some((min, max, _)) => r is Ok && after.memory == MemoryView {
                    bytes: Seq::empty(),
                    pages: min as nat,
                    max_pages: max as nat,
                },
                None => r is Err,
            }
        },
        Err(_) => r is Err,
    }
}

/// What reading an export section does: its exports are appended, and it
/// succeeds where no name is exported twice.
pub open spec fn export_section(
    data: Seq<u8>,
    pos: int,
    before: ModuleView,
    after: ModuleView,
    r: Result<(), Error>,
) -> bool {
    &&& match uleb_decode(data.subrange(pos, data.len() as int)) {
        Ok((count, n)) => match exports_at(data, pos + n, count as nat) {
            Some((entries, _)) => (count > u32::MAX ==> r is Err) && (count <= u32::MAX && !unique_names(
                before.exports + entries,
            ) ==> r matches Err(Error::Misc(_))) && (count <= u32::MAX ==> (r is Ok <==> unique_names(
                before.exports + entries,
            )) && (r is Ok ==> after.exports == before.exports + entries)),
            None => r is Err,
        },
        Err(_) => r is Err,
    }
    &&& r is Err ==> after.exports == before.exports
}

/// Reads a type section: a vector of function types.
fn read_type_section(content: &mut ByteReader, module: &mut Module) -> (r: Result<(), Error>)
    requires
        old(content).wf(),
        old(module).wf(),
    ensures
        final(content).wf(),
        final(module).wf(),
        final(module)@.exports == old(module)@.exports,
        final(module)@.memory == old(module)@.memory,
        final(module)@.functions == old(module)@.functions,
        type_section(
            old(content).data(),
            old(content).pos() as int,
            old(module)@,
            final(module)@,
            r,
        ),
{
    let type_vec_len = content.read_u32()?;
    let ghost start = content.pos() as int;
    let ghost data = content.data();
    let ghost total = function_types_at(data, start, type_vec_len as nat);
    let mut k: u32 = 0;
    while k < type_vec_len
        invariant
            content.wf(),
            content.data() == data,
            data == old(content).data(),
            uleb_decode(old(content).rest()) matches Ok((c, n)) && c
                == type_vec_len && start == old(content).pos() + n,
            total == function_types_at(data, start, type_vec_len as nat),
            k <= type_vec_len,
            total == match function_types_at(
                data,
                content.pos() as int,
                (type_vec_len - k) as nat,
            ) {
                Some((more, end)) => Some(
                    (
                        signatures(module@.function_types).subrange(
                            old(module)@.function_types.len() as int,
                            module@.function_types.len() as int,
                        ) + more,
                        end,
                    ),
                ),
                None => None,
            },
            module@.function_types.len() == old(module)@.function_types.len() + k,
            signatures(module@.function_types).subrange(
                0,
                old(module)@.function_types.len() as int,
            ) == signatures(old(module)@.function_types),
            module@.exports == old(module)@.exports,
            module@.memory == old(module)@.memory,
            module@.functions == old(module)@.functions,
            module@.functions.len() >= old(module)@.functions.len(),
            module@.function_types.len() >= old(module)@.function_types.len(),
            module.wf(),
        decreases type_vec_len - k,
    {
        let ghost before = module@.function_types;
        let ft = content.read_function_type()?;
        module.add_function_type(ft);
        k = k + 1;
        proof {
            let after = module@.function_types;
            assert(after == before.push(ft));
            assert(signatures(after) =~= signatures(before).push((ft.params@, ft.results@)));
            let lo = old(module)@.function_types.len() as int;
            assert(signatures(after).subrange(lo, after.len() as int) =~= signatures(
                before,
            ).subrange(lo, before.len() as int).push((ft.params@, ft.results@)));
            assert(signatures(after).subrange(0, lo) =~= signatures(before).subrange(0, lo));
        }
    }
    proof {
        let lo = old(module)@.function_types.len() as int;
        let sigs = signatures(module@.function_types);
        assert(sigs =~= sigs.subrange(0, lo) + sigs.subrange(lo, sigs.len() as int));
    }
    Ok(())
}

/// Reads a function section: a vector of type indices, one per function.
fn read_function_section(content: &mut ByteReader, module: &mut Module) -> (r: Result<(), Error>)
    requires
        old(content).wf(),
        old(module).wf(),
    ensures
        final(content).wf(),
        final(module).wf(),
        final(module)@.function_types == old(module)@.function_types,
        final(module)@.exports == old(module)@.exports,
        final(module)@.memory == old(module)@.memory,
        final(module)@.functions.len() >= old(module)@.functions.len(),
        function_section(
            old(content).data(),
            old(content).pos() as int,
            old(module)@,
            final(module)@,
            r,
        ),
{
    let type_index_vec_len = content.read_u32()?;
    let ghost start = content.pos() as int;
    let ghost data = content.data();
    let ghost bound = old(module)@.function_types.len();
    let ghost total = indices_at(data, start, type_index_vec_len as nat, bound);
    let ghost done: Seq<nat> = Seq::empty();
    let mut k: u32 = 0;
    while k < type_index_vec_len
        invariant
            content.wf(),
            content.data() == data,
            data == old(content).data(),
            bound == old(module)@.function_types.len(),
            uleb_decode(old(content).rest()) matches Ok((c, n)) && c
                == type_index_vec_len && start == old(content).pos() + n,
            total == indices_at(data, start, type_index_vec_len as nat, bound),
            k <= type_index_vec_len,
            done.len() == k,
            total == match indices_at(
                data,
                content.pos() as int,
                (type_index_vec_len - k) as nat,
                bound,
            ) {
                Some((more, end)) => Some((done + more, end)),
                None => None,
            },
            module@.functions.len() == old(module)@.functions.len() + k,
            forall|i: int|
                0 <= i < k ==> declared(
                    #[trigger] module@.functions[old(module)@.functions.len() + i],
                    old(module)@.function_types[done[i] as int],
                ),
            module@.function_types == old(module)@.function_types,
            module@.exports == old(module)@.exports,
            module@.memory == old(module)@.memory,
            module@.functions.len() >= old(module)@.functions.len(),
            module.wf(),
        decreases type_index_vec_len - k,
    {
        let ghost at = content.pos() as int;
        let ghost before = module@.functions;
        assert(content.rest() =~= data.subrange(at, data.len() as int));
        let type_index = content.read_u32()?;
        let function_type = match module.get_function_type(type_index as usize) {
            Ok(t) => t,
            Err(e) => return Err(e),
        };
        let f = Function::new(function_type);
        module.add_function(f);
        proof {
            done = done.push(type_index as nat);
            assert forall|i: int| 0 <= i < k + 1 implies declared(
                #[trigger] module@.functions[old(module)@.functions.len() + i],
                old(module)@.function_types[done[i] as int],
            ) by {
                if i < k {
                    assert(module@.functions[old(module)@.functions.len() + i]
                        == before[old(module)@.functions.len() + i]);
                }
            }
            if let Some((more, end)) = indices_at(
                data,
                content.pos() as int,
                (type_index_vec_len - k - 1) as nat,
                bound,
            ) {
                assert(done + more =~= done.drop_last() + (seq![type_index as nat] + more));
            }
        }
        k = k + 1;
    }
    Ok(())
}

/// Reads a memory section: a vector of at most one memory's limits.
fn read_memory_section(content: &mut ByteReader, module: &mut Module) -> (r: Result<(), Error>)
    requires
        old(content).wf(),
        old(module).wf(),
    ensures
        final(content).wf(),
        final(module).wf(),
        final(module)@.function_types == old(module)@.function_types,
        final(module)@.exports == old(module)@.exports,
        final(module)@.functions == old(module)@.functions,
        memory_section(
            old(content).data(),
            old(content).pos() as int,
            old(module)@,
            final(module)@,
            r,
        ),
{
    let memory_vec_len = content.read_u32()?;
    if memory_vec_len > 1 {
        return Err(
            Error::Misc("Multiple memories are unimplemented per WASM spec restrictions."),
        );
    }
    if memory_vec_len == 1 {
        let ghost p = content.pos() as int;
        let (mem_min, mem_max) = match content.read_byte()? {
            0x00 => (content.read_u32()?, u32::MAX),
            0x01 => {
                let min = content.read_u32()?;
                let max = content.read_u32()?;
                (min, max)
            },
            _ => return Err(Error::UnexpectedData("Expected a valid limit type")),
        };
        let m = Memory::new(mem_min, mem_max);
        assert(m@.bytes =~= Seq::<u8>::empty());
        module.add_memory(m);
    }
    Ok(())
}

/// Reads an export section: a vector of names, each with a kind and an
/// index.
#[verifier::rlimit(50)]
fn read_export_section(content: &mut ByteReader, module: &mut Module) -> (r: Result<(), Error>)
    requires
        old(content).wf(),
        old(module).wf(),
    ensures
        final(content).wf(),
        final(module).wf(),
        final(module)@.function_types == old(module)@.function_types,
        final(module)@.memory == old(module)@.memory,
        final(module)@.functions == old(module)@.functions,
        export_section(
            old(content).data(),
            old(content).pos() as int,
            old(module)@,
            final(module)@,
            r,
        ),
{
    // all entries are decoded and their names checked before any is added
    let export_vec_len = content.read_u32()?;
    let ghost start = content.pos() as int;
    let ghost data = content.data();
    let ghost total = exports_at(data, start, export_vec_len as nat);
    let ghost done: Seq<(Seq<char>, Export)> = Seq::empty();
    let mut entries: Vec<(String, Export)> = Vec::new();
    let mut k: u32 = 0;
    while k < export_vec_len
        invariant
            content.wf(),
            content.data() == data,
            data == old(content).data(),
            uleb_decode(old(content).rest()) matches Ok((c, n)) && c
                == export_vec_len && start == old(content).pos() + n,
            total == exports_at(data, start, export_vec_len as nat),
            k <= export_vec_len,
            done.len() == k,
            entries@.len() == k,
            module@ == old(module)@,
            module.wf(),
            forall|j: int| 0 <= j < k ==> (#[trigger] entries@[j]).0@ == done[j].0 && entries@[j].1 == done[j].1,
            total == match exports_at(
                data,
                content.pos() as int,
                (export_vec_len - k) as nat,
            ) {
                Some((more, end)) => Some((done + more, end)),
                None => None,
            },
        decreases export_vec_len - k,
    {
        let ghost at = content.pos() as int;
        proof {
            if let Ok((len, n)) = uleb_decode(content.rest()) {
                if n + len <= content.rest().len() {
                    assert(content.rest().subrange(n as int, n + len)
                        =~= data.subrange(at + n, at + n + len));
                }
            }
        }
        let name = content.read_name()?;
        let kind = content.read_byte()?;
        let index = content.read_u32()? as usize;
        let export = match kind {
            0x00 => Export::Function(index),
            0x01 => Export::Table(index),
            0x02 => Export::Memory(index),
            0x03 => Export::Global(index),
            _ => return Err(Error::UnexpectedData("Expected a valid export descriptor type")),
        };
        let ghost entry = (name@, export);
        let ghost rem = (export_vec_len - k) as nat;
        proof {
            assert(exports_at(data, at, rem) == match exports_at(
                data,
                content.pos() as int,
                (rem - 1) as nat,
            ) {
                Some((more, end)) => Some((seq![entry] + more, end)),
                None => None,
            });
        }
        entries.push((name, export));
        proof {
            done = done.push(entry);
            if let Some((more, end)) = exports_at(
                data,
                content.pos() as int,
                (export_vec_len - k - 1) as nat,
            ) {
                assert(done + more =~= done.drop_last() + (seq![entry] + more));
            }
        }
        k = k + 1;
    }
    proof {
        if let Some((more, end)) = exports_at(data, content.pos() as int, 0) {
            assert(done + more =~= done);
        }
    }
    let ghost all = old(module)@.exports + done;
    // no name may be exported already, nor twice in this section
    let mut m: usize = 0;
    while m < entries.len()
        invariant
            m <= entries@.len(),
            entries@.len() == done.len(),
            content.wf(),
            total == exports_at(data, start, export_vec_len as nat),
            total == Some((done, content.pos() as int)),
            uleb_decode(old(content).rest()) matches Ok((c, n)) && c
                == export_vec_len && start == old(content).pos() + n,
            data == old(content).data(),
            all == old(module)@.exports + done,
            module@ == old(module)@,
            module.wf(),
            forall|j: int| 0 <= j < done.len() ==> (#[trigger] entries@[j]).0@ == done[j].0 && entries@[j].1 == done[j].1,
            forall|a: int, b: int|
                0 <= a < b < old(module)@.exports.len() + m ==> all[a].0 != all[b].0,
        decreases entries@.len() - m,
    {
        if module.has_export(&entries[m].0) {
            proof {
                let i = choose|i: int|
                    0 <= i < module@.exports.len() && #[trigger] module@.exports[i].0 == entries@[m as int].0@;
                assert(all[i] == module@.exports[i]);
                assert(all[old(module)@.exports.len() + m] == done[m as int]);
                assert(!unique_names(all));
            }
            return Err(Error::Misc("Expected a unique export name"));
        }
        let mut j: usize = 0;
        while j < m
            invariant
                j <= m,
                m < entries@.len(),
                entries@.len() == done.len(),
                content.wf(),
                total == exports_at(data, start, export_vec_len as nat),
                total == Some((done, content.pos() as int)),
                uleb_decode(old(content).rest()) matches Ok((c, n)) && c
                    == export_vec_len && start == old(content).pos() + n,
                data == old(content).data(),
                all == old(module)@.exports + done,
                module@ == old(module)@,
                module.wf(),
                forall|l: int| 0 <= l < done.len() ==> (#[trigger] entries@[l]).0@ == done[l].0 && entries@[l].1 == done[l].1,
                forall|l: int| 0 <= l < j ==> entries@[l].0@ != entries@[m as int].0@,
            decreases m - j,
        {
            if entries[j].0 == entries[m].0 {
                proof {
                    let lo = old(module)@.exports.len();
                    assert(all[lo + j] == done[j as int]);
                    assert(all[lo + m] == done[m as int]);
                    assert(!unique_names(all));
                }
                return Err(Error::Misc("Expected a unique export name"));
            }
            j = j + 1;
        }
        proof {
            let lo = old(module)@.exports.len() as int;
            assert forall|a: int, b: int| 0 <= a < b < lo + m + 1 implies all[a].0 != all[b].0 by {
                if b == lo + m {
                    assert(all[b] == done[m as int]);
                    if a < lo {
                        assert(all[a] == module@.exports[a]);
                    } else {
                        assert(all[a] == done[a - lo]);
                        assert(entries@[a - lo].0@ != entries@[m as int].0@);
                    }
                } else {
                    assert(unique_names(old(module)@.exports));
                }
            }
        }
        m = m + 1;
    }
    assert(unique_names(all));
    let mut q: usize = 0;
    while q < entries.len()
        invariant
            q <= entries@.len(),
            entries@.len() == done.len(),
            content.wf(),
            total == exports_at(data, start, export_vec_len as nat),
            total == Some((done, content.pos() as int)),
            uleb_decode(old(content).rest()) matches Ok((c, n)) && c
                == export_vec_len && start == old(content).pos() + n,
            data == old(content).data(),
            all == old(module)@.exports + done,
            unique_names(all),
            forall|j: int| 0 <= j < done.len() ==> (#[trigger] entries@[j]).0@ == done[j].0 && entries@[j].1 == done[j].1,
            module@.exports == old(module)@.exports + done.subrange(0, q as int),
            module@.function_types == old(module)@.function_types,
            module@.memory == old(module)@.memory,
            module@.functions == old(module)@.functions,
            module.wf(),
        decreases entries@.len() - q,
    {
        let name = entries[q].0.clone();
        let export = entries[q].1;
        let ghost current = module@.exports;
        match module.add_export(name, export) {
            Ok(()) => {},
            Err(e) => {
                proof {
                    let i = choose|i: int|
                        0 <= i < current.len() && #[trigger] current[i].0 == entries@[q as int].0@;
                    let lo = old(module)@.exports.len() as int;
                    assert(current[i] == all[i]);
                    assert(all[lo + q] == done[q as int]);
                    assert(false);
                }
                return Err(e);
            },
        }
        proof {
            assert(done.subrange(0, q + 1) =~= done.subrange(0, q as int).push(done[q as int]));
        }
        q = q + 1;
    }
    proof {
        assert(done.subrange(0, done.len() as int) =~= done);
    }
    Ok(())
}

/// Reads a code section: for each function in turn, its body size, its
/// locals declarations and its instructions up to `end`.
fn read_code_section(content: &mut ByteReader, module: &mut Module) -> (r: Result<(), Error>)
    requires
        old(content).wf(),
        old(module).wf(),
    ensures
        final(content).wf(),
        final(module).wf(),
        final(module)@.function_types == old(module)@.function_types,
        final(module)@.exports == old(module)@.exports,
        final(module)@.memory == old(module)@.memory,
        final(module)@.functions.len() == old(module)@.functions.len(),
        code_section(
            old(content).data(),
            old(content).pos() as int,
            old(module)@,
            final(module)@,
            r,
        ),
{
    let ghost data = content.data();
    let functions_vec_len = content.read_u32()?;
    let ghost start = content.pos() as int;
    let ghost total = code_entries_at(data, start, functions_vec_len as nat);
    let ghost done: Seq<(Seq<Value>, int)> = Seq::empty();
    let mut function_index: u32 = 0;
    while function_index < functions_vec_len
        invariant
            content.wf(),
            content.data() == data,
            data == old(content).data(),
            function_index <= functions_vec_len,
            uleb_decode(old(content).rest()) matches Ok((c, n)) && c == functions_vec_len
                && start == old(content).pos() + n,
            total == code_entries_at(data, start, functions_vec_len as nat),
            total == match code_entries_at(
                data,
                content.pos() as int,
                (functions_vec_len - function_index) as nat,
            ) {
                Some((more, end)) => Some((done + more, end)),
                None => None,
            },
            done.len() == function_index,
            function_index <= module@.functions.len(),
            forall|i: int|
                0 <= i < function_index ==> code_filled(
                    #[trigger] module@.functions[i],
                    old(module)@.functions[i],
                    data,
                    done[i],
                ),
            forall|i: int|
                function_index <= i < old(module)@.functions.len() ==> #[trigger] module@.functions[i]
                    == old(module)@.functions[i],
            module@.function_types == old(module)@.function_types,
            module@.exports == old(module)@.exports,
            module@.memory == old(module)@.memory,
            module@.functions.len() == old(module)@.functions.len(),
            module.wf(),
        decreases functions_vec_len - function_index,
    {
        let ghost at = content.pos() as int;
        // the body size is not needed to decode the body
        let _function_len_bytes = content.read_u32()?;
        if function_index as usize >= module.num_functions() {
            return Err(Error::Misc("Code entry without a declared function"));
        }
        let ghost locals_pos = content.pos() as int;
        let locals = content.read_locals()?;
        let ghost body_pos = content.pos() as int;
        let instructions = content.read_body()?;
        let ghost entry = (locals@, body_pos);
        let ghost before = module@.functions;
        proof {
            let rem = (functions_vec_len - function_index) as nat;
            assert(code_entries_at(data, at, rem) == match code_entries_at(
                data,
                content.pos() as int,
                (rem - 1) as nat,
            ) {
                Some((more, end)) => Some((seq![entry] + more, end)),
                None => None,
            });
        }
        module.set_function_code(function_index as usize, locals, instructions);
        proof {
            let fi = function_index as int;
            assert forall|i: int|
                0 <= i < fi + 1 implies code_filled(
                #[trigger] module@.functions[i],
                old(module)@.functions[i],
                data,
                done.push(entry)[i],
            ) by {
                if i < fi {
                    assert(module@.functions[i] == before[i]);
                    assert(done.push(entry)[i] == done[i]);
                } else {
                    assert(before[i] == old(module)@.functions[i]);
                }
            }
            assert forall|i: int|
                fi + 1 <= i < old(module)@.functions.len() implies #[trigger] module@.functions[i]
                == old(module)@.functions[i] by {
                assert(module@.functions[i] == before[i]);
            }
            let rem = (functions_vec_len - function_index) as nat;
            if let Some((more, end)) = code_entries_at(data, content.pos() as int, (rem - 1) as nat) {
                assert(done.push(entry) + more =~= done + (seq![entry] + more));
            }
            done = done.push(entry);
        }
        function_index = function_index + 1;
    }
    proof {
        assert(done + Seq::<(Seq<Value>, int)>::empty() =~= done);
    }
    Ok(())
}

/// The framing of the sections from index `p` of `buf` to its end: each an
/// id byte, a LEB128 length and that many bytes of content. Gives each id
/// with the range of its content.
pub open spec fn sections_at(buf: Seq<u8>, p: int) -> Option<Seq<(u8, int, int)>>
    decreases buf.len() - p,
{
    if p < 0 || p >= buf.len() {
        Some(Seq::empty())
    } else {
        match uleb_decode(buf.subrange(p + 1, buf.len() as int)) {
            Ok((size, n)) => {
                let content_start = p + 1 + n;
                if content_start + size <= buf.len() {
                    match sections_at(buf, content_start + size) {
                        Some(more) => Some(
                            seq![(buf[p], content_start, content_start + size)] + more,
                        ),
                        None => None,
                    }
                } else {
                    None
                }
            },
            Err(_) => None,
        }
    }
}

/// What a section of id `id` whose bytes are `data` does to a module when it
/// is read without error.
pub open spec fn section_effect(id: u8, data: Seq<u8>, before: ModuleView, after: ModuleView) -> bool {
    let ok = Ok::<(), Error>(());
    if id == 1 {
        &&& type_section(data, 0, before, after, ok)
        &&& after.exports == before.exports && after.memory == before.memory
        &&& after.functions == before.functions
    } else if id == 3 {
        &&& function_section(data, 0, before, after, ok)
        &&& after.function_types == before.function_types
        &&& after.exports == before.exports && after.memory == before.memory
    } else if id == 5 {
        &&& memory_section(data, 0, before, after, ok)
        &&& after.function_types == before.function_types
        &&& after.exports == before.exports && after.functions == before.functions
    } else if id == 7 {
        &&& export_section(data, 0, before, after, ok)
        &&& after.function_types == before.function_types
        &&& after.memory == before.memory && after.functions == before.functions
    } else if id == 10 {
        &&& code_section(data, 0, before, after, ok)
        &&& after.function_types == before.function_types
        &&& after.exports == before.exports && after.memory == before.memory
        &&& after.functions.len() == before.functions.len()
    } else {
        after == before
    }
}

/// Section ids with content ranges, as integers.
pub open spec fn ranges(sections: Seq<(u8, usize, usize)>) -> Seq<(u8, int, int)> {
    sections.map_values(|x: (u8, usize, usize)| (x.0, x.1 as int, x.2 as int))
}

/// What section decoding depends on of a module built so far: the number
/// of function types, the exports and the number of functions.
pub open spec fn shape_of(m: ModuleView) -> (nat, Seq<(Seq<char>, Export)>, nat) {
    (m.function_types.len(), m.exports, m.functions.len())
}

/// Whether a section of id `id` whose bytes are `data` decodes, and fits a
/// module of shape `shape`: then reading it succeeds.
pub open spec fn section_ok(
    id: u8,
    data: Seq<u8>,
    shape: (nat, Seq<(Seq<char>, Export)>, nat),
) -> bool {
    match uleb_decode(data.subrange(0, data.len() as int)) {
        Ok((c, n)) => if id == 1 {
            c <= u32::MAX && function_types_at(data, n as int, c as nat) is Some
        } else if id == 3 {
            c <= u32::MAX && indices_at(data, n as int, c as nat, shape.0) is Some
        } else if id == 5 {
            c == 0 || (c == 1 && limits_at(data, n as int) is Some)
        } else if id == 7 {
            c <= u32::MAX && match exports_at(data, n as int, c as nat) {
                Some((entries, _)) => unique_names(shape.1 + entries),
                None => false,
            }
        } else if id == 10 {
            c <= u32::MAX && c <= shape.2 && code_entries_at(data, n as int, c as nat) is Some
        } else {
            true
        },
        Err(_) => !(id == 1 || id == 3 || id == 5 || id == 7 || id == 10),
    }
}

/// The shape of a module after a section of id `id` whose bytes are `data`
/// is read into it.
pub open spec fn shape_after(
    id: u8,
    data: Seq<u8>,
    shape: (nat, Seq<(Seq<char>, Export)>, nat),
) -> (nat, Seq<(Seq<char>, Export)>, nat) {
    let counted = uleb_decode(data.subrange(0, data.len() as int));
    if id == 1 {
        match counted {
            Ok((c, n)) => match function_types_at(data, n as int, c as nat) {
                Some((sigs, _)) => (shape.0 + sigs.len(), shape.1, shape.2),
                None => shape,
            },
            Err(_) => shape,
        }
    } else if id == 3 {
        match counted {
            Ok((c, n)) => (shape.0, shape.1, shape.2 + c as nat),
            Err(_) => shape,
        }
    } else if id == 7 {
        match counted {
            Ok((c, n)) => match exports_at(data, n as int, c as nat) {
                Some((entries, _)) => (shape.0, shape.1 + entries, shape.2),
                None => shape,
            },
            Err(_) => shape,
        }
    } else {
        shape
    }
}

/// Whether the sections `secs` of `buf`, from the `i`-th on, all decode and
/// fit the module they are read into, which has shape `shape` before them.
pub open spec fn sections_ok(
    buf: Seq<u8>,
    secs: Seq<(u8, int, int)>,
    i: nat,
    shape: (nat, Seq<(Seq<char>, Export)>, nat),
) -> bool
    decreases secs.len() - i,
{
    if i >= secs.len() {
        true
    } else {
        let data = buf.subrange(secs[i as int].1, secs[i as int].2);
        section_ok(secs[i as int].0, data, shape) && sections_ok(
            buf,
            secs,
            i + 1,
            shape_after(secs[i as int].0, data, shape),
        )
    }
}

/// The magic number that opens a module: `\0asm`.
pub open spec fn has_magic(bytes: Seq<u8>) -> bool {
    bytes.len() >= 4 && bytes[0] == 0x00 && bytes[1] == 0x61 && bytes[2] == 0x73 && bytes[3] == 0x6D
}

/// The binary version that follows the magic number: 1.
pub open spec fn has_version_one(bytes: Seq<u8>) -> bool {
    bytes.len() >= 8 && bytes[4] == 1 && bytes[5] == 0 && bytes[6] == 0 && bytes[7] == 0
}

/// Decodes a binary module: the preamble, then a stream of sections, each
/// an id byte, a LEB128 length and that many bytes of content.
pub fn parse_wasm(buf: &[u8]) -> (r: Result<Module, Error>)
    ensures
        !has_magic(buf@) ==> r == Err::<Module, Error>(Error::InvalidInput),
        has_magic(buf@) && !has_version_one(buf@) ==> r == Err::<Module, Error>(Error::BadVersion),
        r is Ok ==> has_magic(buf@) && has_version_one(buf@) && r->Ok_0.wf(),
        buf@.len() == 8 && has_magic(buf@) && has_version_one(buf@) ==> r is Ok,
        has_magic(buf@) && has_version_one(buf@) && sections_at(buf@, 8) is None ==> r is Err,
        has_magic(buf@) && has_version_one(buf@) && (sections_at(buf@, 8) matches Some(secs)
            && sections_ok(buf@, secs, 0, (0, Seq::empty(), 0))) ==> r is Ok,
        r is Ok ==> (sections_at(buf@, 8) matches Some(secs) && exists|views: Seq<ModuleView>|
            {
                &&& views.len() == secs.len() + 1
                &&& views[0].function_types.len() == 0 && views[0].functions.len() == 0
                &&& views[0].exports.len() == 0 && views[0].memory.pages == 0
                &&& views.last() == r->Ok_0@
                &&& forall|i: int|
                    0 <= i < secs.len() ==> section_effect(
                        secs[i].0,
                        buf@.subrange(secs[i].1, secs[i].2),
                        #[trigger] views[i],
                        views[i + 1],
                    )
            }),
{
    if buf.len() < 4 {
        return Err(Error::InvalidInput);
    }
    if buf[0] != 0x00 || buf[1] != 0x61 || buf[2] != 0x73 || buf[3] != 0x6D {
        return Err(Error::InvalidInput);
    }
    assert(has_magic(buf@));
    if buf.len() < 8 {
        return Err(Error::BadVersion);
    }
    if buf[4] != 1 || buf[5] != 0 || buf[6] != 0 || buf[7] != 0 {
        return Err(Error::BadVersion);
    }
    assert(has_version_one(buf@));
    // first the framing of every section, then their contents in order
    let ghost framing = sections_at(buf@, 8);
    let mut sections: Vec<(u8, usize, usize)> = Vec::new();
    let mut start: usize = 8;
    while start < buf.len()
        invariant
            8 <= start <= buf@.len(),
            sections@.len() > 0 ==> start > 8,
            has_magic(buf@),
            has_version_one(buf@),
            forall|i: int|
                0 <= i < sections@.len() ==> (#[trigger] sections@[i]).1 <= sections@[i].2
                    <= buf@.len(),
            framing == sections_at(buf@, 8),
            framing == match sections_at(buf@, start as int) {
                Some(more) => Some(ranges(sections@) + more),
                None => None,
            },
        decreases buf@.len() - start,
    {
        let section_type: u8 = buf[start];
        let tail = vstd::slice::slice_subrange(buf, start + 1, buf.len());
        let (section_length, bytes_read) = parse_unsigned_leb128(tail)?;
        proof {
            crate::leb128::lemma_uleb_length_in(tail@);
        }
        let content_start = start + 1 + bytes_read;
        if section_length > (buf.len() - content_start) as u64 {
            return Err(Error::EndOfData);
        }
        let content_end = content_start + section_length as usize;
        let ghost before = sections@;
        sections.push((section_type, content_start, content_end));
        proof {
            assert(ranges(sections@) =~= ranges(before).push(
                (section_type, content_start as int, content_end as int),
            ));
            if let Some(more) = sections_at(buf@, content_end as int) {
                assert(ranges(sections@) + more =~= ranges(before) + (seq![
                    (section_type, content_start as int, content_end as int),
                ] + more));
            }
        }
        start = content_end;
    }
    proof {
        assert(ranges(sections@) + Seq::<(u8, int, int)>::empty() =~= ranges(sections@));
    }
    let mut module = Module::new();
    assert(shape_of(module@) == (0nat, Seq::<(Seq<char>, Export)>::empty(), 0nat));
    let ghost views: Seq<ModuleView> = seq![module@];
    let mut k: usize = 0;
    while k < sections.len()
        invariant
            k <= sections@.len(),
            module.wf(),
            buf@.len() == 8 ==> sections@.len() == 0,
            has_magic(buf@),
            has_version_one(buf@),
            forall|i: int|
                0 <= i < sections@.len() ==> (#[trigger] sections@[i]).1 <= sections@[i].2
                    <= buf@.len(),
            framing == sections_at(buf@, 8),
            framing == Some(ranges(sections@)),
            sections_ok(buf@, ranges(sections@), 0, (0, Seq::empty(), 0)) ==> sections_ok(
                buf@,
                ranges(sections@),
                k as nat,
                shape_of(module@),
            ),
            views.len() == k + 1,
            views[0].function_types.len() == 0 && views[0].functions.len() == 0,
            views[0].exports.len() == 0 && views[0].memory.pages == 0,
            views.last() == module@,
            forall|i: int|
                0 <= i < k ==> section_effect(
                    ranges(sections@)[i].0,
                    buf@.subrange(ranges(sections@)[i].1, ranges(sections@)[i].2),
                    #[trigger] views[i],
                    views[i + 1],
                ),
        decreases sections@.len() - k,
    {
        let (section_type, content_start, content_end) = sections[k];
        let mut section = ModuleSection::new(
            section_type,
            vstd::slice::slice_subrange(buf, content_start, content_end),
        );
        let ghost before = module@;
        proof {
            let secs = ranges(sections@);
            assert(secs[k as int] == (section_type, content_start as int, content_end as int));
            assert(section.content.data() == buf@.subrange(secs[k as int].1, secs[k as int].2));
        }
        section.update_module(&mut module)?;
        proof {
            let old_views = views;
            views = views.push(module@);
            assert forall|i: int|
                0 <= i < k + 1 implies section_effect(
                    ranges(sections@)[i].0,
                    buf@.subrange(ranges(sections@)[i].1, ranges(sections@)[i].2),
                    #[trigger] views[i],
                    views[i + 1],
                ) by {
                if i < k {
                    assert(views[i] == old_views[i]);
                    assert(views[i + 1] == old_views[i + 1]);
                } else {
                    assert(views[i] == before);
                }
            }
        }
        k = k + 1;
    }
    Ok(module)
}

} // verus!
