use wasm_interpreter::error::Error;
use wasm_interpreter::parser::parse_wasm;
use wasm_interpreter::wasm::inst::{
    Block, BlockContinuation, Branch, Const, CvtOpType, FBinOpType, FUnOpType, FloatOps, Instruction,
    RelOpType,
};
use wasm_interpreter::wasm::{PrimitiveType, Trap, Value};

struct HostFloats;

impl FloatOps for HostFloats {
    fn f32_binop_spec(&self, op: FBinOpType, a: u32, b: u32) -> u32 {
        self.f32_binop(op, a, b)
    }

    fn f64_binop_spec(&self, op: FBinOpType, a: u64, b: u64) -> u64 {
        self.f64_binop(op, a, b)
    }

    fn f32_unop_spec(&self, op: FUnOpType, a: u32) -> u32 {
        self.f32_unop(op, a)
    }

    fn f64_unop_spec(&self, op: FUnOpType, a: u64) -> u64 {
        self.f64_unop(op, a)
    }

    fn f32_relop_spec(&self, op: RelOpType, a: u32, b: u32) -> bool {
        self.f32_relop(op, a, b)
    }

    fn f64_relop_spec(&self, op: RelOpType, a: u64, b: u64) -> bool {
        self.f64_relop(op, a, b)
    }

    fn convert_spec(&self, op: CvtOpType, a: u64) -> u64 {
        self.convert(op, a)
    }








    fn f32_binop(&self, op: FBinOpType, a: u32, b: u32) -> u32 {
        let (x, y) = (f32::from_bits(a), f32::from_bits(b));
        let r = match op {
            FBinOpType::Add => x + y,
            FBinOpType::Sub => x - y,
            FBinOpType::Mul => x * y,
            FBinOpType::Div => x / y,
            FBinOpType::Min => x.min(y),
            FBinOpType::Max => x.max(y),
            FBinOpType::CopySign => x.copysign(y),
        };
        r.to_bits()
    }

    fn f64_binop(&self, op: FBinOpType, a: u64, b: u64) -> u64 {
        let (x, y) = (f64::from_bits(a), f64::from_bits(b));
        let r = match op {
            FBinOpType::Add => x + y,
            FBinOpType::Sub => x - y,
            FBinOpType::Mul => x * y,
            FBinOpType::Div => x / y,
            FBinOpType::Min => x.min(y),
            FBinOpType::Max => x.max(y),
            FBinOpType::CopySign => x.copysign(y),
        };
        r.to_bits()
    }

    fn f32_unop(&self, op: FUnOpType, a: u32) -> u32 {
        let x = f32::from_bits(a);
        let r = match op {
            FUnOpType::Abs => x.abs(),
            FUnOpType::Neg => -x,
            FUnOpType::Sqrt => x.sqrt(),
            FUnOpType::Ceil => x.ceil(),
            FUnOpType::Floor => x.floor(),
            FUnOpType::Trunc => x.trunc(),
            FUnOpType::Nearest => x.round(),
        };
        r.to_bits()
    }

    fn f64_unop(&self, op: FUnOpType, a: u64) -> u64 {
        let x = f64::from_bits(a);
        let r = match op {
            FUnOpType::Abs => x.abs(),
            FUnOpType::Neg => -x,
            FUnOpType::Sqrt => x.sqrt(),
            FUnOpType::Ceil => x.ceil(),
            FUnOpType::Floor => x.floor(),
            FUnOpType::Trunc => x.trunc(),
            FUnOpType::Nearest => x.round(),
        };
        r.to_bits()
    }

    fn f32_relop(&self, op: RelOpType, a: u32, b: u32) -> bool {
        let (x, y) = (f32::from_bits(a), f32::from_bits(b));
        match op {
            RelOpType::Eq => x == y,
            RelOpType::Neq => x != y,
            RelOpType::Lt(_) => x < y,
            RelOpType::Gt(_) => x > y,
            RelOpType::Le(_) => x <= y,
            RelOpType::Ge(_) => x >= y,
        }
    }

    fn f64_relop(&self, op: RelOpType, a: u64, b: u64) -> bool {
        let (x, y) = (f64::from_bits(a), f64::from_bits(b));
        match op {
            RelOpType::Eq => x == y,
            RelOpType::Neq => x != y,
            RelOpType::Lt(_) => x < y,
            RelOpType::Gt(_) => x > y,
            RelOpType::Le(_) => x <= y,
            RelOpType::Ge(_) => x >= y,
        }
    }

    fn convert(&self, op: CvtOpType, a: u64) -> u64 {
        match op {
            CvtOpType::Convert(_, PrimitiveType::I32, PrimitiveType::F64) => {
                (a as u32 as i32 as f64).to_bits()
            }
            CvtOpType::Promote => (f32::from_bits(a as u32) as f64).to_bits(),
            _ => 0,
        }
    }
}

fn section(id: u8, content: &[u8]) -> Vec<u8> {
    assert!(content.len() < 128);
    let mut out = vec![id, content.len() as u8];
    out.extend_from_slice(content);
    out
}

/// A module with one function of type `params -> results`, exported as
/// `name`, with the given locals declarations and body (without the final
/// `end`), and optionally a memory of `(min, max)` pages.
fn single_function_module(
    name: &str,
    params: &[u8],
    results: &[u8],
    locals: &[(u8, u8)],
    body: &[u8],
    memory: Option<(u8, u8)>,
) -> Vec<u8> {
    let mut bytes = vec![0x00, 0x61, 0x73, 0x6D, 0x01, 0x00, 0x00, 0x00];
    let mut ty = vec![0x01, 0x60, params.len() as u8];
    ty.extend_from_slice(params);
    ty.push(results.len() as u8);
    ty.extend_from_slice(results);
    bytes.extend(section(1, &ty));
    bytes.extend(section(3, &[0x01, 0x00]));
    if let Some((min, max)) = memory {
        bytes.extend(section(5, &[0x01, 0x01, min, max]));
    }
    let mut export = vec![0x01, name.len() as u8];
    export.extend_from_slice(name.as_bytes());
    export.extend_from_slice(&[0x00, 0x00]);
    bytes.extend(section(7, &export));
    let mut code_body = vec![locals.len() as u8];
    for (count, t) in locals {
        code_body.push(*count);
        code_body.push(*t);
    }
    code_body.extend_from_slice(body);
    code_body.push(0x0B);
    let mut code = vec![0x01, code_body.len() as u8];
    code.extend(code_body);
    bytes.extend(section(10, &code));
    bytes
}

fn run(bytes: &[u8], name: &str, args: Vec<Value>) -> Result<Value, Error> {
    let mut module = match parse_wasm(bytes) {
        Ok(m) => m,
        Err(e) => return Err(e),
    };
    module.call(name, args, &HostFloats)
}

#[test]
fn minimal_add() {
    let bytes = single_function_module(
        "add",
        &[0x7F, 0x7F],
        &[0x7F],
        &[],
        &[0x20, 0x00, 0x20, 0x01, 0x6A],
        None,
    );
    let r = run(&bytes, "add", vec![Value::from_i32(2), Value::from_i32(3)]).unwrap();
    assert_eq!(r.value_type(), PrimitiveType::I32);
    assert_eq!(r.as_i32(), 5);
}

#[test]
fn wrap_on_overflow() {
    let bytes = single_function_module(
        "f",
        &[0x7F],
        &[0x7F],
        &[],
        &[0x20, 0x00, 0x41, 0x01, 0x6A],
        None,
    );
    let r = run(&bytes, "f", vec![Value::from_i32(2147483647)]).unwrap();
    assert_eq!(r.value_type(), PrimitiveType::I32);
    assert_eq!(r.as_i32(), -2147483648);
}

#[test]
fn memory_round_trip() {
    // i32.const 100; i32.const 12345; i32.store; i32.const 100; i32.load
    let body = [
        0x41, 0xE4, 0x00, 0x41, 0xB9, 0xE0, 0x00, 0x36, 0x02, 0x00, 0x41, 0xE4, 0x00, 0x28,
        0x02, 0x00,
    ];
    let bytes = single_function_module("rw", &[], &[0x7F], &[], &body, Some((1, 1)));
    let r = run(&bytes, "rw", vec![]).unwrap();
    assert_eq!(r.value_type(), PrimitiveType::I32);
    assert_eq!(r.as_i32(), 12345);
}

#[test]
fn out_of_bounds_trap() {
    // i32.const 65534; i32.load
    let body = [0x41, 0xFE, 0xFF, 0x03, 0x28, 0x02, 0x00];
    let bytes = single_function_module("oob", &[], &[0x7F], &[], &body, Some((1, 1)));
    let r = run(&bytes, "oob", vec![]);
    assert_eq!(r, Err(Error::Trap(Trap::MemoryOutOfBounds)));
}

#[test]
fn signed_division_trap() {
    // i32.const -2147483648; i32.const -1; i32.div_s
    let body = [0x41, 0x80, 0x80, 0x80, 0x80, 0x78, 0x41, 0x7F, 0x6D];
    let bytes = single_function_module("bad", &[], &[0x7F], &[], &body, None);
    let r = run(&bytes, "bad", vec![]);
    assert_eq!(r, Err(Error::Trap(Trap::UndefinedDivision)));
}

fn count_module() -> Vec<u8> {
    let body = [
        0x42, 0x00, 0x21, 0x01, // i64.const 0; local.set 1
        0x03, 0x40, // loop
        0x20, 0x01, 0x20, 0x00, 0x7C, 0x21, 0x01, // acc += n
        0x20, 0x00, 0x42, 0x01, 0x7D, 0x22, 0x00, // n -= 1 (tee)
        0x42, 0x00, 0x55, 0x0D, 0x00, // n > 0 ? br_if 0
        0x0B, // end loop
        0x20, 0x01, // local.get 1
    ];
    single_function_module("count", &[0x7E], &[0x7E], &[(1, 0x7E)], &body, None)
}

#[test]
fn loop_with_branch_if() {
    let r = run(&count_module(), "count", vec![Value::from_i64(5)]).unwrap();
    assert_eq!(r.value_type(), PrimitiveType::I64);
    assert_eq!(r.as_i64(), 15);
}

#[test]
fn loop_with_branch_if_large_count() {
    let r = run(&count_module(), "count", vec![Value::from_i64(100000)]).unwrap();
    assert_eq!(r.as_i64(), 5000050000);
}

#[test]
fn unknown_export_is_an_error() {
    let r = run(&count_module(), "missing", vec![Value::from_i64(5)]);
    assert!(matches!(r, Err(Error::Misc(_))));
}

#[test]
fn wrong_argument_count_is_an_error() {
    let r = run(&count_module(), "count", vec![]);
    assert!(matches!(r, Err(Error::Misc(_))));
}

#[test]
fn float_results_are_tagged() {
    // f64.const 1.5; f64.const 2.25; f64.add
    let mut body = vec![0x44];
    body.extend_from_slice(&1.5f64.to_bits().to_le_bytes());
    body.push(0x44);
    body.extend_from_slice(&2.25f64.to_bits().to_le_bytes());
    body.push(0xA0);
    let bytes = single_function_module("g", &[], &[0x7C], &[], &body, None);
    let r = run(&bytes, "g", vec![]).unwrap();
    assert_eq!(r.value_type(), PrimitiveType::F64);
    assert_eq!(f64::from_bits(r.bits()), 3.75);
}

#[test]
fn result_type_mismatch_is_an_error() {
    // declared i64 result, but the body leaves an i32
    let bytes = single_function_module("h", &[], &[0x7E], &[], &[0x41, 0x07], None);
    let r = run(&bytes, "h", vec![]);
    assert!(matches!(r, Err(Error::Misc(_))));
}

#[test]
fn unbalanced_stack_is_an_error() {
    let bytes = single_function_module("h", &[], &[0x7F], &[], &[0x41, 0x07, 0x41, 0x08], None);
    let r = run(&bytes, "h", vec![]);
    assert_eq!(r, Err(Error::StackViolation));
}

#[test]
fn return_leaves_the_function() {
    // i32.const 7; return; i32.const 8
    let bytes = single_function_module("h", &[], &[0x7F], &[], &[0x41, 0x07, 0x0F, 0x41, 0x08], None);
    let r = run(&bytes, "h", vec![]).unwrap();
    assert_eq!(r.as_i32(), 7);
}

#[test]
fn branch_out_of_nested_blocks() {
    // block; block; i32.const 1; br 1; end; i32.const 2; end; ... leaves 1
    let body = [0x02, 0x40, 0x02, 0x40, 0x41, 0x01, 0x0C, 0x01, 0x0B, 0x41, 0x02, 0x0B];
    let bytes = single_function_module("h", &[], &[0x7F], &[], &body, None);
    let r = run(&bytes, "h", vec![]).unwrap();
    assert_eq!(r.as_i32(), 1);
}

#[test]
fn bad_magic_is_invalid_input() {
    let r = parse_wasm(&[0x00, 0x61, 0x73, 0x6E, 0x01, 0x00, 0x00, 0x00]);
    assert!(matches!(r, Err(Error::InvalidInput)));
}

#[test]
fn bad_version_is_reported() {
    let r = parse_wasm(&[0x00, 0x61, 0x73, 0x6D, 0x02, 0x00, 0x00, 0x00]);
    assert!(matches!(r, Err(Error::BadVersion)));
}

#[test]
fn empty_module_parses() {
    assert!(parse_wasm(&[0x00, 0x61, 0x73, 0x6D, 0x01, 0x00, 0x00, 0x00]).is_ok());
}

#[test]
fn unknown_opcode_is_reported() {
    let bytes = single_function_module("h", &[], &[0x7F], &[], &[0xC5], None);
    let r = parse_wasm(&bytes);
    assert!(matches!(r, Err(Error::UnknownOpcode(0xC5))));
}

#[test]
fn unknown_secondary_opcode_is_reported() {
    let bytes = single_function_module("h", &[], &[0x7F], &[], &[0xFC, 0x09], None);
    let r = parse_wasm(&bytes);
    assert!(matches!(r, Err(Error::UnknownSecondaryOpcode(9))));
}

#[test]
fn truncated_section_is_end_of_data() {
    let r = parse_wasm(&[0x00, 0x61, 0x73, 0x6D, 0x01, 0x00, 0x00, 0x00, 0x01, 0x05, 0x01]);
    assert!(matches!(r, Err(Error::EndOfData)));
}

#[test]
fn duplicate_export_is_rejected() {
    let mut bytes = vec![0x00, 0x61, 0x73, 0x6D, 0x01, 0x00, 0x00, 0x00];
    bytes.extend(section(1, &[0x01, 0x60, 0x00, 0x01, 0x7F]));
    bytes.extend(section(3, &[0x01, 0x00]));
    bytes.extend(section(7, &[0x02, 0x01, b'a', 0x00, 0x00, 0x01, b'a', 0x00, 0x00]));
    let r = parse_wasm(&bytes);
    assert!(matches!(r, Err(Error::Misc(_))));
}

#[test]
fn invalid_utf8_name_is_rejected() {
    let mut bytes = vec![0x00, 0x61, 0x73, 0x6D, 0x01, 0x00, 0x00, 0x00];
    bytes.extend(section(7, &[0x01, 0x01, 0xFF, 0x00, 0x00]));
    let r = parse_wasm(&bytes);
    assert!(matches!(r, Err(Error::UnexpectedData(_))));
}

#[test]
fn utf8_name_is_decoded() {
    // the export name "é" is two bytes of UTF-8
    let bytes = single_function_module("é", &[], &[0x7F], &[], &[0x41, 0x2A], None);
    let r = run(&bytes, "é", vec![]).unwrap();
    assert_eq!(r.as_i32(), 42);
}

#[test]
fn bad_value_type_is_rejected() {
    let mut bytes = vec![0x00, 0x61, 0x73, 0x6D, 0x01, 0x00, 0x00, 0x00];
    bytes.extend(section(1, &[0x01, 0x60, 0x01, 0x70, 0x00]));
    let r = parse_wasm(&bytes);
    assert!(matches!(r, Err(Error::UnexpectedData(_))));
}

#[test]
fn too_many_memories_is_rejected() {
    let mut bytes = vec![0x00, 0x61, 0x73, 0x6D, 0x01, 0x00, 0x00, 0x00];
    bytes.extend(section(5, &[0x02, 0x00, 0x01, 0x00, 0x01]));
    let r = parse_wasm(&bytes);
    assert!(matches!(r, Err(Error::Misc(_))));
}

#[test]
fn call_passes_arguments_in_order() {
    // two functions: sub(a, b) = a - b, and f() = sub(10, 3)
    let mut bytes = vec![0x00, 0x61, 0x73, 0x6D, 0x01, 0x00, 0x00, 0x00];
    bytes.extend(section(1, &[0x02, 0x60, 0x02, 0x7F, 0x7F, 0x01, 0x7F, 0x60, 0x00, 0x01, 0x7F]));
    bytes.extend(section(3, &[0x02, 0x00, 0x01]));
    bytes.extend(section(7, &[0x01, 0x01, b'f', 0x00, 0x01]));
    let sub_body = [0x00, 0x20, 0x00, 0x20, 0x01, 0x6B, 0x0B];
    let f_body = [0x00, 0x41, 0x0A, 0x41, 0x03, 0x10, 0x00, 0x0B];
    let mut code = vec![0x02, sub_body.len() as u8];
    code.extend_from_slice(&sub_body);
    code.push(f_body.len() as u8);
    code.extend_from_slice(&f_body);
    bytes.extend(section(10, &code));
    let r = run(&bytes, "f", vec![]).unwrap();
    assert_eq!(r.as_i32(), 7);
}

#[test]
fn callee_cannot_touch_caller_stack_or_locals() {
    // g(x) = (local.set 0 99; local.get 0), so g writes only its own local
    // f(): i32.const 5; local.set 0; i32.const 100; i32.const 1; call g;
    //      i32.add; local.get 0; i32.add  => 100 + 99 + 5
    let mut bytes = vec![0x00, 0x61, 0x73, 0x6D, 0x01, 0x00, 0x00, 0x00];
    bytes.extend(section(1, &[0x02, 0x60, 0x01, 0x7F, 0x01, 0x7F, 0x60, 0x00, 0x01, 0x7F]));
    bytes.extend(section(3, &[0x02, 0x00, 0x01]));
    bytes.extend(section(7, &[0x01, 0x01, b'f', 0x00, 0x01]));
    let g_body = [0x00, 0x41, 0xE3, 0x00, 0x21, 0x00, 0x20, 0x00, 0x0B];
    let f_body = [
        0x01, 0x01, 0x7F, 0x41, 0x05, 0x21, 0x00, 0x41, 0xE4, 0x00, 0x41, 0x01, 0x10, 0x00, 0x6A,
        0x20, 0x00, 0x6A, 0x0B,
    ];
    let mut code = vec![0x02, g_body.len() as u8];
    code.extend_from_slice(&g_body);
    code.push(f_body.len() as u8);
    code.extend_from_slice(&f_body);
    bytes.extend(section(10, &code));
    let r = run(&bytes, "f", vec![]).unwrap();
    assert_eq!(r.as_i32(), 204);
}

#[test]
fn float_operands_keep_their_order() {
    let mut s = wasm_interpreter::wasm::Stack::new();
    s.push_value(Value::from_f32_bits(5.0f32.to_bits()));
    s.push_value(Value::from_f32_bits(2.0f32.to_bits()));
    let sub = wasm_interpreter::wasm::inst::FBinOp::new(PrimitiveType::F32, FBinOpType::Sub);
    assert!(sub.execute(&mut s, &HostFloats).is_ok());
    let r = s.pop_value().unwrap();
    assert_eq!(r.value_type(), PrimitiveType::F32);
    assert_eq!(f32::from_bits(r.bits() as u32), 3.0);
    s.push_value(Value::from_f64_bits(2.0f64.to_bits()));
    let neg = wasm_interpreter::wasm::inst::FUnOp::new(PrimitiveType::F64, FUnOpType::Neg);
    assert!(neg.execute(&mut s, &HostFloats).is_ok());
    assert_eq!(f64::from_bits(s.pop_value().unwrap().bits()), -2.0);
}

#[test]
fn block_runs_its_body() {
    let block = Block::new(
        BlockContinuation::Branch,
        vec![
            Instruction::Const(Const::new(Value::from_i32(1))),
            Instruction::Branch(Branch::new(0)),
            Instruction::Const(Const::new(Value::from_i32(2))),
        ],
    );
    let mut s = wasm_interpreter::wasm::Stack::new();
    let mut m = wasm_interpreter::wasm::Memory::empty();
    let mut locals: Vec<Value> = Vec::new();
    let fns: Vec<wasm_interpreter::wasm::Function> = Vec::new();
    let (r, _) = block.execute(&mut s, &mut m, &mut locals, &fns, &HostFloats, 10);
    assert_eq!(r, Ok(wasm_interpreter::wasm::ControlInfo::Continue));
    assert_eq!(s.len(), 1);
    assert_eq!(s.pop_value(), Ok(Value::from_i32(1)));
}
