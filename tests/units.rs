use wasm_interpreter::error::Error;
use wasm_interpreter::leb128::{parse_signed_leb128, parse_unsigned_leb128};
use wasm_interpreter::parser::{numeric_instruction, ByteReader, ModuleSection};
use wasm_interpreter::wasm::inst::{
    block_exit, exec_ibinop32, exec_ibinop64, exec_irelop32, exec_iunop32, exec_iunop64,
    finish_call, BlockContinuation, CvtOp, CvtOpType, IBinOp, IBinOpType, IUnOpType,
    Instruction, Load, RelOpType, Signedness, Store,
};
use wasm_interpreter::wasm::inst::{call_function, Block, Branch, Const};
use wasm_interpreter::wasm::{
    ControlInfo, Export, Function, FunctionType, Memory, Module, PrimitiveType, Stack, Trap, Value,
};

struct Unused;

impl wasm_interpreter::wasm::inst::FloatOps for Unused {
    fn f32_binop_spec(&self, op: wasm_interpreter::wasm::inst::FBinOpType, a: u32, b: u32) -> u32 {
        self.f32_binop(op, a, b)
    }

    fn f64_binop_spec(&self, op: wasm_interpreter::wasm::inst::FBinOpType, a: u64, b: u64) -> u64 {
        self.f64_binop(op, a, b)
    }

    fn f32_unop_spec(&self, op: wasm_interpreter::wasm::inst::FUnOpType, a: u32) -> u32 {
        self.f32_unop(op, a)
    }

    fn f64_unop_spec(&self, op: wasm_interpreter::wasm::inst::FUnOpType, a: u64) -> u64 {
        self.f64_unop(op, a)
    }

    fn f32_relop_spec(&self, op: RelOpType, a: u32, b: u32) -> bool {
        self.f32_relop(op, a, b)
    }

    fn f64_relop_spec(&self, op: RelOpType, a: u64, b: u64) -> bool {
        self.f64_relop(op, a, b)
    }

    fn convert_spec(&self, op: CvtOpType, a: u64) -> u64 {
        self.convert(op, a)
    }








    fn f32_binop(&self, _: wasm_interpreter::wasm::inst::FBinOpType, a: u32, _: u32) -> u32 {
        a
    }
    fn f64_binop(&self, _: wasm_interpreter::wasm::inst::FBinOpType, a: u64, _: u64) -> u64 {
        a
    }
    fn f32_unop(&self, _: wasm_interpreter::wasm::inst::FUnOpType, a: u32) -> u32 {
        a
    }
    fn f64_unop(&self, _: wasm_interpreter::wasm::inst::FUnOpType, a: u64) -> u64 {
        a
    }
    fn f32_relop(&self, _: RelOpType, _: u32, _: u32) -> bool {
        false
    }
    fn f64_relop(&self, _: RelOpType, _: u64, _: u64) -> bool {
        false
    }
    fn convert(&self, _: CvtOpType, a: u64) -> u64 {
        a
    }
}

#[test]
fn unsigned_leb128_examples() {
    assert_eq!(parse_unsigned_leb128(&[0x00]), Ok((0, 1)));
    assert_eq!(parse_unsigned_leb128(&[0x7F]), Ok((127, 1)));
    assert_eq!(parse_unsigned_leb128(&[0xE5, 0x8E, 0x26, 0xFF]), Ok((624485, 3)));
    assert_eq!(
        parse_unsigned_leb128(&[0xFF, 0xFF, 0xFF, 0xFF, 0xFF, 0xFF, 0xFF, 0xFF, 0xFF, 0x01]),
        Ok((u64::MAX, 10))
    );
}

#[test]
fn unsigned_leb128_errors() {
    assert_eq!(parse_unsigned_leb128(&[]), Err(Error::EndOfData));
    assert_eq!(parse_unsigned_leb128(&[0x80, 0x80]), Err(Error::EndOfData));
    assert_eq!(
        parse_unsigned_leb128(&[0xFF, 0xFF, 0xFF, 0xFF, 0xFF, 0xFF, 0xFF, 0xFF, 0xFF, 0x02]),
        Err(Error::IntSizeViolation)
    );
    assert_eq!(parse_unsigned_leb128(&[0x80; 11]), Err(Error::IntSizeViolation));
}

#[test]
fn signed_leb128_examples() {
    assert_eq!(parse_signed_leb128(&[0x7F]), Ok((-1, 1)));
    assert_eq!(parse_signed_leb128(&[0x3F]), Ok((63, 1)));
    assert_eq!(parse_signed_leb128(&[0xC0, 0xBB, 0x78]), Ok((-123456, 3)));
    assert_eq!(parse_signed_leb128(&[0x80, 0x80, 0x80, 0x80, 0x78]), Ok((-2147483648, 5)));
    assert_eq!(
        parse_signed_leb128(&[0x80, 0x80, 0x80, 0x80, 0x80, 0x80, 0x80, 0x80, 0x80, 0x7F]),
        Ok((i64::MIN, 10))
    );
}

#[test]
fn leb128_round_trip_examples() {
    for v in [0u64, 1, 127, 128, 300, 624485, 1 << 35, u64::MAX] {
        let mut bytes = Vec::new();
        let mut rest = v;
        loop {
            let group = (rest & 0x7F) as u8;
            rest >>= 7;
            if rest == 0 {
                bytes.push(group);
                break;
            }
            bytes.push(group | 0x80);
        }
        assert_eq!(parse_unsigned_leb128(&bytes), Ok((v, bytes.len())));
    }
    for v in [0i64, -1, 63, -64, 64, -65, 123456, -123456, i64::MIN, i64::MAX] {
        let mut bytes = Vec::new();
        let mut rest = v;
        loop {
            let group = (rest & 0x7F) as u8;
            rest >>= 7;
            let done = (rest == 0 && group & 0x40 == 0) || (rest == -1 && group & 0x40 != 0);
            if done {
                bytes.push(group);
                break;
            }
            bytes.push(group | 0x80);
        }
        assert_eq!(parse_signed_leb128(&bytes), Ok((v, bytes.len())));
    }
}

#[test]
fn reader_reads_integers_and_floats() {
    let mut r = ByteReader::new(&[0x05, 0x7F, 0x00, 0x00, 0xC0, 0x3F, 0x80, 0x80, 0x80, 0x80, 0x10]);
    assert_eq!(r.read_u32(), Ok(5));
    assert_eq!(r.read_i32(), Ok(-1));
    assert_eq!(r.read_f32(), Ok(1.5f32.to_bits()));
    assert_eq!(r.read_u32(), Err(Error::IntSizeViolation));
}

#[test]
fn reader_reports_end_of_data() {
    let mut r = ByteReader::new(&[0x01, 0x02]);
    assert_eq!(r.read_byte(), Ok(0x01));
    assert_eq!(r.read_f64(), Err(Error::FloatSizeViolation));
    assert_eq!(r.read_bytes(2), Err(Error::EndOfData));
    assert_eq!(r.read_bytes(1), Ok(vec![0x02]));
    assert_eq!(r.read_byte(), Err(Error::EndOfData));
}

#[test]
fn reader_reads_types_and_names() {
    let mut r = ByteReader::new(&[0x7E, 0x60, 0x03, b'a', b'b', b'c']);
    assert_eq!(r.read_primitive_type(), Ok(PrimitiveType::I64));
    assert!(matches!(r.read_primitive_type(), Err(Error::UnexpectedData(_))));
    assert_eq!(r.read_name(), Ok(String::from("abc")));
}

#[test]
fn function_type_is_read() {
    let mut r = ByteReader::new(&[0x60, 0x02, 0x7F, 0x7C, 0x01, 0x7E]);
    let t = r.read_function_type().unwrap();
    assert_eq!(t.params, vec![PrimitiveType::I32, PrimitiveType::F64]);
    assert_eq!(t.results, vec![PrimitiveType::I64]);
    let mut bad = ByteReader::new(&[0x61]);
    assert!(matches!(bad.read_function_type(), Err(Error::UnexpectedData(_))));
}

#[test]
fn instruction_decoding() {
    let mut r = ByteReader::new(&[0x6A, 0x0B, 0x20, 0x03, 0xBF]);
    assert!(matches!(
        r.read_inst(),
        Ok(Some(Instruction::IBinOp(IBinOp { result_type: PrimitiveType::I32, op_type: IBinOpType::Add })))
    ));
    assert!(matches!(r.read_inst(), Ok(None)));
    assert!(matches!(r.read_inst(), Ok(Some(Instruction::LocalGet(g))) if g.index == 3));
    assert!(matches!(
        r.read_inst(),
        Ok(Some(Instruction::CvtOp(CvtOp { op_type: CvtOpType::Reinterpret(PrimitiveType::I64) })))
    ));
    assert!(matches!(r.read_inst(), Err(Error::EndOfData)));
    assert!(matches!(
        numeric_instruction(0x7F),
        Instruction::IBinOp(IBinOp { result_type: PrimitiveType::I64, op_type: IBinOpType::Div(Signedness::Signed) })
    ));
}

#[test]
fn wrapping_arithmetic() {
    assert_eq!(exec_ibinop32(IBinOpType::Add, i32::MAX as u32, 1), Some(i32::MIN as u32));
    assert_eq!(exec_ibinop32(IBinOpType::Sub, 0, 1), Some(u32::MAX));
    assert_eq!(exec_ibinop32(IBinOpType::Mul, 0x10000, 0x10000), Some(0));
    assert_eq!(exec_ibinop64(IBinOpType::Add, u64::MAX, 2), Some(1));
    assert_eq!(exec_ibinop64(IBinOpType::Mul, (-3i64) as u64, 5), Some((-15i64) as u64));
}

#[test]
fn division_semantics() {
    let m7 = (-7i32) as u32;
    assert_eq!(exec_ibinop32(IBinOpType::Div(Signedness::Signed), m7, 2), Some((-3i32) as u32));
    assert_eq!(exec_ibinop32(IBinOpType::Rem(Signedness::Signed), m7, 2), Some((-1i32) as u32));
    assert_eq!(exec_ibinop32(IBinOpType::Div(Signedness::Unsigned), m7, 2), Some(m7 / 2));
    assert_eq!(exec_ibinop32(IBinOpType::Rem(Signedness::Unsigned), 7, 4), Some(3));
    assert_eq!(
        exec_ibinop32(IBinOpType::Rem(Signedness::Signed), i32::MIN as u32, u32::MAX),
        Some(0)
    );
    assert_eq!(
        exec_ibinop64(IBinOpType::Div(Signedness::Signed), (-9i64) as u64, (-2i64) as u64),
        Some(4)
    );
}

#[test]
fn division_traps() {
    assert_eq!(exec_ibinop32(IBinOpType::Div(Signedness::Signed), i32::MIN as u32, u32::MAX), None);
    assert_eq!(exec_ibinop64(IBinOpType::Div(Signedness::Signed), i64::MIN as u64, u64::MAX), None);
    for s in [Signedness::Signed, Signedness::Unsigned] {
        assert_eq!(exec_ibinop32(IBinOpType::Div(s), 5, 0), None);
        assert_eq!(exec_ibinop32(IBinOpType::Rem(s), 5, 0), None);
        assert_eq!(exec_ibinop64(IBinOpType::Div(s), 5, 0), None);
        assert_eq!(exec_ibinop64(IBinOpType::Rem(s), 5, 0), None);
    }
}

#[test]
fn shifts_are_modular() {
    let v = 0x8000_0001u32;
    for k in [0u32, 1, 5, 31, 32, 33, 100] {
        for op in [
            IBinOpType::Shl,
            IBinOpType::Shr(Signedness::Signed),
            IBinOpType::Shr(Signedness::Unsigned),
            IBinOpType::Rotl,
            IBinOpType::Rotr,
        ] {
            assert_eq!(exec_ibinop32(op, v, k), exec_ibinop32(op, v, k % 32));
            assert_eq!(exec_ibinop64(op, v as u64, k as u64), exec_ibinop64(op, v as u64, (k % 64) as u64));
        }
    }
    assert_eq!(exec_ibinop32(IBinOpType::Shl, 1, 33), Some(2));
    assert_eq!(exec_ibinop32(IBinOpType::Shr(Signedness::Signed), 0x8000_0000, 1), Some(0xC000_0000));
    assert_eq!(exec_ibinop32(IBinOpType::Rotl, 0x8000_0001, 1), Some(3));
    assert_eq!(exec_ibinop32(IBinOpType::Rotr, 3, 1), Some(0x8000_0001));
}

#[test]
fn bit_counts_and_comparisons() {
    assert_eq!(exec_iunop32(IUnOpType::Clz, 1), 31);
    assert_eq!(exec_iunop32(IUnOpType::Ctz, 8), 3);
    assert_eq!(exec_iunop32(IUnOpType::Popcnt, 0xF0F0), 8);
    assert_eq!(exec_iunop64(IUnOpType::Popcnt, u64::MAX), 64);
    assert!(exec_irelop32(RelOpType::Lt(Signedness::Signed), u32::MAX, 0));
    assert!(!exec_irelop32(RelOpType::Lt(Signedness::Unsigned), u32::MAX, 0));
}

#[test]
fn memory_bounds() {
    let mut m = Memory::new(1, 1);
    assert_eq!(m.write(7, 32, 65532), Some(()));
    assert_eq!(m.write(7, 32, 65533), None);
    assert!(m.read(PrimitiveType::I32, 32, 65532).is_some());
    assert!(m.read(PrimitiveType::I32, 32, 65533).is_none());
    assert!(m.read(PrimitiveType::I64, 64, u64::MAX).is_none());
    let empty = Memory::empty();
    assert!(empty.read(PrimitiveType::I32, 8, 0).is_none());
}

#[test]
fn memory_store_load_round_trip() {
    let mut m = Memory::new(1, 2);
    let v = 0x1122_3344_5566_7788u64;
    for w in [8u8, 16, 32, 64] {
        assert_eq!(m.write(v, w, 40), Some(()));
        let r = m.read(PrimitiveType::I64, w, 40).unwrap();
        let mask = if w == 64 { u64::MAX } else { (1u64 << w) - 1 };
        assert_eq!(r.bits(), v & mask);
    }
    // little-endian layout, and unwritten bytes read as zero
    assert_eq!(m.read(PrimitiveType::I32, 8, 40).unwrap().bits(), 0x88);
    assert_eq!(m.read(PrimitiveType::I64, 64, 1000).unwrap().bits(), 0);
    assert_eq!(m.read(PrimitiveType::I32, 32, 36).unwrap().bits(), 0);
}

#[test]
fn load_and_store_instructions_trap_out_of_bounds() {
    let mut m = Memory::new(1, 1);
    let mut s = Stack::new();
    s.push_value(Value::from_i32(65535));
    s.push_value(Value::from_i32(9));
    assert_eq!(Store::new(16, 1, 0).execute(&mut s, &mut m), Ok(ControlInfo::Trap(Trap::MemoryOutOfBounds)));
    s.push_value(Value::from_i32(65534));
    s.push_value(Value::from_i32(0x0102));
    assert_eq!(Store::new(16, 1, 0).execute(&mut s, &mut m), Ok(ControlInfo::Continue));
    s.push_value(Value::from_i32(65530));
    assert_eq!(Load::new(PrimitiveType::I32, 32, 2, 4).execute(&mut s, &m), Ok(ControlInfo::Trap(Trap::MemoryOutOfBounds)));
    s.push_value(Value::from_i32(65530));
    assert_eq!(Load::new(PrimitiveType::I32, 32, 2, 2).execute(&mut s, &m), Ok(ControlInfo::Continue));
    assert_eq!(s.pop_value(), Ok(Value::from_i32(0x0102_0000)));
}

#[test]
fn integer_instruction_traps_and_type_checks() {
    let mut s = Stack::new();
    s.push_value(Value::from_i32(1));
    s.push_value(Value::from_i32(0));
    let div = IBinOp::new(PrimitiveType::I32, IBinOpType::Div(Signedness::Unsigned));
    assert_eq!(div.execute(&mut s), Ok(ControlInfo::Trap(Trap::UndefinedDivision)));
    assert_eq!(s.len(), 0);
    s.push_value(Value::from_i32(1));
    s.push_value(Value::from_i64(1));
    assert!(matches!(div.execute(&mut s), Err(Error::Misc(_))));
    assert_eq!(div.execute(&mut s), Err(Error::StackViolation));
}

#[test]
fn branch_depth_through_blocks() {
    assert_eq!(block_exit(BlockContinuation::Loop, ControlInfo::Branch(0)), None);
    assert_eq!(block_exit(BlockContinuation::Branch, ControlInfo::Branch(0)), Some(ControlInfo::Continue));
    assert_eq!(block_exit(BlockContinuation::Loop, ControlInfo::Branch(3)), Some(ControlInfo::Branch(2)));
    assert_eq!(block_exit(BlockContinuation::Branch, ControlInfo::Return), Some(ControlInfo::Return));
    // br 2 inside three blocks: the two inner ones are left, the outer loop restarts
    let levels = [BlockContinuation::Branch, BlockContinuation::Branch, BlockContinuation::Loop];
    let mut signal = ControlInfo::Branch(2);
    let mut left = 0;
    let mut restarted = false;
    for level in levels {
        match block_exit(level, signal) {
            None => {
                restarted = true;
                break;
            }
            Some(ControlInfo::Continue) => {
                left += 1;
                break;
            }
            Some(next) => {
                left += 1;
                signal = next;
            }
        }
    }
    assert_eq!(left, 2);
    assert!(restarted);
}

#[test]
fn stack_balance_at_return() {
    let mut s = Stack::new();
    assert_eq!(finish_call(&mut s, PrimitiveType::I32), Err(Error::StackViolation));
    s.push_value(Value::from_i32(4));
    assert_eq!(finish_call(&mut s, PrimitiveType::I32), Ok(Value::from_i32(4)));
    s.push_value(Value::from_i32(4));
    s.push_value(Value::from_i32(5));
    assert_eq!(finish_call(&mut s, PrimitiveType::I32), Err(Error::StackViolation));
    let mut t = Stack::new();
    t.push_value(Value::from_i64(4));
    assert!(matches!(finish_call(&mut t, PrimitiveType::I32), Err(Error::Misc(_))));
}

#[test]
fn conversions_without_floats() {
    let mut s = Stack::new();
    s.push_value(Value::from_i32(-1));
    let extend = CvtOp::new(CvtOpType::Extend(Signedness::Signed));
    struct NoFloats;
    impl wasm_interpreter::wasm::inst::FloatOps for NoFloats {
        fn f32_binop_spec(&self, op: wasm_interpreter::wasm::inst::FBinOpType, a: u32, b: u32) -> u32 {
            self.f32_binop(op, a, b)
        }

        fn f64_binop_spec(&self, op: wasm_interpreter::wasm::inst::FBinOpType, a: u64, b: u64) -> u64 {
            self.f64_binop(op, a, b)
        }

        fn f32_unop_spec(&self, op: wasm_interpreter::wasm::inst::FUnOpType, a: u32) -> u32 {
            self.f32_unop(op, a)
        }

        fn f64_unop_spec(&self, op: wasm_interpreter::wasm::inst::FUnOpType, a: u64) -> u64 {
            self.f64_unop(op, a)
        }

        fn f32_relop_spec(&self, op: RelOpType, a: u32, b: u32) -> bool {
            self.f32_relop(op, a, b)
        }

        fn f64_relop_spec(&self, op: RelOpType, a: u64, b: u64) -> bool {
            self.f64_relop(op, a, b)
        }

        fn convert_spec(&self, op: CvtOpType, a: u64) -> u64 {
            self.convert(op, a)
        }








        fn f32_binop(&self, _: wasm_interpreter::wasm::inst::FBinOpType, a: u32, _: u32) -> u32 { a }
        fn f64_binop(&self, _: wasm_interpreter::wasm::inst::FBinOpType, a: u64, _: u64) -> u64 { a }
        fn f32_unop(&self, _: wasm_interpreter::wasm::inst::FUnOpType, a: u32) -> u32 { a }
        fn f64_unop(&self, _: wasm_interpreter::wasm::inst::FUnOpType, a: u64) -> u64 { a }
        fn f32_relop(&self, _: RelOpType, _: u32, _: u32) -> bool { false }
        fn f64_relop(&self, _: RelOpType, _: u64, _: u64) -> bool { false }
        fn convert(&self, _: CvtOpType, a: u64) -> u64 { a }
    }
    assert_eq!(extend.execute(&mut s, &NoFloats), Ok(ControlInfo::Continue));
    assert_eq!(s.pop_value(), Ok(Value::from_i64(-1)));
    s.push_value(Value::from_i64(0x1_2345_6789));
    assert_eq!(CvtOp::new(CvtOpType::Wrap).execute(&mut s, &NoFloats), Ok(ControlInfo::Continue));
    assert_eq!(s.pop_value(), Ok(Value::from_i32(0x2345_6789)));
    s.push_value(Value::from_i32(-1));
    assert_eq!(CvtOp::new(CvtOpType::Extend(Signedness::Unsigned)).execute(&mut s, &NoFloats), Ok(ControlInfo::Continue));
    assert_eq!(s.pop_value(), Ok(Value::from_i64(0xFFFF_FFFF)));
    s.push_value(Value::from_f32_bits(0x3FC0_0000));
    assert_eq!(CvtOp::new(CvtOpType::Reinterpret(PrimitiveType::F32)).execute(&mut s, &NoFloats), Ok(ControlInfo::Continue));
    assert_eq!(s.pop_value(), Ok(Value::from_i32(0x3FC0_0000)));
}

#[test]
fn values_keep_their_width() {
    let v = Value::from_explicit_type(PrimitiveType::I32, 0xFFFF_FFFF_0000_0005);
    assert_eq!(v.bits(), 5);
    assert_eq!(Value::from(-2i32).as_i32(), -2);
    assert_eq!(Value::from(-2i64).as_i64(), -2);
    assert_eq!(Value::zero(PrimitiveType::F64).bits(), 0);
    assert!(Value::from_i64(1).as_u32().is_err());
    assert_eq!(Value::from_i32(-1).as_u32(), Ok(u32::MAX));
}

#[test]
fn runaway_loop_runs_out_of_fuel() {
    let mut f = Function::new(FunctionType::new(vec![], vec![PrimitiveType::I32]));
    f.push_inst(Instruction::Block(Block::new(
        BlockContinuation::Loop,
        vec![Instruction::Branch(Branch::new(0))],
    )));
    let functions: Vec<Function> = Vec::new();
    let mut memory = Memory::empty();
    assert_eq!(call_function(&f, &functions, &mut memory, vec![], &Unused, 1000), Err(Error::OutOfFuel));
    assert_eq!(call_function(&f, &functions, &mut memory, vec![], &Unused, 0), Err(Error::OutOfFuel));
}

#[test]
fn function_call_with_locals() {
    let mut f = Function::new(FunctionType::new(vec![PrimitiveType::I64], vec![PrimitiveType::I64]));
    f.new_locals(2, Value::zero(PrimitiveType::I64));
    f.push_inst(Instruction::Const(Const::new(Value::from_i64(9))));
    f.push_inst(Instruction::LocalSet(wasm_interpreter::wasm::inst::LocalSet::new(2)));
    f.push_inst(Instruction::LocalGet(wasm_interpreter::wasm::inst::LocalGet::new(2)));
    let functions: Vec<Function> = Vec::new();
    let mut memory = Memory::empty();
    assert_eq!(f.num_params(), 1);
    assert_eq!(f.call(&functions, &mut memory, vec![Value::from_i64(1)], &Unused), Ok(Value::from_i64(9)));
    assert!(matches!(f.call(&functions, &mut memory, vec![Value::from_i32(1)], &Unused), Err(Error::Misc(_))));
}

#[test]
fn module_bookkeeping() {
    let mut m = Module::new();
    m.add_function_type(FunctionType::new(vec![PrimitiveType::I32], vec![PrimitiveType::I32]));
    let t = m.get_function_type(0).unwrap();
    assert_eq!(t.params, vec![PrimitiveType::I32]);
    assert!(m.get_function_type(1).is_err());
    m.add_function(Function::new(t));
    assert_eq!(m.num_functions(), 1);
    assert_eq!(m.add_export(String::from("f"), Export::Function(0)), Ok(()));
    assert!(matches!(m.add_export(String::from("f"), Export::Memory(0)), Err(Error::Misc(_))));
    assert_eq!(m.find_export("f"), Some(Export::Function(0)));
    assert_eq!(m.find_export("g"), None);
    m.set_function_code(0, vec![], vec![Instruction::LocalGet(wasm_interpreter::wasm::inst::LocalGet::new(0))]);
    assert_eq!(m.call("f", vec![Value::from_i32(6)], &Unused), Ok(Value::from_i32(6)));
    m.get_mut_function(0).push_inst(Instruction::Const(Const::new(Value::from_i32(1))));
    assert_eq!(m.call("f", vec![Value::from_i32(6)], &Unused), Err(Error::StackViolation));
    m.add_memory(Memory::new(2, 3));
}

#[test]
fn memory_section_limits_and_errors() {
    let mut m = Module::new();
    assert_eq!(ModuleSection::new(5, &[0x01, 0x01, 0x01, 0x01]).update_module(&mut m), Ok(()));
    let mut m2 = Module::new();
    assert_eq!(ModuleSection::new(5, &[0x01, 0x00, 0x02]).update_module(&mut m2), Ok(()));
    let mut m3 = Module::new();
    assert!(matches!(
        ModuleSection::new(5, &[0x01, 0x02, 0x01]).update_module(&mut m3),
        Err(Error::UnexpectedData(_))
    ));
    assert!(matches!(
        ModuleSection::new(5, &[0x02, 0x00, 0x01, 0x00, 0x01]).update_module(&mut m3),
        Err(Error::Misc(_))
    ));
}

#[test]
fn duplicate_export_in_one_section_leaves_exports_alone() {
    let mut m = Module::new();
    let r = ModuleSection::new(7, &[0x02, 0x01, b'a', 0x00, 0x00, 0x01, b'a', 0x02, 0x00])
        .update_module(&mut m);
    assert!(matches!(r, Err(Error::Misc(_))));
    assert_eq!(m.find_export("a"), None);
    assert_eq!(ModuleSection::new(7, &[0x01, 0x01, b'a', 0x02, 0x00]).update_module(&mut m), Ok(()));
    let r = ModuleSection::new(7, &[0x01, 0x01, b'a', 0x00, 0x00]).update_module(&mut m);
    assert!(matches!(r, Err(Error::Misc(_))));
    assert_eq!(m.find_export("a"), Some(Export::Memory(0)));
}

#[test]
fn saturating_truncation_prefix() {
    let mut r = ByteReader::new(&[0xFC, 0x03]);
    assert!(matches!(
        r.read_inst(),
        Ok(Some(Instruction::CvtOp(CvtOp {
            op_type: CvtOpType::TruncSat(Signedness::Unsigned, PrimitiveType::F64, PrimitiveType::I32)
        })))
    ));
    let mut bad = ByteReader::new(&[0xFC, 0x08]);
    assert!(matches!(bad.read_inst(), Err(Error::UnknownSecondaryOpcode(8))));
}

#[test]
fn blocks_keep_their_bodies() {
    // loop (empty type): i32.const 1; br_if 0; end; then the outer end
    let mut r = ByteReader::new(&[0x03, 0x40, 0x41, 0x01, 0x0D, 0x00, 0x0B, 0x0B]);
    match r.read_inst() {
        Ok(Some(Instruction::Block(b))) => {
            assert_eq!(b.continuation, BlockContinuation::Loop);
            assert_eq!(b.instructions.len(), 2);
            assert!(matches!(b.instructions[1], Instruction::BranchIf(_)));
        }
        _ => panic!("expected a loop"),
    }
    assert!(matches!(r.read_inst(), Ok(None)));
}

#[test]
fn code_section_fills_locals_with_zeros() {
    let mut m = Module::new();
    m.add_function_type(FunctionType::new(vec![], vec![PrimitiveType::I64]));
    m.add_function(Function::new(m.get_function_type(0).unwrap()));
    m.add_export(String::from("f"), Export::Function(0)).unwrap();
    // one body: 2 locals of i64 and 1 of f32; local.get 1; end
    let body = [0x02, 0x02, 0x7E, 0x01, 0x7D, 0x20, 0x01, 0x0B];
    let mut code = vec![0x01, body.len() as u8];
    code.extend_from_slice(&body);
    assert_eq!(ModuleSection::new(10, &code).update_module(&mut m), Ok(()));
    assert_eq!(m.call("f", vec![], &Unused), Ok(Value::from_i64(0)));
}

#[test]
fn float_reads_keep_position_on_short_data() {
    let mut r = ByteReader::new(&[0x01, 0x02, 0x03]);
    assert_eq!(r.read_f32(), Err(Error::FloatSizeViolation));
    assert_eq!(r.read_byte(), Ok(0x01));
}
