use vstd::prelude::*;

use crate::error::Error;
use crate::wasm::inst::{call_function, exec_invoke, matches_call, FloatOps, Instruction};

pub mod inst;

verus! {

/// The four numeric types of a value.
#[derive(Clone, Copy, Debug, PartialEq, Eq, Structural)]
pub enum PrimitiveType {
    I32,
    I64,
    F32,
    F64,
}

impl PrimitiveType {
    /// The 32-bit types keep their payload in the low 32 bits.
    pub open spec fn is_narrow(self) -> bool {
        self == PrimitiveType::I32 || self == PrimitiveType::F32
    }
}

/// The payload that a value of type `t` holds for the 64 bits `v`: the
/// 32-bit types keep the low half.
pub open spec fn payload_of(t: PrimitiveType, v: u64) -> u64 {
    if t.is_narrow() {
        v as u32 as u64
    } else {
        v
    }
}

/// A typed value: a tag and 64 bits of payload, read according to the tag.
/// Floats are held as their IEEE-754 bit patterns.
#[derive(Clone, Copy, Debug, PartialEq, Eq, Structural)]
pub struct Value {
    pub t: PrimitiveType,
    pub v: u64,
}

impl Value {
    /// A value of type `t` whose payload is `v`, cut to the width of `t`.
    pub fn from_explicit_type(t: PrimitiveType, v: u64) -> (r: Value)
        ensures
            r.t == t,
            r.v == payload_of(t, v),
    {
        let v = match t {
            PrimitiveType::I32 | PrimitiveType::F32 => v as u32 as u64,
            _ => v,
        };
        Value { t, v }
    }

    /// The zero of type `t` (integer 0, float +0.0).
    pub fn zero(t: PrimitiveType) -> (r: Value)
        ensures
            r.t == t,
            r.v == 0,
    {
        Value { t, v: 0 }
    }

    pub fn from_i32(x: i32) -> (r: Value)
        ensures
            r.t == PrimitiveType::I32,
            r.v == x as u32 as u64,
            r.as_i32_spec() == x,
    {
        assert(x as u32 as u64 as u32 as i32 == x) by (bit_vector);
        Value { t: PrimitiveType::I32, v: x as u32 as u64 }
    }

    pub fn from_i64(x: i64) -> (r: Value)
        ensures
            r.t == PrimitiveType::I64,
            r.v == x as u64,
            r.as_i64_spec() == x,
    {
        assert(x as u64 as i64 == x) by (bit_vector);
        Value { t: PrimitiveType::I64, v: x as u64 }
    }

    /// A 32-bit float given by its bit pattern.
    pub fn from_f32_bits(bits: u32) -> (r: Value)
        ensures
            r.t == PrimitiveType::F32,
            r.v == bits as u64,
    {
        Value { t: PrimitiveType::F32, v: bits as u64 }
    }

    /// A 64-bit float given by its bit pattern.
    pub fn from_f64_bits(bits: u64) -> (r: Value)
        ensures
            r.t == PrimitiveType::F64,
            r.v == bits,
    {
        Value { t: PrimitiveType::F64, v: bits }
    }

    pub open spec fn as_i32_spec(self) -> i32 {
        self.v as u32 as i32
    }

    pub open spec fn as_i64_spec(self) -> i64 {
        self.v as i64
    }

    pub fn value_type(&self) -> (r: PrimitiveType)
        ensures
            r == self.t,
    {
        self.t
    }

    /// The raw payload.
    pub fn bits(&self) -> (r: u64)
        ensures
            r == self.v,
    {
        self.v
    }

    /// The payload read as a 32-bit integer (its low 32 bits).
    pub fn as_i32(&self) -> (r: i32)
        ensures
            r == self.as_i32_spec(),
    {
        self.v as u32 as i32
    }

    /// The payload read as a 64-bit integer.
    pub fn as_i64(&self) -> (r: i64)
        ensures
            r == self.as_i64_spec(),
    {
        self.v as i64
    }

    /// The payload read as an unsigned address, for an `i32` value only.
    pub fn as_u32(&self) -> (r: Result<u32, Error>)
        ensures
            self.t == PrimitiveType::I32 ==> r == Ok::<u32, Error>(self.v as u32),
            self.t != PrimitiveType::I32 ==> r matches Err(Error::Misc(_)),
    {
        match self.t {
            PrimitiveType::I32 => Ok(self.v as u32),
            _ => Err(Error::Misc("Cannot extract as u32 from incorrect type")),
        }
    }
}

impl From<i32> for Value {
    fn from(x: i32) -> (r: Value) {
        Value { t: PrimitiveType::I32, v: x as u32 as u64 }
    }
}

impl vstd::std_specs::convert::FromSpecImpl<i32> for Value {
    open spec fn obeys_from_spec() -> bool {
        true
    }

    open spec fn from_spec(x: i32) -> Value {
        Value { t: PrimitiveType::I32, v: x as u32 as u64 }
    }
}

impl From<i64> for Value {
    fn from(x: i64) -> (r: Value) {
        Value { t: PrimitiveType::I64, v: x as u64 }
    }
}

impl vstd::std_specs::convert::FromSpecImpl<i64> for Value {
    open spec fn obeys_from_spec() -> bool {
        true
    }

    open spec fn from_spec(x: i64) -> Value {
        Value { t: PrimitiveType::I64, v: x as u64 }
    }
}

/// Runtime failures that a well-formed program runs into.
#[derive(Clone, Copy, Debug, PartialEq, Eq, Structural)]
pub enum Trap {
    MemoryOutOfBounds,
    UndefinedDivision,
}

/// What an instruction hands to the blocks around it.
#[derive(Clone, Copy, Debug, PartialEq, Eq, Structural)]
pub enum ControlInfo {
    /// Leave this many enclosing blocks more, then go on as that block says.
    Branch(u32),
    /// Leave the function.
    Return,
    Trap(Trap),
    /// Go on with the next instruction.
    Continue,
}

/// The value stack of one function activation; its top is the last element.
pub struct Stack {
    values: Vec<Value>,
}

impl View for Stack {
    type V = Seq<Value>;

    closed spec fn view(&self) -> Seq<Value> {
        self.values@
    }
}

impl Stack {
    pub fn new() -> (r: Stack)
        ensures
            r@ == Seq::<Value>::empty(),
    {
        Stack { values: Vec::new() }
    }

    pub fn len(&self) -> (r: usize)
        ensures
            r == self@.len(),
    {
        self.values.len()
    }

    pub fn push_value(&mut self, v: Value)
        ensures
            final(self)@ == old(self)@.push(v),
    {
        self.values.push(v);
    }

    pub fn pop_value(&mut self) -> (r: Result<Value, Error>)
        ensures
            old(self)@.len() == 0 ==> r == Err::<Value, Error>(Error::StackViolation)
                && final(self)@ == old(self)@,
            old(self)@.len() > 0 ==> r == Ok::<Value, Error>(old(self)@.last())
                && final(self)@ == old(self)@.drop_last(),
    {
        match self.values.pop() {
            Some(n) => Ok(n),
            None => Err(Error::StackViolation),
        }
    }

    /// The value `offset` places below the top (0 is the most recent).
    pub fn fetch_value(&self, offset: usize) -> (r: Result<&Value, Error>)
        ensures
            offset < self@.len() ==> r == Ok::<&Value, Error>(
                &self@[self@.len() - 1 - offset],
            ),
            offset >= self@.len() ==> r == Err::<&Value, Error>(Error::StackViolation),
    {
        let stack_size = self.values.len();
        if offset >= stack_size {
            return Err(Error::StackViolation);
        }
        Ok(&self.values[stack_size - 1 - offset])
    }

    pub fn assert_empty(&self) -> (r: Result<(), Error>)
        ensures
            r is Ok <==> self@.len() == 0,
            r is Err ==> r == Err::<(), Error>(Error::StackViolation),
    {
        if self.values.len() == 0 {
            Ok(())
        } else {
            Err(Error::StackViolation)
        }
    }
}


/// Bytes in one page of linear memory.
pub const PAGE_SIZE: u64 = 0x10000;

/// `256` to the power `n`.
pub open spec fn pow256(n: nat) -> nat
    decreases n,
{
    if n == 0 {
        1
    } else {
        256 * pow256((n - 1) as nat)
    }
}

/// The byte at address `a` of a memory whose written region is `bytes`:
/// what lies past that region reads as zero.
pub open spec fn mem_byte(bytes: Seq<u8>, a: int) -> u8 {
    if 0 <= a < bytes.len() {
        bytes[a]
    } else {
        0
    }
}

/// The `n` bytes at address `a`, read as a little-endian number.
pub open spec fn le_value(bytes: Seq<u8>, a: int, n: nat) -> nat
    decreases n,
{
    if n == 0 {
        0
    } else {
        (mem_byte(bytes, a) + 256 * le_value(bytes, a + 1, (n - 1) as nat)) as nat
    }
}

/// Byte `j` of `v` in little-endian order.
pub open spec fn byte_of(v: u64, j: nat) -> u8 {
    ((v as nat / pow256(j)) % 256) as u8
}

/// The written region after a store of the low `bitwidth` bits of `value`
/// at `address`: grown with zeros to reach the last byte stored, if needed.
pub open spec fn store_bytes(before: Seq<u8>, value: u64, bitwidth: u8, address: u64) -> Seq<u8> {
    let end = address + bitwidth / 8;
    let len = if before.len() >= end {
        before.len() as int
    } else {
        end
    };
    Seq::new(
        len as nat,
        |i: int|
            if address <= i < end {
                byte_of(value, (i - address) as nat)
            } else {
                mem_byte(before, i)
            },
    )
}

/// Whether `after` is `before` with the low `bitwidth` bits of `value`
/// stored little-endian at `address`.
pub open spec fn stored(before: Seq<u8>, after: Seq<u8>, value: u64, bitwidth: u8, address: u64) -> bool {
    forall|i: int|
        #![trigger mem_byte(after, i)]
        mem_byte(after, i) == if address <= i < address + bitwidth / 8 {
            byte_of(value, (i - address) as nat)
        } else {
            mem_byte(before, i)
        }
}

/// Whether the `n` bytes at `a` lie within `pages` pages.
pub open spec fn in_bounds(pages: nat, a: int, n: nat) -> bool {
    a + n <= pages * PAGE_SIZE
}

pub(crate) proof fn lemma_pow256_monotone(i: nat, j: nat)
    requires
        i <= j,
    ensures
        1 <= pow256(i) <= pow256(j),
    decreases j,
{
    if i < j {
        lemma_pow256_monotone(i, (j - 1) as nat);
    } else if j > 0 {
        lemma_pow256_monotone(0, (j - 1) as nat);
    }
}

proof fn lemma_pow256_eight()
    ensures
        pow256(8) == 0x1_0000_0000_0000_0000,
{
    reveal_with_fuel(pow256, 9);
}

proof fn lemma_le_value_bound(bytes: Seq<u8>, a: int, n: nat)
    ensures
        le_value(bytes, a, n) < pow256(n),
    decreases n,
{
    if n > 0 {
        lemma_le_value_bound(bytes, a + 1, (n - 1) as nat);
    }
}

proof fn lemma_stored_window(after: Seq<u8>, value: u64, address: int, j: nat, m: nat)
    requires
        forall|i: nat| #![trigger mem_byte(after, address + i)]
            j <= i < j + m ==> mem_byte(after, address + i) == byte_of(value, i),
    ensures
        le_value(after, address + j, m) == (value as nat / pow256(j)) % pow256(m),
    decreases m,
{
    let x = value as nat / pow256(j);
    lemma_pow256_monotone(0, j);
    if m == 0 {
        assert(pow256(0) == 1);
    } else {
        lemma_pow256_monotone(0, (m - 1) as nat);
        assert(mem_byte(after, address + j) == byte_of(value, j));
        lemma_stored_window(after, value, address, j + 1, (m - 1) as nat);
        assert(address + j + 1 == address + (j + 1));
        vstd::arithmetic::div_mod::lemma_div_denominator(value as int, pow256(j) as int, 256);
        assert(pow256(j + 1) == pow256(j) * 256);
        assert(value as nat / pow256(j + 1) == x / 256);
        vstd::arithmetic::div_mod::lemma_mod_breakdown(x as int, 256, pow256((m - 1) as nat) as int);
        assert(pow256(m) == 256 * pow256((m - 1) as nat));
    }
}

/// A load of `bitwidth` bits at `address` right after a store of `value`
/// with the same width at the same address reads back the low `bitwidth`
/// bits of `value`.
pub proof fn lemma_store_load_round_trip(
    before: Seq<u8>,
    after: Seq<u8>,
    value: u64,
    bitwidth: u8,
    address: u64,
)
    requires
        bitwidth % 8 == 0,
        bitwidth <= 64,
        stored(before, after, value, bitwidth, address),
    ensures
        le_value(after, address as int, (bitwidth / 8) as nat) == value as nat % pow256(
            (bitwidth / 8) as nat,
        ),
        bitwidth == 64 ==> le_value(after, address as int, 8) == value,
{
    let n = (bitwidth / 8) as nat;
    assert forall|i: nat| #![trigger mem_byte(after, address + i)]
        0 <= i < 0 + n implies mem_byte(after, address + i) == byte_of(value, i) by {
        assert(address <= address + i < address + bitwidth / 8);
    }
    lemma_stored_window(after, value, address as int, 0, n);
    assert(pow256(0) == 1);
    assert(address + 0 == address);
    assert(le_value(after, address as int, n) == (value as nat / pow256(0)) % pow256(n));
    assert(value as nat / 1 == value as nat);
    if bitwidth == 64 {
        assert(n == 8);
        lemma_pow256_eight();
        vstd::arithmetic::div_mod::lemma_small_mod(value as nat, pow256(8));
    }
}

/// The abstract state of a linear memory.
pub struct MemoryView {
    /// The region written so far.
    pub bytes: Seq<u8>,
    /// The current size in pages.
    pub pages: nat,
    /// The largest size in pages.
    pub max_pages: nat,
}

/// A paged linear memory. Accesses are checked against the current size in
/// pages; the byte buffer grows on writes, never past that size.
pub struct Memory {
    bytes: Vec<u8>,
    virtual_size_pages: u32,
    upper_limit_pages: u32,
}

impl View for Memory {
    type V = MemoryView;

    closed spec fn view(&self) -> MemoryView {
        MemoryView {
            bytes: self.bytes@,
            pages: self.virtual_size_pages as nat,
            max_pages: self.upper_limit_pages as nat,
        }
    }
}

impl Memory {
    /// The written region never reaches past the current size.
    pub open spec fn wf(&self) -> bool {
        self@.bytes.len() <= self@.pages * PAGE_SIZE
    }

    pub fn new(min: u32, max: u32) -> (r: Memory)
        ensures
            r@.bytes.len() == 0,
            r@.pages == min,
            r@.max_pages == max,
            r.wf(),
    {
        Memory { bytes: Vec::new(), virtual_size_pages: min, upper_limit_pages: max }
    }

    /// A memory of no pages: every access is out of bounds.
    pub fn empty() -> (r: Memory)
        ensures
            r@.bytes.len() == 0,
            r@.pages == 0,
            r@.max_pages == 0,
            r.wf(),
    {
        Memory::new(0, 0)
    }

    /// The current size in pages.
    pub fn pages(&self) -> (r: u32)
        ensures
            r == self@.pages,
    {
        self.virtual_size_pages
    }

    fn byte(&self, a: u64) -> (r: u8)
        ensures
            r == mem_byte(self@.bytes, a as int),
    {
        if a < self.bytes.len() as u64 {
            self.bytes[a as usize]
        } else {
            0
        }
    }

    /// Stores the low `bitwidth` bits of `value`, little-endian, at
    /// `address`. Returns `None`, and changes nothing, when the bytes do not
    /// lie within the current size.
    pub fn write(&mut self, value: u64, bitwidth: u8, address: u64) -> (r: Option<()>)
        requires
            bitwidth % 8 == 0,
            bitwidth <= 64,
        ensures
            r is Some <==> in_bounds(old(self)@.pages, address as int, (bitwidth / 8) as nat),
            r is None ==> final(self)@ == old(self)@,
            final(self)@.pages == old(self)@.pages,
            final(self)@.max_pages == old(self)@.max_pages,
            old(self).wf() ==> final(self).wf(),
            r is Some ==> stored(old(self)@.bytes, final(self)@.bytes, value, bitwidth, address),
            r is Some ==> final(self)@.bytes == store_bytes(old(self)@.bytes, value, bitwidth, address),
    {
        let count = (bitwidth / 8) as u64;
        let limit = PAGE_SIZE * self.virtual_size_pages as u64;
        if address > limit || count > limit - address {
            return None;
        }
        let end = address + count;
        let ghost old_bytes = self.bytes@;
        while (self.bytes.len() as u64) < end
            invariant
                end <= limit,
                limit == PAGE_SIZE * self.virtual_size_pages,
                self.virtual_size_pages == old(self).virtual_size_pages,
                self.upper_limit_pages == old(self).upper_limit_pages,
                old_bytes.len() <= self.bytes@.len(),
                self.bytes@.len() <= if old_bytes.len() <= end { end as int } else { old_bytes.len() as int },
                forall|i: int| #![trigger self.bytes@[i]]
                    0 <= i < self.bytes@.len() ==> self.bytes@[i] == mem_byte(old_bytes, i),
            decreases end - self.bytes@.len(),
        {
            self.bytes.push(0);
        }
        let ghost grown = self.bytes@;
        assert forall|i: int| #![trigger mem_byte(grown, i)]
            mem_byte(grown, i) == mem_byte(old_bytes, i) by {
            if 0 <= i < grown.len() {
                assert(grown[i] == mem_byte(old_bytes, i));
            }
        }
        assert(pow256(0) == 1);
        let mut rest = value;
        let mut k: u64 = 0;
        while k < count
            invariant
                k <= count,
                count <= 8,
                end == address + count,
                end <= self.bytes@.len(),
                self.bytes@.len() == grown.len(),
                self.virtual_size_pages == old(self).virtual_size_pages,
                self.upper_limit_pages == old(self).upper_limit_pages,
                rest == value as nat / pow256(k as nat),
                forall|i: int| #![trigger mem_byte(self.bytes@, i)]
                    mem_byte(self.bytes@, i) == if address <= i < address + k {
                        byte_of(value, (i - address) as nat)
                    } else {
                        mem_byte(grown, i)
                    },
            decreases count - k,
        {
            proof {
                lemma_pow256_monotone(0, k as nat);
                vstd::arithmetic::div_mod::lemma_div_denominator(value as int, pow256(k as nat) as int, 256);
                assert(pow256((k + 1) as nat) == pow256(k as nat) * 256);
            }
            let len = self.bytes.len();
            assert(address + k < len);
            let a = (address + k) as usize;
            let ghost before = self.bytes@;
            self.bytes.set(a, (rest % 256) as u8);
            proof {
                assert forall|i: int| #![trigger mem_byte(self.bytes@, i)]
                    mem_byte(self.bytes@, i) == if address <= i < address + k + 1 {
                        byte_of(value, (i - address) as nat)
                    } else {
                        mem_byte(grown, i)
                    } by {
                    if i == a {
                        assert(self.bytes@[i] == (rest % 256) as u8);
                    } else {
                        assert(mem_byte(self.bytes@, i) == mem_byte(before, i));
                    }
                }
            }
            rest = rest / 256;
            k = k + 1;
        }
        proof {
            let target = store_bytes(old_bytes, value, bitwidth, address);
            assert(self.bytes@.len() == target.len());
            assert forall|i: int| 0 <= i < self.bytes@.len() implies self.bytes@[i] == target[i] by {
                assert(mem_byte(self.bytes@, i) == self.bytes@[i]);
            }
            assert(self.bytes@ =~= target);
        }
        Some(())
    }

    /// Reads `bitwidth / 8` bytes at `address`, little-endian, as a value of
    /// type `result_type`. Returns `None` when the bytes do not lie within
    /// the current size.
    pub fn read(&self, result_type: PrimitiveType, bitwidth: u8, address: u64) -> (r: Option<Value>)
        requires
            bitwidth % 8 == 0,
            bitwidth <= 64,
        ensures
            r is Some <==> in_bounds(self@.pages, address as int, (bitwidth / 8) as nat),
            r is Some ==> r->0.t == result_type && r->0.v == payload_of(
                result_type,
                le_value(self@.bytes, address as int, (bitwidth / 8) as nat) as u64,
            ),
            r is Some ==> le_value(self@.bytes, address as int, (bitwidth / 8) as nat)
                < pow256((bitwidth / 8) as nat),
    {
        let count = (bitwidth / 8) as u64;
        let limit = PAGE_SIZE * self.virtual_size_pages as u64;
        if address > limit || count > limit - address {
            return None;
        }
        let mut result: u64 = 0;
        let mut k: u64 = count;
        while k > 0
            invariant
                k <= count,
                count <= 8,
                address + count <= limit,
                result == le_value(self@.bytes, address + k, (count - k) as nat),
            decreases k,
        {
            proof {
                lemma_le_value_bound(self@.bytes, address + k, (count - k) as nat);
                lemma_pow256_monotone((count - k) as nat, 7);
                reveal_with_fuel(pow256, 8);
            }
            k = k - 1;
            let b = self.byte(address + k);
            result = result * 256 + b as u64;
        }
        proof {
            lemma_le_value_bound(self@.bytes, address as int, count as nat);
        }
        Some(Value::from_explicit_type(result_type, result))
    }
}

/// Parameter types and result types of a function.
#[derive(Debug)]
pub struct FunctionType {
    pub params: Vec<PrimitiveType>,
    pub results: Vec<PrimitiveType>,
}

impl FunctionType {
    /// A copy of this type.
    pub fn duplicate(&self) -> (r: Self)
        ensures
            r.params@ == self.params@,
            r.results@ == self.results@,
    {
        let mut params: Vec<PrimitiveType> = Vec::new();
        let mut i: usize = 0;
        while i < self.params.len()
            invariant
                i <= self.params@.len(),
                params@ == self.params@.subrange(0, i as int),
            decreases self.params@.len() - i,
        {
            params.push(self.params[i]);
            i = i + 1;
            assert(params@ =~= self.params@.subrange(0, i as int));
        }
        let mut results: Vec<PrimitiveType> = Vec::new();
        let mut j: usize = 0;
        while j < self.results.len()
            invariant
                j <= self.results@.len(),
                results@ == self.results@.subrange(0, j as int),
            decreases self.results@.len() - j,
        {
            results.push(self.results[j]);
            j = j + 1;
            assert(results@ =~= self.results@.subrange(0, j as int));
        }
        assert(params@ =~= self.params@);
        assert(results@ =~= self.results@);
        Self { params, results }
    }

    pub fn new(params: Vec<PrimitiveType>, results: Vec<PrimitiveType>) -> (r: Self)
        ensures
            r.params@ == params@,
            r.results@ == results@,
    {
        Self { params, results }
    }
}

/// What an export names, by index.
#[derive(Clone, Copy, Debug, PartialEq, Eq, Structural)]
pub enum Export {
    Function(usize),
    Table(usize),
    Memory(usize),
    Global(usize),
}

/// A function: its type, the initial values of the locals declared beyond
/// its parameters, and its body.
pub struct Function {
    pub ty: FunctionType,
    pub locals: Vec<Value>,
    pub instructions: Vec<Instruction>,
}

impl Function {
    pub fn new(ty: FunctionType) -> (r: Self)
        ensures
            r.ty.params@ == ty.params@,
            r.ty.results@ == ty.results@,
            r.locals@.len() == 0,
            r.instructions@.len() == 0,
    {
        Self { ty, locals: Vec::new(), instructions: Vec::new() }
    }

    pub fn push_inst(&mut self, i: Instruction)
        ensures
            final(self).instructions@ == old(self).instructions@.push(i),
            final(self).locals@ == old(self).locals@,
            final(self).ty == old(self).ty,
    {
        self.instructions.push(i);
    }

    pub fn new_local(&mut self, v: Value)
        ensures
            final(self).locals@ == old(self).locals@.push(v),
            final(self).instructions@ == old(self).instructions@,
            final(self).ty == old(self).ty,
    {
        self.locals.push(v);
    }

    /// Declares `count` more locals, each starting as `v`.
    pub fn new_locals(&mut self, count: usize, v: Value)
        ensures
            final(self).locals@ == old(self).locals@ + Seq::new(count as nat, |_i: int| v),
            final(self).instructions@ == old(self).instructions@,
            final(self).ty == old(self).ty,
    {
        let mut k: usize = 0;
        while k < count
            invariant
                k <= count,
                self.locals@ == old(self).locals@ + Seq::new(k as nat, |_i: int| v),
                self.instructions@ == old(self).instructions@,
                self.ty == old(self).ty,
            decreases count - k,
        {
            self.locals.push(v);
            k = k + 1;
            assert(self.locals@ =~= old(self).locals@ + Seq::new(k as nat, |_i: int| v));
        }
    }

    /// Calls this function on `args`; `functions` are the targets of its
    /// calls. The result has the declared result type.
    pub fn call<F: FloatOps>(
        &self,
        functions: &Vec<Function>,
        memory: &mut Memory,
        args: Vec<Value>,
        float: &F,
    ) -> (r: Result<Value, Error>)
        ensures
            old(memory).wf() ==> final(memory).wf(),
            args@.len() != self.ty.params@.len() ==> r is Err,
            self.ty.results@.len() != 1 ==> r is Err,
            r is Ok ==> self.ty.results@ == seq![r->Ok_0.t],
            exec_invoke(float, functions@, *self, args@, old(memory)@, u64::MAX as nat) matches Some((o, _))
                ==> matches_call(o, r, final(memory)@),
            exec_invoke(float, functions@, *self, args@, old(memory)@, u64::MAX as nat) is Some,
    {
        let r = call_function(self, functions, memory, args, float, u64::MAX);
        proof {
            if r is Ok {
                assert(self.ty.results@ =~= seq![r->Ok_0.t]);
            }
        }
        r
    }

    pub fn num_params(&self) -> (r: usize)
        ensures
            r == self.ty.params@.len(),
    {
        self.ty.params.len()
    }
}

/// The export named `name` among `exports`, the last one added first.
pub open spec fn lookup_export(exports: Seq<(Seq<char>, Export)>, name: Seq<char>) -> Option<Export>
    decreases exports.len(),
{
    if exports.len() == 0 {
        None
    } else if exports.last().0 == name {
        Some(exports.last().1)
    } else {
        lookup_export(exports.drop_last(), name)
    }
}

/// Whether no two exports share a name.
pub open spec fn unique_names(exports: Seq<(Seq<char>, Export)>) -> bool {
    forall|i: int, j: int| 0 <= i < j < exports.len() ==> exports[i].0 != exports[j].0
}

/// The abstract state of a module.
pub struct ModuleView {
    pub function_types: Seq<FunctionType>,
    pub functions: Seq<Function>,
    pub exports: Seq<(Seq<char>, Export)>,
    pub memory: MemoryView,
}

/// A decoded module: function types, functions, exports by name and one
/// linear memory.
pub struct Module {
    function_types: Vec<FunctionType>,
    functions: Vec<Function>,
    exports: Vec<(String, Export)>,
    memory: Memory,
}

impl View for Module {
    type V = ModuleView;

    closed spec fn view(&self) -> ModuleView {
        ModuleView {
            function_types: self.function_types@,
            functions: self.functions@,
            exports: self.exports@.map_values(|e: (String, Export)| (e.0@, e.1)),
            memory: self.memory@,
        }
    }
}

impl Module {
    /// Export names are unique and the memory is well formed.
    pub open spec fn wf(&self) -> bool {
        &&& unique_names(self@.exports)
        &&& self@.memory.bytes.len() <= self@.memory.pages * PAGE_SIZE
    }

    pub fn new() -> (r: Self)
        ensures
            r.wf(),
            r@.function_types.len() == 0,
            r@.functions.len() == 0,
            r@.exports.len() == 0,
            r@.memory.pages == 0,
    {
        Module {
            function_types: Vec::new(),
            functions: Vec::new(),
            exports: Vec::new(),
            memory: Memory::empty(),
        }
    }

    /// Calls the exported function `function_name` on `args`, with `float`
    /// for the floating-point instructions. Traps come back as
    /// `Error::Trap`.
    pub fn call<F: FloatOps>(&mut self, function_name: &str, args: Vec<Value>, float: &F) -> (r:
        Result<Value, Error>)
        requires
            old(self).wf(),
        ensures
            final(self).wf(),
            final(self)@.functions == old(self)@.functions,
            final(self)@.exports == old(self)@.exports,
            !(lookup_export(old(self)@.exports, function_name@) matches Some(Export::Function(i))
                && i < old(self)@.functions.len()) ==> (r matches Err(Error::Misc(_))),
            !(lookup_export(old(self)@.exports, function_name@) matches Some(Export::Function(i))
                && i < old(self)@.functions.len()) ==> final(self)@ == old(self)@,
            r is Ok ==> exists|i: usize|
                lookup_export(old(self)@.exports, function_name@) == Some(Export::Function(i))
                    && i < old(self)@.functions.len() && #[trigger] old(self)@.functions[i as int].ty.results@
                    == seq![r->Ok_0.t],
            lookup_export(old(self)@.exports, function_name@) matches Some(Export::Function(i))
                ==> i < old(self)@.functions.len() ==> (exec_invoke(float, 
                old(self)@.functions,
                old(self)@.functions[i as int],
                args@,
                old(self)@.memory,
                u64::MAX as nat,
            ) matches Some((o, _)) ==> matches_call(o, r, final(self)@.memory)),
            lookup_export(old(self)@.exports, function_name@) matches Some(Export::Function(i))
                ==> i < old(self)@.functions.len() ==> exec_invoke(
                float,
                old(self)@.functions,
                old(self)@.functions[i as int],
                args@,
                old(self)@.memory,
                u64::MAX as nat,
            ) is Some,
    {
        let function_index = match self.find_export(function_name) {
            Some(Export::Function(n)) => n,
            _ => return Err(Error::Misc("On module call, given name is not a function")),
        };
        if function_index >= self.functions.len() {
            return Err(Error::Misc("Function index given by export section is not valid"));
        }
        let r = call_function(
            &self.functions[function_index as usize],
            &self.functions,
            &mut self.memory,
            args,
            float,
            u64::MAX,
        );
        proof {
            assert(self@.functions == old(self)@.functions);
            assert(lookup_export(old(self)@.exports, function_name@) == Some(
                Export::Function(function_index),
            ));
            if r is Ok {
                let results = old(self)@.functions[function_index as int].ty.results@;
                assert(results =~= seq![r->Ok_0.t]);
            }
        }
        r
    }

    /// The export named `name`.
    pub fn find_export(&self, name: &str) -> (r: Option<Export>)
        ensures
            r == lookup_export(self@.exports, name@),
    {
        let key: String = name.to_owned();
        let mut i: usize = self.exports.len();
        assert(self@.exports.subrange(0, i as int) =~= self@.exports);
        while i > 0
            invariant
                i <= self.exports@.len(),
                key@ == name@,
                lookup_export(self@.exports, name@) == lookup_export(
                    self@.exports.subrange(0, i as int),
                    name@,
                ),
            decreases i,
        {
            let ghost prefix = self@.exports.subrange(0, i as int);
            assert(prefix.drop_last() =~= self@.exports.subrange(0, i - 1));
            assert(prefix.last() == (self.exports@[i - 1].0@, self.exports@[i - 1].1));
            if self.exports[i - 1].0 == key {
                return Some(self.exports[i - 1].1);
            }
            i = i - 1;
        }
        None
    }

    pub fn add_function_type(&mut self, ft: FunctionType)
        requires
            old(self).wf(),
        ensures
            final(self).wf(),
            final(self)@.function_types == old(self)@.function_types.push(ft),
            final(self)@.functions == old(self)@.functions,
            final(self)@.exports == old(self)@.exports,
            final(self)@.memory == old(self)@.memory,
    {
        self.function_types.push(ft);
    }

    /// A copy of the function type at index `i`.
    pub fn get_function_type(&self, i: usize) -> (r: Result<FunctionType, Error>)
        ensures
            i < self@.function_types.len() ==> r is Ok && r->Ok_0.params@
                == self@.function_types[i as int].params@ && r->Ok_0.results@
                == self@.function_types[i as int].results@,
            i >= self@.function_types.len() ==> r is Err,
    {
        if i >= self.function_types.len() {
            return Err(Error::Misc("Function type index out of range"));
        }
        Ok(self.function_types[i].duplicate())
    }

    pub fn add_function(&mut self, f: Function)
        requires
            old(self).wf(),
        ensures
            final(self).wf(),
            final(self)@.functions == old(self)@.functions.push(f),
            final(self)@.function_types == old(self)@.function_types,
            final(self)@.exports == old(self)@.exports,
            final(self)@.memory == old(self)@.memory,
    {
        self.functions.push(f);
    }

    pub fn num_functions(&self) -> (r: usize)
        ensures
            r == self@.functions.len(),
    {
        self.functions.len()
    }

    pub fn add_memory(&mut self, m: Memory)
        requires
            old(self).wf(),
            m.wf(),
        ensures
            final(self).wf(),
            final(self)@.memory == m@,
            final(self)@.functions == old(self)@.functions,
            final(self)@.function_types == old(self)@.function_types,
            final(self)@.exports == old(self)@.exports,
    {
        self.memory = m;
    }

    /// Whether some export is named `name`.
    pub fn has_export(&self, name: &String) -> (r: bool)
        ensures
            r <==> exists|i: int|
                0 <= i < self@.exports.len() && #[trigger] self@.exports[i].0 == name@,
    {
        let mut i: usize = 0;
        while i < self.exports.len()
            invariant
                i <= self.exports@.len(),
                forall|j: int| 0 <= j < i ==> self.exports@[j].0@ != name@,
            decreases self.exports@.len() - i,
        {
            if self.exports[i].0 == *name {
                assert(self@.exports[i as int].0 == name@);
                return true;
            }
            i = i + 1;
        }
        proof {
            assert forall|j: int| 0 <= j < self@.exports.len() implies #[trigger] self@.exports[j].0
                != name@ by {
                assert(self@.exports[j].0 == self.exports@[j].0@);
            }
        }
        false
    }

    /// Adds an export; a name may be exported once only.
    pub fn add_export(&mut self, name: String, export: Export) -> (r: Result<(), Error>)
        requires
            old(self).wf(),
        ensures
            final(self).wf(),
            final(self)@.functions == old(self)@.functions,
            final(self)@.function_types == old(self)@.function_types,
            r is Err <==> exists|i: int|
                0 <= i < old(self)@.exports.len() && #[trigger] old(self)@.exports[i].0 == name@,
            r is Ok ==> final(self)@.exports == old(self)@.exports.push((name@, export)),
            r is Err ==> final(self)@.exports == old(self)@.exports,
            r is Err ==> r matches Err(Error::Misc(_)),
            final(self)@.memory == old(self)@.memory,
    {
        let mut i: usize = 0;
        while i < self.exports.len()
            invariant
                i <= self.exports@.len(),
                self.wf(),
                self@ == old(self)@,
                forall|j: int| 0 <= j < i ==> self.exports@[j].0@ != name@,
            decreases self.exports@.len() - i,
        {
            if self.exports[i].0 == name {
                assert(self@.exports[i as int].0 == name@);
                return Err(Error::Misc("Expected a unique export name"));
            }
            i = i + 1;
        }
        proof {
            assert forall|j: int| 0 <= j < old(self)@.exports.len() implies #[trigger] old(
                self,
            )@.exports[j].0 != name@ by {
                assert(old(self)@.exports[j].0 == self.exports@[j].0@);
            }
        }
        self.exports.push((name, export));
        proof {
            assert(self@.exports =~= old(self)@.exports.push((name@, export)));
        }
        Ok(())
    }

    /// Gives the function at index `i` its declared locals, at their initial
    /// values, and its body.
    pub fn set_function_code(&mut self, i: usize, locals: Vec<Value>, instructions: Vec<Instruction>)
        requires
            old(self).wf(),
            i < old(self)@.functions.len(),
        ensures
            final(self).wf(),
            final(self)@.functions.len() == old(self)@.functions.len(),
            final(self)@.functions[i as int].locals@ == locals@,
            final(self)@.functions[i as int].instructions@ == instructions@,
            final(self)@.functions[i as int].ty.params@ == old(self)@.functions[i as int].ty.params@,
            final(self)@.functions[i as int].ty.results@ == old(self)@.functions[i as int].ty.results@,
            forall|j: int| 0 <= j < old(self)@.functions.len() && j != i ==> final(self)@.functions[j] == old(self)@.functions[j],
            final(self)@.function_types == old(self)@.function_types,
            final(self)@.exports == old(self)@.exports,
            final(self)@.memory == old(self)@.memory,
    {
        let ty = self.functions[i].ty.duplicate();
        self.functions.set(i, Function { ty, locals, instructions });
    }

    /// The function at index `i`, to fill in while decoding.
    pub fn get_mut_function(&mut self, i: usize) -> (r: &mut Function)
        requires
            i < old(self)@.functions.len(),
        ensures
            *r == old(self)@.functions[i as int],
            final(self)@.functions == old(self)@.functions.update(i as int, *final(r)),
            final(self)@.function_types == old(self)@.function_types,
            final(self)@.exports == old(self)@.exports,
            final(self)@.memory == old(self)@.memory,
            final(self).wf() == old(self).wf(),
    {
        &mut self.functions[i]
    }
}

} // verus!
