//! The CPU: a fetch-decode-execute loop over a fixed 4096-byte memory, a
//! 12-bit program counter and a signed 8-bit accumulator.
//!
//! Input is a forward-only byte stream; output is an append-only byte
//! sink.  Arithmetic wraps silently at 8 bits, the classic accumulator
//! machine behaviour.  Division by zero and the unimplemented `OS` call
//! are fatal; reading past the end of input yields zero and continues.

use vstd::prelude::*;

verus! {

/// The memory size: a 12-bit address space.
pub const MEM_SIZE: u16 = 4096;

/// A fatal runtime condition.  `StepLimit` reports that the step budget
/// given to `run` was spent before the program halted.
#[derive(Debug, Clone, Copy, PartialEq, Eq, Structural)]
pub enum CpuError {
    DivisionByZero,
    OsCallUnimplemented,
    AddressOutOfRange,
    StepLimit,
}

/// The machine as mathematics: memory, registers and both I/O streams.
pub ghost struct CpuState {
    pub mem: Seq<u8>,
    pub pc: u16,
    pub ac: i8,
    pub input: Seq<u8>,
    pub in_pos: int,
    pub output: Seq<u8>,
    pub halted: bool,
}

impl CpuState {
    /// Well-formed: full memory, input position within the stream.
    pub open spec fn wf(self) -> bool {
        &&& self.mem.len() == MEM_SIZE
        &&& 0 <= self.in_pos <= self.input.len()
    }
}

/// A byte read as a signed 8-bit value (two's complement).
pub open spec fn u8_to_i8(b: u8) -> i8 {
    if b < 128 {
        b as i8
    } else {
        (b - 256) as i8
    }
}

/// A signed 8-bit value stored as a byte (two's complement).
pub open spec fn i8_to_u8(a: i8) -> u8 {
    if a >= 0 {
        a as u8
    } else {
        (a + 256) as u8
    }
}

/// 8-bit wrapping sum of the accumulator and a memory byte read as signed.
pub open spec fn wrap_add(a: i8, b: u8) -> i8 {
    u8_to_i8(((i8_to_u8(a) + b) % 256) as u8)
}

/// 8-bit wrapping difference.
pub open spec fn wrap_sub(a: i8, b: u8) -> i8 {
    u8_to_i8(((i8_to_u8(a) - b + 256) % 256) as u8)
}

/// 8-bit wrapping product.
pub open spec fn wrap_mul(a: i8, b: u8) -> i8 {
    u8_to_i8(((i8_to_u8(a) * b) % 256) as u8)
}

/// Signed division truncating toward zero, wrapping on the one overflowing
/// quotient (the most negative value divided by minus one).
pub open spec fn trunc_div_i8(a: int, b: int) -> i8 {
    let ua = if a >= 0 {
        a
    } else {
        -a
    };
    let ub = if b >= 0 {
        b
    } else {
        -b
    };
    let q = ua / ub;
    if q == 128 {
        -128i8
    } else if (a < 0) != (b < 0) {
        (-q) as i8
    } else {
        q as i8
    }
}

/// The opcode: the high nibble of an instruction's first byte.
pub open spec fn opcode_of(msb: u8) -> u8 {
    msb / 16
}

/// The 12-bit argument: the low nibble of the first byte above the whole
/// second byte.
pub open spec fn arg_of(msb: u8, lsb: u8) -> u16 {
    ((msb % 16) * 256 + lsb) as u16
}

/// One decoded instruction applied to the state, the program counter
/// already moved past the instruction word.
pub open spec fn exec_instr(s: CpuState, msb: u8, lsb: u8) -> Result<CpuState, CpuError> {
    let op = opcode_of(msb);
    let arg = arg_of(msb, lsb);
    let a = arg as int;
    if op == 0 {
        Ok(CpuState { pc: arg, ..s })
    } else if op == 1 {
        Ok(CpuState { pc: if s.ac == 0 { arg } else { s.pc }, ..s })
    } else if op == 2 {
        Ok(CpuState { pc: if s.ac < 0 { arg } else { s.pc }, ..s })
    } else if op == 3 {
        Ok(CpuState { ac: u8_to_i8((arg % 256) as u8), ..s })
    } else if op == 4 {
        Ok(CpuState { ac: wrap_add(s.ac, s.mem[a]), ..s })
    } else if op == 5 {
        Ok(CpuState { ac: wrap_sub(s.ac, s.mem[a]), ..s })
    } else if op == 6 {
        Ok(CpuState { ac: wrap_mul(s.ac, s.mem[a]), ..s })
    } else if op == 7 {
        if s.mem[a] == 0 {
            Err(CpuError::DivisionByZero)
        } else {
            Ok(CpuState { ac: trunc_div_i8(s.ac as int, u8_to_i8(s.mem[a]) as int), ..s })
        }
    } else if op == 8 {
        Ok(CpuState { ac: u8_to_i8(s.mem[a]), ..s })
    } else if op == 9 {
        Ok(CpuState { mem: s.mem.update(a, i8_to_u8(s.ac)), ..s })
    } else if op == 10 {
        if a + 1 >= MEM_SIZE {
            Err(CpuError::AddressOutOfRange)
        } else {
            Ok(
                CpuState {
                    mem: s.mem.update(a, ((s.pc / 256) % 16) as u8).update(
                        a + 1,
                        (s.pc % 256) as u8,
                    ),
                    pc: (arg + 2) as u16,
                    ..s
                },
            )
        }
    } else if op == 11 {
        if a + 1 >= MEM_SIZE {
            Err(CpuError::AddressOutOfRange)
        } else {
            Ok(CpuState { pc: ((s.mem[a] % 16) * 256 + s.mem[a + 1]) as u16, ..s })
        }
    } else if op == 12 {
        Ok(CpuState { pc: arg, halted: true, ..s })
    } else if op == 13 {
        if s.in_pos < s.input.len() {
            Ok(CpuState { ac: u8_to_i8(s.input[s.in_pos]), in_pos: s.in_pos + 1, ..s })
        } else {
            Ok(CpuState { ac: 0, ..s })
        }
    } else if op == 14 {
        Ok(CpuState { output: s.output.push(i8_to_u8(s.ac)), ..s })
    } else {
        Err(CpuError::OsCallUnimplemented)
    }
}

/// One fetch-decode-execute step.
pub open spec fn step_spec(s: CpuState) -> Result<CpuState, CpuError> {
    if s.pc as int + 1 >= s.mem.len() {
        Err(CpuError::AddressOutOfRange)
    } else {
        let msb = s.mem[s.pc as int];
        let lsb = s.mem[s.pc as int + 1];
        exec_instr(CpuState { pc: (s.pc + 2) as u16, ..s }, msb, lsb)
    }
}

/// Running until the machine halts, a fatal condition strikes, or the step
/// budget runs out.
pub open spec fn run_spec(s: CpuState, fuel: nat) -> Result<CpuState, CpuError>
    decreases fuel,
{
    if s.halted {
        Ok(s)
    } else if fuel == 0 {
        Err(CpuError::StepLimit)
    } else {
        match step_spec(s) {
            Err(e) => Err(e),
            Ok(s2) => run_spec(s2, (fuel - 1) as nat),
        }
    }
}

/// Law: packing an opcode and a 12-bit argument into an instruction word
/// and decoding that word gives both back unchanged.
pub proof fn lemma_pack_decode_roundtrip(code: u16, arg: u16)
    requires
        code <= 15,
        arg <= 4095,
    ensures
        crate::assembler::pack_word(code, arg).len() == 2,
        opcode_of(crate::assembler::pack_word(code, arg)[0]) == code,
        arg_of(
            crate::assembler::pack_word(code, arg)[0],
            crate::assembler::pack_word(code, arg)[1],
        ) == arg,
{
    let w = crate::assembler::pack_word(code, arg);
    assert(w[0] == (code * 16 + arg / 256) as u8);
    assert(w[1] == (arg % 256) as u8);
    assert((code * 16 + arg / 256) / 16 == code) by (nonlinear_arith)
        requires
            code <= 15,
            arg <= 4095,
    ;
    assert((code * 16 + arg / 256) % 16 == arg / 256) by (nonlinear_arith)
        requires
            code <= 15,
            arg <= 4095,
    ;
    assert((arg / 256) * 256 + arg % 256 == arg) by (nonlinear_arith);
}

/// Law: a read instruction on an exhausted input stream loads zero into
/// the accumulator and execution continues: no error, no halt, everything
/// else untouched.
pub proof fn lemma_read_after_eof_continues(s: CpuState)
    requires
        s.wf(),
        s.pc as int + 1 < s.mem.len(),
        opcode_of(s.mem[s.pc as int]) == 13,
        s.in_pos == s.input.len(),
    ensures
        match step_spec(s) {
            Ok(s2) => s2.ac == 0 && s2.halted == s.halted && s2.pc == s.pc + 2 && s2.mem == s.mem
                && s2.output == s.output && s2.in_pos == s.in_pos,
            Err(_) => false,
        },
{
}

/// Law: a subroutine call stores the address of the instruction after it,
/// and a later return through the same two untouched memory cells resumes
/// exactly there.
pub proof fn lemma_call_then_return_resumes(s: CpuState, s2: CpuState, t: CpuState, arg: u16)
    requires
        s.wf(),
        t.wf(),
        // the call: `SC arg` at s.pc, the return address still in the 12-bit space
        s.pc as int + 2 < MEM_SIZE,
        opcode_of(s.mem[s.pc as int]) == 10,
        arg_of(s.mem[s.pc as int], s.mem[s.pc as int + 1]) == arg,
        arg as int + 1 < MEM_SIZE,
        step_spec(s) == Ok::<CpuState, CpuError>(s2),
        // any later state about to execute `RS arg`, the stored cells untouched
        t.mem[arg as int] == s2.mem[arg as int],
        t.mem[arg as int + 1] == s2.mem[arg as int + 1],
        t.pc as int + 1 < MEM_SIZE,
        opcode_of(t.mem[t.pc as int]) == 11,
        arg_of(t.mem[t.pc as int], t.mem[t.pc as int + 1]) == arg,
    ensures
        step_spec(t) is Ok,
        match step_spec(t) {
            Ok(t2) => t2.pc == s.pc + 2,
            Err(_) => false,
        },
{
    let ret = (s.pc + 2) as u16;
    assert(s2.mem[arg as int] == ((ret / 256) % 16) as u8);
    assert(s2.mem[arg as int + 1] == (ret % 256) as u8);
    assert(ret < 4096);
    assert((ret / 256) % 16 == ret / 256);
    assert((((ret / 256) % 16) as u8 % 16) == ret / 256);
    assert((ret / 256) * 256 + ret % 256 == ret) by (nonlinear_arith);
}

/// What the machine boots from: the seeded memory and the input stream.
pub struct Config {
    pub memory: Vec<u8>,
    pub input: Vec<u8>,
}

/// The boot state for a configuration: cleared registers, nothing read,
/// nothing written.
pub open spec fn boot_state(c: &Config) -> CpuState {
    CpuState {
        mem: c.memory@,
        pc: 0,
        ac: 0,
        input: c.input@,
        in_pos: 0,
        output: Seq::<u8>::empty(),
        halted: false,
    }
}

impl Config {
    /// Seeds the 4096-byte memory from a loader image, skipping the image's
    /// 6-byte header; the rest of memory stays zero.  The image must fit.
    pub fn new(loader: &Vec<u8>, input: Vec<u8>) -> (r: Config)
        requires
            loader@.len() <= MEM_SIZE + 6,
        ensures
            r.memory@.len() == MEM_SIZE,
            forall|i: int|
                0 <= i < r.memory@.len() ==> r.memory@[i] == (if i + 6 < loader@.len() {
                    loader@[i + 6]
                } else {
                    0u8
                }),
            r.input == input,
    {
        let mut memory: Vec<u8> = Vec::new();
        let mut i: usize = 0;
        while i < MEM_SIZE as usize
            invariant
                0 <= i <= MEM_SIZE,
                memory@.len() == i,
                forall|j: int| 0 <= j < i ==> memory@[j] == 0u8,
            decreases MEM_SIZE - i,
        {
            memory.push(0);
            i += 1;
        }
        let mut idx: usize = 0;
        while idx + 6 < loader.len()
            invariant
                loader@.len() <= MEM_SIZE + 6,
                memory@.len() == MEM_SIZE,
                0 <= idx,
                idx + 6 <= loader@.len() || idx == 0,
                forall|j: int| 0 <= j < idx ==> memory@[j] == loader@[j + 6],
                forall|j: int| idx <= j < memory@.len() ==> memory@[j] == 0u8,
            decreases loader@.len() - idx,
        {
            memory[idx] = loader[idx + 6];
            idx += 1;
        }
        Config { memory, input }
    }
}

/// The execution engine: memory, program counter, accumulator, and the two
/// byte streams.
#[derive(Debug)]
pub struct CPU {
    memory: Vec<u8>,
    pc: u16,
    ac: i8,
    input: Vec<u8>,
    in_pos: usize,
    output: Vec<u8>,
    halted: bool,
}

impl View for CPU {
    type V = CpuState;

    closed spec fn view(&self) -> CpuState {
        CpuState {
            mem: self.memory@,
            pc: self.pc,
            ac: self.ac,
            input: self.input@,
            in_pos: self.in_pos as int,
            output: self.output@,
            halted: self.halted,
        }
    }
}

/// Reads a byte as a signed 8-bit value.
fn to_i8(b: u8) -> (r: i8)
    ensures
        r == u8_to_i8(b),
{
    if b < 128 {
        b as i8
    } else {
        ((b as i16) - 256) as i8
    }
}

/// Stores a signed 8-bit value as a byte.
fn to_u8(a: i8) -> (r: u8)
    ensures
        r == i8_to_u8(a),
{
    if a >= 0 {
        a as u8
    } else {
        ((a as i16) + 256) as u8
    }
}

impl CPU {
    /// A machine booted from a configuration.
    pub fn new(config: Config) -> (r: CPU)
        requires
            config.memory@.len() == MEM_SIZE,
        ensures
            r@ == boot_state(&config),
            r@.wf(),
    {
        let r = CPU {
            memory: config.memory,
            pc: 0,
            ac: 0,
            input: config.input,
            in_pos: 0,
            output: Vec::new(),
            halted: false,
        };
        proof {
            assert(r@.output =~= Seq::<u8>::empty());
        }
        r
    }

    /// Fetches the two instruction bytes and moves the program counter past
    /// them; a counter outside memory is fatal.
    fn fetch(&mut self) -> (r: Result<(u8, u8), CpuError>)
        requires
            old(self)@.wf(),
        ensures
            match r {
                Ok((msb, lsb)) => old(self)@.pc as int + 1 < old(self)@.mem.len() && msb == old(
                    self,
                )@.mem[old(self)@.pc as int] && lsb == old(self)@.mem[old(self)@.pc as int + 1]
                    && final(self)@ == (CpuState { pc: (old(self)@.pc + 2) as u16, ..old(self)@ }),
                Err(e) => e == CpuError::AddressOutOfRange && old(self)@.pc as int + 1 >= old(
                    self,
                )@.mem.len() && final(self)@ == old(self)@,
            },
    {
        if self.pc >= MEM_SIZE - 1 {
            return Err(CpuError::AddressOutOfRange);
        }
        let msb = self.memory[self.pc as usize];
        let lsb = self.memory[self.pc as usize + 1];
        self.pc = self.pc + 2;
        Ok((msb, lsb))
    }

    /// Unconditional jump.
    fn jmp(&mut self, arg: u16)
        ensures
            final(self)@ == (CpuState { pc: arg, ..old(self)@ }),
    {
        self.pc = arg;
    }

    /// Jump when the accumulator is zero.
    fn jmp_if_zero(&mut self, arg: u16)
        ensures
            final(self)@ == (CpuState {
                pc: if old(self)@.ac == 0 { arg } else { old(self)@.pc },
                ..old(self)@
            }),
    {
        if self.ac == 0 {
            self.pc = arg;
        }
    }

    /// Jump when the accumulator is negative.
    fn jmp_if_neg(&mut self, arg: u16)
        ensures
            final(self)@ == (CpuState {
                pc: if old(self)@.ac < 0 { arg } else { old(self)@.pc },
                ..old(self)@
            }),
    {
        if self.ac < 0 {
            self.pc = arg;
        }
    }

    /// Loads the argument's low byte into the accumulator.
    fn load_value(&mut self, arg: u16)
        ensures
            final(self)@ == (CpuState { ac: u8_to_i8((arg % 256) as u8), ..old(self)@ }),
    {
        self.ac = to_i8((arg % 256) as u8);
    }

    /// Adds a memory byte, wrapping at 8 bits.
    fn add(&mut self, arg: u16)
        requires
            old(self)@.wf(),
            arg < MEM_SIZE,
        ensures
            final(self)@ == (CpuState {
                ac: wrap_add(old(self)@.ac, old(self)@.mem[arg as int]),
                ..old(self)@
            }),
    {
        let v = self.memory[arg as usize];
        let ua: u16 = to_u8(self.ac) as u16;
        let sum: u16 = (ua + v as u16) % 256;
        self.ac = to_i8(sum as u8);
    }

    /// Subtracts a memory byte, wrapping at 8 bits.
    fn sub(&mut self, arg: u16)
        requires
            old(self)@.wf(),
            arg < MEM_SIZE,
        ensures
            final(self)@ == (CpuState {
                ac: wrap_sub(old(self)@.ac, old(self)@.mem[arg as int]),
                ..old(self)@
            }),
    {
        let v = self.memory[arg as usize];
        let ua: u16 = to_u8(self.ac) as u16;
        let diff: u16 = (ua + 256 - v as u16) % 256;
        self.ac = to_i8(diff as u8);
    }

    /// Multiplies by a memory byte, wrapping at 8 bits.
    fn mul(&mut self, arg: u16)
        requires
            old(self)@.wf(),
            arg < MEM_SIZE,
        ensures
            final(self)@ == (CpuState {
                ac: wrap_mul(old(self)@.ac, old(self)@.mem[arg as int]),
                ..old(self)@
            }),
    {
        let v = self.memory[arg as usize];
        let ua: u32 = to_u8(self.ac) as u32;
        proof {
            assert(ua * (v as u32) <= 255 * 255) by (nonlinear_arith)
                requires
                    ua <= 255,
                    v <= 255,
            ;
        }
        let prod: u32 = (ua * v as u32) % 256;
        self.ac = to_i8(prod as u8);
    }

    /// Divides by a memory byte read as signed; a zero divisor is fatal.
    fn div(&mut self, arg: u16) -> (r: Result<(), CpuError>)
        requires
            old(self)@.wf(),
            arg < MEM_SIZE,
        ensures
            match r {
                Ok(()) => old(self)@.mem[arg as int] != 0 && final(self)@ == (CpuState {
                    ac: trunc_div_i8(
                        old(self)@.ac as int,
                        u8_to_i8(old(self)@.mem[arg as int]) as int,
                    ),
                    ..old(self)@
                }),
                Err(e) => e == CpuError::DivisionByZero && old(self)@.mem[arg as int] == 0,
            },
    {
        let v = self.memory[arg as usize];
        if v == 0 {
            return Err(CpuError::DivisionByZero);
        }
        let a16 = self.ac as i16;
        let ua: u16 = if a16 >= 0 {
            a16 as u16
        } else {
            (-a16) as u16
        };
        let ub: u16 = if v < 128 {
            v as u16
        } else {
            256 - v as u16
        };
        let q: u16 = ua / ub;
        let neg = (self.ac < 0) != (v >= 128);
        if q == 128 {
            self.ac = -128;
        } else if neg {
            self.ac = -(q as i16) as i8;
        } else {
            self.ac = q as i8;
        }
        Ok(())
    }

    /// Loads a memory byte into the accumulator.
    fn load_data(&mut self, arg: u16)
        requires
            old(self)@.wf(),
            arg < MEM_SIZE,
        ensures
            final(self)@ == (CpuState {
                ac: u8_to_i8(old(self)@.mem[arg as int]),
                ..old(self)@
            }),
    {
        let v = self.memory[arg as usize];
        self.ac = to_i8(v);
    }

    /// Stores the accumulator's byte into memory.
    fn move_to_memory(&mut self, arg: u16)
        requires
            old(self)@.wf(),
            arg < MEM_SIZE,
        ensures
            final(self)@ == (CpuState {
                mem: old(self)@.mem.update(arg as int, i8_to_u8(old(self)@.ac)),
                ..old(self)@
            }),
    {
        let b = to_u8(self.ac);
        self.memory[arg as usize] = b;
    }

    /// Stores the return address at the argument and jumps past it.
    fn subroutine_call(&mut self, arg: u16)
        requires
            old(self)@.wf(),
            arg as int + 1 < MEM_SIZE,
        ensures
            final(self)@ == (CpuState {
                mem: old(self)@.mem.update(arg as int, ((old(self)@.pc / 256) % 16) as u8).update(
                    arg as int + 1,
                    (old(self)@.pc % 256) as u8,
                ),
                pc: (arg + 2) as u16,
                ..old(self)@
            }),
    {
        let msb = ((self.pc / 256) % 16) as u8;
        let lsb = (self.pc % 256) as u8;
        self.memory[arg as usize] = msb;
        self.memory[arg as usize + 1] = lsb;
        self.pc = arg + 2;
    }

    /// Returns through the address stored at the argument.
    fn return_from_subroutine(&mut self, arg: u16)
        requires
            old(self)@.wf(),
            arg as int + 1 < MEM_SIZE,
        ensures
            final(self)@ == (CpuState {
                pc: ((old(self)@.mem[arg as int] % 16) * 256 + old(self)@.mem[arg as int
                    + 1]) as u16,
                ..old(self)@
            }),
    {
        let hi = self.memory[arg as usize] % 16;
        let lo = self.memory[arg as usize + 1];
        self.pc = hi as u16 * 256 + lo as u16;
    }

    /// Halts the machine cleanly.
    fn halt_machine(&mut self, arg: u16)
        ensures
            final(self)@ == (CpuState { pc: arg, halted: true, ..old(self)@ }),
    {
        self.pc = arg;
        self.halted = true;
    }

    /// Reads the next input byte into the accumulator; an exhausted stream
    /// yields zero and execution continues.
    fn get_data(&mut self, _arg: u16)
        requires
            old(self)@.wf(),
        ensures
            final(self)@ == (if old(self)@.in_pos < old(self)@.input.len() {
                CpuState {
                    ac: u8_to_i8(old(self)@.input[old(self)@.in_pos]),
                    in_pos: old(self)@.in_pos + 1,
                    ..old(self)@
                }
            } else {
                CpuState { ac: 0, ..old(self)@ }
            }),
    {
        if self.in_pos < self.input.len() {
            let b = self.input[self.in_pos];
            self.ac = to_i8(b);
            self.in_pos = self.in_pos + 1;
        } else {
            self.ac = 0;
        }
    }

    /// Appends the accumulator's byte to the output stream.
    fn put_data(&mut self, _arg: u16)
        ensures
            final(self)@ == (CpuState {
                output: old(self)@.output.push(i8_to_u8(old(self)@.ac)),
                ..old(self)@
            }),
    {
        let b = to_u8(self.ac);
        self.output.push(b);
    }

    /// The reserved operating-system call: not implemented, always fatal.
    fn os_call(&mut self, _arg: u16) -> (r: Result<(), CpuError>)
        ensures
            r == Err::<(), CpuError>(CpuError::OsCallUnimplemented),
            final(self)@ == old(self)@,
    {
        Err(CpuError::OsCallUnimplemented)
    }

    /// Decodes the fetched instruction bytes and executes the one matching
    /// handler.
    fn decode_and_execute(&mut self, instruction: (u8, u8)) -> (r: Result<(), CpuError>)
        requires
            old(self)@.wf(),
        ensures
            match r {
                Ok(()) => exec_instr(old(self)@, instruction.0, instruction.1) == Ok::<
                    CpuState,
                    CpuError,
                >(final(self)@),
                Err(e) => exec_instr(old(self)@, instruction.0, instruction.1) == Err::<
                    CpuState,
                    _,
                >(e),
            },
    {
        let (msb, lsb) = instruction;
        let opcode: u8 = msb / 16;
        let arg: u16 = (msb % 16) as u16 * 256 + lsb as u16;
        if opcode == 0 {
            self.jmp(arg);
            Ok(())
        } else if opcode == 1 {
            self.jmp_if_zero(arg);
            Ok(())
        } else if opcode == 2 {
            self.jmp_if_neg(arg);
            Ok(())
        } else if opcode == 3 {
            self.load_value(arg);
            Ok(())
        } else if opcode == 4 {
            self.add(arg);
            Ok(())
        } else if opcode == 5 {
            self.sub(arg);
            Ok(())
        } else if opcode == 6 {
            self.mul(arg);
            Ok(())
        } else if opcode == 7 {
            self.div(arg)
        } else if opcode == 8 {
            self.load_data(arg);
            Ok(())
        } else if opcode == 9 {
            self.move_to_memory(arg);
            Ok(())
        } else if opcode == 10 {
            if arg >= MEM_SIZE - 1 {
                return Err(CpuError::AddressOutOfRange);
            }
            self.subroutine_call(arg);
            Ok(())
        } else if opcode == 11 {
            if arg >= MEM_SIZE - 1 {
                return Err(CpuError::AddressOutOfRange);
            }
            self.return_from_subroutine(arg);
            Ok(())
        } else if opcode == 12 {
            self.halt_machine(arg);
            Ok(())
        } else if opcode == 13 {
            self.get_data(arg);
            Ok(())
        } else if opcode == 14 {
            self.put_data(arg);
            Ok(())
        } else {
            self.os_call(arg)
        }
    }

    /// One fetch-decode-execute step.
    fn step(&mut self) -> (r: Result<(), CpuError>)
        requires
            old(self)@.wf(),
        ensures
            match r {
                Ok(()) => step_spec(old(self)@) == Ok::<CpuState, CpuError>(final(self)@)
                    && final(self)@.wf(),
                Err(e) => step_spec(old(self)@) == Err::<CpuState, _>(e),
            },
    {
        let instruction = match self.fetch() {
            Err(e) => {
                return Err(e);
            },
            Ok(bytes) => bytes,
        };
        self.decode_and_execute(instruction)
    }

    /// Runs the booted machine until it halts, a fatal condition strikes,
    /// or `max_steps` instructions have executed without a halt.
    pub fn run(config: Config, max_steps: usize) -> (r: Result<CPU, CpuError>)
        requires
            config.memory@.len() == MEM_SIZE,
        ensures
            match r {
                Ok(cpu) => run_spec(boot_state(&config), max_steps as nat) == Ok::<
                    CpuState,
                    CpuError,
                >(cpu@) && cpu@.halted && cpu@.wf(),
                Err(e) => run_spec(boot_state(&config), max_steps as nat) == Err::<CpuState, _>(e),
            },
    {
        let ghost init = boot_state(&config);
        let mut cpu = CPU::new(config);
        let mut steps: usize = 0;
        let mut failure: Option<CpuError> = None;
        while !cpu.halted && steps < max_steps && failure.is_none()
            invariant
                0 <= steps <= max_steps,
                failure is None ==> cpu@.wf(),
                match failure {
                    None => run_spec(init, max_steps as nat) == run_spec(
                        cpu@,
                        (max_steps - steps) as nat,
                    ),
                    Some(e) => run_spec(init, max_steps as nat) == Err::<CpuState, _>(e),
                },
            decreases max_steps - steps + (if failure is None {
                1int
            } else {
                0int
            }),
        {
            match cpu.step() {
                Err(e) => {
                    failure = Some(e);
                },
                Ok(()) => {
                    steps += 1;
                },
            }
        }
        match failure {
            Some(e) => Err(e),
            None => {
                if cpu.halted {
                    Ok(cpu)
                } else {
                    Err(CpuError::StepLimit)
                }
            },
        }
    }

    /// The byte at a memory address.
    pub fn memory_at(&self, addr: u16) -> (r: u8)
        requires
            self@.wf(),
            addr < MEM_SIZE,
        ensures
            r == self@.mem[addr as int],
    {
        self.memory[addr as usize]
    }

    /// The accumulator.
    pub fn accumulator(&self) -> (r: i8)
        ensures
            r == self@.ac,
    {
        self.ac
    }

    /// The program counter.
    pub fn program_counter(&self) -> (r: u16)
        ensures
            r == self@.pc,
    {
        self.pc
    }

    /// Whether the machine has executed its halt instruction.
    pub fn is_halted(&self) -> (r: bool)
        ensures
            r == self@.halted,
    {
        self.halted
    }

    /// The bytes written so far.
    pub fn output_bytes(&self) -> (r: &Vec<u8>)
        ensures
            r@ == self@.output,
    {
        &self.output
    }
}

} // verus!
