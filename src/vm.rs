//! The virtual machine: memory, registers, stack, program counter, and the
//! execution of one instruction at a time.

use vstd::prelude::*;

use crate::codec::{is_valid_word, word_of_bytes, VmError, MODULUS, WORD_LIMIT};

verus! {

/// Bytes of memory: two for each of the `32768` words.
pub const MEMORY_BYTES: usize = 65536;

/// What one step of the machine did that its host must know of.
#[derive(Debug, Clone, Copy, PartialEq, Eq, Structural)]
pub enum Event {
    /// An instruction without outside effect ran.
    Executed,
    /// `out` printed this byte.
    Output(u8),
    /// `in` is waiting for a character; nothing changed.
    NeedInput,
    /// `in` took this character.
    Input(u8),
    /// The machine is halted.
    Halted,
}

/// The mathematical state of the machine.
pub struct MachineState {
    pub mem: Seq<u8>,
    pub regs: Seq<u16>,
    pub stack: Seq<u16>,
    pub pc: u16,
    pub halted: bool,
}

/// The word stored at word address `a`.
pub open spec fn word_at(mem: Seq<u8>, a: int) -> int {
    word_of_bytes(mem[2 * a], mem[2 * a + 1])
}

/// Number of operand words that follow opcode `op`.
pub open spec fn arity(op: int) -> int {
    if op == 0 || op == 18 || op == 21 {
        0
    } else if op == 2 || op == 3 || op == 6 || op == 17 || op == 19 || op == 20 {
        1
    } else if op == 1 || op == 7 || op == 8 || op == 14 || op == 15 || op == 16 {
        2
    } else {
        3
    }
}

/// The opcodes whose first operand must name a register that they write.
pub open spec fn writes_register(op: int) -> bool {
    op == 1 || op == 3 || op == 4 || op == 5 || (9 <= op <= 15) || op == 20
}

/// The opcodes that compute a value modulo `32768`.
pub open spec fn is_arithmetic(op: int) -> bool {
    9 <= op <= 14
}

/// Value of an arithmetic opcode on resolved operands `b` and `c`.
pub open spec fn arithmetic(op: int, b: u16, c: u16) -> int {
    if op == 9 {
        (b + c) % 32768
    } else if op == 10 {
        (b * c) % 32768
    } else if op == 11 {
        (b % c) as int % 32768
    } else if op == 12 {
        (b & c) as int % 32768
    } else if op == 13 {
        (b | c) as int % 32768
    } else {
        (!b & 0x7fffu16) as int
    }
}

impl MachineState {
    pub open spec fn wf(self) -> bool {
        &&& self.mem.len() == MEMORY_BYTES
        &&& self.regs.len() == 8
        &&& self.pc < MODULUS
        &&& forall|i: int| 0 <= i < 8 ==> is_valid_word(#[trigger] self.regs[i] as int)
        &&& forall|i: int|
            0 <= i < self.stack.len() ==> is_valid_word(#[trigger] self.stack[i] as int)
    }

    /// The value of a valid raw word: itself when literal, else the register's content.
    pub open spec fn resolve(self, w: int) -> u16 {
        if w < MODULUS {
            w as u16
        } else {
            self.regs[w - MODULUS]
        }
    }

    /// The `k`-th word after the program counter.
    pub open spec fn arg(self, k: int) -> int {
        word_at(self.mem, self.pc + k)
    }

    /// Why the `k`-th operand cannot be read, if it cannot.
    pub open spec fn operand_error(self, k: int) -> Option<VmError> {
        if self.pc + k >= MODULUS {
            Some(VmError::AddressOutOfRange((self.pc + k) as u16))
        } else if !is_valid_word(self.arg(k)) {
            Some(VmError::InvalidWord(self.arg(k) as u16))
        } else {
            None
        }
    }

    /// The first error among the first `n` operands.
    pub open spec fn fetch_error(self, n: int) -> Option<VmError> {
        if n >= 1 && self.operand_error(1) is Some {
            self.operand_error(1)
        } else if n >= 2 && self.operand_error(2) is Some {
            self.operand_error(2)
        } else if n >= 3 && self.operand_error(3) is Some {
            self.operand_error(3)
        } else {
            None
        }
    }

    /// Where control goes after opcode `op`, whose operands are valid.
    pub open spec fn target(self, op: int) -> int {
        let next = self.pc + arity(op) + 1;
        if op == 6 {
            self.resolve(self.arg(1)) as int
        } else if op == 7 {
            if self.resolve(self.arg(1)) != 0 {
                self.resolve(self.arg(2)) as int
            } else {
                next
            }
        } else if op == 8 {
            if self.resolve(self.arg(1)) == 0 {
                self.resolve(self.arg(2)) as int
            } else {
                next
            }
        } else if op == 17 {
            self.resolve(self.arg(1)) as int
        } else if op == 18 {
            self.stack.last() as int
        } else {
            next
        }
    }

    /// The state after opcode `op` with valid operands, before the program
    /// counter moves.
    pub open spec fn effect(self, op: int, input: u8) -> MachineState {
        let a = self.arg(1);
        let b = self.resolve(self.arg(2));
        let c = self.resolve(self.arg(3));
        let r = a - MODULUS;
        if op == 1 {
            MachineState { regs: self.regs.update(r, b), ..self }
        } else if op == 2 {
            MachineState { stack: self.stack.push(self.resolve(a)), ..self }
        } else if op == 3 {
            MachineState {
                regs: self.regs.update(r, self.stack.last()),
                stack: self.stack.drop_last(),
                ..self
            }
        } else if op == 4 {
            MachineState { regs: self.regs.update(r, if b == c { 1u16 } else { 0u16 }), ..self }
        } else if op == 5 {
            MachineState { regs: self.regs.update(r, if b > c { 1u16 } else { 0u16 }), ..self }
        } else if is_arithmetic(op) {
            MachineState { regs: self.regs.update(r, arithmetic(op, b, c) as u16), ..self }
        } else if op == 15 {
            MachineState { regs: self.regs.update(r, word_at(self.mem, b as int) as u16), ..self }
        } else if op == 16 {
            let addr = self.resolve(a) as int;
            MachineState {
                mem: self.mem.update(2 * addr, (b % 256) as u8).update(
                    2 * addr + 1,
                    (b / 256) as u8,
                ),
                ..self
            }
        } else if op == 17 {
            MachineState { stack: self.stack.push((self.pc + 2) as u16), ..self }
        } else if op == 18 {
            MachineState { stack: self.stack.drop_last(), ..self }
        } else if op == 20 {
            MachineState { regs: self.regs.update(r, input as u16), ..self }
        } else {
            self
        }
    }

    /// The error that opcode `op` meets once its operands are read, if any.
    pub open spec fn exec_error(self, op: int) -> Option<VmError> {
        let a = self.arg(1);
        if writes_register(op) && a < MODULUS {
            Some(VmError::LiteralDestination(a as u16))
        } else if op == 3 && self.stack.len() == 0 {
            Some(VmError::EmptyStack)
        } else if op == 11 && self.resolve(self.arg(3)) == 0 {
            Some(VmError::DivisionByZero)
        } else if op == 15 && self.resolve(self.arg(2)) >= MODULUS {
            Some(VmError::AddressOutOfRange(self.resolve(self.arg(2))))
        } else if op == 15 && !is_valid_word(word_at(self.mem, self.resolve(self.arg(2)) as int)) {
            Some(VmError::InvalidWord(word_at(self.mem, self.resolve(self.arg(2)) as int) as u16))
        } else if op == 16 && self.resolve(a) >= MODULUS {
            Some(VmError::AddressOutOfRange(self.resolve(a)))
        } else {
            None
        }
    }
}

/// One step of the machine on `m`, with `input` as the character that `in`
/// would take: the next state and what happened, or why it failed.
pub open spec fn step_spec(m: MachineState, input: Option<u8>) -> Result<
    (MachineState, Event),
    VmError,
> {
    let op = word_at(m.mem, m.pc as int);
    if m.halted {
        Ok((m, Event::Halted))
    } else if !is_valid_word(op) {
        Err(VmError::InvalidWord(op as u16))
    } else if op > 21 {
        Err(VmError::UndefinedOpcode(op as u16))
    } else if m.fetch_error(arity(op)) is Some {
        Err(m.fetch_error(arity(op))->0)
    } else if op == 0 {
        Ok((MachineState { halted: true, ..m }, Event::Halted))
    } else if m.exec_error(op) is Some {
        Err(m.exec_error(op)->0)
    } else if op == 20 && input is None {
        Ok((m, Event::NeedInput))
    } else if op == 18 && m.stack.len() == 0 {
        Ok((MachineState { halted: true, ..m }, Event::Halted))
    } else if m.target(op) >= MODULUS {
        Err(VmError::AddressOutOfRange(m.target(op) as u16))
    } else {
        let c = match input {
            Some(c) => c,
            None => 0u8,
        };
        let event = if op == 19 {
            Event::Output((m.resolve(m.arg(1)) % 256) as u8)
        } else if op == 20 {
            Event::Input(c)
        } else {
            Event::Executed
        };
        Ok((MachineState { pc: m.target(op) as u16, ..m.effect(op, c) }, event))
    }
}

/// Runs at most `fuel` steps from `m`, with `input` as the characters that
/// `in` takes, until the machine halts or waits for input that is not there.
/// The result is the last state, the bytes printed, the number of
/// instructions executed and the number of characters taken.
pub open spec fn run_spec(m: MachineState, input: Seq<u8>, fuel: nat) -> Result<
    (MachineState, Seq<u8>, nat, nat),
    VmError,
>
    decreases fuel,
{
    if fuel == 0 || m.halted {
        Ok((m, seq![], 0, 0))
    } else {
        let next_in = if input.len() > 0 {
            Some(input[0])
        } else {
            None
        };
        match step_spec(m, next_in) {
            Err(e) => Err(e),
            Ok((m2, ev)) => {
                if ev is NeedInput {
                    Ok((m, seq![], 0, 0))
                } else {
                    let used: nat = if ev is Input {
                        1
                    } else {
                        0
                    };
                    match run_spec(m2, input.subrange(used as int, input.len() as int), (fuel - 1) as nat) {
                        Err(e) => Err(e),
                        Ok((m3, out, n, k)) => {
                            let printed = match ev {
                                Event::Output(b) => seq![b] + out,
                                _ => out,
                            };
                            Ok((m3, printed, n + 1, k + used))
                        },
                    }
                }
            },
        }
    }
}

/// Memory right after loading `rom`: its bytes, then zeros up to `65536`.
pub open spec fn loaded_memory(rom: Seq<u8>) -> Seq<u8> {
    rom + Seq::new((MEMORY_BYTES - rom.len()) as nat, |i: int| 0u8)
}

/// `r` with `out`, `n` and `k` put before what it reports.
pub open spec fn after_prefix(
    out: Seq<u8>,
    n: nat,
    k: nat,
    r: Result<(MachineState, Seq<u8>, nat, nat), VmError>,
) -> Result<(MachineState, Seq<u8>, nat, nat), VmError> {
    match r {
        Ok((m, out2, n2, k2)) => Ok((m, out + out2, n + n2, k + k2)),
        Err(e) => Err(e),
    }
}

proof fn lemma_after_empty_prefix(r: Result<(MachineState, Seq<u8>, nat, nat), VmError>)
    ensures
        after_prefix(seq![], 0, 0, r) == r,
{
    match r {
        Ok((m, out, n, k)) => {
            assert(seq![] + out =~= out);
        },
        Err(e) => {},
    }
}

/// The machine.
#[derive(Debug)]
pub struct Vm {
    /// Two bytes per word, low byte first.
    pub memory: Vec<u8>,
    pub registers: Vec<u16>,
    pub stack: Vec<u16>,
    /// Word address of the next instruction.
    pub pc: u16,
    pub halted: bool,
}

impl View for Vm {
    type V = MachineState;

    open spec fn view(&self) -> MachineState {
        MachineState {
            mem: self.memory@,
            regs: self.registers@,
            stack: self.stack@,
            pc: self.pc,
            halted: self.halted,
        }
    }
}

/// What `Vm::run` reports.
#[derive(Debug)]
pub struct RunOutcome {
    /// Instructions executed, `halt` included.
    pub instructions: u64,
    /// Bytes printed by `out`.
    pub output: Vec<u8>,
    /// Characters of the input that `in` took.
    pub consumed: usize,
}

impl Vm {
    pub open spec fn wf(&self) -> bool {
        self@.wf()
    }

    /// A machine with zeroed memory and registers, an empty stack and the
    /// program counter at zero.
    pub fn new() -> (r: Vm)
        ensures
            r.wf(),
            r@.mem == Seq::new(MEMORY_BYTES as nat, |i: int| 0u8),
            r@.regs == Seq::new(8, |i: int| 0u16),
            r@.stack.len() == 0,
            r@.pc == 0,
            !r@.halted,
    {
        let memory = vec![0u8; MEMORY_BYTES];
        let registers = vec![0u16; 8];
        assert(memory@ == Seq::new(MEMORY_BYTES as nat, |i: int| 0u8));
        assert(registers@ == Seq::new(8, |i: int| 0u16));
        Vm { memory, registers, stack: Vec::new(), pc: 0, halted: false }
    }

    /// Copies `rom` into memory from byte zero on.
    pub fn load_rom(&mut self, rom: &Vec<u8>)
        requires
            old(self).wf(),
            rom@.len() <= MEMORY_BYTES,
        ensures
            final(self).wf(),
            final(self)@ == (MachineState {
                mem: rom@ + old(self)@.mem.subrange(rom@.len() as int, MEMORY_BYTES as int),
                ..old(self)@
            }),
    {
        let n = rom.len();
        let mut i: usize = 0;
        while i < n
            invariant
                n == rom@.len(),
                n <= MEMORY_BYTES,
                i <= n,
                old(self).memory@.len() == MEMORY_BYTES,
                self.memory@.len() == MEMORY_BYTES,
                forall|j: int| 0 <= j < i ==> self.memory@[j] == rom@[j],
                forall|j: int| i <= j < MEMORY_BYTES ==> self.memory@[j] == old(self).memory@[j],
                self.registers == old(self).registers,
                self.stack == old(self).stack,
                self.pc == old(self).pc,
                self.halted == old(self).halted,
            decreases n - i,
        {
            self.memory.set(i, rom[i]);
            i = i + 1;
        }
        assert(self.memory@ =~= rom@ + old(self).memory@.subrange(n as int, MEMORY_BYTES as int));
    }

    /// A machine whose memory holds `rom`, zero-padded to `65536` bytes.
    pub fn new_from_rom(rom: &Vec<u8>) -> (r: Vm)
        requires
            rom@.len() <= MEMORY_BYTES,
        ensures
            r.wf(),
            r@.mem == loaded_memory(rom@),
            r@.regs == Seq::new(8, |i: int| 0u16),
            r@.stack.len() == 0,
            r@.pc == 0,
            !r@.halted,
    {
        let mut vm = Vm::new();
        vm.load_rom(rom);
        assert(Seq::new(MEMORY_BYTES as nat, |i: int| 0u8).subrange(
            rom@.len() as int,
            MEMORY_BYTES as int,
        ) =~= Seq::new((MEMORY_BYTES - rom@.len()) as nat, |i: int| 0u8));
        vm
    }

    /// A copy of all `65536` bytes of memory.
    pub fn dump_memory(&self) -> (r: Vec<u8>)
        ensures
            r@ == self@.mem,
    {
        self.memory.clone()
    }

    /// Executes at most `max_steps` instructions, feeding `input` to `in`,
    /// until the machine halts or `in` finds the input used up.
    pub fn run(&mut self, input: &Vec<u8>, max_steps: u64) -> (r: Result<RunOutcome, VmError>)
        requires
            old(self).wf(),
        ensures
            final(self).wf(),
            match run_spec(old(self)@, input@, max_steps as nat) {
                Ok((m, out, n, k)) => r is Ok && final(self)@ == m && r->Ok_0.output@ == out
                    && r->Ok_0.instructions == n && r->Ok_0.consumed == k,
                Err(e) => r == Err::<RunOutcome, VmError>(e),
            },
    {
        let mut output: Vec<u8> = Vec::new();
        let mut count: u64 = 0;
        let mut consumed: usize = 0;
        let mut waiting = false;
        proof {
            assert(input@.subrange(0, input@.len() as int) =~= input@);
            lemma_after_empty_prefix(run_spec(old(self)@, input@, max_steps as nat));
        }
        while count < max_steps && !self.halted && !waiting
            invariant
                self.wf(),
                waiting ==> run_spec(
                    self@,
                    input@.subrange(consumed as int, input@.len() as int),
                    (max_steps - count) as nat,
                ) == Ok::<(MachineState, Seq<u8>, nat, nat), VmError>((self@, seq![], 0, 0)),
                count <= max_steps,
                consumed <= input@.len(),
                run_spec(old(self)@, input@, max_steps as nat) == after_prefix(
                    output@,
                    count as nat,
                    consumed as nat,
                    run_spec(
                        self@,
                        input@.subrange(consumed as int, input@.len() as int),
                        (max_steps - count) as nat,
                    ),
                ),
            decreases max_steps - count + (if waiting {
                0int
            } else {
                1int
            }),
        {
            let ghost out_before = output@;
            let ghost rest = input@.subrange(consumed as int, input@.len() as int);
            let next_in: Option<u8> = if consumed < input.len() {
                Some(input[consumed])
            } else {
                None
            };
            assert(next_in == (if rest.len() > 0 {
                Some(rest[0])
            } else {
                None::<u8>
            }));
            let stepped = self.step(next_in);
            let ev = match stepped {
                Ok(ev) => ev,
                Err(e) => {
                    return Err(e);
                },
            };
            match ev {
                Event::NeedInput => {
                    waiting = true;
                },
                Event::Input(_) => {
                    assert(rest.subrange(1, rest.len() as int) =~= input@.subrange(
                        consumed + 1,
                        input@.len() as int,
                    ));
                    consumed = consumed + 1;
                },
                Event::Output(b) => {
                    assert(rest.subrange(0, rest.len() as int) =~= rest);
                    output.push(b);
                },
                _ => {
                    assert(rest.subrange(0, rest.len() as int) =~= rest);
                },
            }
            if waiting {
                continue;
            }
            count = count + 1;
            proof {
                let tail = run_spec(
                    self@,
                    input@.subrange(consumed as int, input@.len() as int),
                    (max_steps - count) as nat,
                );
                match tail {
                    Ok((m3, out3, n3, k3)) => {
                        match ev {
                            Event::Output(b) => {
                                assert(out_before + (seq![b] + out3) =~= output@ + out3);
                            },
                            _ => {
                                assert(out_before =~= output@);
                            },
                        }
                    },
                    Err(e) => {},
                }
            }
        }
        proof {
            let rest = input@.subrange(consumed as int, input@.len() as int);
            assert(run_spec(self@, rest, (max_steps - count) as nat) == Ok::<
                (MachineState, Seq<u8>, nat, nat),
                VmError,
            >((self@, seq![], 0, 0)));
            assert(output@ + seq![] =~= output@);
        }
        Ok(RunOutcome { instructions: count, output, consumed })
    }

    /// The word at word address `a`, valid or not.
    fn read_word(&self, a: u16) -> (r: u16)
        requires
            self.wf(),
            a < MODULUS,
        ensures
            r as int == word_at(self@.mem, a as int),
    {
        let lo: u16 = self.memory[2 * a as usize] as u16;
        let hi: u16 = self.memory[2 * a as usize + 1] as u16;
        hi * 256 + lo
    }

    /// The value of a valid raw word.
    fn resolve(&self, w: u16) -> (r: u16)
        requires
            self.wf(),
            is_valid_word(w as int),
        ensures
            r == self@.resolve(w as int),
            is_valid_word(r as int),
    {
        if w < MODULUS {
            w
        } else {
            self.registers[(w - MODULUS) as usize]
        }
    }

    /// The `k`-th operand word, checked.
    fn operand(&self, k: u16) -> (r: Result<u16, VmError>)
        requires
            self.wf(),
            1 <= k <= 3,
        ensures
            match r {
                Ok(w) => self@.operand_error(k as int) is None && w as int == self@.arg(k as int),
                Err(e) => self@.operand_error(k as int) == Some(e),
            },
    {
        if self.pc + k >= MODULUS {
            return Err(VmError::AddressOutOfRange(self.pc + k));
        }
        let w = self.read_word(self.pc + k);
        if w >= WORD_LIMIT {
            return Err(VmError::InvalidWord(w));
        }
        Ok(w)
    }

    /// Executes one instruction. With `input` as `None`, `in` leaves the
    /// machine as it is and reports `NeedInput`. On an error nothing changes.
    pub fn step(&mut self, input: Option<u8>) -> (r: Result<Event, VmError>)
        requires
            old(self).wf(),
        ensures
            final(self).wf(),
            match step_spec(old(self)@, input) {
                Ok((m, e)) => r == Ok::<Event, VmError>(e) && final(self)@ == m,
                Err(e) => r == Err::<Event, VmError>(e) && final(self)@ == old(self)@,
            },
    {
        if self.halted {
            return Ok(Event::Halted);
        }
        let op = self.read_word(self.pc);
        if op >= WORD_LIMIT {
            return Err(VmError::InvalidWord(op));
        }
        if op > 21 {
            return Err(VmError::UndefinedOpcode(op));
        }
        let n: u16 = if op == 0 || op == 18 || op == 21 {
            0
        } else if op == 2 || op == 3 || op == 6 || op == 17 || op == 19 || op == 20 {
            1
        } else if op == 1 || op == 7 || op == 8 || op == 14 || op == 15 || op == 16 {
            2
        } else {
            3
        };
        let mut a: u16 = 0;
        let mut b: u16 = 0;
        let mut c: u16 = 0;
        if n >= 1 {
            a = self.operand(1)?;
        }
        if n >= 2 {
            b = self.operand(2)?;
        }
        if n >= 3 {
            c = self.operand(3)?;
        }
        assert(self@.fetch_error(arity(op as int)) is None);
        if op == 0 {
            self.halted = true;
            return Ok(Event::Halted);
        }
        let writes = op == 1 || op == 3 || op == 4 || op == 5 || (9 <= op && op <= 15) || op == 20;
        if writes && a < MODULUS {
            return Err(VmError::LiteralDestination(a));
        }
        if op == 3 && self.stack.len() == 0 {
            return Err(VmError::EmptyStack);
        }
        let vb: u16 = if n >= 2 { self.resolve(b) } else { 0 };
        let vc: u16 = if n >= 3 { self.resolve(c) } else { 0 };
        if op == 11 && vc == 0 {
            return Err(VmError::DivisionByZero);
        }
        let mut fetched: u16 = 0;
        if op == 15 {
            if vb >= MODULUS {
                return Err(VmError::AddressOutOfRange(vb));
            }
            fetched = self.read_word(vb);
            if fetched >= WORD_LIMIT {
                return Err(VmError::InvalidWord(fetched));
            }
        }
        let va: u16 = if n >= 1 { self.resolve(a) } else { 0 };
        if op == 16 && va >= MODULUS {
            return Err(VmError::AddressOutOfRange(va));
        }
        assert(self@.exec_error(op as int) is None);
        if op == 20 && input.is_none() {
            return Ok(Event::NeedInput);
        }
        let depth = self.stack.len();
        if op == 18 && depth == 0 {
            self.halted = true;
            return Ok(Event::Halted);
        }
        let next: u16 = self.pc + n + 1;
        let target: u16 = if op == 6 || op == 17 {
            va
        } else if op == 7 {
            if va != 0 { vb } else { next }
        } else if op == 8 {
            if va == 0 { vb } else { next }
        } else if op == 18 {
            self.stack[depth - 1]
        } else {
            next
        };
        assert(target as int == self@.target(op as int));
        if target >= MODULUS {
            return Err(VmError::AddressOutOfRange(target));
        }
        let ch: u8 = match input {
            Some(ch) => ch,
            None => 0,
        };
        let r: usize = if a >= MODULUS { (a - MODULUS) as usize } else { 0 };
        let ghost pre = self@;
        let mut event = Event::Executed;
        if op == 1 {
            self.registers.set(r, vb);
        } else if op == 2 {
            self.stack.push(va);
        } else if op == 3 {
            let top = self.stack.pop().unwrap();
            self.registers.set(r, top);
        } else if op == 4 {
            self.registers.set(r, if vb == vc { 1 } else { 0 });
        } else if op == 5 {
            self.registers.set(r, if vb > vc { 1 } else { 0 });
        } else if op == 9 {
            let sum: u32 = (vb as u32 + vc as u32) % 32768;
            self.registers.set(r, sum as u16);
        } else if op == 10 {
            let wide_b: u64 = vb as u64;
            let wide_c: u64 = vc as u64;
            assert(wide_b * wide_c <= 65535 * 65535) by (nonlinear_arith)
                requires
                    wide_b <= 65535,
                    wide_c <= 65535,
            ;
            let product: u64 = (wide_b * wide_c) % 32768;
            self.registers.set(r, product as u16);
        } else if op == 11 {
            self.registers.set(r, (vb % vc) % 32768);
        } else if op == 12 {
            self.registers.set(r, (vb & vc) % 32768);
        } else if op == 13 {
            self.registers.set(r, (vb | vc) % 32768);
        } else if op == 14 {
            let inverse: u16 = !vb & 0x7fff;
            assert(inverse <= 0x7fff) by (bit_vector)
                requires
                    inverse == !vb & 0x7fff,
            ;
            self.registers.set(r, inverse);
        } else if op == 15 {
            self.registers.set(r, fetched);
        } else if op == 16 {
            self.memory.set(2 * va as usize, (vb % 256) as u8);
            self.memory.set(2 * va as usize + 1, (vb / 256) as u8);
        } else if op == 17 {
            self.stack.push(self.pc + 2);
        } else if op == 18 {
            self.stack.pop();
        } else if op == 19 {
            event = Event::Output((va % 256) as u8);
        } else if op == 20 {
            self.registers.set(r, ch as u16);
            event = Event::Input(ch);
        }
        self.pc = target;
        proof {
            assert(self@.regs =~= pre.effect(op as int, ch).regs);
            assert(self@.stack =~= pre.effect(op as int, ch).stack);
            assert(self@.mem =~= pre.effect(op as int, ch).mem);
        }
        Ok(event)
    }
}

/// Loading a ROM of at most `65536` bytes and dumping memory gives the ROM's
/// bytes followed by zeros, `65536` bytes in all.
pub proof fn lemma_load_then_dump(rom: Seq<u8>)
    requires
        rom.len() <= MEMORY_BYTES,
    ensures
        loaded_memory(rom).len() == MEMORY_BYTES,
        loaded_memory(rom).subrange(0, rom.len() as int) == rom,
        forall|i: int| rom.len() <= i < MEMORY_BYTES ==> #[trigger] loaded_memory(rom)[i] == 0,
{
    assert(loaded_memory(rom).subrange(0, rom.len() as int) =~= rom);
}

/// An instruction that writes a register fails, and changes nothing, when a
/// literal stands in its first operand.
pub proof fn lemma_literal_destination_fails(m: MachineState, input: Option<u8>)
    requires
        m.wf(),
        !m.halted,
        writes_register(word_at(m.mem, m.pc as int)),
        m.fetch_error(arity(word_at(m.mem, m.pc as int))) is None,
        m.arg(1) < MODULUS,
    ensures
        step_spec(m, input) == Err::<(MachineState, Event), VmError>(
            VmError::LiteralDestination(m.arg(1) as u16),
        ),
{
}

/// The arithmetic instructions leave a value below `32768` in their register.
pub proof fn lemma_arithmetic_in_range(m: MachineState, input: Option<u8>)
    requires
        m.wf(),
        is_arithmetic(word_at(m.mem, m.pc as int)),
        step_spec(m, input) is Ok,
        !m.halted,
    ensures
        step_spec(m, input)->Ok_0.0.regs[m.arg(1) - MODULUS] < MODULUS,
{
    let op = word_at(m.mem, m.pc as int);
    let b = m.resolve(m.arg(2));
    let c = m.resolve(m.arg(3));
    if op == 14 {
        let v = !b & 0x7fffu16;
        assert(v <= 0x7fff) by (bit_vector)
            requires
                v == !b & 0x7fffu16,
        ;
    }
}

/// `call` followed directly by `ret` brings control back to the word after
/// the `call` and leaves the stack as it was.
pub proof fn lemma_call_then_ret(m: MachineState, first: Option<u8>, second: Option<u8>)
    requires
        m.wf(),
        !m.halted,
        word_at(m.mem, m.pc as int) == 17,
        m.pc + 2 < MODULUS,
        step_spec(m, first) is Ok,
        word_at(step_spec(m, first)->Ok_0.0.mem, step_spec(m, first)->Ok_0.0.pc as int) == 18,
    ensures
        step_spec(step_spec(m, first)->Ok_0.0, second) is Ok,
        step_spec(step_spec(m, first)->Ok_0.0, second)->Ok_0.0.pc == m.pc + 2,
        step_spec(step_spec(m, first)->Ok_0.0, second)->Ok_0.0.stack == m.stack,
{
    let m2 = step_spec(m, first)->Ok_0.0;
    assert(m2.stack.drop_last() =~= m.stack);
}

/// `jmp` to an address of `32768` or more fails; to a smaller one it moves
/// the program counter there.
pub proof fn lemma_jump_bounds(m: MachineState, input: Option<u8>)
    requires
        m.wf(),
        !m.halted,
        word_at(m.mem, m.pc as int) == 6,
        m.fetch_error(1) is None,
    ensures
        m.resolve(m.arg(1)) >= MODULUS ==> step_spec(m, input) == Err::<
            (MachineState, Event),
            VmError,
        >(VmError::AddressOutOfRange(m.resolve(m.arg(1)))),
        m.resolve(m.arg(1)) < MODULUS ==> step_spec(m, input) is Ok && step_spec(
            m,
            input,
        )->Ok_0.0.pc == m.resolve(m.arg(1)),
{
}

/// `push` puts the resolved operand on top of the stack.
pub proof fn lemma_push(m: MachineState, input: Option<u8>)
    requires
        m.wf(),
        !m.halted,
        word_at(m.mem, m.pc as int) == 2,
        step_spec(m, input) is Ok,
    ensures
        step_spec(m, input)->Ok_0.0.stack == m.stack.push(m.resolve(m.arg(1))),
{
}

/// `pop` takes the top of the stack into its register, and fails on an empty
/// stack.
pub proof fn lemma_pop(m: MachineState, input: Option<u8>)
    requires
        m.wf(),
        !m.halted,
        word_at(m.mem, m.pc as int) == 3,
        m.fetch_error(1) is None,
        m.arg(1) >= MODULUS,
    ensures
        m.stack.len() == 0 ==> step_spec(m, input) == Err::<(MachineState, Event), VmError>(
            VmError::EmptyStack,
        ),
        m.stack.len() > 0 && m.pc + 2 < MODULUS ==> step_spec(m, input) is Ok && step_spec(
            m,
            input,
        )->Ok_0.0.stack == m.stack.drop_last() && step_spec(m, input)->Ok_0.0.regs[m.arg(1)
            - MODULUS] == m.stack.last(),
{
}

/// `ret` on an empty stack halts the machine without an error.
pub proof fn lemma_ret_on_empty_stack_halts(m: MachineState, input: Option<u8>)
    requires
        m.wf(),
        !m.halted,
        word_at(m.mem, m.pc as int) == 18,
        m.stack.len() == 0,
    ensures
        step_spec(m, input) == Ok::<(MachineState, Event), VmError>(
            (MachineState { halted: true, ..m }, Event::Halted),
        ),
{
}

/// A word written by `wmem` is what `rmem` reads back from the same address;
/// `wmem` to an address of `32768` or more fails.
pub proof fn lemma_write_then_read(m: MachineState, first: Option<u8>, second: Option<u8>)
    requires
        m.wf(),
        !m.halted,
        word_at(m.mem, m.pc as int) == 16,
        m.fetch_error(2) is None,
    ensures
        m.resolve(m.arg(1)) >= MODULUS ==> step_spec(m, first) == Err::<
            (MachineState, Event),
            VmError,
        >(VmError::AddressOutOfRange(m.resolve(m.arg(1)))),
        ({
            let m2 = step_spec(m, first)->Ok_0.0;
            step_spec(m, first) is Ok && word_at(m2.mem, m2.pc as int) == 15
                && m2.fetch_error(2) is None && m2.arg(1) >= MODULUS && m2.resolve(m2.arg(2))
                == m.resolve(m.arg(1)) && m2.pc + 3 < MODULUS ==> step_spec(m2, second) is Ok
                && step_spec(m2, second)->Ok_0.0.regs[m2.arg(1) - MODULUS] == m.resolve(m.arg(2))
        }),
{
    if step_spec(m, first) is Ok {
        let m2 = step_spec(m, first)->Ok_0.0;
        let addr = m.resolve(m.arg(1)) as int;
        let v = m.resolve(m.arg(2));
        assert(m2.mem[2 * addr] == (v % 256) as u8);
        assert(m2.mem[2 * addr + 1] == (v / 256) as u8);
        assert(word_at(m2.mem, addr) == v);
    }
}

/// A `pop` right after a `push` takes the pushed value and leaves the stack
/// as it was before the `push`.
pub proof fn lemma_push_then_pop(m: MachineState, first: Option<u8>, second: Option<u8>)
    requires
        m.wf(),
        !m.halted,
        word_at(m.mem, m.pc as int) == 2,
        step_spec(m, first) is Ok,
        ({
            let m2 = step_spec(m, first)->Ok_0.0;
            &&& word_at(m2.mem, m2.pc as int) == 3
            &&& m2.fetch_error(1) is None
            &&& m2.arg(1) >= MODULUS
            &&& m2.pc + 2 < MODULUS
        }),
    ensures
        step_spec(step_spec(m, first)->Ok_0.0, second) is Ok,
        step_spec(step_spec(m, first)->Ok_0.0, second)->Ok_0.0.stack == m.stack,
        ({
            let m2 = step_spec(m, first)->Ok_0.0;
            step_spec(m2, second)->Ok_0.0.regs[m2.arg(1) - MODULUS] == m.resolve(m.arg(1))
        }),
{
    let m2 = step_spec(m, first)->Ok_0.0;
    assert(m2.stack == m.stack.push(m.resolve(m.arg(1))));
    assert(m2.stack.drop_last() =~= m.stack);
}

/// The state after `k` steps from `m` with no input, or the first error.
pub open spec fn run_steps(m: MachineState, k: nat) -> Result<MachineState, VmError>
    decreases k,
{
    if k == 0 {
        Ok(m)
    } else {
        match run_steps(m, (k - 1) as nat) {
            Ok(s) => match step_spec(s, None) {
                Ok((s2, _)) => Ok(s2),
                Err(e) => Err(e),
            },
            Err(e) => Err(e),
        }
    }
}

/// Whether the `j`-th step from `m` runs opcode `op` on a running machine.
pub open spec fn runs_op(m: MachineState, j: nat, op: int) -> bool {
    run_steps(m, j) is Ok && !run_steps(m, j)->Ok_0.halted && word_at(
        run_steps(m, j)->Ok_0.mem,
        run_steps(m, j)->Ok_0.pc as int,
    ) == op
}

/// `n` pushes followed by `n` pops leave the stack as it was, and each pop
/// takes the value of the matching push: the last pushed comes first.
pub proof fn lemma_pushes_then_pops(m: MachineState, n: nat)
    requires
        run_steps(m, 2 * n) is Ok,
        forall|j: nat| j < n ==> #[trigger] runs_op(m, j, 2),
        forall|j: nat| n <= j < 2 * n ==> #[trigger] runs_op(m, j, 3),
    ensures
        run_steps(m, 2 * n)->Ok_0.stack == m.stack,
        forall|i: nat|
            i < n ==> (#[trigger] run_steps(m, n + i))->Ok_0.stack.last() == run_steps(
                m,
                (n - i - 1) as nat,
            )->Ok_0.resolve(run_steps(m, (n - i - 1) as nat)->Ok_0.arg(1)),
{
    lemma_steps_prefix(m, 2 * n);
    assert forall|i: nat| i <= n implies (#[trigger] run_steps(m, n + i))->Ok_0.stack == run_steps(
        m,
        (n - i) as nat,
    )->Ok_0.stack by {
        lemma_mirror(m, n, i);
    }
    assert(run_steps(m, 0) == Ok::<MachineState, VmError>(m));
    lemma_mirror(m, n, n);
    assert(n + n == 2 * n);
    assert forall|i: nat| i < n implies (#[trigger] run_steps(m, n + i))->Ok_0.stack.last()
        == run_steps(m, (n - i - 1) as nat)->Ok_0.resolve(
        run_steps(m, (n - i - 1) as nat)->Ok_0.arg(1),
    ) by {
        let j = (n - i - 1) as nat;
        assert(runs_op(m, j, 2));
        assert(run_steps(m, j + 1) == match step_spec(run_steps(m, j)->Ok_0, None) {
            Ok((s2, _)) => Ok::<MachineState, VmError>(s2),
            Err(e) => Err(e),
        });
        assert(run_steps(m, n + i)->Ok_0.stack == run_steps(m, (n - i) as nat)->Ok_0.stack);
    }
}

/// Every prefix of a run that succeeds succeeds.
proof fn lemma_steps_prefix(m: MachineState, k: nat)
    requires
        run_steps(m, k) is Ok,
    ensures
        forall|j: nat| j <= k ==> #[trigger] run_steps(m, j) is Ok,
    decreases k,
{
    if k > 0 {
        lemma_steps_prefix(m, (k - 1) as nat);
    }
}

/// After `n` pushes, the stack `i` pops later equals the stack `i` pushes
/// earlier.
proof fn lemma_mirror(m: MachineState, n: nat, i: nat)
    requires
        i <= n,
        forall|j: nat| j <= 2 * n ==> #[trigger] run_steps(m, j) is Ok,
        forall|j: nat| j < n ==> #[trigger] runs_op(m, j, 2),
        forall|j: nat| n <= j < 2 * n ==> #[trigger] runs_op(m, j, 3),
    ensures
        run_steps(m, n + i)->Ok_0.stack == run_steps(m, (n - i) as nat)->Ok_0.stack,
    decreases i,
{
    if i > 0 {
        lemma_mirror(m, n, (i - 1) as nat);
        let a = (n + i - 1) as nat;
        let b = (n - i) as nat;
        assert(runs_op(m, a, 3));
        assert(runs_op(m, b, 2));
        assert(run_steps(m, a + 1) is Ok);
        assert(run_steps(m, b + 1) is Ok);
        let sa = run_steps(m, a)->Ok_0;
        let sb = run_steps(m, b)->Ok_0;
        assert(run_steps(m, a + 1) == match step_spec(sa, None) {
            Ok((s2, _)) => Ok::<MachineState, VmError>(s2),
            Err(e) => Err(e),
        });
        assert(run_steps(m, b + 1) == match step_spec(sb, None) {
            Ok((s2, _)) => Ok::<MachineState, VmError>(s2),
            Err(e) => Err(e),
        });
        assert(step_spec(sa, None)->Ok_0.0.stack == sa.stack.drop_last());
        assert(step_spec(sb, None)->Ok_0.0.stack == sb.stack.push(sb.resolve(sb.arg(1))));
        assert(sb.stack.push(sb.resolve(sb.arg(1))).drop_last() =~= sb.stack);
        assert((n + i) as nat == a + 1);
        assert((n - (i - 1)) as nat == b + 1);
    }
}

} // verus!
