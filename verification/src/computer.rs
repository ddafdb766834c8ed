//! A three-register machine with a tiny eight-instruction set.

use vstd::prelude::*;

verus! {

/// The machine's three registers.
#[derive(Clone, Copy, PartialEq, Eq, Structural, Debug)]
pub enum Register {
    A,
    B,
    C,
}

impl Register {
    /// The slot a register occupies in the register file.
    pub open spec fn spec_index(self) -> int {
        match self {
            Register::A => 0,
            Register::B => 1,
            Register::C => 2,
        }
    }
}

/// A combo operand: a small literal, or a register's value.
#[derive(Clone, Copy, PartialEq, Eq, Structural, Debug)]
pub enum ComboOp {
    Literal(u8),
    Register(Register),
}

impl ComboOp {
    /// Decodes an operand byte; `7` is reserved and refused.
    pub fn from_code(value: u8) -> (r: Option<ComboOp>)
        ensures
            r == match value {
                0u8 | 1u8 | 2u8 | 3u8 => Some(ComboOp::Literal(value)),
                4u8 => Some(ComboOp::Register(Register::A)),
                5u8 => Some(ComboOp::Register(Register::B)),
                6u8 => Some(ComboOp::Register(Register::C)),
                _ => None::<ComboOp>,
            },
    {
        match value {
            0 | 1 | 2 | 3 => Some(ComboOp::Literal(value)),
            4 => Some(ComboOp::Register(Register::A)),
            5 => Some(ComboOp::Register(Register::B)),
            6 => Some(ComboOp::Register(Register::C)),
            _ => None,
        }
    }
}

/// One decoded instruction.
#[derive(Clone, Copy, PartialEq, Eq, Structural, Debug)]
pub enum Instruction {
    Adv(ComboOp),
    Bxl(u8),
    Bst(ComboOp),
    Jnz(u8),
    Bxc,
    Out(ComboOp),
    Bdv(ComboOp),
    Cdv(ComboOp),
}

impl Instruction {
    /// Decodes an opcode byte and its operand byte.
    pub fn from_pair(code: u8, operand: u8) -> (r: Option<Instruction>)
        ensures
            r is Some <==> (code < 8 && (code == 1 || code == 3 || code == 4 || operand < 7)),
    {
        match code {
            0 => match ComboOp::from_code(operand) {
                Some(op) => Some(Instruction::Adv(op)),
                None => None,
            },
            1 => Some(Instruction::Bxl(operand)),
            2 => match ComboOp::from_code(operand) {
                Some(op) => Some(Instruction::Bst(op)),
                None => None,
            },
            3 => Some(Instruction::Jnz(operand)),
            4 => Some(Instruction::Bxc),
            5 => match ComboOp::from_code(operand) {
                Some(op) => Some(Instruction::Out(op)),
                None => None,
            },
            6 => match ComboOp::from_code(operand) {
                Some(op) => Some(Instruction::Bdv(op)),
                None => None,
            },
            7 => match ComboOp::from_code(operand) {
                Some(op) => Some(Instruction::Cdv(op)),
                None => None,
            },
            _ => None,
        }
    }
}

/// The machine's observable state: registers, program counter, output.
pub struct MachineView {
    pub a: u64,
    pub b: u64,
    pub c: u64,
    pub pc: usize,
    pub out: Seq<u8>,
}

/// The machine: registers, a decoded program, a byte-granular program
/// counter, and the bytes written so far.
pub struct Computer {
    pub registers: [u64; 3],
    pub program: Vec<Instruction>,
    pub pc: usize,
    pub output: Vec<u8>,
}

impl Computer {
    /// The machine's observable state.
    pub open spec fn state(self) -> MachineView {
        MachineView {
            a: self.registers@[0],
            b: self.registers@[1],
            c: self.registers@[2],
            pc: self.pc,
            out: self.output@,
        }
    }

    pub open spec fn spec_register(self, reg: Register) -> u64 {
        self.registers@[reg.spec_index()]
    }

    /// The value a register holds.
    pub fn get_register(&self, reg: Register) -> (r: u64)
        ensures
            r == self.spec_register(reg),
    {
        match reg {
            Register::A => self.registers[0],
            Register::B => self.registers[1],
            Register::C => self.registers[2],
        }
    }

    /// Overwrites a register.
    pub fn set_register(&mut self, reg: Register, value: u64)
        ensures
            final(self).registers@ == old(self).registers@.update(reg.spec_index(), value),
            final(self).spec_register(reg) == value,
            final(self).program == old(self).program,
            final(self).pc == old(self).pc,
            final(self).output == old(self).output,
    {
        let i: usize = match reg {
            Register::A => 0,
            Register::B => 1,
            Register::C => 2,
        };
        let mut rs = self.registers;
        rs[i] = value;
        self.registers = rs;
    }

    /// The value a combo operand denotes.
    pub fn get_value(&self, op: ComboOp) -> (r: u64)
        ensures
            r == spec_value(self.state(), op),
    {
        match op {
            ComboOp::Literal(value) => value as u64,
            ComboOp::Register(reg) => self.get_register(reg),
        }
    }

    /// Runs at most `fuel` instructions, then reports whether the
    /// program has halted (the program counter ran off the end).
    ///
    /// The machine's final state is exactly the spec-level run of its
    /// initial state; the budget makes the interpreter total even though
    /// a program can loop forever.
    #[verifier::loop_isolation(false)]
    pub fn run(&mut self, fuel: u64) -> (halted: bool)
        requires
            old(self).program@.len() * 2 <= usize::MAX - 2,
        ensures
            final(self).state() == spec_run(old(self).program@, old(self).state(), fuel as nat),
            final(self).program == old(self).program,
            halted == spec_halted(final(self).program@, final(self).state()),
    {
        let n2 = self.program.len() * 2;
        let mut left = fuel;
        while left > 0 && self.pc < n2
            invariant
                n2 == self.program@.len() * 2,
                self.program == old(self).program,
                left <= fuel,
                spec_run(self.program@, self.state(), left as nat) == spec_run(
                    old(self).program@,
                    old(self).state(),
                    fuel as nat,
                ),
            decreases left,
        {
            let ghost pre = self.state();
            let instr = self.program[self.pc / 2];
            match instr {
                Instruction::Bxl(op) => {
                    let reg = self.get_register(Register::B);
                    self.set_register(Register::B, reg ^ (op as u64));
                    self.pc = self.pc + 2;
                },
                Instruction::Bst(op) => {
                    let value = self.get_value(op);
                    self.set_register(Register::B, value & 0b111);
                    self.pc = self.pc + 2;
                },
                Instruction::Jnz(op) => {
                    let condition = self.get_register(Register::A);
                    if condition != 0 {
                        self.pc = op as usize;
                    } else {
                        self.pc = self.pc + 2;
                    }
                },
                Instruction::Bxc => {
                    let reg_b = self.get_register(Register::B);
                    let reg_c = self.get_register(Register::C);
                    self.set_register(Register::B, reg_b ^ reg_c);
                    self.pc = self.pc + 2;
                },
                Instruction::Out(op) => {
                    let value = self.get_value(op);
                    self.output.push((value & 0b111) as u8);
                    self.pc = self.pc + 2;
                },
                Instruction::Adv(op) => {
                    let amount = self.get_value(op);
                    let numerator = self.get_register(Register::A);
                    self.set_register(Register::A, shift_down(numerator, amount));
                    self.pc = self.pc + 2;
                },
                Instruction::Bdv(op) => {
                    let amount = self.get_value(op);
                    let numerator = self.get_register(Register::A);
                    self.set_register(Register::B, shift_down(numerator, amount));
                    self.pc = self.pc + 2;
                },
                Instruction::Cdv(op) => {
                    let amount = self.get_value(op);
                    let numerator = self.get_register(Register::A);
                    self.set_register(Register::C, shift_down(numerator, amount));
                    self.pc = self.pc + 2;
                },
            }
            proof {
                assert(self.state() == spec_step(self.program@, pre));
            }
            left = left - 1;
        }
        self.pc >= n2
    }
}

/// The value a combo operand denotes in a machine state.
pub open spec fn spec_value(m: MachineView, op: ComboOp) -> u64 {
    match op {
        ComboOp::Literal(v) => v as u64,
        ComboOp::Register(Register::A) => m.a,
        ComboOp::Register(Register::B) => m.b,
        ComboOp::Register(Register::C) => m.c,
    }
}

/// Right shift that treats oversized amounts as shifting everything out.
pub open spec fn spec_shift_down(v: u64, amount: u64) -> u64 {
    if amount >= 64 {
        0
    } else {
        v >> amount
    }
}

/// Divides by two to the `amount`: a right shift, zero once the shift
/// would exceed the register width.
pub fn shift_down(v: u64, amount: u64) -> (r: u64)
    ensures
        r == spec_shift_down(v, amount),
{
    if amount >= 64 {
        0
    } else {
        v >> amount
    }
}

/// Whether the program counter has run off the program.
pub open spec fn spec_halted(prog: Seq<Instruction>, m: MachineView) -> bool {
    m.pc >= prog.len() * 2
}

/// One instruction's effect on the machine state.
pub open spec fn spec_step(prog: Seq<Instruction>, m: MachineView) -> MachineView {
    match prog[m.pc as int / 2] {
        Instruction::Bxl(op) => MachineView { b: m.b ^ (op as u64), pc: (m.pc + 2) as usize, ..m },
        Instruction::Bst(op) => MachineView {
            b: spec_value(m, op) & 0b111,
            pc: (m.pc + 2) as usize,
            ..m
        },
        Instruction::Jnz(op) => if m.a != 0 {
            MachineView { pc: op as usize, ..m }
        } else {
            MachineView { pc: (m.pc + 2) as usize, ..m }
        },
        Instruction::Bxc => MachineView { b: m.b ^ m.c, pc: (m.pc + 2) as usize, ..m },
        Instruction::Out(op) => MachineView {
            out: m.out.push((spec_value(m, op) & 0b111) as u8),
            pc: (m.pc + 2) as usize,
            ..m
        },
        Instruction::Adv(op) => MachineView {
            a: spec_shift_down(m.a, spec_value(m, op)),
            pc: (m.pc + 2) as usize,
            ..m
        },
        Instruction::Bdv(op) => MachineView {
            b: spec_shift_down(m.a, spec_value(m, op)),
            pc: (m.pc + 2) as usize,
            ..m
        },
        Instruction::Cdv(op) => MachineView {
            c: spec_shift_down(m.a, spec_value(m, op)),
            pc: (m.pc + 2) as usize,
            ..m
        },
    }
}

/// The machine state after at most `fuel` instructions, stopping early
/// on a halt.
pub open spec fn spec_run(prog: Seq<Instruction>, m: MachineView, fuel: nat) -> MachineView
    decreases fuel,
{
    if fuel == 0 || spec_halted(prog, m) {
        m
    } else {
        spec_run(prog, spec_step(prog, m), (fuel - 1) as nat)
    }
}

} // verus!
