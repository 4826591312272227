//! Snapshots of the general purpose registers of a RISC-V hart.
//!
//! The register numbering follows the DWARF register mapping for RISC-V, where
//! `x0`..`x31` are numbered `0`..`31`.
use vstd::prelude::*;

verus! {

/// DWARF register number of the return address register (`x1`/`ra`).
pub const REG_RA: u16 = 1;

/// DWARF register number of the stack pointer (`x2`/`sp`).
pub const REG_SP: u16 = 2;

/// Number of general purpose registers.
pub const REG_COUNT: usize = 32;

/// The ABI names of the general purpose registers, indexed by their DWARF
/// register number.
pub const REGISTER_NAMES: [&'static str; 32] = [
    "ZERO", "RA", "SP", "GP", "TP", "T0", "T1", "T2", "S0/FP", "S1", "A0", "A1", "A2", "A3", "A4",
    "A5", "A6", "A7", "S2", "S3", "S4", "S5", "S6", "S7", "S8", "S9", "S10", "S11", "T3", "T4",
    "T5", "T6",
];

/// The registers which a called function must preserve (RISC-V calling
/// convention): `sp`, `gp`, `tp` and `s0`..`s11`.
pub open spec fn callee_saved(reg: int) -> bool {
    2 <= reg <= 4 || 8 <= reg <= 9 || 18 <= reg <= 27
}

/// Whether a called function must preserve register `reg`, so that its value
/// survives into the caller's frame unless the unwind rules say otherwise.
pub fn is_callee_saved(reg: u16) -> (saved: bool)
    ensures
        saved == callee_saved(reg as int),
{
    matches!(reg, 2..=4 | 8..=9 | 18..=27)
}

/// What a [`Registers`] holds.
#[verifier::ext_equal]
pub struct RegisterValues {
    /// The program counter.
    pub pc: u32,
    /// Whether `pc` is a return address.
    pub pc_is_return_address: bool,
    /// Whether the stack pointer is a placeholder.
    pub sp_is_placeholder: bool,
    /// The stored value of each general purpose register.
    pub regs: Seq<Option<u32>>,
}

impl RegisterValues {
    /// The value that register `reg` reads as: `x0` is hard-wired to zero, and
    /// nothing is known of a register beyond the general purpose ones.
    pub open spec fn get(self, reg: int) -> Option<u32> {
        if reg == 0 {
            Some(0)
        } else if 0 <= reg < self.regs.len() {
            self.regs[reg]
        } else {
            None
        }
    }

    /// These values with `value` stored for register `reg`, if it is one of the
    /// general purpose registers.
    pub open spec fn with(self, reg: int, value: Option<u32>) -> RegisterValues {
        if 0 <= reg < self.regs.len() {
            RegisterValues { regs: self.regs.update(reg, value), ..self }
        } else {
            self
        }
    }
}

/// The values of a snapshot where only the program counter is known.
pub open spec fn only_pc(pc: u32) -> RegisterValues {
    RegisterValues {
        pc,
        pc_is_return_address: false,
        sp_is_placeholder: false,
        regs: Seq::new(REG_COUNT as nat, |i: int| None),
    }
}

/// A snapshot of the general purpose registers, with `None` for registers
/// whose value isn't known.
#[derive(Clone, Copy, Debug, PartialEq, Eq)]
pub struct Registers {
    /// The program counter.
    pub pc: u32,
    /// Whether `pc` is the return address of a call rather than the address
    /// of the executing instruction, e.g. because the snapshot was taken by a
    /// helper function.
    pub pc_is_return_address: bool,
    /// Whether the stack pointer is a placeholder rather than its real value.
    /// Only offsets from a placeholder are meaningful, so it can't be combined
    /// with other registers holding stack addresses (like the frame pointer).
    pub sp_is_placeholder: bool,
    /// The stored value of each general purpose register.
    pub regs: [Option<u32>; 32],
}

impl View for Registers {
    type V = RegisterValues;

    open spec fn view(&self) -> RegisterValues {
        RegisterValues {
            pc: self.pc,
            pc_is_return_address: self.pc_is_return_address,
            sp_is_placeholder: self.sp_is_placeholder,
            regs: self.regs@,
        }
    }
}

impl Registers {
    /// Creates a snapshot where only the program counter is known.
    pub fn new(pc: u32) -> (registers: Self)
        ensures
            registers@ == only_pc(pc),
    {
        let mut regs: [Option<u32>; 32] = [None; 32];
        let mut i: usize = 0;
        while i < REG_COUNT
            invariant
                i <= REG_COUNT,
                forall|j: int| 0 <= j < i ==> (#[trigger] regs@[j]) == None::<u32>,
            decreases REG_COUNT - i,
        {
            regs[i] = None;
            i += 1;
        }
        let registers = Registers {
            pc,
            pc_is_return_address: false,
            sp_is_placeholder: false,
            regs,
        };
        assert(registers@.regs =~= only_pc(pc).regs);
        registers
    }

    /// Returns the value of register `reg`, if known.
    pub fn get(&self, reg: u16) -> (value: Option<u32>)
        ensures
            value == self@.get(reg as int),
    {
        if reg == 0 {
            Some(0)
        } else if (reg as usize) < REG_COUNT {
            self.regs[reg as usize]
        } else {
            None
        }
    }

    /// Sets the value of register `reg`.
    pub fn set(&mut self, reg: u16, value: u32)
        ensures
            final(self)@ == old(self)@.with(reg as int, Some(value)),
    {
        if (reg as usize) < REG_COUNT {
            self.regs[reg as usize] = Some(value);
        }
    }

    /// Marks register `reg` as unknown.
    pub fn clear(&mut self, reg: u16)
        ensures
            final(self)@ == old(self)@.with(reg as int, None),
    {
        if (reg as usize) < REG_COUNT {
            self.regs[reg as usize] = None;
        }
    }
}

/// Memory the unwinder can read; typically the dumped part of the stack.
pub trait Memory {
    /// The little-endian 32-bit words at the addresses that are available.
    spec fn words(&self) -> Map<u32, u32>;

    /// Reads the little-endian 32-bit word at `addr`, if that address is
    /// available.
    fn read_u32(&self, addr: u32) -> (word: Option<u32>)
        ensures
            word == word_at(self.words(), addr),
    ;
}

/// The word at `addr`, if that address is available.
pub open spec fn word_at(words: Map<u32, u32>, addr: u32) -> Option<u32> {
    if words.dom().contains(addr) {
        Some(words[addr])
    } else {
        None
    }
}

/// Register `x0` always reads as zero, whatever was stored for it.
pub proof fn law_x0_is_zero(registers: RegisterValues, reg: u16, value: Option<u32>)
    ensures
        registers.get(0) == Some(0u32),
        registers.with(reg as int, value).get(0) == Some(0u32),
{
}

/// Setting or clearing a register changes nothing else: neither the program counter nor what
/// is known of it and of the stack pointer.
pub proof fn law_registers_are_set_one_by_one(
    registers: RegisterValues,
    reg: int,
    value: Option<u32>,
)
    ensures
        registers.with(reg, value).pc == registers.pc,
        registers.with(reg, value).pc_is_return_address == registers.pc_is_return_address,
        registers.with(reg, value).sp_is_placeholder == registers.sp_is_placeholder,
        registers.with(reg, value).regs.len() == registers.regs.len(),
{
}

/// A new snapshot has the program counter it was made with, for an instruction that is being
/// executed, and no register but `x0` is known.
pub proof fn law_new_snapshot_knows_only_pc(pc: u32, reg: int)
    ensures
        only_pc(pc).pc == pc,
        !only_pc(pc).pc_is_return_address,
        !only_pc(pc).sp_is_placeholder,
        only_pc(pc).regs.len() == 32,
        reg != 0 ==> only_pc(pc).get(reg) is None,
{
}

/// A register reads back what was set or cleared last, and no other register
/// changes; numbers beyond the general purpose registers are ignored.
pub proof fn law_read_after_write(registers: Registers, reg: u16, other: u16, value: Option<u32>)
    ensures
        0 < reg < REG_COUNT ==> registers@.with(reg as int, value).get(reg as int) == value,
        other != reg ==> registers@.with(reg as int, value).get(other as int) == registers@.get(
            other as int,
        ),
        reg >= REG_COUNT ==> registers@.with(reg as int, value) == registers@,
{
}

/// The registers have the names of the RISC-V calling convention, in the order of their
/// numbers.
pub proof fn law_registers_have_abi_names()
    ensures
        REGISTER_NAMES[0]@ == "ZERO"@,
        REGISTER_NAMES[1]@ == "RA"@,
        REGISTER_NAMES[2]@ == "SP"@,
        REGISTER_NAMES[3]@ == "GP"@,
        REGISTER_NAMES[4]@ == "TP"@,
        REGISTER_NAMES[5]@ == "T0"@,
        REGISTER_NAMES[6]@ == "T1"@,
        REGISTER_NAMES[7]@ == "T2"@,
        REGISTER_NAMES[8]@ == "S0/FP"@,
        REGISTER_NAMES[9]@ == "S1"@,
        REGISTER_NAMES[10]@ == "A0"@,
        REGISTER_NAMES[11]@ == "A1"@,
        REGISTER_NAMES[12]@ == "A2"@,
        REGISTER_NAMES[13]@ == "A3"@,
        REGISTER_NAMES[14]@ == "A4"@,
        REGISTER_NAMES[15]@ == "A5"@,
        REGISTER_NAMES[16]@ == "A6"@,
        REGISTER_NAMES[17]@ == "A7"@,
        REGISTER_NAMES[18]@ == "S2"@,
        REGISTER_NAMES[19]@ == "S3"@,
        REGISTER_NAMES[20]@ == "S4"@,
        REGISTER_NAMES[21]@ == "S5"@,
        REGISTER_NAMES[22]@ == "S6"@,
        REGISTER_NAMES[23]@ == "S7"@,
        REGISTER_NAMES[24]@ == "S8"@,
        REGISTER_NAMES[25]@ == "S9"@,
        REGISTER_NAMES[26]@ == "S10"@,
        REGISTER_NAMES[27]@ == "S11"@,
        REGISTER_NAMES[28]@ == "T3"@,
        REGISTER_NAMES[29]@ == "T4"@,
        REGISTER_NAMES[30]@ == "T5"@,
        REGISTER_NAMES[31]@ == "T6"@,
{
}

} // verus!
