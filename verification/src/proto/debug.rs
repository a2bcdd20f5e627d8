//! The debug support protocol, which tells a debugger about the processor.

use vstd::prelude::*;

verus! {

/// The instruction set architecture of the running processor.
#[derive(Debug, Copy, Clone, Eq, PartialEq, Structural)]
pub enum ProcessorArch {
    /// 32-bit x86 PC
    X86_32,
    /// 64-bit x86 PC
    X86_64,
    /// Intel Itanium
    Itanium,
    /// UEFI Interpreter bytecode
    EBC,
    /// ARM Thumb / Mixed
    Arm,
    /// ARM 64-bit
    AArch64,
    /// RISC-V 32-bit
    RiscV32,
    /// RISC-V 64-bit
    RiscV64,
    /// RISC-V 128-bit
    RiscV128,
}

impl ProcessorArch {
    /// The machine type number by which the firmware names this architecture.
    pub open spec fn machine_type(self) -> u32 {
        match self {
            ProcessorArch::X86_32 => 0x014C,
            ProcessorArch::X86_64 => 0x8664,
            ProcessorArch::Itanium => 0x200,
            ProcessorArch::EBC => 0x0EBC,
            ProcessorArch::Arm => 0x01C2,
            ProcessorArch::AArch64 => 0xAA64,
            ProcessorArch::RiscV32 => 0x5032,
            ProcessorArch::RiscV64 => 0x5064,
            ProcessorArch::RiscV128 => 0x5128,
        }
    }

    /// The machine type number by which the firmware names this architecture.
    pub fn code(self) -> (n: u32)
        ensures
            n == self.machine_type(),
    {
        match self {
            ProcessorArch::X86_32 => 0x014C,
            ProcessorArch::X86_64 => 0x8664,
            ProcessorArch::Itanium => 0x200,
            ProcessorArch::EBC => 0x0EBC,
            ProcessorArch::Arm => 0x01C2,
            ProcessorArch::AArch64 => 0xAA64,
            ProcessorArch::RiscV32 => 0x5032,
            ProcessorArch::RiscV64 => 0x5064,
            ProcessorArch::RiscV128 => 0x5128,
        }
    }

    /// The architecture that the firmware names by `n`, if there is one.
    pub fn from_code(n: u32) -> (arch: Option<ProcessorArch>)
        ensures
            match arch {
                Some(a) => a.machine_type() == n,
                None => forall|a: ProcessorArch| a.machine_type() != n,
            },
    {
        if n == 0x014C {
            Some(ProcessorArch::X86_32)
        } else if n == 0x8664 {
            Some(ProcessorArch::X86_64)
        } else if n == 0x200 {
            Some(ProcessorArch::Itanium)
        } else if n == 0x0EBC {
            Some(ProcessorArch::EBC)
        } else if n == 0x01C2 {
            Some(ProcessorArch::Arm)
        } else if n == 0xAA64 {
            Some(ProcessorArch::AArch64)
        } else if n == 0x5032 {
            Some(ProcessorArch::RiscV32)
        } else if n == 0x5064 {
            Some(ProcessorArch::RiscV64)
        } else if n == 0x5128 {
            Some(ProcessorArch::RiscV128)
        } else {
            None
        }
    }
}

/// What the debug support protocol tells about the processor.
#[derive(Debug, Copy, Clone, Eq, PartialEq, Structural)]
pub struct DebugSupport {
    isa: ProcessorArch,
}

impl DebugSupport {
    /// The instruction set architecture as the protocol reports it.
    pub closed spec fn isa(self) -> ProcessorArch {
        self.isa
    }

    /// The protocol data of a processor of architecture `isa`.
    pub fn new(isa: ProcessorArch) -> (d: Self)
        ensures
            d.isa() == isa,
    {
        DebugSupport { isa }
    }

    /// Returns the processor architecture of the running CPU.
    pub fn arch(&self) -> (a: ProcessorArch)
        ensures
            a == self.isa(),
    {
        self.isa
    }
}

} // verus!
