//! Processor-level data: the register snapshot an interrupt pushes, the
//! task-state segment, and the feature bits reported by the processor
//! identification instruction.
//!
//! Executing that instruction, reading and writing model-specific registers
//! and halting are hardware operations and live outside the library; the
//! feature tests here read a register snapshot the caller supplies.

use vstd::prelude::*;

verus! {

/// The registers the processor identification instruction returns for one
/// leaf.
#[derive(Debug, Clone, Copy, PartialEq, Eq, Structural)]
pub struct Cpuid {
    pub eax: u32,
    pub ebx: u32,
    pub ecx: u32,
    pub edx: u32,
}

impl Cpuid {
    /// Supervisor-mode access prevention: leaf 7 register b, bit 20.
    pub fn has_smap(&self) -> (r: bool)
        ensures
            r == (self.ebx & 0x10_0000 != 0),
    {
        self.ebx & 0x10_0000 != 0
    }

    /// Supervisor-mode execution prevention: leaf 7 register b, bit 7.
    pub fn has_smep(&self) -> (r: bool)
        ensures
            r == (self.ebx & 0x80 != 0),
    {
        self.ebx & 0x80 != 0
    }

    /// The segment-base read/write instructions: leaf 7 register b, bit 0.
    pub fn has_fsgsbase(&self) -> (r: bool)
        ensures
            r == (self.ebx & 0x1 != 0),
    {
        self.ebx & 0x1 != 0
    }

    /// User-mode instruction prevention: leaf 7 register c, bit 2.
    pub fn has_umip(&self) -> (r: bool)
        ensures
            r == (self.ecx & 0x4 != 0),
    {
        self.ecx & 0x4 != 0
    }
}

impl Default for Cpuid {
    fn default() -> (r: Self)
        ensures
            r.eax == 0 && r.ebx == 0 && r.ecx == 0 && r.edx == 0,
    {
        Cpuid { eax: 0, ebx: 0, ecx: 0, edx: 0 }
    }
}

/// The register snapshot handed to every interrupt and exception handler:
/// the general-purpose registers, then what the processor pushed.
#[derive(Debug, Clone, Copy, PartialEq, Eq, Structural)]
pub struct InterruptContext {
    pub rax: u64,
    pub rbx: u64,
    pub rcx: u64,
    pub rdx: u64,
    pub rsi: u64,
    pub rdi: u64,
    pub rbp: u64,
    pub r8: u64,
    pub r9: u64,
    pub r10: u64,
    pub r11: u64,
    pub r12: u64,
    pub r13: u64,
    pub r14: u64,
    pub r15: u64,
    pub rip: u64,
    pub cs: u64,
    pub rflags: u64,
    pub rsp: u64,
    pub ss: u64,
}

impl Default for InterruptContext {
    fn default() -> (r: Self)
        ensures
            r == (InterruptContext {
                rax: 0,
                rbx: 0,
                rcx: 0,
                rdx: 0,
                rsi: 0,
                rdi: 0,
                rbp: 0,
                r8: 0,
                r9: 0,
                r10: 0,
                r11: 0,
                r12: 0,
                r13: 0,
                r14: 0,
                r15: 0,
                rip: 0,
                cs: 0,
                rflags: 0,
                rsp: 0,
                ss: 0,
            }),
    {
        InterruptContext {
            rax: 0,
            rbx: 0,
            rcx: 0,
            rdx: 0,
            rsi: 0,
            rdi: 0,
            rbp: 0,
            r8: 0,
            r9: 0,
            r10: 0,
            r11: 0,
            r12: 0,
            r13: 0,
            r14: 0,
            r15: 0,
            rip: 0,
            cs: 0,
            rflags: 0,
            rsp: 0,
            ss: 0,
        }
    }
}

/// The task-state segment: stack pointers for privilege changes and the
/// interrupt stacks.
#[derive(Debug, Clone, Copy, PartialEq, Eq, Structural)]
pub struct Tss {
    pub reserved0: u32,
    pub rsp0: u64,
    pub rsp1: u64,
    pub rsp2: u64,
    pub reserved2: u64,
    pub ist1: u64,
    pub ist2: u64,
    pub ist3: u64,
    pub ist4: u64,
    pub ist5: u64,
    pub ist6: u64,
    pub ist7: u64,
    pub reserved3: u64,
    pub iobm: u32,
}

impl Default for Tss {
    fn default() -> (r: Self)
        ensures
            r.rsp0 == 0 && r.ist1 == 0 && r.ist2 == 0,
    {
        Tss {
            reserved0: 0,
            rsp0: 0,
            rsp1: 0,
            rsp2: 0,
            reserved2: 0,
            ist1: 0,
            ist2: 0,
            ist3: 0,
            ist4: 0,
            ist5: 0,
            ist6: 0,
            ist7: 0,
            reserved3: 0,
            iobm: 0,
        }
    }
}

/// The interrupt stacks the kernel assigns in the task-state segment.
#[derive(Debug, Clone, Copy, PartialEq, Eq, Structural)]
pub enum Ists {
    PageFault,
    Nmi,
}

impl Ists {
    /// The stack-table index the variant stands for.
    pub fn index(self) -> (r: u8)
        ensures
            r == match self {
                Ists::PageFault => 1u8,
                Ists::Nmi => 2u8,
            },
    {
        match self {
            Ists::PageFault => 1,
            Ists::Nmi => 2,
        }
    }
}

/// The model-specific registers the kernel touches.
#[derive(Debug, Clone, Copy, PartialEq, Eq, Structural)]
pub enum MsrList {
    ApicBase,
    GsBase,
}

impl MsrList {
    /// The architectural register number of the variant.
    pub fn address(self) -> (r: u32)
        ensures
            r == match self {
                MsrList::ApicBase => 0x1bu32,
                MsrList::GsBase => 0xc000_0101u32,
            },
    {
        match self {
            MsrList::ApicBase => 0x1b,
            MsrList::GsBase => 0xc000_0101,
        }
    }
}

} // verus!
