//! The data model: opcodes, instruction descriptors, the assembler state,
//! and the diagnostics (warnings and fatal errors) the pipeline reports.

use vstd::prelude::*;

verus! {

/// The opcode table for the target virtual machine: a total mapping from
/// operation tags to their one-byte encodings.
#[derive(Clone, Copy, PartialEq, Eq, Structural, Debug)]
pub enum Opcodes {
    Jmp,
}

impl Opcodes {
    /// The byte that encodes this operation in the output stream.
    pub open spec fn spec_byte(self) -> u8 {
        match self {
            Opcodes::Jmp => 0,
        }
    }

    /// Executable lookup of the opcode byte.
    #[verifier::when_used_as_spec(spec_byte)]
    pub fn byte(self) -> (b: u8)
        ensures
            b == self.spec_byte(),
    {
        match self {
            Opcodes::Jmp => 0,
        }
    }
}

/// An unconditional jump to a fixed numeric address.
#[derive(Clone, PartialEq, Eq, Debug)]
pub struct JmpInstr {
    pub op_type: Opcodes,
    /// Absolute target address, emitted as 4 little-endian bytes.
    pub target: u32,
}

/// A zero-width marker binding a label name to the byte offset of the next
/// emitted instruction.
#[derive(Clone, PartialEq, Eq, Debug)]
pub struct LabelInstr {
    pub name: String,
}

/// An unconditional jump to a symbolic label, resolved at encode time.
#[derive(Clone, PartialEq, Eq, Debug)]
pub struct GotoInstr {
    pub op_type: Opcodes,
    pub target: LabelInstr,
}

/// A three-register operation: `[opcode, target, src1, src2]` on the wire.
#[derive(Clone, PartialEq, Eq, Debug)]
pub struct OpInstr {
    pub op_type: Opcodes,
    pub target: u8,
    pub src1: u8,
    pub src2: u8,
}

/// One instruction descriptor: the in-memory representation of one parsed
/// source construct, prior to binary encoding.
#[derive(Clone, PartialEq, Eq, Debug)]
pub enum Instruction {
    Jmp(JmpInstr),
    Goto(GotoInstr),
    Op(OpInstr),
    Label(LabelInstr),
}

/// The mathematical model of one descriptor: label names are character
/// sequences, everything else is a plain value.
pub enum InstrV {
    Jmp { op: Opcodes, target: u32 },
    Goto { op: Opcodes, name: Seq<char> },
    Op { op: Opcodes, dest: u8, src1: u8, src2: u8 },
    Label { name: Seq<char> },
}

impl View for Instruction {
    type V = InstrV;

    open spec fn view(&self) -> InstrV {
        match self {
            Instruction::Jmp(j) => InstrV::Jmp { op: j.op_type, target: j.target },
            Instruction::Goto(g) => InstrV::Goto { op: g.op_type, name: g.target.name@ },
            Instruction::Op(o) => InstrV::Op {
                op: o.op_type,
                dest: o.target,
                src1: o.src1,
                src2: o.src2,
            },
            Instruction::Label(l) => InstrV::Label { name: l.name@ },
        }
    }
}

/// The kinds of recoverable diagnostics: the offending line is skipped and
/// assembly continues.
#[derive(Clone, Copy, PartialEq, Eq, Structural, Debug)]
pub enum WarningKind {
    UnknownDirective,
    UnknownInstruction,
}

/// One recoverable diagnostic, with the 1-based source line it arose on.
#[derive(Clone, Copy, PartialEq, Eq, Structural, Debug)]
pub struct Warning {
    pub line: usize,
    pub kind: WarningKind,
}

/// A fatal assembly error: no byte stream is produced.
#[derive(Clone, PartialEq, Eq, Debug)]
pub enum AsmError {
    /// A recognized directive or instruction lacks its required operand
    /// (1-based source line).
    MissingOperand { line: usize },
    /// A hex-address token failed to parse as a 32-bit base-16 number
    /// (1-based source line).
    MalformedNumber { line: usize },
    /// A `goto` references a label that no `.label` declares.
    UnresolvedLabel { name: String },
    /// A `goto` references a label that more than one `.label` declares.
    DuplicateLabel { name: String },
}

/// The mathematical model of a fatal error.
pub enum ErrV {
    MissingOperand { line: usize },
    MalformedNumber { line: usize },
    UnresolvedLabel { name: Seq<char> },
    DuplicateLabel { name: Seq<char> },
}

impl View for AsmError {
    type V = ErrV;

    open spec fn view(&self) -> ErrV {
        match self {
            AsmError::MissingOperand { line } => ErrV::MissingOperand { line: *line },
            AsmError::MalformedNumber { line } => ErrV::MalformedNumber { line: *line },
            AsmError::UnresolvedLabel { name } => ErrV::UnresolvedLabel { name: name@ },
            AsmError::DuplicateLabel { name } => ErrV::DuplicateLabel { name: name@ },
        }
    }
}

/// The assembler: accumulates a program (start address plus descriptor
/// sequence) across `assemble` calls, together with recoverable diagnostics.
#[derive(Clone, PartialEq, Eq, Debug)]
pub struct Assembler {
    /// Intended execution start address, set by `.start` (default 0).
    /// Metadata only: it is not embedded in the emitted stream.
    pub startaddr: u32,
    /// The ordered descriptor sequence, append-only during parsing.
    pub instructions: Vec<Instruction>,
    /// Recoverable diagnostics accumulated during parsing.
    pub warnings: Vec<Warning>,
}

/// The model of a descriptor vector: each element replaced by its view.
pub open spec fn descs_view(v: Seq<Instruction>) -> Seq<InstrV> {
    Seq::new(v.len(), |i: int| v[i]@)
}

/// The mathematical model of the assembler state.
#[verifier::ext_equal]
pub struct AsmV {
    pub startaddr: u32,
    pub instructions: Seq<InstrV>,
    pub warnings: Seq<Warning>,
}

impl View for Assembler {
    type V = AsmV;

    open spec fn view(&self) -> AsmV {
        AsmV {
            startaddr: self.startaddr,
            instructions: descs_view(self.instructions@),
            warnings: self.warnings@,
        }
    }
}

impl Assembler {
    /// A fresh assembler: start address 0, no descriptors, no warnings.
    pub fn new() -> (r: Self)
        ensures
            r@.startaddr == 0,
            r@.instructions =~= Seq::<InstrV>::empty(),
            r@.warnings =~= Seq::<Warning>::empty(),
    {
        Self { startaddr: 0, instructions: Vec::new(), warnings: Vec::new() }
    }
}

} // verus!
