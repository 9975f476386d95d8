//! The parser: classifies each source line (comment, directive, label
//! declaration, instruction) and accumulates instruction descriptors.
//!
//! The meaning of one line is the spec function `line_action`; the meaning of
//! a whole source text is the fold `parse_result`. `Assembler::assemble` is
//! proved to realize that fold exactly, leaving the assembler untouched when
//! a fatal error is reported.

use crate::program::{
    Assembler,
    AsmError,
    AsmV,
    ErrV,
    GotoInstr,
    Instruction,
    InstrV,
    JmpInstr,
    LabelInstr,
    Opcodes,
    Warning,
    WarningKind,
    descs_view,
};
use crate::text::{
    after_token,
    head_before_space,
    hex_ok,
    hex_u32,
    lines_of,
    parse_hex,
    split_first_space,
    split_lines,
    split_token,
    str_eq,
    tail_after_space,
    token,
    trim,
    trim_exec,
};
use vstd::prelude::*;
use vstd::string::StrSliceExecFns;

verus! {

/// The two fatal parse-time failures: a recognized construct whose required
/// operand is absent, or whose address token is not well-formed hex.
pub enum FatalKind {
    MissingOperand,
    MalformedNumber,
}

/// What one source line contributes to the assembly.
pub enum LineAction {
    /// Empty line or comment: nothing.
    Nothing,
    /// `.start <addr>`: the start address is replaced.
    SetStart(u32),
    /// `.label`, `goto` or `jmp`: one descriptor is appended.
    Push(InstrV),
    /// Unknown directive or mnemonic: a warning is recorded, the line is
    /// skipped.
    Warn(WarningKind),
    /// A fatal error: assembly stops.
    Fail(FatalKind),
}

/// The fatal error value for a failure of kind `k` on 1-based line `line`.
pub open spec fn fatal_err(k: FatalKind, line: usize) -> ErrV {
    match k {
        FatalKind::MissingOperand => ErrV::MissingOperand { line },
        FatalKind::MalformedNumber => ErrV::MalformedNumber { line },
    }
}

/// Meaning of a directive line (already trimmed, starting with `.`): the
/// first whitespace-delimited token selects the directive, the second is its
/// operand. Unknown directives degrade to a warning.
pub open spec fn directive_action(t: Seq<char>) -> LineAction {
    let d = token(t);
    let rest = after_token(t);
    if d == ".start"@ {
        if rest.len() == 0 {
            LineAction::Fail(FatalKind::MissingOperand)
        } else if hex_ok(token(rest)) {
            LineAction::SetStart(hex_u32(token(rest)))
        } else {
            LineAction::Fail(FatalKind::MalformedNumber)
        }
    } else if d == ".label"@ {
        if rest.len() == 0 {
            LineAction::Fail(FatalKind::MissingOperand)
        } else {
            LineAction::Push(InstrV::Label { name: token(rest) })
        }
    } else {
        LineAction::Warn(WarningKind::UnknownDirective)
    }
}

/// Meaning of an instruction line (already trimmed): the mnemonic is the
/// part before the first space; `goto` takes the remainder verbatim as the
/// label name, `jmp` parses the remainder as a hex address. Unknown
/// mnemonics degrade to a warning.
pub open spec fn code_action(t: Seq<char>) -> LineAction {
    let m = head_before_space(t);
    if m == "goto"@ {
        match tail_after_space(t) {
            Some(rest) => LineAction::Push(InstrV::Goto { op: Opcodes::Jmp, name: rest }),
            Option::None => LineAction::Fail(FatalKind::MissingOperand),
        }
    } else if m == "jmp"@ {
        match tail_after_space(t) {
            Some(rest) => if hex_ok(rest) {
                LineAction::Push(InstrV::Jmp { op: Opcodes::Jmp, target: hex_u32(rest) })
            } else {
                LineAction::Fail(FatalKind::MalformedNumber)
            },
            Option::None => LineAction::Fail(FatalKind::MissingOperand),
        }
    } else {
        LineAction::Warn(WarningKind::UnknownInstruction)
    }
}

/// Meaning of one source line: after trimming leading whitespace, an empty
/// line or a `#` comment contributes nothing, a `.` line is a directive,
/// anything else is an instruction.
pub open spec fn line_action(l: Seq<char>) -> LineAction {
    let t = trim(l);
    if t.len() == 0 {
        LineAction::Nothing
    } else if t[0] == '#' {
        LineAction::Nothing
    } else if t[0] == '.' {
        directive_action(t)
    } else {
        code_action(t)
    }
}

/// The parse fold: lines are consumed in order, each applying its action to
/// the assembler state; the first fatal action stops the fold with its error.
pub open spec fn parse_lines(st: AsmV, ls: Seq<Seq<char>>, lineno: int) -> Result<AsmV, ErrV>
    decreases ls.len(),
{
    if ls.len() == 0 {
        Result::Ok(st)
    } else {
        let rest = ls.drop_first();
        match line_action(ls[0]) {
            LineAction::Nothing => parse_lines(st, rest, lineno + 1),
            LineAction::SetStart(a) => parse_lines(
                AsmV { startaddr: a, instructions: st.instructions, warnings: st.warnings },
                rest,
                lineno + 1,
            ),
            LineAction::Push(d) => parse_lines(
                AsmV {
                    startaddr: st.startaddr,
                    instructions: st.instructions.push(d),
                    warnings: st.warnings,
                },
                rest,
                lineno + 1,
            ),
            LineAction::Warn(k) => parse_lines(
                AsmV {
                    startaddr: st.startaddr,
                    instructions: st.instructions,
                    warnings: st.warnings.push(Warning { line: lineno as usize, kind: k }),
                },
                rest,
                lineno + 1,
            ),
            LineAction::Fail(k) => Result::Err(fatal_err(k, lineno as usize)),
        }
    }
}

/// Meaning of assembling a whole source text from state `st`: fold the
/// line actions over the source's lines, numbering them from 1.
pub open spec fn parse_result(st: AsmV, code: Seq<char>) -> Result<AsmV, ErrV> {
    parse_lines(st, lines_of(code), 1)
}

impl Assembler {
    /// Applies one source line to the assembler.
    fn do_line(&mut self, line: &str, lineno: usize) -> (r: Result<(), AsmError>)
        ensures
            match line_action(line@) {
                LineAction::Nothing => r is Ok && final(self)@ == old(self)@,
                LineAction::SetStart(a) => r is Ok && final(self)@.startaddr == a
                    && final(self)@.instructions == old(self)@.instructions
                    && final(self)@.warnings == old(self)@.warnings,
                LineAction::Push(d) => r is Ok && final(self)@.startaddr == old(self)@.startaddr
                    && final(self)@.instructions == old(self)@.instructions.push(d)
                    && final(self)@.warnings == old(self)@.warnings,
                LineAction::Warn(k) => r is Ok && final(self)@.startaddr == old(self)@.startaddr
                    && final(self)@.instructions == old(self)@.instructions
                    && final(self)@.warnings == old(self)@.warnings.push(
                    (Warning { line: lineno, kind: k }),
                ),
                LineAction::Fail(k) => (r matches Err(e) && e@ == fatal_err(k, lineno))
                    && final(self)@ == old(self)@,
            },
    {
        let t = trim_exec(line);
        if t.unicode_len() == 0 {
            return Result::Ok(());
        }
        let c0 = t.get_char(0);
        if c0 == '#' {
            return Result::Ok(());
        }
        if c0 == '.' {
            let (d, rest) = split_token(t);
            if str_eq(d, ".start") {
                if rest.unicode_len() == 0 {
                    return Result::Err(AsmError::MissingOperand { line: lineno });
                }
                let (addr_tok, _ignored) = split_token(rest);
                match parse_hex(addr_tok) {
                    Some(v) => {
                        self.startaddr = v;
                        Result::Ok(())
                    },
                    Option::None => Result::Err(AsmError::MalformedNumber { line: lineno }),
                }
            } else if str_eq(d, ".label") {
                if rest.unicode_len() == 0 {
                    return Result::Err(AsmError::MissingOperand { line: lineno });
                }
                let (name_tok, _ignored) = split_token(rest);
                let instr = Instruction::Label(LabelInstr { name: name_tok.to_owned() });
                self.instructions.push(instr);
                proof {
                    assert(descs_view(self.instructions@) =~= descs_view(
                        old(self).instructions@,
                    ).push((InstrV::Label { name: token(after_token(t@)) })));
                }
                Result::Ok(())
            } else {
                self.warnings.push(Warning { line: lineno, kind: WarningKind::UnknownDirective });
                Result::Ok(())
            }
        } else {
            let (m, tail) = split_first_space(t);
            if str_eq(m, "goto") {
                match tail {
                    Some(rest) => {
                        let instr = Instruction::Goto(
                            GotoInstr {
                                op_type: Opcodes::Jmp,
                                target: LabelInstr { name: rest.to_owned() },
                            },
                        );
                        self.instructions.push(instr);
                        proof {
                            assert(descs_view(self.instructions@) =~= descs_view(
                                old(self).instructions@,
                            ).push(
                                (InstrV::Goto {
                                    op: Opcodes::Jmp,
                                    name: tail_after_space(t@)->Some_0,
                                }),
                            ));
                        }
                        Result::Ok(())
                    },
                    Option::None => Result::Err(AsmError::MissingOperand { line: lineno }),
                }
            } else if str_eq(m, "jmp") {
                match tail {
                    Some(rest) => {
                        match parse_hex(rest) {
                            Some(v) => {
                                let instr = Instruction::Jmp(
                                    JmpInstr { op_type: Opcodes::Jmp, target: v },
                                );
                                self.instructions.push(instr);
                                proof {
                                    assert(descs_view(self.instructions@) =~= descs_view(
                                        old(self).instructions@,
                                    ).push(
                                        (InstrV::Jmp {
                                            op: Opcodes::Jmp,
                                            target: hex_u32(tail_after_space(t@)->Some_0),
                                        }),
                                    ));
                                }
                                Result::Ok(())
                            },
                            Option::None => Result::Err(AsmError::MalformedNumber { line: lineno }),
                        }
                    },
                    Option::None => Result::Err(AsmError::MissingOperand { line: lineno }),
                }
            } else {
                self.warnings.push(Warning { line: lineno, kind: WarningKind::UnknownInstruction });
                Result::Ok(())
            }
        }
    }

    /// Assembles a source text, appending its descriptors (and warnings) to
    /// this assembler.
    ///
    /// On success the assembler is exactly the state the parse fold
    /// prescribes; on a fatal error the assembler is left as it was and the
    /// error says which line failed and why.
    pub fn assemble(&mut self, code: String) -> (r: Result<(), AsmError>)
        ensures
            match r {
                Result::Ok(_) => parse_result(old(self)@, code@) == Result::<AsmV, ErrV>::Ok(
                    final(self)@,
                ),
                Result::Err(e) => parse_result(old(self)@, code@) == Result::<AsmV, ErrV>::Err(e@)
                    && final(self)@ == old(self)@,
            },
    {
        let lines = split_lines(code.as_str());
        let ghost ld = lines.deep_view();
        let orig_start = self.startaddr;
        let orig_instrs = self.instructions.len();
        let orig_warns = self.warnings.len();
        let n = lines.len();
        let mut i: usize = 0;
        proof {
            assert(ld.skip(0) =~= ld);
        }
        while i < n
            invariant
                n == lines.len(),
                0 <= i <= n,
                ld == lines.deep_view(),
                ld == lines_of(code@),
                parse_result(old(self)@, code@) == parse_lines(self@, ld.skip(i as int), i + 1),
                orig_instrs == old(self)@.instructions.len(),
                orig_warns == old(self)@.warnings.len(),
                orig_start == old(self)@.startaddr,
                self@.instructions.len() >= orig_instrs,
                self@.instructions.take(orig_instrs as int) == old(self)@.instructions,
                self@.warnings.len() >= orig_warns,
                self@.warnings.take(orig_warns as int) == old(self)@.warnings,
            decreases n - i,
        {
            let ghost pre = self@;
            let line = &lines[i];
            proof {
                assert(line@ == ld.skip(i as int)[0]);
                assert(ld.skip(i as int).drop_first() =~= ld.skip(i + 1));
            }
            match self.do_line(line.as_str(), i + 1) {
                Result::Ok(_) => {
                    proof {
                        assert(self@.instructions.take(orig_instrs as int) =~= pre.instructions.take(
                            orig_instrs as int,
                        ));
                        assert(self@.warnings.take(orig_warns as int) =~= pre.warnings.take(
                            orig_warns as int,
                        ));
                        assert(parse_lines(pre, ld.skip(i as int), i + 1) == parse_lines(
                            self@,
                            ld.skip(i + 1),
                            i + 2,
                        ));
                    }
                },
                Result::Err(e) => {
                    proof {
                        assert(parse_lines(pre, ld.skip(i as int), i + 1) == Result::<
                            AsmV,
                            ErrV,
                        >::Err(e@));
                    }
                    self.startaddr = orig_start;
                    self.instructions.truncate(orig_instrs);
                    self.warnings.truncate(orig_warns);
                    proof {
                        assert(descs_view(self.instructions@) =~= pre.instructions.take(
                            orig_instrs as int,
                        ));
                        assert(self@ =~= old(self)@);
                    }
                    return Result::Err(e);
                },
            }
            i += 1;
        }
        proof {
            assert(ld.skip(n as int) =~= Seq::<Seq<char>>::empty());
        }
        Result::Ok(())
    }
}

} // verus!
