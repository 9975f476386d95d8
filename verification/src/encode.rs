//! The encoder/resolver: computes the byte offset of every label, serializes
//! each descriptor into its fixed-width encoding, and patches every
//! label-relative jump with its resolved address.
//!
//! The meaning of encoding is given by `encode_bytes` (the concatenation of
//! the per-descriptor chunks) and `encode_error` (the first `goto` whose
//! label is not declared exactly once). `Assembler::emit` is proved to
//! realize exactly that, via the same two-pass structure the meaning is
//! stated in: provisional chunks with placeholders, then a fixup pass.
//!
//! Resolution is strict: the fixup table is filled in the same pass that
//! emits the placeholders, so a placeholder without a pending entry cannot
//! arise, and a `goto` whose label is declared twice is rejected rather than
//! silently resolved to one of the markers.

use crate::program::{Assembler, AsmError, ErrV, Instruction, InstrV, Opcodes};
use crate::text::str_eq;
use vstd::prelude::*;

verus! {

/// The wire size of one descriptor: 4 bytes for a register operation,
/// 5 for either jump form, 0 for a label marker.
pub open spec fn chunk_len(d: InstrV) -> nat {
    match d {
        InstrV::Op { .. } => 4,
        InstrV::Jmp { .. } => 5,
        InstrV::Goto { .. } => 5,
        InstrV::Label { .. } => 0,
    }
}

/// Total wire size of the descriptors at indices `0 .. i`: the byte offset
/// at which descriptor `i` is emitted.
pub open spec fn prefix_len(s: Seq<InstrV>, i: int) -> nat
    decreases i,
{
    if i <= 0 {
        0
    } else {
        prefix_len(s, i - 1) + chunk_len(s[i - 1])
    }
}

/// Total wire size of a whole descriptor sequence.
pub open spec fn total_len(s: Seq<InstrV>) -> nat {
    prefix_len(s, s.len() as int)
}

/// Prefix sizes only grow along the sequence.
pub proof fn lemma_prefix_len_mono(s: Seq<InstrV>, i: int, j: int)
    requires
        i <= j,
    ensures
        prefix_len(s, i) <= prefix_len(s, j),
    decreases j - i,
{
    if i < j {
        lemma_prefix_len_mono(s, i, j - 1);
    }
}

/// A 32-bit value as its four little-endian bytes.
pub open spec fn le32(v: u32) -> Seq<u8> {
    seq![
        (v % 256) as u8,
        ((v / 256) % 256) as u8,
        ((v / 65536) % 256) as u8,
        ((v / 16777216) % 256) as u8,
    ]
}

/// The label table of the first `n` descriptors: one `(name, offset)` entry
/// per marker, in order of declaration; a marker's offset is the total size
/// of everything emitted strictly before it.
pub open spec fn marker_table_upto(s: Seq<InstrV>, n: int) -> Seq<(Seq<char>, nat)>
    decreases n,
{
    if n <= 0 {
        Seq::empty()
    } else {
        let pre = marker_table_upto(s, n - 1);
        match s[n - 1] {
            InstrV::Label { name } => pre.push((name, prefix_len(s, n - 1))),
            _ => pre,
        }
    }
}

/// The label table of a whole descriptor sequence.
pub open spec fn marker_table(s: Seq<InstrV>) -> Seq<(Seq<char>, nat)> {
    marker_table_upto(s, s.len() as int)
}

/// How many entries of a label table carry `name`.
pub open spec fn table_count(t: Seq<(Seq<char>, nat)>, name: Seq<char>) -> nat
    decreases t.len(),
{
    if t.len() == 0 {
        0
    } else {
        table_count(t.drop_last(), name) + if t.last().0 == name {
            1nat
        } else {
            0nat
        }
    }
}

/// The offset of the first entry of a label table carrying `name`
/// (0 if there is none).
pub open spec fn table_offset(t: Seq<(Seq<char>, nat)>, name: Seq<char>) -> nat
    decreases t.len(),
{
    if t.len() == 0 {
        0
    } else if table_count(t.drop_last(), name) > 0 {
        table_offset(t.drop_last(), name)
    } else if t.last().0 == name {
        t.last().1
    } else {
        0
    }
}

/// How many `.label` markers of the program declare `name`.
pub open spec fn marker_count(s: Seq<InstrV>, name: Seq<char>) -> nat {
    table_count(marker_table(s), name)
}

/// The byte offset `name` resolves to: that of its first marker.
pub open spec fn label_offset(s: Seq<InstrV>, name: Seq<char>) -> nat {
    table_offset(marker_table(s), name)
}

/// The pending-fixup table of the first `n` descriptors: one
/// `(descriptor index, label name)` entry per `goto`, in order.
pub open spec fn fixup_table_upto(s: Seq<InstrV>, n: int) -> Seq<(int, Seq<char>)>
    decreases n,
{
    if n <= 0 {
        Seq::empty()
    } else {
        let pre = fixup_table_upto(s, n - 1);
        match s[n - 1] {
            InstrV::Goto { op: _, name } => pre.push((n - 1, name)),
            _ => pre,
        }
    }
}

/// The pending-fixup table of a whole descriptor sequence.
pub open spec fn fixup_table(s: Seq<InstrV>) -> Seq<(int, Seq<char>)> {
    fixup_table_upto(s, s.len() as int)
}

/// Every fixup entry points at a `goto` with its name, and the entries are
/// listed in strictly increasing index order.
pub proof fn lemma_fixup_props(s: Seq<InstrV>, n: int)
    requires
        n <= s.len(),
    ensures
        forall|l: int|
            0 <= l < fixup_table_upto(s, n).len() ==> {
                let e = #[trigger] fixup_table_upto(s, n)[l];
                0 <= e.0 < n && (s[e.0] matches InstrV::Goto { op: _, name: n2 } && n2 == e.1)
            },
        forall|l1: int, l2: int|
            #![trigger fixup_table_upto(s, n)[l1], fixup_table_upto(s, n)[l2]]
            0 <= l1 < l2 < fixup_table_upto(s, n).len() ==> fixup_table_upto(s, n)[l1].0
                < fixup_table_upto(s, n)[l2].0,
    decreases n,
{
    if n > 0 {
        lemma_fixup_props(s, n - 1);
    }
}

/// Every `goto` among the first `n` descriptors has a fixup entry.
pub proof fn lemma_fixup_complete(s: Seq<InstrV>, n: int, k: int)
    requires
        0 <= k < n <= s.len(),
        s[k] is Goto,
    ensures
        exists|l: int|
            0 <= l < fixup_table_upto(s, n).len() && #[trigger] fixup_table_upto(s, n)[l].0 == k,
    decreases n,
{
    if k == n - 1 {
        assert(fixup_table_upto(s, n)[fixup_table_upto(s, n).len() - 1].0 == k);
    } else {
        lemma_fixup_complete(s, n - 1, k);
        let l = choose|l: int|
            0 <= l < fixup_table_upto(s, n - 1).len() && #[trigger] fixup_table_upto(s, n - 1)[l].0
                == k;
        assert(fixup_table_upto(s, n)[l].0 == k);
    }
}

/// A marker among the first `n` descriptors puts at least one entry with
/// its name into the label table.
pub proof fn lemma_marker_in_table(s: Seq<InstrV>, n: int, j: int, name: Seq<char>)
    requires
        0 <= j < n <= s.len(),
        s[j] == (InstrV::Label { name }),
    ensures
        table_count(marker_table_upto(s, n), name) >= 1,
    decreases n,
{
    let pre = marker_table_upto(s, n - 1);
    match s[n - 1] {
        InstrV::Label { name: nm } => {
            let e = (nm, prefix_len(s, n - 1));
            assert(marker_table_upto(s, n) == pre.push(e));
            assert(pre.push(e).drop_last() =~= pre);
            assert(pre.push(e).last() == e);
        },
        _ => {
            assert(marker_table_upto(s, n) == pre);
        },
    }
    if j < n - 1 {
        lemma_marker_in_table(s, n - 1, j, name);
    }
}

/// If `name` is declared by exactly one marker, the offset it resolves to
/// is that marker's offset: the total size of everything before it.
pub proof fn lemma_unique_marker_offset(s: Seq<InstrV>, n: int, j: int, name: Seq<char>)
    requires
        0 <= j < n <= s.len(),
        s[j] == (InstrV::Label { name }),
        table_count(marker_table_upto(s, n), name) == 1,
    ensures
        table_offset(marker_table_upto(s, n), name) == prefix_len(s, j),
    decreases n,
{
    let pre = marker_table_upto(s, n - 1);
    match s[n - 1] {
        InstrV::Label { name: nm } => {
            let e = (nm, prefix_len(s, n - 1));
            assert(marker_table_upto(s, n) == pre.push(e));
            assert(pre.push(e).drop_last() =~= pre);
            assert(pre.push(e).last() == e);
            if j == n - 1 {
                // The unique marker is the last descriptor: no earlier entry
                // carries the name, so its own offset is returned.
            } else {
                lemma_marker_in_table(s, n - 1, j, name);
                if nm == name {
                    assert(false);
                } else {
                    lemma_unique_marker_offset(s, n - 1, j, name);
                }
            }
        },
        _ => {
            assert(marker_table_upto(s, n) == pre);
            lemma_unique_marker_offset(s, n - 1, j, name);
        },
    }
}

/// The first pending fixup whose label is not declared exactly once, as the
/// error the encoder reports; `None` when every fixup resolves.
pub open spec fn first_fixup_error(s: Seq<InstrV>, ft: Seq<(int, Seq<char>)>) -> Option<ErrV>
    decreases ft.len(),
{
    if ft.len() == 0 {
        Option::None
    } else {
        let name = ft[0].1;
        let c = marker_count(s, name);
        if c == 0 {
            Some(ErrV::UnresolvedLabel { name })
        } else if c >= 2 {
            Some(ErrV::DuplicateLabel { name })
        } else {
            first_fixup_error(s, ft.drop_first())
        }
    }
}

/// The encoder's verdict on a descriptor sequence: `None` when it encodes,
/// otherwise the error for the first offending `goto`.
pub open spec fn encode_error(s: Seq<InstrV>) -> Option<ErrV> {
    first_fixup_error(s, fixup_table(s))
}

/// A descriptor sequence encodes exactly when every label referenced by a
/// `goto` is declared by exactly one marker.
pub open spec fn encode_ok(s: Seq<InstrV>) -> bool {
    encode_error(s) is None
}

/// `encode_ok` unwound: encoding succeeds if and only if every pending
/// fixup's label is declared exactly once.
pub proof fn lemma_encode_ok_iff(s: Seq<InstrV>, ft: Seq<(int, Seq<char>)>)
    ensures
        first_fixup_error(s, ft) is None <==> forall|l: int|
            0 <= l < ft.len() ==> marker_count(s, #[trigger] ft[l].1) == 1,
    decreases ft.len(),
{
    if ft.len() > 0 {
        lemma_encode_ok_iff(s, ft.drop_first());
        let c = marker_count(s, ft[0].1);
        if c == 1 {
            assert(forall|l: int| 1 <= l < ft.len() ==> ft.drop_first()[l - 1] == ft[l]);
        }
    }
}

/// The final encoding of descriptor `i`: a `goto` carries the resolved
/// offset of its label, every other descriptor its own operands.
pub open spec fn chunk_bytes(s: Seq<InstrV>, i: int) -> Seq<u8> {
    match s[i] {
        InstrV::Op { op, dest, src1, src2 } => seq![op.spec_byte(), dest, src1, src2],
        InstrV::Jmp { op, target } => seq![op.spec_byte()] + le32(target),
        InstrV::Goto { op, name } => seq![op.spec_byte()] + le32(label_offset(s, name) as u32),
        InstrV::Label { .. } => Seq::empty(),
    }
}

/// The provisional encoding of descriptor `i` after the first pass: a `goto`
/// still carries the `0xFFFFFFFF` placeholder.
pub open spec fn provisional_chunk(d: InstrV) -> Seq<u8> {
    match d {
        InstrV::Op { op, dest, src1, src2 } => seq![op.spec_byte(), dest, src1, src2],
        InstrV::Jmp { op, target } => seq![op.spec_byte()] + le32(target),
        InstrV::Goto { op, name } => seq![op.spec_byte(), 255u8, 255u8, 255u8, 255u8],
        InstrV::Label { .. } => Seq::empty(),
    }
}

/// All final chunks, in descriptor order.
pub open spec fn chunks(s: Seq<InstrV>) -> Seq<Seq<u8>> {
    Seq::new(s.len(), |i: int| chunk_bytes(s, i))
}

/// Ordered concatenation of byte chunks.
pub open spec fn flat(cs: Seq<Seq<u8>>) -> Seq<u8>
    decreases cs.len(),
{
    if cs.len() == 0 {
        Seq::empty()
    } else {
        flat(cs.drop_last()) + cs.last()
    }
}

/// The binary instruction stream of a descriptor sequence (meaningful when
/// `encode_ok` holds).
pub open spec fn encode_bytes(s: Seq<InstrV>) -> Seq<u8> {
    flat(chunks(s))
}

/// The stream built from the first `n` chunks is exactly `prefix_len(s, n)`
/// bytes long: offsets computed by the resolver are positions in the stream.
pub proof fn lemma_encode_len(s: Seq<InstrV>, n: int)
    requires
        0 <= n <= s.len(),
    ensures
        flat(chunks(s).take(n)).len() == prefix_len(s, n),
    decreases n,
{
    if n > 0 {
        lemma_encode_len(s, n - 1);
        assert(chunks(s).take(n).drop_last() =~= chunks(s).take(n - 1));
        assert(chunks(s).take(n).last() == chunk_bytes(s, n - 1));
    }
}

/// Unresolved-label failure: a program with a `goto` whose label no marker
/// declares does not encode — `emit` then returns its error and no bytes.
pub proof fn lemma_unresolved_label_fails(s: Seq<InstrV>, i: int, name: Seq<char>)
    requires
        0 <= i < s.len(),
        s[i] matches InstrV::Goto { op: _, name: gn } && gn == name,
        marker_count(s, name) == 0,
    ensures
        !encode_ok(s),
{
    lemma_fixup_complete(s, s.len() as int, i);
    lemma_fixup_props(s, s.len() as int);
    lemma_encode_ok_iff(s, fixup_table(s));
}

/// Round-trip of a label reference: when `name` is declared by exactly one
/// marker, standing at descriptor index `j`, every `goto name` — whether it
/// appears before or after the marker — encodes to the opcode byte followed
/// by the little-endian byte offset of the marker, which is the total wire
/// size of everything emitted strictly before it.
pub proof fn lemma_goto_round_trip(s: Seq<InstrV>, i: int, j: int, name: Seq<char>)
    requires
        0 <= i < s.len(),
        0 <= j < s.len(),
        s[i] matches InstrV::Goto { op: _, name: gn } && gn == name,
        s[j] == (InstrV::Label { name }),
        marker_count(s, name) == 1,
    ensures
        chunks(s)[i] == seq![Opcodes::Jmp.spec_byte()] + le32(prefix_len(s, j) as u32),
{
    lemma_unique_marker_offset(s, s.len() as int, j, name);
    match s[i] {
        InstrV::Goto { op, name: _ } => {
            match op {
                Opcodes::Jmp => {},
            }
        },
        _ => {},
    }
}

/// Encoding is a pure function of the program value: equal descriptor
/// sequences yield byte-identical streams and identical verdicts, so
/// re-encoding the same program reproduces the same output.
pub proof fn lemma_encode_deterministic(a: Seq<InstrV>, b: Seq<InstrV>)
    requires
        a == b,
    ensures
        encode_bytes(a) == encode_bytes(b),
        encode_error(a) == encode_error(b),
{
}

/// Zero-width markers, offsets of earlier descriptors: inserting a marker at
/// position `k` leaves the byte offset of every descriptor before `k`
/// unchanged.
pub proof fn lemma_marker_zero_width_before(s: Seq<InstrV>, k: int, name: Seq<char>, i: int)
    requires
        0 <= i <= k <= s.len(),
    ensures
        prefix_len(s.insert(k, (InstrV::Label { name })), i) == prefix_len(s, i),
    decreases i,
{
    s.insert_ensures(k, (InstrV::Label { name }));
    if i > 0 {
        lemma_marker_zero_width_before(s, k, name, i - 1);
    }
}

/// Zero-width markers: inserting a `.label` marker at position `k`
/// contributes no bytes, so the byte offset of every other descriptor is
/// unchanged — descriptors at or after `k` shift one index up but keep
/// their offsets.
pub proof fn lemma_marker_zero_width(s: Seq<InstrV>, k: int, name: Seq<char>, i: int)
    requires
        0 <= k <= s.len(),
        k <= i <= s.len(),
    ensures
        prefix_len(s.insert(k, (InstrV::Label { name })), i + 1) == prefix_len(s, i),
    decreases i - k,
{
    s.insert_ensures(k, (InstrV::Label { name }));
    let t = s.insert(k, (InstrV::Label { name }));
    if i == k {
        lemma_marker_zero_width_before(s, k, name, k);
        assert(chunk_len(t[k]) == 0);
    } else {
        lemma_marker_zero_width(s, k, name, i - 1);
        assert(t[i] == s[i - 1]);
    }
}

/// A `Vec` of the four bytes `[a, b, c, d]`.
fn chunk4(a: u8, b: u8, c: u8, d: u8) -> (r: Vec<u8>)
    ensures
        r@ == seq![a, b, c, d],
{
    let mut v: Vec<u8> = Vec::new();
    v.push(a);
    v.push(b);
    v.push(c);
    v.push(d);
    proof {
        assert(v@ =~= seq![a, b, c, d]);
    }
    v
}

/// A `Vec` of an opcode byte followed by a 32-bit address, little-endian.
fn chunk5(a: u8, addr: u32) -> (r: Vec<u8>)
    ensures
        r@ == seq![a] + le32(addr),
{
    let mut v: Vec<u8> = Vec::new();
    v.push(a);
    v.push((addr % 256) as u8);
    v.push(((addr / 256) % 256) as u8);
    v.push(((addr / 65536) % 256) as u8);
    v.push(((addr / 16777216) % 256) as u8);
    proof {
        assert(v@ =~= seq![a] + le32(addr));
    }
    v
}

/// A placeholder chunk: an opcode byte followed by `0xFFFFFFFF`.
fn chunk_placeholder(a: u8) -> (r: Vec<u8>)
    ensures
        r@ == seq![a, 255u8, 255u8, 255u8, 255u8],
{
    let mut v: Vec<u8> = Vec::new();
    v.push(a);
    v.push(255);
    v.push(255);
    v.push(255);
    v.push(255);
    proof {
        assert(v@ =~= seq![a, 255u8, 255u8, 255u8, 255u8]);
    }
    v
}

/// The model of a chunk vector: each chunk replaced by its byte sequence.
pub open spec fn bytes_view(cs: Seq<Vec<u8>>) -> Seq<Seq<u8>> {
    Seq::new(cs.len(), |k: int| cs[k]@)
}

/// Counts the label-table entries for `name` and reports the offset of the
/// first one.
fn lookup_label(
    labels: &Vec<(String, u32)>,
    name: &str,
    Ghost(mt): Ghost<Seq<(Seq<char>, nat)>>,
) -> (r: (usize, u32))
    requires
        labels@.len() == mt.len(),
        forall|k: int|
            0 <= k < mt.len() ==> (#[trigger] labels@[k]).0@ == mt[k].0 && labels@[k].1 as nat
                == mt[k].1,
    ensures
        r.0 as nat == table_count(mt, name@),
        r.0 > 0 ==> r.1 as nat == table_offset(mt, name@),
{
    let mut cnt: usize = 0;
    let mut off: u32 = 0;
    let mut k: usize = 0;
    proof {
        assert(mt.take(0) =~= Seq::<(Seq<char>, nat)>::empty());
    }
    while k < labels.len()
        invariant
            labels@.len() == mt.len(),
            forall|m: int|
                0 <= m < mt.len() ==> (#[trigger] labels@[m]).0@ == mt[m].0 && labels@[m].1 as nat
                    == mt[m].1,
            0 <= k <= labels@.len(),
            cnt <= k,
            cnt as nat == table_count(mt.take(k as int), name@),
            cnt > 0 ==> off as nat == table_offset(mt.take(k as int), name@),
        decreases labels@.len() - k,
    {
        proof {
            assert(mt.take(k + 1).drop_last() =~= mt.take(k as int));
            assert(mt.take(k + 1).last() == mt[k as int]);
        }
        let entry_name: &String = &labels[k].0;
        if str_eq(entry_name.as_str(), name) {
            if cnt == 0 {
                off = labels[k].1;
            }
            cnt = cnt + 1;
        }
        k = k + 1;
    }
    proof {
        assert(mt.take(mt.len() as int) =~= mt);
    }
    (cnt, off)
}

impl Assembler {
    /// Encodes the accumulated program into its binary instruction stream.
    ///
    /// Succeeds exactly when every label referenced by a `goto` is declared
    /// by exactly one `.label` marker; the stream is then the concatenation
    /// of the per-descriptor encodings, with every `goto` resolved to its
    /// label's byte offset. Otherwise the error names the first offending
    /// `goto`'s label and no bytes are produced. The start address is
    /// metadata and is not part of the stream.
    pub fn emit(self) -> (r: Result<Vec<u8>, AsmError>)
        requires
            total_len(self@.instructions) <= u32::MAX,
        ensures
            match r {
                Result::Ok(bytes) => encode_ok(self@.instructions) && bytes@ == encode_bytes(
                    self@.instructions,
                ) && bytes@.len() == total_len(self@.instructions),
                Result::Err(e) => encode_error(self@.instructions) == Some(e@),
            },
    {
        let ghost ds = self@.instructions;
        let n = self.instructions.len();
        let mut chunks_v: Vec<Vec<u8>> = Vec::new();
        let mut labels: Vec<(String, u32)> = Vec::new();
        let mut fixups: Vec<(usize, String)> = Vec::new();
        let mut off: u32 = 0;
        let mut i: usize = 0;
        // Pass 1: provisional emission, recording the label table and the
        // pending fixups.
        while i < n
            invariant
                n == self.instructions.len(),
                ds == self@.instructions,
                total_len(ds) <= u32::MAX,
                0 <= i <= n,
                bytes_view(chunks_v@).len() == i,
                forall|k: int| 0 <= k < i ==> bytes_view(chunks_v@)[k] == provisional_chunk(ds[k]),
                off as nat == prefix_len(ds, i as int),
                labels@.len() == marker_table_upto(ds, i as int).len(),
                forall|k: int|
                    0 <= k < labels@.len() ==> (#[trigger] labels@[k]).0@ == marker_table_upto(
                        ds,
                        i as int,
                    )[k].0 && labels@[k].1 as nat == marker_table_upto(ds, i as int)[k].1,
                fixups@.len() == fixup_table_upto(ds, i as int).len(),
                forall|k: int|
                    0 <= k < fixups@.len() ==> (#[trigger] fixups@[k]).0 as int == fixup_table_upto(
                        ds,
                        i as int,
                    )[k].0 && fixups@[k].1@ == fixup_table_upto(ds, i as int)[k].1,
            decreases n - i,
        {
            proof {
                lemma_prefix_len_mono(ds, i + 1, ds.len() as int);
                assert(prefix_len(ds, i + 1) == prefix_len(ds, i as int) + chunk_len(ds[i as int]));
            }
            let ghost pre_chunks = bytes_view(chunks_v@);
            match &self.instructions[i] {
                Instruction::Label(l) => {
                    chunks_v.push(Vec::new());
                    labels.push((l.name.clone(), off));
                },
                Instruction::Op(o) => {
                    chunks_v.push(chunk4(o.op_type.byte(), o.target, o.src1, o.src2));
                    off = off + 4;
                },
                Instruction::Jmp(j) => {
                    chunks_v.push(chunk5(j.op_type.byte(), j.target));
                    off = off + 5;
                },
                Instruction::Goto(g) => {
                    chunks_v.push(chunk_placeholder(g.op_type.byte()));
                    fixups.push((i, g.target.name.clone()));
                    off = off + 5;
                },
            }
            proof {
                assert(bytes_view(chunks_v@) =~= pre_chunks.push(chunks_v@.last()@));
            }
            i = i + 1;
        }
        let ghost ft = fixup_table(ds);
        let ghost mt = marker_table(ds);
        proof {
            lemma_fixup_props(ds, ds.len() as int);
            assert(ft.skip(0) =~= ft);
        }
        // Pass 2: resolve every pending fixup, rewriting its placeholder
        // chunk with the label's byte offset.
        let m = fixups.len();
        let mut j: usize = 0;
        while j < m
            invariant
                m == fixups@.len(),
                ds == self@.instructions,
                ft == fixup_table(ds),
                mt == marker_table(ds),
                total_len(ds) <= u32::MAX,
                0 <= j <= m,
                fixups@.len() == ft.len(),
                forall|k: int|
                    0 <= k < fixups@.len() ==> (#[trigger] fixups@[k]).0 as int == ft[k].0
                        && fixups@[k].1@ == ft[k].1,
                labels@.len() == mt.len(),
                forall|k: int|
                    0 <= k < mt.len() ==> (#[trigger] labels@[k]).0@ == mt[k].0 && labels@[k].1
                        as nat == mt[k].1,
                forall|l: int|
                    0 <= l < ft.len() ==> {
                        let e = #[trigger] ft[l];
                        0 <= e.0 < ds.len() && (ds[e.0] matches InstrV::Goto { op: _, name: n2 }
                            && n2 == e.1)
                    },
                forall|l1: int, l2: int| 0 <= l1 < l2 < ft.len() ==> ft[l1].0 < ft[l2].0,
                bytes_view(chunks_v@).len() == ds.len(),
                forall|k: int|
                    0 <= k < ds.len() && !(ds[k] is Goto) ==> bytes_view(chunks_v@)[k]
                        == provisional_chunk(ds[k]),
                forall|l: int|
                    0 <= l < ft.len() ==> bytes_view(chunks_v@)[ft[l].0] == if l < j {
                        chunk_bytes(ds, ft[l].0)
                    } else {
                        provisional_chunk(ds[ft[l].0])
                    },
                first_fixup_error(ds, ft.skip(j as int)) == encode_error(ds),
            decreases m - j,
        {
            let idx = fixups[j].0;
            let ghost pre_chunks = bytes_view(chunks_v@);
            proof {
                assert(ft.skip(j as int)[0] == ft[j as int]);
                assert(ft.skip(j as int).drop_first() =~= ft.skip(j + 1));
            }
            let (cnt, resolved) = lookup_label(&labels, fixups[j].1.as_str(), Ghost(mt));
            if cnt == 0 {
                return Result::Err(AsmError::UnresolvedLabel { name: fixups[j].1.clone() });
            }
            if cnt >= 2 {
                return Result::Err(AsmError::DuplicateLabel { name: fixups[j].1.clone() });
            }
            let code = chunk5(Opcodes::Jmp.byte(), resolved);
            proof {
                let e = ft[j as int];
                assert(ds[e.0] matches InstrV::Goto { op: _, name: n2 } && n2 == e.1);
                let op = ds[e.0]->Goto_op;
                assert(op == Opcodes::Jmp);
                assert(code@ == chunk_bytes(ds, e.0));
            }
            chunks_v[idx] = code;
            proof {
                assert(bytes_view(chunks_v@) =~= pre_chunks.update(ft[j as int].0, chunk_bytes(
                    ds,
                    ft[j as int].0,
                )));
            }
            j = j + 1;
        }
        proof {
            assert(ft.skip(m as int) =~= Seq::<(int, Seq<char>)>::empty());
            assert forall|k: int| 0 <= k < ds.len() implies bytes_view(chunks_v@)[k] == chunk_bytes(
                ds,
                k,
            ) by {
                if ds[k] is Goto {
                    lemma_fixup_complete(ds, ds.len() as int, k);
                } else {
                    assert(provisional_chunk(ds[k]) == chunk_bytes(ds, k));
                }
            }
            assert(bytes_view(chunks_v@) =~= chunks(ds));
        }
        // Concatenation: the stream is the chunks back to back, in order.
        let mut out: Vec<u8> = Vec::new();
        let mut ci: usize = 0;
        proof {
            assert(chunks(ds).take(0) =~= Seq::<Seq<u8>>::empty());
        }
        while ci < n
            invariant
                n == self.instructions.len(),
                ds == self@.instructions,
                bytes_view(chunks_v@) == chunks(ds),
                chunks_v@.len() == ds.len(),
                n == ds.len(),
                0 <= ci <= n,
                out@ == flat(chunks(ds).take(ci as int)),
            decreases n - ci,
        {
            let chunk = &chunks_v[ci];
            let clen = chunk.len();
            let mut bi: usize = 0;
            while bi < clen
                invariant
                    clen == chunk@.len(),
                    0 <= bi <= clen,
                    chunk@ == bytes_view(chunks_v@)[ci as int],
                    ci < chunks_v@.len(),
                    out@ == flat(chunks(ds).take(ci as int)) + chunk@.take(bi as int),
                decreases clen - bi,
            {
                out.push(chunk[bi]);
                proof {
                    assert(chunk@.take(bi + 1) =~= chunk@.take(bi as int).push(chunk@[bi as int]));
                    assert(out@ =~= flat(chunks(ds).take(ci as int)) + chunk@.take(bi + 1));
                }
                bi = bi + 1;
            }
            proof {
                assert(chunks(ds).take(ci + 1).drop_last() =~= chunks(ds).take(ci as int));
                assert(chunk@.take(clen as int) =~= chunk@);
                assert(out@ =~= flat(chunks(ds).take(ci + 1)));
            }
            ci = ci + 1;
        }
        proof {
            assert(chunks(ds).take(n as int) =~= chunks(ds));
            lemma_encode_len(ds, ds.len() as int);
            assert(first_fixup_error(ds, ft.skip(m as int)) is None);
        }
        Result::Ok(out)
    }
}

} // verus!
