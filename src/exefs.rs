//! AArch64 instructions patched into the game executable by their immediate.

use vstd::prelude::*;

use crate::text::{chars_of, dec_value, digit_value, is_space, is_space_char};

verus! {

/// The instructions that patches rewrite.
#[derive(Debug, Clone, Copy, PartialEq, Eq, Structural)]
pub enum AArch64AssemblyOpCode {
    /// CMP (immediate)
    CMP,
    /// MOV (wide immediate)
    MOV,
    /// B
    B,
}

/// Where a number sits in an instruction word: lowest bit and width.
#[derive(Debug, Clone, Copy, PartialEq, Eq, Structural)]
pub struct InstructionNumPosition {
    pub bit_start: u8,
    pub length: u8,
}

pub open spec fn imm_pos(op: AArch64AssemblyOpCode) -> InstructionNumPosition {
    match op {
        AArch64AssemblyOpCode::CMP => InstructionNumPosition { bit_start: 10, length: 12 },
        AArch64AssemblyOpCode::MOV => InstructionNumPosition { bit_start: 5, length: 16 },
        AArch64AssemblyOpCode::B => InstructionNumPosition { bit_start: 0, length: 26 },
    }
}

pub open spec fn reg_pos(op: AArch64AssemblyOpCode) -> InstructionNumPosition {
    match op {
        AArch64AssemblyOpCode::CMP => InstructionNumPosition { bit_start: 5, length: 5 },
        AArch64AssemblyOpCode::MOV => InstructionNumPosition { bit_start: 0, length: 5 },
        AArch64AssemblyOpCode::B => InstructionNumPosition { bit_start: 0, length: 0 },
    }
}

pub open spec fn skeleton(op: AArch64AssemblyOpCode) -> u32 {
    match op {
        AArch64AssemblyOpCode::CMP => 0x7100001F,
        AArch64AssemblyOpCode::MOV => 0x52800000,
        AArch64AssemblyOpCode::B => 0x14000000,
    }
}

/// The positions used by the instructions: narrow enough for 32-bit words.
pub open spec fn pos_wf(p: InstructionNumPosition) -> bool {
    p.bit_start < 32 && p.length < 32
}

pub open spec fn mask_of(p: InstructionNumPosition) -> u32 {
    ((((1u32 << p.length) - 1) as u32) << p.bit_start) as u32
}

impl AArch64AssemblyOpCode {
    pub fn immediate_position(&self) -> (r: InstructionNumPosition)
        ensures
            r == imm_pos(*self),
    {
        match self {
            AArch64AssemblyOpCode::CMP => InstructionNumPosition { bit_start: 10, length: 12 },
            AArch64AssemblyOpCode::MOV => InstructionNumPosition { bit_start: 5, length: 16 },
            AArch64AssemblyOpCode::B => InstructionNumPosition { bit_start: 0, length: 26 },
        }
    }

    pub fn register_position(&self) -> (r: InstructionNumPosition)
        ensures
            r == reg_pos(*self),
    {
        match self {
            AArch64AssemblyOpCode::CMP => InstructionNumPosition { bit_start: 5, length: 5 },
            AArch64AssemblyOpCode::MOV => InstructionNumPosition { bit_start: 0, length: 5 },
            AArch64AssemblyOpCode::B => InstructionNumPosition { bit_start: 0, length: 0 },
        }
    }

    pub fn instruction_skeleton(&self) -> (r: u32)
        ensures
            r == skeleton(*self),
    {
        match self {
            AArch64AssemblyOpCode::CMP => 0x7100001F,
            AArch64AssemblyOpCode::MOV => 0x52800000,
            AArch64AssemblyOpCode::B => 0x14000000,
        }
    }
}

impl InstructionNumPosition {
    /// The bits the number occupies.
    pub fn to_mask(&self) -> (r: u32)
        requires
            pos_wf(*self),
        ensures
            r == mask_of(*self),
    {
        let len = self.length as u32;
        assert((1u32 << len) >= 1) by (bit_vector)
            requires
                len < 32,
        ;
        let ones: u32 = (1u32 << self.length) - 1;
        ones << self.bit_start
    }

    /// `value` moved to the number's place; bits shifted past the word are dropped.
    pub fn to_mask_value(&self, value: u32) -> (r: u32)
        requires
            self.bit_start < 32,
        ensures
            r == (value << self.bit_start) as u32,
    {
        value << self.bit_start
    }
}

/// An instruction with a W register and an immediate.
#[derive(Debug, Clone, Copy, PartialEq, Eq, Structural)]
pub struct AArch64Instruction {
    pub op_code: AArch64AssemblyOpCode,
    pub w_register_id: u8,
    pub immediate: u16,
}

/// The instruction word: the skeleton with the register and immediate fields cleared
/// and then set.
pub open spec fn encode(i: AArch64Instruction) -> u32 {
    ((skeleton(i.op_code) & !mask_of(reg_pos(i.op_code)) & !mask_of(imm_pos(i.op_code))) | (
    (i.w_register_id as u32) << reg_pos(i.op_code).bit_start) as u32 | ((i.immediate as u32)
        << imm_pos(i.op_code).bit_start) as u32) as u32
}

impl AArch64Instruction {
    /// The instruction word, most significant bit first.
    pub fn to_bytes(&self) -> (r: u32)
        ensures
            r == encode(*self),
    {
        let bytes = self.op_code.instruction_skeleton();
        let w_register = self.op_code.register_position().to_mask_value(self.w_register_id as u32);
        let immediate = self.op_code.immediate_position().to_mask_value(self.immediate as u32);
        let bytes = bytes & !self.op_code.register_position().to_mask();
        let bytes = bytes & !self.op_code.immediate_position().to_mask();
        bytes | w_register | immediate
    }
}

/// An instruction to write at an offset of the executable.
#[derive(Debug, Clone, Copy, PartialEq, Eq, Structural)]
pub struct InstructionPatch {
    /// Offset in the executable; the patch file format allows four bytes.
    pub offset: u32,
    pub instruction: AArch64Instruction,
    /// The instruction is written as it is, whatever the offset given to the patch.
    pub override_patch: bool,
}

impl InstructionPatch {
    /// The instruction word with the immediate moved by `immediate_offset` (modulo
    /// 2^16), unless the patch overrides.
    pub fn patch_immediate(&self, immediate_offset: i16) -> (r: u32)
        ensures
            r == encode(
                AArch64Instruction {
                    immediate: if self.override_patch {
                        self.instruction.immediate
                    } else {
                        ((self.instruction.immediate as int + immediate_offset as int + 65536)
                            % 65536) as u16
                    },
                    ..self.instruction
                },
            ),
    {
        let immediate: u16 = if self.override_patch {
            self.instruction.immediate
        } else {
            let shifted: i32 = self.instruction.immediate as i32 + immediate_offset as i32 + 65536;
            (shifted % 65536) as u16
        };
        let instruction = AArch64Instruction { immediate, ..self.instruction };
        instruction.to_bytes()
    }
}

} // verus!

verus! {

/// Why an instruction text could not be read.
#[derive(Debug, Clone, Copy, PartialEq, Eq, Structural)]
pub enum InstructionParseError {
    /// Fewer than three operands.
    MissingOperand,
    /// An opcode other than CMP or MOV.
    InvalidOpCode,
    /// A register other than W0 to W255.
    InvalidRegister,
    /// An immediate or branch target that is no 16-bit number.
    InvalidNumber,
}

pub open spec fn is_sep(c: char) -> bool {
    c == ',' || is_space(c)
}

/// The words of `t`: maximal runs of characters that are neither commas nor spaces.
pub open spec fn words(t: Seq<char>) -> Seq<Seq<char>>
    decreases t.len(),
{
    if t.len() == 0 {
        seq![]
    } else {
        let w = words(t.drop_last());
        let c = t.last();
        if is_sep(c) {
            w
        } else if t.len() >= 2 && !is_sep(t[t.len() - 2]) && w.len() > 0 {
            w.update(w.len() - 1, w.last().push(c))
        } else {
            w.push(seq![c])
        }
    }
}

pub open spec fn hex_digit(c: char) -> Option<nat> {
    if '0' <= c && c <= '9' {
        Some((c as nat - '0' as nat) as nat)
    } else if 'a' <= c && c <= 'f' {
        Some((c as nat - 'a' as nat + 10) as nat)
    } else if 'A' <= c && c <= 'F' {
        Some((c as nat - 'A' as nat + 10) as nat)
    } else {
        None
    }
}

/// The value of a nonempty run of hexadecimal digits.
pub open spec fn hex_value(t: Seq<char>) -> Option<nat>
    decreases t.len(),
{
    if t.len() == 0 {
        None
    } else {
        match hex_digit(t.last()) {
            None => None,
            Some(d) => if t.len() == 1 {
                Some(d)
            } else {
                match hex_value(t.drop_last()) {
                    None => None,
                    Some(v) => Some(v * 16 + d),
                }
            },
        }
    }
}

/// A 16-bit number: `0x` (either case) and hexadecimal digits, or decimal digits.
pub open spec fn num_u16(t: Seq<char>) -> Option<u16> {
    let v = if t.len() >= 2 && t[0] == '0' && (t[1] == 'x' || t[1] == 'X') {
        hex_value(t.skip(2))
    } else {
        dec_value(t)
    };
    match v {
        Some(n) => if n <= 65535 {
            Some(n as u16)
        } else {
            None
        },
        None => None,
    }
}

pub open spec fn is_opcode_word(w: Seq<char>, a: char, b: char, c: char) -> bool {
    w.len() == 3 && upper(w[0]) == a && upper(w[1]) == b && upper(w[2]) == c
}

/// Upper case for ASCII letters.
pub open spec fn upper(c: char) -> char {
    if 'a' <= c && c <= 'z' {
        (((c as u32) - 32) as u8) as char
    } else {
        c
    }
}

/// The instruction that a text stands for, case aside: `B target` (the target in
/// bytes, stored in words), or `CMP|MOV Wn, #imm`.
pub open spec fn parse_instruction(t: Seq<char>) -> Result<AArch64Instruction, InstructionParseError> {
    if t.len() > 0 && upper(t[0]) == 'B' {
        match num_u16(crate::text::trim(t.drop_first())) {
            Some(a) => Ok(
                AArch64Instruction {
                    op_code: AArch64AssemblyOpCode::B,
                    w_register_id: 0,
                    immediate: a / 4,
                },
            ),
            None => Err(InstructionParseError::InvalidNumber),
        }
    } else {
        let ws = words(t);
        if ws.len() < 3 {
            Err(InstructionParseError::MissingOperand)
        } else if !is_opcode_word(ws[0], 'C', 'M', 'P') && !is_opcode_word(ws[0], 'M', 'O', 'V') {
            Err(InstructionParseError::InvalidOpCode)
        } else if !(ws[1].len() >= 2 && upper(ws[1][0]) == 'W' && dec_value(ws[1].skip(1)) is Some
            && dec_value(ws[1].skip(1))->0 <= 255) {
            Err(InstructionParseError::InvalidRegister)
        } else if !(ws[2].len() >= 1 && ws[2][0] == '#' && num_u16(ws[2].skip(1)) is Some) {
            Err(InstructionParseError::InvalidNumber)
        } else {
            Ok(
                AArch64Instruction {
                    op_code: if is_opcode_word(ws[0], 'C', 'M', 'P') {
                        AArch64AssemblyOpCode::CMP
                    } else {
                        AArch64AssemblyOpCode::MOV
                    },
                    w_register_id: dec_value(ws[1].skip(1))->0 as u8,
                    immediate: num_u16(ws[2].skip(1))->0,
                },
            )
        }
    }
}

fn upper_exec(c: char) -> (r: char)
    ensures
        r == upper(c),
{
    if 'a' <= c && c <= 'z' {
        (((c as u32) - 32) as u8) as char
    } else {
        c
    }
}

fn hex_digit_exec(c: char) -> (r: Option<u32>)
    ensures
        match hex_digit(c) {
            Some(d) => r == Some(d as u32),
            None => r is None,
        },
{
    if '0' <= c && c <= '9' {
        Some(c as u32 - '0' as u32)
    } else if 'a' <= c && c <= 'f' {
        Some(c as u32 - 'a' as u32 + 10)
    } else if 'A' <= c && c <= 'F' {
        Some(c as u32 - 'A' as u32 + 10)
    } else {
        None
    }
}

proof fn lemma_value_grows(t: Seq<char>, m: int, hex: bool)
    requires
        0 < m <= t.len(),
        (if hex { hex_value(t) } else { dec_value(t) }) is Some,
    ensures
        (if hex { hex_value(t.take(m)) } else { dec_value(t.take(m)) }) is Some,
        (if hex { hex_value(t.take(m)) } else { dec_value(t.take(m)) })->0 <= (if hex {
            hex_value(t)
        } else {
            dec_value(t)
        })->0,
    decreases t.len(),
{
    if m == t.len() {
        assert(t.take(m) == t);
    } else {
        let d = t.drop_last();
        assert(d.take(m) == t.take(m));
        lemma_value_grows(d, m, hex);
    }
}

proof fn lemma_value_bad_digit(t: Seq<char>, k: int, hex: bool)
    requires
        0 <= k < t.len(),
        if hex { hex_digit(t[k]) is None } else { digit_value(t[k]) is None },
    ensures
        (if hex { hex_value(t) } else { dec_value(t) }) is None,
    decreases t.len(),
{
    if k < t.len() - 1 {
        lemma_value_bad_digit(t.drop_last(), k, hex);
    }
}

/// Reads a number of `t[from..]` in base 16 or 10, if it is at most 65535.
fn parse_u16_digits(t: &Vec<char>, from: usize, hex: bool) -> (r: Option<u16>)
    requires
        from <= t@.len(),
    ensures
        ({
            let v = if hex { hex_value(t@.skip(from as int)) } else { dec_value(t@.skip(from as int)) };
            &&& v is Some && v->0 <= 65535 ==> r == Some(v->0 as u16)
            &&& !(v is Some && v->0 <= 65535) ==> r is None
        }),
{
    let n = t.len();
    if from == n {
        return None;
    }
    let ghost w = t@.skip(from as int);
    let base: u32 = if hex { 16 } else { 10 };
    let mut acc: u32 = 0;
    let mut i: usize = from;
    while i < n
        invariant
            from <= i <= n,
            n == t@.len(),
            from < n,
            w == t@.skip(from as int),
            base == if hex { 16u32 } else { 10u32 },
            i > from ==> (if hex { hex_value(w.take(i - from)) } else { dec_value(w.take(i - from)) }) == Some(acc as nat),
            i == from ==> acc == 0,
            acc <= 65535,
        decreases n - i,
    {
        let c = t[i];
        let ghost sub = w.take(i + 1 - from);
        assert(sub.drop_last() == w.take(i - from));
        assert(sub.last() == c);
        let d: u32 = if hex {
            match hex_digit_exec(c) {
                Some(d) => d,
                None => {
                    proof {
                        lemma_value_bad_digit(w, i - from, hex);
                    }
                    return None;
                },
            }
        } else {
            if c < '0' || c > '9' {
                proof {
                    lemma_value_bad_digit(w, i - from, hex);
                }
                return None;
            }
            c as u32 - '0' as u32
        };
        if hex {
            assert(hex_digit(c) == Some(d as nat));
        } else {
            assert(digit_value(c) == Some(d as nat));
        }
        acc = acc * base + d;
        if acc > 65535 {
            proof {
                if (if hex { hex_value(w) } else { dec_value(w) }) is Some {
                    lemma_value_grows(w, i + 1 - from, hex);
                }
            }
            return None;
        }
        i = i + 1;
    }
    assert(w.take(n - from) == w);
    Some(acc as u16)
}

} // verus!

verus! {

fn tail_from(t: &Vec<char>, from: usize) -> (r: Vec<char>)
    requires
        from <= t@.len(),
    ensures
        r@ == t@.skip(from as int),
{
    let n = t.len();
    let mut r: Vec<char> = Vec::new();
    for i in from..n
        invariant
            n == t@.len(),
            from <= n,
            r@ == t@.subrange(from as int, i as int),
    {
        r.push(t[i]);
        assert(r@ == t@.subrange(from as int, i + 1));
    }
    r
}

fn parse_num_u16(t: &Vec<char>) -> (r: Option<u16>)
    ensures
        r == num_u16(t@),
{
    if t.len() >= 2 && t[0] == '0' && (t[1] == 'x' || t[1] == 'X') {
        parse_u16_digits(t, 2, true)
    } else {
        assert(t@.skip(0) == t@);
        parse_u16_digits(t, 0, false)
    }
}

fn words_exec(t: &Vec<char>) -> (r: Vec<Vec<char>>)
    ensures
        r@.len() == words(t@).len(),
        forall|j: int| 0 <= j < r@.len() ==> (#[trigger] r@[j])@ == words(t@)[j],
{
    let n = t.len();
    let mut ws: Vec<Vec<char>> = Vec::new();
    for i in 0..n
        invariant
            n == t@.len(),
            ws@.len() == words(t@.take(i as int)).len(),
            forall|j: int| 0 <= j < ws@.len() ==> (#[trigger] ws@[j])@ == words(t@.take(i as int))[j],
    {
        let ghost p = t@.take(i + 1);
        assert(p.drop_last() == t@.take(i as int));
        assert(p.last() == t@[i as int]);
        let c = t[i];
        if c == ',' || is_space_char(c) {
        } else if i >= 1 && !(t[i - 1] == ',' || is_space_char(t[i - 1])) && ws.len() > 0 {
            assert(p[p.len() - 2] == t@[i - 1]);
            let mut lw = ws.pop().unwrap();
            lw.push(c);
            ws.push(lw);
        } else {
            proof {
                if i >= 1 {
                    assert(p[p.len() - 2] == t@[i - 1]);
                }
            }
            let mut lw: Vec<char> = Vec::new();
            lw.push(c);
            ws.push(lw);
        }
    }
    assert(t@.take(n as int) == t@);
    ws
}

impl AArch64Instruction {
    /// Reads an instruction text such as `CMP W20, #0x110` or `b 0xFC`, in any case.
    pub fn parse(value: &str) -> (r: Result<AArch64Instruction, InstructionParseError>)
        ensures
            r == parse_instruction(value@),
    {
        let cs = chars_of(value);
        let n = cs.len();
        if n > 0 && upper_exec(cs[0]) == 'B' {
            let rest = tail_from(&cs, 1);
            assert(rest@ == value@.drop_first());
            let tr = crate::text::trim_chars(&rest);
            return match parse_num_u16(&tr) {
                Some(a) => Ok(
                    AArch64Instruction {
                        op_code: AArch64AssemblyOpCode::B,
                        w_register_id: 0,
                        immediate: a / 4,
                    },
                ),
                None => Err(InstructionParseError::InvalidNumber),
            };
        }
        let ws = words_exec(&cs);
        if ws.len() < 3 {
            return Err(InstructionParseError::MissingOperand);
        }
        let w0 = &ws[0];
        let is_cmp = w0.len() == 3 && upper_exec(w0[0]) == 'C' && upper_exec(w0[1]) == 'M'
            && upper_exec(w0[2]) == 'P';
        let is_mov = w0.len() == 3 && upper_exec(w0[0]) == 'M' && upper_exec(w0[1]) == 'O'
            && upper_exec(w0[2]) == 'V';
        assert(is_cmp == is_opcode_word(ws@[0]@, 'C', 'M', 'P'));
        assert(is_mov == is_opcode_word(ws@[0]@, 'M', 'O', 'V'));
        if !is_cmp && !is_mov {
            return Err(InstructionParseError::InvalidOpCode);
        }
        let w1 = &ws[1];
        if !(w1.len() >= 2 && upper_exec(w1[0]) == 'W') {
            return Err(InstructionParseError::InvalidRegister);
        }
        let reg = match parse_u16_digits(w1, 1, false) {
            Some(v) => if v <= 255 {
                v as u8
            } else {
                return Err(InstructionParseError::InvalidRegister);
            },
            None => {
                return Err(InstructionParseError::InvalidRegister);
            },
        };
        let w2 = &ws[2];
        if !(w2.len() >= 1 && w2[0] == '#') {
            return Err(InstructionParseError::InvalidNumber);
        }
        let rest = tail_from(w2, 1);
        let imm = match parse_num_u16(&rest) {
            Some(v) => v,
            None => {
                return Err(InstructionParseError::InvalidNumber);
            },
        };
        Ok(
            AArch64Instruction {
                op_code: if is_cmp {
                    AArch64AssemblyOpCode::CMP
                } else {
                    AArch64AssemblyOpCode::MOV
                },
                w_register_id: reg,
                immediate: imm,
            },
        )
    }
}

} // verus!

verus! {

/// The two uppercase hexadecimal digits of each byte, in order.
pub open spec fn upper_hex(b: Seq<u8>) -> Seq<char>
    decreases b.len(),
{
    if b.len() == 0 {
        seq![]
    } else {
        upper_hex(b.drop_last()) + seq![hex_char(b.last() / 16), hex_char(b.last() % 16)]
    }
}

/// The uppercase hexadecimal digit of `d < 16`.
pub open spec fn hex_char(d: u8) -> char {
    if d < 10 {
        ((d + 48) as u8) as char
    } else {
        ((d + 55) as u8) as char
    }
}

/// Relies on hex::encode_upper: two uppercase hexadecimal digits per byte, in order.
#[verifier::external_body]
fn encode_upper(b: &[u8]) -> (r: String)
    ensures
        r@ == upper_hex(b@),
{
    hex::encode_upper(b)
}

/// The name of the patch file for an executable with this build id: its bytes in
/// uppercase hexadecimal, then `.ips`.
pub fn ips_file_name(build_id: &[u8]) -> (r: String)
    ensures
        r@ == upper_hex(build_id@) + seq!['.', 'i', 'p', 's'],
{
    let mut name = encode_upper(build_id);
    name.append(".ips");
    proof {
        reveal_strlit(".ips");
    }
    name
}

/// The four big-endian bytes of `x`.
pub open spec fn be_bytes(x: u32) -> Seq<u8> {
    seq![
        (x / 16777216) as u8,
        ((x / 65536) % 256) as u8,
        ((x / 256) % 256) as u8,
        (x % 256) as u8,
    ]
}

/// One patch record: the offset past the 0x100-byte header, big-endian; the length 4
/// in two bytes; the patched instruction word, little-endian.
pub open spec fn ips_record(p: InstructionPatch, immediate_offset: i16) -> Seq<u8> {
    be_bytes((p.offset + 0x100) as u32) + seq![0u8, 4u8] + crate::metadata::le_bytes(
        patched_word(p, immediate_offset),
    )
}

pub open spec fn patched_word(p: InstructionPatch, immediate_offset: i16) -> u32 {
    encode(
        AArch64Instruction {
            immediate: if p.override_patch {
                p.instruction.immediate
            } else {
                ((p.instruction.immediate as int + immediate_offset as int + 65536) % 65536) as u16
            },
            ..p.instruction
        },
    )
}

pub open spec fn ips_records(ps: Seq<InstructionPatch>, immediate_offset: i16) -> Seq<u8>
    decreases ps.len(),
{
    if ps.len() == 0 {
        seq![]
    } else {
        ips_records(ps.drop_last(), immediate_offset) + ips_record(ps.last(), immediate_offset)
    }
}

/// `IPS32`, the records, `EEOF`.
pub open spec fn ips_content(ps: Seq<InstructionPatch>, immediate_offset: i16) -> Seq<u8> {
    seq![73u8, 80u8, 83u8, 51u8, 50u8] + ips_records(ps, immediate_offset) + seq![
        69u8,
        69u8,
        79u8,
        70u8,
    ]
}

fn push_be(out: &mut Vec<u8>, x: u32)
    ensures
        final(out)@ == old(out)@ + be_bytes(x),
{
    out.push((x / 16777216) as u8);
    out.push(((x / 65536) % 256) as u8);
    out.push(((x / 256) % 256) as u8);
    out.push((x % 256) as u8);
    assert(final(out)@ =~= old(out)@ + be_bytes(x));
}

/// The patch file that moves each patch's immediate by `immediate_offset`.
pub fn ips_file_content(patches: &Vec<InstructionPatch>, immediate_offset: i16) -> (r: Vec<u8>)
    requires
        forall|i: int| 0 <= i < patches@.len() ==> (#[trigger] patches@[i]).offset <= u32::MAX - 0x100,
    ensures
        r@ == ips_content(patches@, immediate_offset),
{
    let mut out: Vec<u8> = Vec::new();
    out.push(73);
    out.push(80);
    out.push(83);
    out.push(51);
    out.push(50);
    let ghost head = out@;
    let n = patches.len();
    for i in 0..n
        invariant
            n == patches@.len(),
            forall|q: int| 0 <= q < patches@.len() ==> (#[trigger] patches@[q]).offset <= u32::MAX - 0x100,
            out@ == head + ips_records(patches@.take(i as int), immediate_offset),
    {
        let p = patches[i];
        assert(patches@.take(i + 1).drop_last() == patches@.take(i as int));
        let ghost before = out@;
        push_be(&mut out, p.offset + 0x100);
        out.push(0);
        out.push(4);
        crate::metadata::push_le(&mut out, p.patch_immediate(immediate_offset));
        assert(out@ =~= before + ips_record(p, immediate_offset));
    }
    assert(patches@.take(n as int) == patches@);
    let ghost body = out@;
    out.push(69);
    out.push(69);
    out.push(79);
    out.push(70);
    assert(out@ =~= ips_content(patches@, immediate_offset));
    out
}

} // verus!

verus! {

/// The lowercase hexadecimal digit of `d < 16`.
pub open spec fn lower_hex_char(d: nat) -> char {
    if d < 10 {
        ((d + 48) as u8) as char
    } else {
        ((d + 87) as u8) as char
    }
}

/// Lowercase hexadecimal text of `n`, without leading zeros.
pub open spec fn lower_hex(n: nat) -> Seq<char>
    decreases n,
{
    if n < 16 {
        seq![lower_hex_char(n)]
    } else {
        lower_hex(n / 16).push(lower_hex_char(n % 16))
    }
}

pub open spec fn opcode_text(op: AArch64AssemblyOpCode) -> Seq<char> {
    match op {
        AArch64AssemblyOpCode::CMP => seq!['C', 'M', 'P'],
        AArch64AssemblyOpCode::MOV => seq!['M', 'O', 'V'],
        AArch64AssemblyOpCode::B => seq!['B'],
    }
}

/// `{op} W{register}, #0x{immediate in lowercase hexadecimal}`
pub open spec fn instruction_text(i: AArch64Instruction) -> Seq<char> {
    opcode_text(i.op_code) + seq![' ', 'W'] + crate::text::dec(i.w_register_id as nat) + seq![
        ',',
        ' ',
        '#',
        '0',
        'x',
    ] + lower_hex(i.immediate as nat)
}

fn push_lower_hex(out: &mut Vec<char>, n: u32)
    ensures
        final(out)@ == old(out)@ + lower_hex(n as nat),
    decreases n,
{
    if n >= 16 {
        push_lower_hex(out, n / 16);
    }
    let d = (n % 16) as u8;
    let c = if d < 10 {
        (d + 48) as char
    } else {
        (d + 87) as char
    };
    out.push(c);
    proof {
        if n >= 16 {
            assert(old(out)@ + lower_hex(n as nat) == old(out)@ + lower_hex((n / 16) as nat) + seq![
                lower_hex_char((n % 16) as nat),
            ]);
        }
    }
}

impl AArch64Instruction {
    /// The instruction's text.
    pub fn to_text(&self) -> (r: String)
        ensures
            r@ == instruction_text(*self),
    {
        let mut out: Vec<char> = Vec::new();
        match self.op_code {
            AArch64AssemblyOpCode::CMP => {
                out.push('C');
                out.push('M');
                out.push('P');
            },
            AArch64AssemblyOpCode::MOV => {
                out.push('M');
                out.push('O');
                out.push('V');
            },
            AArch64AssemblyOpCode::B => {
                out.push('B');
            },
        }
        out.push(' ');
        out.push('W');
        crate::text::push_dec(&mut out, self.w_register_id as u64);
        out.push(',');
        out.push(' ');
        out.push('#');
        out.push('0');
        out.push('x');
        push_lower_hex(&mut out, self.immediate as u32);
        assert(out@ =~= instruction_text(*self));
        crate::text::string_of(&out)
    }
}

} // verus!
