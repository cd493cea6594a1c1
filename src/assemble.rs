//! The instruction encoder: one normalized line of assembly to its 16-bit
//! opcode.
use vstd::prelude::*;
use crate::parse::{
    addr_spec, args_spec, byte_spec, lemma_args_error_prefix, nibble_spec,
    parse_asm_arg, parse_raw_tokens, parse_valid_addr, parse_valid_byte, parse_valid_nibble,
    raw_spec, ArgErrorView, AsmArgParseError, AsmArgument,
};
use crate::text::{
    chars_of, eq_ci, has_prefix, same_ci, split_tokens, starts_with, strip_comma,
    strip_comma_exec, tokens, views,
};

verus! {

/// An error that occurred while encoding a line of assembly.
#[derive(Clone, Copy, Debug, PartialEq, Eq, Structural)]
pub enum AssembleError {
    /// The first token is neither a mnemonic nor a raw literal.
    UnknownOp,
    /// Fewer operands than the operation takes.
    MissingArgs,
    /// More operands than the operation takes.
    ExtraArgs,
    /// An operand is malformed, out of range, or of a kind the operation
    /// does not accept.
    InvalidArg,
}

impl From<AsmArgParseError> for AssembleError {
    fn from(_e: AsmArgParseError) -> AssembleError {
        AssembleError::InvalidArg
    }
}

impl vstd::std_specs::convert::FromSpecImpl<AsmArgParseError> for AssembleError {
    open spec fn obeys_from_spec() -> bool {
        true
    }

    open spec fn from_spec(e: AsmArgParseError) -> AssembleError {
        AssembleError::InvalidArg
    }
}

/// The words of a line: its whitespace-separated tokens, each without one
/// trailing comma.
pub open spec fn line_words(s: Seq<char>) -> Seq<Seq<char>> {
    tokens(s).map_values(|t: Seq<char>| strip_comma(t))
}

/// Every register among `v` is one of `V0` to `VF`.
pub open spec fn regs_ok(v: Seq<AsmArgument>) -> bool {
    forall|i: int| 0 <= i < v.len() && (#[trigger] v[i]) is Register ==> v[i]->Register_0 < 16
}

/// The operands of an instruction given as its words, when it takes between
/// `min` and `max` of them.
pub open spec fn operands_spec(ws: Seq<Seq<char>>, min: int, max: int) -> Result<Seq<AsmArgument>, AssembleError> {
    if ws.len() - 1 < min {
        Err(AssembleError::MissingArgs)
    } else if ws.len() - 1 > max {
        Err(AssembleError::ExtraArgs)
    } else {
        match args_spec(ws.skip(1)) {
            Ok(v) => Ok(v),
            Err(_) => Err(AssembleError::InvalidArg),
        }
    }
}

/// The register number of an operand.
pub open spec fn reg(a: AsmArgument) -> int {
    a->Register_0 as int
}

/// `base` with a register in the second nibble and a register in the third.
pub open spec fn xy(base: int, x: AsmArgument, y: AsmArgument) -> u16 {
    (base + reg(x) * 256 + reg(y) * 16) as u16
}

/// `base` with a register in the second nibble.
pub open spec fn x_only(base: int, x: AsmArgument) -> u16 {
    (base + reg(x) * 256) as u16
}

/// `base` with a register in the second nibble and a byte in the low byte.
pub open spec fn xkk(base: int, x: AsmArgument, kk: AsmArgument) -> Result<u16, AssembleError> {
    match byte_spec(kk) {
        Ok(k) => Ok((base + reg(x) * 256 + k) as u16),
        Err(_) => Err(AssembleError::InvalidArg),
    }
}

/// `base` with a 12-bit address in the low bits.
pub open spec fn nnn(base: int, a: AsmArgument) -> Result<u16, AssembleError> {
    match addr_spec(a) {
        Ok(n) => Ok((base + n) as u16),
        Err(_) => Err(AssembleError::InvalidArg),
    }
}

/// `JP addr` is `1nnn`; `JP V0, addr` is `Bnnn`.
pub open spec fn jp_shape(a: Seq<AsmArgument>) -> Result<u16, AssembleError> {
    if a.len() == 1 {
        if a[0] is Numeric {
            nnn(0x1000, a[0])
        } else {
            Err(AssembleError::InvalidArg)
        }
    } else if a[0] == AsmArgument::Register(0) && a[1] is Numeric {
        nnn(0xB000, a[1])
    } else {
        Err(AssembleError::InvalidArg)
    }
}

/// The eleven forms of `LD`.
pub open spec fn ld_shape(a: Seq<AsmArgument>) -> Result<u16, AssembleError> {
    match (a[0], a[1]) {
        (AsmArgument::Register(_), AsmArgument::Register(_)) => Ok(xy(0x8000, a[0], a[1])),
        (AsmArgument::Register(_), AsmArgument::Numeric(_)) => xkk(0x6000, a[0], a[1]),
        (AsmArgument::IPointer, AsmArgument::Numeric(_)) => nnn(0xA000, a[1]),
        (AsmArgument::Register(_), AsmArgument::DelayTimer) => Ok(x_only(0xF007, a[0])),
        (AsmArgument::Register(_), AsmArgument::AnyKey) => Ok(x_only(0xF00A, a[0])),
        (AsmArgument::DelayTimer, AsmArgument::Register(_)) => Ok(x_only(0xF015, a[1])),
        (AsmArgument::SoundTimer, AsmArgument::Register(_)) => Ok(x_only(0xF018, a[1])),
        (AsmArgument::Sprite, AsmArgument::Register(_)) => Ok(x_only(0xF029, a[1])),
        (AsmArgument::Bcd, AsmArgument::Register(_)) => Ok(x_only(0xF033, a[1])),
        (AsmArgument::IRange, AsmArgument::Register(_)) => Ok(x_only(0xF055, a[1])),
        (AsmArgument::Register(_), AsmArgument::IRange) => Ok(x_only(0xF065, a[0])),
        _ => Err(AssembleError::InvalidArg),
    }
}

/// One address operand: `SYS` is `0nnn`, `CALL` is `2nnn`.
pub open spec fn addr_shape(base: int, a: Seq<AsmArgument>) -> Result<u16, AssembleError> {
    if a[0] is Numeric {
        nnn(base, a[0])
    } else {
        Err(AssembleError::InvalidArg)
    }
}

/// `Vx, byte` gives `byte_base` form, `Vx, Vy` the `reg_base` form
/// (`SE`, `SNE`).
pub open spec fn skip_shape(byte_base: int, reg_base: int, a: Seq<AsmArgument>) -> Result<u16, AssembleError> {
    match (a[0], a[1]) {
        (AsmArgument::Register(_), AsmArgument::Numeric(_)) => xkk(byte_base, a[0], a[1]),
        (AsmArgument::Register(_), AsmArgument::Register(_)) => Ok(xy(reg_base, a[0], a[1])),
        _ => Err(AssembleError::InvalidArg),
    }
}

/// `ADD Vx, byte` is `7xkk`, `ADD Vx, Vy` is `8xy4`, `ADD I, Vx` is `Fx1E`.
pub open spec fn add_shape(a: Seq<AsmArgument>) -> Result<u16, AssembleError> {
    match (a[0], a[1]) {
        (AsmArgument::Register(_), AsmArgument::Numeric(_)) => xkk(0x7000, a[0], a[1]),
        (AsmArgument::Register(_), AsmArgument::Register(_)) => Ok(xy(0x8004, a[0], a[1])),
        (AsmArgument::IPointer, AsmArgument::Register(_)) => Ok(x_only(0xF01E, a[1])),
        _ => Err(AssembleError::InvalidArg),
    }
}

/// Two registers: the logic and arithmetic forms `8xyN`.
pub open spec fn pair_shape(base: int, a: Seq<AsmArgument>) -> Result<u16, AssembleError> {
    if a[0] is Register && a[1] is Register {
        Ok(xy(base, a[0], a[1]))
    } else {
        Err(AssembleError::InvalidArg)
    }
}

/// One register and an optional second one, which is `V0` when absent
/// (`SHR`, `SHL`).
pub open spec fn shift_shape(base: int, a: Seq<AsmArgument>) -> Result<u16, AssembleError> {
    if a.len() == 1 {
        if a[0] is Register {
            Ok(x_only(base, a[0]))
        } else {
            Err(AssembleError::InvalidArg)
        }
    } else {
        pair_shape(base, a)
    }
}

/// `RND Vx, byte` is `Cxkk`.
pub open spec fn rnd_shape(a: Seq<AsmArgument>) -> Result<u16, AssembleError> {
    if a[0] is Register && a[1] is Numeric {
        xkk(0xC000, a[0], a[1])
    } else {
        Err(AssembleError::InvalidArg)
    }
}

/// `DRW Vx, Vy, nibble` is `Dxyn`.
pub open spec fn drw_shape(a: Seq<AsmArgument>) -> Result<u16, AssembleError> {
    if a[0] is Register && a[1] is Register && a[2] is Numeric {
        match nibble_spec(a[2]) {
            Ok(n) => Ok((xy(0xD000, a[0], a[1]) + n) as u16),
            Err(_) => Err(AssembleError::InvalidArg),
        }
    } else {
        Err(AssembleError::InvalidArg)
    }
}

/// One register: `SKP` is `Ex9E`, `SKNP` is `ExA1`.
pub open spec fn key_shape(base: int, a: Seq<AsmArgument>) -> Result<u16, AssembleError> {
    if a[0] is Register {
        Ok(x_only(base, a[0]))
    } else {
        Err(AssembleError::InvalidArg)
    }
}

/// The opcode of an instruction with between `min` and `max` operands,
/// whose operands `shape` encodes.
pub open spec fn encode_with(
    ws: Seq<Seq<char>>,
    min: int,
    max: int,
    shape: spec_fn(Seq<AsmArgument>) -> Result<u16, AssembleError>,
) -> Result<u16, AssembleError> {
    match operands_spec(ws, min, max) {
        Err(e) => Err(e),
        Ok(a) => shape(a),
    }
}

/// An operation without operands.
pub open spec fn fixed_spec(ws: Seq<Seq<char>>, op: u16) -> Result<u16, AssembleError> {
    encode_with(ws, 0, 0, |a: Seq<AsmArgument>| Ok::<u16, AssembleError>(op))
}

pub open spec fn jp_spec(ws: Seq<Seq<char>>) -> Result<u16, AssembleError> {
    encode_with(ws, 1, 2, |a: Seq<AsmArgument>| jp_shape(a))
}

pub open spec fn ld_spec(ws: Seq<Seq<char>>) -> Result<u16, AssembleError> {
    encode_with(ws, 2, 2, |a: Seq<AsmArgument>| ld_shape(a))
}

pub open spec fn addr_spec_op(ws: Seq<Seq<char>>, base: int) -> Result<u16, AssembleError> {
    encode_with(ws, 1, 1, |a: Seq<AsmArgument>| addr_shape(base, a))
}

pub open spec fn skip_spec(ws: Seq<Seq<char>>, byte_base: int, reg_base: int) -> Result<u16, AssembleError> {
    encode_with(ws, 2, 2, |a: Seq<AsmArgument>| skip_shape(byte_base, reg_base, a))
}

pub open spec fn add_spec(ws: Seq<Seq<char>>) -> Result<u16, AssembleError> {
    encode_with(ws, 2, 2, |a: Seq<AsmArgument>| add_shape(a))
}

pub open spec fn pair_spec(ws: Seq<Seq<char>>, base: int) -> Result<u16, AssembleError> {
    encode_with(ws, 2, 2, |a: Seq<AsmArgument>| pair_shape(base, a))
}

pub open spec fn shift_spec(ws: Seq<Seq<char>>, base: int) -> Result<u16, AssembleError> {
    encode_with(ws, 1, 2, |a: Seq<AsmArgument>| shift_shape(base, a))
}

pub open spec fn rnd_spec(ws: Seq<Seq<char>>) -> Result<u16, AssembleError> {
    encode_with(ws, 2, 2, |a: Seq<AsmArgument>| rnd_shape(a))
}

pub open spec fn drw_spec(ws: Seq<Seq<char>>) -> Result<u16, AssembleError> {
    encode_with(ws, 3, 3, |a: Seq<AsmArgument>| drw_shape(a))
}

pub open spec fn key_spec(ws: Seq<Seq<char>>, base: int) -> Result<u16, AssembleError> {
    encode_with(ws, 1, 1, |a: Seq<AsmArgument>| key_shape(base, a))
}

/// A line of one `0x`-prefixed token: its value.
pub open spec fn raw_line_spec(ws: Seq<Seq<char>>) -> Result<u16, AssembleError> {
    match raw_spec(ws) {
        Ok(v) => Ok(v),
        Err(_) => Err(AssembleError::InvalidArg),
    }
}

/// The opcode of the instruction whose words are `ws`.
#[verifier::opaque]
pub open spec fn encode_words(ws: Seq<Seq<char>>) -> Result<u16, AssembleError> {
    let m = ws[0];
    if eq_ci(m, seq!['C', 'L', 'S']) {
        fixed_spec(ws, 0x00E0)
    } else if eq_ci(m, seq!['R', 'E', 'T']) {
        fixed_spec(ws, 0x00EE)
    } else if eq_ci(m, seq!['J', 'P']) {
        jp_spec(ws)
    } else if eq_ci(m, seq!['L', 'D']) {
        ld_spec(ws)
    } else if eq_ci(m, seq!['S', 'Y', 'S']) {
        addr_spec_op(ws, 0x0000)
    } else if eq_ci(m, seq!['C', 'A', 'L', 'L']) {
        addr_spec_op(ws, 0x2000)
    } else if eq_ci(m, seq!['S', 'E']) {
        skip_spec(ws, 0x3000, 0x5000)
    } else if eq_ci(m, seq!['S', 'N', 'E']) {
        skip_spec(ws, 0x4000, 0x9000)
    } else if eq_ci(m, seq!['A', 'D', 'D']) {
        add_spec(ws)
    } else if eq_ci(m, seq!['O', 'R']) {
        pair_spec(ws, 0x8001)
    } else if eq_ci(m, seq!['A', 'N', 'D']) {
        pair_spec(ws, 0x8002)
    } else if eq_ci(m, seq!['X', 'O', 'R']) {
        pair_spec(ws, 0x8003)
    } else if eq_ci(m, seq!['S', 'U', 'B']) {
        pair_spec(ws, 0x8005)
    } else if eq_ci(m, seq!['S', 'U', 'B', 'N']) {
        pair_spec(ws, 0x8007)
    } else if eq_ci(m, seq!['S', 'H', 'R']) {
        shift_spec(ws, 0x8006)
    } else if eq_ci(m, seq!['S', 'H', 'L']) {
        shift_spec(ws, 0x800E)
    } else if eq_ci(m, seq!['R', 'N', 'D']) {
        rnd_spec(ws)
    } else if eq_ci(m, seq!['D', 'R', 'W']) {
        drw_spec(ws)
    } else if eq_ci(m, seq!['S', 'K', 'P']) {
        key_spec(ws, 0xE09E)
    } else if eq_ci(m, seq!['S', 'K', 'N', 'P']) {
        key_spec(ws, 0xE0A1)
    } else if has_prefix(m, seq!['0', 'x']) && ws.len() == 1 {
        raw_line_spec(ws)
    } else {
        Err(AssembleError::UnknownOp)
    }
}

/// The opcode of the line `s`.
pub open spec fn encode_line(s: Seq<char>) -> Result<u16, AssembleError> {
    encode_words(line_words(s))
}

/// Parses the operands of an instruction, the words after the mnemonic.
fn parse_operands(tokens: &[Vec<char>]) -> (r: Result<Vec<AsmArgument>, AssembleError>)
    requires
        tokens@.len() >= 1,
    ensures
        match (r, args_spec(views(tokens@).skip(1))) {
            (Ok(v), Ok(w)) => v@ == w && regs_ok(v@),
            (Err(e), Err(_)) => e == AssembleError::InvalidArg,
            _ => false,
        },
{
    let ghost ts = views(tokens@).skip(1);
    let mut out: Vec<AsmArgument> = Vec::new();
    let mut i: usize = 1;
    assert(ts.take(0) =~= seq![]);
    while i < tokens.len()
        invariant
            1 <= i <= tokens@.len(),
            ts == views(tokens@).skip(1),
            args_spec(ts.take(i - 1)) == Ok::<Seq<AsmArgument>, ArgErrorView>(out@),
            regs_ok(out@),
        decreases tokens.len() - i,
    {
        assert(ts.take(i as int).drop_last() =~= ts.take(i - 1));
        assert(ts.take(i as int).last() == tokens@[i as int]@);
        match parse_asm_arg(tokens[i].as_slice()) {
            Ok(a) => {
                out.push(a);
                assert(regs_ok(out@));
            },
            Err(e) => {
                proof {
                    lemma_args_error_prefix(ts, i as int);
                }
                return Err(AssembleError::from(e));
            },
        }
        i += 1;
    }
    assert(ts.take(i - 1) =~= ts);
    Ok(out)
}

/// Checks the operand count and parses the operands.
fn operands(tokens: &[Vec<char>], min: usize, max: usize) -> (r: Result<Vec<AsmArgument>, AssembleError>)
    requires
        tokens@.len() >= 1,
    ensures
        match (r, operands_spec(views(tokens@), min as int, max as int)) {
            (Ok(v), Ok(w)) => v@ == w && regs_ok(v@) && min <= v@.len() <= max,
            (Err(e), Err(f)) => e == f,
            _ => false,
        },
{
    assert(views(tokens@).len() == tokens@.len());
    if tokens.len() - 1 < min {
        Err(AssembleError::MissingArgs)
    } else if tokens.len() - 1 > max {
        Err(AssembleError::ExtraArgs)
    } else {
        let r = parse_operands(tokens);
        proof {
            if r is Ok {
                lemma_args_len(views(tokens@).skip(1));
            }
        }
        r
    }
}

/// Parsed operands are as many as the tokens.
proof fn lemma_args_len(ts: Seq<Seq<char>>)
    requires
        args_spec(ts) is Ok,
    ensures
        args_spec(ts)->Ok_0.len() == ts.len(),
    decreases ts.len(),
{
    if ts.len() > 0 {
        lemma_args_len(ts.drop_last());
    }
}

/// `base` with a 12-bit address operand in the low bits.
fn with_addr(base: u16, a: &AsmArgument) -> (r: Result<u16, AssembleError>)
    requires
        *a is Numeric,
        base as int + 0xFFF <= 0xFFFF,
    ensures
        r == nnn(base as int, *a),
{
    match parse_valid_addr(a) {
        Ok(n) => Ok(base + n),
        Err(e) => Err(AssembleError::from(e)),
    }
}

/// `base` with register `x` in the second nibble and a byte operand in the
/// low byte.
fn with_byte(base: u16, x: u8, kk: &AsmArgument) -> (r: Result<u16, AssembleError>)
    requires
        x < 16,
        *kk is Numeric,
        base as int + 0xFFF <= 0xFFFF,
    ensures
        r == xkk(base as int, AsmArgument::Register(x), *kk),
{
    match parse_valid_byte(kk) {
        Ok(k) => Ok(base + (x as u16) * 256 + k as u16),
        Err(e) => Err(AssembleError::from(e)),
    }
}

/// `base` with register `x` in the second nibble and register `y` in the
/// third.
fn with_xy(base: u16, x: u8, y: u8) -> (r: u16)
    requires
        x < 16,
        y < 16,
        base as int + 0xFF0 <= 0xFFFF,
    ensures
        r == xy(base as int, AsmArgument::Register(x), AsmArgument::Register(y)),
{
    base + (x as u16) * 256 + (y as u16) * 16
}

/// `base` with register `x` in the second nibble.
fn with_x(base: u16, x: u8) -> (r: u16)
    requires
        x < 16,
        base as int + 0xF00 <= 0xFFFF,
    ensures
        r == x_only(base as int, AsmArgument::Register(x)),
{
    base + (x as u16) * 256
}

/// Given the words of a `JP` instruction, return its machine code or an
/// error.
fn assemble_jp(tokens: &[Vec<char>]) -> (r: Result<u16, AssembleError>)
    requires
        tokens@.len() >= 1,
    ensures
        r == jp_spec(views(tokens@)),
{
    let args = match operands(tokens, 1, 2) {
        Ok(a) => a,
        Err(e) => return Err(e),
    };
    if args.len() == 1 {
        if let AsmArgument::Numeric(_) = args[0] {
            with_addr(0x1000, &args[0])
        } else {
            Err(AssembleError::InvalidArg)
        }
    } else {
        match (args[0], args[1]) {
            (AsmArgument::Register(0), AsmArgument::Numeric(_)) => with_addr(0xB000, &args[1]),
            _ => Err(AssembleError::InvalidArg),
        }
    }
}

/// Given the words of a `LD` instruction, return its machine code or an
/// error.
fn assemble_ld(tokens: &[Vec<char>]) -> (r: Result<u16, AssembleError>)
    requires
        tokens@.len() >= 1,
    ensures
        r == ld_spec(views(tokens@)),
{
    let args = match operands(tokens, 2, 2) {
        Ok(a) => a,
        Err(e) => return Err(e),
    };
    let a = &args[0];
    let b = &args[1];
    match (*a, *b) {
        (AsmArgument::Register(x), AsmArgument::Register(y)) => Ok(with_xy(0x8000, x, y)),
        (AsmArgument::Register(x), AsmArgument::Numeric(_)) => with_byte(0x6000, x, b),
        (AsmArgument::IPointer, AsmArgument::Numeric(_)) => with_addr(0xA000, b),
        (AsmArgument::Register(x), AsmArgument::DelayTimer) => Ok(with_x(0xF007, x)),
        (AsmArgument::Register(x), AsmArgument::AnyKey) => Ok(with_x(0xF00A, x)),
        (AsmArgument::DelayTimer, AsmArgument::Register(x)) => Ok(with_x(0xF015, x)),
        (AsmArgument::SoundTimer, AsmArgument::Register(x)) => Ok(with_x(0xF018, x)),
        (AsmArgument::Sprite, AsmArgument::Register(x)) => Ok(with_x(0xF029, x)),
        (AsmArgument::Bcd, AsmArgument::Register(x)) => Ok(with_x(0xF033, x)),
        (AsmArgument::IRange, AsmArgument::Register(x)) => Ok(with_x(0xF055, x)),
        (AsmArgument::Register(x), AsmArgument::IRange) => Ok(with_x(0xF065, x)),
        _ => Err(AssembleError::InvalidArg),
    }
}

/// One address operand, shared by `SYS` and `CALL`.
fn assemble_addr_op(tokens: &[Vec<char>], base: u16) -> (r: Result<u16, AssembleError>)
    requires
        tokens@.len() >= 1,
        base as int + 0xFFF <= 0xFFFF,
    ensures
        r == addr_spec_op(views(tokens@), base as int),
{
    let args = match operands(tokens, 1, 1) {
        Ok(a) => a,
        Err(e) => return Err(e),
    };
    if let AsmArgument::Numeric(_) = args[0] {
        with_addr(base, &args[0])
    } else {
        Err(AssembleError::InvalidArg)
    }
}

/// Given the words of a `SYS` instruction, return its machine code or an
/// error.
fn assemble_sys(tokens: &[Vec<char>]) -> (r: Result<u16, AssembleError>)
    requires
        tokens@.len() >= 1,
    ensures
        r == addr_spec_op(views(tokens@), 0x0000),
{
    assemble_addr_op(tokens, 0x0000)
}

/// Given the words of a `CALL` instruction, return its machine code or an
/// error.
fn assemble_call(tokens: &[Vec<char>]) -> (r: Result<u16, AssembleError>)
    requires
        tokens@.len() >= 1,
    ensures
        r == addr_spec_op(views(tokens@), 0x2000),
{
    assemble_addr_op(tokens, 0x2000)
}

/// A register and a byte or a second register, shared by `SE` and `SNE`.
fn assemble_skip_op(tokens: &[Vec<char>], byte_base: u16, reg_base: u16) -> (r: Result<u16, AssembleError>)
    requires
        tokens@.len() >= 1,
        byte_base as int + 0xFFF <= 0xFFFF,
        reg_base as int + 0xFF0 <= 0xFFFF,
    ensures
        r == skip_spec(views(tokens@), byte_base as int, reg_base as int),
{
    let args = match operands(tokens, 2, 2) {
        Ok(a) => a,
        Err(e) => return Err(e),
    };
    let a = &args[0];
    let b = &args[1];
    match (*a, *b) {
        (AsmArgument::Register(x), AsmArgument::Numeric(_)) => with_byte(byte_base, x, b),
        (AsmArgument::Register(x), AsmArgument::Register(y)) => Ok(with_xy(reg_base, x, y)),
        _ => Err(AssembleError::InvalidArg),
    }
}

/// Given the words of a `SE` instruction, return its machine code or an
/// error.
fn assemble_se(tokens: &[Vec<char>]) -> (r: Result<u16, AssembleError>)
    requires
        tokens@.len() >= 1,
    ensures
        r == skip_spec(views(tokens@), 0x3000, 0x5000),
{
    assemble_skip_op(tokens, 0x3000, 0x5000)
}

/// Given the words of a `SNE` instruction, return its machine code or an
/// error.
fn assemble_sne(tokens: &[Vec<char>]) -> (r: Result<u16, AssembleError>)
    requires
        tokens@.len() >= 1,
    ensures
        r == skip_spec(views(tokens@), 0x4000, 0x9000),
{
    assemble_skip_op(tokens, 0x4000, 0x9000)
}

/// Given the words of an `ADD` instruction, return its machine code or an
/// error.
fn assemble_add(tokens: &[Vec<char>]) -> (r: Result<u16, AssembleError>)
    requires
        tokens@.len() >= 1,
    ensures
        r == add_spec(views(tokens@)),
{
    let args = match operands(tokens, 2, 2) {
        Ok(a) => a,
        Err(e) => return Err(e),
    };
    let a = &args[0];
    let b = &args[1];
    match (*a, *b) {
        (AsmArgument::Register(x), AsmArgument::Numeric(_)) => with_byte(0x7000, x, b),
        (AsmArgument::Register(x), AsmArgument::Register(y)) => Ok(with_xy(0x8004, x, y)),
        (AsmArgument::IPointer, AsmArgument::Register(x)) => Ok(with_x(0xF01E, x)),
        _ => Err(AssembleError::InvalidArg),
    }
}

/// Two registers, shared by the logic and arithmetic operations.
fn assemble_pair_op(tokens: &[Vec<char>], base: u16) -> (r: Result<u16, AssembleError>)
    requires
        tokens@.len() >= 1,
        base as int + 0xFF0 <= 0xFFFF,
    ensures
        r == pair_spec(views(tokens@), base as int),
{
    let args = match operands(tokens, 2, 2) {
        Ok(a) => a,
        Err(e) => return Err(e),
    };
    let a = &args[0];
    let b = &args[1];
    match (*a, *b) {
        (AsmArgument::Register(x), AsmArgument::Register(y)) => Ok(with_xy(base, x, y)),
        _ => Err(AssembleError::InvalidArg),
    }
}

/// Given the words of an `OR` instruction, return its machine code or an
/// error.
fn assemble_or(tokens: &[Vec<char>]) -> (r: Result<u16, AssembleError>)
    requires
        tokens@.len() >= 1,
    ensures
        r == pair_spec(views(tokens@), 0x8001),
{
    assemble_pair_op(tokens, 0x8001)
}

/// Given the words of an `AND` instruction, return its machine code or an
/// error.
fn assemble_and(tokens: &[Vec<char>]) -> (r: Result<u16, AssembleError>)
    requires
        tokens@.len() >= 1,
    ensures
        r == pair_spec(views(tokens@), 0x8002),
{
    assemble_pair_op(tokens, 0x8002)
}

/// Given the words of a `XOR` instruction, return its machine code or an
/// error.
fn assemble_xor(tokens: &[Vec<char>]) -> (r: Result<u16, AssembleError>)
    requires
        tokens@.len() >= 1,
    ensures
        r == pair_spec(views(tokens@), 0x8003),
{
    assemble_pair_op(tokens, 0x8003)
}

/// Given the words of a `SUB` instruction, return its machine code or an
/// error.
fn assemble_sub(tokens: &[Vec<char>]) -> (r: Result<u16, AssembleError>)
    requires
        tokens@.len() >= 1,
    ensures
        r == pair_spec(views(tokens@), 0x8005),
{
    assemble_pair_op(tokens, 0x8005)
}

/// Given the words of a `SUBN` instruction, return its machine code or an
/// error.
fn assemble_subn(tokens: &[Vec<char>]) -> (r: Result<u16, AssembleError>)
    requires
        tokens@.len() >= 1,
    ensures
        r == pair_spec(views(tokens@), 0x8007),
{
    assemble_pair_op(tokens, 0x8007)
}

/// One register and an optional second one, shared by `SHR` and `SHL`.
fn assemble_shift_op(tokens: &[Vec<char>], base: u16) -> (r: Result<u16, AssembleError>)
    requires
        tokens@.len() >= 1,
        base as int + 0xFF0 <= 0xFFFF,
    ensures
        r == shift_spec(views(tokens@), base as int),
{
    let args = match operands(tokens, 1, 2) {
        Ok(a) => a,
        Err(e) => return Err(e),
    };
    if args.len() == 1 {
        if let AsmArgument::Register(x) = args[0] {
            Ok(with_x(base, x))
        } else {
            Err(AssembleError::InvalidArg)
        }
    } else {
        let a = &args[0];
        let b = &args[1];
        match (*a, *b) {
            (AsmArgument::Register(x), AsmArgument::Register(y)) => Ok(with_xy(base, x, y)),
            _ => Err(AssembleError::InvalidArg),
        }
    }
}

/// Given the words of a `SHR` instruction, return its machine code or an
/// error.
fn assemble_shr(tokens: &[Vec<char>]) -> (r: Result<u16, AssembleError>)
    requires
        tokens@.len() >= 1,
    ensures
        r == shift_spec(views(tokens@), 0x8006),
{
    assemble_shift_op(tokens, 0x8006)
}

/// Given the words of a `SHL` instruction, return its machine code or an
/// error.
fn assemble_shl(tokens: &[Vec<char>]) -> (r: Result<u16, AssembleError>)
    requires
        tokens@.len() >= 1,
    ensures
        r == shift_spec(views(tokens@), 0x800E),
{
    assemble_shift_op(tokens, 0x800E)
}

/// Given the words of a `RND` instruction, return its machine code or an
/// error.
fn assemble_rnd(tokens: &[Vec<char>]) -> (r: Result<u16, AssembleError>)
    requires
        tokens@.len() >= 1,
    ensures
        r == rnd_spec(views(tokens@)),
{
    let args = match operands(tokens, 2, 2) {
        Ok(a) => a,
        Err(e) => return Err(e),
    };
    let a = &args[0];
    let b = &args[1];
    match (*a, *b) {
        (AsmArgument::Register(x), AsmArgument::Numeric(_)) => with_byte(0xC000, x, b),
        _ => Err(AssembleError::InvalidArg),
    }
}

/// Given the words of a `DRW` instruction, return its machine code or an
/// error.
fn assemble_drw(tokens: &[Vec<char>]) -> (r: Result<u16, AssembleError>)
    requires
        tokens@.len() >= 1,
    ensures
        r == drw_spec(views(tokens@)),
{
    let args = match operands(tokens, 3, 3) {
        Ok(a) => a,
        Err(e) => return Err(e),
    };
    let a = &args[0];
    let b = &args[1];
    let c = &args[2];
    match (*a, *b, *c) {
        (AsmArgument::Register(x), AsmArgument::Register(y), AsmArgument::Numeric(_)) => {
            match parse_valid_nibble(c) {
                Ok(n) => Ok(with_xy(0xD000, x, y) + n as u16),
                Err(e) => Err(AssembleError::from(e)),
            }
        },
        _ => Err(AssembleError::InvalidArg),
    }
}

/// One register, shared by `SKP` and `SKNP`.
fn assemble_key_op(tokens: &[Vec<char>], base: u16) -> (r: Result<u16, AssembleError>)
    requires
        tokens@.len() >= 1,
        base as int + 0xF00 <= 0xFFFF,
    ensures
        r == key_spec(views(tokens@), base as int),
{
    let args = match operands(tokens, 1, 1) {
        Ok(a) => a,
        Err(e) => return Err(e),
    };
    if let AsmArgument::Register(x) = args[0] {
        Ok(with_x(base, x))
    } else {
        Err(AssembleError::InvalidArg)
    }
}

/// Given the words of a `SKP` instruction, return its machine code or an
/// error.
fn assemble_skp(tokens: &[Vec<char>]) -> (r: Result<u16, AssembleError>)
    requires
        tokens@.len() >= 1,
    ensures
        r == key_spec(views(tokens@), 0xE09E),
{
    assemble_key_op(tokens, 0xE09E)
}

/// Given the words of a `SKNP` instruction, return its machine code or an
/// error.
fn assemble_sknp(tokens: &[Vec<char>]) -> (r: Result<u16, AssembleError>)
    requires
        tokens@.len() >= 1,
    ensures
        r == key_spec(views(tokens@), 0xE0A1),
{
    assemble_key_op(tokens, 0xE0A1)
}

/// The words of a line: its tokens, each without one trailing comma.
pub fn words_of(line: &[char]) -> (r: Vec<Vec<char>>)
    ensures
        views(r@) == line_words(line@),
{
    let toks = split_tokens(line);
    let ghost tv = views(toks@);
    let mut out: Vec<Vec<char>> = Vec::new();
    let mut i: usize = 0;
    while i < toks.len()
        invariant
            i <= toks@.len(),
            tv == views(toks@),
            tv == tokens(line@),
            views(out@) == line_words(line@).take(i as int),
        decreases toks.len() - i,
    {
        let ghost prev = views(out@);
        let w = strip_comma_exec(toks[i].as_slice());
        out.push(w);
        assert(views(out@) =~= prev.push(strip_comma(tv[i as int])));
        i += 1;
        assert(views(out@) =~= line_words(line@).take(i as int));
    }
    assert(line_words(line@).take(i as int) =~= line_words(line@));
    out
}

/// Encodes an instruction given as its words.
pub fn assemble_words(ws: &[Vec<char>]) -> (r: Result<u16, AssembleError>)
    requires
        ws@.len() >= 1,
    ensures
        r == encode_words(views(ws@)),
{
    proof {
        reveal(encode_words);
    }
    let m = ws[0].as_slice();
    let cls = ['C', 'L', 'S'];
    let ret = ['R', 'E', 'T'];
    let jp = ['J', 'P'];
    let ld = ['L', 'D'];
    let sys = ['S', 'Y', 'S'];
    let call = ['C', 'A', 'L', 'L'];
    let se = ['S', 'E'];
    let sne = ['S', 'N', 'E'];
    let add = ['A', 'D', 'D'];
    let or = ['O', 'R'];
    let and = ['A', 'N', 'D'];
    let xor = ['X', 'O', 'R'];
    let sub = ['S', 'U', 'B'];
    let subn = ['S', 'U', 'B', 'N'];
    let shr = ['S', 'H', 'R'];
    let shl = ['S', 'H', 'L'];
    let rnd = ['R', 'N', 'D'];
    let drw = ['D', 'R', 'W'];
    let skp = ['S', 'K', 'P'];
    let sknp = ['S', 'K', 'N', 'P'];
    let hex = ['0', 'x'];
    assert(cls@ == seq!['C', 'L', 'S']);
    assert(ret@ == seq!['R', 'E', 'T']);
    assert(jp@ == seq!['J', 'P']);
    assert(ld@ == seq!['L', 'D']);
    assert(sys@ == seq!['S', 'Y', 'S']);
    assert(call@ == seq!['C', 'A', 'L', 'L']);
    assert(se@ == seq!['S', 'E']);
    assert(sne@ == seq!['S', 'N', 'E']);
    assert(add@ == seq!['A', 'D', 'D']);
    assert(or@ == seq!['O', 'R']);
    assert(and@ == seq!['A', 'N', 'D']);
    assert(xor@ == seq!['X', 'O', 'R']);
    assert(sub@ == seq!['S', 'U', 'B']);
    assert(subn@ == seq!['S', 'U', 'B', 'N']);
    assert(shr@ == seq!['S', 'H', 'R']);
    assert(shl@ == seq!['S', 'H', 'L']);
    assert(rnd@ == seq!['R', 'N', 'D']);
    assert(drw@ == seq!['D', 'R', 'W']);
    assert(skp@ == seq!['S', 'K', 'P']);
    assert(sknp@ == seq!['S', 'K', 'N', 'P']);
    assert(hex@ == seq!['0', 'x']);
    if same_ci(m, &cls) {
        if ws.len() > 1 { Err(AssembleError::ExtraArgs) } else { Ok(0x00E0) }
    } else if same_ci(m, &ret) {
        if ws.len() > 1 { Err(AssembleError::ExtraArgs) } else { Ok(0x00EE) }
    } else if same_ci(m, &jp) {
        assemble_jp(ws)
    } else if same_ci(m, &ld) {
        assemble_ld(ws)
    } else if same_ci(m, &sys) {
        assemble_sys(ws)
    } else if same_ci(m, &call) {
        assemble_call(ws)
    } else if same_ci(m, &se) {
        assemble_se(ws)
    } else if same_ci(m, &sne) {
        assemble_sne(ws)
    } else if same_ci(m, &add) {
        assemble_add(ws)
    } else if same_ci(m, &or) {
        assemble_or(ws)
    } else if same_ci(m, &and) {
        assemble_and(ws)
    } else if same_ci(m, &xor) {
        assemble_xor(ws)
    } else if same_ci(m, &sub) {
        assemble_sub(ws)
    } else if same_ci(m, &subn) {
        assemble_subn(ws)
    } else if same_ci(m, &shr) {
        assemble_shr(ws)
    } else if same_ci(m, &shl) {
        assemble_shl(ws)
    } else if same_ci(m, &rnd) {
        assemble_rnd(ws)
    } else if same_ci(m, &drw) {
        assemble_drw(ws)
    } else if same_ci(m, &skp) {
        assemble_skp(ws)
    } else if same_ci(m, &sknp) {
        assemble_sknp(ws)
    } else if starts_with(m, &hex) && ws.len() == 1 {
        match parse_raw_tokens(ws) {
            Ok(v) => Ok(v),
            Err(e) => Err(AssembleError::from(e)),
        }
    } else {
        Err(AssembleError::UnknownOp)
    }
}

/// For a line of assembly, emit its machine code. The line must hold at
/// least one token.
pub fn assemble_instruction(inst: &str) -> (r: Result<u16, AssembleError>)
    requires
        tokens(inst@).len() > 0,
    ensures
        r == encode_line(inst@),
{
    let line = chars_of(inst);
    let ws = words_of(line.as_slice());
    assert(views(ws@).len() == ws@.len());
    assert(line_words(inst@).len() == tokens(inst@).len());
    assemble_words(ws.as_slice())
}

} // verus!
