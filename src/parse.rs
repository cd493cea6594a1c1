//! The operand parser: one textual operand token to a typed operand.
use vstd::prelude::*;
use crate::text::{
    chars_of, dec_str, digit_value, digit_value_exec, eq_ci, has_prefix,
    number_spec, parse_number, push_all, push_dec, same_ci, slice_range, starts_with, string_of, views,
    NumberErrorKind,
};

verus! {

/// An operand of an instruction. Whether it makes sense for a given
/// operation, and whether a number is in range for its use, is decided by
/// the encoder.
#[derive(Clone, Copy, Debug, PartialEq, Eq, Structural)]
pub enum AsmArgument {
    /// A literal number; the largest the encoder accepts is a 12-bit address.
    Numeric(u16),
    /// A general-purpose register `V0` to `VF`.
    Register(u8),
    /// `K`: wait for any key.
    AnyKey,
    /// `I`: the index register.
    IPointer,
    /// `[I]`: the memory range starting at the index register.
    IRange,
    /// `DT`: the delay timer.
    DelayTimer,
    /// `ST`: the sound timer.
    SoundTimer,
    /// `F`: the location of a font sprite.
    Sprite,
    /// `B`: binary-coded decimal at the index register.
    Bcd,
}

/// A number token that could not be read, with the token.
#[derive(Debug)]
pub struct NumberParsingError {
    pub kind: NumberErrorKind,
    pub arg: String,
}

/// Why an operand is not acceptable; each variant carries the offending text.
#[derive(Debug)]
pub enum AsmArgParseError {
    InvalidRegister(String),
    InvalidAddress(String),
    InvalidByte(String),
    InvalidNibble(String),
    InvalidRaw(String),
    NotANumber(NumberParsingError),
}

/// The mathematical value of an [`AsmArgParseError`].
pub enum ArgErrorView {
    InvalidRegister(Seq<char>),
    InvalidAddress(Seq<char>),
    InvalidByte(Seq<char>),
    InvalidNibble(Seq<char>),
    InvalidRaw(Seq<char>),
    NotANumber(NumberErrorKind, Seq<char>),
}

impl View for AsmArgParseError {
    type V = ArgErrorView;

    open spec fn view(&self) -> ArgErrorView {
        match self {
            AsmArgParseError::InvalidRegister(s) => ArgErrorView::InvalidRegister(s@),
            AsmArgParseError::InvalidAddress(s) => ArgErrorView::InvalidAddress(s@),
            AsmArgParseError::InvalidByte(s) => ArgErrorView::InvalidByte(s@),
            AsmArgParseError::InvalidNibble(s) => ArgErrorView::InvalidNibble(s@),
            AsmArgParseError::InvalidRaw(s) => ArgErrorView::InvalidRaw(s@),
            AsmArgParseError::NotANumber(n) => ArgErrorView::NotANumber(n.kind, n.arg@),
        }
    }
}

/// A parse result with its error replaced by the error's view.
pub open spec fn result_view<T>(r: Result<T, AsmArgParseError>) -> Result<T, ArgErrorView> {
    match r {
        Ok(v) => Ok(v),
        Err(e) => Err(e@),
    }
}

/// The operand that a named token (`K`, `I`, `[I]`, `DT`, `ST`, `F`, `B`, in
/// any case) stands for.
pub open spec fn named_arg(t: Seq<char>) -> Option<AsmArgument> {
    if eq_ci(t, seq!['K']) {
        Some(AsmArgument::AnyKey)
    } else if eq_ci(t, seq!['I']) {
        Some(AsmArgument::IPointer)
    } else if eq_ci(t, seq!['[', 'I', ']']) {
        Some(AsmArgument::IRange)
    } else if eq_ci(t, seq!['D', 'T']) {
        Some(AsmArgument::DelayTimer)
    } else if eq_ci(t, seq!['S', 'T']) {
        Some(AsmArgument::SoundTimer)
    } else if eq_ci(t, seq!['F']) {
        Some(AsmArgument::Sprite)
    } else if eq_ci(t, seq!['B']) {
        Some(AsmArgument::Bcd)
    } else {
        None
    }
}

/// `digits` read in base `radix` as a 16-bit number; an error names `token`.
pub open spec fn numeric_spec(digits: Seq<char>, radix: nat, token: Seq<char>) -> Result<AsmArgument, ArgErrorView> {
    match number_spec(digits, radix, 0xFFFF) {
        Ok(v) => Ok(AsmArgument::Numeric(v as u16)),
        Err(k) => Err(ArgErrorView::NotANumber(k, token)),
    }
}

/// A register (`V` or `v` and one hexadecimal digit) or a number: `0x`
/// hexadecimal, `0b` binary, otherwise decimal.
pub open spec fn numeric_arg_spec(t: Seq<char>) -> Result<AsmArgument, ArgErrorView> {
    if t.len() > 0 && (t[0] == 'V' || t[0] == 'v') {
        if t.len() == 2 && digit_value(t[1], 16) >= 0 {
            Ok(AsmArgument::Register(digit_value(t[1], 16) as u8))
        } else {
            Err(ArgErrorView::InvalidRegister(t))
        }
    } else if has_prefix(t, seq!['0', 'x']) {
        numeric_spec(t.skip(2), 16, t)
    } else if has_prefix(t, seq!['0', 'b']) {
        numeric_spec(t.skip(2), 2, t)
    } else {
        numeric_spec(t, 10, t)
    }
}

/// What the operand token `t` parses to.
pub open spec fn arg_spec(t: Seq<char>) -> Result<AsmArgument, ArgErrorView> {
    match named_arg(t) {
        Some(a) => Ok(a),
        None => numeric_arg_spec(t),
    }
}

/// The operands that the tokens `ts` parse to, or the error of the first
/// token that does not parse.
pub open spec fn args_spec(ts: Seq<Seq<char>>) -> Result<Seq<AsmArgument>, ArgErrorView>
    decreases ts.len(),
{
    if ts.len() == 0 {
        Ok(seq![])
    } else {
        match args_spec(ts.drop_last()) {
            Err(e) => Err(e),
            Ok(v) => match arg_spec(ts.last()) {
                Ok(a) => Ok(v.push(a)),
                Err(e) => Err(e),
            },
        }
    }
}

/// An error in a prefix of the tokens is the error of the whole.
pub proof fn lemma_args_error_prefix(ts: Seq<Seq<char>>, k: int)
    requires
        0 <= k <= ts.len(),
        args_spec(ts.take(k)) is Err,
    ensures
        args_spec(ts) == args_spec(ts.take(k)),
    decreases ts.len() - k,
{
    if k < ts.len() {
        assert(ts.take(k + 1).drop_last() =~= ts.take(k));
        lemma_args_error_prefix(ts, k + 1);
    } else {
        assert(ts.take(k) =~= ts);
    }
}

/// The tokens of a slice of string slices.
pub open spec fn str_views(args: Seq<&str>) -> Seq<Seq<char>> {
    args.map_values(|a: &str| a@)
}

/// Given a collection of string slices, return the parsed arguments, or the
/// error of the first one that is invalid.
pub fn parse_asm_args(args: &[&str]) -> (r: Result<Vec<AsmArgument>, AsmArgParseError>)
    ensures
        match (r, args_spec(str_views(args@))) {
            (Ok(v), Ok(w)) => v@ == w,
            (Err(e), Err(f)) => e@ == f,
            _ => false,
        },
{
    let ghost ts = str_views(args@);
    let mut out: Vec<AsmArgument> = Vec::with_capacity(args.len());
    let mut i: usize = 0;
    assert(ts.take(0) =~= seq![]);
    while i < args.len()
        invariant
            i <= args@.len(),
            ts == str_views(args@),
            args_spec(ts.take(i as int)) == Ok::<Seq<AsmArgument>, ArgErrorView>(out@),
        decreases args.len() - i,
    {
        assert(ts.take(i + 1).drop_last() =~= ts.take(i as int));
        let t = chars_of(args[i]);
        match parse_asm_arg(t.as_slice()) {
            Ok(a) => out.push(a),
            Err(e) => {
                proof {
                    lemma_args_error_prefix(ts, i + 1);
                }
                return Err(e);
            },
        }
        i += 1;
    }
    assert(ts.take(i as int) =~= ts);
    Ok(out)
}

/// Parses the token `arg` into an operand, or says why it is invalid.
pub fn parse_asm_arg(arg: &[char]) -> (r: Result<AsmArgument, AsmArgParseError>)
    ensures
        result_view(r) == arg_spec(arg@),
{
    let k = ['K'];
    let i = ['I'];
    let ir = ['[', 'I', ']'];
    let dt = ['D', 'T'];
    let st = ['S', 'T'];
    let f = ['F'];
    let b = ['B'];
    assert(k@ == seq!['K']);
    assert(i@ == seq!['I']);
    assert(ir@ == seq!['[', 'I', ']']);
    assert(dt@ == seq!['D', 'T']);
    assert(st@ == seq!['S', 'T']);
    assert(f@ == seq!['F']);
    assert(b@ == seq!['B']);
    if same_ci(arg, &k) {
        Ok(AsmArgument::AnyKey)
    } else if same_ci(arg, &i) {
        Ok(AsmArgument::IPointer)
    } else if same_ci(arg, &ir) {
        Ok(AsmArgument::IRange)
    } else if same_ci(arg, &dt) {
        Ok(AsmArgument::DelayTimer)
    } else if same_ci(arg, &st) {
        Ok(AsmArgument::SoundTimer)
    } else if same_ci(arg, &f) {
        Ok(AsmArgument::Sprite)
    } else if same_ci(arg, &b) {
        Ok(AsmArgument::Bcd)
    } else {
        parse_numeric_asm_arg(arg)
    }
}

/// Reads `digits` in base `radix` as a 16-bit number; an error names `token`.
fn parse_in_radix(digits: &[char], radix: u32, token: &[char]) -> (r: Result<AsmArgument, AsmArgParseError>)
    requires
        radix == 2 || radix == 10 || radix == 16,
    ensures
        result_view(r) == numeric_spec(digits@, radix as nat, token@),
{
    match parse_number(digits, radix, 0xFFFF) {
        Ok(v) => Ok(AsmArgument::Numeric(v as u16)),
        Err(kind) => Err(AsmArgParseError::NotANumber(NumberParsingError { kind, arg: string_of(token) })),
    }
}

/// Parses a token that names no special operand into a register or a number.
fn parse_numeric_asm_arg(arg: &[char]) -> (r: Result<AsmArgument, AsmArgParseError>)
    ensures
        result_view(r) == numeric_arg_spec(arg@),
{
    let hex = ['0', 'x'];
    let bin = ['0', 'b'];
    assert(hex@ == seq!['0', 'x']);
    assert(bin@ == seq!['0', 'b']);
    if arg.len() > 0 && (arg[0] == 'V' || arg[0] == 'v') {
        if arg.len() == 2 {
            let d = digit_value_exec(arg[1], 16);
            if d >= 0 {
                return Ok(AsmArgument::Register(d as u8));
            }
        }
        Err(AsmArgParseError::InvalidRegister(string_of(arg)))
    } else if starts_with(arg, &hex) {
        let digits = slice_range(arg, 2, arg.len());
        assert(digits@ =~= arg@.skip(2));
        parse_in_radix(digits.as_slice(), 16, arg)
    } else if starts_with(arg, &bin) {
        let digits = slice_range(arg, 2, arg.len());
        assert(digits@ =~= arg@.skip(2));
        parse_in_radix(digits.as_slice(), 2, arg)
    } else {
        parse_in_radix(arg, 10, arg)
    }
}

/// The text of a number in decimal, as an error payload.
fn dec_string(n: u16) -> (r: String)
    ensures
        r@ == dec_str(n as nat),
{
    let mut v: Vec<char> = Vec::new();
    push_dec(&mut v, n as u128);
    assert(v@ =~= dec_str(n as nat));
    string_of(v.as_slice())
}

/// A numeric operand as a 12-bit address.
pub open spec fn addr_spec(arg: AsmArgument) -> Result<u16, ArgErrorView> {
    if arg->Numeric_0 <= 0xFFF {
        Ok(arg->Numeric_0)
    } else {
        Err(ArgErrorView::InvalidAddress(dec_str(arg->Numeric_0 as nat)))
    }
}

/// A numeric operand as a byte.
pub open spec fn byte_spec(arg: AsmArgument) -> Result<u8, ArgErrorView> {
    if arg->Numeric_0 <= 0xFF {
        Ok(arg->Numeric_0 as u8)
    } else {
        Err(ArgErrorView::InvalidByte(dec_str(arg->Numeric_0 as nat)))
    }
}

/// A numeric operand as a nibble.
pub open spec fn nibble_spec(arg: AsmArgument) -> Result<u8, ArgErrorView> {
    if arg->Numeric_0 <= 0xF {
        Ok(arg->Numeric_0 as u8)
    } else {
        Err(ArgErrorView::InvalidNibble(dec_str(arg->Numeric_0 as nat)))
    }
}

/// Given a numeric operand, ensure that it is a valid 12-bit address and
/// pass back the value.
pub fn parse_valid_addr(arg: &AsmArgument) -> (r: Result<u16, AsmArgParseError>)
    requires
        arg is Numeric,
    ensures
        result_view(r) == addr_spec(*arg),
{
    // the operand is numeric, so the `else` branch is never taken
    let AsmArgument::Numeric(addr) = *arg else { return Ok(0) };
    if addr <= 0xFFF {
        Ok(addr)
    } else {
        Err(AsmArgParseError::InvalidAddress(dec_string(addr)))
    }
}

/// Given a numeric operand, ensure that it is a valid byte and pass back the
/// value.
pub fn parse_valid_byte(arg: &AsmArgument) -> (r: Result<u8, AsmArgParseError>)
    requires
        arg is Numeric,
    ensures
        result_view(r) == byte_spec(*arg),
{
    // the operand is numeric, so the `else` branch is never taken
    let AsmArgument::Numeric(byte) = *arg else { return Ok(0) };
    if byte <= 0xFF {
        Ok(byte as u8)
    } else {
        Err(AsmArgParseError::InvalidByte(dec_string(byte)))
    }
}

/// Given a numeric operand, ensure that it is a valid nibble and pass back
/// the value.
pub fn parse_valid_nibble(arg: &AsmArgument) -> (r: Result<u8, AsmArgParseError>)
    requires
        arg is Numeric,
    ensures
        result_view(r) == nibble_spec(*arg),
{
    // the operand is numeric, so the `else` branch is never taken
    let AsmArgument::Numeric(nibble) = *arg else { return Ok(0) };
    if nibble <= 0xF {
        Ok(nibble as u8)
    } else {
        Err(AsmArgParseError::InvalidNibble(dec_string(nibble)))
    }
}

/// The tokens `ts` joined by single spaces.
pub open spec fn join_spaces(ts: Seq<Seq<char>>) -> Seq<char>
    decreases ts.len(),
{
    if ts.len() == 0 {
        seq![]
    } else if ts.len() == 1 {
        ts[0]
    } else {
        join_spaces(ts.drop_last()) + seq![' '] + ts.last()
    }
}

/// Joins `ts` with single spaces.
pub fn join_tokens(ts: &[Vec<char>]) -> (r: Vec<char>)
    ensures
        r@ == join_spaces(views(ts@)),
{
    let ghost vs = views(ts@);
    let mut out: Vec<char> = Vec::new();
    let mut i: usize = 0;
    assert(vs.take(0) =~= seq![]);
    while i < ts.len()
        invariant
            i <= ts@.len(),
            vs == views(ts@),
            out@ == join_spaces(vs.take(i as int)),
        decreases ts.len() - i,
    {
        assert(vs.take(i + 1).drop_last() =~= vs.take(i as int));
        if i > 0 {
            out.push(' ');
        }
        push_all(&mut out, ts[i].as_slice());
        proof {
            if i == 0 {
                assert(out@ =~= vs.take(1)[0]);
            } else {
                assert(out@ =~= join_spaces(vs.take(i as int)) + seq![' '] + vs.take(i + 1).last());
            }
        }
        i += 1;
    }
    assert(vs.take(i as int) =~= vs);
    out
}

/// What a raw literal line, given as its tokens, stands for: exactly one
/// `0x`-prefixed 16-bit hexadecimal token.
pub open spec fn raw_spec(ts: Seq<Seq<char>>) -> Result<u16, ArgErrorView> {
    if ts.len() != 1 || !has_prefix(ts[0], seq!['0', 'x']) {
        Err(ArgErrorView::InvalidRaw(join_spaces(ts)))
    } else {
        match number_spec(ts[0].skip(2), 16, 0xFFFF) {
            Ok(v) => Ok(v as u16),
            Err(k) => Err(ArgErrorView::NotANumber(k, ts[0])),
        }
    }
}

/// Reads the tokens of a raw literal line as its 16-bit value.
pub fn parse_raw_tokens(ts: &[Vec<char>]) -> (r: Result<u16, AsmArgParseError>)
    ensures
        result_view(r) == raw_spec(views(ts@)),
{
    let hex = ['0', 'x'];
    assert(hex@ == seq!['0', 'x']);
    if ts.len() != 1 || !starts_with(ts[0].as_slice(), &hex) {
        let j = join_tokens(ts);
        return Err(AsmArgParseError::InvalidRaw(string_of(j.as_slice())));
    }
    let t = ts[0].as_slice();
    let digits = slice_range(t, 2, t.len());
    assert(digits@ =~= t@.skip(2));
    match parse_number(digits.as_slice(), 16, 0xFFFF) {
        Ok(v) => Ok(v as u16),
        Err(kind) => Err(AsmArgParseError::NotANumber(NumberParsingError { kind, arg: string_of(t) })),
    }
}

/// Given the tokens of a raw literal line, return its 16-bit value or an
/// error.
pub fn parse_raw(tokens: &[&str]) -> (r: Result<u16, AsmArgParseError>)
    ensures
        result_view(r) == raw_spec(str_views(tokens@)),
{
    let mut ts: Vec<Vec<char>> = Vec::new();
    let mut i: usize = 0;
    while i < tokens.len()
        invariant
            i <= tokens@.len(),
            views(ts@) == str_views(tokens@).take(i as int),
        decreases tokens.len() - i,
    {
        let ghost prev = views(ts@);
        let t = chars_of(tokens[i]);
        ts.push(t);
        assert(views(ts@) =~= prev.push(tokens@[i as int]@));
        i += 1;
        assert(views(ts@) =~= str_views(tokens@).take(i as int));
    }
    assert(str_views(tokens@).take(i as int) =~= str_views(tokens@));
    parse_raw_tokens(ts.as_slice())
}

} // verus!
