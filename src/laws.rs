//! Properties of the operand parser, the encoder and the offset pass that
//! hold for all inputs.
use vstd::prelude::*;
use crate::assemble::{encode_words, operands_spec, AssembleError};
use crate::parse::{arg_spec, args_spec, named_arg, ArgErrorView, AsmArgument};
use crate::preprocess::{offset_lines, offset_pass, resolve_offsets, run_len, lemma_run_len_bound};
use crate::text::{
    dec_str, digit_value, digits_value, eq_ci, fold_case, lower_digits, radix_str, upper_digits,
};

verus! {

/// A token that starts with `V` or `v` is never one of the named operands.
proof fn lemma_v_not_named(t: Seq<char>)
    requires
        t.len() > 0,
        t[0] == 'V' || t[0] == 'v',
    ensures
        named_arg(t) is None,
{
    assert(fold_case(t[0]) == 'V' as u32);
    assert(!eq_ci(t, seq!['K'])) by { assert(fold_case(seq!['K'][0]) != fold_case(t[0])); }
    assert(!eq_ci(t, seq!['I'])) by { assert(fold_case(seq!['I'][0]) != fold_case(t[0])); }
    assert(!eq_ci(t, seq!['[', 'I', ']'])) by { assert(fold_case(seq!['[', 'I', ']'][0]) != fold_case(t[0])); }
    assert(!eq_ci(t, seq!['D', 'T'])) by { assert(fold_case(seq!['D', 'T'][0]) != fold_case(t[0])); }
    assert(!eq_ci(t, seq!['S', 'T'])) by { assert(fold_case(seq!['S', 'T'][0]) != fold_case(t[0])); }
    assert(!eq_ci(t, seq!['F'])) by { assert(fold_case(seq!['F'][0]) != fold_case(t[0])); }
    assert(!eq_ci(t, seq!['B'])) by { assert(fold_case(seq!['B'][0]) != fold_case(t[0])); }
}

/// The digit characters of base 16 have their values.
proof fn lemma_hex_digit(n: int)
    requires
        0 <= n < 16,
    ensures
        digit_value(lower_digits()[n], 16) == n,
        digit_value(upper_digits()[n], 16) == n,
{
    if n < 10 {
        assert(lower_digits()[n] as int == '0' as int + n);
        assert(upper_digits()[n] as int == '0' as int + n);
    } else {
        assert(lower_digits()[n] as int == 'a' as int + n - 10);
        assert(upper_digits()[n] as int == 'A' as int + n - 10);
    }
}

/// Register tokens: `V` or `v` followed by one hexadecimal digit of either
/// case parses to the register of that number; any other token that starts
/// with `V` or `v` (such as `VG`, `V` or `V12`) is an invalid register.
pub proof fn register_tokens(t: Seq<char>)
    requires
        t.len() > 0,
        t[0] == 'V' || t[0] == 'v',
    ensures
        forall|n: int| 0 <= n < 16 && t.len() == 2 && (t[1] == #[trigger] lower_digits()[n] || t[1] == upper_digits()[n])
            ==> arg_spec(t) == Ok::<AsmArgument, ArgErrorView>(AsmArgument::Register(n as u8)),
        !(t.len() == 2 && digit_value(t[1], 16) >= 0) ==> arg_spec(t) == Err::<AsmArgument, ArgErrorView>(ArgErrorView::InvalidRegister(t)),
{
    lemma_v_not_named(t);
    assert forall|n: int| 0 <= n < 16 && t.len() == 2 && (t[1] == #[trigger] lower_digits()[n] || t[1] == upper_digits()[n])
        implies arg_spec(t) == Ok::<AsmArgument, ArgErrorView>(AsmArgument::Register(n as u8)) by {
        lemma_hex_digit(n);
    }
}

/// The mnemonics whose forms take a byte operand.
pub open spec fn byte_mnemonic(m: Seq<char>) -> bool {
    eq_ci(m, seq!['L', 'D']) || eq_ci(m, seq!['S', 'E']) || eq_ci(m, seq!['S', 'N', 'E'])
        || eq_ci(m, seq!['A', 'D', 'D']) || eq_ci(m, seq!['R', 'N', 'D'])
}

/// A register token.
pub open spec fn register_token(x: Seq<char>) -> bool {
    x.len() == 2 && (x[0] == 'V' || x[0] == 'v') && digit_value(x[1], 16) >= 0
}

proof fn lemma_decimal_operand(t: Seq<char>, v: u16)
    requires
        t.len() == 3,
        t[0] == '2',
        t[1] == '5',
        t[2] == '5' || t[2] == '6',
        v as int == 250 + digit_value(t[2], 10),
    ensures
        arg_spec(t) == Ok::<AsmArgument, ArgErrorView>(AsmArgument::Numeric(v)),
{
    assert(fold_case(t[0]) == '2' as u32);
    assert(!eq_ci(t, seq!['K'])) by { assert(fold_case(seq!['K'][0]) != fold_case(t[0])); }
    assert(!eq_ci(t, seq!['I'])) by { assert(fold_case(seq!['I'][0]) != fold_case(t[0])); }
    assert(!eq_ci(t, seq!['[', 'I', ']'])) by { assert(fold_case(seq!['[', 'I', ']'][0]) != fold_case(t[0])); }
    assert(!eq_ci(t, seq!['D', 'T'])) by { assert(fold_case(seq!['D', 'T'][0]) != fold_case(t[0])); }
    assert(!eq_ci(t, seq!['S', 'T'])) by { assert(fold_case(seq!['S', 'T'][0]) != fold_case(t[0])); }
    assert(!eq_ci(t, seq!['F'])) by { assert(fold_case(seq!['F'][0]) != fold_case(t[0])); }
    assert(!eq_ci(t, seq!['B'])) by { assert(fold_case(seq!['B'][0]) != fold_case(t[0])); }
    assert(t.take(2) != seq!['0', 'x']) by { assert(t.take(2)[0] != seq!['0', 'x'][0]); }
    assert(t.take(2) != seq!['0', 'b']) by { assert(t.take(2)[0] != seq!['0', 'b'][0]); }
    let t2 = t.drop_last();
    let t1 = t2.drop_last();
    let t0 = t1.drop_last();
    assert(t0.len() == 0);
    assert(t1.drop_last().len() == 0);
    assert(digit_value('2', 10) == 2);
    assert(digit_value('5', 10) == 5);
    assert(t1.last() == '2');
    assert(t2.last() == '5');
    assert(digits_value(t0, 10) == 0);
    assert(digits_value(t1, 10) == 2);
    assert(digits_value(t2, 10) == 25);
    assert(digits_value(t, 10) == 250 + digit_value(t[2], 10));
    assert(crate::text::all_digits(t, 10));
}

/// A word equal up to case to `a` is not equal up to case to a `b` that
/// differs from `a` at position `k`.
proof fn lemma_ci_differs(m: Seq<char>, a: Seq<char>, b: Seq<char>, k: int)
    requires
        eq_ci(m, a),
        0 <= k < a.len(),
        k < b.len(),
        fold_case(a[k]) != fold_case(b[k]),
    ensures
        !eq_ci(m, b),
{
    assert(fold_case(m[k]) == fold_case(a[k]));
}

/// The operands of `m x n` when `x` is a register token and `n` reads as
/// the number `v`.
proof fn lemma_two_operands(m: Seq<char>, x: Seq<char>, n: Seq<char>, v: u16)
    requires
        register_token(x),
        arg_spec(n) == Ok::<AsmArgument, ArgErrorView>(AsmArgument::Numeric(v)),
    ensures
        operands_spec(seq![m, x, n], 2, 2) == Ok::<Seq<AsmArgument>, AssembleError>(
            seq![AsmArgument::Register(digit_value(x[1], 16) as u8), AsmArgument::Numeric(v)],
        ),
{
    register_tokens(x);
    let ws = seq![m, x, n];
    assert(ws.skip(1) =~= seq![x, n]);
    assert(seq![x, n].drop_last() =~= seq![x]);
    assert(seq![x].drop_last() =~= seq![]);
    assert(seq![x].last() == x);
    assert(seq![x, n].last() == n);
    assert(seq![AsmArgument::Register(digit_value(x[1], 16) as u8)].push(AsmArgument::Numeric(v)) =~= seq![AsmArgument::Register(digit_value(x[1], 16) as u8), AsmArgument::Numeric(v)]);
    let r = AsmArgument::Register(digit_value(x[1], 16) as u8);
    assert(Seq::<AsmArgument>::empty().push(r) =~= seq![r]);
    assert(arg_spec(x) == Ok::<AsmArgument, ArgErrorView>(r));
    assert(args_spec(Seq::<Seq<char>>::empty()) == Ok::<Seq<AsmArgument>, ArgErrorView>(seq![]));
    assert(args_spec(seq![x]) == Ok::<Seq<AsmArgument>, ArgErrorView>(seq![r]));
    assert(args_spec(seq![x, n]) == Ok::<Seq<AsmArgument>, ArgErrorView>(seq![r, AsmArgument::Numeric(v)]));
}

/// The encoding of `m x n` for a byte mnemonic `m`: the byte form of its
/// mnemonic applied to the register and the number.
proof fn lemma_byte_form(m: Seq<char>, x: Seq<char>, n: Seq<char>, v: u16)
    requires
        byte_mnemonic(m),
        register_token(x),
        arg_spec(n) == Ok::<AsmArgument, ArgErrorView>(AsmArgument::Numeric(v)),
    ensures
        v <= 0xFF ==> encode_words(seq![m, x, n]) is Ok,
        v > 0xFF ==> encode_words(seq![m, x, n]) == Err::<u16, AssembleError>(AssembleError::InvalidArg),
{
    reveal(encode_words);
    lemma_two_operands(m, x, n, v);
    let cls = seq!['C', 'L', 'S'];
    let ret = seq!['R', 'E', 'T'];
    let jp = seq!['J', 'P'];
    let ld = seq!['L', 'D'];
    let sys = seq!['S', 'Y', 'S'];
    let se = seq!['S', 'E'];
    let sne = seq!['S', 'N', 'E'];
    let add = seq!['A', 'D', 'D'];
    let and = seq!['A', 'N', 'D'];
    let xor = seq!['X', 'O', 'R'];
    let sub = seq!['S', 'U', 'B'];
    let shr = seq!['S', 'H', 'R'];
    let shl = seq!['S', 'H', 'L'];
    let rnd = seq!['R', 'N', 'D'];
    if eq_ci(m, ld) {
        lemma_ci_differs(m, ld, jp, 0);
    } else if eq_ci(m, se) {
        lemma_ci_differs(m, se, jp, 0);
        lemma_ci_differs(m, se, ld, 0);
    } else if eq_ci(m, sne) {
        lemma_ci_differs(m, sne, cls, 0);
        lemma_ci_differs(m, sne, ret, 0);
        lemma_ci_differs(m, sne, sys, 1);
    } else if eq_ci(m, add) {
        lemma_ci_differs(m, add, cls, 0);
        lemma_ci_differs(m, add, ret, 0);
        lemma_ci_differs(m, add, sys, 0);
        lemma_ci_differs(m, add, sne, 0);
    } else {
        lemma_ci_differs(m, rnd, cls, 0);
        lemma_ci_differs(m, rnd, ret, 1);
        lemma_ci_differs(m, rnd, sys, 0);
        lemma_ci_differs(m, rnd, sne, 0);
        lemma_ci_differs(m, rnd, add, 0);
        lemma_ci_differs(m, rnd, and, 0);
        lemma_ci_differs(m, rnd, xor, 0);
        lemma_ci_differs(m, rnd, sub, 0);
        lemma_ci_differs(m, rnd, shr, 0);
        lemma_ci_differs(m, rnd, shl, 0);
    }
}

/// A byte operand is range-checked: for every mnemonic that takes a
/// register and a byte, the operand `256` is rejected as invalid and `255`
/// is accepted.
pub proof fn byte_operand_range(m: Seq<char>, x: Seq<char>)
    requires
        byte_mnemonic(m),
        register_token(x),
    ensures
        encode_words(seq![m, x, seq!['2', '5', '6']]) == Err::<u16, AssembleError>(AssembleError::InvalidArg),
        encode_words(seq![m, x, seq!['2', '5', '5']]) is Ok,
{
    lemma_decimal_operand(seq!['2', '5', '6'], 256);
    lemma_decimal_operand(seq!['2', '5', '5'], 255);
    lemma_byte_form(m, x, seq!['2', '5', '6'], 256);
    lemma_byte_form(m, x, seq!['2', '5', '5'], 255);
}

/// `s` holds no `#`.
pub open spec fn no_marker(s: Seq<char>) -> bool {
    forall|i: int| 0 <= i < s.len() ==> s[i] != '#'
}

/// Numbers written with a digit table hold only characters of the table.
proof fn lemma_radix_str_chars(n: nat, radix: nat, table: Seq<char>)
    requires
        radix >= 2,
        n < table.len() || radix <= table.len(),
        radix <= table.len(),
    ensures
        forall|i: int| 0 <= i < radix_str(n, radix, table).len() ==> table.contains(#[trigger] radix_str(n, radix, table)[i]),
    decreases n,
{
    if n < radix {
        assert(table.contains(table[n as int]));
    } else {
        assert(n / radix < n) by (nonlinear_arith)
            requires
                n >= radix,
                radix >= 2,
        ;
        lemma_radix_str_chars(n / radix, radix, table);
        let p = radix_str(n / radix, radix, table);
        assert(table.contains(table[(n % radix) as int]));
        assert forall|i: int| 0 <= i < p.push(table[(n % radix) as int]).len() implies table.contains(#[trigger] p.push(table[(n % radix) as int])[i]) by {
            if i < p.len() {
                assert(p.push(table[(n % radix) as int])[i] == p[i]);
            }
        }
    }
}

/// Decimal text holds no `#`.
proof fn lemma_dec_no_marker(n: nat)
    ensures
        no_marker(dec_str(n)),
{
    lemma_radix_str_chars(n, 10, lower_digits());
    assert(!lower_digits().contains('#')) by {
        assert forall|i: int| 0 <= i < lower_digits().len() implies lower_digits()[i] != '#' by {}
    }
}

/// What the offset resolution of a line yields holds no `#`.
proof fn lemma_resolved_no_marker(s: Seq<char>, base: nat)
    requires
        resolve_offsets(s, base) is Some,
    ensures
        no_marker(resolve_offsets(s, base)->Some_0),
    decreases s.len(),
{
    if s.len() > 0 {
        if s[0] != '#' {
            lemma_resolved_no_marker(s.drop_first(), base);
            let t = resolve_offsets(s.drop_first(), base)->Some_0;
            assert forall|i: int| 0 <= i < (seq![s[0]] + t).len() implies (seq![s[0]] + t)[i] != '#' by {
                if i > 0 {
                    assert((seq![s[0]] + t)[i] == t[i - 1]);
                }
            }
        } else {
            let rest = s.drop_first();
            let n = run_len(rest);
            lemma_run_len_bound(rest);
            let v = crate::text::number_spec(rest.take(n as int), 10, u64::MAX as nat)->Ok_0;
            lemma_resolved_no_marker(rest.skip(n as int), base);
            lemma_dec_no_marker(base + v);
            let d = dec_str(base + v);
            let t = resolve_offsets(rest.skip(n as int), base)->Some_0;
            assert forall|i: int| 0 <= i < (d + t).len() implies (d + t)[i] != '#' by {
                if i >= d.len() {
                    assert((d + t)[i] == t[i - d.len()]);
                }
            }
        }
    }
}

/// A line without `#` resolves to itself.
proof fn lemma_no_marker_resolves(s: Seq<char>, base: nat)
    requires
        no_marker(s),
    ensures
        resolve_offsets(s, base) == Some(s),
    decreases s.len(),
{
    if s.len() > 0 {
        assert(s[0] != '#');
        lemma_no_marker_resolves(s.drop_first(), base);
        assert(seq![s[0]] + s.drop_first() =~= s);
    }
}

/// The offset pass over lines that yielded `out` leaves lines without `#`,
/// and lines without `#` pass unchanged under any base.
proof fn lemma_offset_lines_fixed(ls: Seq<Seq<char>>, base: nat, base2: nat)
    requires
        offset_lines(ls, base) is Ok,
    ensures
        offset_lines(offset_lines(ls, base)->Ok_0, base2) == offset_lines(ls, base),
        offset_lines(ls, base)->Ok_0.len() == ls.len(),
    decreases ls.len(),
{
    if ls.len() > 0 {
        let out = offset_lines(ls, base)->Ok_0;
        lemma_offset_lines_fixed(ls.drop_last(), base, base2);
        let prev = offset_lines(ls.drop_last(), base)->Ok_0;
        let t = resolve_offsets(ls.last(), base)->Some_0;
        assert(out == prev.push(t));
        lemma_resolved_no_marker(ls.last(), base);
        lemma_no_marker_resolves(t, base2);
        assert(out.drop_last() =~= prev);
        assert(out.last() == t);
    } else {
        assert(offset_lines(ls, base)->Ok_0 =~= seq![]);
    }
}

/// Resolving free-memory offsets is idempotent: running the offset pass
/// again on its own output, which holds no markers, changes nothing.
pub proof fn offset_pass_idempotent(ls: Seq<Seq<char>>)
    requires
        offset_pass(ls) is Ok,
    ensures
        offset_pass(offset_pass(ls)->Ok_0) == offset_pass(ls),
{
    let out = offset_pass(ls)->Ok_0;
    lemma_offset_lines_fixed(ls, crate::preprocess::free_base(ls), crate::preprocess::free_base(out));
}

/// Lines without markers pass the offset resolution unchanged, under any
/// base.
proof fn lemma_offset_lines_unmarked(ls: Seq<Seq<char>>, base: nat)
    requires
        forall|i: int| 0 <= i < ls.len() ==> no_marker(#[trigger] ls[i]),
    ensures
        offset_lines(ls, base) == Ok::<Seq<Seq<char>>, crate::preprocess::PreErrorView>(ls),
    decreases ls.len(),
{
    if ls.len() > 0 {
        let prev = ls.drop_last();
        assert forall|i: int| 0 <= i < prev.len() implies no_marker(#[trigger] prev[i]) by {
            assert(prev[i] == ls[i]);
        }
        lemma_offset_lines_unmarked(prev, base);
        assert(no_marker(ls[ls.len() - 1]));
        lemma_no_marker_resolves(ls.last(), base);
        assert(prev.push(ls.last()) =~= ls);
    } else {
        assert(ls =~= seq![]);
    }
}

/// The offset pass leaves a program without `#` markers as it is.
pub proof fn offset_pass_without_markers(ls: Seq<Seq<char>>)
    requires
        forall|i: int| 0 <= i < ls.len() ==> no_marker(#[trigger] ls[i]),
    ensures
        offset_pass(ls) == Ok::<Seq<Seq<char>>, crate::preprocess::PreErrorView>(ls),
{
    lemma_offset_lines_unmarked(ls, crate::preprocess::free_base(ls));
}

} // verus!
