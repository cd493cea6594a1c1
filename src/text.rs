//! Character-level helpers shared by the operand parser, the encoder and the
//! preprocessing passes: whitespace, tokens, case folding, digits and number
//! formatting.
use vstd::prelude::*;

verus! {

/// The characters with the Unicode `White_Space` property, which is what
/// `char::is_whitespace` tests.
pub open spec fn is_ws(c: char) -> bool {
    ('\t' <= c && c <= '\r') || c == ' ' || c == '\u{85}' || c == '\u{a0}' || c == '\u{1680}'
        || ('\u{2000}' <= c && c <= '\u{200a}') || c == '\u{2028}' || c == '\u{2029}'
        || c == '\u{202f}' || c == '\u{205f}' || c == '\u{3000}'
}

pub fn is_space(c: char) -> (r: bool)
    ensures
        r == is_ws(c),
{
    ('\t' <= c && c <= '\r') || c == ' ' || c == '\u{85}' || c == '\u{a0}' || c == '\u{1680}'
        || ('\u{2000}' <= c && c <= '\u{200a}') || c == '\u{2028}' || c == '\u{2029}'
        || c == '\u{202f}' || c == '\u{205f}' || c == '\u{3000}'
}

pub open spec fn has_ws(s: Seq<char>) -> bool {
    exists|i: int| 0 <= i < s.len() && is_ws(#[trigger] s[i])
}

/// The whitespace-separated tokens of `s`, where `cur` is a token already
/// begun to the left of `s`.
pub open spec fn tokens_from(cur: Seq<char>, s: Seq<char>) -> Seq<Seq<char>>
    decreases s.len(),
{
    if s.len() == 0 {
        if cur.len() > 0 {
            seq![cur]
        } else {
            seq![]
        }
    } else if is_ws(s[0]) {
        if cur.len() > 0 {
            seq![cur] + tokens_from(seq![], s.drop_first())
        } else {
            tokens_from(seq![], s.drop_first())
        }
    } else {
        tokens_from(cur.push(s[0]), s.drop_first())
    }
}

/// The maximal runs of non-whitespace characters of `s`, left to right.
pub open spec fn tokens(s: Seq<char>) -> Seq<Seq<char>> {
    tokens_from(seq![], s)
}

/// The views of a sequence of character vectors.
pub open spec fn views(v: Seq<Vec<char>>) -> Seq<Seq<char>> {
    v.map_values(|t: Vec<char>| t@)
}

/// `s` holds a character that is not whitespace, so it has a token.
pub open spec fn has_token(s: Seq<char>) -> bool {
    exists|i: int| 0 <= i < s.len() && !is_ws(#[trigger] s[i])
}

/// A token: not empty, and without whitespace.
pub open spec fn is_word(t: Seq<char>) -> bool {
    t.len() > 0 && !has_ws(t)
}

proof fn lemma_tokens_from_nonempty(cur: Seq<char>, s: Seq<char>)
    requires
        cur.len() > 0 || has_token(s),
    ensures
        tokens_from(cur, s).len() > 0,
    decreases s.len(),
{
    if s.len() > 0 {
        if is_ws(s[0]) {
            if cur.len() == 0 {
                let i = choose|i: int| 0 <= i < s.len() && !is_ws(#[trigger] s[i]);
                assert(s.drop_first()[i - 1] == s[i]);
                lemma_tokens_from_nonempty(seq![], s.drop_first());
            }
        } else {
            lemma_tokens_from_nonempty(cur.push(s[0]), s.drop_first());
        }
    }
}

/// A text with a non-whitespace character has at least one token.
pub proof fn lemma_has_token(s: Seq<char>)
    requires
        has_token(s),
    ensures
        tokens(s).len() > 0,
{
    lemma_tokens_from_nonempty(seq![], s);
}

proof fn lemma_tokens_from_words(cur: Seq<char>, s: Seq<char>)
    requires
        !has_ws(cur),
    ensures
        forall|i: int| 0 <= i < tokens_from(cur, s).len() ==> is_word(#[trigger] tokens_from(cur, s)[i]),
    decreases s.len(),
{
    let r = tokens_from(cur, s);
    if s.len() == 0 {
        if cur.len() > 0 {
            assert(r == seq![cur]);
            assert(r[0] == cur);
        } else {
            assert(r.len() == 0);
        }
    } else if is_ws(s[0]) {
        lemma_tokens_from_words(seq![], s.drop_first());
        let rest = tokens_from(seq![], s.drop_first());
        if cur.len() > 0 {
            assert(r == seq![cur] + rest);
            assert forall|i: int| 0 <= i < r.len() implies is_word(#[trigger] r[i]) by {
                if i > 0 {
                    assert(r[i] == rest[i - 1]);
                } else {
                    assert(r[0] == cur);
                }
            }
        } else {
            assert(r == rest);
        }
    } else {
        let c2 = cur.push(s[0]);
        assert forall|j: int| 0 <= j < c2.len() implies !is_ws(#[trigger] c2[j]) by {
            if j < cur.len() {
                assert(c2[j] == cur[j]);
            }
        }
        lemma_tokens_from_words(c2, s.drop_first());
        assert(r == tokens_from(c2, s.drop_first()));
    }
}

/// Every token is a word: not empty and without whitespace.
pub proof fn lemma_tokens_are_words(s: Seq<char>)
    ensures
        forall|i: int| 0 <= i < tokens(s).len() ==> is_word(#[trigger] tokens(s)[i]),
{
    lemma_tokens_from_words(seq![], s);
}

/// Splits `s` at whitespace, dropping empty pieces.
pub fn split_tokens(s: &[char]) -> (r: Vec<Vec<char>>)
    ensures
        views(r@) == tokens(s@),
{
    let mut out: Vec<Vec<char>> = Vec::new();
    let mut cur: Vec<char> = Vec::new();
    let mut i: usize = 0;
    assert(s@.skip(0) =~= s@);
    assert(views(out@) =~= seq![]);
    assert(cur@ =~= seq![]);
    while i < s.len()
        invariant
            i <= s@.len(),
            views(out@) + tokens_from(cur@, s@.skip(i as int)) == tokens(s@),
        decreases s.len() - i,
    {
        let ghost rest = s@.skip(i as int);
        assert(rest.drop_first() =~= s@.skip(i + 1));
        let c = s[i];
        if is_space(c) {
            if cur.len() > 0 {
                let ghost old_out = views(out@);
                let ghost cv = cur@;
                out.push(cur);
                assert(views(out@) =~= old_out.push(cv));
                cur = Vec::new();
                assert(old_out.push(cv) + tokens_from(seq![], rest.drop_first()) =~= old_out + (
                seq![cv] + tokens_from(seq![], rest.drop_first())));
            }
            assert(cur@ =~= seq![]);
        } else {
            cur.push(c);
        }
        i += 1;
    }
    assert(s@.skip(i as int) =~= seq![]);
    if cur.len() > 0 {
        let ghost old_out = views(out@);
        let ghost cv = cur@;
        out.push(cur);
        assert(views(out@) =~= old_out + seq![cv]);
    } else {
        assert(views(out@) =~= views(out@) + seq![]);
    }
    out
}

/// `t` without one trailing comma, if it has one.
pub open spec fn strip_comma(t: Seq<char>) -> Seq<char> {
    if t.len() > 0 && t.last() == ',' {
        t.drop_last()
    } else {
        t
    }
}

pub fn strip_comma_exec(t: &[char]) -> (r: Vec<char>)
    ensures
        r@ == strip_comma(t@),
{
    let n: usize = if t.len() > 0 && t[t.len() - 1] == ',' {
        t.len() - 1
    } else {
        t.len()
    };
    let r = slice_prefix(t, n);
    assert(r@ =~= strip_comma(t@));
    r
}

/// A copy of the first `n` characters of `t`.
pub fn slice_prefix(t: &[char], n: usize) -> (r: Vec<char>)
    requires
        n <= t@.len(),
    ensures
        r@ == t@.take(n as int),
{
    slice_range(t, 0, n)
}

/// A copy of the characters of `t` from `a` up to `b`.
pub fn slice_range(t: &[char], a: usize, b: usize) -> (r: Vec<char>)
    requires
        a <= b <= t@.len(),
    ensures
        r@ == t@.subrange(a as int, b as int),
{
    let mut r: Vec<char> = Vec::new();
    let mut i: usize = a;
    while i < b
        invariant
            a <= i <= b <= t@.len(),
            r@ == t@.subrange(a as int, i as int),
        decreases b - i,
    {
        r.push(t[i]);
        i += 1;
        assert(r@ =~= t@.subrange(a as int, i as int));
    }
    r
}

/// The ASCII upper-case code of `c`; other characters keep their code.
pub open spec fn fold_case(c: char) -> u32 {
    if 'a' <= c && c <= 'z' {
        (c as u32 - 32) as u32
    } else {
        c as u32
    }
}

/// `a` and `b` are equal up to ASCII case.
pub open spec fn eq_ci(a: Seq<char>, b: Seq<char>) -> bool {
    a.len() == b.len() && forall|i: int| 0 <= i < a.len() ==> fold_case(#[trigger] a[i]) == fold_case(b[i])
}

pub fn fold_case_exec(c: char) -> (r: u32)
    ensures
        r == fold_case(c),
{
    if 'a' <= c && c <= 'z' {
        c as u32 - 32
    } else {
        c as u32
    }
}

pub fn same_ci(a: &[char], b: &[char]) -> (r: bool)
    ensures
        r == eq_ci(a@, b@),
{
    if a.len() != b.len() {
        return false;
    }
    let mut i: usize = 0;
    while i < a.len()
        invariant
            a@.len() == b@.len(),
            i <= a@.len(),
            forall|j: int| 0 <= j < i ==> fold_case(#[trigger] a@[j]) == fold_case(b@[j]),
        decreases a.len() - i,
    {
        if fold_case_exec(a[i]) != fold_case_exec(b[i]) {
            return false;
        }
        i += 1;
    }
    true
}

pub fn same_chars(a: &[char], b: &[char]) -> (r: bool)
    ensures
        r == (a@ == b@),
{
    if a.len() != b.len() {
        return false;
    }
    let mut i: usize = 0;
    while i < a.len()
        invariant
            a@.len() == b@.len(),
            i <= a@.len(),
            forall|j: int| 0 <= j < i ==> #[trigger] a@[j] == b@[j],
        decreases a.len() - i,
    {
        if a[i] != b[i] {
            return false;
        }
        i += 1;
    }
    assert(a@ =~= b@);
    true
}

/// `p` is a prefix of `s`.
pub open spec fn has_prefix(s: Seq<char>, p: Seq<char>) -> bool {
    p.len() <= s.len() && s.take(p.len() as int) == p
}

pub fn starts_with(s: &[char], p: &[char]) -> (r: bool)
    ensures
        r == has_prefix(s@, p@),
{
    if p.len() > s.len() {
        return false;
    }
    let mut i: usize = 0;
    while i < p.len()
        invariant
            p@.len() <= s@.len(),
            i <= p@.len(),
            forall|j: int| 0 <= j < i ==> #[trigger] s@[j] == p@[j],
        decreases p.len() - i,
    {
        if s[i] != p[i] {
            assert(s@.take(p@.len() as int)[i as int] != p@[i as int]);
            return false;
        }
        i += 1;
    }
    assert(s@.take(p@.len() as int) =~= p@);
    true
}

/// The value of `c` as a digit in base `radix` (2, 10 or 16), or -1.
pub open spec fn digit_value(c: char, radix: nat) -> int {
    let v: int = if '0' <= c && c <= '9' {
        c as int - '0' as int
    } else if 'a' <= c && c <= 'f' {
        c as int - 'a' as int + 10
    } else if 'A' <= c && c <= 'F' {
        c as int - 'A' as int + 10
    } else {
        -1
    };
    if v < radix {
        v
    } else {
        -1
    }
}

pub open spec fn all_digits(s: Seq<char>, radix: nat) -> bool {
    forall|i: int| 0 <= i < s.len() ==> digit_value(#[trigger] s[i], radix) >= 0
}

/// The number that the digits `s` spell in base `radix`, most significant first.
pub open spec fn digits_value(s: Seq<char>, radix: nat) -> nat
    decreases s.len(),
{
    if s.len() == 0 {
        0
    } else {
        (digits_value(s.drop_last(), radix) * radix + digit_value(s.last(), radix)) as nat
    }
}

pub fn digit_value_exec(c: char, radix: u32) -> (r: i32)
    requires
        radix == 2 || radix == 10 || radix == 16,
    ensures
        r == digit_value(c, radix as nat),
{
    let v: i32 = if '0' <= c && c <= '9' {
        (c as u32 - '0' as u32) as i32
    } else if 'a' <= c && c <= 'f' {
        (c as u32 - 'a' as u32 + 10) as i32
    } else if 'A' <= c && c <= 'F' {
        (c as u32 - 'A' as u32 + 10) as i32
    } else {
        -1
    };
    if v < radix as i32 {
        v
    } else {
        -1
    }
}

/// Why a run of characters is not a number.
#[derive(Clone, Copy, Debug, PartialEq, Eq, Structural)]
pub enum NumberErrorKind {
    /// There are no digits at all.
    Empty,
    /// A character is not a digit of the base.
    InvalidDigit,
    /// The digits spell a number larger than the target type holds.
    Overflow,
}

/// Reading `s` as an unsigned number in base `radix` that is at most `max`.
pub open spec fn number_spec(s: Seq<char>, radix: nat, max: nat) -> Result<nat, NumberErrorKind> {
    if s.len() == 0 {
        Err(NumberErrorKind::Empty)
    } else if !all_digits(s, radix) {
        Err(NumberErrorKind::InvalidDigit)
    } else if digits_value(s, radix) > max {
        Err(NumberErrorKind::Overflow)
    } else {
        Ok(digits_value(s, radix))
    }
}

proof fn lemma_digits_value_step(s: Seq<char>, i: int, radix: nat)
    requires
        0 <= i < s.len(),
    ensures
        digits_value(s.take(i + 1), radix) == (digits_value(s.take(i), radix) * radix + digit_value(s[i], radix)) as nat,
{
    assert(s.take(i + 1).drop_last() =~= s.take(i));
}

proof fn lemma_digits_value_mono(s: Seq<char>, i: int, radix: nat)
    requires
        0 <= i <= s.len(),
        radix >= 2,
        all_digits(s, radix),
    ensures
        digits_value(s.take(i), radix) <= digits_value(s, radix),
    decreases s.len() - i,
{
    if i < s.len() {
        lemma_digits_value_step(s, i, radix);
        let a = digits_value(s.take(i), radix);
        assert(digit_value(s[i], radix) >= 0);
        assert(a * radix >= a) by (nonlinear_arith)
            requires
                radix >= 2,
                a >= 0,
        ;
        lemma_digits_value_mono(s, i + 1, radix);
    } else {
        assert(s.take(i) =~= s);
    }
}

/// Reads `s` as an unsigned number in base `radix` that is at most `max`.
pub fn parse_number(s: &[char], radix: u32, max: u64) -> (r: Result<u64, NumberErrorKind>)
    requires
        radix == 2 || radix == 10 || radix == 16,
    ensures
        match (r, number_spec(s@, radix as nat, max as nat)) {
            (Ok(v), Ok(w)) => v == w,
            (Err(e), Err(f)) => e == f,
            _ => false,
        },
{
    if s.len() == 0 {
        return Err(NumberErrorKind::Empty);
    }
    let mut i: usize = 0;
    while i < s.len()
        invariant
            i <= s@.len(),
            radix == 2 || radix == 10 || radix == 16,
            forall|j: int| 0 <= j < i ==> digit_value(#[trigger] s@[j], radix as nat) >= 0,
        decreases s.len() - i,
    {
        if digit_value_exec(s[i], radix) < 0 {
            return Err(NumberErrorKind::InvalidDigit);
        }
        i += 1;
    }
    let mut v: u64 = 0;
    let mut k: usize = 0;
    while k < s.len()
        invariant
            k <= s@.len(),
            radix == 2 || radix == 10 || radix == 16,
            all_digits(s@, radix as nat),
            v == digits_value(s@.take(k as int), radix as nat),
            v <= max,
        decreases s.len() - k,
    {
        proof {
            lemma_digits_value_step(s@, k as int, radix as nat);
        }
        let d = digit_value_exec(s[k], radix) as u64;
        if d > max {
            proof {
                lemma_digits_value_mono(s@, k + 1, radix as nat);
            }
            return Err(NumberErrorKind::Overflow);
        }
        if v > (max - d) / (radix as u64) {
            proof {
                lemma_digits_value_mono(s@, k + 1, radix as nat);
                assert(v * radix + d > max) by (nonlinear_arith)
                    requires
                        v > (max - d) / (radix as int),
                        radix > 0,
                        d <= max,
                ;
            }
            return Err(NumberErrorKind::Overflow);
        }
        assert(v * radix + d <= max) by (nonlinear_arith)
            requires
                v <= (max - d) / (radix as int),
                radix > 0,
                d <= max,
        ;
        v = v * (radix as u64) + d;
        k += 1;
    }
    assert(s@.take(k as int) =~= s@);
    Ok(v)
}

/// The digit characters of base 16, lower case.
pub open spec fn lower_digits() -> Seq<char> {
    seq!['0', '1', '2', '3', '4', '5', '6', '7', '8', '9', 'a', 'b', 'c', 'd', 'e', 'f']
}

/// The digit characters of base 16, upper case.
pub open spec fn upper_digits() -> Seq<char> {
    seq!['0', '1', '2', '3', '4', '5', '6', '7', '8', '9', 'A', 'B', 'C', 'D', 'E', 'F']
}

/// `n` written in base `radix` with the digit characters `table`, no leading zeros.
pub open spec fn radix_str(n: nat, radix: nat, table: Seq<char>) -> Seq<char>
    decreases n
    via radix_str_decreases
{
    if n < radix || radix < 2 {
        seq![table[n as int]]
    } else {
        radix_str(n / radix, radix, table).push(table[(n % radix) as int])
    }
}

#[via_fn]
proof fn radix_str_decreases(n: nat, radix: nat, table: Seq<char>) {
    if !(n < radix || radix < 2) {
        assert(n / radix < n) by (nonlinear_arith)
            requires
                n >= radix,
                radix >= 2,
        ;
    }
}

/// `n` in decimal.
pub open spec fn dec_str(n: nat) -> Seq<char> {
    radix_str(n, 10, lower_digits())
}

/// Decimal text is not empty and starts with a digit.
pub proof fn lemma_dec_head(n: nat)
    ensures
        dec_str(n).len() > 0,
        '0' <= dec_str(n)[0] && dec_str(n)[0] <= '9',
    decreases n,
{
    if n < 10 {
        assert(lower_digits()[n as int] as int == '0' as int + n);
    } else {
        lemma_dec_head(n / 10);
        assert(dec_str(n) == dec_str(n / 10).push(lower_digits()[(n % 10) as int]));
    }
}

/// `n` in lower-case hexadecimal, without a prefix.
pub open spec fn hex_lower(n: nat) -> Seq<char> {
    radix_str(n, 16, lower_digits())
}

/// `n` in upper-case hexadecimal, without a prefix.
pub open spec fn hex_upper(n: nat) -> Seq<char> {
    radix_str(n, 16, upper_digits())
}

/// Appends `n` written in base `radix` with the digit characters `table`.
pub fn push_radix(out: &mut Vec<char>, n: u128, radix: u128, table: &[char; 16])
    requires
        radix == 10 || radix == 16,
    ensures
        final(out)@ == old(out)@ + radix_str(n as nat, radix as nat, table@),
    decreases n,
{
    if n >= radix {
        push_radix(out, n / radix, radix, table);
        out.push(table[(n % radix) as usize]);
        proof {
            let s = radix_str((n / radix) as nat, radix as nat, table@);
            assert(final(out)@ =~= old(out)@ + s.push(table@[(n % radix) as int]));
        }
    } else {
        out.push(table[n as usize]);
        assert(final(out)@ =~= old(out)@ + seq![table@[n as int]]);
    }
}

pub fn push_dec(out: &mut Vec<char>, n: u128)
    ensures
        final(out)@ == old(out)@ + dec_str(n as nat),
{
    let table = ['0', '1', '2', '3', '4', '5', '6', '7', '8', '9', 'a', 'b', 'c', 'd', 'e', 'f'];
    assert(table@ == lower_digits());
    push_radix(out, n, 10, &table);
}

pub fn push_hex_lower(out: &mut Vec<char>, n: u128)
    ensures
        final(out)@ == old(out)@ + hex_lower(n as nat),
{
    let table = ['0', '1', '2', '3', '4', '5', '6', '7', '8', '9', 'a', 'b', 'c', 'd', 'e', 'f'];
    assert(table@ == lower_digits());
    push_radix(out, n, 16, &table);
}

pub fn push_hex_upper(out: &mut Vec<char>, n: u128)
    ensures
        final(out)@ == old(out)@ + hex_upper(n as nat),
{
    let table = ['0', '1', '2', '3', '4', '5', '6', '7', '8', '9', 'A', 'B', 'C', 'D', 'E', 'F'];
    assert(table@ == upper_digits());
    push_radix(out, n, 16, &table);
}

/// Appends all of `s` to `out`.
pub fn push_all(out: &mut Vec<char>, s: &[char])
    ensures
        final(out)@ == old(out)@ + s@,
{
    let mut i: usize = 0;
    while i < s.len()
        invariant
            i <= s@.len(),
            out@ == old(out)@ + s@.take(i as int),
        decreases s.len() - i,
    {
        out.push(s[i]);
        i += 1;
        assert(out@ =~= old(out)@ + s@.take(i as int));
    }
    assert(s@.take(i as int) =~= s@);
}

/// The characters of `s`.
pub fn chars_of(s: &str) -> (r: Vec<char>)
    ensures
        r@ == s@,
{
    let mut out: Vec<char> = Vec::new();
    for c in it: s.chars()
        invariant
            it.seq() == s@,
            out@ == it.seq().take(it.index() as int),
    {
        out.push(c);
        assert(out@ =~= it.seq().take(it.index() + 1));
    }
    assert(out@ =~= s@);
    out
}

/// Relies on `String::push`: appends one character.
#[verifier::external_body]
fn push_char(s: &mut String, c: char)
    ensures
        final(s)@ == old(s)@.push(c),
{
    s.push(c)
}

/// A string holding the characters `v`.
pub fn string_of(v: &[char]) -> (r: String)
    ensures
        r@ == v@,
{
    let mut s = String::new();
    let mut i: usize = 0;
    while i < v.len()
        invariant
            i <= v@.len(),
            s@ == v@.take(i as int),
        decreases v.len() - i,
    {
        push_char(&mut s, v[i]);
        i += 1;
        assert(s@ =~= v@.take(i as int));
    }
    assert(s@ =~= v@);
    s
}

} // verus!
