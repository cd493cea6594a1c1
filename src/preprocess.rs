//! The preprocessor: cleans the source text into lines, then resolves
//! aliases, sprite blocks, free-memory offsets and labels, in that order.
use vstd::prelude::*;
use crate::assemble::{line_words, words_of};
use crate::parse::{
    join_spaces, join_tokens, arg_spec, byte_spec, parse_asm_arg, parse_valid_byte, result_view, ArgErrorView,
    AsmArgParseError, AsmArgument,
};
use crate::text::{
    chars_of, has_ws, hex_lower, hex_upper, is_space, is_ws, push_all, push_hex_lower,
    push_hex_upper, same_chars, slice_range, split_tokens, string_of, strip_comma, strip_comma_exec, tokens,
    views, dec_str, has_token, is_word, lemma_dec_head, lemma_tokens_are_words, number_spec, parse_number, push_dec,
};

verus! {

/// A line after preprocessing: a view into the source text where no pass
/// changed it, or the text that a pass wrote in its place.
#[derive(Debug)]
pub enum PreprocessedInstruction<'a> {
    Unchanged(&'a str),
    Changed(String),
}

impl<'a> View for PreprocessedInstruction<'a> {
    type V = Seq<char>;

    open spec fn view(&self) -> Seq<char> {
        match self {
            PreprocessedInstruction::Unchanged(s) => s@,
            PreprocessedInstruction::Changed(s) => s@,
        }
    }
}

impl<'a> PreprocessedInstruction<'a> {
    /// The text of the line.
    pub fn as_str(&self) -> (r: &str)
        ensures
            r@ == self@,
    {
        match self {
            PreprocessedInstruction::Unchanged(s) => s,
            PreprocessedInstruction::Changed(s) => s.as_str(),
        }
    }
}

impl<'a> core::ops::Deref for PreprocessedInstruction<'a> {
    type Target = str;

    fn deref(&self) -> &str {
        self.as_str()
    }
}

impl<'a> From<&'a str> for PreprocessedInstruction<'a> {
    fn from(s: &'a str) -> PreprocessedInstruction<'a> {
        PreprocessedInstruction::Unchanged(s)
    }
}

impl<'a> vstd::std_specs::convert::FromSpecImpl<&'a str> for PreprocessedInstruction<'a> {
    open spec fn obeys_from_spec() -> bool {
        true
    }

    open spec fn from_spec(s: &'a str) -> PreprocessedInstruction<'a> {
        PreprocessedInstruction::Unchanged(s)
    }
}

/// The texts of a sequence of lines.
pub open spec fn texts(v: Seq<PreprocessedInstruction>) -> Seq<Seq<char>> {
    v.map_values(|l: PreprocessedInstruction| l@)
}

/// Why preprocessing failed; each variant carries the offending line.
#[derive(Debug)]
pub enum PreprocessingError {
    TooManyAliasArgs(String),
    TooFewAliasArgs(String),
    ReservedAlias(String),
    ReusedAlias(String),
    TooManySpriteArgs(String),
    TooFewSpriteArgs(String),
    UnclosedSprite(String),
    OversizedSprite(String),
    InvalidSpriteByte(AsmArgParseError),
    ReservedLabel(String),
    InvalidLabel(String),
    InvalidOffset(String),
    ReusedLabel(String),
}

/// The mathematical value of a [`PreprocessingError`].
pub enum PreErrorView {
    TooManyAliasArgs(Seq<char>),
    TooFewAliasArgs(Seq<char>),
    ReservedAlias(Seq<char>),
    ReusedAlias(Seq<char>),
    TooManySpriteArgs(Seq<char>),
    TooFewSpriteArgs(Seq<char>),
    UnclosedSprite(Seq<char>),
    OversizedSprite(Seq<char>),
    InvalidSpriteByte(ArgErrorView),
    ReservedLabel(Seq<char>),
    InvalidLabel(Seq<char>),
    InvalidOffset(Seq<char>),
    ReusedLabel(Seq<char>),
}

impl View for PreprocessingError {
    type V = PreErrorView;

    open spec fn view(&self) -> PreErrorView {
        match self {
            PreprocessingError::TooManyAliasArgs(s) => PreErrorView::TooManyAliasArgs(s@),
            PreprocessingError::TooFewAliasArgs(s) => PreErrorView::TooFewAliasArgs(s@),
            PreprocessingError::ReservedAlias(s) => PreErrorView::ReservedAlias(s@),
            PreprocessingError::ReusedAlias(s) => PreErrorView::ReusedAlias(s@),
            PreprocessingError::TooManySpriteArgs(s) => PreErrorView::TooManySpriteArgs(s@),
            PreprocessingError::TooFewSpriteArgs(s) => PreErrorView::TooFewSpriteArgs(s@),
            PreprocessingError::UnclosedSprite(s) => PreErrorView::UnclosedSprite(s@),
            PreprocessingError::OversizedSprite(s) => PreErrorView::OversizedSprite(s@),
            PreprocessingError::InvalidSpriteByte(e) => PreErrorView::InvalidSpriteByte(e@),
            PreprocessingError::ReservedLabel(s) => PreErrorView::ReservedLabel(s@),
            PreprocessingError::InvalidLabel(s) => PreErrorView::InvalidLabel(s@),
            PreprocessingError::InvalidOffset(s) => PreErrorView::InvalidOffset(s@),
            PreprocessingError::ReusedLabel(s) => PreErrorView::ReusedLabel(s@),
        }
    }
}

/// A pass's result on line texts, with its error replaced by the error's
/// view.
pub open spec fn pass_view(r: Result<Vec<PreprocessedInstruction>, PreprocessingError>) -> Result<Seq<Seq<char>>, PreErrorView> {
    match r {
        Ok(v) => Ok(texts(v@)),
        Err(e) => Err(e@),
    }
}

// ---------------------------------------------------------------------------
// Cleaning the source text into lines

/// `l` up to its first `;`.
pub open spec fn before_comment(l: Seq<char>) -> Seq<char>
    decreases l.len(),
{
    if l.len() == 0 {
        l
    } else if l[0] == ';' {
        seq![]
    } else {
        seq![l[0]] + before_comment(l.drop_first())
    }
}

/// `s` without trailing whitespace.
pub open spec fn trim_end(s: Seq<char>) -> Seq<char>
    decreases s.len(),
{
    if s.len() > 0 && is_ws(s.last()) {
        trim_end(s.drop_last())
    } else {
        s
    }
}

/// `s` without leading whitespace.
pub open spec fn trim_start(s: Seq<char>) -> Seq<char>
    decreases s.len(),
{
    if s.len() > 0 && is_ws(s[0]) {
        trim_start(s.drop_first())
    } else {
        s
    }
}

/// `s` without leading or trailing whitespace.
pub open spec fn trim(s: Seq<char>) -> Seq<char> {
    trim_start(trim_end(s))
}

/// A source line without its comment and surrounding whitespace.
pub open spec fn clean_line(l: Seq<char>) -> Seq<char> {
    trim(before_comment(l))
}

/// `[l]` if `l` is not empty, else nothing.
pub open spec fn keep_nonempty(l: Seq<char>) -> Seq<Seq<char>> {
    if l.len() > 0 {
        seq![l]
    } else {
        seq![]
    }
}

/// The cleaned lines of `s`, where `cur` is a line already begun to the
/// left of `s`.
pub open spec fn cleaned_from(cur: Seq<char>, s: Seq<char>) -> Seq<Seq<char>>
    decreases s.len(),
{
    if s.len() == 0 {
        keep_nonempty(clean_line(cur))
    } else if s[0] == '\n' {
        keep_nonempty(clean_line(cur)) + cleaned_from(seq![], s.drop_first())
    } else {
        cleaned_from(cur.push(s[0]), s.drop_first())
    }
}

/// The lines of `s` (separated by `\n`), each without its comment and
/// surrounding whitespace, blank ones left out.
pub open spec fn cleaned(s: Seq<char>) -> Seq<Seq<char>> {
    cleaned_from(seq![], s)
}

proof fn lemma_cleaned_step(cs: Seq<char>, start: int, i: int)
    requires
        0 <= start <= i < cs.len(),
        cs[i] != '\n',
    ensures
        cleaned_from(cs.subrange(start, i), cs.skip(i)) == cleaned_from(cs.subrange(start, i + 1), cs.skip(i + 1)),
{
    assert(cs.skip(i).drop_first() =~= cs.skip(i + 1));
    assert(cs.subrange(start, i).push(cs[i]) =~= cs.subrange(start, i + 1));
}

/// Appends the cleaned form of the source line `cs[a..e]`, if it is not
/// blank.
fn push_clean<'a>(text: &'a str, cs: &Vec<char>, a: usize, e: usize, out: &mut Vec<PreprocessedInstruction<'a>>)
    requires
        cs@ == text@,
        a <= e <= cs@.len(),
    ensures
        texts(final(out)@) == texts(old(out)@) + keep_nonempty(clean_line(cs@.subrange(a as int, e as int))),
{
    let ghost seg = cs@.subrange(a as int, e as int);
    // the comment starts at c
    let mut c: usize = a;
    assert(seg =~= cs@.subrange(a as int, c as int) + seg.skip(0));
    while c < e && cs[c] != ';'
        invariant
            a <= c <= e <= cs@.len(),
            seg == cs@.subrange(a as int, e as int),
            before_comment(seg) == cs@.subrange(a as int, c as int) + before_comment(seg.skip(c - a)),
        decreases e - c,
    {
        assert(seg.skip(c - a).drop_first() =~= seg.skip(c - a + 1));
        assert(cs@.subrange(a as int, c as int) + seq![cs@[c as int]] =~= cs@.subrange(a as int, c + 1));
        assert(cs@.subrange(a as int, c as int) + (seq![cs@[c as int]] + before_comment(seg.skip(c - a + 1)))
            =~= cs@.subrange(a as int, c + 1) + before_comment(seg.skip(c - a + 1)));
        c += 1;
    }
    assert(before_comment(seg.skip(c - a)) =~= seq![]);
    assert(before_comment(seg) =~= cs@.subrange(a as int, c as int));
    // trailing whitespace ends at b
    let mut b: usize = c;
    while b > a && is_space(cs[b - 1])
        invariant
            a <= b <= c,
            c <= cs@.len(),
            trim_end(cs@.subrange(a as int, c as int)) == trim_end(cs@.subrange(a as int, b as int)),
        decreases b,
    {
        assert(cs@.subrange(a as int, b as int).drop_last() =~= cs@.subrange(a as int, b - 1));
        b -= 1;
    }
    assert(trim_end(cs@.subrange(a as int, b as int)) == cs@.subrange(a as int, b as int));
    // leading whitespace ends at s
    let mut s: usize = a;
    while s < b && is_space(cs[s])
        invariant
            a <= s <= b,
            b <= cs@.len(),
            trim_start(cs@.subrange(a as int, b as int)) == trim_start(cs@.subrange(s as int, b as int)),
        decreases b - s,
    {
        assert(cs@.subrange(s as int, b as int).drop_first() =~= cs@.subrange(s + 1, b as int));
        s += 1;
    }
    assert(trim_start(cs@.subrange(s as int, b as int)) == cs@.subrange(s as int, b as int));
    if s < b {
        let line = text.substring_char(s, b);
        let ghost prev = texts(out@);
        out.push(PreprocessedInstruction::Unchanged(line));
        assert(texts(out@) =~= prev + seq![line@]);
    } else {
        assert(texts(out@) =~= texts(out@) + seq![]);
    }
}

/// Splits the source text into cleaned lines.
fn clean_lines<'a>(text: &'a str) -> (r: Vec<PreprocessedInstruction<'a>>)
    ensures
        texts(r@) == cleaned(text@),
{
    let cs = chars_of(text);
    let mut out: Vec<PreprocessedInstruction<'a>> = Vec::new();
    let mut start: usize = 0;
    let mut i: usize = 0;
    assert(cs@.subrange(0, 0) =~= seq![]);
    assert(cs@.skip(0) =~= cs@);
    assert(texts(out@) =~= seq![]);
    while i < cs.len()
        invariant
            cs@ == text@,
            start <= i <= cs@.len(),
            texts(out@) + cleaned_from(cs@.subrange(start as int, i as int), cs@.skip(i as int)) == cleaned(text@),
        decreases cs.len() - i,
    {
        if cs[i] == '\n' {
            let ghost prev = texts(out@);
            push_clean(text, &cs, start, i, &mut out);
            proof {
                assert(cs@.skip(i as int).drop_first() =~= cs@.skip(i + 1));
                assert(cs@.subrange(i + 1, i + 1) =~= seq![]);
            }
            start = i + 1;
        } else {
            proof {
                lemma_cleaned_step(cs@, start as int, i as int);
            }
        }
        i += 1;
    }
    assert(cs@.skip(i as int) =~= seq![]);
    push_clean(text, &cs, start, i, &mut out);
    out
}

// ---------------------------------------------------------------------------
// Words shared by the passes

/// The keyword of an alias declaration.
pub open spec fn alias_kw() -> Seq<char> {
    seq!['a', 'l', 'i', 'a', 's']
}

/// The keyword of a sprite declaration.
pub open spec fn sprite_kw() -> Seq<char> {
    seq!['s', 'p', 'r', 'i', 't', 'e']
}

/// The line that closes a sprite block.
pub open spec fn endsprite_kw() -> Seq<char> {
    seq!['e', 'n', 'd', 's', 'p', 'r', 'i', 't', 'e']
}

/// Words that cannot name an alias or a label: the mnemonics and the
/// preprocessor keywords, case-sensitive.
pub open spec fn reserved(w: Seq<char>) -> bool {
    w == seq!['C', 'L', 'S'] || w == seq!['R', 'E', 'T'] || w == seq!['S', 'Y', 'S']
        || w == seq!['J', 'P'] || w == seq!['C', 'A', 'L', 'L'] || w == seq!['S', 'E']
        || w == seq!['L', 'D'] || w == seq!['A', 'D', 'D'] || w == seq!['O', 'R']
        || w == seq!['A', 'N', 'D'] || w == seq!['X', 'O', 'R'] || w == seq!['S', 'U', 'B']
        || w == seq!['S', 'H', 'R'] || w == seq!['S', 'H', 'L'] || w == seq!['S', 'U', 'B', 'N']
        || w == seq!['S', 'N', 'E'] || w == seq!['R', 'N', 'D'] || w == seq!['D', 'R', 'W']
        || w == seq!['S', 'K', 'P'] || w == seq!['S', 'K', 'N', 'P'] || w == alias_kw()
        || w == sprite_kw() || w == endsprite_kw()
}

fn is_reserved(w: &[char]) -> (r: bool)
    ensures
        r == reserved(w@),
{
    let words: [&[char]; 23] = [
        &['C', 'L', 'S'], &['R', 'E', 'T'], &['S', 'Y', 'S'], &['J', 'P'], &['C', 'A', 'L', 'L'],
        &['S', 'E'], &['L', 'D'], &['A', 'D', 'D'], &['O', 'R'], &['A', 'N', 'D'],
        &['X', 'O', 'R'], &['S', 'U', 'B'], &['S', 'H', 'R'], &['S', 'H', 'L'],
        &['S', 'U', 'B', 'N'], &['S', 'N', 'E'], &['R', 'N', 'D'], &['D', 'R', 'W'],
        &['S', 'K', 'P'], &['S', 'K', 'N', 'P'], &['a', 'l', 'i', 'a', 's'],
        &['s', 'p', 'r', 'i', 't', 'e'], &['e', 'n', 'd', 's', 'p', 'r', 'i', 't', 'e'],
    ];
    let ghost ws = words@.map_values(|x: &[char]| x@);
    assert(ws =~= seq![
        seq!['C', 'L', 'S'], seq!['R', 'E', 'T'], seq!['S', 'Y', 'S'], seq!['J', 'P'], seq!['C', 'A', 'L', 'L'],
        seq!['S', 'E'], seq!['L', 'D'], seq!['A', 'D', 'D'], seq!['O', 'R'], seq!['A', 'N', 'D'],
        seq!['X', 'O', 'R'], seq!['S', 'U', 'B'], seq!['S', 'H', 'R'], seq!['S', 'H', 'L'],
        seq!['S', 'U', 'B', 'N'], seq!['S', 'N', 'E'], seq!['R', 'N', 'D'], seq!['D', 'R', 'W'],
        seq!['S', 'K', 'P'], seq!['S', 'K', 'N', 'P'], alias_kw(), sprite_kw(), endsprite_kw(),
    ]);
    let mut i: usize = 0;
    while i < 23
        invariant
            i <= 23,
            ws == words@.map_values(|x: &[char]| x@),
            reserved(w@) <==> exists|j: int| i <= j < 23 && ws[j] == w@,
        decreases 23 - i,
    {
        if same_chars(w, words[i]) {
            assert(ws[i as int] == w@);
            return true;
        }
        i += 1;
    }
    false
}

/// A copy of a line.
fn copy_line<'a>(l: &PreprocessedInstruction<'a>) -> (r: PreprocessedInstruction<'a>)
    ensures
        r@ == l@,
{
    match l {
        PreprocessedInstruction::Unchanged(s) => PreprocessedInstruction::Unchanged(s),
        PreprocessedInstruction::Changed(s) => PreprocessedInstruction::Changed(s.clone()),
    }
}

/// A copy of a vector of characters.
fn copy_chars(v: &Vec<char>) -> (r: Vec<char>)
    ensures
        r@ == v@,
{
    let mut r: Vec<char> = Vec::new();
    push_all(&mut r, v.as_slice());
    assert(r@ =~= v@);
    r
}

/// `v` without leading or trailing whitespace.
fn trim_chars(v: &[char]) -> (r: Vec<char>)
    ensures
        r@ == trim(v@),
{
    let mut b: usize = v.len();
    assert(v@.subrange(0, b as int) =~= v@);
    while b > 0 && is_space(v[b - 1])
        invariant
            b <= v@.len(),
            trim_end(v@) == trim_end(v@.subrange(0, b as int)),
        decreases b,
    {
        assert(v@.subrange(0, b as int).drop_last() =~= v@.subrange(0, b - 1));
        b -= 1;
    }
    assert(trim_end(v@.subrange(0, b as int)) == v@.subrange(0, b as int));
    let mut s: usize = 0;
    while s < b && is_space(v[s])
        invariant
            s <= b <= v@.len(),
            trim(v@) == trim_start(v@.subrange(s as int, b as int)),
        decreases b - s,
    {
        assert(v@.subrange(s as int, b as int).drop_first() =~= v@.subrange(s + 1, b as int));
        s += 1;
    }
    slice_range(v, s, b)
}

/// The tokens of `l` begin with the keyword `kw`.
pub open spec fn declares(l: Seq<char>, kw: Seq<char>) -> bool {
    tokens(l).len() > 0 && tokens(l)[0] == kw
}

/// The position of the first `k` among `keys`, or -1.
pub open spec fn key_index(keys: Seq<Seq<char>>, k: Seq<char>) -> int
    decreases keys.len(),
{
    if keys.len() == 0 {
        -1
    } else if keys[0] == k {
        0
    } else {
        let r = key_index(keys.drop_first(), k);
        if r < 0 {
            -1
        } else {
            r + 1
        }
    }
}

proof fn lemma_key_index(keys: Seq<Seq<char>>, k: Seq<char>, i: int)
    requires
        0 <= i <= keys.len(),
        forall|j: int| 0 <= j < i ==> keys[j] != k,
    ensures
        i < keys.len() && keys[i] == k ==> key_index(keys, k) == i,
        i == keys.len() ==> key_index(keys, k) == -1,
        -1 <= key_index(keys, k) < keys.len(),
        key_index(keys, k) >= 0 ==> keys[key_index(keys, k)] == k,
    decreases i,
{
    if keys.len() > 0 && i > 0 {
        let d = keys.drop_first();
        assert forall|j: int| 0 <= j < i - 1 implies d[j] != k by {
            assert(d[j] == keys[j + 1]);
        }
        lemma_key_index(d, k, i - 1);
    } else if keys.len() > 0 {
        lemma_key_index_range(keys, k);
    }
}

proof fn lemma_key_index_range(keys: Seq<Seq<char>>, k: Seq<char>)
    ensures
        -1 <= key_index(keys, k) < keys.len(),
        key_index(keys, k) >= 0 ==> keys[key_index(keys, k)] == k,
    decreases keys.len(),
{
    if keys.len() > 0 {
        lemma_key_index_range(keys.drop_first(), k);
    }
}

/// The position of `k` among `keys`, if it is there.
fn find_key(keys: &Vec<Vec<char>>, k: &[char]) -> (r: Option<usize>)
    ensures
        match r {
            Some(i) => i == key_index(views(keys@), k@) && i < keys@.len(),
            None => key_index(views(keys@), k@) == -1,
        },
{
    let ghost ks = views(keys@);
    let mut i: usize = 0;
    while i < keys.len()
        invariant
            i <= keys@.len(),
            ks == views(keys@),
            forall|j: int| 0 <= j < i ==> ks[j] != k@,
        decreases keys.len() - i,
    {
        if same_chars(keys[i].as_slice(), k) {
            proof {
                lemma_key_index(ks, k@, i as int);
            }
            return Some(i);
        }
        i += 1;
    }
    proof {
        lemma_key_index(ks, k@, i as int);
    }
    None
}

// ---------------------------------------------------------------------------
// Aliases

/// The declarations among `ls` collected onto the table `keys` → `vals`:
/// the final table and the lines that are not declarations, or the error of
/// the first malformed declaration.
pub open spec fn alias_collect(keys: Seq<Seq<char>>, vals: Seq<Seq<char>>, ls: Seq<Seq<char>>) -> Result<(Seq<Seq<char>>, Seq<Seq<char>>, Seq<Seq<char>>), PreErrorView>
    decreases ls.len(),
{
    if ls.len() == 0 {
        Ok((keys, vals, seq![]))
    } else {
        let l = ls[0];
        let ts = tokens(l);
        if !declares(l, alias_kw()) {
            match alias_collect(keys, vals, ls.drop_first()) {
                Ok((k, v, kept)) => Ok((k, v, seq![l] + kept)),
                Err(e) => Err(e),
            }
        } else if ts.len() > 3 {
            Err(PreErrorView::TooManyAliasArgs(l))
        } else if ts.len() < 3 {
            Err(PreErrorView::TooFewAliasArgs(l))
        } else if reserved(strip_comma(ts[1])) {
            Err(PreErrorView::ReservedAlias(l))
        } else if key_index(keys, strip_comma(ts[1])) >= 0 {
            Err(PreErrorView::ReusedAlias(l))
        } else {
            alias_collect(keys.push(strip_comma(ts[1])), vals.push(ts[2]), ls.drop_first())
        }
    }
}

/// `w`, or its value if it is a key of the table.
pub open spec fn subst(keys: Seq<Seq<char>>, vals: Seq<Seq<char>>, w: Seq<char>) -> Seq<char> {
    let i = key_index(keys, w);
    if 0 <= i < vals.len() {
        vals[i]
    } else {
        w
    }
}

/// Some word of `ws` is a key.
pub open spec fn mentions(keys: Seq<Seq<char>>, ws: Seq<Seq<char>>) -> bool {
    exists|i: int| 0 <= i < ws.len() && key_index(keys, #[trigger] ws[i]) >= 0
}

/// A line with each word that is an alias replaced by its value, or the
/// line as it was if it names no alias.
pub open spec fn alias_line(keys: Seq<Seq<char>>, vals: Seq<Seq<char>>, l: Seq<char>) -> Seq<char> {
    let ws = line_words(l);
    if mentions(keys, ws) {
        trim(join_spaces(ws.map_values(|w: Seq<char>| subst(keys, vals, w))))
    } else {
        l
    }
}

/// The alias pass on line texts.
pub open spec fn alias_pass(ls: Seq<Seq<char>>) -> Result<Seq<Seq<char>>, PreErrorView> {
    match alias_collect(seq![], seq![], ls) {
        Ok((k, v, kept)) => Ok(kept.map_values(|l: Seq<char>| alias_line(k, v, l))),
        Err(e) => Err(e),
    }
}

/// `kept` in front of the lines of a collection result.
pub open spec fn after_kept(kept: Seq<Seq<char>>, r: Result<(Seq<Seq<char>>, Seq<Seq<char>>, Seq<Seq<char>>), PreErrorView>) -> Result<(Seq<Seq<char>>, Seq<Seq<char>>, Seq<Seq<char>>), PreErrorView> {
    match r {
        Ok((k, v, rest)) => Ok((k, v, kept + rest)),
        Err(e) => Err(e),
    }
}

/// The tokens of `line` begin with `kw`.
fn starts_with_keyword(ts: &Vec<Vec<char>>, kw: &[char]) -> (r: bool)
    ensures
        r == (views(ts@).len() > 0 && views(ts@)[0] == kw@),
{
    ts.len() > 0 && same_chars(ts[0].as_slice(), kw)
}

/// The line with its aliases replaced, or `None` if it names no alias.
fn substitute_aliases(keys: &Vec<Vec<char>>, vals: &Vec<Vec<char>>, line: &[char]) -> (r: Option<Vec<char>>)
    requires
        keys@.len() == vals@.len(),
    ensures
        match r {
            Some(v) => mentions(views(keys@), line_words(line@)) && v@ == alias_line(views(keys@), views(vals@), line@),
            None => !mentions(views(keys@), line_words(line@)),
        },
{
    let ghost ks = views(keys@);
    let ghost vs = views(vals@);
    let ws = words_of(line);
    let ghost wv = views(ws@);
    let mut mapped: Vec<Vec<char>> = Vec::new();
    let mut found = false;
    let mut i: usize = 0;
    while i < ws.len()
        invariant
            i <= ws@.len(),
            keys@.len() == vals@.len(),
            ks == views(keys@),
            vs == views(vals@),
            wv == views(ws@),
            wv == line_words(line@),
            views(mapped@) == wv.take(i as int).map_values(|w: Seq<char>| subst(ks, vs, w)),
            found <==> exists|j: int| 0 <= j < i && key_index(ks, #[trigger] wv[j]) >= 0,
        decreases ws.len() - i,
    {
        let ghost prev = views(mapped@);
        let k = find_key(keys, ws[i].as_slice());
        proof {
            lemma_key_index_range(ks, wv[i as int]);
        }
        match k {
            Some(at) => {
                mapped.push(copy_chars(&vals[at]));
                found = true;
            },
            None => {
                mapped.push(copy_chars(&ws[i]));
            },
        }
        assert(views(mapped@) =~= prev.push(subst(ks, vs, wv[i as int])));
        i += 1;
        assert(views(mapped@) =~= wv.take(i as int).map_values(|w: Seq<char>| subst(ks, vs, w)));
    }
    assert(wv.take(i as int) =~= wv);
    if found {
        let joined = join_tokens(mapped.as_slice());
        Some(trim_chars(joined.as_slice()))
    } else {
        None
    }
}

/// Collects `alias NAME VALUE` declarations into a table, removes them, and
/// replaces every word that is an alias with its value.
pub fn evaluate_aliases<'a>(lines: Vec<PreprocessedInstruction<'a>>) -> (r: Result<Vec<PreprocessedInstruction<'a>>, PreprocessingError>)
    ensures
        pass_view(r) == alias_pass(texts(lines@)),
{
    let ghost ls = texts(lines@);
    let alias = ['a', 'l', 'i', 'a', 's'];
    assert(alias@ == alias_kw());
    let mut keys: Vec<Vec<char>> = Vec::new();
    let mut vals: Vec<Vec<char>> = Vec::new();
    let mut kept: Vec<PreprocessedInstruction<'a>> = Vec::new();
    let mut i: usize = 0;
    assert(ls.skip(0) =~= ls);
    assert(texts(kept@) =~= seq![]);
    assert(views(keys@) =~= seq![]);
    assert(views(vals@) =~= seq![]);
    while i < lines.len()
        invariant
            i <= lines@.len(),
            ls == texts(lines@),
            alias@ == alias_kw(),
            keys@.len() == vals@.len(),
            keys@.len() <= i,
            alias_collect(seq![], seq![], ls) == after_kept(texts(kept@), alias_collect(views(keys@), views(vals@), ls.skip(i as int))),
        decreases lines.len() - i,
    {
        let ghost rest = ls.skip(i as int);
        assert(rest.drop_first() =~= ls.skip(i + 1));
        let line = chars_of(lines[i].as_str());
        let ts = split_tokens(line.as_slice());
        if starts_with_keyword(&ts, &alias) {
            if ts.len() > 3 {
                return Err(PreprocessingError::TooManyAliasArgs(string_of(line.as_slice())));
            }
            if ts.len() < 3 {
                return Err(PreprocessingError::TooFewAliasArgs(string_of(line.as_slice())));
            }
            let key = strip_comma_exec(ts[1].as_slice());
            if is_reserved(key.as_slice()) {
                return Err(PreprocessingError::ReservedAlias(string_of(line.as_slice())));
            }
            if find_key(&keys, key.as_slice()).is_some() {
                return Err(PreprocessingError::ReusedAlias(string_of(line.as_slice())));
            }
            let ghost kv = views(keys@);
            let ghost vv = views(vals@);
            keys.push(key);
            vals.push(copy_chars(&ts[2]));
            assert(views(keys@) =~= kv.push(strip_comma(tokens(rest[0])[1])));
            assert(views(vals@) =~= vv.push(tokens(rest[0])[2]));
        } else {
            let ghost kt = texts(kept@);
            kept.push(copy_line(&lines[i]));
            assert(texts(kept@) =~= kt.push(rest[0]));
            assert(kt.push(rest[0]) =~= kt + seq![rest[0]]);
            proof {
                match alias_collect(views(keys@), views(vals@), ls.skip(i + 1)) {
                    Ok((k, v, more)) => {
                        assert(kt + (seq![rest[0]] + more) =~= kt.push(rest[0]) + more);
                    },
                    Err(_) => {},
                }
            }
        }
        i += 1;
    }
    assert(ls.skip(i as int) =~= seq![]);
    assert(texts(kept@) + seq![] =~= texts(kept@));
    let ghost kv = views(keys@);
    let ghost vv = views(vals@);
    let ghost kt = texts(kept@);
    let mut out: Vec<PreprocessedInstruction<'a>> = Vec::new();
    let mut j: usize = 0;
    while j < kept.len()
        invariant
            j <= kept@.len(),
            kt == texts(kept@),
            kv == views(keys@),
            vv == views(vals@),
            keys@.len() == vals@.len(),
            keys@.len() <= lines@.len(),
            texts(out@) == kt.take(j as int).map_values(|l: Seq<char>| alias_line(kv, vv, l)),
        decreases kept.len() - j,
    {
        let ghost prev = texts(out@);
        let line = chars_of(kept[j].as_str());
        match substitute_aliases(&keys, &vals, line.as_slice()) {
            Some(v) => out.push(PreprocessedInstruction::Changed(string_of(v.as_slice()))),
            None => out.push(copy_line(&kept[j])),
        }
        assert(texts(out@) =~= prev.push(alias_line(kv, vv, kt[j as int])));
        j += 1;
        assert(texts(out@) =~= kt.take(j as int).map_values(|l: Seq<char>| alias_line(kv, vv, l)));
    }
    assert(kt.take(j as int) =~= kt);
    Ok(out)
}

// ---------------------------------------------------------------------------
// Sprites

/// How many lines past its declaration a sprite's `endsprite` may stand:
/// a sprite has at most fifteen data lines.
pub const MAX_SPRITE_SPAN: usize = 16;

/// The position of the first `endsprite` line at or after `j`, or -1.
pub open spec fn end_index(ls: Seq<Seq<char>>, j: int) -> int
    decreases ls.len() - j,
{
    if j < 0 || j >= ls.len() {
        -1
    } else if ls[j] == endsprite_kw() {
        j
    } else {
        end_index(ls, j + 1)
    }
}

proof fn lemma_end_index(ls: Seq<Seq<char>>, j: int, n: int)
    requires
        0 <= j <= n <= ls.len(),
        forall|k: int| j <= k < n ==> ls[k] != endsprite_kw(),
        n == ls.len() || ls[n] == endsprite_kw(),
    ensures
        end_index(ls, j) == if n == ls.len() { -1 } else { n },
    decreases n - j,
{
    if j < n {
        lemma_end_index(ls, j + 1, n);
    }
}

pub proof fn lemma_end_index_range(ls: Seq<Seq<char>>, j: int)
    ensures
        end_index(ls, j) == -1 || (j <= end_index(ls, j) < ls.len() && ls[end_index(ls, j)] == endsprite_kw()),
    decreases ls.len() - j,
{
    if 0 <= j < ls.len() && ls[j] != endsprite_kw() {
        lemma_end_index_range(ls, j + 1);
    }
}

/// The byte that one data line of a sprite holds.
pub open spec fn sprite_byte(l: Seq<char>) -> Result<u8, ArgErrorView> {
    match arg_spec(l) {
        Ok(AsmArgument::Numeric(n)) => byte_spec(AsmArgument::Numeric(n)),
        Ok(_) => Err(ArgErrorView::InvalidByte(l)),
        Err(e) => Err(e),
    }
}

/// The bytes of a sprite's data lines, or the error of the first that is
/// not a byte.
pub open spec fn sprite_bytes(data: Seq<Seq<char>>) -> Result<Seq<u8>, ArgErrorView>
    decreases data.len(),
{
    if data.len() == 0 {
        Ok(seq![])
    } else {
        match sprite_bytes(data.drop_last()) {
            Err(e) => Err(e),
            Ok(b) => match sprite_byte(data.last()) {
                Ok(x) => Ok(b.push(x)),
                Err(e) => Err(e),
            },
        }
    }
}

/// The bytes paired into big-endian words; an odd last byte gets a zero low
/// byte.
pub open spec fn sprite_words(b: Seq<u8>) -> Seq<u16> {
    Seq::new(
        ((b.len() + 1) / 2) as nat,
        |i: int| (b[2 * i] as int * 256 + if 2 * i + 1 < b.len() { b[2 * i + 1] as int } else { 0 }) as u16,
    )
}

/// A raw literal line: `0x` and the word in upper-case hexadecimal.
pub open spec fn raw_line(w: u16) -> Seq<char> {
    seq!['0', 'x'] + hex_upper(w as nat)
}

/// The label declaration for a sprite named `name`.
pub open spec fn sprite_label(name: Seq<char>) -> Seq<char> {
    if name.len() > 0 && name.last() == ':' {
        name
    } else {
        name.push(':')
    }
}

/// What a sprite block becomes: its label, then one raw literal line per
/// word.
pub open spec fn sprite_block(name: Seq<char>, b: Seq<u8>) -> Seq<Seq<char>> {
    seq![sprite_label(name)] + sprite_words(b).map_values(|w: u16| raw_line(w))
}

/// `front` in front of the lines of a result.
pub open spec fn prepend(front: Seq<Seq<char>>, r: Result<Seq<Seq<char>>, PreErrorView>) -> Result<Seq<Seq<char>>, PreErrorView> {
    match r {
        Ok(rest) => Ok(front + rest),
        Err(e) => Err(e),
    }
}

/// The sprite pass on line texts.
pub open spec fn sprite_pass(ls: Seq<Seq<char>>) -> Result<Seq<Seq<char>>, PreErrorView>
    decreases ls.len(),
{
    if ls.len() == 0 {
        Ok(seq![])
    } else {
        let l = ls[0];
        let ts = tokens(l);
        if !declares(l, sprite_kw()) {
            prepend(seq![l], sprite_pass(ls.drop_first()))
        } else if ts.len() < 2 {
            Err(PreErrorView::TooFewSpriteArgs(l))
        } else if ts.len() > 2 {
            Err(PreErrorView::TooManySpriteArgs(l))
        } else {
            let e = end_index(ls, 1);
            if e < 1 {
                Err(PreErrorView::UnclosedSprite(l))
            } else if e > MAX_SPRITE_SPAN {
                Err(PreErrorView::OversizedSprite(l))
            } else {
                match sprite_bytes(ls.subrange(1, e)) {
                    Err(a) => Err(PreErrorView::InvalidSpriteByte(a)),
                    Ok(b) => {
                        proof {
                            lemma_end_index_range(ls, 1);
                        }
                        prepend(sprite_block(ts[1], b), sprite_pass(ls.skip(e + 1)))
                    },
                }
            }
        }
    }
}

/// The byte on one data line of a sprite.
fn parse_sprite_byte(l: &[char]) -> (r: Result<u8, AsmArgParseError>)
    ensures
        result_view(r) == sprite_byte(l@),
{
    match parse_asm_arg(l) {
        Ok(a) => {
            if let AsmArgument::Numeric(_) = a {
                parse_valid_byte(&a)
            } else {
                Err(AsmArgParseError::InvalidByte(string_of(l)))
            }
        },
        Err(e) => Err(e),
    }
}

/// Given the bounds of a sprite block among `lines` (its declaration at
/// `start`, its `endsprite` at `end`), append what it becomes to `out`, or
/// fail on a data line that is not a byte.
fn process_sprite<'a>(
    lines: &Vec<PreprocessedInstruction<'a>>,
    start: usize,
    end: usize,
    name: &Vec<char>,
    out: &mut Vec<PreprocessedInstruction<'a>>,
) -> (r: Result<(), PreprocessingError>)
    requires
        start < end <= lines@.len(),
        end - start <= MAX_SPRITE_SPAN,
    ensures
        match sprite_bytes(texts(lines@).subrange(start + 1, end as int)) {
            Err(a) => r is Err && r->Err_0@ == PreErrorView::InvalidSpriteByte(a),
            Ok(b) => r is Ok && texts(final(out)@) == texts(old(out)@) + sprite_block(name@, b),
        },
{
    let ghost data = texts(lines@).subrange(start + 1, end as int);
    let mut bytes: Vec<u8> = Vec::new();
    let mut i: usize = start + 1;
    assert(data.take(0) =~= seq![]);
    while i < end
        invariant
            start < i <= end <= lines@.len(),
            data == texts(lines@).subrange(start + 1, end as int),
            sprite_bytes(data.take(i - start - 1)) == Ok::<Seq<u8>, ArgErrorView>(bytes@),
            bytes@.len() == i - start - 1,
            end - start <= MAX_SPRITE_SPAN,
        decreases end - i,
    {
        let ghost k = i - start - 1;
        assert(data.take(k + 1).drop_last() =~= data.take(k));
        let l = chars_of(lines[i].as_str());
        match parse_sprite_byte(l.as_slice()) {
            Ok(x) => bytes.push(x),
            Err(e) => {
                proof {
                    lemma_bytes_error_prefix(data, k + 1);
                }
                return Err(PreprocessingError::InvalidSpriteByte(e));
            },
        }
        i += 1;
    }
    assert(data.take(i - start - 1) =~= data);
    // the label
    let mut label = copy_chars(name);
    if !(label.len() > 0 && label[label.len() - 1] == ':') {
        label.push(':');
    }
    let ghost prev = texts(out@);
    out.push(PreprocessedInstruction::Changed(string_of(label.as_slice())));
    assert(texts(out@) =~= prev + seq![sprite_label(name@)]);
    // the words
    let ghost ws = sprite_words(bytes@);
    let n = (bytes.len() + 1) / 2;
    let mut k: usize = 0;
    while k < n
        invariant
            k <= n,
            n == ws.len(),
            n == (bytes@.len() + 1) / 2,
            bytes@.len() <= 16,
            ws == sprite_words(bytes@),
            texts(out@) == prev + seq![sprite_label(name@)] + ws.take(k as int).map_values(|w: u16| raw_line(w)),
        decreases n - k,
    {
        let hi = bytes[2 * k] as u16;
        let lo: u16 = if 2 * k + 1 < bytes.len() { bytes[2 * k + 1] as u16 } else { 0 };
        let w: u16 = hi * 256 + lo;
        assert(w == ws[k as int]);
        let mut text: Vec<char> = Vec::new();
        text.push('0');
        text.push('x');
        push_hex_upper(&mut text, w as u128);
        assert(text@ =~= raw_line(w));
        let ghost before = texts(out@);
        out.push(PreprocessedInstruction::Changed(string_of(text.as_slice())));
        assert(texts(out@) =~= before.push(raw_line(w)));
        k += 1;
        assert(ws.take(k as int).map_values(|w: u16| raw_line(w)) =~= ws.take(k - 1).map_values(|w: u16| raw_line(w)).push(raw_line(ws[k - 1])));
        assert(texts(out@) =~= prev + seq![sprite_label(name@)] + ws.take(k as int).map_values(|w: u16| raw_line(w)));
    }
    assert(ws.take(k as int) =~= ws);
    assert(texts(out@) =~= texts(old(out)@) + sprite_block(name@, bytes@));
    Ok(())
}

proof fn lemma_bytes_error_prefix(data: Seq<Seq<char>>, k: int)
    requires
        0 <= k <= data.len(),
        sprite_bytes(data.take(k)) is Err,
    ensures
        sprite_bytes(data) == sprite_bytes(data.take(k)),
    decreases data.len() - k,
{
    if k < data.len() {
        assert(data.take(k + 1).drop_last() =~= data.take(k));
        lemma_bytes_error_prefix(data, k + 1);
    } else {
        assert(data.take(k) =~= data);
    }
}

/// Finds sprite blocks, packs their bytes into raw words, and puts a label
/// declaration in place of each `sprite NAME` line.
pub fn evaluate_sprites<'a>(lines: Vec<PreprocessedInstruction<'a>>) -> (r: Result<Vec<PreprocessedInstruction<'a>>, PreprocessingError>)
    ensures
        pass_view(r) == sprite_pass(texts(lines@)),
{
    let ghost ls = texts(lines@);
    let sprite = ['s', 'p', 'r', 'i', 't', 'e'];
    let endsprite = ['e', 'n', 'd', 's', 'p', 'r', 'i', 't', 'e'];
    assert(sprite@ == sprite_kw());
    assert(endsprite@ == endsprite_kw());
    let mut out: Vec<PreprocessedInstruction<'a>> = Vec::new();
    let mut i: usize = 0;
    assert(ls.skip(0) =~= ls);
    assert(texts(out@) =~= seq![]);
    while i < lines.len()
        invariant
            i <= lines@.len(),
            ls == texts(lines@),
            sprite@ == sprite_kw(),
            endsprite@ == endsprite_kw(),
            sprite_pass(ls) == prepend(texts(out@), sprite_pass(ls.skip(i as int))),
        decreases lines.len() - i,
    {
        let ghost rest = ls.skip(i as int);
        let line = chars_of(lines[i].as_str());
        let ts = split_tokens(line.as_slice());
        if !starts_with_keyword(&ts, &sprite) {
            assert(rest.drop_first() =~= ls.skip(i + 1));
            let ghost before = texts(out@);
            out.push(copy_line(&lines[i]));
            assert(texts(out@) =~= before + seq![rest[0]]);
            proof {
                match sprite_pass(ls.skip(i + 1)) {
                    Ok(more) => {
                        assert(before + (seq![rest[0]] + more) =~= (before + seq![rest[0]]) + more);
                    },
                    Err(_) => {},
                }
            }
            i += 1;
        } else {
            if ts.len() < 2 {
                return Err(PreprocessingError::TooFewSpriteArgs(string_of(line.as_slice())));
            }
            if ts.len() > 2 {
                return Err(PreprocessingError::TooManySpriteArgs(string_of(line.as_slice())));
            }
            // find the end of the block
            let mut j: usize = i + 1;
            while j < lines.len() && !same_chars(chars_of(lines[j].as_str()).as_slice(), &endsprite)
                invariant
                    i < j <= lines@.len(),
                    ls == texts(lines@),
                    endsprite@ == endsprite_kw(),
                    forall|k: int| i + 1 <= k < j ==> ls[k] != endsprite_kw(),
                decreases lines.len() - j,
            {
                j += 1;
            }
            proof {
                assert forall|k: int| 1 <= k < j - i implies rest[k] != endsprite_kw() by {
                    assert(rest[k] == ls[k + i]);
                }
                if j < lines.len() {
                    assert(rest[j - i] == ls[j as int]);
                }
                lemma_end_index(rest, 1, j - i);
            }
            if j == lines.len() {
                return Err(PreprocessingError::UnclosedSprite(string_of(line.as_slice())));
            }
            if j - i > MAX_SPRITE_SPAN {
                return Err(PreprocessingError::OversizedSprite(string_of(line.as_slice())));
            }
            let ghost before = texts(out@);
            assert(rest.subrange(1, j - i) =~= ls.subrange(i + 1, j as int));
            match process_sprite(&lines, i, j, &ts[1], &mut out) {
                Ok(()) => {},
                Err(e) => return Err(e),
            }
            proof {
                assert(rest.skip(j - i + 1) =~= ls.skip(j + 1));
                let b = sprite_bytes(ls.subrange(i + 1, j as int))->Ok_0;
                match sprite_pass(ls.skip(j + 1)) {
                    Ok(more) => {
                        assert(before + (sprite_block(views(ts@)[1], b) + more) =~= (before + sprite_block(views(ts@)[1], b)) + more);
                    },
                    Err(_) => {},
                }
            }
            i = j + 1;
        }
    }
    assert(ls.skip(i as int) =~= seq![]);
    assert(texts(out@) + seq![] =~= texts(out@));
    Ok(out)
}

// ---------------------------------------------------------------------------
// Free-memory offsets

/// A label declaration: a line ending in `:`.
pub open spec fn is_label_decl(l: Seq<char>) -> bool {
    l.len() > 0 && l.last() == ':'
}

/// How many of `ls` are instructions rather than label declarations.
pub open spec fn instr_count(ls: Seq<Seq<char>>) -> nat
    decreases ls.len(),
{
    if ls.len() == 0 {
        0
    } else {
        instr_count(ls.drop_last()) + if is_label_decl(ls.last()) { 0nat } else { 1nat }
    }
}

/// The first free address after the program: it is loaded at `0x200` and
/// each instruction takes two bytes.
pub open spec fn free_base(ls: Seq<Seq<char>>) -> nat {
    0x200 + 2 * instr_count(ls)
}

/// The length of the run of non-whitespace characters that `s` starts
/// with.
pub open spec fn run_len(s: Seq<char>) -> nat
    decreases s.len(),
{
    if s.len() == 0 || is_ws(s[0]) {
        0
    } else {
        1 + run_len(s.drop_first())
    }
}

pub proof fn lemma_run_len_bound(s: Seq<char>)
    ensures
        run_len(s) <= s.len(),
    decreases s.len(),
{
    if s.len() > 0 && !is_ws(s[0]) {
        lemma_run_len_bound(s.drop_first());
    }
}

proof fn lemma_run_len(s: Seq<char>, a: int, q: int)
    requires
        0 <= a <= q <= s.len(),
        forall|k: int| a <= k < q ==> !is_ws(#[trigger] s[k]),
        q == s.len() || is_ws(s[q]),
    ensures
        run_len(s.skip(a)) == q - a,
    decreases q - a,
{
    if a < q {
        assert(s.skip(a).drop_first() =~= s.skip(a + 1));
        lemma_run_len(s, a + 1, q);
    } else if q < s.len() {
        assert(s.skip(a)[0] == s[q]);
    }
}

/// `s` with each marker `#N` replaced by the decimal text of `base + N`,
/// or `None` if some marker is not followed by a decimal number.
pub open spec fn resolve_offsets(s: Seq<char>, base: nat) -> Option<Seq<char>>
    decreases s.len(),
{
    if s.len() == 0 {
        Some(seq![])
    } else if s[0] != '#' {
        match resolve_offsets(s.drop_first(), base) {
            Some(t) => Some(seq![s[0]] + t),
            None => None,
        }
    } else {
        let rest = s.drop_first();
        let n = run_len(rest);
        match number_spec(rest.take(n as int), 10, u64::MAX as nat) {
            Err(_) => None,
            Ok(v) => {
                proof {
                    lemma_run_len_bound(rest);
                }
                match resolve_offsets(rest.skip(n as int), base) {
                    Some(t) => Some(dec_str(base + v) + t),
                    None => None,
                }
            },
        }
    }
}

/// The offset pass on lines, with the free base already known.
pub open spec fn offset_lines(ls: Seq<Seq<char>>, base: nat) -> Result<Seq<Seq<char>>, PreErrorView>
    decreases ls.len(),
{
    if ls.len() == 0 {
        Ok(seq![])
    } else {
        match offset_lines(ls.drop_last(), base) {
            Err(e) => Err(e),
            Ok(v) => match resolve_offsets(ls.last(), base) {
                Some(t) => Ok(v.push(t)),
                None => Err(PreErrorView::InvalidOffset(ls.last())),
            },
        }
    }
}

/// The offset pass on line texts.
pub open spec fn offset_pass(ls: Seq<Seq<char>>) -> Result<Seq<Seq<char>>, PreErrorView> {
    offset_lines(ls, free_base(ls))
}

/// `front` in front of a resolved remainder.
pub open spec fn opt_prepend(front: Seq<char>, r: Option<Seq<char>>) -> Option<Seq<char>> {
    match r {
        Some(t) => Some(front + t),
        None => None,
    }
}

/// Resolves the markers of one line; `found` says whether it had any.
fn resolve_line(s: &[char], base: u128) -> (r: (Option<Vec<char>>, bool))
    requires
        base <= 4 * (u64::MAX as u128),
    ensures
        match r.0 {
            Some(v) => resolve_offsets(s@, base as nat) == Some(v@),
            None => resolve_offsets(s@, base as nat) is None,
        },
        !r.1 ==> r.0 is Some && r.0->Some_0@ == s@,
{
    let mut out: Vec<char> = Vec::new();
    let mut found = false;
    let mut p: usize = 0;
    assert(s@.skip(0) =~= s@);
    assert(out@ =~= seq![]);
    while p < s.len()
        invariant
            p <= s@.len(),
            base <= 4 * (u64::MAX as u128),
            resolve_offsets(s@, base as nat) == opt_prepend(out@, resolve_offsets(s@.skip(p as int), base as nat)),
            !found ==> out@ == s@.take(p as int),
        decreases s.len() - p,
    {
        let ghost rest = s@.skip(p as int);
        if s[p] != '#' {
            assert(rest.drop_first() =~= s@.skip(p + 1));
            let ghost before = out@;
            out.push(s[p]);
            proof {
                match resolve_offsets(s@.skip(p + 1), base as nat) {
                    Some(t) => {
                        assert(before + (seq![s@[p as int]] + t) =~= out@ + t);
                    },
                    None => {},
                }
                assert(s@.take(p + 1) =~= s@.take(p as int).push(s@[p as int]));
            }
            p += 1;
        } else {
            found = true;
            let mut q: usize = p + 1;
            while q < s.len() && !is_space(s[q])
                invariant
                    p < q <= s@.len(),
                    forall|k: int| p + 1 <= k < q ==> !is_ws(#[trigger] s@[k]),
                decreases s.len() - q,
            {
                q += 1;
            }
            proof {
                lemma_run_len(s@, p + 1, q as int);
                assert(rest.drop_first() =~= s@.skip(p + 1));
                assert(s@.skip(p + 1).take(q - p - 1) =~= s@.subrange(p + 1, q as int));
                assert(s@.skip(p + 1).skip(q - p - 1) =~= s@.skip(q as int));
            }
            let digits = slice_range(s, p + 1, q);
            match parse_number(digits.as_slice(), 10, u64::MAX) {
                Err(_) => return (None, true),
                Ok(v) => {
                    let ghost before = out@;
                    push_dec(&mut out, base + v as u128);
                    proof {
                        match resolve_offsets(s@.skip(q as int), base as nat) {
                            Some(t) => {
                                assert(before + (dec_str((base + v) as nat) + t) =~= out@ + t);
                            },
                            None => {},
                        }
                    }
                },
            }
            p = q;
        }
    }
    assert(s@.skip(p as int) =~= seq![]);
    assert(out@ + seq![] =~= out@);
    assert(s@.take(p as int) =~= s@);
    (Some(out), found)
}

proof fn lemma_offset_lines_error_prefix(ls: Seq<Seq<char>>, base: nat, k: int)
    requires
        0 <= k <= ls.len(),
        offset_lines(ls.take(k), base) is Err,
    ensures
        offset_lines(ls, base) == offset_lines(ls.take(k), base),
    decreases ls.len() - k,
{
    if k < ls.len() {
        assert(ls.take(k + 1).drop_last() =~= ls.take(k));
        lemma_offset_lines_error_prefix(ls, base, k + 1);
    } else {
        assert(ls.take(k) =~= ls);
    }
}

/// Counts the lines that are instructions rather than label declarations.
fn count_instructions(lines: &Vec<PreprocessedInstruction>) -> (r: usize)
    ensures
        r == instr_count(texts(lines@)),
{
    let ghost ls = texts(lines@);
    let mut n: usize = 0;
    let mut i: usize = 0;
    assert(ls.take(0) =~= seq![]);
    while i < lines.len()
        invariant
            i <= lines@.len(),
            ls == texts(lines@),
            n == instr_count(ls.take(i as int)),
            n <= i,
        decreases lines.len() - i,
    {
        assert(ls.take(i + 1).drop_last() =~= ls.take(i as int));
        let l = chars_of(lines[i].as_str());
        if !(l.len() > 0 && l[l.len() - 1] == ':') {
            n += 1;
        }
        i += 1;
    }
    assert(ls.take(i as int) =~= ls);
    n
}

/// Replaces each free-memory marker `#N` with the decimal address `N`
/// bytes past the end of the program.
pub fn evaluate_memory_offsets<'a>(lines: Vec<PreprocessedInstruction<'a>>) -> (r: Result<Vec<PreprocessedInstruction<'a>>, PreprocessingError>)
    ensures
        pass_view(r) == offset_pass(texts(lines@)),
{
    let ghost ls = texts(lines@);
    let count = count_instructions(&lines);
    let base: u128 = 0x200 + 2 * (count as u128);
    let mut out: Vec<PreprocessedInstruction<'a>> = Vec::new();
    let mut i: usize = 0;
    assert(ls.take(0) =~= seq![]);
    assert(texts(out@) =~= seq![]);
    while i < lines.len()
        invariant
            i <= lines@.len(),
            ls == texts(lines@),
            base == free_base(ls),
            base <= 4 * (u64::MAX as u128),
            offset_lines(ls.take(i as int), base as nat) == Ok::<Seq<Seq<char>>, PreErrorView>(texts(out@)),
        decreases lines.len() - i,
    {
        assert(ls.take(i + 1).drop_last() =~= ls.take(i as int));
        let ghost before = texts(out@);
        let l = chars_of(lines[i].as_str());
        let (resolved, found) = resolve_line(l.as_slice(), base);
        match resolved {
            None => {
                proof {
                    lemma_offset_lines_error_prefix(ls, base as nat, i + 1);
                }
                return Err(PreprocessingError::InvalidOffset(string_of(l.as_slice())));
            },
            Some(v) => {
                if found {
                    out.push(PreprocessedInstruction::Changed(string_of(v.as_slice())));
                } else {
                    out.push(copy_line(&lines[i]));
                }
            },
        }
        assert(texts(out@) =~= before.push(resolve_offsets(ls[i as int], base as nat)->Some_0));
        i += 1;
    }
    assert(ls.take(i as int) =~= ls);
    Ok(out)
}

// ---------------------------------------------------------------------------
// Labels

/// `s` without its trailing colons.
pub open spec fn trim_colons(s: Seq<char>) -> Seq<char>
    decreases s.len(),
{
    if s.len() > 0 && s.last() == ':' {
        trim_colons(s.drop_last())
    } else {
        s
    }
}

/// The address of the instruction that follows `n` instructions.
pub open spec fn address_of(n: nat) -> nat {
    0x200 + 2 * n
}

/// The label declarations among `ls` collected onto the table `keys` →
/// `addrs`, where `n` instructions come before `ls`: the final table and
/// the lines that are not declarations, or the error of the first malformed
/// declaration.
pub open spec fn label_collect(keys: Seq<Seq<char>>, addrs: Seq<nat>, n: nat, ls: Seq<Seq<char>>) -> Result<(Seq<Seq<char>>, Seq<nat>, Seq<Seq<char>>), PreErrorView>
    decreases ls.len(),
{
    if ls.len() == 0 {
        Ok((keys, addrs, seq![]))
    } else {
        let l = ls[0];
        let name = trim_colons(l);
        if !is_label_decl(l) {
            match label_collect(keys, addrs, n + 1, ls.drop_first()) {
                Ok((k, a, kept)) => Ok((k, a, seq![l] + kept)),
                Err(e) => Err(e),
            }
        } else if has_ws(name) {
            Err(PreErrorView::InvalidLabel(l))
        } else if reserved(name) {
            Err(PreErrorView::ReservedLabel(l))
        } else if key_index(keys, name) >= 0 {
            Err(PreErrorView::ReusedLabel(l))
        } else {
            label_collect(keys.push(name), addrs.push(address_of(n)), n, ls.drop_first())
        }
    }
}

/// A token, or the address it names in `0x` lower-case hexadecimal if,
/// without one trailing comma, it is a label.
pub open spec fn label_ref(keys: Seq<Seq<char>>, addrs: Seq<nat>, t: Seq<char>) -> Seq<char> {
    let i = key_index(keys, strip_comma(t));
    if 0 <= i < addrs.len() {
        seq!['0', 'x'] + hex_lower(addrs[i])
    } else {
        t
    }
}

/// Some token of `ts`, without one trailing comma, is a label.
pub open spec fn refers(keys: Seq<Seq<char>>, ts: Seq<Seq<char>>) -> bool {
    exists|i: int| 0 <= i < ts.len() && key_index(keys, strip_comma(#[trigger] ts[i])) >= 0
}

/// A line with each reference to a label replaced by its address, or the
/// line as it was if it refers to none.
pub open spec fn label_line(keys: Seq<Seq<char>>, addrs: Seq<nat>, l: Seq<char>) -> Seq<char> {
    let ts = tokens(l);
    if refers(keys, ts) {
        join_spaces(ts.map_values(|t: Seq<char>| label_ref(keys, addrs, t)))
    } else {
        l
    }
}

/// The label pass on line texts.
pub open spec fn label_pass(ls: Seq<Seq<char>>) -> Result<Seq<Seq<char>>, PreErrorView> {
    match label_collect(seq![], seq![], 0, ls) {
        Ok((k, a, kept)) => Ok(kept.map_values(|l: Seq<char>| label_line(k, a, l))),
        Err(e) => Err(e),
    }
}

/// `kept` in front of the lines of a label collection result.
pub open spec fn after_kept_labels(kept: Seq<Seq<char>>, r: Result<(Seq<Seq<char>>, Seq<nat>, Seq<Seq<char>>), PreErrorView>) -> Result<(Seq<Seq<char>>, Seq<nat>, Seq<Seq<char>>), PreErrorView> {
    match r {
        Ok((k, a, rest)) => Ok((k, a, kept + rest)),
        Err(e) => Err(e),
    }
}

/// The addresses as numbers.
pub open spec fn nats(v: Seq<u128>) -> Seq<nat> {
    v.map_values(|a: u128| a as nat)
}

/// Whether `s` holds a whitespace character.
fn contains_space(s: &[char]) -> (r: bool)
    ensures
        r == has_ws(s@),
{
    let mut i: usize = 0;
    while i < s.len()
        invariant
            i <= s@.len(),
            forall|j: int| 0 <= j < i ==> !is_ws(#[trigger] s@[j]),
        decreases s.len() - i,
    {
        if is_space(s[i]) {
            return true;
        }
        i += 1;
    }
    false
}

/// The line with its label references replaced, or `None` if it refers to
/// no label.
fn substitute_labels(keys: &Vec<Vec<char>>, addrs: &Vec<u128>, line: &[char]) -> (r: Option<Vec<char>>)
    requires
        keys@.len() == addrs@.len(),
    ensures
        match r {
            Some(v) => refers(views(keys@), tokens(line@)) && v@ == label_line(views(keys@), nats(addrs@), line@),
            None => !refers(views(keys@), tokens(line@)),
        },
{
    let ghost ks = views(keys@);
    let ghost av = nats(addrs@);
    let ts = split_tokens(line);
    let ghost tv = views(ts@);
    let mut mapped: Vec<Vec<char>> = Vec::new();
    let mut found = false;
    let mut i: usize = 0;
    while i < ts.len()
        invariant
            i <= ts@.len(),
            keys@.len() == addrs@.len(),
            ks == views(keys@),
            av == nats(addrs@),
            tv == views(ts@),
            tv == tokens(line@),
            views(mapped@) == tv.take(i as int).map_values(|t: Seq<char>| label_ref(ks, av, t)),
            found <==> exists|j: int| 0 <= j < i && key_index(ks, strip_comma(#[trigger] tv[j])) >= 0,
        decreases ts.len() - i,
    {
        let ghost prev = views(mapped@);
        let name = strip_comma_exec(ts[i].as_slice());
        let k = find_key(keys, name.as_slice());
        match k {
            Some(at) => {
                let mut text: Vec<char> = Vec::new();
                text.push('0');
                text.push('x');
                push_hex_lower(&mut text, addrs[at]);
                assert(text@ =~= seq!['0', 'x'] + hex_lower(av[at as int]));
                mapped.push(text);
                found = true;
            },
            None => {
                mapped.push(copy_chars(&ts[i]));
            },
        }
        assert(views(mapped@) =~= prev.push(label_ref(ks, av, tv[i as int])));
        i += 1;
        assert(views(mapped@) =~= tv.take(i as int).map_values(|t: Seq<char>| label_ref(ks, av, t)));
    }
    assert(tv.take(i as int) =~= tv);
    if found {
        Some(join_tokens(mapped.as_slice()))
    } else {
        None
    }
}

/// Finds label declarations, records the address each points to, removes
/// them, and replaces references to them with their addresses.
pub fn evaluate_labels<'a>(lines: Vec<PreprocessedInstruction<'a>>) -> (r: Result<Vec<PreprocessedInstruction<'a>>, PreprocessingError>)
    ensures
        pass_view(r) == label_pass(texts(lines@)),
{
    let ghost ls = texts(lines@);
    let mut keys: Vec<Vec<char>> = Vec::new();
    let mut addrs: Vec<u128> = Vec::new();
    let mut kept: Vec<PreprocessedInstruction<'a>> = Vec::new();
    let mut i: usize = 0;
    assert(ls.skip(0) =~= ls);
    assert(texts(kept@) =~= seq![]);
    assert(views(keys@) =~= seq![]);
    assert(nats(addrs@) =~= seq![]);
    while i < lines.len()
        invariant
            i <= lines@.len(),
            ls == texts(lines@),
            keys@.len() == addrs@.len(),
            kept@.len() <= i,
            label_collect(seq![], seq![], 0, ls) == after_kept_labels(texts(kept@), label_collect(views(keys@), nats(addrs@), kept@.len() as nat, ls.skip(i as int))),
        decreases lines.len() - i,
    {
        let ghost rest = ls.skip(i as int);
        assert(rest.drop_first() =~= ls.skip(i + 1));
        let line = chars_of(lines[i].as_str());
        if line.len() > 0 && line[line.len() - 1] == ':' {
            let mut e: usize = line.len();
            assert(line@.take(e as int) =~= line@);
            while e > 0 && line[e - 1] == ':'
                invariant
                    e <= line@.len(),
                    trim_colons(line@) == trim_colons(line@.take(e as int)),
                decreases e,
            {
                assert(line@.take(e as int).drop_last() =~= line@.take(e - 1));
                e -= 1;
            }
            let name = slice_range(line.as_slice(), 0, e);
            assert(name@ == trim_colons(line@));
            if contains_space(name.as_slice()) {
                return Err(PreprocessingError::InvalidLabel(string_of(line.as_slice())));
            }
            if is_reserved(name.as_slice()) {
                return Err(PreprocessingError::ReservedLabel(string_of(line.as_slice())));
            }
            if find_key(&keys, name.as_slice()).is_some() {
                return Err(PreprocessingError::ReusedLabel(string_of(line.as_slice())));
            }
            let ghost kv = views(keys@);
            let ghost av = nats(addrs@);
            let addr: u128 = 0x200 + 2 * (kept.len() as u128);
            keys.push(name);
            addrs.push(addr);
            assert(views(keys@) =~= kv.push(trim_colons(rest[0])));
            assert(nats(addrs@) =~= av.push(address_of(kept@.len() as nat)));
        } else {
            let ghost kt = texts(kept@);
            kept.push(copy_line(&lines[i]));
            assert(texts(kept@) =~= kt.push(rest[0]));
            proof {
                match label_collect(views(keys@), nats(addrs@), kept@.len() as nat, ls.skip(i + 1)) {
                    Ok((k, a, more)) => {
                        assert(kt + (seq![rest[0]] + more) =~= kt.push(rest[0]) + more);
                    },
                    Err(_) => {},
                }
            }
        }
        i += 1;
    }
    assert(ls.skip(i as int) =~= seq![]);
    assert(texts(kept@) + seq![] =~= texts(kept@));
    let ghost kv = views(keys@);
    let ghost av = nats(addrs@);
    let ghost kt = texts(kept@);
    let mut out: Vec<PreprocessedInstruction<'a>> = Vec::new();
    let mut j: usize = 0;
    while j < kept.len()
        invariant
            j <= kept@.len(),
            kt == texts(kept@),
            kv == views(keys@),
            av == nats(addrs@),
            keys@.len() == addrs@.len(),
            texts(out@) == kt.take(j as int).map_values(|l: Seq<char>| label_line(kv, av, l)),
        decreases kept.len() - j,
    {
        let ghost prev = texts(out@);
        let line = chars_of(kept[j].as_str());
        match substitute_labels(&keys, &addrs, line.as_slice()) {
            Some(v) => out.push(PreprocessedInstruction::Changed(string_of(v.as_slice()))),
            None => out.push(copy_line(&kept[j])),
        }
        assert(texts(out@) =~= prev.push(label_line(kv, av, kt[j as int])));
        j += 1;
        assert(texts(out@) =~= kt.take(j as int).map_values(|l: Seq<char>| label_line(kv, av, l)));
    }
    assert(kt.take(j as int) =~= kt);
    Ok(out)
}

// ---------------------------------------------------------------------------
// Every line that preprocessing yields has a token

/// Every line of `ls` has a token.
pub open spec fn all_tokens(ls: Seq<Seq<char>>) -> bool {
    forall|i: int| 0 <= i < ls.len() ==> has_token(#[trigger] ls[i])
}

proof fn lemma_all_tokens_concat(a: Seq<Seq<char>>, b: Seq<Seq<char>>)
    requires
        all_tokens(a),
        all_tokens(b),
    ensures
        all_tokens(a + b),
{
    assert forall|i: int| 0 <= i < (a + b).len() implies has_token(#[trigger] (a + b)[i]) by {
        if i < a.len() {
            assert((a + b)[i] == a[i]);
        } else {
            assert((a + b)[i] == b[i - a.len()]);
        }
    }
}

proof fn lemma_all_tokens_skip(ls: Seq<Seq<char>>, k: int)
    requires
        all_tokens(ls),
        0 <= k <= ls.len(),
    ensures
        all_tokens(ls.skip(k)),
{
    assert forall|i: int| 0 <= i < ls.skip(k).len() implies has_token(#[trigger] ls.skip(k)[i]) by {
        assert(ls.skip(k)[i] == ls[i + k]);
    }
}

proof fn lemma_word_token(t: Seq<char>)
    requires
        is_word(t),
    ensures
        has_token(t),
{
    assert(!is_ws(t[0]));
}

proof fn lemma_trim_start_head(y: Seq<char>)
    ensures
        trim_start(y).len() > 0 ==> !is_ws(trim_start(y)[0]),
    decreases y.len(),
{
    if y.len() > 0 && is_ws(y[0]) {
        lemma_trim_start_head(y.drop_first());
    }
}

proof fn lemma_trim_end_keeps(x: Seq<char>)
    requires
        has_token(x),
    ensures
        has_token(trim_end(x)),
    decreases x.len(),
{
    if x.len() > 0 && is_ws(x.last()) {
        let i = choose|i: int| 0 <= i < x.len() && !is_ws(#[trigger] x[i]);
        assert(x.drop_last()[i] == x[i]);
        lemma_trim_end_keeps(x.drop_last());
    }
}

proof fn lemma_trim_start_keeps(x: Seq<char>)
    requires
        has_token(x),
    ensures
        has_token(trim_start(x)),
    decreases x.len(),
{
    if x.len() > 0 && is_ws(x[0]) {
        let i = choose|i: int| 0 <= i < x.len() && !is_ws(#[trigger] x[i]);
        assert(x.drop_first()[i - 1] == x[i]);
        lemma_trim_start_keeps(x.drop_first());
    }
}

proof fn lemma_trim_keeps(x: Seq<char>)
    requires
        has_token(x),
    ensures
        has_token(trim(x)),
{
    lemma_trim_end_keeps(x);
    lemma_trim_start_keeps(trim_end(x));
}

proof fn lemma_cleaned_tokens(cur: Seq<char>, s: Seq<char>)
    ensures
        all_tokens(cleaned_from(cur, s)),
    decreases s.len(),
{
    let c = clean_line(cur);
    lemma_trim_start_head(trim_end(before_comment(cur)));
    if c.len() > 0 {
        assert(has_token(c)) by {
            assert(!is_ws(c[0]));
        }
    }
    assert(all_tokens(keep_nonempty(c))) by {
        if c.len() > 0 {
            assert(keep_nonempty(c)[0] == c);
        }
    }
    if s.len() > 0 {
        if s[0] == '\n' {
            lemma_cleaned_tokens(seq![], s.drop_first());
            lemma_all_tokens_concat(keep_nonempty(c), cleaned_from(seq![], s.drop_first()));
        } else {
            lemma_cleaned_tokens(cur.push(s[0]), s.drop_first());
        }
    }
}

proof fn lemma_join_token(ts: Seq<Seq<char>>, i: int)
    requires
        0 <= i < ts.len(),
        has_token(ts[i]),
    ensures
        has_token(join_spaces(ts)),
    decreases ts.len(),
{
    if ts.len() > 1 {
        let j = join_spaces(ts.drop_last());
        let all = j + seq![' '] + ts.last();
        assert(join_spaces(ts) == all);
        if i == ts.len() - 1 {
            let k = choose|k: int| 0 <= k < ts[i].len() && !is_ws(#[trigger] ts[i][k]);
            assert(all[j.len() + 1 + k] == ts[i][k]);
        } else {
            assert(ts.drop_last()[i] == ts[i]);
            lemma_join_token(ts.drop_last(), i);
            let k = choose|k: int| 0 <= k < j.len() && !is_ws(#[trigger] j[k]);
            assert(all[k] == j[k]);
        }
    }
}

/// Every value of a table has a token.
pub open spec fn all_values_tokens(vals: Seq<Seq<char>>) -> bool {
    forall|j: int| 0 <= j < vals.len() ==> has_token(#[trigger] vals[j])
}

proof fn lemma_alias_collect_tokens(keys: Seq<Seq<char>>, vals: Seq<Seq<char>>, ls: Seq<Seq<char>>)
    requires
        all_tokens(ls),
        all_values_tokens(vals),
        keys.len() == vals.len(),
    ensures
        alias_collect(keys, vals, ls) is Ok ==> {
            let (k, v, kept) = alias_collect(keys, vals, ls)->Ok_0;
            all_tokens(kept) && k.len() == v.len() && all_values_tokens(v)
        },
    decreases ls.len(),
{
    if ls.len() > 0 {
        let l = ls[0];
        let ts = tokens(l);
        lemma_all_tokens_skip(ls, 1);
        assert(ls.skip(1) =~= ls.drop_first());
        if !declares(l, alias_kw()) {
            lemma_alias_collect_tokens(keys, vals, ls.drop_first());
            if alias_collect(keys, vals, ls.drop_first()) is Ok {
                let (k, v, kept) = alias_collect(keys, vals, ls.drop_first())->Ok_0;
                assert(all_tokens(seq![l])) by {
                    assert(seq![l][0] == l);
                }
                lemma_all_tokens_concat(seq![l], kept);
            }
        } else if ts.len() == 3 && !reserved(strip_comma(ts[1])) && key_index(keys, strip_comma(ts[1])) < 0 {
            lemma_tokens_are_words(l);
            lemma_word_token(ts[2]);
            let v2 = vals.push(ts[2]);
            assert forall|j: int| 0 <= j < v2.len() implies has_token(#[trigger] v2[j]) by {
                if j < vals.len() {
                    assert(v2[j] == vals[j]);
                }
            }
            lemma_alias_collect_tokens(keys.push(strip_comma(ts[1])), v2, ls.drop_first());
        }
    }
}

proof fn lemma_alias_line_token(keys: Seq<Seq<char>>, vals: Seq<Seq<char>>, l: Seq<char>)
    requires
        has_token(l),
        keys.len() == vals.len(),
        all_values_tokens(vals),
    ensures
        has_token(alias_line(keys, vals, l)),
{
    let ws = line_words(l);
    if mentions(keys, ws) {
        let i = choose|i: int| 0 <= i < ws.len() && key_index(keys, #[trigger] ws[i]) >= 0;
        lemma_key_index_range(keys, ws[i]);
        let mapped = ws.map_values(|w: Seq<char>| subst(keys, vals, w));
        assert(mapped[i] == vals[key_index(keys, ws[i])]);
        lemma_join_token(mapped, i);
        lemma_trim_keeps(join_spaces(mapped));
    }
}

proof fn lemma_alias_pass_tokens(ls: Seq<Seq<char>>)
    requires
        all_tokens(ls),
        alias_pass(ls) is Ok,
    ensures
        all_tokens(alias_pass(ls)->Ok_0),
{
    lemma_alias_collect_tokens(seq![], seq![], ls);
    let (k, v, kept) = alias_collect(seq![], seq![], ls)->Ok_0;
    let out = kept.map_values(|l: Seq<char>| alias_line(k, v, l));
    assert forall|i: int| 0 <= i < out.len() implies has_token(#[trigger] out[i]) by {
        lemma_alias_line_token(k, v, kept[i]);
    }
}

proof fn lemma_sprite_block_tokens(name: Seq<char>, b: Seq<u8>)
    ensures
        all_tokens(sprite_block(name, b)),
{
    let label = sprite_label(name);
    assert(!is_ws(label[label.len() - 1]));
    let words = sprite_words(b).map_values(|w: u16| raw_line(w));
    assert forall|i: int| 0 <= i < words.len() implies has_token(#[trigger] words[i]) by {
        assert(words[i][0] == '0');
    }
    assert(all_tokens(seq![label])) by {
        assert(seq![label][0] == label);
    }
    lemma_all_tokens_concat(seq![label], words);
}

proof fn lemma_sprite_pass_tokens(ls: Seq<Seq<char>>)
    requires
        all_tokens(ls),
        sprite_pass(ls) is Ok,
    ensures
        all_tokens(sprite_pass(ls)->Ok_0),
    decreases ls.len(),
{
    if ls.len() > 0 {
        let l = ls[0];
        let ts = tokens(l);
        if !declares(l, sprite_kw()) {
            lemma_all_tokens_skip(ls, 1);
            assert(ls.skip(1) =~= ls.drop_first());
            lemma_sprite_pass_tokens(ls.drop_first());
            assert(all_tokens(seq![l])) by {
                assert(seq![l][0] == l);
            }
            lemma_all_tokens_concat(seq![l], sprite_pass(ls.drop_first())->Ok_0);
        } else {
            let e = end_index(ls, 1);
            lemma_end_index_range(ls, 1);
            let b = sprite_bytes(ls.subrange(1, e))->Ok_0;
            lemma_all_tokens_skip(ls, e + 1);
            lemma_sprite_pass_tokens(ls.skip(e + 1));
            lemma_sprite_block_tokens(ts[1], b);
            lemma_all_tokens_concat(sprite_block(ts[1], b), sprite_pass(ls.skip(e + 1))->Ok_0);
        }
    }
}

proof fn lemma_resolve_token(s: Seq<char>, base: nat)
    requires
        has_token(s),
        resolve_offsets(s, base) is Some,
    ensures
        has_token(resolve_offsets(s, base)->Some_0),
    decreases s.len(),
{
    let r = resolve_offsets(s, base)->Some_0;
    if s[0] != '#' {
        let t = resolve_offsets(s.drop_first(), base)->Some_0;
        assert(r == seq![s[0]] + t);
        if is_ws(s[0]) {
            let i = choose|i: int| 0 <= i < s.len() && !is_ws(#[trigger] s[i]);
            assert(s.drop_first()[i - 1] == s[i]);
            lemma_resolve_token(s.drop_first(), base);
            let k = choose|k: int| 0 <= k < t.len() && !is_ws(#[trigger] t[k]);
            assert(r[k + 1] == t[k]);
        } else {
            assert(r[0] == s[0]);
        }
    } else {
        let rest = s.drop_first();
        let n = run_len(rest);
        lemma_run_len_bound(rest);
        let v = number_spec(rest.take(n as int), 10, u64::MAX as nat)->Ok_0;
        let d = dec_str(base + v);
        lemma_dec_head(base + v);
        let t = resolve_offsets(rest.skip(n as int), base)->Some_0;
        assert(r == d + t);
        assert(r[0] == d[0]);
    }
}

proof fn lemma_offset_lines_tokens(ls: Seq<Seq<char>>, base: nat)
    requires
        all_tokens(ls),
        offset_lines(ls, base) is Ok,
    ensures
        all_tokens(offset_lines(ls, base)->Ok_0),
    decreases ls.len(),
{
    if ls.len() > 0 {
        let prev = ls.drop_last();
        assert forall|i: int| 0 <= i < prev.len() implies has_token(#[trigger] prev[i]) by {
            assert(prev[i] == ls[i]);
        }
        lemma_offset_lines_tokens(prev, base);
        lemma_resolve_token(ls.last(), base);
        let v = offset_lines(prev, base)->Ok_0;
        let t = resolve_offsets(ls.last(), base)->Some_0;
        let out = v.push(t);
        assert forall|i: int| 0 <= i < out.len() implies has_token(#[trigger] out[i]) by {
            if i < v.len() {
                assert(out[i] == v[i]);
            }
        }
    }
}

proof fn lemma_label_collect_tokens(keys: Seq<Seq<char>>, addrs: Seq<nat>, n: nat, ls: Seq<Seq<char>>)
    requires
        all_tokens(ls),
        keys.len() == addrs.len(),
    ensures
        label_collect(keys, addrs, n, ls) is Ok ==> {
            let (k, a, kept) = label_collect(keys, addrs, n, ls)->Ok_0;
            all_tokens(kept) && k.len() == a.len()
        },
    decreases ls.len(),
{
    if ls.len() > 0 {
        let l = ls[0];
        lemma_all_tokens_skip(ls, 1);
        assert(ls.skip(1) =~= ls.drop_first());
        if !is_label_decl(l) {
            lemma_label_collect_tokens(keys, addrs, n + 1, ls.drop_first());
            if label_collect(keys, addrs, n + 1, ls.drop_first()) is Ok {
                let (k, a, kept) = label_collect(keys, addrs, n + 1, ls.drop_first())->Ok_0;
                assert(all_tokens(seq![l])) by {
                    assert(seq![l][0] == l);
                }
                lemma_all_tokens_concat(seq![l], kept);
            }
        } else {
            lemma_label_collect_tokens(keys.push(trim_colons(l)), addrs.push(address_of(n)), n, ls.drop_first());
        }
    }
}

proof fn lemma_label_line_token(keys: Seq<Seq<char>>, addrs: Seq<nat>, l: Seq<char>)
    requires
        has_token(l),
        keys.len() == addrs.len(),
    ensures
        has_token(label_line(keys, addrs, l)),
{
    let ts = tokens(l);
    if refers(keys, ts) {
        let i = choose|i: int| 0 <= i < ts.len() && key_index(keys, strip_comma(#[trigger] ts[i])) >= 0;
        lemma_key_index_range(keys, strip_comma(ts[i]));
        let mapped = ts.map_values(|t: Seq<char>| label_ref(keys, addrs, t));
        assert(mapped[i][0] == '0');
        lemma_join_token(mapped, i);
    }
}

proof fn lemma_label_pass_tokens(ls: Seq<Seq<char>>)
    requires
        all_tokens(ls),
        label_pass(ls) is Ok,
    ensures
        all_tokens(label_pass(ls)->Ok_0),
{
    lemma_label_collect_tokens(seq![], seq![], 0, ls);
    let (k, a, kept) = label_collect(seq![], seq![], 0, ls)->Ok_0;
    let out = kept.map_values(|l: Seq<char>| label_line(k, a, l));
    assert forall|i: int| 0 <= i < out.len() implies has_token(#[trigger] out[i]) by {
        lemma_label_line_token(k, a, kept[i]);
    }
}

/// Every line that preprocessing yields has a token, so the encoder takes it.
pub proof fn lemma_preprocess_tokens(text: Seq<char>)
    requires
        preprocess_spec(text) is Ok,
    ensures
        all_tokens(preprocess_spec(text)->Ok_0),
{
    let c = cleaned(text);
    lemma_cleaned_tokens(seq![], text);
    lemma_alias_pass_tokens(c);
    let a = alias_pass(c)->Ok_0;
    lemma_sprite_pass_tokens(a);
    let sp = sprite_pass(a)->Ok_0;
    lemma_offset_lines_tokens(sp, free_base(sp));
    let o = offset_pass(sp)->Ok_0;
    lemma_label_pass_tokens(o);
}

// ---------------------------------------------------------------------------
// The pipeline

/// `r` fed to the pass `f`, an error passed through.
pub open spec fn then_pass(r: Result<Seq<Seq<char>>, PreErrorView>, f: spec_fn(Seq<Seq<char>>) -> Result<Seq<Seq<char>>, PreErrorView>) -> Result<Seq<Seq<char>>, PreErrorView> {
    match r {
        Ok(ls) => f(ls),
        Err(e) => Err(e),
    }
}

/// The whole preprocessing of a source text: cleaning, then the alias,
/// sprite, offset and label passes.
pub open spec fn preprocess_spec(text: Seq<char>) -> Result<Seq<Seq<char>>, PreErrorView> {
    then_pass(
        then_pass(
            then_pass(alias_pass(cleaned(text)), |ls: Seq<Seq<char>>| sprite_pass(ls)),
            |ls: Seq<Seq<char>>| offset_pass(ls),
        ),
        |ls: Seq<Seq<char>>| label_pass(ls),
    )
}

/// Turns source text into lines that the encoder takes one by one, or the
/// first error that a pass meets.
pub fn preprocess<'a>(unprocessed: &'a str) -> (r: Result<Vec<PreprocessedInstruction<'a>>, PreprocessingError>)
    ensures
        pass_view(r) == preprocess_spec(unprocessed@),
        r is Ok ==> all_tokens(texts(r->Ok_0@)),
{
    let lines = clean_lines(unprocessed);
    let lines = match evaluate_aliases(lines) {
        Ok(l) => l,
        Err(e) => return Err(e),
    };
    let lines = match evaluate_sprites(lines) {
        Ok(l) => l,
        Err(e) => return Err(e),
    };
    let lines = match evaluate_memory_offsets(lines) {
        Ok(l) => l,
        Err(e) => return Err(e),
    };
    let r = evaluate_labels(lines);
    proof {
        if r is Ok {
            lemma_preprocess_tokens(unprocessed@);
        }
    }
    r
}

} // verus!
