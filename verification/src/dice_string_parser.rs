//! Parsing dice formula strings into expression trees.
//!
//! A raw string is case-folded and checked against the permitted
//! alphabet, rewritten to make implicit sample-sum operators explicit,
//! tokenized into a flat sequence of input symbols, and finally parsed
//! into a precedence-respecting tree by splitting at the loosest-binding
//! operator visible at bracket depth zero.

use vstd::prelude::*;

use crate::dice_builder::{digit_char, spec_digits, spec_int_chars, spec_render, DiceBuilder,
    Value};

verus! {

/// an atomic input token: a constant or a fair die
#[derive(Debug, PartialEq, Eq, Clone, Copy, Structural)]
pub enum AtomicInputSymbol {
    /// a literal integer
    Constant(Value),
    /// a die, written `d<max>`
    FairDie {
        /// minimum value, always 1 for parsed dice
        min: Value,
        /// maximum value
        max: Value,
    },
}

/// a binary operator token
#[derive(Debug, PartialEq, Eq, Clone, Copy, Structural)]
pub enum OperatorInputSymbol {
    /// `+`
    Add,
    /// `*`
    Mul,
    /// `x`, the sample-sum operator
    SampleSum,
    /// `/`
    Div,
}

/// a separator token
#[derive(Debug, PartialEq, Eq, Clone, Copy, Structural)]
pub enum SeparatorInputSymbol {
    /// `,` between the arguments of `max(...)` or `min(...)`
    Comma,
}

/// a closing bracket token
#[derive(Debug, PartialEq, Eq, Clone, Copy, Structural)]
pub enum ClosingInputSymbol {
    /// `)`
    BClosing,
}

/// an opening bracket token
#[derive(Debug, PartialEq, Eq, Clone, Copy, Structural)]
pub enum OpeningInputSymbol {
    /// `(`
    BOpening,
    /// `max(`
    MaxOpening,
    /// `min(`
    MinOpening,
}

/// one typed input symbol of a formula
#[derive(Debug, PartialEq, Eq, Clone, Copy, Structural)]
pub enum InputSymbol {
    /// a constant or die
    Atomic(AtomicInputSymbol),
    /// a binary operator
    Operator(OperatorInputSymbol),
    /// an argument separator
    Separator(SeparatorInputSymbol),
    /// an opening bracket
    Opening(OpeningInputSymbol),
    /// a closing bracket
    Closing(ClosingInputSymbol),
}

/// why a formula string could not be turned into a tree
#[derive(Debug, PartialEq, Eq)]
pub enum DiceBuildingError {
    /// a construct that the grammar does not recognize, with the
    /// offending symbol sequence
    UnknownSyntaxError(Vec<InputSymbol>),
    /// a single-token sequence that is not a constant or die
    OneInputSymbolButNotAtomic(InputSymbol),
    /// a malformed numeral after the `d` of a die
    NonDigitSymbolAfterDiceD,
    /// a malformed bare numeral
    NonDigitNumericCharacter,
    /// more closing brackets than opening brackets up to one point
    NegativeScope,
    /// a split produced an empty segment, as in `3++4`
    MultipleOperatorsBehindEachOther,
    /// an empty symbol sequence where a formula was expected
    EmptySubSequence,
    /// a character outside the permitted alphabet
    InvalidCharacterInInput(char),
}

/// a character of the permitted formula alphabet
pub open spec fn is_permitted_char(c: char) -> bool {
    ||| c == 'm'
    ||| c == 'i'
    ||| c == 'n'
    ||| c == 'a'
    ||| c == 'x'
    ||| c == '('
    ||| c == ','
    ||| c == ')'
    ||| c == 'd'
    ||| c == 'w'
    ||| c == '0'
    ||| c == '1'
    ||| c == '2'
    ||| c == '3'
    ||| c == '4'
    ||| c == '5'
    ||| c == '6'
    ||| c == '7'
    ||| c == '8'
    ||| c == '9'
    ||| c == '+'
    ||| c == '-'
    ||| c == '*'
    ||| c == '/'
}

/// a Unicode whitespace character
pub open spec fn is_space_char(c: char) -> bool {
    ||| c == ' '
    ||| c == '\t'
    ||| c == '\n'
    ||| c == '\r'
    ||| c == '\u{b}'
    ||| c == '\u{c}'
    ||| c == '\u{85}'
    ||| c == '\u{a0}'
    ||| c == '\u{1680}'
    ||| ('\u{2000}' <= c && c <= '\u{200a}')
    ||| c == '\u{2028}'
    ||| c == '\u{2029}'
    ||| c == '\u{202f}'
    ||| c == '\u{205f}'
    ||| c == '\u{3000}'
}

/// an upper-case ASCII letter folded to lower case; everything else kept
pub open spec fn lower_char(c: char) -> char {
    if 'A' <= c && c <= 'Z' {
        (((c as u8) + 32) as char)
    } else {
        c
    }
}

/// Case-fold, drop whitespace, and reject the first character outside
/// the permitted alphabet.
pub open spec fn spec_filter(s: Seq<char>) -> Result<Seq<char>, DiceBuildingError>
    decreases s.len(),
{
    if s.len() == 0 {
        Ok(Seq::<char>::empty())
    } else {
        let c = lower_char(s[0]);
        if is_permitted_char(c) {
            match spec_filter(s.drop_first()) {
                Ok(rest) => Ok(seq![c] + rest),
                Err(e) => Err(e),
            }
        } else if is_space_char(c) {
            spec_filter(s.drop_first())
        } else {
            Err(DiceBuildingError::InvalidCharacterInInput(c))
        }
    }
}

/// Replace `max(` by `M`, `min(` by `m`, and the die synonym `w` by `d`.
pub open spec fn spec_mmw(s: Seq<char>) -> Seq<char>
    decreases s.len(),
{
    if s.len() == 0 {
        Seq::<char>::empty()
    } else if s.len() >= 4 && s[0] == 'm' && s[1] == 'a' && s[2] == 'x' && s[3] == '(' {
        seq!['M'] + spec_mmw(s.skip(4))
    } else if s.len() >= 4 && s[0] == 'm' && s[1] == 'i' && s[2] == 'n' && s[3] == '(' {
        seq!['m'] + spec_mmw(s.skip(4))
    } else if s[0] == 'w' {
        seq!['d'] + spec_mmw(s.skip(1))
    } else {
        seq![s[0]] + spec_mmw(s.skip(1))
    }
}

/// a decimal digit
pub open spec fn is_digit_char(c: char) -> bool {
    '0' <= c && c <= '9'
}

/// Juxtapositions that mean an implicit sample-sum: a digit before a
/// die, a closing bracket before any opening construct, and a digit or
/// die before a plain opening bracket.
pub open spec fn needs_x(a: char, b: char) -> bool {
    ||| (is_digit_char(a) && b == 'd')
    ||| (a == ')' && (b == '(' || b == 'M' || b == 'm'))
    ||| ((is_digit_char(a) || a == 'd') && b == '(')
}

/// Insert the explicit sample-sum operator `x` at every implicit
/// juxtaposition.
pub open spec fn spec_insert_x(s: Seq<char>) -> Seq<char>
    decreases s.len(),
{
    if s.len() <= 1 {
        s
    } else if needs_x(s[0], s[1]) {
        seq![s[0], 'x'] + spec_insert_x(s.skip(1))
    } else {
        seq![s[0]] + spec_insert_x(s.skip(1))
    }
}

/// The cleaned form of a raw formula string: case-folded, filtered,
/// with `max(`/`min(`/`w` condensed and implicit operators inserted.
pub open spec fn spec_clean(s: Seq<char>) -> Result<Seq<char>, DiceBuildingError> {
    match spec_filter(s) {
        Ok(f) => Ok(spec_insert_x(spec_mmw(f))),
        Err(e) => Err(e),
    }
}

/// The character view of a cleaning result.
pub open spec fn res_chars(r: Result<String, DiceBuildingError>) -> Result<
    Seq<char>,
    DiceBuildingError,
> {
    match r {
        Ok(s) => Ok(s@),
        Err(e) => Err(e),
    }
}

/// The characters of a string slice, as a vector.
fn chars_vec(s: &str) -> (r: Vec<char>)
    ensures
        r@ == s@,
{
    let n = s.unicode_len();
    let mut out: Vec<char> = Vec::new();
    let mut i: usize = 0;
    while i < n
        invariant
            0 <= i <= n,
            n == s@.len(),
            out@ == s@.take(i as int),
        decreases n - i,
    {
        let c = s.get_char(i);
        out.push(c);
        proof {
            assert(out@ =~= s@.take(i + 1));
        }
        i += 1;
    }
    proof {
        assert(s@.take(n as int) =~= s@);
    }
    out
}

/// Case-fold `c` when it is an upper-case ASCII letter.
fn lower_exec(c: char) -> (r: char)
    ensures
        r == lower_char(c),
{
    if c >= 'A' && c <= 'Z' {
        ((c as u8) + 32) as char
    } else {
        c
    }
}

/// Whether `c` is in the permitted formula alphabet.
fn permitted_exec(c: char) -> (r: bool)
    ensures
        r == is_permitted_char(c),
{
    c == 'm' || c == 'i' || c == 'n' || c == 'a' || c == 'x' || c == '(' || c == ',' || c == ')'
        || c == 'd' || c == 'w' || (c >= '0' && c <= '9') || c == '+' || c == '-' || c == '*'
        || c == '/'
}

/// Whether `c` is Unicode whitespace.
fn space_exec(c: char) -> (r: bool)
    ensures
        r == is_space_char(c),
{
    c == ' ' || c == '\t' || c == '\n' || c == '\r' || c == '\u{b}' || c == '\u{c}'
        || c == '\u{85}' || c == '\u{a0}' || c == '\u{1680}' || (c >= '\u{2000}' && c
        <= '\u{200a}') || c == '\u{2028}' || c == '\u{2029}' || c == '\u{202f}' || c
        == '\u{3000}' || c == '\u{205f}'
}

/// Case-fold and filter the raw characters, rejecting the first
/// character outside the permitted alphabet.
fn filter_exec(v: &Vec<char>) -> (r: Result<Vec<char>, DiceBuildingError>)
    ensures
        match r {
            Ok(out) => spec_filter(v@) == Ok::<Seq<char>, DiceBuildingError>(out@),
            Err(e) => spec_filter(v@) == Err::<Seq<char>, DiceBuildingError>(e),
        },
{
    let mut out: Vec<char> = Vec::new();
    proof {
        assert(v@.skip(0) =~= v@);
        match spec_filter(v@) {
            Ok(rest) => {
                assert(out@ + rest =~= rest);
            },
            Err(e) => {},
        }
    }
    let mut i: usize = 0;
    while i < v.len()
        invariant
            0 <= i <= v@.len(),
            spec_filter(v@) == (match spec_filter(v@.skip(i as int)) {
                Ok(rest) => Ok::<Seq<char>, DiceBuildingError>(out@ + rest),
                Err(e) => Err::<Seq<char>, DiceBuildingError>(e),
            }),
        decreases v@.len() - i,
    {
        let c = lower_exec(v[i]);
        proof {
            assert(v@.skip(i as int)[0] == v@[i as int]);
            assert(v@.skip(i as int).drop_first() =~= v@.skip(i + 1));
        }
        if permitted_exec(c) {
            let ghost before = out@;
            out.push(c);
            proof {
                assert(out@ == before.push(c));
                assert forall|rest: Seq<char>| true implies before + (seq![c] + rest) =~= out@
                    + rest by {}
                match spec_filter(v@.skip(i + 1)) {
                    Ok(rest) => {
                        assert(before + (seq![c] + rest) =~= out@ + rest);
                    },
                    Err(e) => {},
                }
            }
        } else if space_exec(c) {
        } else {
            proof {
                assert(spec_filter(v@.skip(i as int)) == Err::<Seq<char>, DiceBuildingError>(
                    DiceBuildingError::InvalidCharacterInInput(c)));
            }
            return Err(DiceBuildingError::InvalidCharacterInInput(c));
        }
        i += 1;
    }
    proof {
        assert(v@.skip(v@.len() as int) =~= Seq::<char>::empty());
        assert(spec_filter(Seq::<char>::empty()) == Ok::<Seq<char>, DiceBuildingError>(
            Seq::<char>::empty()));
        assert(out@ + Seq::<char>::empty() =~= out@);
    }
    Ok(out)
}

/// Condense `max(`/`min(` and map `w` to `d`.
fn mmw_exec(v: &Vec<char>) -> (r: Vec<char>)
    ensures
        r@ == spec_mmw(v@),
{
    let mut out: Vec<char> = Vec::new();
    proof {
        assert(v@.skip(0) =~= v@);
        assert(out@ + spec_mmw(v@) =~= spec_mmw(v@));
    }
    let mut i: usize = 0;
    while i < v.len()
        invariant
            0 <= i <= v@.len(),
            spec_mmw(v@) == out@ + spec_mmw(v@.skip(i as int)),
        decreases v@.len() - i,
    {
        let ghost rest = v@.skip(i as int);
        proof {
            assert(rest[0] == v@[i as int]);
            assert(rest.len() == v@.len() - i);
        }
        if v.len() - i >= 4 && v[i] == 'm' && v[i + 1] == 'a' && v[i + 2] == 'x' && v[i + 3]
            == '(' {
            let ghost before = out@;
            out.push('M');
            proof {
                assert(rest[1] == v@[i + 1] && rest[2] == v@[i + 2] && rest[3] == v@[i + 3]);
                assert(rest.skip(4) =~= v@.skip(i + 4));
                assert(spec_mmw(rest) == seq!['M'] + spec_mmw(v@.skip(i + 4)));
                assert(before + (seq!['M'] + spec_mmw(v@.skip(i + 4))) =~= out@ + spec_mmw(
                    v@.skip(i + 4)));
            }
            i += 4;
        } else if v.len() - i >= 4 && v[i] == 'm' && v[i + 1] == 'i' && v[i + 2] == 'n' && v[i
            + 3] == '(' {
            let ghost before = out@;
            out.push('m');
            proof {
                assert(rest[1] == v@[i + 1] && rest[2] == v@[i + 2] && rest[3] == v@[i + 3]);
                assert(rest.skip(4) =~= v@.skip(i + 4));
                assert(spec_mmw(rest) == seq!['m'] + spec_mmw(v@.skip(i + 4)));
                assert(before + (seq!['m'] + spec_mmw(v@.skip(i + 4))) =~= out@ + spec_mmw(
                    v@.skip(i + 4)));
            }
            i += 4;
        } else {
            let c = v[i];
            let outc = if c == 'w' {
                'd'
            } else {
                c
            };
            let ghost before = out@;
            out.push(outc);
            proof {
                assert(rest.skip(1) =~= v@.skip(i + 1));
                // the two four-character branches of the specification do
                // not apply here
                if rest.len() >= 4 && rest[0] == 'm' && rest[1] == 'a' && rest[2] == 'x'
                    && rest[3] == '(' {
                    assert(v@[i + 1] == 'a' && v@[i + 2] == 'x' && v@[i + 3] == '(');
                    assert(false);
                }
                if rest.len() >= 4 && rest[0] == 'm' && rest[1] == 'i' && rest[2] == 'n'
                    && rest[3] == '(' {
                    assert(v@[i + 1] == 'i' && v@[i + 2] == 'n' && v@[i + 3] == '(');
                    assert(false);
                }
                assert(spec_mmw(rest) == seq![outc] + spec_mmw(v@.skip(i + 1)));
                assert(before + (seq![outc] + spec_mmw(v@.skip(i + 1))) =~= out@ + spec_mmw(
                    v@.skip(i + 1)));
            }
            i += 1;
        }
    }
    proof {
        assert(v@.skip(v@.len() as int) =~= Seq::<char>::empty());
        assert(spec_mmw(Seq::<char>::empty()) == Seq::<char>::empty());
        assert(out@ + Seq::<char>::empty() =~= out@);
    }
    out
}

/// Insert the explicit `x` at every implicit juxtaposition.
fn insert_x_exec(v: &Vec<char>) -> (r: Vec<char>)
    ensures
        r@ == spec_insert_x(v@),
{
    let mut out: Vec<char> = Vec::new();
    proof {
        assert(v@.skip(0) =~= v@);
        assert(out@ + spec_insert_x(v@) =~= spec_insert_x(v@));
    }
    let mut i: usize = 0;
    while i < v.len()
        invariant
            0 <= i <= v@.len(),
            spec_insert_x(v@) == out@ + spec_insert_x(v@.skip(i as int)),
        decreases v@.len() - i,
    {
        let ghost rest = v@.skip(i as int);
        proof {
            assert(rest[0] == v@[i as int]);
            assert(rest.len() == v@.len() - i);
            assert(rest.skip(1) =~= v@.skip(i + 1));
        }
        let c = v[i];
        if i + 1 < v.len() {
            proof {
                assert(rest[1] == v@[i + 1]);
            }
            let d = v[i + 1];
            let ghost before = out@;
            if digit_exec_check(c) && d == 'd' || c == ')' && (d == '(' || d == 'M' || d == 'm')
                || (digit_exec_check(c) || c == 'd') && d == '(' {
                out.push(c);
                out.push('x');
                proof {
                    assert(needs_x(rest[0], rest[1]));
                    assert(spec_insert_x(rest) == seq![c, 'x'] + spec_insert_x(v@.skip(i + 1)));
                    assert(before + (seq![c, 'x'] + spec_insert_x(v@.skip(i + 1))) =~= out@
                        + spec_insert_x(v@.skip(i + 1)));
                }
            } else {
                out.push(c);
                proof {
                    assert(!needs_x(rest[0], rest[1]));
                    assert(spec_insert_x(rest) == seq![c] + spec_insert_x(v@.skip(i + 1)));
                    assert(before + (seq![c] + spec_insert_x(v@.skip(i + 1))) =~= out@
                        + spec_insert_x(v@.skip(i + 1)));
                }
            }
        } else {
            let ghost before = out@;
            out.push(c);
            proof {
                assert(rest.len() == 1);
                assert(spec_insert_x(rest) == rest);
                assert(rest =~= seq![c]);
                assert(v@.skip(i + 1) =~= Seq::<char>::empty());
                assert(spec_insert_x(v@.skip(i + 1)) == Seq::<char>::empty());
                assert(before + seq![c] =~= out@ + Seq::<char>::empty());
            }
        }
        i += 1;
    }
    proof {
        assert(v@.skip(v@.len() as int) =~= Seq::<char>::empty());
        assert(out@ + Seq::<char>::empty() =~= out@);
    }
    out
}

/// Whether `c` is a decimal digit.
fn digit_exec_check(c: char) -> (r: bool)
    ensures
        r == is_digit_char(c),
{
    c >= '0' && c <= '9'
}

/// Brings a raw formula string into its cleaned form: case-folded,
/// whitespace dropped, characters outside the permitted alphabet
/// rejected, `max(`/`min(`/`w` condensed, and implicit sample-sum
/// operators made explicit.
pub fn clean_string(s: &str) -> (r: Result<String, DiceBuildingError>)
    ensures
        res_chars(r) == spec_clean(s@),
{
    let raw = chars_vec(s);
    let filtered = match filter_exec(&raw) {
        Ok(f) => f,
        Err(e) => {
            return Err(e);
        },
    };
    let condensed = mmw_exec(&filtered);
    let rewritten = insert_x_exec(&condensed);
    Ok(crate::dice_builder::chars_to_string(&rewritten))
}


/// the number of leading decimal digits
pub open spec fn digits_len(s: Seq<char>) -> int
    decreases s.len(),
{
    if s.len() == 0 || !is_digit_char(s[0]) {
        0
    } else {
        1 + digits_len(s.drop_first())
    }
}

/// the numeric value of a sequence of decimal digits
pub open spec fn digits_val(s: Seq<char>) -> int
    decreases s.len(),
{
    if s.len() == 0 {
        0
    } else {
        digits_val(s.drop_last()) * 10 + (s.last() as int - '0' as int)
    }
}

/// The digit count never exceeds the length.
proof fn lemma_digits_len_bound(s: Seq<char>)
    ensures
        0 <= digits_len(s) <= s.len(),
    decreases s.len(),
{
    if s.len() > 0 && is_digit_char(s[0]) {
        lemma_digits_len_bound(s.drop_first());
    }
}

/// The digit count is the exact length of the leading digit run.
proof fn lemma_digits_len_of(s: Seq<char>, k: int)
    requires
        0 <= k <= s.len(),
        forall|m: int| 0 <= m < k ==> is_digit_char(#[trigger] s[m]),
        k < s.len() ==> !is_digit_char(s[k]),
    ensures
        digits_len(s) == k,
    decreases s.len(),
{
    if k == 0 {
    } else {
        assert(is_digit_char(s[0]));
        assert(forall|m: int| 0 <= m < s.drop_first().len() ==> #[trigger] s.drop_first()[m]
            == s[m + 1]);
        lemma_digits_len_of(s.drop_first(), k - 1);
    }
}

/// prepend one token to a tokenization result
pub open spec fn cons_tok(t: InputSymbol, r: Result<Seq<InputSymbol>, DiceBuildingError>) -> Result<
    Seq<InputSymbol>,
    DiceBuildingError,
> {
    match r {
        Ok(v) => Ok(seq![t] + v),
        Err(e) => Err(e),
    }
}

/// The token sequence of a cleaned formula string.  A minus sign is
/// rewritten in-stream as `+ (-1) *`, so the parser needs no separate
/// unary-minus rule.
pub open spec fn spec_tokens(s: Seq<char>) -> Result<Seq<InputSymbol>, DiceBuildingError>
    decreases s.len(),
    via spec_tokens_decreases
{
    if s.len() == 0 {
        Ok(Seq::<InputSymbol>::empty())
    } else {
        let c = s[0];
        if c == 'M' {
            cons_tok(InputSymbol::Opening(OpeningInputSymbol::MaxOpening), spec_tokens(s.skip(1)))
        } else if c == 'm' {
            cons_tok(InputSymbol::Opening(OpeningInputSymbol::MinOpening), spec_tokens(s.skip(1)))
        } else if c == '(' {
            cons_tok(InputSymbol::Opening(OpeningInputSymbol::BOpening), spec_tokens(s.skip(1)))
        } else if c == ')' {
            cons_tok(InputSymbol::Closing(ClosingInputSymbol::BClosing), spec_tokens(s.skip(1)))
        } else if c == ',' {
            cons_tok(InputSymbol::Separator(SeparatorInputSymbol::Comma), spec_tokens(s.skip(1)))
        } else if c == '*' {
            cons_tok(InputSymbol::Operator(OperatorInputSymbol::Mul), spec_tokens(s.skip(1)))
        } else if c == 'x' {
            cons_tok(InputSymbol::Operator(OperatorInputSymbol::SampleSum),
                spec_tokens(s.skip(1)))
        } else if c == '+' {
            cons_tok(InputSymbol::Operator(OperatorInputSymbol::Add), spec_tokens(s.skip(1)))
        } else if c == '/' {
            cons_tok(InputSymbol::Operator(OperatorInputSymbol::Div), spec_tokens(s.skip(1)))
        } else if c == '-' {
            cons_tok(InputSymbol::Operator(OperatorInputSymbol::Add),
                cons_tok(InputSymbol::Atomic(AtomicInputSymbol::Constant(-1i64)),
                    cons_tok(InputSymbol::Operator(OperatorInputSymbol::Mul),
                        spec_tokens(s.skip(1)))))
        } else if c == 'd' {
            let k = digits_len(s.skip(1));
            if k == 0 || digits_val(s.skip(1).take(k)) > i64::MAX {
                Err(DiceBuildingError::NonDigitSymbolAfterDiceD)
            } else {
                cons_tok(InputSymbol::Atomic(AtomicInputSymbol::FairDie {
                    min: 1,
                    max: digits_val(s.skip(1).take(k)) as i64,
                }), spec_tokens(s.skip(1 + k)))
            }
        } else if is_digit_char(c) {
            let k = digits_len(s);
            if digits_val(s.take(k)) > i64::MAX {
                Err(DiceBuildingError::NonDigitNumericCharacter)
            } else {
                cons_tok(InputSymbol::Atomic(AtomicInputSymbol::Constant(digits_val(s.take(k))
                    as i64)), spec_tokens(s.skip(k)))
            }
        } else {
            Err(DiceBuildingError::NonDigitNumericCharacter)
        }
    }
}

#[via_fn]
proof fn spec_tokens_decreases(s: Seq<char>) {
    if s.len() > 0 {
        lemma_digits_len_bound(s.skip(1));
        lemma_digits_len_bound(s);
        if is_digit_char(s[0]) {
            assert(digits_len(s) >= 1);
        }
    }
}

/// the token at `i` survives the purge: a `+` is dropped when it is
/// first, last, or not preceded by an atom or a closing bracket
pub open spec fn keep_tok(s: Seq<InputSymbol>, i: int) -> bool {
    !(s[i] == InputSymbol::Operator(OperatorInputSymbol::Add) && (i == 0 || i == s.len() - 1 || !(
    s[i - 1] is Atomic || s[i - 1] is Closing)))
}

/// the purge of spurious `+` tokens, from position `i` on
pub open spec fn purge_from(s: Seq<InputSymbol>, i: int) -> Seq<InputSymbol>
    decreases s.len() - i,
{
    if i < 0 || i >= s.len() {
        Seq::<InputSymbol>::empty()
    } else if keep_tok(s, i) {
        seq![s[i]] + purge_from(s, i + 1)
    } else {
        purge_from(s, i + 1)
    }
}

/// the token sequence with spurious `+` tokens purged
pub open spec fn spec_purge(s: Seq<InputSymbol>) -> Seq<InputSymbol> {
    purge_from(s, 0)
}

/// The symbol view of a lexing result.
pub open spec fn res_syms(r: Result<Vec<InputSymbol>, DiceBuildingError>) -> Result<
    Seq<InputSymbol>,
    DiceBuildingError,
> {
    match r {
        Ok(v) => Ok(v@),
        Err(e) => Err(e),
    }
}

/// The input symbols of a raw formula string: cleaned, tokenized, and
/// purged of spurious `+` tokens.
pub open spec fn spec_lex(s: Seq<char>) -> Result<Seq<InputSymbol>, DiceBuildingError> {
    match spec_clean(s) {
        Ok(c) => match spec_tokens(c) {
            Ok(t) => Ok(spec_purge(t)),
            Err(e) => Err(e),
        },
        Err(e) => Err(e),
    }
}

/// Scan the digit run starting at `start`: its end, and its value when
/// it fits an `i64`.
fn scan_digits(v: &Vec<char>, start: usize) -> (r: (usize, Option<i64>))
    requires
        start <= v@.len(),
    ensures
        start <= r.0 <= v@.len(),
        r.0 - start == digits_len(v@.skip(start as int)),
        match r.1 {
            Some(x) => x as int == digits_val(v@.skip(start as int).take(r.0 - start)) && x >= 0,
            None => digits_val(v@.skip(start as int).take(r.0 - start)) > i64::MAX,
        },
{
    let ghost s = v@.skip(start as int);
    let mut j: usize = start;
    let mut acc: u64 = 0;
    let mut over: bool = false;
    proof {
        assert(s.take(0) =~= Seq::<char>::empty());
    }
    while j < v.len() && v[j] >= '0' && v[j] <= '9'
        invariant
            start <= j <= v@.len(),
            s == v@.skip(start as int),
            forall|m: int| 0 <= m < j - start ==> is_digit_char(#[trigger] s[m]),
            !over ==> acc as int == digits_val(s.take(j - start)) && acc <= i64::MAX as u64,
            over ==> digits_val(s.take(j - start)) > i64::MAX,
        decreases v@.len() - j,
    {
        proof {
            assert(s[j - start] == v@[j as int]);
            assert(s.take(j - start + 1).drop_last() =~= s.take(j - start));
            assert(s.take(j - start + 1).last() == s[j - start]);
        }
        let d: u64 = ((v[j] as u8) - 48) as u64;
        proof {
            assert(d as int == v@[j as int] as int - '0' as int);
            assert(digits_val(s.take(j - start + 1)) == digits_val(s.take(j - start)) * 10
                + d as int);
        }
        if !over {
            let wide: u128 = (acc as u128) * 10 + (d as u128);
            if wide > i64::MAX as u128 {
                over = true;
            } else {
                acc = wide as u64;
            }
        }
        j += 1;
    }
    proof {
        assert(j < v@.len() ==> !is_digit_char(s[j - start])) by {
            if j < v@.len() {
                assert(s[j - start] == v@[j as int]);
            }
        }
        lemma_digits_len_of(s, j - start);
    }
    if over {
        (j, None)
    } else {
        (j, Some(acc as i64))
    }
}


/// Tokenize a cleaned formula string.
fn tokens_exec(v: &Vec<char>) -> (r: Result<Vec<InputSymbol>, DiceBuildingError>)
    ensures
        res_syms(r) == spec_tokens(v@),
{
    let mut out: Vec<InputSymbol> = Vec::new();
    proof {
        assert(v@.skip(0) =~= v@);
        match spec_tokens(v@) {
            Ok(rest) => {
                assert(out@ + rest =~= rest);
            },
            Err(e) => {},
        }
    }
    let mut i: usize = 0;
    while i < v.len()
        invariant
            0 <= i <= v@.len(),
            spec_tokens(v@) == (match spec_tokens(v@.skip(i as int)) {
                Ok(rest) => Ok::<Seq<InputSymbol>, DiceBuildingError>(out@ + rest),
                Err(e) => Err::<Seq<InputSymbol>, DiceBuildingError>(e),
            }),
        decreases v@.len() - i,
    {
        let ghost rest = v@.skip(i as int);
        proof {
            assert(rest[0] == v@[i as int]);
            assert(rest.skip(1) =~= v@.skip(i + 1));
        }
        let c = v[i];
        if c == 'M' || c == 'm' || c == '(' || c == ')' || c == ',' || c == '*' || c == 'x' || c
            == '+' || c == '/' {
            let t = if c == 'M' {
                InputSymbol::Opening(OpeningInputSymbol::MaxOpening)
            } else if c == 'm' {
                InputSymbol::Opening(OpeningInputSymbol::MinOpening)
            } else if c == '(' {
                InputSymbol::Opening(OpeningInputSymbol::BOpening)
            } else if c == ')' {
                InputSymbol::Closing(ClosingInputSymbol::BClosing)
            } else if c == ',' {
                InputSymbol::Separator(SeparatorInputSymbol::Comma)
            } else if c == '*' {
                InputSymbol::Operator(OperatorInputSymbol::Mul)
            } else if c == 'x' {
                InputSymbol::Operator(OperatorInputSymbol::SampleSum)
            } else if c == '+' {
                InputSymbol::Operator(OperatorInputSymbol::Add)
            } else {
                InputSymbol::Operator(OperatorInputSymbol::Div)
            };
            let ghost before = out@;
            out.push(t);
            proof {
                assert(spec_tokens(rest) == cons_tok(t, spec_tokens(v@.skip(i + 1))));
                match spec_tokens(v@.skip(i + 1)) {
                    Ok(more) => {
                        assert(before + (seq![t] + more) =~= out@ + more);
                    },
                    Err(e) => {},
                }
            }
            i += 1;
        } else if c == '-' {
            let ghost before = out@;
            out.push(InputSymbol::Operator(OperatorInputSymbol::Add));
            out.push(InputSymbol::Atomic(AtomicInputSymbol::Constant(-1)));
            out.push(InputSymbol::Operator(OperatorInputSymbol::Mul));
            proof {
                let t1 = InputSymbol::Operator(OperatorInputSymbol::Add);
                let t2 = InputSymbol::Atomic(AtomicInputSymbol::Constant(-1i64));
                let t3 = InputSymbol::Operator(OperatorInputSymbol::Mul);
                match spec_tokens(v@.skip(i + 1)) {
                    Ok(more) => {
                        assert(before + (seq![t1] + (seq![t2] + (seq![t3] + more))) =~= out@
                            + more);
                    },
                    Err(e) => {},
                }
            }
            i += 1;
        } else if c == 'd' {
            let (end, val) = scan_digits(v, i + 1);
            proof {
                assert(rest.skip(1).take(end - (i + 1)) =~= v@.skip(i + 1).take(end - (i
                    + 1)));
                assert(digits_len(rest.skip(1)) == end - (i + 1));
            }
            if end == i + 1 {
                proof {
                    assert(spec_tokens(rest) == Err::<Seq<InputSymbol>, DiceBuildingError>(
                        DiceBuildingError::NonDigitSymbolAfterDiceD));
                }
                return Err(DiceBuildingError::NonDigitSymbolAfterDiceD);
            }
            match val {
                None => {
                    proof {
                        assert(spec_tokens(rest) == Err::<Seq<InputSymbol>, DiceBuildingError>(
                            DiceBuildingError::NonDigitSymbolAfterDiceD));
                    }
                    return Err(DiceBuildingError::NonDigitSymbolAfterDiceD);
                },
                Some(x) => {
                    let t = InputSymbol::Atomic(AtomicInputSymbol::FairDie { min: 1, max: x });
                    let ghost before = out@;
                    out.push(t);
                    proof {
                        let k = digits_len(rest.skip(1));
                        assert(rest.skip(1 + k) =~= v@.skip(end as int));
                        assert(spec_tokens(rest) == cons_tok(t, spec_tokens(v@.skip(
                            end as int))));
                        match spec_tokens(v@.skip(end as int)) {
                            Ok(more) => {
                                assert(before + (seq![t] + more) =~= out@ + more);
                            },
                            Err(e) => {},
                        }
                    }
                    i = end;
                },
            }
        } else if c >= '0' && c <= '9' {
            let (end, val) = scan_digits(v, i);
            proof {
                assert(rest.take(end - i) =~= v@.skip(i as int).take(end - i));
                assert(digits_len(rest) == end - i);
                assert(is_digit_char(rest[0]));
                assert(rest.len() == v@.len() - i);
                assert(rest.len() > 0);
                assert(digits_len(rest) == 1 + digits_len(rest.drop_first()));
                lemma_digits_len_bound(rest.drop_first());
                assert(digits_len(rest) >= 1);
                assert(end > i);
            }
            match val {
                None => {
                    proof {
                        assert(spec_tokens(rest) == Err::<Seq<InputSymbol>, DiceBuildingError>(
                            DiceBuildingError::NonDigitNumericCharacter));
                    }
                    return Err(DiceBuildingError::NonDigitNumericCharacter);
                },
                Some(x) => {
                    let t = InputSymbol::Atomic(AtomicInputSymbol::Constant(x));
                    let ghost before = out@;
                    out.push(t);
                    proof {
                        let k = digits_len(rest);
                        assert(rest.skip(k) =~= v@.skip(end as int));
                        assert(spec_tokens(rest) == cons_tok(t, spec_tokens(v@.skip(
                            end as int))));
                        match spec_tokens(v@.skip(end as int)) {
                            Ok(more) => {
                                assert(before + (seq![t] + more) =~= out@ + more);
                            },
                            Err(e) => {},
                        }
                    }
                    i = end;
                },
            }
        } else {
            proof {
                assert(spec_tokens(rest) == Err::<Seq<InputSymbol>, DiceBuildingError>(
                    DiceBuildingError::NonDigitNumericCharacter));
            }
            return Err(DiceBuildingError::NonDigitNumericCharacter);
        }
    }
    proof {
        assert(v@.skip(v@.len() as int) =~= Seq::<char>::empty());
        assert(spec_tokens(Seq::<char>::empty()) == Ok::<Seq<InputSymbol>, DiceBuildingError>(
            Seq::<InputSymbol>::empty()));
        assert(out@ + Seq::<InputSymbol>::empty() =~= out@);
    }
    Ok(out)
}

/// Purge spurious `+` tokens: every `+` that is first, last, or not
/// preceded by an atom or closing bracket is dropped.
fn purge_exec(v: &Vec<InputSymbol>) -> (r: Vec<InputSymbol>)
    ensures
        r@ == spec_purge(v@),
{
    let mut out: Vec<InputSymbol> = Vec::new();
    proof {
        assert(out@ + purge_from(v@, 0) =~= purge_from(v@, 0));
    }
    let mut i: usize = 0;
    while i < v.len()
        invariant
            0 <= i <= v@.len(),
            spec_purge(v@) == out@ + purge_from(v@, i as int),
        decreases v@.len() - i,
    {
        let is_add = v[i] == InputSymbol::Operator(OperatorInputSymbol::Add);
        let dropped = is_add && (i == 0 || i + 1 == v.len() || !(match v[i - 1] {
            InputSymbol::Atomic(_) => true,
            InputSymbol::Closing(_) => true,
            _ => false,
        }));
        if !dropped {
            let ghost before = out@;
            out.push(v[i]);
            proof {
                assert(keep_tok(v@, i as int));
                assert(purge_from(v@, i as int) == seq![v@[i as int]] + purge_from(v@, i + 1));
                assert(before + (seq![v@[i as int]] + purge_from(v@, i + 1)) =~= out@
                    + purge_from(v@, i + 1));
            }
        } else {
            proof {
                assert(!keep_tok(v@, i as int));
                assert(purge_from(v@, i as int) == purge_from(v@, i + 1));
            }
        }
        i += 1;
    }
    proof {
        assert(purge_from(v@, v@.len() as int) =~= Seq::<InputSymbol>::empty());
        assert(out@ + Seq::<InputSymbol>::empty() =~= out@);
    }
    out
}

/// Turn a raw formula string into its input symbols: cleaned,
/// tokenized, and purged of spurious `+` tokens.
pub fn string_to_input_symbols(input: &str) -> (r: Result<Vec<InputSymbol>, DiceBuildingError>)
    ensures
        res_syms(r) == spec_lex(input@),
{
    let cleaned = match clean_string(input) {
        Ok(c) => c,
        Err(e) => {
            return Err(e);
        },
    };
    let chars = chars_vec(cleaned.as_str());
    let toks = match tokens_exec(&chars) {
        Ok(t) => t,
        Err(e) => {
            return Err(e);
        },
    };
    Ok(purge_exec(&toks))
}


/// the parser's intermediate sequence representation: one node per
/// precedence level, atoms at the leaves
#[derive(Debug, PartialEq, Eq)]
pub enum GraphSeq {
    /// an atomic formula
    Atomic(DiceBuilder),
    /// `+`-joined subtrees
    Add(Vec<GraphSeq>),
    /// `*`-joined subtrees
    Mul(Vec<GraphSeq>),
    /// `/`-joined subtrees
    Div(Vec<GraphSeq>),
    /// `min(...)` arguments
    Min(Vec<GraphSeq>),
    /// `max(...)` arguments
    Max(Vec<GraphSeq>),
    /// `x`-joined subtrees
    SampleSum(Vec<GraphSeq>),
}

/// Whether a depth-zero occurrence of `op` exists; `NegativeScope` when
/// a closing bracket appears at depth zero first.
pub open spec fn scan_op(s: Seq<InputSymbol>, op: OperatorInputSymbol, depth: int) -> Result<
    bool,
    DiceBuildingError,
>
    decreases s.len(),
{
    if s.len() == 0 {
        Ok(false)
    } else if depth == 0 && s[0] == InputSymbol::Operator(op) {
        Ok(true)
    } else {
        match s[0] {
            InputSymbol::Opening(_) => scan_op(s.drop_first(), op, depth + 1),
            InputSymbol::Closing(_) => if depth == 0 {
                Err(DiceBuildingError::NegativeScope)
            } else {
                scan_op(s.drop_first(), op, depth - 1)
            },
            _ => scan_op(s.drop_first(), op, depth),
        }
    }
}

/// Split at depth-zero occurrences of `sep`, accumulating the current
/// segment and the finished segments.
pub open spec fn split_rec(
    s: Seq<InputSymbol>,
    sep: InputSymbol,
    cur: Seq<InputSymbol>,
    depth: int,
    acc: Seq<Seq<InputSymbol>>,
) -> Result<Seq<Seq<InputSymbol>>, DiceBuildingError>
    decreases s.len(),
{
    if s.len() == 0 {
        Ok(acc.push(cur))
    } else if depth == 0 && s[0] == sep {
        split_rec(s.drop_first(), sep, Seq::<InputSymbol>::empty(), 0, acc.push(cur))
    } else {
        match s[0] {
            InputSymbol::Opening(_) => split_rec(s.drop_first(), sep, cur.push(s[0]), depth + 1,
                acc),
            InputSymbol::Closing(_) => if depth == 0 {
                Err(DiceBuildingError::NegativeScope)
            } else {
                split_rec(s.drop_first(), sep, cur.push(s[0]), depth - 1, acc)
            },
            _ => split_rec(s.drop_first(), sep, cur.push(s[0]), depth, acc),
        }
    }
}

/// The depth-aware split of `s` at `sep`; an empty segment means two
/// operators stood next to each other.
pub open spec fn spec_split(s: Seq<InputSymbol>, sep: InputSymbol) -> Result<
    Seq<Seq<InputSymbol>>,
    DiceBuildingError,
> {
    match split_rec(s, sep, Seq::<InputSymbol>::empty(), 0, Seq::<Seq<InputSymbol>>::empty()) {
        Ok(segs) => if exists|i: int| 0 <= i < segs.len() && (#[trigger] segs[i]).len() == 0 {
            Err(DiceBuildingError::MultipleOperatorsBehindEachOther)
        } else {
            Ok(segs)
        },
        Err(e) => Err(e),
    }
}

/// What the parser produces for a symbol sequence.
///
/// The sequence is parsed by precedence: it splits at the loosest
/// operator present at bracket depth zero (`+`, then `/`, then `*`,
/// then `x`), a bracketed sequence collapses to its interior, and
/// `max(...)`/`min(...)` split their interior at depth-zero commas.
pub open spec fn parse_rel(s: Seq<InputSymbol>, r: Result<GraphSeq, DiceBuildingError>) -> bool
    decreases s.len(),
{
    if s.len() == 0 {
        r == Err::<GraphSeq, DiceBuildingError>(DiceBuildingError::EmptySubSequence)
    } else if s.len() == 1 {
        match s[0] {
            InputSymbol::Atomic(AtomicInputSymbol::Constant(x)) => r matches Ok(g) && g matches
                GraphSeq::Atomic(t) && t == DiceBuilder::Constant(x),
            InputSymbol::Atomic(AtomicInputSymbol::FairDie { min, max }) => r matches Ok(g)
                && g matches GraphSeq::Atomic(t) && t == DiceBuilder::FairDie { min, max },
            e => r == Err::<GraphSeq, DiceBuildingError>(
                DiceBuildingError::OneInputSymbolButNotAtomic(e)),
        }
    } else {
        match scan_op(s, OperatorInputSymbol::Add, 0) {
            Err(e) => r == Err::<GraphSeq, DiceBuildingError>(e),
            Ok(true) => split_children_rel(s, InputSymbol::Operator(OperatorInputSymbol::Add), r)
                && (r matches Ok(g) ==> g is Add),
            Ok(false) => match scan_op(s, OperatorInputSymbol::Div, 0) {
                Err(e) => r == Err::<GraphSeq, DiceBuildingError>(e),
                Ok(true) => split_children_rel(s, InputSymbol::Operator(OperatorInputSymbol::Div),
                    r) && (r matches Ok(g) ==> g is Div),
                Ok(false) => match scan_op(s, OperatorInputSymbol::Mul, 0) {
                    Err(e) => r == Err::<GraphSeq, DiceBuildingError>(e),
                    Ok(true) => split_children_rel(s,
                        InputSymbol::Operator(OperatorInputSymbol::Mul), r) && (r matches Ok(g)
                        ==> g is Mul),
                    Ok(false) => match scan_op(s, OperatorInputSymbol::SampleSum, 0) {
                        Err(e) => r == Err::<GraphSeq, DiceBuildingError>(e),
                        Ok(true) => split_children_rel(s,
                            InputSymbol::Operator(OperatorInputSymbol::SampleSum), r) && (
                        r matches Ok(g) ==> g is SampleSum),
                        Ok(false) => bracket_rel(s, r),
                    },
                },
            },
        }
    }
}

/// the split's segments parse to the node's children, one each
pub open spec fn split_children_rel(
    s: Seq<InputSymbol>,
    sep: InputSymbol,
    r: Result<GraphSeq, DiceBuildingError>,
) -> bool
    decreases s.len(), 0int,
{
    match spec_split(s, sep) {
        Err(e) => r == Err::<GraphSeq, DiceBuildingError>(e),
        Ok(segs) => match r {
            Ok(g) => children_of(g).len() == segs.len() && (forall|i: int|
                0 <= i < segs.len() ==> ((#[trigger] segs[i]).len() < s.len()
                    ==> parse_rel(segs[i], Ok(children_of(g)[i])))),
            Err(e) => exists|i: int|
                0 <= i < segs.len() && (#[trigger] segs[i]).len() < s.len() && parse_rel(
                    segs[i], Err(e)),
        },
    }
}

/// a bracketed sequence: plain brackets collapse, `max(`/`min(` split
/// their interior at commas
pub open spec fn bracket_rel(s: Seq<InputSymbol>, r: Result<GraphSeq, DiceBuildingError>) -> bool
    decreases s.len(), 1int,
{
    if s.len() >= 2 && s[0] is Opening && s.last() is Closing {
        let interior = s.subrange(1, s.len() - 1);
        match s[0] {
            InputSymbol::Opening(OpeningInputSymbol::BOpening) => parse_rel(interior, r),
            InputSymbol::Opening(OpeningInputSymbol::MaxOpening) => comma_children_rel(s,
                interior, r) && (r matches Ok(g) ==> g is Max),
            _ => comma_children_rel(s, interior, r) && (r matches Ok(g) ==> g is Min),
        }
    } else {
        r matches Err(e) && e matches DiceBuildingError::UnknownSyntaxError(v) && v@ == s
    }
}

/// the interior's comma segments parse to the node's children
pub open spec fn comma_children_rel(
    s: Seq<InputSymbol>,
    interior: Seq<InputSymbol>,
    r: Result<GraphSeq, DiceBuildingError>,
) -> bool
    decreases s.len(), 0int,
{
    match spec_split(interior, InputSymbol::Separator(SeparatorInputSymbol::Comma)) {
        Err(e) => r == Err::<GraphSeq, DiceBuildingError>(e),
        Ok(segs) => match r {
            Ok(g) => children_of(g).len() == segs.len() && (forall|i: int|
                0 <= i < segs.len() ==> ((#[trigger] segs[i]).len() < s.len()
                    ==> parse_rel(segs[i], Ok(children_of(g)[i])))),
            Err(e) => exists|i: int|
                0 <= i < segs.len() && (#[trigger] segs[i]).len() < s.len() && parse_rel(
                    segs[i], Err(e)),
        },
    }
}

/// the children of a compound parse node
pub open spec fn children_of(g: GraphSeq) -> Seq<GraphSeq> {
    match g {
        GraphSeq::Atomic(_) => Seq::<GraphSeq>::empty(),
        GraphSeq::Add(ch) => ch@,
        GraphSeq::Mul(ch) => ch@,
        GraphSeq::Div(ch) => ch@,
        GraphSeq::Min(ch) => ch@,
        GraphSeq::Max(ch) => ch@,
        GraphSeq::SampleSum(ch) => ch@,
    }
}


/// the sequence view of a vector of segments
pub open spec fn segs_view(v: Seq<Vec<InputSymbol>>) -> Seq<Seq<InputSymbol>> {
    v.map(|i: int, e: Vec<InputSymbol>| e@)
}

/// Whether a depth-zero occurrence of `operator` exists in the global
/// scope; an unbalanced closing bracket is reported instead.
pub fn global_scope_contains_operator(
    symbols: &Vec<InputSymbol>,
    operator: OperatorInputSymbol,
) -> (r: Result<bool, DiceBuildingError>)
    ensures
        match r {
            Ok(b) => scan_op(symbols@, operator, 0) == Ok::<bool, DiceBuildingError>(b),
            Err(e) => scan_op(symbols@, operator, 0) == Err::<bool, DiceBuildingError>(e),
        },
{
    let mut depth: usize = 0;
    let mut i: usize = 0;
    proof {
        assert(symbols@.skip(0) =~= symbols@);
    }
    while i < symbols.len()
        invariant
            0 <= i <= symbols@.len(),
            depth <= i,
            scan_op(symbols@, operator, 0) == scan_op(symbols@.skip(i as int), operator,
                depth as int),
        decreases symbols@.len() - i,
    {
        proof {
            assert(symbols@.skip(i as int)[0] == symbols@[i as int]);
            assert(symbols@.skip(i as int).drop_first() =~= symbols@.skip(i + 1));
        }
        let sym = symbols[i];
        if depth == 0 && sym == InputSymbol::Operator(operator) {
            return Ok(true);
        }
        match sym {
            InputSymbol::Opening(_) => {
                depth += 1;
            },
            InputSymbol::Closing(_) => {
                if depth == 0 {
                    return Err(DiceBuildingError::NegativeScope);
                }
                depth -= 1;
            },
            _ => {},
        }
        i += 1;
    }
    proof {
        assert(symbols@.skip(symbols@.len() as int) =~= Seq::<InputSymbol>::empty());
    }
    Ok(false)
}

/// Split the symbols at depth-zero occurrences of `sep_symbol` into
/// segments; an empty segment means two operators stood next to each
/// other, an unbalanced closing bracket is reported as such.
pub fn partition_input_symbols_bracket_aware(
    input_symbols: &Vec<InputSymbol>,
    sep_symbol: InputSymbol,
) -> (r: Result<Vec<Vec<InputSymbol>>, DiceBuildingError>)
    ensures
        match r {
            Ok(v) => spec_split(input_symbols@, sep_symbol) == Ok::<
                Seq<Seq<InputSymbol>>,
                DiceBuildingError,
            >(segs_view(v@)) && v@.len() >= 1 && (forall|j: int|
                0 <= j < v@.len() ==> (#[trigger] v@[j])@.len() + v@.len() - 1
                    <= input_symbols@.len()),
            Err(e) => spec_split(input_symbols@, sep_symbol) == Err::<
                Seq<Seq<InputSymbol>>,
                DiceBuildingError,
            >(e),
        },
{
    let ghost emp_seg = Seq::<InputSymbol>::empty();
    let ghost emp_acc = Seq::<Seq<InputSymbol>>::empty();
    let mut acc: Vec<Vec<InputSymbol>> = Vec::new();
    let mut cur: Vec<InputSymbol> = Vec::new();
    let mut depth: usize = 0;
    let mut i: usize = 0;
    proof {
        assert(input_symbols@.skip(0) =~= input_symbols@);
        assert(segs_view(acc@) =~= emp_acc);
    }
    while i < input_symbols.len()
        invariant
            0 <= i <= input_symbols@.len(),
            depth <= i,
            split_rec(input_symbols@, sep_symbol, emp_seg, 0, emp_acc) == split_rec(
                input_symbols@.skip(i as int), sep_symbol, cur@, depth as int, segs_view(acc@)),
            emp_seg == Seq::<InputSymbol>::empty(),
            emp_acc == Seq::<Seq<InputSymbol>>::empty(),
            cur@.len() + acc@.len() <= i,
            forall|j: int| 0 <= j < acc@.len() ==> (#[trigger] acc@[j])@.len() + acc@.len() <= i,
        decreases input_symbols@.len() - i,
    {
        proof {
            assert(input_symbols@.skip(i as int)[0] == input_symbols@[i as int]);
            assert(input_symbols@.skip(i as int).drop_first() =~= input_symbols@.skip(i + 1));
        }
        let sym = input_symbols[i];
        if depth == 0 && sym == sep_symbol {
            let ghost before_acc = acc@;
            let done = cur;
            acc.push(done);
            cur = Vec::new();
            proof {
                assert(segs_view(acc@) =~= segs_view(before_acc).push(done@));
                assert forall|j: int| 0 <= j < acc@.len() implies (#[trigger] acc@[j])@.len()
                    + acc@.len() <= i + 1 by {
                    if j < before_acc.len() {
                        assert(acc@[j] == before_acc[j]);
                    }
                }
            }
        } else {
            match sym {
                InputSymbol::Opening(_) => {
                    cur.push(sym);
                    depth += 1;
                },
                InputSymbol::Closing(_) => {
                    if depth == 0 {
                        return Err(DiceBuildingError::NegativeScope);
                    }
                    cur.push(sym);
                    depth -= 1;
                },
                _ => {
                    cur.push(sym);
                },
            }
        }
        i += 1;
    }
    proof {
        assert(input_symbols@.skip(input_symbols@.len() as int) =~= Seq::<InputSymbol>::empty());
    }
    let ghost before_acc = acc@;
    acc.push(cur);
    proof {
        assert(segs_view(acc@) =~= segs_view(before_acc).push(acc@[acc@.len() - 1]@));
        assert(split_rec(input_symbols@, sep_symbol, emp_seg, 0, emp_acc) == Ok::<
            Seq<Seq<InputSymbol>>,
            DiceBuildingError,
        >(segs_view(acc@)));
        assert forall|j: int| 0 <= j < acc@.len() implies (#[trigger] acc@[j])@.len()
            + acc@.len() - 1 <= input_symbols@.len() by {
            if j < before_acc.len() {
                assert(acc@[j] == before_acc[j]);
            }
        }
    }
    let mut j: usize = 0;
    while j < acc.len()
        invariant
            0 <= j <= acc@.len(),
            forall|m: int| 0 <= m < j ==> (#[trigger] acc@[m])@.len() != 0,
            split_rec(input_symbols@, sep_symbol, Seq::<InputSymbol>::empty(), 0,
                Seq::<Seq<InputSymbol>>::empty()) == Ok::<
                Seq<Seq<InputSymbol>>,
                DiceBuildingError,
            >(segs_view(acc@)),
            acc@.len() >= 1,
            forall|m: int| 0 <= m < acc@.len() ==> (#[trigger] acc@[m])@.len() + acc@.len() - 1
                <= input_symbols@.len(),
        decreases acc@.len() - j,
    {
        if acc[j].len() == 0 {
            proof {
                assert(segs_view(acc@)[j as int].len() == 0);
            }
            return Err(DiceBuildingError::MultipleOperatorsBehindEachOther);
        }
        j += 1;
    }
    proof {
        assert forall|m: int| 0 <= m < segs_view(acc@).len() implies (#[trigger] segs_view(
            acc@)[m]).len() != 0 by {
            assert(segs_view(acc@)[m] == acc@[m]@);
        }
    }
    Ok(acc)
}

/// The symbols with the first and last entries stripped.
pub fn vec_without_last_and_first(v: &Vec<InputSymbol>) -> (r: Vec<InputSymbol>)
    requires
        v@.len() >= 2,
    ensures
        r@ == v@.subrange(1, v@.len() - 1),
{
    let mut out: Vec<InputSymbol> = Vec::new();
    let mut i: usize = 1;
    while i < v.len() - 1
        invariant
            1 <= i <= v@.len() - 1,
            v@.len() >= 2,
            out@ == v@.subrange(1, i as int),
        decreases v@.len() - i,
    {
        out.push(v[i]);
        proof {
            assert(out@ =~= v@.subrange(1, i + 1));
        }
        i += 1;
    }
    proof {
        assert(out@ =~= v@.subrange(1, v@.len() - 1));
    }
    out
}

/// A copy of the symbols, for error reporting.
fn copy_syms(v: &Vec<InputSymbol>) -> (r: Vec<InputSymbol>)
    ensures
        r@ == v@,
{
    let mut out: Vec<InputSymbol> = Vec::new();
    let mut i: usize = 0;
    while i < v.len()
        invariant
            0 <= i <= v@.len(),
            out@ == v@.take(i as int),
        decreases v@.len() - i,
    {
        out.push(v[i]);
        proof {
            assert(out@ =~= v@.take(i + 1));
        }
        i += 1;
    }
    proof {
        assert(v@.take(v@.len() as int) =~= v@);
    }
    out
}

/// Parse every segment; the first failing segment's error propagates.
fn parse_segments(
    segs: Vec<Vec<InputSymbol>>,
    bound: usize,
    Ghost(s): Ghost<Seq<InputSymbol>>,
) -> (r: Result<Vec<GraphSeq>, DiceBuildingError>)
    requires
        s.len() == bound,
        forall|j: int| 0 <= j < segs@.len() ==> (#[trigger] segs@[j])@.len() <= s.len(),
    ensures
        match r {
            Ok(ch) => ch@.len() == segs@.len() && (forall|i: int|
                0 <= i < segs@.len() ==> ((#[trigger] segs@[i])@.len() < s.len()
                    ==> parse_rel(segs@[i]@, Ok(ch@[i])))),
            Err(e) => exists|i: int|
                0 <= i < segs@.len() && (#[trigger] segs@[i])@.len() < s.len() && parse_rel(
                    segs@[i]@, Err(e)),
        },
    decreases s.len(), 0int,
{
    let mut out: Vec<GraphSeq> = Vec::new();
    let mut i: usize = 0;
    while i < segs.len()
        invariant
            0 <= i <= segs@.len(),
            s.len() == bound,
            forall|j: int| 0 <= j < segs@.len() ==> (#[trigger] segs@[j])@.len() <= s.len(),
            out@.len() == i,
            forall|j: int|
                0 <= j < i ==> ((#[trigger] segs@[j])@.len() < s.len() ==> parse_rel(segs@[j]@,
                    Ok(out@[j]))),
        decreases segs@.len() - i,
    {
        if segs[i].len() < bound {
            match input_symbols_to_graph_seq(&segs[i]) {
                Ok(g) => {
                    let ghost before = out@;
                    out.push(g);
                    proof {
                        assert(forall|j: int| 0 <= j < i ==> #[trigger] out@[j] == before[j]);
                    }
                },
                Err(e) => {
                    proof {
                        assert(segs@[i as int]@.len() < s.len() && parse_rel(segs@[i as int]@,
                            Err::<GraphSeq, DiceBuildingError>(e)));
                    }
                    return Err(e);
                },
            }
        } else {
            // a single segment equal to the whole sequence: the relation
            // says nothing about it, and it cannot arise from a split at
            // a present operator
            let ghost before = out@;
            out.push(GraphSeq::Atomic(DiceBuilder::Constant(0)));
            proof {
                assert(forall|j: int| 0 <= j < i ==> #[trigger] out@[j] == before[j]);
            }
        }
        i += 1;
    }
    Ok(out)
}

/// Carry the segment relation from vector segments to their views.
proof fn bridge_children(
    s: Seq<InputSymbol>,
    sep: InputSymbol,
    segs: Seq<Vec<InputSymbol>>,
    r: Result<GraphSeq, DiceBuildingError>,
)
    requires
        spec_split(s, sep) == Ok::<Seq<Seq<InputSymbol>>, DiceBuildingError>(segs_view(segs)),
        match r {
            Ok(g) => children_of(g).len() == segs.len() && (forall|i: int|
                0 <= i < segs.len() ==> ((#[trigger] segs[i])@.len() < s.len() ==> parse_rel(
                    segs[i]@, Ok(children_of(g)[i])))),
            Err(e) => exists|i: int|
                0 <= i < segs.len() && (#[trigger] segs[i])@.len() < s.len() && parse_rel(
                    segs[i]@, Err(e)),
        },
    ensures
        split_children_rel(s, sep, r),
{
    let sv = segs_view(segs);
    assert(forall|i: int| 0 <= i < sv.len() ==> #[trigger] sv[i] == segs[i]@);
    match r {
        Ok(g) => {
            assert forall|i: int|
                0 <= i < sv.len() implies ((#[trigger] sv[i]).len() < s.len() ==> parse_rel(
                sv[i], Ok(children_of(g)[i]))) by {
                assert(sv[i] == segs[i]@);
            }
        },
        Err(e) => {
            let i = choose|i: int|
                0 <= i < segs.len() && (#[trigger] segs[i])@.len() < s.len() && parse_rel(
                    segs[i]@, Err::<GraphSeq, DiceBuildingError>(e));
            assert(sv[i].len() < s.len() && parse_rel(sv[i], Err::<GraphSeq, DiceBuildingError>(
                e)));
        },
    }
}

/// The same carrying step for the comma-separated interior.
proof fn bridge_comma(
    s: Seq<InputSymbol>,
    interior: Seq<InputSymbol>,
    segs: Seq<Vec<InputSymbol>>,
    r: Result<GraphSeq, DiceBuildingError>,
)
    requires
        spec_split(interior, InputSymbol::Separator(SeparatorInputSymbol::Comma)) == Ok::<
            Seq<Seq<InputSymbol>>,
            DiceBuildingError,
        >(segs_view(segs)),
        match r {
            Ok(g) => children_of(g).len() == segs.len() && (forall|i: int|
                0 <= i < segs.len() ==> ((#[trigger] segs[i])@.len() < s.len() ==> parse_rel(
                    segs[i]@, Ok(children_of(g)[i])))),
            Err(e) => exists|i: int|
                0 <= i < segs.len() && (#[trigger] segs[i])@.len() < s.len() && parse_rel(
                    segs[i]@, Err(e)),
        },
    ensures
        comma_children_rel(s, interior, r),
{
    let sv = segs_view(segs);
    assert(forall|i: int| 0 <= i < sv.len() ==> #[trigger] sv[i] == segs[i]@);
    match r {
        Ok(g) => {
            assert forall|i: int|
                0 <= i < sv.len() implies ((#[trigger] sv[i]).len() < s.len() ==> parse_rel(
                sv[i], Ok(children_of(g)[i]))) by {
                assert(sv[i] == segs[i]@);
            }
        },
        Err(e) => {
            let i = choose|i: int|
                0 <= i < segs.len() && (#[trigger] segs[i])@.len() < s.len() && parse_rel(
                    segs[i]@, Err::<GraphSeq, DiceBuildingError>(e));
            assert(sv[i].len() < s.len() && parse_rel(sv[i], Err::<GraphSeq, DiceBuildingError>(
                e)));
        },
    }
}

/// Build the parse tree of a symbol sequence: split at the
/// loosest-binding operator present at bracket depth zero, collapse
/// plain brackets, and split `max(...)`/`min(...)` interiors at commas.
pub fn input_symbols_to_graph_seq(symbols: &Vec<InputSymbol>) -> (r: Result<
    GraphSeq,
    DiceBuildingError,
>)
    ensures
        parse_rel(symbols@, r),
    decreases symbols@.len(), 1int,
{
    if symbols.len() == 0 {
        return Err(DiceBuildingError::EmptySubSequence);
    }
    if symbols.len() == 1 {
        match symbols[0] {
            InputSymbol::Atomic(AtomicInputSymbol::Constant(x)) => {
                return Ok(GraphSeq::Atomic(DiceBuilder::Constant(x)));
            },
            InputSymbol::Atomic(AtomicInputSymbol::FairDie { min, max }) => {
                return Ok(GraphSeq::Atomic(DiceBuilder::FairDie { min, max }));
            },
            e => {
                return Err(DiceBuildingError::OneInputSymbolButNotAtomic(e));
            },
        }
    }
    match global_scope_contains_operator(symbols, OperatorInputSymbol::Add) {
        Err(e) => {
            return Err(e);
        },
        Ok(true) => {
            match partition_input_symbols_bracket_aware(symbols,
                InputSymbol::Operator(OperatorInputSymbol::Add)) {
                Err(e) => {
                    proof {
                        assert(scan_op(symbols@, OperatorInputSymbol::Add, 0) == Ok::<
                            bool,
                            DiceBuildingError,
                        >(true));
                        assert(spec_split(symbols@,
                            InputSymbol::Operator(OperatorInputSymbol::Add)) == Err::<
                            Seq<Seq<InputSymbol>>,
                            DiceBuildingError,
                        >(e));
                        assert(split_children_rel(symbols@,
                            InputSymbol::Operator(OperatorInputSymbol::Add), Err::<
                            GraphSeq,
                            DiceBuildingError,
                        >(e)));
                        assert(parse_rel(symbols@, Err::<GraphSeq, DiceBuildingError>(e)));
                    }
                    return Err(e);
                },
                Ok(segs) => {
                    let ghost gsegs = segs@;
                    match parse_segments(segs, symbols.len(), Ghost(symbols@)) {
                        Err(e) => {
                            proof {
                                bridge_children(symbols@,
                                    InputSymbol::Operator(OperatorInputSymbol::Add), gsegs,
                                    Err::<GraphSeq, DiceBuildingError>(e));
                            }
                            return Err(e);
                        },
                        Ok(ch) => {
                            let r = GraphSeq::Add(ch);
                            proof {
                                bridge_children(symbols@,
                                    InputSymbol::Operator(OperatorInputSymbol::Add), gsegs,
                                    Ok::<GraphSeq, DiceBuildingError>(r));
                            }
                            return Ok(r);
                        },
                    }
                },
            }
        },
        Ok(false) => {},
    }
    match global_scope_contains_operator(symbols, OperatorInputSymbol::Div) {
        Err(e) => {
            return Err(e);
        },
        Ok(true) => {
            match partition_input_symbols_bracket_aware(symbols,
                InputSymbol::Operator(OperatorInputSymbol::Div)) {
                Err(e) => {
                    return Err(e);
                },
                Ok(segs) => {
                    let ghost gsegs = segs@;
                    match parse_segments(segs, symbols.len(), Ghost(symbols@)) {
                        Err(e) => {
                            proof {
                                bridge_children(symbols@,
                                    InputSymbol::Operator(OperatorInputSymbol::Div), gsegs,
                                    Err::<GraphSeq, DiceBuildingError>(e));
                            }
                            return Err(e);
                        },
                        Ok(ch) => {
                            let r = GraphSeq::Div(ch);
                            proof {
                                bridge_children(symbols@,
                                    InputSymbol::Operator(OperatorInputSymbol::Div), gsegs,
                                    Ok::<GraphSeq, DiceBuildingError>(r));
                            }
                            return Ok(r);
                        },
                    }
                },
            }
        },
        Ok(false) => {},
    }
    match global_scope_contains_operator(symbols, OperatorInputSymbol::Mul) {
        Err(e) => {
            return Err(e);
        },
        Ok(true) => {
            match partition_input_symbols_bracket_aware(symbols,
                InputSymbol::Operator(OperatorInputSymbol::Mul)) {
                Err(e) => {
                    return Err(e);
                },
                Ok(segs) => {
                    let ghost gsegs = segs@;
                    match parse_segments(segs, symbols.len(), Ghost(symbols@)) {
                        Err(e) => {
                            proof {
                                bridge_children(symbols@,
                                    InputSymbol::Operator(OperatorInputSymbol::Mul), gsegs,
                                    Err::<GraphSeq, DiceBuildingError>(e));
                            }
                            return Err(e);
                        },
                        Ok(ch) => {
                            let r = GraphSeq::Mul(ch);
                            proof {
                                bridge_children(symbols@,
                                    InputSymbol::Operator(OperatorInputSymbol::Mul), gsegs,
                                    Ok::<GraphSeq, DiceBuildingError>(r));
                            }
                            return Ok(r);
                        },
                    }
                },
            }
        },
        Ok(false) => {},
    }
    match global_scope_contains_operator(symbols, OperatorInputSymbol::SampleSum) {
        Err(e) => {
            return Err(e);
        },
        Ok(true) => {
            match partition_input_symbols_bracket_aware(symbols,
                InputSymbol::Operator(OperatorInputSymbol::SampleSum)) {
                Err(e) => {
                    return Err(e);
                },
                Ok(segs) => {
                    let ghost gsegs = segs@;
                    match parse_segments(segs, symbols.len(), Ghost(symbols@)) {
                        Err(e) => {
                            proof {
                                bridge_children(symbols@,
                                    InputSymbol::Operator(OperatorInputSymbol::SampleSum), gsegs,
                                    Err::<GraphSeq, DiceBuildingError>(e));
                            }
                            return Err(e);
                        },
                        Ok(ch) => {
                            let r = GraphSeq::SampleSum(ch);
                            proof {
                                bridge_children(symbols@,
                                    InputSymbol::Operator(OperatorInputSymbol::SampleSum), gsegs,
                                    Ok::<GraphSeq, DiceBuildingError>(r));
                            }
                            return Ok(r);
                        },
                    }
                },
            }
        },
        Ok(false) => {},
    }
    let first = symbols[0];
    let last = symbols[symbols.len() - 1];
    let first_opening = match first {
        InputSymbol::Opening(_) => true,
        _ => false,
    };
    let last_closing = match last {
        InputSymbol::Closing(_) => true,
        _ => false,
    };
    if first_opening && last_closing {
        let interior = vec_without_last_and_first(symbols);
        match first {
            InputSymbol::Opening(OpeningInputSymbol::BOpening) => {
                let r = input_symbols_to_graph_seq(&interior);
                return r;
            },
            InputSymbol::Opening(OpeningInputSymbol::MaxOpening) => {
                match partition_input_symbols_bracket_aware(&interior,
                    InputSymbol::Separator(SeparatorInputSymbol::Comma)) {
                    Err(e) => {
                        proof {
                            assert(interior@ == symbols@.subrange(1, symbols@.len() - 1));
                            assert(comma_children_rel(symbols@, symbols@.subrange(1,
                                symbols@.len() - 1), Err::<GraphSeq, DiceBuildingError>(e)));
                        }
                        return Err(e);
                    },
                    Ok(segs) => {
                        proof {
                            assert forall|j: int| 0 <= j < segs@.len() implies (
                            #[trigger] segs@[j])@.len() <= symbols@.len() by {
                                assert(segs@[j]@.len() + segs@.len() - 1 <= interior@.len());
                            }
                        }
                        let ghost gsegs = segs@;
                        match parse_segments(segs, symbols.len(), Ghost(symbols@)) {
                            Err(e) => {
                                proof {
                                    bridge_comma(symbols@, interior@, gsegs, Err::<
                                        GraphSeq,
                                        DiceBuildingError,
                                    >(e));
                                }
                                return Err(e);
                            },
                            Ok(ch) => {
                                let r = GraphSeq::Max(ch);
                                proof {
                                    bridge_comma(symbols@, interior@, gsegs, Ok::<
                                        GraphSeq,
                                        DiceBuildingError,
                                    >(r));
                                }
                                return Ok(r);
                            },
                        }
                    },
                }
            },
            _ => {
                match partition_input_symbols_bracket_aware(&interior,
                    InputSymbol::Separator(SeparatorInputSymbol::Comma)) {
                    Err(e) => {
                        proof {
                            assert(interior@ == symbols@.subrange(1, symbols@.len() - 1));
                            assert(comma_children_rel(symbols@, symbols@.subrange(1,
                                symbols@.len() - 1), Err::<GraphSeq, DiceBuildingError>(e)));
                        }
                        return Err(e);
                    },
                    Ok(segs) => {
                        proof {
                            assert forall|j: int| 0 <= j < segs@.len() implies (
                            #[trigger] segs@[j])@.len() <= symbols@.len() by {
                                assert(segs@[j]@.len() + segs@.len() - 1 <= interior@.len());
                            }
                        }
                        let ghost gsegs = segs@;
                        match parse_segments(segs, symbols.len(), Ghost(symbols@)) {
                            Err(e) => {
                                proof {
                                    bridge_comma(symbols@, interior@, gsegs, Err::<
                                        GraphSeq,
                                        DiceBuildingError,
                                    >(e));
                                }
                                return Err(e);
                            },
                            Ok(ch) => {
                                let r = GraphSeq::Min(ch);
                                proof {
                                    bridge_comma(symbols@, interior@, gsegs, Ok::<
                                        GraphSeq,
                                        DiceBuildingError,
                                    >(r));
                                }
                                return Ok(r);
                            },
                        }
                    },
                }
            },
        }
    }
    let v = copy_syms(symbols);
    Err(DiceBuildingError::UnknownSyntaxError(v))
}


/// the parse node maps onto the public tree with the same arity
pub open spec fn g2f_rel(g: GraphSeq, t: DiceBuilder) -> bool
    decreases g,
{
    match g {
        GraphSeq::Atomic(f) => t == f,
        GraphSeq::Add(ch) => t matches DiceBuilder::SumCompound(cs) && cs@.len() == ch@.len()
            && (forall|i: int| 0 <= i < ch@.len() ==> g2f_rel(#[trigger] ch@[i], cs@[i])),
        GraphSeq::Mul(ch) => t matches DiceBuilder::ProductCompound(cs) && cs@.len() == ch@.len()
            && (forall|i: int| 0 <= i < ch@.len() ==> g2f_rel(#[trigger] ch@[i], cs@[i])),
        GraphSeq::Div(ch) => t matches DiceBuilder::DivisionCompound(cs) && cs@.len()
            == ch@.len() && (forall|i: int|
            0 <= i < ch@.len() ==> g2f_rel(#[trigger] ch@[i], cs@[i])),
        GraphSeq::Min(ch) => t matches DiceBuilder::MinCompound(cs) && cs@.len() == ch@.len()
            && (forall|i: int| 0 <= i < ch@.len() ==> g2f_rel(#[trigger] ch@[i], cs@[i])),
        GraphSeq::Max(ch) => t matches DiceBuilder::MaxCompound(cs) && cs@.len() == ch@.len()
            && (forall|i: int| 0 <= i < ch@.len() ==> g2f_rel(#[trigger] ch@[i], cs@[i])),
        GraphSeq::SampleSum(ch) => t matches DiceBuilder::SampleSumCompound(cs) && cs@.len()
            == ch@.len() && (forall|i: int|
            0 <= i < ch@.len() ==> g2f_rel(#[trigger] ch@[i], cs@[i])),
    }
}

/// Map a vector of parse nodes onto trees, preserving order.
fn graph_children_to_factors(mut ch: Vec<GraphSeq>) -> (r: Vec<DiceBuilder>)
    ensures
        r@.len() == ch@.len(),
        forall|i: int| 0 <= i < ch@.len() ==> g2f_rel(#[trigger] ch@[i], r@[i]),
    decreases ch@,
{
    broadcast use vstd::seq::axiom_seq_index_decreases, vstd::seq::axiom_seq_subrange_decreases, vstd::std_specs::vec::axiom_vec_decreases_to_view;

    let ghost orig = ch@;
    if ch.len() == 0 {
        Vec::new()
    } else {
        let c = ch.remove(0);
        proof {
            assert(c == orig[0]);
            assert(ch@ =~= orig.drop_first());
        }
        let t = graph_seq_to_factor(c);
        let ghost chv = ch@;
        let mut rest = graph_children_to_factors(ch);
        let ghost restv = rest@;
        let mut out: Vec<DiceBuilder> = Vec::new();
        out.push(t);
        out.append(&mut rest);
        proof {
            assert(out@ =~= seq![t] + restv);
            assert(out@.len() == orig.len());
            assert forall|i: int| 0 <= i < orig.len() implies g2f_rel(#[trigger] orig[i],
                out@[i]) by {
                if i == 0 {
                    assert(out@[0] == t);
                } else {
                    assert(out@[i] == restv[i - 1]);
                    assert(g2f_rel(chv[i - 1], restv[i - 1]));
                    assert(chv[i - 1] == orig[i]);
                }
            }
        }
        out
    }
}

/// Lower a parse node onto the public tree with the same arity.
pub fn graph_seq_to_factor(graph_seq: GraphSeq) -> (r: DiceBuilder)
    ensures
        g2f_rel(graph_seq, r),
    decreases graph_seq,
{
    broadcast use vstd::seq::axiom_seq_index_decreases, vstd::std_specs::vec::axiom_vec_decreases_to_view;

    match graph_seq {
        GraphSeq::Atomic(f) => f,
        GraphSeq::Add(ch) => DiceBuilder::SumCompound(graph_children_to_factors(ch)),
        GraphSeq::Mul(ch) => DiceBuilder::ProductCompound(graph_children_to_factors(ch)),
        GraphSeq::Div(ch) => DiceBuilder::DivisionCompound(graph_children_to_factors(ch)),
        GraphSeq::Min(ch) => DiceBuilder::MinCompound(graph_children_to_factors(ch)),
        GraphSeq::Max(ch) => DiceBuilder::MaxCompound(graph_children_to_factors(ch)),
        GraphSeq::SampleSum(ch) => DiceBuilder::SampleSumCompound(graph_children_to_factors(ch)),
    }
}

/// What parsing a whole formula string produces: the lexing error, the
/// parse error, or a parse tree lowered onto the public tree type.
pub open spec fn string_parse_rel(s: Seq<char>, r: Result<DiceBuilder, DiceBuildingError>) -> bool {
    match spec_lex(s) {
        Err(e) => r == Err::<DiceBuilder, DiceBuildingError>(e),
        Ok(syms) => syms_parse_rel(syms, r),
    }
}

/// What parsing an already-lexed symbol sequence produces.
pub open spec fn syms_parse_rel(
    syms: Seq<InputSymbol>,
    r: Result<DiceBuilder, DiceBuildingError>,
) -> bool {
    match r {
        Ok(t) => exists|g: GraphSeq| #[trigger] parse_rel(syms, Ok(g)) && g2f_rel(g, t),
        Err(e) => parse_rel(syms, Err(e)),
    }
}

/// Parse a formula string into an expression tree.
pub fn string_to_factor(input: &str) -> (r: Result<DiceBuilder, DiceBuildingError>)
    ensures
        string_parse_rel(input@, r),
{
    let symbols = match string_to_input_symbols(input) {
        Ok(v) => v,
        Err(e) => {
            proof {
                assert(spec_lex(input@) == Err::<Seq<InputSymbol>, DiceBuildingError>(e));
                assert(string_parse_rel(input@, Err::<DiceBuilder, DiceBuildingError>(e)));
            }
            return Err(e);
        },
    };
    proof {
        assert(spec_lex(input@) == Ok::<Seq<InputSymbol>, DiceBuildingError>(symbols@));
    }
    let graph_seq = match input_symbols_to_graph_seq(&symbols) {
        Ok(g) => g,
        Err(e) => {
            proof {
                assert(parse_rel(symbols@, Err::<GraphSeq, DiceBuildingError>(e)));
                assert(string_parse_rel(input@, Err::<DiceBuilder, DiceBuildingError>(e)));
            }
            return Err(e);
        },
    };
    let ghost g0 = graph_seq;
    let factor = graph_seq_to_factor(graph_seq);
    proof {
        assert(parse_rel(symbols@, Ok(g0)) && g2f_rel(g0, factor));
        assert(syms_parse_rel(symbols@, Ok::<DiceBuilder, DiceBuildingError>(factor)));
        assert(string_parse_rel(input@, Ok::<DiceBuilder, DiceBuildingError>(factor)));
    }
    Ok(factor)
}


/// every tree the formula string can parse to is evaluable: die bounds
/// are ordered and every combined outcome fits an `i64`
pub open spec fn parsed_evaluable(s: Seq<char>) -> bool {
    forall|t: DiceBuilder| #[trigger] string_parse_rel(s, Ok(t)) ==> crate::dice_builder::evaluable(
        t)
}


/// The decimal rendering of `n` consists of digits and starts nonempty.
proof fn lemma_digits_are_digits(n: nat)
    ensures
        spec_digits(n).len() >= 1,
        forall|i: int| 0 <= i < spec_digits(n).len() ==> is_digit_char(#[trigger] spec_digits(
            n)[i]),
    decreases n,
{
    if n >= 10 {
        lemma_digits_are_digits(n / 10);
        assert(forall|i: int|
            0 <= i < spec_digits(n / 10).len() ==> #[trigger] spec_digits(n)[i] == spec_digits(n
                / 10)[i]);
        assert(spec_digits(n).last() == digit_char((n % 10) as int));
    }
}

/// Reading back the decimal rendering of `n` yields `n`.
proof fn lemma_digits_value_roundtrip(n: nat)
    ensures
        digits_val(spec_digits(n)) == n,
    decreases n,
{
    if n < 10 {
        assert(spec_digits(n) == seq![digit_char(n as int)]);
        let c = digit_char(n as int);
        assert(digits_val(Seq::<char>::empty()) == 0);
        assert((seq![c]).drop_last() =~= Seq::<char>::empty());
        assert((seq![c]).last() == c);
        assert(digits_val(seq![c]) == digits_val(Seq::<char>::empty()) * 10 + (c as int
            - '0' as int));
        assert(c as int - '0' as int == n);
    } else {
        lemma_digits_value_roundtrip(n / 10);
        assert(spec_digits(n) == spec_digits(n / 10).push(digit_char((n % 10) as int)));
        assert(spec_digits(n).drop_last() =~= spec_digits(n / 10));
        assert(spec_digits(n).last() == digit_char((n % 10) as int));
        assert(digits_val(spec_digits(n)) == digits_val(spec_digits(n / 10)) * 10 + (digit_char((
        n % 10) as int) as int - '0' as int));
        assert(digit_char((n % 10) as int) as int - '0' as int == n % 10);
    }
}

/// Filtering keeps a string of permitted lower-case characters as it is.
proof fn lemma_filter_identity(s: Seq<char>)
    requires
        forall|i: int| 0 <= i < s.len() ==> is_permitted_char(#[trigger] s[i]),
    ensures
        spec_filter(s) == Ok::<Seq<char>, DiceBuildingError>(s),
    decreases s.len(),
{
    if s.len() > 0 {
        assert(is_permitted_char(s[0]));
        assert(!('A' <= s[0] && s[0] <= 'Z'));
        assert(lower_char(s[0]) == s[0]);
        assert(forall|i: int|
            0 <= i < s.drop_first().len() ==> #[trigger] s.drop_first()[i] == s[i + 1]);
        lemma_filter_identity(s.drop_first());
        assert(spec_filter(s) == Ok::<Seq<char>, DiceBuildingError>(seq![s[0]]
            + s.drop_first()));
        assert(seq![s[0]] + s.drop_first() =~= s);
    } else {
        assert(s =~= Seq::<char>::empty());
    }
}

/// The condensing pass keeps a string without `m` or `w` as it is.
proof fn lemma_mmw_identity(s: Seq<char>)
    requires
        forall|i: int| 0 <= i < s.len() ==> (#[trigger] s[i]) != 'm' && s[i] != 'w',
    ensures
        spec_mmw(s) == s,
    decreases s.len(),
{
    if s.len() > 0 {
        assert(forall|i: int|
            0 <= i < s.drop_first().len() ==> #[trigger] s.drop_first()[i] == s[i + 1]);
        lemma_mmw_identity(s.drop_first());
        assert(s.skip(1) =~= s.drop_first());
        assert(seq![s[0]] + s.drop_first() =~= s);
    } else {
        assert(s =~= Seq::<char>::empty());
    }
}

/// The insertion pass keeps a string without implicit juxtapositions as
/// it is.
proof fn lemma_insert_x_identity(s: Seq<char>)
    requires
        forall|i: int| 0 <= i < s.len() - 1 ==> !needs_x(#[trigger] s[i], s[i + 1]),
    ensures
        spec_insert_x(s) == s,
    decreases s.len(),
{
    if s.len() > 1 {
        assert(!needs_x(s[0], s[1]));
        assert(forall|i: int|
            0 <= i < s.drop_first().len() ==> #[trigger] s.drop_first()[i] == s[i + 1]);
        lemma_insert_x_identity(s.drop_first());
        assert(s.skip(1) =~= s.drop_first());
        assert(seq![s[0]] + s.drop_first() =~= s);
    }
}

/// Tokenizing a pure digit string yields the one constant it spells.
proof fn lemma_tokens_of_digits(s: Seq<char>)
    requires
        s.len() >= 1,
        forall|i: int| 0 <= i < s.len() ==> is_digit_char(#[trigger] s[i]),
        digits_val(s) <= i64::MAX,
    ensures
        spec_tokens(s) == Ok::<Seq<InputSymbol>, DiceBuildingError>(
            seq![InputSymbol::Atomic(AtomicInputSymbol::Constant(digits_val(s) as i64))],
        ),
{
    let c = s[0];
    assert(is_digit_char(c));
    assert(c != 'M' && c != 'm' && c != '(' && c != ')' && c != ',' && c != '*' && c != 'x' && c
        != '+' && c != '/' && c != '-' && c != 'd');
    lemma_digits_len_of(s, s.len() as int);
    assert(digits_len(s) == s.len());
    assert(s.take(s.len() as int) =~= s);
    assert(s.skip(s.len() as int) =~= Seq::<char>::empty());
    assert(spec_tokens(Seq::<char>::empty()) == Ok::<Seq<InputSymbol>, DiceBuildingError>(
        Seq::<InputSymbol>::empty()));
    let t = InputSymbol::Atomic(AtomicInputSymbol::Constant(digits_val(s) as i64));
    assert(spec_tokens(s) == cons_tok(t, Ok(Seq::<InputSymbol>::empty())));
    assert(seq![t] + Seq::<InputSymbol>::empty() =~= seq![t]);
}

/// A single non-`+` token survives the purge unchanged.
proof fn lemma_purge_single(t: InputSymbol)
    requires
        !(t is Operator),
    ensures
        spec_purge(seq![t]) == seq![t],
{
    let s = seq![t];
    assert(keep_tok(s, 0));
    assert(purge_from(s, 1) =~= Seq::<InputSymbol>::empty());
    assert(purge_from(s, 0) == seq![s[0]] + purge_from(s, 1));
    assert(seq![s[0]] + purge_from(s, 1) =~= seq![t]);
}

/// Round trip of a non-negative constant: parsing the rendered formula
/// string of `Constant(v)` can only produce `Constant(v)` back.  (A
/// negative constant renders with a minus sign, which the lexer rewrites
/// to `+(-1)*`, so it does not parse back to the same constant.)
pub proof fn lemma_round_trip_constant(v: i64)
    requires
        v >= 0,
    ensures
        forall|r: Result<DiceBuilder, DiceBuildingError>|
            #[trigger] string_parse_rel(spec_render(DiceBuilder::Constant(v)), r) ==> r == Ok::<
                DiceBuilder,
                DiceBuildingError,
            >(DiceBuilder::Constant(v)),
{
    let s = spec_render(DiceBuilder::Constant(v));
    assert(s == spec_digits(v as nat));
    lemma_digits_are_digits(v as nat);
    lemma_digits_value_roundtrip(v as nat);
    assert forall|i: int| 0 <= i < s.len() implies is_permitted_char(#[trigger] s[i]) by {
        assert(is_digit_char(s[i]));
    }
    lemma_filter_identity(s);
    assert forall|i: int| 0 <= i < s.len() implies (#[trigger] s[i]) != 'm' && s[i] != 'w' by {
        assert(is_digit_char(s[i]));
    }
    lemma_mmw_identity(s);
    assert forall|i: int| 0 <= i < s.len() - 1 implies !needs_x(#[trigger] s[i], s[i + 1]) by {
        assert(is_digit_char(s[i + 1]));
    }
    lemma_insert_x_identity(s);
    assert(spec_clean(s) == Ok::<Seq<char>, DiceBuildingError>(s));
    lemma_tokens_of_digits(s);
    let t = InputSymbol::Atomic(AtomicInputSymbol::Constant(v));
    assert(digits_val(s) == v);
    lemma_purge_single(t);
    assert(spec_lex(s) == Ok::<Seq<InputSymbol>, DiceBuildingError>(seq![t]));
    assert forall|r: Result<DiceBuilder, DiceBuildingError>| #[trigger] string_parse_rel(s, r)
        implies r == Ok::<DiceBuilder, DiceBuildingError>(DiceBuilder::Constant(v)) by {
        let syms = seq![t];
        assert(syms.len() == 1);
        assert(syms[0] == t);
        assert(syms_parse_rel(syms, r));
        match r {
            Ok(tree) => {
                let g = choose|g: GraphSeq| #[trigger] parse_rel(syms, Ok(g)) && g2f_rel(g,
                    tree);
                assert(g == GraphSeq::Atomic(DiceBuilder::Constant(v)));
                assert(tree == DiceBuilder::Constant(v));
            },
            Err(e) => {
                assert(parse_rel(syms, Err::<GraphSeq, DiceBuildingError>(e)));
                assert(false);
            },
        }
    }
}

/// Round trip of a die with minimum 1 and non-negative maximum: parsing
/// the rendered formula string of `FairDie { min: 1, max }` can only
/// produce the same die back.  (Dice with another minimum render as the
/// empty string, and a negative maximum renders with a minus sign that
/// the lexer rejects after `d`: both are documented exceptions.)
pub proof fn lemma_round_trip_fair_die(max: i64)
    requires
        max >= 0,
    ensures
        forall|r: Result<DiceBuilder, DiceBuildingError>|
            #[trigger] string_parse_rel(spec_render(DiceBuilder::FairDie { min: 1, max }), r)
                ==> r == Ok::<DiceBuilder, DiceBuildingError>(DiceBuilder::FairDie {
                min: 1,
                max,
            }),
{
    let s = spec_render(DiceBuilder::FairDie { min: 1, max });
    let ds = spec_digits(max as nat);
    assert(s == seq!['d'] + spec_int_chars(max as int));
    assert(spec_int_chars(max as int) == ds);
    lemma_digits_are_digits(max as nat);
    lemma_digits_value_roundtrip(max as nat);
    assert(s.len() == 1 + ds.len());
    assert(s[0] == 'd');
    assert(forall|i: int| 1 <= i < s.len() ==> #[trigger] s[i] == ds[i - 1]);
    assert forall|i: int| 0 <= i < s.len() implies is_permitted_char(#[trigger] s[i]) by {
        if i > 0 {
            assert(is_digit_char(ds[i - 1]));
        }
    }
    lemma_filter_identity(s);
    assert forall|i: int| 0 <= i < s.len() implies (#[trigger] s[i]) != 'm' && s[i] != 'w' by {
        if i > 0 {
            assert(is_digit_char(ds[i - 1]));
        }
    }
    lemma_mmw_identity(s);
    assert forall|i: int| 0 <= i < s.len() - 1 implies !needs_x(#[trigger] s[i], s[i + 1]) by {
        assert(is_digit_char(ds[i]));
        assert(s[i + 1] == ds[i]);
    }
    lemma_insert_x_identity(s);
    assert(spec_clean(s) == Ok::<Seq<char>, DiceBuildingError>(s));
    // tokenizing: the `d` head swallows the digit run
    assert(s.skip(1) =~= ds);
    lemma_digits_len_of(ds, ds.len() as int);
    assert(digits_len(s.skip(1)) == ds.len());
    assert(ds.take(ds.len() as int) =~= ds);
    assert(digits_val(ds) == max);
    let t = InputSymbol::Atomic(AtomicInputSymbol::FairDie { min: 1, max });
    assert(s.skip(1 + ds.len() as int) =~= Seq::<char>::empty());
    assert(spec_tokens(Seq::<char>::empty()) == Ok::<Seq<InputSymbol>, DiceBuildingError>(
        Seq::<InputSymbol>::empty()));
    assert(s[0] == 'd' && s[0] != 'M' && s[0] != 'm' && s[0] != '(' && s[0] != ')' && s[0] != ','
        && s[0] != '*' && s[0] != 'x' && s[0] != '+' && s[0] != '/' && s[0] != '-');
    assert(spec_tokens(s) == cons_tok(t, Ok(Seq::<InputSymbol>::empty())));
    assert(seq![t] + Seq::<InputSymbol>::empty() =~= seq![t]);
    lemma_purge_single(t);
    assert(spec_lex(s) == Ok::<Seq<InputSymbol>, DiceBuildingError>(seq![t]));
    assert forall|r: Result<DiceBuilder, DiceBuildingError>| #[trigger] string_parse_rel(s, r)
        implies r == Ok::<DiceBuilder, DiceBuildingError>(DiceBuilder::FairDie {
        min: 1,
        max,
    }) by {
        let syms = seq![t];
        assert(syms.len() == 1);
        assert(syms[0] == t);
        assert(syms_parse_rel(syms, r));
        match r {
            Ok(tree) => {
                let g = choose|g: GraphSeq| #[trigger] parse_rel(syms, Ok(g)) && g2f_rel(g,
                    tree);
                assert(g == GraphSeq::Atomic(DiceBuilder::FairDie { min: 1, max }));
                assert(tree == DiceBuilder::FairDie { min: 1, max });
            },
            Err(e) => {
                assert(parse_rel(syms, Err::<GraphSeq, DiceBuildingError>(e)));
                assert(false);
            },
        }
    }
}

} // verus!
