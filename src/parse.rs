use vstd::prelude::*;

use crate::ast::{
    lemma_combined, lemma_grouping_unique, lemma_operand_sizes, lemma_operands_count,
    lemma_operands_printable, lemma_seen_printable, lemma_seen_text, lemma_seen_top, DiroAst,
    Verb,
};
use crate::dice::Dice;
use crate::error::{DiroError, DiroResult};
use crate::dice::tagged;
use crate::text::{digit_char, int_text, nat_text};

verus! {

pub open spec fn code(c: char) -> int {
    (c as u32) as int
}

pub open spec fn is_digit(c: char) -> bool {
    48 <= code(c) <= 57
}

pub open spec fn is_space(c: char) -> bool {
    c == ' ' || c == '\t' || c == '\n' || c == '\r'
}

/// Characters that make up a number or a dice term: digits and ASCII
/// letters but `x`, which is an operator.
pub open spec fn is_word_char(c: char) -> bool {
    is_digit(c) || ((65 <= code(c) <= 90 || 97 <= code(c) <= 122) && c != 'x' && c != 'X')
}

/// The operator that a character stands for.
pub open spec fn verb_of(c: char) -> Option<Verb> {
    if c == '+' {
        Some(Verb::Plus)
    } else if c == '-' {
        Some(Verb::Minus)
    } else if c == 'x' || c == 'X' || c == '*' {
        Some(Verb::Times)
    } else if c == '/' {
        Some(Verb::Divide)
    } else if c == '%' {
        Some(Verb::Modulo)
    } else if c == '^' {
        Some(Verb::Power)
    } else {
        None
    }
}

/// The first position from `i` on that holds no space.
pub open spec fn skip_spaces(s: Seq<char>, i: int) -> int
    decreases s.len() - i,
{
    if 0 <= i < s.len() && is_space(s[i]) {
        skip_spaces(s, i + 1)
    } else {
        i
    }
}

/// The end of the run of word characters from `i`.
pub open spec fn word_end(s: Seq<char>, i: int) -> int
    decreases s.len() - i,
{
    if 0 <= i < s.len() && is_word_char(s[i]) {
        word_end(s, i + 1)
    } else {
        i
    }
}

/// The end of the run of digits from `i`, not going past `b`.
pub open spec fn digits_end(s: Seq<char>, i: int, b: int) -> int
    decreases b - i,
{
    if 0 <= i < b && i < s.len() && is_digit(s[i]) {
        digits_end(s, i + 1, b)
    } else {
        i
    }
}

/// The value of the decimal digits `s[i..j]`.
pub open spec fn digits_value(s: Seq<char>, i: int, j: int) -> nat
    decreases j - i,
{
    if j <= i {
        0
    } else {
        (digits_value(s, i, j - 1) * 10 + (code(s[j - 1]) - 48)) as nat
    }
}

/// The number written at `s[i..j]`, if any digits stand there.
pub open spec fn number(s: Seq<char>, i: int, j: int) -> Option<nat> {
    if j <= i {
        None
    } else {
        Some(digits_value(s, i, j))
    }
}

/// A field read from an optional number: the default where it is absent,
/// `IntParseError` where it exceeds `max`.
pub open spec fn field(n: Option<nat>, default: int, max: int) -> DiroResult<int> {
    match n {
        None => Ok(default),
        Some(v) => if v <= max {
            Ok(v as int)
        } else {
            Err(DiroError::IntParseError)
        },
    }
}

fn is_space_char(c: char) -> (r: bool)
    ensures
        r == is_space(c),
{
    c == ' ' || c == '\t' || c == '\n' || c == '\r'
}

fn is_digit_char(c: char) -> (r: bool)
    ensures
        r == is_digit(c),
{
    let k = c as u32;
    48 <= k && k <= 57
}

fn is_word(c: char) -> (r: bool)
    ensures
        r == is_word_char(c),
{
    let k = c as u32;
    (48 <= k && k <= 57) || ((65 <= k && k <= 90) || (97 <= k && k <= 122)) && c != 'x' && c
        != 'X'
}

fn verb_char(c: char) -> (r: Option<Verb>)
    ensures
        r == verb_of(c),
{
    if c == '+' {
        Some(Verb::Plus)
    } else if c == '-' {
        Some(Verb::Minus)
    } else if c == 'x' || c == 'X' || c == '*' {
        Some(Verb::Times)
    } else if c == '/' {
        Some(Verb::Divide)
    } else if c == '%' {
        Some(Verb::Modulo)
    } else if c == '^' {
        Some(Verb::Power)
    } else {
        None
    }
}

fn skip_spaces_at(s: &Vec<char>, i: usize) -> (r: usize)
    requires
        i <= s@.len(),
    ensures
        r as int == skip_spaces(s@, i as int),
        i <= r <= s@.len(),
{
    let mut k = i;
    while k < s.len() && is_space_char(s[k])
        invariant
            i <= k <= s@.len(),
            skip_spaces(s@, k as int) == skip_spaces(s@, i as int),
        decreases s@.len() - k,
    {
        k += 1;
    }
    k
}

fn word_end_at(s: &Vec<char>, i: usize) -> (r: usize)
    requires
        i <= s@.len(),
    ensures
        r as int == word_end(s@, i as int),
        i <= r <= s@.len(),
        i < s@.len() && is_word_char(s@[i as int]) ==> i < r,
{
    let mut k = i;
    while k < s.len() && is_word(s[k])
        invariant
            i <= k <= s@.len(),
            word_end(s@, k as int) == word_end(s@, i as int),
        decreases s@.len() - k,
    {
        k += 1;
    }
    k
}

fn digits_end_at(s: &Vec<char>, i: usize, b: usize) -> (r: usize)
    requires
        i <= b <= s@.len(),
    ensures
        r as int == digits_end(s@, i as int, b as int),
        i <= r <= b,
        forall|k: int| i <= k < r ==> is_digit(#[trigger] s@[k]),
{
    let mut k = i;
    while k < b && is_digit_char(s[k])
        invariant
            i <= k <= b <= s@.len(),
            digits_end(s@, k as int, b as int) == digits_end(s@, i as int, b as int),
            forall|m: int| i <= m < k ==> is_digit(#[trigger] s@[m]),
        decreases b - k,
    {
        k += 1;
    }
    k
}

/// Reads `s[i..j]` as a field; see `field`.
fn field_at(s: &Vec<char>, i: usize, j: usize, default: u32, max: u32) -> (r: DiroResult<u32>)
    requires
        i <= j <= s@.len(),
        forall|k: int| i <= k < j ==> is_digit(#[trigger] s@[k]),
        default <= max <= 2147483648u32,
    ensures
        match field(number(s@, i as int, j as int), default as int, max as int) {
            Ok(v) => r == Ok::<u32, DiroError>(v as u32),
            Err(e) => r == Err::<u32, DiroError>(e),
        },
{
    if j == i {
        return Ok(default);
    }
    let mut val: u64 = 0;
    let mut big = false;
    let mut k = i;
    while k < j
        invariant
            i <= k <= j <= s@.len(),
            forall|m: int| i <= m < j ==> is_digit(#[trigger] s@[m]),
            !big ==> val as int == digits_value(s@, i as int, k as int) && val <= 4294967296u64,
            big ==> digits_value(s@, i as int, k as int) > 4294967296,
        decreases j - k,
    {
        let d = (s[k] as u32 - 48) as u64;
        assert(is_digit(s@[k as int]));
        if !big {
            let next = val * 10 + d;
            if next > 4294967296u64 {
                big = true;
            } else {
                val = next;
            }
        }
        k += 1;
    }
    if big || val > max as u64 {
        Err(DiroError::IntParseError)
    } else {
        Ok(val as u32)
    }
}

pub open spec fn is_letter(c: char, lower: char, upper: char) -> bool {
    c == lower || c == upper
}

pub open spec fn syntax_error<T>(pos: int) -> DiroResult<T> {
    Err(DiroError::SyntaxError(pos as usize))
}

pub open spec fn unrolled(d: Dice) -> DiroAst {
    DiroAst::Dice(d, None)
}

/// The largest count after a modifier: what fits `i8` with its sign.
pub open spec fn modifier_max(m: char) -> int {
    if is_letter(m, 'p', 'P') || is_letter(m, 'q', 'Q') {
        128
    } else {
        127
    }
}

/// `[count]D[face][B|P|K|Q[n]]` at `s[a..b]`, its `D` at `i`.
pub open spec fn dice_word(s: Seq<char>, a: int, b: int, i: int) -> DiroResult<DiroAst> {
    let f = digits_end(s, i + 1, b);
    let has_mod = f < b;
    let m = s[f];
    let n_end = digits_end(s, f + 1, b);
    let known = is_letter(m, 'b', 'B') || is_letter(m, 'p', 'P') || is_letter(m, 'k', 'K')
        || is_letter(m, 'q', 'Q');
    if has_mod && (!known || n_end != b) {
        syntax_error(a)
    } else {
        match field(number(s, a, i), 1, 255) {
            Err(e) => Err(e),
            Ok(count) => match field(number(s, i + 1, f), 100, 65535) {
                Err(e) => Err(e),
                Ok(face) => match (if has_mod {
                    field(number(s, f + 1, b), 1, modifier_max(m))
                } else {
                    Ok(0)
                }) {
                    Err(e) => Err(e),
                    Ok(n) => {
                        let bp = if has_mod && is_letter(m, 'b', 'B') {
                            n
                        } else if has_mod && is_letter(m, 'p', 'P') {
                            -n
                        } else {
                            0
                        };
                        let kq = if has_mod && is_letter(m, 'k', 'K') {
                            n
                        } else if has_mod && is_letter(m, 'q', 'Q') {
                            -n
                        } else {
                            0
                        };
                        match Dice::from_fields(count as u8, face as u16, bp as i8, kq as i8) {
                            Ok(d) => Ok(unrolled(d)),
                            Err(e) => Err(e),
                        }
                    },
                },
            },
        }
    }
}

/// `[count]A[add][K[success]][D[face]]` at `s[a..b]`, its `A` at `i`.
pub open spec fn accumulating_word(s: Seq<char>, a: int, b: int, i: int) -> DiroResult<DiroAst> {
    let e1 = digits_end(s, i + 1, b);
    let has_k = e1 < b && is_letter(s[e1], 'k', 'K');
    let k_end = if has_k {
        digits_end(s, e1 + 1, b)
    } else {
        e1
    };
    let has_d = k_end < b && is_letter(s[k_end], 'd', 'D');
    let d_end = if has_d {
        digits_end(s, k_end + 1, b)
    } else {
        k_end
    };
    if d_end != b {
        syntax_error(a)
    } else {
        match field(number(s, a, i), 1, 255) {
            Err(e) => Err(e),
            Ok(count) => match field(number(s, i + 1, e1), 11, 65535) {
                Err(e) => Err(e),
                Ok(add) => match field(
                    if has_k {
                        number(s, e1 + 1, k_end)
                    } else {
                        None
                    },
                    8,
                    65535,
                ) {
                    Err(e) => Err(e),
                    Ok(success) => match field(
                        if has_d {
                            number(s, k_end + 1, d_end)
                        } else {
                            None
                        },
                        10,
                        65535,
                    ) {
                        Err(e) => Err(e),
                        Ok(face) => if count == 0 {
                            Err(DiroError::NoDice)
                        } else {
                            Ok(
                                unrolled(
                                    Dice::ADice {
                                        count: count as u8,
                                        face: face as u16,
                                        add_line: add as u16,
                                        success_line: success as u16,
                                    },
                                ),
                            )
                        },
                    },
                },
            },
        }
    }
}

/// `[count]C[line][M[face]]` at `s[a..b]`, its `C` at `i`.
pub open spec fn counting_word(s: Seq<char>, a: int, b: int, i: int) -> DiroResult<DiroAst> {
    let e1 = digits_end(s, i + 1, b);
    let has_m = e1 < b && is_letter(s[e1], 'm', 'M');
    let m_end = if has_m {
        digits_end(s, e1 + 1, b)
    } else {
        e1
    };
    if m_end != b {
        syntax_error(a)
    } else {
        match field(number(s, a, i), 1, 255) {
            Err(e) => Err(e),
            Ok(count) => match field(number(s, i + 1, e1), 11, 65535) {
                Err(e) => Err(e),
                Ok(line) => match field(
                    if has_m {
                        number(s, e1 + 1, m_end)
                    } else {
                        None
                    },
                    10,
                    65535,
                ) {
                    Err(e) => Err(e),
                    Ok(face) => if count == 0 {
                        Err(DiroError::NoDice)
                    } else {
                        Ok(
                            unrolled(
                                Dice::CDice {
                                    count: count as u8,
                                    face: face as u16,
                                    count_line: line as u16,
                                },
                            ),
                        )
                    },
                },
            },
        }
    }
}

/// `[count]F` at `s[a..b]`, its `F` at `i`.
pub open spec fn fudge_word(s: Seq<char>, a: int, b: int, i: int) -> DiroResult<DiroAst> {
    if i + 1 != b {
        syntax_error(a)
    } else {
        match field(number(s, a, i), 1, 255) {
            Err(e) => Err(e),
            Ok(count) => if count == 0 {
                Err(DiroError::NoDice)
            } else {
                Ok(unrolled(Dice::FDice(count as u8)))
            },
        }
    }
}

/// The term written by the word `s[a..b]`: a number or a dice term.
pub open spec fn word_term(s: Seq<char>, a: int, b: int) -> DiroResult<DiroAst> {
    let i = digits_end(s, a, b);
    if i >= b {
        match field(number(s, a, b), 0, 2147483647) {
            Err(e) => Err(e),
            Ok(v) => Ok(DiroAst::Int(v as i32)),
        }
    } else if is_letter(s[i], 'd', 'D') {
        dice_word(s, a, b, i)
    } else if is_letter(s[i], 'a', 'A') {
        accumulating_word(s, a, b, i)
    } else if is_letter(s[i], 'c', 'C') {
        counting_word(s, a, b, i)
    } else if is_letter(s[i], 'f', 'F') {
        fudge_word(s, a, b, i)
    } else {
        syntax_error(a)
    }
}

fn dice_word_at(s: &Vec<char>, a: usize, b: usize, i: usize) -> (r: DiroResult<DiroAst>)
    requires
        a <= i < b <= s@.len(),
        forall|k: int| a <= k < i ==> is_digit(#[trigger] s@[k]),
    ensures
        r == dice_word(s@, a as int, b as int, i as int),
{
    let f = digits_end_at(s, i + 1, b);
    let has_mod = f < b;
    let mut n_end = f;
    let mut known = false;
    if has_mod {
        let m = s[f];
        known = m == 'b' || m == 'B' || m == 'p' || m == 'P' || m == 'k' || m == 'K' || m == 'q'
            || m == 'Q';
        n_end = digits_end_at(s, f + 1, b);
        if !known || n_end != b {
            return Err(DiroError::SyntaxError(a));
        }
    }
    let count = match field_at(s, a, i, 1, 255) {
        Ok(v) => v,
        Err(e) => {
            return Err(e);
        },
    };
    let face = match field_at(s, i + 1, f, 100, 65535) {
        Ok(v) => v,
        Err(e) => {
            return Err(e);
        },
    };
    let mut bp: i8 = 0;
    let mut kq: i8 = 0;
    if has_mod {
        let m = s[f];
        let negative = m == 'p' || m == 'P' || m == 'q' || m == 'Q';
        let max: u32 = if negative {
            128
        } else {
            127
        };
        let n = match field_at(s, f + 1, b, 1, max) {
            Ok(v) => v as i16,
            Err(e) => {
                return Err(e);
            },
        };
        if m == 'b' || m == 'B' {
            bp = n as i8;
        } else if m == 'p' || m == 'P' {
            bp = (-n) as i8;
        } else if m == 'k' || m == 'K' {
            kq = n as i8;
        } else {
            kq = (-n) as i8;
        }
    }
    match Dice::new(count as u8, face as u16, bp, kq) {
        Ok(d) => Ok(DiroAst::Dice(d, None)),
        Err(e) => Err(e),
    }
}

fn accumulating_word_at(s: &Vec<char>, a: usize, b: usize, i: usize) -> (r: DiroResult<DiroAst>)
    requires
        a <= i < b <= s@.len(),
        forall|k: int| a <= k < i ==> is_digit(#[trigger] s@[k]),
    ensures
        r == accumulating_word(s@, a as int, b as int, i as int),
{
    let e1 = digits_end_at(s, i + 1, b);
    let has_k = e1 < b && (s[e1] == 'k' || s[e1] == 'K');
    let k_end = if has_k {
        digits_end_at(s, e1 + 1, b)
    } else {
        e1
    };
    let has_d = k_end < b && (s[k_end] == 'd' || s[k_end] == 'D');
    let d_end = if has_d {
        digits_end_at(s, k_end + 1, b)
    } else {
        k_end
    };
    if d_end != b {
        return Err(DiroError::SyntaxError(a));
    }
    let count = match field_at(s, a, i, 1, 255) {
        Ok(v) => v,
        Err(e) => {
            return Err(e);
        },
    };
    let add = match field_at(s, i + 1, e1, 11, 65535) {
        Ok(v) => v,
        Err(e) => {
            return Err(e);
        },
    };
    let success = if has_k {
        match field_at(s, e1 + 1, k_end, 8, 65535) {
            Ok(v) => v,
            Err(e) => {
                return Err(e);
            },
        }
    } else {
        8
    };
    let face = if has_d {
        match field_at(s, k_end + 1, d_end, 10, 65535) {
            Ok(v) => v,
            Err(e) => {
                return Err(e);
            },
        }
    } else {
        10
    };
    match Dice::adice(count as u8, face as u16, success as u16, add as u16) {
        Ok(d) => Ok(DiroAst::Dice(d, None)),
        Err(e) => Err(e),
    }
}

fn counting_word_at(s: &Vec<char>, a: usize, b: usize, i: usize) -> (r: DiroResult<DiroAst>)
    requires
        a <= i < b <= s@.len(),
        forall|k: int| a <= k < i ==> is_digit(#[trigger] s@[k]),
    ensures
        r == counting_word(s@, a as int, b as int, i as int),
{
    let e1 = digits_end_at(s, i + 1, b);
    let has_m = e1 < b && (s[e1] == 'm' || s[e1] == 'M');
    let m_end = if has_m {
        digits_end_at(s, e1 + 1, b)
    } else {
        e1
    };
    if m_end != b {
        return Err(DiroError::SyntaxError(a));
    }
    let count = match field_at(s, a, i, 1, 255) {
        Ok(v) => v,
        Err(e) => {
            return Err(e);
        },
    };
    let line = match field_at(s, i + 1, e1, 11, 65535) {
        Ok(v) => v,
        Err(e) => {
            return Err(e);
        },
    };
    let face = if has_m {
        match field_at(s, e1 + 1, m_end, 10, 65535) {
            Ok(v) => v,
            Err(e) => {
                return Err(e);
            },
        }
    } else {
        10
    };
    match Dice::cdice(count as u8, face as u16, line as u16) {
        Ok(d) => Ok(DiroAst::Dice(d, None)),
        Err(e) => Err(e),
    }
}

fn fudge_word_at(s: &Vec<char>, a: usize, b: usize, i: usize) -> (r: DiroResult<DiroAst>)
    requires
        a <= i < b <= s@.len(),
        forall|k: int| a <= k < i ==> is_digit(#[trigger] s@[k]),
    ensures
        r == fudge_word(s@, a as int, b as int, i as int),
{
    if i + 1 != b {
        return Err(DiroError::SyntaxError(a));
    }
    let count = match field_at(s, a, i, 1, 255) {
        Ok(v) => v,
        Err(e) => {
            return Err(e);
        },
    };
    match Dice::fdice(count as u8) {
        Ok(d) => Ok(DiroAst::Dice(d, None)),
        Err(e) => Err(e),
    }
}

fn word_term_at(s: &Vec<char>, a: usize, b: usize) -> (r: DiroResult<DiroAst>)
    requires
        a < b <= s@.len(),
    ensures
        r == word_term(s@, a as int, b as int),
{
    let i = digits_end_at(s, a, b);
    if i >= b {
        match field_at(s, a, b, 0, 2147483647) {
            Ok(v) => Ok(DiroAst::Int(v as i32)),
            Err(e) => Err(e),
        }
    } else {
        let c = s[i];
        if c == 'd' || c == 'D' {
            dice_word_at(s, a, b, i)
        } else if c == 'a' || c == 'A' {
            accumulating_word_at(s, a, b, i)
        } else if c == 'c' || c == 'C' {
            counting_word_at(s, a, b, i)
        } else if c == 'f' || c == 'F' {
            fudge_word_at(s, a, b, i)
        } else {
            Err(DiroError::SyntaxError(a))
        }
    }
}

/// The term that starts at `i`: a parenthesized expression, a negative
/// number, or a word; with the position after it.
pub open spec fn term_at(s: Seq<char>, i: int) -> DiroResult<(DiroAst, int)>
    decreases s.len() - i, 0int,
{
    if i < 0 || i >= s.len() {
        syntax_error(i)
    } else if s[i] == '(' {
        let j = skip_spaces(s, i + 1);
        if j <= i || j > s.len() {
            syntax_error(j)
        } else {
            match expr_at(s, j) {
                Err(e) => Err(e),
                Ok((t, k)) => {
                    let m = skip_spaces(s, k);
                    if 0 <= m < s.len() && s[m] == ')' {
                        Ok((DiroAst::Closed(Box::new(t)), m + 1))
                    } else {
                        syntax_error(m)
                    }
                },
            }
        }
    } else if s[i] == '-' && i + 1 < s.len() && is_digit(s[i + 1]) {
        let e = digits_end(s, i + 1, s.len() as int);
        if e < s.len() && is_word_char(s[e]) {
            syntax_error(i)
        } else {
            match field(number(s, i + 1, e), 0, 2147483648) {
                Err(x) => Err(x),
                Ok(v) => Ok((DiroAst::Int((-v) as i32), e)),
            }
        }
    } else if is_word_char(s[i]) {
        let e = word_end(s, i);
        match word_term(s, i, e) {
            Err(x) => Err(x),
            Ok(t) => Ok((t, e)),
        }
    } else {
        syntax_error(i)
    }
}

/// The expression that starts at `i`: a term, then optionally an operator
/// and the rest of the expression, joined as the ranks of the operators
/// ask; with the position after it.
pub open spec fn expr_at(s: Seq<char>, i: int) -> DiroResult<(DiroAst, int)>
    decreases s.len() - i, 1int,
{
    match term_at(s, i) {
        Err(e) => Err(e),
        Ok((t, j)) => {
            let k = skip_spaces(s, j);
            if i < k < s.len() && verb_of(s[k]) is Some {
                let m = skip_spaces(s, k + 1);
                if m <= k || m > s.len() {
                    syntax_error(m)
                } else {
                    match expr_at(s, m) {
                        Err(e) => Err(e),
                        Ok((r, n)) => Ok((DiroAst::combined(verb_of(s[k])->0, t, r), n)),
                    }
                }
            } else {
                Ok((t, j))
            }
        },
    }
}

/// What `parse` gives for the text `s`: an expression with nothing but
/// spaces around it, or one plain percentile die for blank text.
pub open spec fn parsed(s: Seq<char>) -> DiroResult<DiroAst> {
    let i = skip_spaces(s, 0);
    if i >= s.len() {
        Ok(unrolled(Dice::D100 { count: 1, bp: 0 }))
    } else {
        match expr_at(s, i) {
            Err(e) => Err(e),
            Ok((t, j)) => if skip_spaces(s, j) >= s.len() {
                Ok(t)
            } else {
                syntax_error(skip_spaces(s, j))
            },
        }
    }
}

fn term_at_exec(s: &Vec<char>, i: usize) -> (r: DiroResult<(DiroAst, usize)>)
    requires
        i <= s@.len(),
    ensures
        match r {
            Ok((t, j)) => term_at(s@, i as int) == Ok::<(DiroAst, int), DiroError>((t, j as int))
                && i < j <= s@.len(),
            Err(e) => term_at(s@, i as int) == Err::<(DiroAst, int), DiroError>(e),
        },
    decreases s@.len() - i, 0int,
{
    if i >= s.len() {
        return Err(DiroError::SyntaxError(i));
    }
    let c = s[i];
    if c == '(' {
        let j = skip_spaces_at(s, i + 1);
        match expr_at_exec(s, j) {
            Err(e) => Err(e),
            Ok((t, k)) => {
                let m = skip_spaces_at(s, k);
                if m < s.len() && s[m] == ')' {
                    Ok((DiroAst::Closed(Box::new(t)), m + 1))
                } else {
                    Err(DiroError::SyntaxError(m))
                }
            },
        }
    } else if c == '-' && i + 1 < s.len() && is_digit_char(s[i + 1]) {
        let e = digits_end_at(s, i + 1, s.len());
        if e < s.len() && is_word(s[e]) {
            return Err(DiroError::SyntaxError(i));
        }
        match field_at(s, i + 1, e, 0, 2147483648) {
            Err(x) => Err(x),
            Ok(v) => {
                let n: i64 = -(v as i64);
                Ok((DiroAst::Int(n as i32), e))
            },
        }
    } else if is_word(c) {
        let e = word_end_at(s, i);
        match word_term_at(s, i, e) {
            Err(x) => Err(x),
            Ok(t) => Ok((t, e)),
        }
    } else {
        Err(DiroError::SyntaxError(i))
    }
}

fn expr_at_exec(s: &Vec<char>, i: usize) -> (r: DiroResult<(DiroAst, usize)>)
    requires
        i <= s@.len(),
    ensures
        match r {
            Ok((t, j)) => expr_at(s@, i as int) == Ok::<(DiroAst, int), DiroError>((t, j as int))
                && i < j <= s@.len(),
            Err(e) => expr_at(s@, i as int) == Err::<(DiroAst, int), DiroError>(e),
        },
    decreases s@.len() - i, 1int,
{
    match term_at_exec(s, i) {
        Err(e) => Err(e),
        Ok((t, j)) => {
            let k = skip_spaces_at(s, j);
            if k < s.len() {
                match verb_char(s[k]) {
                    Some(verb) => {
                        let m = skip_spaces_at(s, k + 1);
                        match expr_at_exec(s, m) {
                            Err(e) => Err(e),
                            Ok((rhs, n)) => Ok((DiroAst::dyadic_with_priority(verb, t, rhs), n)),
                        }
                    },
                    None => Ok((t, j)),
                }
            } else {
                Ok((t, j))
            }
        },
    }
}

/// The characters of `source`, in order.
fn chars_of(source: &str) -> (r: Vec<char>)
    ensures
        r@ == source@,
{
    let n = source.unicode_len();
    let mut v: Vec<char> = Vec::new();
    let mut i: usize = 0;
    while i < n
        invariant
            n == source@.len(),
            i <= n,
            v@ == source@.take(i as int),
        decreases n - i,
    {
        v.push(source.get_char(i));
        assert(source@.take(i as int + 1) =~= source@.take(i as int).push(source@[i as int]));
        i += 1;
    }
    assert(source@.take(n as int) =~= source@);
    v
}

/// Reads dice notation into an expression tree with nothing rolled.
pub fn parse(source: &str) -> (r: DiroResult<DiroAst>)
    ensures
        r == parsed(source@),
{
    let s = chars_of(source);
    let i = skip_spaces_at(&s, 0);
    if i >= s.len() {
        return Ok(DiroAst::Dice(Dice::D100 { count: 1, bp: 0 }, None));
    }
    match expr_at_exec(&s, i) {
        Err(e) => Err(e),
        Ok((t, j)) => {
            let k = skip_spaces_at(&s, j);
            if k >= s.len() {
                Ok(t)
            } else {
                Err(DiroError::SyntaxError(k))
            }
        },
    }
}

proof fn lemma_digit_char(d: int)
    requires
        0 <= d <= 9,
    ensures
        is_digit(digit_char(d)),
        code(digit_char(d)) - 48 == d,
{
}

proof fn lemma_nat_text(n: nat)
    ensures
        nat_text(n).len() >= 1,
        forall|i: int| 0 <= i < nat_text(n).len() ==> is_digit(#[trigger] nat_text(n)[i]),
    decreases n,
{
    lemma_digit_char((n % 10) as int);
    if n >= 10 {
        lemma_nat_text(n / 10);
    }
}

proof fn lemma_digits_run(s: Seq<char>, i: int, q: int, b: int)
    requires
        0 <= i <= q <= b <= s.len(),
        forall|k: int| i <= k < q ==> is_digit(#[trigger] s[k]),
        q == b || !is_digit(s[q]),
    ensures
        digits_end(s, i, b) == q,
    decreases q - i,
{
    if i < q {
        lemma_digits_run(s, i + 1, q, b);
    }
}

proof fn lemma_digits_value(s: Seq<char>, p: int, n: nat)
    requires
        0 <= p,
        p + nat_text(n).len() <= s.len(),
        s.subrange(p, p + nat_text(n).len()) == nat_text(n),
    ensures
        digits_value(s, p, p + nat_text(n).len()) == n,
    decreases n,
{
    let t = nat_text(n);
    let l = t.len() as int;
    lemma_nat_text(n);
    lemma_digit_char((n % 10) as int);
    assert(s[p + l - 1] == t[l - 1]);
    if n >= 10 {
        let u = nat_text(n / 10);
        lemma_nat_text(n / 10);
        assert(s.subrange(p, p + u.len()) =~= s.subrange(p, p + l).subrange(0, u.len() as int));
        assert(t.subrange(0, u.len() as int) =~= u);
        lemma_digits_value(s, p, n / 10);
        assert(digits_value(s, p, p + l) == digits_value(s, p, p + l - 1) * 10 + (code(
            s[p + l - 1],
        ) - 48));
    } else {
        assert(digits_value(s, p, p) == 0);
    }
}

/// The decimal text of `n` at `s[p..]`, followed by a non-digit or by `b`,
/// reads as `n`.
proof fn lemma_read_number(s: Seq<char>, p: int, n: nat, b: int)
    requires
        0 <= p,
        p + nat_text(n).len() <= b <= s.len(),
        s.subrange(p, p + nat_text(n).len()) == nat_text(n),
        p + nat_text(n).len() == b || !is_digit(s[p + nat_text(n).len()]),
    ensures
        digits_end(s, p, b) == p + nat_text(n).len(),
        number(s, p, p + nat_text(n).len()) == Some(n),
{
    let l = nat_text(n).len() as int;
    lemma_nat_text(n);
    assert forall|k: int| p <= k < p + l implies is_digit(#[trigger] s[k]) by {
        assert(s[k] == nat_text(n)[k - p]);
    }
    lemma_digits_run(s, p, p + l, b);
    lemma_digits_value(s, p, n);
}

proof fn lemma_word_run(s: Seq<char>, i: int)
    requires
        0 <= i <= s.len(),
        forall|k: int| i <= k < s.len() ==> is_word_char(#[trigger] s[k]),
    ensures
        word_end(s, i) == s.len(),
    decreases s.len() - i,
{
    if i < s.len() {
        lemma_word_run(s, i + 1);
    }
}

/// A word that makes up the whole text `s` is parsed as the term it
/// stands for.
proof fn lemma_lone_word(s: Seq<char>, t: DiroAst)
    requires
        s.len() >= 1,
        is_digit(s[0]) || (s[0] != '-' && s[0] != '(' && !is_space(s[0])),
        forall|k: int| 0 <= k < s.len() ==> is_word_char(#[trigger] s[k]),
        word_term(s, 0, s.len() as int) == Ok::<DiroAst, DiroError>(t),
    ensures
        parsed(s) == Ok::<DiroAst, DiroError>(t),
{
    lemma_word_run(s, 0);
    assert(term_at(s, 0) == Ok::<(DiroAst, int), DiroError>((t, s.len() as int)));
    assert(skip_spaces(s, s.len() as int) == s.len());
    assert(expr_at(s, 0) == Ok::<(DiroAst, int), DiroError>((t, s.len() as int)));
    assert(skip_spaces(s, 0) == 0);
}

pub open spec fn all_word(s: Seq<char>) -> bool {
    forall|k: int| 0 <= k < s.len() ==> is_word_char(#[trigger] s[k])
}

proof fn lemma_all_word_concat(a: Seq<char>, b: Seq<char>)
    requires
        all_word(a),
        all_word(b),
    ensures
        all_word(a + b),
{
    assert forall|k: int| 0 <= k < (a + b).len() implies is_word_char(#[trigger] (a + b)[k]) by {
        if k < a.len() {
            assert((a + b)[k] == a[k]);
        } else {
            assert((a + b)[k] == b[k - a.len()]);
        }
    }
}

proof fn lemma_nat_text_word(n: nat)
    ensures
        all_word(nat_text(n)),
{
    lemma_nat_text(n);
}

proof fn lemma_tagged_word(tag: char, n: nat)
    requires
        is_word_char(tag),
    ensures
        all_word(tagged(tag, n as int)),
        tagged(tag, n as int).len() == 1 + nat_text(n).len(),
{
    lemma_nat_text(n);
    assert forall|k: int| 0 <= k < tagged(tag, n as int).len() implies is_word_char(
        #[trigger] tagged(tag, n as int)[k],
    ) by {
        if k > 0 {
            assert(tagged(tag, n as int)[k] == nat_text(n)[k - 1]);
        }
    }
}

/// `tag` and the decimal text of `n` at `s[p..]`, followed by a non-digit
/// or by `b`: the tag stands at `p` and the number reads as `n`.
proof fn lemma_read_tagged(s: Seq<char>, p: int, tag: char, n: nat, b: int)
    requires
        0 <= p,
        p + 1 + nat_text(n).len() <= b <= s.len(),
        s.subrange(p, p + 1 + nat_text(n).len()) == tagged(tag, n as int),
        p + 1 + nat_text(n).len() == b || !is_digit(s[p + 1 + nat_text(n).len()]),
    ensures
        s[p] == tag,
        digits_end(s, p + 1, b) == p + 1 + nat_text(n).len(),
        number(s, p + 1, p + 1 + nat_text(n).len()) == Some(n),
{
    let l = nat_text(n).len() as int;
    assert(s[p] == tagged(tag, n as int)[0]);
    assert(s.subrange(p + 1, p + 1 + l) =~= s.subrange(p, p + 1 + l).subrange(1, 1 + l));
    assert(tagged(tag, n as int).subrange(1, 1 + l) =~= nat_text(n));
    lemma_read_number(s, p + 1, n, b);
}

/// The decimal text of an integer reads back as that integer.
pub proof fn lemma_int_text_reads_back(i: i32)
    ensures
        parsed(int_text(i as int)) == Ok::<DiroAst, DiroError>(DiroAst::Int(i)),
{
    let s = int_text(i as int);
    let len = s.len() as int;
    if i >= 0 {
        let n = i as nat;
        lemma_nat_text(n);
        lemma_nat_text_word(n);
        assert(s.subrange(0, len) =~= s);
        lemma_read_number(s, 0, n, len);
        assert(word_term(s, 0, len) == Ok::<DiroAst, DiroError>(DiroAst::Int(i)));
        lemma_lone_word(s, DiroAst::Int(i));
    } else {
        let n = (-i) as nat;
        let t = nat_text(n);
        lemma_nat_text(n);
        assert(s =~= seq!['-'] + t);
        assert(s.subrange(1, len) =~= t);
        assert(s[1] == t[0]);
        lemma_read_number(s, 1, n, len);
        assert(term_at(s, 0) == Ok::<(DiroAst, int), DiroError>((DiroAst::Int(i), len)));
        assert(skip_spaces(s, len) == len);
        assert(expr_at(s, 0) == Ok::<(DiroAst, int), DiroError>((DiroAst::Int(i), len)));
        assert(skip_spaces(s, 0) == 0);
    }
}

proof fn lemma_combined_unrolled(verb: Verb, lhs: DiroAst, rhs: DiroAst)
    requires
        lhs.wf() && lhs.none_rolled(),
        rhs.wf() && rhs.none_rolled(),
    ensures
        DiroAst::combined(verb, lhs, rhs).wf(),
        DiroAst::combined(verb, lhs, rhs).none_rolled(),
    decreases rhs,
{
    if let DiroAst::DyadicOP { verb: sv, lhs: sl, rhs: sr } = rhs {
        if verb.rank() >= sv.rank() {
            lemma_combined_unrolled(verb, lhs, *sl);
        }
    }
}

proof fn lemma_word_unrolled(s: Seq<char>, a: int, b: int)
    ensures
        word_term(s, a, b) matches Ok(t) ==> t.wf() && t.none_rolled(),
{
}

proof fn lemma_term_unrolled(s: Seq<char>, i: int)
    ensures
        term_at(s, i) matches Ok((t, _)) ==> t.wf() && t.none_rolled(),
    decreases s.len() - i, 0int,
{
    if 0 <= i < s.len() {
        if s[i] == '(' {
            let j = skip_spaces(s, i + 1);
            if i < j <= s.len() {
                lemma_expr_unrolled(s, j);
            }
        } else if is_word_char(s[i]) {
            lemma_word_unrolled(s, i, word_end(s, i));
        }
    }
}

proof fn lemma_expr_unrolled(s: Seq<char>, i: int)
    ensures
        expr_at(s, i) matches Ok((t, _)) ==> t.wf() && t.none_rolled(),
    decreases s.len() - i, 1int,
{
    lemma_term_unrolled(s, i);
    if let Ok((t, j)) = term_at(s, i) {
        let k = skip_spaces(s, j);
        if i < k < s.len() && verb_of(s[k]) is Some {
            let m = skip_spaces(s, k + 1);
            if k < m <= s.len() {
                lemma_expr_unrolled(s, m);
                if let Ok((r, n)) = expr_at(s, m) {
                    lemma_combined_unrolled(verb_of(s[k])->0, t, r);
                }
            }
        }
    }
}

/// What the notation gives is well formed and holds no outcome yet.
pub proof fn lemma_parsed_unrolled(s: Seq<char>)
    ensures
        parsed(s) matches Ok(t) ==> t.wf() && t.none_rolled(),
{
    let i = skip_spaces(s, 0);
    if i < s.len() {
        lemma_expr_unrolled(s, i);
    }
}

/// `w[x..y] == piece` inside a copy of `w` at `s[a..]`.
proof fn lemma_piece(s: Seq<char>, a: int, w: Seq<char>, x: int, y: int)
    requires
        0 <= a,
        a + w.len() <= s.len(),
        0 <= x <= y <= w.len(),
        s.subrange(a, a + w.len()) == w,
    ensures
        s.subrange(a + x, a + y) == w.subrange(x, y),
{
    assert(s.subrange(a + x, a + y) =~= s.subrange(a, a + w.len()).subrange(x, y));
}

/// The steps of `dice_word` on a word whose pieces were read.
proof fn lemma_dice_word(s: Seq<char>, a: int, b: int, l1: int, f: int, count: u8, face: u16, n: nat, tag: char)
    requires
        0 <= a <= l1 < f <= b <= s.len(),
        count >= 1,
        s[l1] == 'D',
        digits_end(s, a, b) == l1,
        number(s, a, l1) == (if l1 == a {
            None
        } else {
            Some(count as nat)
        }),
        l1 == a ==> count == 1,
        digits_end(s, l1 + 1, b) == f,
        number(s, l1 + 1, f) == Some(face as nat),
        f < b ==> tag == 'B' || tag == 'P' || tag == 'K' || tag == 'Q',
        f < b ==> s[f] == tag && digits_end(s, f + 1, b) == b && number(s, f + 1, b) == Some(n)
            && 1 <= n <= modifier_max(tag),
    ensures
        word_term(s, a, b) == (match Dice::from_fields(
            count,
            face,
            (if f < b && tag == 'B' {
                n as int
            } else if f < b && tag == 'P' {
                -n
            } else {
                0
            }) as i8,
            (if f < b && tag == 'K' {
                n as int
            } else if f < b && tag == 'Q' {
                -n
            } else {
                0
            }) as i8,
        ) {
            Ok(d) => Ok::<DiroAst, DiroError>(unrolled(d)),
            Err(e) => Err(e),
        }),
{
}

/// The steps of `accumulating_word` on a word whose pieces were read.
#[verifier::rlimit(40)]
proof fn lemma_accumulating_word(
    s: Seq<char>,
    a: int,
    b: int,
    l1: int,
    e1: int,
    k_end: int,
    count: u8,
    face: u16,
    add: u16,
    success: u16,
)
    requires
        count >= 1,
        0 <= a < l1 < e1 <= k_end <= b <= s.len(),
        s[l1] == 'A',
        digits_end(s, a, b) == l1,
        number(s, a, l1) == Some(count as nat),
        digits_end(s, l1 + 1, b) == e1,
        number(s, l1 + 1, e1) == Some(add as nat),
        success != 8 ==> e1 < b && s[e1] == 'K' && digits_end(s, e1 + 1, b) == k_end && number(
            s,
            e1 + 1,
            k_end,
        ) == Some(success as nat),
        success == 8 ==> k_end == e1,
        face != 10 ==> k_end < b && s[k_end] == 'D' && digits_end(s, k_end + 1, b) == b
            && number(s, k_end + 1, b) == Some(face as nat),
        face == 10 ==> k_end == b,
    ensures
        word_term(s, a, b) == Ok::<DiroAst, DiroError>(
            unrolled(Dice::ADice { count, face, add_line: add, success_line: success }),
        ),
{
    let has_k = e1 < b && is_letter(s[e1], 'k', 'K');
    assert(has_k == (success != 8));
    let has_d = k_end < b && is_letter(s[k_end], 'd', 'D');
    assert(has_d == (face != 10));
}

/// The steps of `counting_word` on a word whose pieces were read.
proof fn lemma_counting_word(s: Seq<char>, a: int, b: int, l1: int, e1: int, count: u8, face: u16, line: u16)
    requires
        count >= 1,
        0 <= a < l1 < e1 < b <= s.len(),
        s[l1] == 'C',
        digits_end(s, a, b) == l1,
        number(s, a, l1) == Some(count as nat),
        digits_end(s, l1 + 1, b) == e1,
        number(s, l1 + 1, e1) == Some(line as nat),
        s[e1] == 'M',
        digits_end(s, e1 + 1, b) == b,
        number(s, e1 + 1, b) == Some(face as nat),
    ensures
        word_term(s, a, b) == Ok::<DiroAst, DiroError>(
            unrolled(Dice::CDice { count, face, count_line: line }),
        ),
{
}

#[verifier::rlimit(40)]
proof fn lemma_fudge_word_at(s: Seq<char>, a: int, b: int, count: u8)
    requires
        0 <= a,
        b <= s.len(),
        (Dice::FDice(count)).wf(),
        b == a + (Dice::FDice(count)).notation().len(),
        s.subrange(a, b) == (Dice::FDice(count)).notation(),
    ensures
        a < b,
        all_word((Dice::FDice(count)).notation()),
        word_term(s, a, b) == Ok::<DiroAst, DiroError>(unrolled(Dice::FDice(count))),
{
    let d = Dice::FDice(count);
    let w = d.notation();

    let c = nat_text(count as nat);
    let l = c.len() as int;
    lemma_nat_text(count as nat);
    lemma_nat_text_word(count as nat);
    lemma_all_word_concat(c, seq!['F']);
    assert(w =~= c + seq!['F']);
    lemma_piece(s, a, w, 0, l);
    assert(w.subrange(0, l) =~= c);
    assert(s[a + l] == w[l]);
    lemma_read_number(s, a, count as nat, b);
}

#[verifier::rlimit(40)]
proof fn lemma_counting_word_at(s: Seq<char>, a: int, b: int, count: u8, face: u16, count_line: u16)
    requires
        0 <= a,
        b <= s.len(),
        (Dice::CDice { count, face, count_line }).wf(),
        b == a + (Dice::CDice { count, face, count_line }).notation().len(),
        s.subrange(a, b) == (Dice::CDice { count, face, count_line }).notation(),
    ensures
        a < b,
        all_word((Dice::CDice { count, face, count_line }).notation()),
        word_term(s, a, b) == Ok::<DiroAst, DiroError>(unrolled(Dice::CDice { count, face, count_line })),
{
    let d = Dice::CDice { count, face, count_line };
    let w = d.notation();

    let c = nat_text(count as nat);
    let p = tagged('C', count_line as int);
    let q = tagged('M', face as int);
    lemma_nat_text(count as nat);
    lemma_nat_text_word(count as nat);
    lemma_tagged_word('C', count_line as nat);
    lemma_tagged_word('M', face as nat);
    lemma_all_word_concat(c, p);
    lemma_all_word_concat(c + p, q);
    assert(w =~= c + p + q);
    let l1 = c.len() as int;
    let e1 = l1 + p.len();
    lemma_piece(s, a, w, 0, l1);
    lemma_piece(s, a, w, l1, e1);
    lemma_piece(s, a, w, e1, w.len() as int);
    assert(w.subrange(0, l1) =~= c);
    assert(w.subrange(l1, e1) =~= p);
    assert(w.subrange(e1, w.len() as int) =~= q);
    lemma_read_tagged(s, a + e1, 'M', face as nat, b);
    lemma_read_tagged(s, a + l1, 'C', count_line as nat, b);
    lemma_read_number(s, a, count as nat, b);
    lemma_counting_word(s, a, b, a + l1, a + e1, count, face, count_line);
}

#[verifier::rlimit(40)]
proof fn lemma_accumulating_word_at(s: Seq<char>, a: int, b: int, count: u8, face: u16, add_line: u16, success_line: u16)
    requires
        0 <= a,
        b <= s.len(),
        (Dice::ADice { count, face, add_line, success_line }).wf(),
        b == a + (Dice::ADice { count, face, add_line, success_line }).notation().len(),
        s.subrange(a, b) == (Dice::ADice { count, face, add_line, success_line }).notation(),
    ensures
        a < b,
        all_word((Dice::ADice { count, face, add_line, success_line }).notation()),
        word_term(s, a, b) == Ok::<DiroAst, DiroError>(unrolled(Dice::ADice { count, face, add_line, success_line })),
{
    let d = Dice::ADice { count, face, add_line, success_line };
    let w = d.notation();

    let c = nat_text(count as nat);
    let p = tagged('A', add_line as int);
    let k = if success_line != 8 {
        tagged('K', success_line as int)
    } else {
        Seq::<char>::empty()
    };
    let f = if face != 10 {
        tagged('D', face as int)
    } else {
        Seq::<char>::empty()
    };
    lemma_nat_text(count as nat);
    lemma_nat_text_word(count as nat);
    lemma_tagged_word('A', add_line as nat);
    lemma_tagged_word('K', success_line as nat);
    lemma_tagged_word('D', face as nat);
    lemma_all_word_concat(c, p);
    lemma_all_word_concat(c + p, k);
    lemma_all_word_concat(c + p + k, f);
    assert(w =~= c + p + k + f);
    let l1 = c.len() as int;
    let e1 = l1 + p.len();
    let k_end = e1 + k.len();
    lemma_piece(s, a, w, 0, l1);
    lemma_piece(s, a, w, l1, e1);
    lemma_piece(s, a, w, e1, k_end);
    lemma_piece(s, a, w, k_end, w.len() as int);
    assert(w.subrange(0, l1) =~= c);
    assert(w.subrange(l1, e1) =~= p);
    assert(w.subrange(e1, k_end) =~= k);
    assert(w.subrange(k_end, w.len() as int) =~= f);
    if face != 10 {
        lemma_read_tagged(s, a + k_end, 'D', face as nat, b);
    }
    if success_line != 8 {
        lemma_read_tagged(s, a + e1, 'K', success_line as nat, b);
    }
    lemma_read_tagged(s, a + l1, 'A', add_line as nat, b);
    lemma_read_number(s, a, count as nat, b);
    lemma_accumulating_word(
        s,
        a,
        b,
        a + l1,
        a + e1,
        a + k_end,
        count,
        face,
        add_line,
        success_line,
    );
}

#[verifier::rlimit(40)]
proof fn lemma_standard_word_at(s: Seq<char>, a: int, b: int, count: u8, face: u16, kq: i8)
    requires
        0 <= a,
        b <= s.len(),
        (Dice::Dice { count, face, kq }).wf(),
        b == a + (Dice::Dice { count, face, kq }).notation().len(),
        s.subrange(a, b) == (Dice::Dice { count, face, kq }).notation(),
    ensures
        a < b,
        all_word((Dice::Dice { count, face, kq }).notation()),
        word_term(s, a, b) == Ok::<DiroAst, DiroError>(unrolled(Dice::Dice { count, face, kq })),
{
    let d = Dice::Dice { count, face, kq };
    let w = d.notation();

    let c = nat_text(count as nat);
    let p = tagged('D', face as int);
    let n: nat = if kq >= 0 {
        kq as nat
    } else {
        (-kq) as nat
    };
    let tag = if kq > 0 {
        'K'
    } else {
        'Q'
    };
    let m = if kq != 0 {
        tagged(tag, n as int)
    } else {
        Seq::<char>::empty()
    };
    lemma_nat_text(count as nat);
    lemma_nat_text_word(count as nat);
    lemma_tagged_word('D', face as nat);
    lemma_tagged_word(tag, n);
    lemma_all_word_concat(c, p);
    lemma_all_word_concat(c + p, m);
    assert(w =~= c + p + m);
    let l1 = c.len() as int;
    let f = l1 + p.len();
    lemma_piece(s, a, w, 0, l1);
    lemma_piece(s, a, w, l1, f);
    lemma_piece(s, a, w, f, w.len() as int);
    assert(w.subrange(0, l1) =~= c);
    assert(w.subrange(l1, f) =~= p);
    assert(w.subrange(f, w.len() as int) =~= m);
    if kq != 0 {
        lemma_read_tagged(s, a + f, tag, n, b);
    }
    lemma_read_tagged(s, a + l1, 'D', face as nat, b);
    lemma_read_number(s, a, count as nat, b);
    lemma_dice_word(s, a, b, a + l1, a + f, count, face, n, tag);
}

#[verifier::rlimit(40)]
proof fn lemma_percentile_word_at(s: Seq<char>, a: int, b: int, count: u8, bp: i8)
    requires
        0 <= a,
        b <= s.len(),
        (Dice::D100 { count, bp }).wf(),
        b == a + (Dice::D100 { count, bp }).notation().len(),
        s.subrange(a, b) == (Dice::D100 { count, bp }).notation(),
    ensures
        a < b,
        all_word((Dice::D100 { count, bp }).notation()),
        word_term(s, a, b) == Ok::<DiroAst, DiroError>(unrolled(Dice::D100 { count, bp })),
{
    let d = Dice::D100 { count, bp };
    let w = d.notation();

    let c = if count > 1 {
        nat_text(count as nat)
    } else {
        Seq::<char>::empty()
    };
    let p = tagged('D', 100);
    assert(nat_text(100) =~= seq!['1', '0', '0']) by {
        assert(nat_text(1) =~= seq!['1']);
        assert(nat_text(10) =~= seq!['1', '0']);
    }
    assert(p =~= seq!['D', '1', '0', '0']);
    let n: nat = if bp >= 0 {
        bp as nat
    } else {
        (-bp) as nat
    };
    let tag = if bp > 0 {
        'B'
    } else {
        'P'
    };
    let m = if bp != 0 {
        tagged(tag, n as int)
    } else {
        Seq::<char>::empty()
    };
    lemma_nat_text(count as nat);
    lemma_nat_text_word(count as nat);
    lemma_tagged_word('D', 100);
    lemma_tagged_word(tag, n);
    lemma_all_word_concat(c, p);
    lemma_all_word_concat(c + p, m);
    assert(w =~= c + p + m);
    let l1 = c.len() as int;
    let f = l1 + p.len();
    lemma_piece(s, a, w, 0, l1);
    lemma_piece(s, a, w, l1, f);
    lemma_piece(s, a, w, f, w.len() as int);
    assert(w.subrange(0, l1) =~= c);
    assert(w.subrange(l1, f) =~= p);
    assert(w.subrange(f, w.len() as int) =~= m);
    if bp != 0 {
        lemma_read_tagged(s, a + f, tag, n, b);
    }
    lemma_read_tagged(s, a + l1, 'D', 100, b);
    if count > 1 {
        lemma_read_number(s, a, count as nat, b);
    } else {
        assert(digits_end(s, a, b) == a);
    }
    lemma_dice_word(s, a, b, a + l1, a + f, count, 100, n, tag);
}

/// The notation of well-formed dice at `s[a..b]` is read as those dice.
proof fn lemma_dice_word_at(s: Seq<char>, a: int, b: int, d: Dice)
    requires
        0 <= a,
        b <= s.len(),
        d.wf(),
        b == a + d.notation().len(),
        s.subrange(a, b) == d.notation(),
    ensures
        a < b,
        all_word(d.notation()),
        word_term(s, a, b) == Ok::<DiroAst, DiroError>(unrolled(d)),
{
    match d {
        Dice::FDice(count) => lemma_fudge_word_at(s, a, b, count),
        Dice::CDice { count, face, count_line } => lemma_counting_word_at(s, a, b, count, face, count_line),
        Dice::ADice { count, face, add_line, success_line } => lemma_accumulating_word_at(
            s,
            a,
            b,
            count,
            face,
            add_line,
            success_line,
        ),
        Dice::Dice { count, face, kq } => lemma_standard_word_at(s, a, b, count, face, kq),
        Dice::D100 { count, bp } => lemma_percentile_word_at(s, a, b, count, bp),
    }
}

/// The notation of well-formed dice reads back as the same dice.
pub proof fn lemma_dice_notation_reads_back(d: Dice)
    requires
        d.wf(),
    ensures
        parsed(d.notation()) == Ok::<DiroAst, DiroError>(unrolled(d)),
{
    let s = d.notation();
    assert(s.subrange(0, s.len() as int) =~= s);
    lemma_dice_word_at(s, 0, s.len() as int, d);
    lemma_lone_word(s, unrolled(d));
}

/// The notation of a chain: operands' notations with the operators'
/// symbols between them.
pub open spec fn tokens(atoms: Seq<DiroAst>, verbs: Seq<Verb>) -> Seq<char>
    decreases atoms.len(),
{
    if atoms.len() <= 1 {
        atoms[0].shown()
    } else {
        atoms[0].shown() + seq![verbs[0].symbol()] + tokens(atoms.drop_first(), verbs.drop_first())
    }
}

/// Where an operand's notation may end: at the end of the text, before a
/// closing parenthesis or before an operator.
pub open spec fn stops(s: Seq<char>, e: int) -> bool {
    e == s.len() || (0 <= e < s.len() && (s[e] == ')' || verb_of(s[e]) is Some))
}

/// Where an expression's notation may end.
pub open spec fn closes(s: Seq<char>, e: int) -> bool {
    e == s.len() || (0 <= e < s.len() && s[e] == ')')
}

proof fn lemma_stop_char(c: char)
    requires
        c == ')' || verb_of(c) is Some,
    ensures
        !is_word_char(c),
        !is_digit(c),
        !is_space(c),
        c != '(',
{
}

proof fn lemma_symbol_verb(v: Verb)
    ensures
        verb_of(v.symbol()) == Some(v),
        !is_space(v.symbol()),
{
}

proof fn lemma_tokens_concat(a1: Seq<DiroAst>, v1: Seq<Verb>, v: Verb, a2: Seq<DiroAst>, v2: Seq<Verb>)
    requires
        a1.len() == v1.len() + 1,
        a2.len() == v2.len() + 1,
    ensures
        tokens(a1 + a2, v1.push(v) + v2) == tokens(a1, v1) + seq![v.symbol()] + tokens(a2, v2),
    decreases a1.len(),
{
    let a = a1 + a2;
    let w = v1.push(v) + v2;
    if a1.len() == 1 {
        assert(a.drop_first() =~= a2);
        assert(w.drop_first() =~= v2);
        assert(w[0] == v);
        assert(a[0] == a1[0]);
    } else {
        lemma_tokens_concat(a1.drop_first(), v1.drop_first(), v, a2, v2);
        assert(a.drop_first() =~= a1.drop_first() + a2);
        assert(w.drop_first() =~= v1.drop_first().push(v) + v2);
        assert(w[0] == v1[0]);
        assert(a[0] == a1[0]);
    }
}

proof fn lemma_shown_tokens(x: DiroAst)
    ensures
        x.shown() == tokens(x.operands(), x.verbs()),
    decreases x,
{
    if let DiroAst::DyadicOP { verb, lhs, rhs } = x {
        lemma_shown_tokens(*lhs);
        lemma_shown_tokens(*rhs);
        lemma_operands_count(*lhs);
        lemma_operands_count(*rhs);
        lemma_tokens_concat(lhs.operands(), lhs.verbs(), verb, rhs.operands(), rhs.verbs());
    } else {
        assert(x.operands().len() == 1);
    }
}

/// The notation of a printable tree is not empty and starts with no space.
proof fn lemma_shown_start(x: DiroAst)
    requires
        x.printable(),
    ensures
        x.shown().len() >= 1,
        !is_space(x.shown()[0]),
    decreases x,
{
    match x {
        DiroAst::Int(v) => {
            if v >= 0 {
                lemma_nat_text(v as nat);
            } else {
                lemma_nat_text((-v) as nat);
            }
        },
        DiroAst::Dice(d, _) => {
            let s = d.notation();
            assert(s.subrange(0, s.len() as int) =~= s);
            lemma_dice_word_at(s, 0, s.len() as int, d);
            assert(is_word_char(s[0]));
        },
        DiroAst::DyadicOP { lhs, .. } => {
            lemma_shown_start(*lhs);
        },
        DiroAst::Closed(_) => {},
    }
}

proof fn lemma_word_run_to(s: Seq<char>, i: int, e: int)
    requires
        0 <= i <= e <= s.len(),
        forall|k: int| i <= k < e ==> is_word_char(#[trigger] s[k]),
        e == s.len() || !is_word_char(s[e]),
    ensures
        word_end(s, i) == e,
    decreases e - i,
{
    if i < e {
        lemma_word_run_to(s, i + 1, e);
    }
}

/// An integer's decimal text, where an operand may end, is read as that
/// integer.
proof fn lemma_int_at(s: Seq<char>, i: int, v: i32)
    requires
        0 <= i,
        i + int_text(v as int).len() <= s.len(),
        s.subrange(i, i + int_text(v as int).len()) == int_text(v as int),
        stops(s, i + int_text(v as int).len()),
    ensures
        term_at(s, i) == Ok::<(DiroAst, int), DiroError>(
            (DiroAst::Int(v), i + int_text(v as int).len()),
        ),
{
    let t = int_text(v as int);
    let e = i + t.len();
    if e < s.len() {
        lemma_stop_char(s[e]);
    }
    if v >= 0 {
        let n = v as nat;
        lemma_nat_text(n);
        lemma_read_number(s, i, n, e);
        assert(s[i] == t[0]);
        assert forall|k: int| i <= k < e implies is_word_char(#[trigger] s[k]) by {
            assert(s[k] == t[k - i]);
        }
        lemma_word_run_to(s, i, e);
    } else {
        let n = (-v) as nat;
        let u = nat_text(n);
        lemma_nat_text(n);
        assert(t =~= seq!['-'] + u);
        assert(s[i] == t[0]);
        assert(s.subrange(i + 1, e) =~= s.subrange(i, e).subrange(1, t.len() as int));
        assert(t.subrange(1, t.len() as int) =~= u);
        assert(s[i + 1] == u[0]);
        lemma_read_number(s, i + 1, n, s.len() as int);
    }
}

/// An operand's notation, where an operand may end, is read as an operand
/// that agrees with it but for parentheses.
proof fn lemma_atom_reads(s: Seq<char>, i: int, a: DiroAst, bound: nat)
    requires
        0 <= i,
        a !is DyadicOP,
        a.printable(),
        a.size() <= bound,
        i + a.shown().len() <= s.len(),
        s.subrange(i, i + a.shown().len()) == a.shown(),
        stops(s, i + a.shown().len()),
    ensures
        term_at(s, i) matches Ok((p, e)) && e == i + a.shown().len() && p !is DyadicOP
            && p.stripped() == a.stripped(),
    decreases bound, 0int, 0int,
{
    let e = i + a.shown().len();
    if e < s.len() {
        lemma_stop_char(s[e]);
    }
    match a {
        DiroAst::Int(v) => {
            lemma_int_at(s, i, v);
        },
        DiroAst::Dice(d, slot) => {
            lemma_dice_word_at(s, i, e, d);
            let w = d.notation();
            assert forall|k: int| i <= k < e implies is_word_char(#[trigger] s[k]) by {
                assert(s[k] == w[k - i]);
            }
            lemma_word_run_to(s, i, e);
            assert(is_word_char(s[i]));
        },
        DiroAst::Closed(y) => {
            let t = y.shown();
            lemma_shown_start(*y);
            assert(a.shown() =~= seq!['('] + t + seq![')']);
            assert(s[i] == s.subrange(i, e)[0]);
            assert(s[i] == '(');
            let k = i + 1 + t.len();
            assert(s.subrange(i + 1, k) =~= s.subrange(i, e).subrange(1, 1 + t.len() as int));
            assert(a.shown().subrange(1, 1 + t.len() as int) =~= t);
            assert(s[k] == a.shown()[1 + t.len() as int]);
            assert(s[i + 1] == t[0]);
            lemma_chain_reads(s, i + 1, *y);
        },
        _ => {},
    }
}

/// A chain's notation, followed by the end or by `)`, is read as a chain
/// that agrees with it but for parentheses.
proof fn lemma_chain_reads(s: Seq<char>, i: int, x: DiroAst)
    requires
        0 <= i,
        x.printable(),
        x.left_grouped(),
        i + x.shown().len() <= s.len(),
        s.subrange(i, i + x.shown().len()) == x.shown(),
        closes(s, i + x.shown().len()),
    ensures
        expr_at(s, i) matches Ok((p, e)) && e == i + x.shown().len() && p.stripped()
            == x.stripped(),
    decreases x.size(), 2int, 0int,
{
    let atoms = x.operands();
    let verbs = x.verbs();
    lemma_operands_count(x);
    lemma_operand_sizes(x);
    lemma_operands_printable(x);
    lemma_shown_tokens(x);
    lemma_tokens_read(s, i, atoms, verbs, x.size());
    let p = expr_at(s, i)->Ok_0.0;
    lemma_grouping_unique(p, x);
}

/// A chain's operands and operators, followed by the end or by `)`, are
/// read as a chain grouped from the left with those operators and with
/// operands that agree but for parentheses.
proof fn lemma_tokens_read(s: Seq<char>, i: int, atoms: Seq<DiroAst>, verbs: Seq<Verb>, bound: nat)
    requires
        0 <= i,
        atoms.len() == verbs.len() + 1,
        forall|k: int|
            0 <= k < atoms.len() ==> (#[trigger] atoms[k]) !is DyadicOP && atoms[k].printable()
                && atoms[k].size() <= bound,
        i + tokens(atoms, verbs).len() <= s.len(),
        s.subrange(i, i + tokens(atoms, verbs).len()) == tokens(atoms, verbs),
        closes(s, i + tokens(atoms, verbs).len()),
    ensures
        expr_at(s, i) matches Ok((p, e)) && e == i + tokens(atoms, verbs).len() && p.left_grouped()
            && p.verbs() == verbs && p.operands().len() == atoms.len() && forall|k: int|
            0 <= k < atoms.len() ==> (#[trigger] p.operands()[k]).stripped()
                == atoms[k].stripped(),
    decreases bound, 1int, atoms.len(),
{
    let all = tokens(atoms, verbs);
    let a = atoms[0];
    let ta = a.shown();
    let j = i + ta.len();
    let e = i + all.len();
    if atoms.len() == 1 {
        assert(all == ta);
        lemma_atom_reads(s, i, a, bound);
        let pa = term_at(s, i)->Ok_0.0;
        if e < s.len() {
            lemma_stop_char(s[e]);
        }
        assert(skip_spaces(s, e) == e);
        assert(pa.left_grouped());
        assert(pa.operands() =~= seq![pa]);
    } else {
        let rest = tokens(atoms.drop_first(), verbs.drop_first());
        let v = verbs[0];
        assert(all == ta + seq![v.symbol()] + rest);
        lemma_symbol_verb(v);
        lemma_piece(s, i, all, 0, ta.len() as int);
        assert(all.subrange(0, ta.len() as int) =~= ta);
        assert(s[j] == all[ta.len() as int]);
        lemma_atom_reads(s, i, a, bound);
        let pa = term_at(s, i)->Ok_0.0;
        assert(skip_spaces(s, j) == j);
        lemma_piece(s, i, all, ta.len() + 1int, all.len() as int);
        assert(all.subrange(ta.len() + 1int, all.len() as int) =~= rest);
        assert(atoms.drop_first()[0] == atoms[1]);
        lemma_shown_start(atoms[1]);
        assert(rest.subrange(0, atoms[1].shown().len() as int) =~= atoms[1].shown()) by {
            if atoms.len() > 2 {
                assert(rest =~= atoms[1].shown() + seq![verbs[1].symbol()] + tokens(
                    atoms.drop_first().drop_first(),
                    verbs.drop_first().drop_first(),
                ));
            }
        }
        assert(s[j + 1] == rest[0]);
        assert(skip_spaces(s, j + 1) == j + 1);
        lemma_tokens_read(s, j + 1, atoms.drop_first(), verbs.drop_first(), bound);
        let q = expr_at(s, j + 1)->Ok_0.0;
        lemma_combined(v, pa, q);
        let p = DiroAst::combined(v, pa, q);
        assert(pa.operands() =~= seq![pa]);
        assert(verbs =~= Seq::<Verb>::empty().push(v) + verbs.drop_first());
        assert forall|k: int| 0 <= k < atoms.len() implies (#[trigger] p.operands()[k]).stripped()
            == atoms[k].stripped() by {
            if k > 0 {
                assert(p.operands()[k] == q.operands()[k - 1]);
                assert(atoms[k] == atoms.drop_first()[k - 1]);
            }
        }
    }
}

proof fn lemma_fields_readable(count: u8, face: u16, bp: i8, kq: i8)
    ensures
        Dice::from_fields(count, face, bp, kq) matches Ok(d) ==> d.wf(),
{
}

proof fn lemma_word_printable(s: Seq<char>, a: int, b: int)
    ensures
        word_term(s, a, b) matches Ok(t) ==> t.stripped().printable(),
{
    let i = digits_end(s, a, b);
    if i < b && is_letter(s[i], 'd', 'D') {
        let f = digits_end(s, i + 1, b);
        assert forall|c: int, fc: int, bp: int, kq: int|
            -128 <= bp <= 127 && -128 <= kq <= 127 && 0 <= c <= 255 && 0 <= fc <= 65535 implies (
            #[trigger] Dice::from_fields(c as u8, fc as u16, bp as i8, kq as i8)) matches Ok(d)
            ==> d.wf() by {
            lemma_fields_readable(c as u8, fc as u16, bp as i8, kq as i8);
        }
    }
}

proof fn lemma_combined_printable(verb: Verb, lhs: DiroAst, rhs: DiroAst)
    requires
        lhs.stripped().printable(),
        rhs.stripped().printable(),
    ensures
        DiroAst::combined(verb, lhs, rhs).stripped().printable(),
    decreases rhs,
{
    if let DiroAst::DyadicOP { verb: sv, lhs: sl, rhs: sr } = rhs {
        if verb.rank() >= sv.rank() {
            lemma_combined_printable(verb, lhs, *sl);
        }
    }
}

proof fn lemma_term_printable(s: Seq<char>, i: int)
    ensures
        term_at(s, i) matches Ok((t, _)) ==> t.stripped().printable(),
    decreases s.len() - i, 0int,
{
    if 0 <= i < s.len() {
        if s[i] == '(' {
            let j = skip_spaces(s, i + 1);
            if i < j <= s.len() {
                lemma_expr_printable(s, j);
            }
        } else if is_word_char(s[i]) {
            lemma_word_printable(s, i, word_end(s, i));
        }
    }
}

proof fn lemma_expr_printable(s: Seq<char>, i: int)
    ensures
        expr_at(s, i) matches Ok((t, _)) ==> t.stripped().printable(),
    decreases s.len() - i, 1int,
{
    lemma_term_printable(s, i);
    if let Ok((t, j)) = term_at(s, i) {
        let k = skip_spaces(s, j);
        if i < k < s.len() && verb_of(s[k]) is Some {
            let m = skip_spaces(s, k + 1);
            if k < m <= s.len() {
                lemma_expr_printable(s, m);
                if let Ok((r, n)) = expr_at(s, m) {
                    lemma_combined_printable(verb_of(s[k])->0, t, r);
                }
            }
        }
    }
}

proof fn lemma_seen_open(t: DiroAst)
    ensures
        t.seen_in(0, false) !is Closed,
    decreases t,
{
    if let DiroAst::Closed(inner) = t {
        lemma_seen_open(*inner);
    }
}

/// The notation of what was read reads back as the same tree, but for
/// parentheses that the notation leaves out because they are not needed.
pub proof fn lemma_notation_reads_back(s: Seq<char>)
    requires
        parsed(s) is Ok,
    ensures
        parsed(parsed(s)->Ok_0.text_in(0, false)) matches Ok(u) && u.stripped() == parsed(
            s,
        )->Ok_0.stripped(),
{
    let t = parsed(s)->Ok_0;
    let i = skip_spaces(s, 0);
    if i < s.len() {
        lemma_expr_printable(s, i);
    } else {
        assert(t.stripped().printable());
    }
    let x = t.seen_in(0, false);
    lemma_seen_printable(t, 0, false);
    lemma_seen_text(t, 0, false);
    lemma_seen_open(t);
    let s2 = x.shown();
    lemma_shown_start(x);
    assert(s2.subrange(0, s2.len() as int) =~= s2);
    lemma_chain_reads(s2, 0, x);
    assert(skip_spaces(s2, 0) == 0);
    let p = expr_at(s2, 0)->Ok_0.0;
    assert(skip_spaces(s2, s2.len() as int) == s2.len());
    assert(parsed(s2) == Ok::<DiroAst, DiroError>(p));
}

} // verus!
