//! The command line: two optional flags and the upper limit.

use vstd::prelude::*;
use vstd::string::StrSliceExecFns;

verus! {

/// Why a text is not an unsigned number.
#[derive(Debug, Clone, Copy, PartialEq, Eq)]
pub enum NumberError {
    /// The text is empty.
    Empty,
    /// The text holds something else than decimal digits after an optional
    /// `+` sign, or no digit at all.
    InvalidDigit,
    /// The number does not fit in a `usize`.
    Overflow,
}

/// `c` is a decimal digit.
pub open spec fn is_digit(c: char) -> bool {
    '0' <= c && c <= '9'
}

/// The value of the decimal digit `c`.
pub open spec fn digit_value(c: char) -> nat {
    (c as int - '0' as int) as nat
}

/// The number that a text of decimal digits stands for.
pub open spec fn decimal_value(digits: Seq<char>) -> nat
    decreases digits.len(),
{
    if digits.len() == 0 {
        0
    } else {
        10 * decimal_value(digits.drop_last()) + digit_value(digits.last())
    }
}

/// How many decimal digits the text starts with.
pub open spec fn leading_digits(text: Seq<char>) -> nat
    decreases text.len(),
{
    if text.len() == 0 || !is_digit(text[0]) {
        0
    } else {
        1 + leading_digits(text.skip(1))
    }
}

/// The text without its `+` sign, if it starts with one.
pub open spec fn unsigned_part(text: Seq<char>) -> Seq<char> {
    if text.len() > 0 && text[0] == '+' {
        text.skip(1)
    } else {
        text
    }
}

/// The number that a text stands for: decimal digits, after an optional `+`
/// sign. A text of digits that are too many for a `usize` is too large
/// whatever follows them; otherwise anything but a digit is an error.
pub open spec fn parse_number(text: Seq<char>) -> Result<usize, NumberError> {
    let body = unsigned_part(text);
    let digits = body.take(leading_digits(body) as int);
    if text.len() == 0 {
        Err(NumberError::Empty)
    } else if body.len() == 0 {
        Err(NumberError::InvalidDigit)
    } else if decimal_value(digits) > usize::MAX {
        Err(NumberError::Overflow)
    } else if digits.len() < body.len() {
        Err(NumberError::InvalidDigit)
    } else {
        Ok(decimal_value(digits) as usize)
    }
}

/// A text that starts with `m` digits has at least `m` leading digits, and
/// exactly `m` where it ends there or goes on with something else.
proof fn lemma_leading_digits(text: Seq<char>, m: int)
    requires
        0 <= m <= text.len(),
        forall|i: int| 0 <= i < m ==> is_digit(text[i]),
    ensures
        m <= leading_digits(text) <= text.len(),
        m == text.len() || !is_digit(text[m]) ==> leading_digits(text) == m,
    decreases text.len() - m,
{
    if m < text.len() && is_digit(text[m]) {
        lemma_leading_digits(text, m + 1);
    } else {
        lemma_leading_digits_ends(text, m);
    }
}

/// A text that starts with `m` digits and ends there, or goes on with
/// something else, has exactly `m` leading digits.
proof fn lemma_leading_digits_ends(text: Seq<char>, m: int)
    requires
        0 <= m <= text.len(),
        forall|i: int| 0 <= i < m ==> is_digit(text[i]),
        m == text.len() || !is_digit(text[m]),
    ensures
        leading_digits(text) == m,
    decreases m,
{
    if m > 0 {
        let rest = text.skip(1);
        assert forall|i: int| 0 <= i < m - 1 implies is_digit(rest[i]) by {
            assert(rest[i] == text[i + 1]);
        }
        lemma_leading_digits_ends(rest, m - 1);
    }
}

/// A longer prefix of a text stands for no smaller a number.
proof fn lemma_decimal_value_grows(text: Seq<char>, a: int, b: int)
    requires
        0 <= a <= b <= text.len(),
    ensures
        decimal_value(text.take(a)) <= decimal_value(text.take(b)),
    decreases b - a,
{
    if a < b {
        lemma_decimal_value_grows(text, a, b - 1);
        assert(text.take(b).drop_last() =~= text.take(b - 1));
    }
}

/// Reads an unsigned decimal number.
pub fn parse_limit(text: &str) -> (r: Result<usize, NumberError>)
    ensures
        r == parse_number(text@),
{
    let n: usize = text.unicode_len();
    if n == 0 {
        return Err(NumberError::Empty);
    }
    let start: usize = if text.get_char(0) == '+' {
        1
    } else {
        0
    };
    if start == n {
        return Err(NumberError::InvalidDigit);
    }
    let ghost body = unsigned_part(text@);
    let mut value: usize = 0;
    let mut i: usize = start;
    proof {
        assert(body.take(0) =~= Seq::<char>::empty());
    }
    while i < n
        invariant
            start <= i <= n,
            n == text@.len(),
            body == unsigned_part(text@),
            body == text@.skip(start as int),
            forall|j: int| 0 <= j < i - start ==> is_digit(body[j]),
            value == decimal_value(body.take(i - start)),
        decreases n - i,
    {
        let c = text.get_char(i);
        proof {
            assert(body[i - start] == c);
            assert(body.take(i - start + 1).drop_last() =~= body.take(i - start));
        }
        if !('0' <= c && c <= '9') {
            proof {
                lemma_leading_digits(body, i - start);
            }
            return Err(NumberError::InvalidDigit);
        }
        let digit: usize = (c as u32 - '0' as u32) as usize;
        let next = match value.checked_mul(10) {
            Some(tens) => tens.checked_add(digit),
            None => None,
        };
        match next {
            Some(v) => {
                value = v;
            },
            None => {
                proof {
                    lemma_leading_digits(body, i - start + 1);
                    lemma_decimal_value_grows(body, i - start + 1, leading_digits(body) as int);
                }
                return Err(NumberError::Overflow);
            },
        }
        i += 1;
    }
    proof {
        lemma_leading_digits(body, body.len() as int);
        assert(body.take(body.len() as int) =~= body);
    }
    Ok(value)
}

/// Why a command line is refused. Each error carries the index of the
/// argument that is at fault.
#[derive(Debug, Clone, Copy, PartialEq, Eq)]
pub enum ArgError {
    /// A flag that was given before is given again.
    DuplicateFlag(usize),
    /// An argument that is no flag is no unsigned number either.
    InvalidNumber(usize, NumberError),
    /// The upper limit is less than 2.
    BelowMinimum(usize),
    /// A second upper limit is given.
    DuplicateLimit(usize),
}

/// What a command line asks for.
#[derive(Debug, Clone, Copy, PartialEq, Eq)]
pub struct Options {
    /// The primes are to be listed.
    pub print: bool,
    /// The primes are to be counted.
    pub count: bool,
    /// The upper limit, where one was given; it is at least 2.
    pub upper_limit: Option<usize>,
}

/// The argument asks for the list of primes.
pub open spec fn is_print_flag(arg: Seq<char>) -> bool {
    arg == seq!['-', 'p'] || arg == seq!['-', 'P']
}

/// The argument asks for the count of primes.
pub open spec fn is_count_flag(arg: Seq<char>) -> bool {
    arg == seq!['-', 'c'] || arg == seq!['-', 'C']
}

/// The argument is one of the flags. Every other argument is taken for the
/// upper limit.
pub open spec fn is_flag(arg: Seq<char>) -> bool {
    is_print_flag(arg) || is_count_flag(arg)
}

/// The arguments as texts.
pub open spec fn texts(args: Seq<String>) -> Seq<Seq<char>> {
    args.map_values(|arg: String| arg@)
}

/// What is wrong with the argument at index `k`, given those before it.
pub open spec fn fault_at(args: Seq<Seq<char>>, k: int) -> Option<ArgError> {
    if is_print_flag(args[k]) {
        if exists|j: int| 0 <= j < k && is_print_flag(#[trigger] args[j]) {
            Some(ArgError::DuplicateFlag(k as usize))
        } else {
            None
        }
    } else if is_count_flag(args[k]) {
        if exists|j: int| 0 <= j < k && is_count_flag(#[trigger] args[j]) {
            Some(ArgError::DuplicateFlag(k as usize))
        } else {
            None
        }
    } else {
        match parse_number(args[k]) {
            Err(e) => Some(ArgError::InvalidNumber(k as usize, e)),
            Ok(limit) => if limit < 2 {
                Some(ArgError::BelowMinimum(k as usize))
            } else if exists|j: int| 0 <= j < k && !is_flag(#[trigger] args[j]) {
                Some(ArgError::DuplicateLimit(k as usize))
            } else {
                None
            },
        }
    }
}

/// Nothing is wrong with the first `k` arguments.
pub open spec fn faultless(args: Seq<Seq<char>>, k: int) -> bool {
    forall|j: int| 0 <= j < k ==> fault_at(args, j) is None
}

/// What the arguments ask for, where nothing is wrong with them: each flag
/// is set where it is given, and the upper limit is the one argument that
/// is no flag.
pub open spec fn options_of(args: Seq<Seq<char>>, options: Options) -> bool {
    &&& options.print <==> exists|j: int| 0 <= j < args.len() && is_print_flag(#[trigger] args[j])
    &&& options.count <==> exists|j: int| 0 <= j < args.len() && is_count_flag(#[trigger] args[j])
    &&& match options.upper_limit {
        Some(limit) => exists|j: int|
            0 <= j < args.len() && !is_flag(#[trigger] args[j]) && parse_number(args[j]) == Ok::<
                usize,
                NumberError,
            >(limit),
        None => forall|j: int| 0 <= j < args.len() ==> is_flag(#[trigger] args[j]),
    }
}

/// Tells whether the text is `-p` or `-P`.
fn names_print(text: &str) -> (r: bool)
    ensures
        r == is_print_flag(text@),
{
    if text.unicode_len() != 2 {
        return false;
    }
    let dash = text.get_char(0);
    let letter = text.get_char(1);
    proof {
        assert(text@ =~= seq![dash, letter]);
    }
    dash == '-' && (letter == 'p' || letter == 'P')
}

/// Tells whether the text is `-c` or `-C`.
fn names_count(text: &str) -> (r: bool)
    ensures
        r == is_count_flag(text@),
{
    if text.unicode_len() != 2 {
        return false;
    }
    let dash = text.get_char(0);
    let letter = text.get_char(1);
    proof {
        assert(text@ =~= seq![dash, letter]);
    }
    dash == '-' && (letter == 'c' || letter == 'C')
}

/// Reads the arguments of the command line, the program's name left out.
///
/// The arguments are taken one after the other, and the first that is at
/// fault is the one reported: a flag given twice, an argument that is neither
/// a flag nor a number, a number below 2, a second number.
pub fn parse_args(args: &Vec<String>) -> (r: Result<Options, ArgError>)
    ensures
        match r {
            Ok(options) => faultless(texts(args@), args@.len() as int) && options_of(
                texts(args@),
                options,
            ) && (options.upper_limit matches Some(limit) ==> limit >= 2),
            Err(e) => exists|k: int|
                0 <= k < args@.len() && faultless(texts(args@), k) && fault_at(texts(args@), k)
                    == Some(e),
        },
{
    let ghost all = texts(args@);
    let mut print = false;
    let mut count = false;
    let mut upper_limit: Option<usize> = None;
    let mut k: usize = 0;
    while k < args.len()
        invariant
            k <= args@.len(),
            all == texts(args@),
            faultless(all, k as int),
            print <==> exists|j: int| 0 <= j < k && is_print_flag(#[trigger] all[j]),
            count <==> exists|j: int| 0 <= j < k && is_count_flag(#[trigger] all[j]),
            match upper_limit {
                Some(limit) => exists|j: int|
                    0 <= j < k && !is_flag(#[trigger] all[j]) && parse_number(all[j]) == Ok::<
                        usize,
                        NumberError,
                    >(limit),
                None => forall|j: int| 0 <= j < k ==> is_flag(#[trigger] all[j]),
            },
            upper_limit matches Some(limit) ==> limit >= 2,
        decreases args@.len() - k,
    {
        let arg = args[k].as_str();
        assert(arg@ == all[k as int]);
        if names_print(arg) {
            if print {
                return Err(ArgError::DuplicateFlag(k));
            }
            print = true;
        } else if names_count(arg) {
            if count {
                return Err(ArgError::DuplicateFlag(k));
            }
            count = true;
        } else {
            match parse_limit(arg) {
                Err(e) => {
                    return Err(ArgError::InvalidNumber(k, e));
                },
                Ok(limit) => {
                    if limit < 2 {
                        return Err(ArgError::BelowMinimum(k));
                    }
                    if upper_limit.is_some() {
                        return Err(ArgError::DuplicateLimit(k));
                    }
                    upper_limit = Some(limit);
                },
            }
        }
        k += 1;
    }
    Ok(Options { print, count, upper_limit })
}

} // verus!
