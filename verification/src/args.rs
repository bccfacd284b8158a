//! Command-line resolution: from the words of an invocation to a target and a worker count.

use crate::config::Target;
use vstd::prelude::*;
use vstd::string::*;

verus! {

/// The worker count of an invocation that names only a target.
pub const DEFAULT_THREADS: u16 = 4;

/// Whether `c` is one of the ten decimal digits.
pub open spec fn is_digit(c: char) -> bool {
    '0' <= c <= '9'
}

/// The number that a decimal digit stands for.
pub open spec fn digit_value(c: char) -> nat {
    (c as nat - '0' as nat) as nat
}

/// Whether every character of `s` is a decimal digit.
pub open spec fn all_digits(s: Seq<char>) -> bool {
    forall|i: int| 0 <= i < s.len() ==> is_digit(#[trigger] s[i])
}

/// The number that a run of decimal digits denotes, most significant digit first.
pub open spec fn decimal_value(digits: Seq<char>) -> nat
    decreases digits.len(),
{
    if digits.len() == 0 {
        0
    } else {
        10 * decimal_value(digits.drop_last()) + digit_value(digits.last())
    }
}

/// `s` without its leading plus sign, if it has one.
pub open spec fn unsigned_part(s: Seq<char>) -> Seq<char> {
    if s.len() > 0 && s[0] == '+' {
        s.skip(1)
    } else {
        s
    }
}

/// The worker count that `s` spells: an optional plus sign, then one or more decimal digits
/// whose value fits in sixteen bits. Anything else spells none.
pub open spec fn thread_count(s: Seq<char>) -> Option<u16> {
    let digits = unsigned_part(s);
    if digits.len() > 0 && all_digits(digits) && decimal_value(digits) <= u16::MAX {
        Some(decimal_value(digits) as u16)
    } else {
        None
    }
}

/// A run of digits denotes at least as much as any of its prefixes.
proof fn lemma_decimal_value_prefix(digits: Seq<char>, k: int)
    requires
        0 <= k <= digits.len(),
    ensures
        decimal_value(digits.take(k)) <= decimal_value(digits),
    decreases digits.len() - k,
{
    if k == digits.len() {
        assert(digits.take(k) =~= digits);
    } else {
        let longer = digits.take(k + 1);
        assert(longer.drop_last() =~= digits.take(k));
        lemma_decimal_value_prefix(digits, k + 1);
    }
}

/// Reads a worker count from its decimal spelling.
pub fn parse_thread_count(s: &str) -> (count: Option<u16>)
    ensures
        count == thread_count(s@),
{
    if !s.is_ascii() {
        proof {
            let i = choose|i: int| 0 <= i < s@.len() && !('\0' <= #[trigger] s@[i] <= '\u{7f}');
            let digits = unsigned_part(s@);
            if i == 0 {
                assert(!is_digit(digits[0]));
            } else if s@[0] == '+' {
                assert(!is_digit(digits[i - 1]));
            } else {
                assert(!is_digit(digits[i]));
            }
        }
        return None;
    }
    let n: usize = s.unicode_len();
    let start: usize = if n > 0 && s.get_ascii(0) == 43u8 {
        1
    } else {
        0
    };
    let ghost digits = unsigned_part(s@);
    assert(digits =~= s@.subrange(start as int, n as int));
    if start == n {
        return None;
    }
    let mut acc: u32 = 0;
    let mut i: usize = start;
    while i < n
        invariant
            start <= i <= n,
            n == s@.len(),
            is_ascii(s),
            digits == unsigned_part(s@),
            digits == s@.subrange(start as int, n as int),
            all_digits(digits.take(i - start)),
            acc == decimal_value(digits.take(i - start)),
            acc <= u16::MAX,
        decreases n - i,
    {
        let b: u8 = s.get_ascii(i);
        let ghost c = s@[i as int];
        assert(c == digits[i - start]);
        if b < 48u8 || b > 57u8 {
            assert(!is_digit(c));
            return None;
        }
        let ghost longer = digits.take(i - start + 1);
        proof {
            assert(longer.drop_last() =~= digits.take(i - start));
            assert(longer.last() == c);
            assert(digit_value(c) == b - 48);
            assert forall|j: int| 0 <= j < longer.len() implies is_digit(#[trigger] longer[j]) by {
                if j < i - start {
                    assert(longer[j] == digits.take(i - start)[j]);
                }
            }
        }
        let d: u32 = (b - 48u8) as u32;
        acc = acc * 10 + d;
        if acc > 65535 {
            proof {
                lemma_decimal_value_prefix(digits, i - start + 1);
            }
            return None;
        }
        i += 1;
    }
    assert(digits.take(i - start) =~= digits);
    Some(acc as u16)
}

/// One word of the command line, together with the address it spells, if it spells one.
pub struct Word {
    /// The word as it was typed.
    pub text: String,
    /// The address that the word spells; `None` where it spells none.
    pub addr: Option<Target>,
}

/// Why an invocation yields no scan.
#[derive(Clone, Copy, Debug, PartialEq, Eq)]
pub enum ArgError {
    /// The usage text was asked for.
    Help,
    /// Fewer words than the chosen form needs.
    NotEnoughArguments,
    /// More words than the chosen form takes.
    TooManyArguments,
    /// The target is neither an IPv4 nor an IPv6 address.
    InvalidAddress,
    /// The worker count is not a number that fits in sixteen bits.
    InvalidThreadCount,
    /// The first word is neither an address nor a known flag.
    InvalidSyntax,
}

/// What a well-formed invocation asks for.
#[derive(Debug)]
pub struct Arguments {
    /// The flag that the invocation began with; empty where it began with the target.
    pub flag: String,
    /// The host to scan.
    pub ipaddr: Target,
    /// The number of workers to scan it with.
    pub threads: u16,
}

/// What a well-formed invocation asks for, with the flag as a sequence of characters.
pub struct Request {
    /// The flag that the invocation began with; empty where it began with the target.
    pub flag: Seq<char>,
    /// The host to scan.
    pub ipaddr: Target,
    /// The number of workers to scan it with.
    pub threads: u16,
}

impl View for Arguments {
    type V = Request;

    open spec fn view(&self) -> Request {
        Request { flag: self.flag@, ipaddr: self.ipaddr, threads: self.threads }
    }
}

/// Whether `text` asks for the usage text.
pub open spec fn is_help_flag(text: Seq<char>) -> bool {
    text == "-h"@ || text == "-help"@
}

/// Whether `text` announces a worker count.
pub open spec fn is_threads_flag(text: Seq<char>) -> bool {
    text == "-th"@
}

/// The outcome of an invocation, where `args[0]` is the program's own name: the flag, the
/// target and the worker count that it selects, or the reason why it selects none.
///
/// Three forms are accepted: a target alone, which gets `DEFAULT_THREADS` workers; `-th`, a
/// worker count and a target; and `-h` or `-help` alone, which reports `ArgError::Help`.
pub open spec fn resolve(args: Seq<Word>) -> Result<Request, ArgError> {
    if args.len() < 2 {
        Err(ArgError::NotEnoughArguments)
    } else if args.len() > 4 {
        Err(ArgError::TooManyArguments)
    } else if args[1].addr is Some {
        if args.len() == 2 {
            Ok(Request { flag: Seq::empty(), ipaddr: args[1].addr->0, threads: DEFAULT_THREADS })
        } else {
            Err(ArgError::TooManyArguments)
        }
    } else if is_help_flag(args[1].text@) {
        if args.len() == 2 {
            Err(ArgError::Help)
        } else {
            Err(ArgError::TooManyArguments)
        }
    } else if is_threads_flag(args[1].text@) {
        if args.len() < 4 {
            Err(ArgError::NotEnoughArguments)
        } else if args[3].addr is None {
            Err(ArgError::InvalidAddress)
        } else {
            match thread_count(args[2].text@) {
                Some(threads) => Ok(
                    Request { flag: args[1].text@, ipaddr: args[3].addr->0, threads },
                ),
                None => Err(ArgError::InvalidThreadCount),
            }
        }
    } else {
        Err(ArgError::InvalidSyntax)
    }
}

/// Whether `text` is, character for character, the word `word`.
fn is_word(text: &String, word: &str) -> (same: bool)
    ensures
        same == (text@ == word@),
{
    let other = String::from_str(word);
    *text == other
}

impl Arguments {
    /// Resolves the words of an invocation.
    pub fn new(args: &[Word]) -> (outcome: Result<Arguments, ArgError>)
        ensures
            match outcome {
                Ok(arguments) => resolve(args@) == Ok::<Request, ArgError>(arguments@),
                Err(error) => resolve(args@) == Err::<Request, ArgError>(error),
            },
    {
        if args.len() < 2 {
            return Err(ArgError::NotEnoughArguments);
        } else if args.len() > 4 {
            return Err(ArgError::TooManyArguments);
        }
        let first = &args[1];
        if let Some(ipaddr) = first.addr {
            if args.len() == 2 {
                return Ok(Arguments { flag: String::new(), ipaddr, threads: DEFAULT_THREADS });
            }
            return Err(ArgError::TooManyArguments);
        }
        if is_word(&first.text, "-h") || is_word(&first.text, "-help") {
            if args.len() == 2 {
                return Err(ArgError::Help);
            }
            return Err(ArgError::TooManyArguments);
        }
        if !is_word(&first.text, "-th") {
            return Err(ArgError::InvalidSyntax);
        }
        if args.len() < 4 {
            return Err(ArgError::NotEnoughArguments);
        }
        let ipaddr = match args[3].addr {
            Some(addr) => addr,
            None => {
                return Err(ArgError::InvalidAddress);
            },
        };
        let threads = match parse_thread_count(args[2].text.as_str()) {
            Some(count) => count,
            None => {
                return Err(ArgError::InvalidThreadCount);
            },
        };
        Ok(Arguments { flag: first.text.clone(), ipaddr, threads })
    }
}

impl ArgError {
    /// The message that goes with the error.
    pub open spec fn message_text(self) -> Seq<char> {
        match self {
            ArgError::Help => "help"@,
            ArgError::NotEnoughArguments => "not enough arguments"@,
            ArgError::TooManyArguments => "too many arguments"@,
            ArgError::InvalidAddress => "Not a valid IPADDR; must be IPv4 or IPv6"@,
            ArgError::InvalidThreadCount => "failed to parse thread number"@,
            ArgError::InvalidSyntax => "invalid syntax"@,
        }
    }

    /// The message that goes with the error.
    pub fn message(&self) -> (text: &'static str)
        ensures
            text@ == self.message_text(),
    {
        match self {
            ArgError::Help => "help",
            ArgError::NotEnoughArguments => "not enough arguments",
            ArgError::TooManyArguments => "too many arguments",
            ArgError::InvalidAddress => "Not a valid IPADDR; must be IPv4 or IPv6",
            ArgError::InvalidThreadCount => "failed to parse thread number",
            ArgError::InvalidSyntax => "invalid syntax",
        }
    }
}

} // verus!
