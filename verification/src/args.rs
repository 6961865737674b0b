//! The decisions behind command-line configuration.
//!
//! The process edge reads the argument strings and the platform's
//! address parser turns text into addresses; everything that is decided
//! from those readings — which argument is a flag, how many arguments
//! are allowed, what the worker count is — is verified here, for
//! whatever readings the caller hands in.

use vstd::prelude::*;
use vstd::string::StrSliceExecFns;
use crate::scan::Target;

verus! {

/// `needle` occurs as a contiguous run somewhere inside `haystack`.
pub open spec fn contains_seq(haystack: Seq<char>, needle: Seq<char>) -> bool {
    exists|i: int|
        0 <= i <= haystack.len() - needle.len() && #[trigger] haystack.subrange(
            i,
            i + needle.len() as int,
        ) == needle
}

/// Whether `needle` stands at position `at` of `haystack`.
fn matches_at(haystack: &str, needle: &str, at: usize) -> (r: bool)
    requires
        at + needle@.len() <= haystack@.len(),
    ensures
        r == (haystack@.subrange(at as int, at as int + needle@.len() as int) == needle@),
{
    let hl = haystack.unicode_len();
    let nl = needle.unicode_len();
    let ghost sub: Seq<char> = haystack@.subrange(at as int, at as int + needle@.len() as int);
    let mut j: usize = 0;
    while j < nl
        invariant
            hl == haystack@.len(),
            nl == needle@.len(),
            at + nl <= hl,
            sub == haystack@.subrange(at as int, at as int + nl as int),
            j <= nl,
            forall|k: int| 0 <= k < j ==> haystack@[at + k] == needle@[k],
        decreases nl - j,
    {
        if haystack.get_char(at + j) != needle.get_char(j) {
            proof {
                assert(sub[j as int] == haystack@[at + j]);
            }
            return false;
        }
        j = j + 1;
    }
    proof {
        assert(sub =~= needle@);
    }
    true
}

/// Substring search: whether `needle` occurs inside `haystack`.
pub fn str_contains(haystack: &str, needle: &str) -> (r: bool)
    ensures
        r == contains_seq(haystack@, needle@),
{
    let hl = haystack.unicode_len();
    let nl = needle.unicode_len();
    if nl > hl {
        return false;
    }
    if nl == 0 {
        proof {
            assert(haystack@.subrange(0, 0 + needle@.len() as int) =~= needle@);
            assert(contains_seq(haystack@, needle@));
        }
        return true;
    }
    let mut i: usize = 0;
    while i <= hl - nl
        invariant
            hl == haystack@.len(),
            nl == needle@.len(),
            1 <= nl <= hl,
            i <= hl - nl + 1,
            forall|s: int|
                0 <= s < i ==> #[trigger] haystack@.subrange(s, s + nl as int) != needle@,
        decreases hl - nl + 1 - i,
    {
        if matches_at(haystack, needle, i) {
            proof {
                assert(haystack@.subrange(i as int, i as int + nl as int) == needle@);
            }
            return true;
        }
        i = i + 1;
    }
    false
}

/// The number a run of decimal digit characters denotes.
pub open spec fn decimal_value(s: Seq<char>) -> int
    decreases s.len(),
{
    if s.len() == 0 {
        0
    } else {
        decimal_value(s.drop_last()) * 10 + (s.last() as int - '0' as int)
    }
}

/// Every character is a decimal digit.
pub open spec fn all_digits(s: Seq<char>) -> bool {
    forall|i: int| 0 <= i < s.len() ==> '0' <= #[trigger] s[i] <= '9'
}

proof fn lemma_decimal_value_nonneg(s: Seq<char>)
    requires
        all_digits(s),
    ensures
        decimal_value(s) >= 0,
    decreases s.len(),
{
    if s.len() > 0 {
        assert forall|i: int| 0 <= i < s.drop_last().len() implies '0' <= #[trigger] s.drop_last()[i]
            <= '9' by {
            assert(s.drop_last()[i] == s[i]);
        }
        lemma_decimal_value_nonneg(s.drop_last());
    }
}

/// A digit string denotes at least as much as any of its prefixes.
proof fn lemma_decimal_value_prefix_le(s: Seq<char>, i: int)
    requires
        all_digits(s),
        0 <= i <= s.len(),
    ensures
        decimal_value(s.subrange(0, i)) <= decimal_value(s),
    decreases s.len() - i,
{
    if i == s.len() {
        assert(s.subrange(0, i) =~= s);
    } else {
        lemma_decimal_value_prefix_le(s, i + 1);
        let a = s.subrange(0, i);
        let b = s.subrange(0, i + 1);
        assert(b.drop_last() =~= a);
        assert forall|k: int| 0 <= k < a.len() implies '0' <= #[trigger] a[k] <= '9' by {
            assert(a[k] == s[k]);
        }
        lemma_decimal_value_nonneg(a);
        assert(decimal_value(b) == decimal_value(a) * 10 + (s[i] as int - '0' as int));
    }
}

/// Parse a decimal worker count: accepted exactly when the text is one
/// or more decimal digits denoting a value that fits in a port-sized
/// integer; no sign, no spaces, nothing else.
pub fn parse_worker_count(s: &str) -> (r: Option<u16>)
    ensures
        r is Some <==> all_digits(s@) && s@.len() >= 1 && decimal_value(s@) <= 65535,
        r matches Some(v) ==> v as int == decimal_value(s@),
{
    let len = s.unicode_len();
    if len == 0 {
        return None;
    }
    let mut i: usize = 0;
    let mut acc: u32 = 0;
    proof {
        assert(s@.subrange(0, 0) =~= Seq::<char>::empty());
    }
    while i < len
        invariant
            len == s@.len(),
            i <= len,
            forall|k: int| 0 <= k < i ==> '0' <= #[trigger] s@[k] <= '9',
            acc as int == decimal_value(s@.subrange(0, i as int)),
            acc <= 65535,
        decreases len - i,
    {
        let c = s.get_char(i);
        let cu = c as u32;
        if cu < 48 || cu > 57 {
            proof {
                assert(!('0' <= s@[i as int] <= '9'));
            }
            return None;
        }
        let d = cu - 48;
        let next = acc * 10 + d;
        proof {
            let a = s@.subrange(0, i as int);
            let b = s@.subrange(0, i as int + 1);
            assert(b.drop_last() =~= a);
            assert(decimal_value(b) == decimal_value(a) * 10 + (s@[i as int] as int - '0' as int));
        }
        if next > 65535 {
            proof {
                if all_digits(s@) {
                    lemma_decimal_value_prefix_le(s@, i as int + 1);
                }
            }
            return None;
        }
        acc = next;
        i = i + 1;
    }
    proof {
        assert(s@.subrange(0, len as int) =~= s@);
    }
    Some(acc as u16)
}

/// Everything the scan engine needs from the command line: the target
/// and how many workers to partition the port space across.
#[derive(Clone, Copy, PartialEq, Eq, Structural, Debug)]
pub struct Arguments {
    pub target: Target,
    pub threads: u16,
}

/// Why a command line is refused, one variant per distinct refusal the
/// process edge reports.
#[derive(Clone, Copy, PartialEq, Eq, Structural, Debug)]
pub enum ArgError {
    NotEnoughArguments,
    TooManyArguments,
    Help,
    InvalidAddress,
    InvalidThreadCount,
    InvalidSyntax,
}

/// Whether the flag argument asks for the help text.
pub open spec fn wants_help(flag: Seq<char>) -> bool {
    contains_seq(flag, "-h"@) || contains_seq(flag, "-help"@)
}

/// Decide the scan configuration from the command line.  Turning text
/// into an address is outside work: the caller hands in `first_addr`,
/// its reading of the first argument as an address, and `third_addr`,
/// its reading of the third one where that exists; the decisions here
/// hold for whatever readings are handed in.  A bare address scans with
/// the default of four workers; `-j` selects the worker count, which
/// must be a positive decimal number.
pub fn decide_arguments(
    args: &Vec<String>,
    first_addr: Option<Target>,
    third_addr: Option<Target>,
) -> (r: Result<Arguments, ArgError>)
    ensures
        args@.len() < 2 ==> r == Err::<Arguments, ArgError>(ArgError::NotEnoughArguments),
        args@.len() > 4 ==> r == Err::<Arguments, ArgError>(ArgError::TooManyArguments),
        2 <= args@.len() <= 4 ==> match first_addr {
            Some(t) => r == Ok::<Arguments, ArgError>(Arguments { target: t, threads: 4 }),
            None => {
                let flag = args@[1]@;
                if wants_help(flag) {
                    if args@.len() == 2 {
                        r == Err::<Arguments, ArgError>(ArgError::Help)
                    } else {
                        r == Err::<Arguments, ArgError>(ArgError::TooManyArguments)
                    }
                } else if contains_seq(flag, "-j"@) {
                    if args@.len() != 4 {
                        r == Err::<Arguments, ArgError>(ArgError::InvalidSyntax)
                    } else {
                        match third_addr {
                            Some(t) => {
                                let count = args@[2]@;
                                if all_digits(count) && count.len() >= 1 && 1 <= decimal_value(
                                    count,
                                ) <= 65535 {
                                    r == Ok::<Arguments, ArgError>(
                                        Arguments {
                                            target: t,
                                            threads: decimal_value(count) as u16,
                                        },
                                    )
                                } else {
                                    r == Err::<Arguments, ArgError>(ArgError::InvalidThreadCount)
                                }
                            },
                            None => r == Err::<Arguments, ArgError>(ArgError::InvalidAddress),
                        }
                    }
                } else {
                    r == Err::<Arguments, ArgError>(ArgError::InvalidSyntax)
                }
            },
        },
{
    if args.len() < 2 {
        return Err(ArgError::NotEnoughArguments);
    }
    if args.len() > 4 {
        return Err(ArgError::TooManyArguments);
    }
    if let Some(t) = first_addr {
        return Ok(Arguments { target: t, threads: 4 });
    }
    let first = args[1].as_str();
    if str_contains(first, "-h") || str_contains(first, "-help") {
        if args.len() == 2 {
            return Err(ArgError::Help);
        }
        return Err(ArgError::TooManyArguments);
    }
    if str_contains(first, "-j") {
        if args.len() != 4 {
            return Err(ArgError::InvalidSyntax);
        }
        let t = match third_addr {
            Some(t) => t,
            None => {
                return Err(ArgError::InvalidAddress);
            },
        };
        match parse_worker_count(args[2].as_str()) {
            Some(threads) => {
                if threads == 0 {
                    return Err(ArgError::InvalidThreadCount);
                }
                return Ok(Arguments { target: t, threads });
            },
            None => {
                return Err(ArgError::InvalidThreadCount);
            },
        }
    }
    Err(ArgError::InvalidSyntax)
}

} // verus!
