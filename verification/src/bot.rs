//! Engine configuration read from `key=value` command-line arguments.
use vstd::prelude::*;
use crate::utils::chars_of;

verus! {

pub const MAX_DEPTH: u8 = 128;
pub const MAX_SEARCH_EXTENSIONS: u8 = 20;

pub const STARTING_FEN: &'static str = "rnbqkbnr/pppppppp/8/8/8/8/PPPPPPPP/RNBQKBNR w KQkq - 0 1";

#[derive(Clone, Debug)]
pub struct BotConfig {
    pub fen: String,
    pub debug_output: bool,
    pub opening_book: bool,
    pub time_management: bool,
    pub hash_size: usize,
}

/// `t` occurs in `s` starting at position `i`.
pub open spec fn occurs_at(s: Seq<char>, t: Seq<char>, i: int) -> bool {
    0 <= i && i + t.len() <= s.len() && s.subrange(i, i + t.len()) =~= t
}

pub open spec fn contains_sub(s: Seq<char>, t: Seq<char>) -> bool {
    exists|i: int| #[trigger] occurs_at(s, t, i)
}

/// The index of the first argument that contains `key`, if there is one.
pub open spec fn first_arg_with(args: Seq<Seq<char>>, key: Seq<char>, from: int) -> Option<int>
    decreases args.len() - from,
{
    if from < 0 || from >= args.len() {
        None
    } else if contains_sub(args[from], key) {
        Some(from)
    } else {
        first_arg_with(args, key, from + 1)
    }
}

pub open spec fn arg_views(args: Seq<String>) -> Seq<Seq<char>> {
    args.map_values(|a: String| a@)
}

/// The value of `key`: what follows `key` and one separator character in the
/// first argument that contains `key`.
pub open spec fn spec_arg_value(args: Seq<Seq<char>>, key: Seq<char>) -> Option<Seq<char>> {
    match first_arg_with(args, key, 0) {
        Some(i) => Some(args[i].subrange(key.len() + 1int, args[i].len() as int)),
        None => None,
    }
}

/// Arguments whose value `get_arg_value` can cut out: the first argument
/// that contains the key is ASCII and longer than the key and its separator.
pub open spec fn args_readable(args: Seq<Seq<char>>, key: Seq<char>) -> bool {
    match first_arg_with(args, key, 0) {
        Some(i) => vstd::utf8::is_ascii_chars(args[i]) && args[i].len() >= key.len() + 1,
        None => true,
    }
}

/// The decimal value of a non-empty run of digits.
pub open spec fn digits_value(s: Seq<char>) -> int
    decreases s.len(),
{
    if s.len() == 0 {
        0
    } else {
        digits_value(s.drop_last()) * 10 + ((s.last() as int) - 48)
    }
}

pub open spec fn all_digits(s: Seq<char>) -> bool {
    forall|i: int| 0 <= i < s.len() ==> 48 <= (#[trigger] s[i] as int) <= 57
}

/// How `str::parse::<usize>` reads `s`: an optional `+` and then one or more
/// decimal digits whose value fits in a `usize`.
pub open spec fn spec_parse_usize(s: Seq<char>) -> Option<usize> {
    let body = if s.len() > 0 && s[0] == '+' { s.subrange(1, s.len() as int) } else { s };
    if body.len() > 0 && all_digits(body) && digits_value(body) <= usize::MAX {
        Some(digits_value(body) as usize)
    } else {
        None
    }
}

proof fn lemma_digits_value_push(s: Seq<char>, c: char)
    ensures
        digits_value(s.push(c)) == digits_value(s) * 10 + ((c as int) - 48),
{
    assert(s.push(c).drop_last() =~= s);
}

proof fn lemma_digits_value_nonneg(s: Seq<char>)
    requires
        all_digits(s),
    ensures
        digits_value(s) >= 0,
    decreases s.len(),
{
    if s.len() > 0 {
        lemma_digits_value_nonneg(s.drop_last());
    }
}

/// The value of a decimal digit, or 10 for any other character.
pub fn digit_of(c: char) -> (r: u32)
    ensures
        r == if 48 <= (c as int) <= 57 { (c as int) - 48 } else { 10 },
{
    match c {
        '0' => 0,
        '1' => 1,
        '2' => 2,
        '3' => 3,
        '4' => 4,
        '5' => 5,
        '6' => 6,
        '7' => 7,
        '8' => 8,
        '9' => 9,
        _ => 10,
    }
}

/// Reads the characters `s` as `str::parse::<usize>` reads a string.
pub fn parse_usize_chars(s: &Vec<char>) -> (r: Option<usize>)
    ensures
        r == spec_parse_usize(s@),
{
    let n = s.len();
    let mut start: usize = 0;
    if n > 0 && s[0] == '+' {
        start = 1;
    }
    let ghost body = if s@.len() > 0 && s@[0] == '+' { s@.subrange(1, s@.len() as int) } else { s@ };
    if start >= n {
        proof {
            assert(body.len() == 0);
        }
        return None;
    }
    let mut value: usize = 0;
    let mut i: usize = start;
    while i < n
        invariant
            n == s@.len(),
            start <= i <= n,
            start == 0 || start == 1,
            body =~= s@.subrange(start as int, n as int),
            body == (if s@.len() > 0 && s@[0] == '+' { s@.subrange(1, s@.len() as int) } else { s@ }),
            all_digits(body.subrange(0, i - start)),
            value as int == digits_value(body.subrange(0, i - start)),
        decreases n - i,
    {
        let c = s[i];
        let d = digit_of(c);
        let ghost prev = body.subrange(0, i - start);
        let ghost next = body.subrange(0, i + 1 - start);
        proof {
            assert(next =~= prev.push(c));
            lemma_digits_value_push(prev, c);
            assert(body[i - start] == c);
        }
        if d > 9 {
            proof {
                assert(!(48 <= (body[i - start] as int) <= 57));
                assert(!all_digits(body));
            }
            return None;
        }
        proof {
            assert forall|q: int| 0 <= q < next.len() implies 48 <= (#[trigger] next[q] as int) <= 57 by {
                if q < prev.len() {
                    assert(next[q] == prev[q]);
                }
            }
        }
        let digit = d as usize;
        if value > (usize::MAX - digit) / 10 {
            proof {
                assert(digits_value(next) > usize::MAX) by (nonlinear_arith)
                    requires
                        digits_value(next) == value * 10 + digit,
                        value > (usize::MAX - digit) / 10,
                        digit <= 9,
                ;
                lemma_digits_value_grows(body, i + 1 - start);
            }
            return None;
        }
        proof {
            assert(value * 10 + digit <= usize::MAX) by (nonlinear_arith)
                requires
                    value <= (usize::MAX - digit) / 10,
                    digit <= 9,
            ;
        }
        value = value * 10 + digit;
        i = i + 1;
    }
    proof {
        assert(body.subrange(0, n - start) =~= body);
    }
    Some(value)
}

/// Parses a decimal `usize` the way `str::parse::<usize>` does.
pub fn parse_usize(s: &str) -> (r: Option<usize>)
    ensures
        r == spec_parse_usize(s@),
{
    let chars = chars_of(s);
    parse_usize_chars(&chars)
}

/// The value of a digit string is at least the value of any of its prefixes.
proof fn lemma_digits_value_grows(s: Seq<char>, k: int)
    requires
        0 <= k <= s.len(),
        all_digits(s.subrange(0, k)),
    ensures
        all_digits(s) ==> digits_value(s) >= digits_value(s.subrange(0, k)),
    decreases s.len() - k,
{
    if k < s.len() && all_digits(s) {
        let p = s.subrange(0, k);
        assert(s.subrange(0, k + 1) =~= p.push(s[k]));
        lemma_digits_value_push(p, s[k]);
        lemma_digits_value_nonneg(p);
        assert(all_digits(s.subrange(0, k + 1)));
        lemma_digits_value_grows(s, k + 1);
    } else if k == s.len() {
        assert(s.subrange(0, k) =~= s);
    }
}

fn occurs_at_exec(s: &str, t: &str, i: usize) -> (r: bool)
    requires
        i + t@.len() <= s@.len(),
    ensures
        r == occurs_at(s@, t@, i as int),
{
    let m = t.unicode_len();
    let total = s.unicode_len();
    let mut j: usize = 0;
    while j < m
        invariant
            m == t@.len(),
            total == s@.len(),
            i + m <= s@.len(),
            j <= m,
            forall|q: int| 0 <= q < j ==> s@[i + q] == t@[q],
        decreases m - j,
    {
        if s.get_char(i + j) != t.get_char(j) {
            proof {
                assert(s@.subrange(i as int, i + m)[j as int] != t@[j as int]);
            }
            return false;
        }
        j = j + 1;
    }
    proof {
        assert(s@.subrange(i as int, i + m) =~= t@);
    }
    true
}

/// Whether `t` occurs in `s`.
pub fn str_contains(s: &str, t: &str) -> (r: bool)
    ensures
        r == contains_sub(s@, t@),
{
    let n = s.unicode_len();
    let m = t.unicode_len();
    if m > n {
        return false;
    }
    let mut i: usize = 0;
    while i <= n - m
        invariant
            n == s@.len(),
            m == t@.len(),
            m <= n,
            i <= n - m + 1,
            forall|q: int| 0 <= q < i ==> !occurs_at(s@, t@, q),
        decreases n - i,
    {
        if occurs_at_exec(s, t, i) {
            return true;
        }
        i = i + 1;
    }
    false
}

impl BotConfig {
    pub fn from_args(args: Vec<String>) -> (r: Self)
        requires
            args_readable(arg_views(args@), "fen"@),
            args_readable(arg_views(args@), "debug_output"@),
            args_readable(arg_views(args@), "opening_book"@),
            args_readable(arg_views(args@), "time_management"@),
            args_readable(arg_views(args@), "hash_size"@),
        ensures
            r.fen@ == match spec_arg_value(arg_views(args@), "fen"@) {
                Some(v) => v,
                None => STARTING_FEN@,
            },
            r.debug_output == match spec_arg_value(arg_views(args@), "debug_output"@) {
                Some(v) => v == "true"@,
                None => true,
            },
            r.opening_book == match spec_arg_value(arg_views(args@), "opening_book"@) {
                Some(v) => v == "true"@,
                None => false,
            },
            r.time_management == match spec_arg_value(arg_views(args@), "time_management"@) {
                Some(v) => v == "true"@,
                None => true,
            },
            r.hash_size == match spec_arg_value(arg_views(args@), "hash_size"@) {
                Some(v) => match spec_parse_usize(v) {
                    Some(h) => h,
                    None => 256,
                },
                None => 256,
            },
    {
        let truth = String::from_str("true");
        let fen = match Self::get_arg_value(&args, "fen") {
            Some(v) => v,
            None => String::from_str(STARTING_FEN),
        };
        let debug_output = match Self::get_arg_value(&args, "debug_output") {
            Some(v) => v == truth,
            None => true,
        };
        let opening_book = match Self::get_arg_value(&args, "opening_book") {
            Some(v) => v == truth,
            None => false,
        };
        let time_management = match Self::get_arg_value(&args, "time_management") {
            Some(v) => v == truth,
            None => true,
        };
        let hash_size = match Self::get_arg_value(&args, "hash_size") {
            Some(v) => match parse_usize(v.as_str()) {
                Some(h) => h,
                None => 256,
            },
            None => 256,
        };
        proof {
            reveal_strlit("true");
        }
        BotConfig { fen, debug_output, opening_book, time_management, hash_size }
    }

    /// The value given for `key`: the rest of the first argument that
    /// contains `key`, after `key` and one separator character.
    fn get_arg_value(args: &Vec<String>, key: &'static str) -> (r: Option<String>)
        requires
            args_readable(arg_views(args@), key@),
        ensures
            match spec_arg_value(arg_views(args@), key@) {
                Some(v) => r matches Some(s) && s@ == v,
                None => r is None,
            },
    {
        let n = args.len();
        let mut i: usize = 0;
        while i < n
            invariant
                n == args@.len(),
                i <= n,
                args_readable(arg_views(args@), key@),
                first_arg_with(arg_views(args@), key@, 0) == first_arg_with(arg_views(args@), key@, i as int),
            decreases n - i,
        {
            let arg = args[i].as_str();
            if str_contains(arg, key) {
                let len = arg.unicode_len();
                let klen = key.unicode_len();
                let rest = arg.substring_ascii(klen + 1, len);
                return Some(String::from_str(rest));
            }
            i = i + 1;
        }
        None
    }
}

} // verus!
