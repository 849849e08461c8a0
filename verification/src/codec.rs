//! The persisted vocabulary format.
//!
//! One line per entry: the escaped token text, a tab, and the score with four
//! decimal places. Escaping replaces a literal newline or carriage return
//! inside a token by the two-character sequences `\n` and `\r`, so the file
//! stays line-based; loading reverses it. A token that itself contains a
//! backslash followed by `n` or `r` cannot be told apart from an escaped
//! control character — the round-trip law below excludes exactly that case.

use vstd::prelude::*;

use crate::text::{char_slice, chars_to_string, str_to_chars};

verus! {

use vstd::string::StringExecFns;

/// Escaping: a newline becomes `\n`, a carriage return `\r`, anything else
/// stays itself.
pub open spec fn spec_escape(s: Seq<char>) -> Seq<char>
    decreases s.len(),
{
    if s.len() == 0 {
        Seq::empty()
    } else {
        let head: Seq<char> = if s[0] == '\n' {
            seq!['\\', 'n']
        } else if s[0] == '\r' {
            seq!['\\', 'r']
        } else {
            seq![s[0]]
        };
        head + spec_escape(s.drop_first())
    }
}

/// Unescaping: `\n` and `\r` become the control characters; any other
/// character, a lone trailing backslash included, stays itself.
pub open spec fn spec_unescape(s: Seq<char>) -> Seq<char>
    decreases s.len(),
{
    if s.len() == 0 {
        Seq::empty()
    } else if s.len() >= 2 && s[0] == '\\' && s[1] == 'n' {
        seq!['\n'] + spec_unescape(s.skip(2))
    } else if s.len() >= 2 && s[0] == '\\' && s[1] == 'r' {
        seq!['\r'] + spec_unescape(s.skip(2))
    } else {
        seq![s[0]] + spec_unescape(s.skip(1))
    }
}

/// The documented ambiguity: a token holding a literal backslash directly
/// before an `n` or `r` would collide with an escaped control character.
pub open spec fn no_escape_ambiguity(s: Seq<char>) -> bool {
    forall|i: int|
        0 <= i && i + 1 < s.len() ==> !((#[trigger] s[i]) == '\\' && (s[i + 1] == 'n' || s[i + 1]
            == 'r'))
}

/// Law: escaping round-trip. A token written to the persisted format and
/// read back keeps its exact text, provided it does not itself contain the
/// two-character sequences `\n` or `\r`.
pub proof fn lemma_escape_round_trip(s: Seq<char>)
    requires
        no_escape_ambiguity(s),
    ensures
        spec_unescape(spec_escape(s)) == s,
    decreases s.len(),
{
    if s.len() == 0 {
        assert(spec_escape(s) =~= Seq::<char>::empty());
    } else {
        let rest = s.drop_first();
        assert forall|i: int|
            0 <= i && i + 1 < rest.len() implies !((#[trigger] rest[i]) == '\\' && (rest[i + 1]
            == 'n' || rest[i + 1] == 'r')) by {
            assert(rest[i] == s[i + 1]);
            assert(rest[i + 1] == s[i + 2]);
        }
        lemma_escape_round_trip(rest);
        let e = spec_escape(s);
        let er = spec_escape(rest);
        if s[0] == '\n' {
            assert(e == seq!['\\', 'n'] + er);
            assert(e.len() >= 2 && e[0] == '\\' && e[1] == 'n');
            assert(e.skip(2) =~= er);
            assert(spec_unescape(e) == seq!['\n'] + spec_unescape(er));
            assert(seq!['\n'] + rest =~= s);
        } else if s[0] == '\r' {
            assert(e == seq!['\\', 'r'] + er);
            assert(e.len() >= 2 && e[0] == '\\' && e[1] == 'r');
            assert(e.skip(2) =~= er);
            assert(spec_unescape(e) == seq!['\r'] + spec_unescape(er));
            assert(seq!['\r'] + rest =~= s);
        } else {
            let c = s[0];
            assert(e == seq![c] + er);
            assert(e[0] == c);
            if c == '\\' && rest.len() > 0 {
                // What follows the backslash in the escaped text is either
                // rest[0] itself or the backslash opening an escaped control
                // character — never 'n' or 'r', by the ambiguity condition.
                assert(!(rest[0] == 'n' || rest[0] == 'r'));
                if rest[0] == '\n' || rest[0] == '\r' {
                    assert(er[0] == '\\');
                } else {
                    assert(er == seq![rest[0]] + spec_escape(rest.drop_first()));
                    assert(er[0] == rest[0]);
                }
                assert(e.len() >= 2 && e[1] == er[0]);
                assert(!(e[1] == 'n' || e[1] == 'r'));
                assert(spec_unescape(e) == seq![c] + spec_unescape(e.skip(1)));
                assert(e.skip(1) =~= er);
            } else if c == '\\' {
                assert(er =~= Seq::<char>::empty());
                assert(e.len() == 1);
                assert(spec_unescape(e) == seq![c] + spec_unescape(e.skip(1)));
                assert(e.skip(1) =~= er);
            } else {
                assert(spec_unescape(e) == seq![c] + spec_unescape(e.skip(1)));
                assert(e.skip(1) =~= er);
            }
            assert(seq![c] + rest =~= s);
        }
    }
}

/// Escape the control characters of a token, over its character list.
fn escape_chars(cs: &Vec<char>) -> (r: Vec<char>)
    ensures
        r@ == spec_escape(cs@),
{
    let n = cs.len();
    let mut out: Vec<char> = Vec::new();
    let mut i: usize = 0;
    proof {
        assert(cs@.skip(0) =~= cs@);
        assert(Seq::<char>::empty() + spec_escape(cs@) =~= spec_escape(cs@));
    }
    while i < n
        invariant
            n == cs@.len(),
            i <= n,
            spec_escape(cs@) == out@ + spec_escape(cs@.skip(i as int)),
        decreases n - i,
    {
        let ghost prev = out@;
        let c = cs[i];
        proof {
            assert(cs@.skip(i as int)[0] == c);
            assert(cs@.skip(i as int).drop_first() =~= cs@.skip(i + 1));
        }
        if c == '\n' {
            out.push('\\');
            out.push('n');
            proof {
                assert(out@ =~= prev + seq!['\\', 'n']);
            }
        } else if c == '\r' {
            out.push('\\');
            out.push('r');
            proof {
                assert(out@ =~= prev + seq!['\\', 'r']);
            }
        } else {
            out.push(c);
            proof {
                assert(out@ =~= prev + seq![c]);
            }
        }
        proof {
            assert(out@ + spec_escape(cs@.skip(i + 1)) =~= prev + spec_escape(cs@.skip(i as int)));
        }
        i = i + 1;
    }
    proof {
        assert(cs@.skip(n as int) =~= Seq::<char>::empty());
        assert(out@ + Seq::<char>::empty() =~= out@);
    }
    out
}

/// Undo the escaping, over a character list.
fn unescape_chars(cs: &Vec<char>) -> (r: Vec<char>)
    ensures
        r@ == spec_unescape(cs@),
{
    let n = cs.len();
    let mut out: Vec<char> = Vec::new();
    let mut i: usize = 0;
    proof {
        assert(cs@.skip(0) =~= cs@);
        assert(Seq::<char>::empty() + spec_unescape(cs@) =~= spec_unescape(cs@));
    }
    while i < n
        invariant
            n == cs@.len(),
            i <= n,
            spec_unescape(cs@) == out@ + spec_unescape(cs@.skip(i as int)),
        decreases n - i,
    {
        let ghost prev = out@;
        let c = cs[i];
        proof {
            assert(cs@.skip(i as int)[0] == c);
        }
        if c == '\\' && i + 1 < n && cs[i + 1] == 'n' {
            out.push('\n');
            proof {
                assert(cs@.skip(i as int)[1] == cs@[i + 1]);
                assert(cs@.skip(i as int).skip(2) =~= cs@.skip(i + 2));
                assert(out@ =~= prev + seq!['\n']);
                assert(out@ + spec_unescape(cs@.skip(i + 2)) =~= prev + spec_unescape(
                    cs@.skip(i as int),
                ));
            }
            i = i + 2;
        } else if c == '\\' && i + 1 < n && cs[i + 1] == 'r' {
            out.push('\r');
            proof {
                assert(cs@.skip(i as int)[1] == cs@[i + 1]);
                assert(cs@.skip(i as int).skip(2) =~= cs@.skip(i + 2));
                assert(out@ =~= prev + seq!['\r']);
                assert(out@ + spec_unescape(cs@.skip(i + 2)) =~= prev + spec_unescape(
                    cs@.skip(i as int),
                ));
            }
            i = i + 2;
        } else {
            out.push(c);
            proof {
                if cs@.skip(i as int).len() >= 2 {
                    assert(cs@.skip(i as int)[1] == cs@[i + 1]);
                }
                assert(cs@.skip(i as int).skip(1) =~= cs@.skip(i + 1));
                assert(out@ =~= prev + seq![c]);
                assert(out@ + spec_unescape(cs@.skip(i + 1)) =~= prev + spec_unescape(
                    cs@.skip(i as int),
                ));
            }
            i = i + 1;
        }
    }
    proof {
        assert(cs@.skip(n as int) =~= Seq::<char>::empty());
        assert(out@ + Seq::<char>::empty() =~= out@);
    }
    out
}

/// Value of a decimal digit character; 10 marks a non-digit.
pub open spec fn spec_digit_val(c: char) -> nat {
    if c == '0' {
        0
    } else if c == '1' {
        1
    } else if c == '2' {
        2
    } else if c == '3' {
        3
    } else if c == '4' {
        4
    } else if c == '5' {
        5
    } else if c == '6' {
        6
    } else if c == '7' {
        7
    } else if c == '8' {
        8
    } else if c == '9' {
        9
    } else {
        10
    }
}

/// Whether `c` is a decimal digit.
pub open spec fn spec_is_digit(c: char) -> bool {
    spec_digit_val(c) < 10
}

/// The character of a decimal digit.
pub open spec fn spec_digit_char(d: nat) -> char {
    if d == 0 {
        '0'
    } else if d == 1 {
        '1'
    } else if d == 2 {
        '2'
    } else if d == 3 {
        '3'
    } else if d == 4 {
        '4'
    } else if d == 5 {
        '5'
    } else if d == 6 {
        '6'
    } else if d == 7 {
        '7'
    } else if d == 8 {
        '8'
    } else {
        '9'
    }
}

/// Whether every character of `s` is a decimal digit.
pub open spec fn all_digits(s: Seq<char>) -> bool {
    forall|i: int| 0 <= i < s.len() ==> spec_is_digit(#[trigger] s[i])
}

/// Value of a digit string read left to right.
pub open spec fn spec_digits_val(s: Seq<char>) -> nat
    decreases s.len(),
{
    if s.len() == 0 {
        0
    } else {
        (spec_digits_val(s.drop_last()) * 10 + spec_digit_val(s.last())) as nat
    }
}

/// Decimal digits of `n`, most significant first, no leading zeros.
pub open spec fn spec_dec_digits(n: nat) -> Seq<char>
    decreases n,
{
    if n < 10 {
        seq![spec_digit_char(n)]
    } else {
        spec_dec_digits(n / 10).push(spec_digit_char(n % 10))
    }
}

/// The four fraction digits of a value below 10000, zero padded.
pub open spec fn spec_frac4_digits(f: nat) -> Seq<char> {
    seq![
        spec_digit_char((f / 1000) % 10),
        spec_digit_char((f / 100) % 10),
        spec_digit_char((f / 10) % 10),
        spec_digit_char(f % 10),
    ]
}

/// A fixed-point score in the persisted form: integer part, a dot, and four
/// fraction digits.
pub open spec fn spec_format_score(units: nat) -> Seq<char> {
    spec_dec_digits(units / 10000) + seq!['.'] + spec_frac4_digits(units % 10000)
}

/// Powers of ten.
pub open spec fn pow10(e: nat) -> nat
    decreases e,
{
    if e == 0 {
        1
    } else {
        10 * pow10((e - 1) as nat)
    }
}

/// Fixed-point value of a fraction string: its first four digits, scaled so
/// a short fraction is padded with zeros; digits past the fourth are below
/// the stored precision and are dropped.
pub open spec fn spec_frac_units(fp: Seq<char>) -> nat {
    if fp.len() > 4 {
        spec_digits_val(fp.take(4))
    } else {
        spec_digits_val(fp) * pow10((4 - fp.len()) as nat)
    }
}

/// Parse a score string: digits, an optional dot and fraction digits. A
/// malformed string, or a value past `u64::MAX` units, yields nothing.
pub open spec fn spec_parse_score(s: Seq<char>) -> Option<u64> {
    match s.index_of_first('.') {
        Some(i) => {
            let ip = s.take(i);
            let fp = s.skip(i + 1);
            if ip.len() >= 1 && all_digits(ip) && all_digits(fp) {
                let v = spec_digits_val(ip) * 10000 + spec_frac_units(fp);
                if v <= u64::MAX {
                    Some(v as u64)
                } else {
                    None
                }
            } else {
                None
            }
        },
        None => {
            if s.len() >= 1 && all_digits(s) {
                let v = spec_digits_val(s) * 10000;
                if v <= u64::MAX {
                    Some(v as u64)
                } else {
                    None
                }
            } else {
                None
            }
        },
    }
}

/// The digit characters are exactly the inverses of the digit values.
proof fn lemma_digit_char_val(d: nat)
    requires
        d < 10,
    ensures
        spec_is_digit(spec_digit_char(d)),
        spec_digit_val(spec_digit_char(d)) == d,
{
}

/// A formatted number consists of digits only and reads back to itself.
proof fn lemma_dec_digits_val(n: nat)
    ensures
        all_digits(spec_dec_digits(n)),
        spec_digits_val(spec_dec_digits(n)) == n,
        spec_dec_digits(n).len() >= 1,
    decreases n,
{
    if n < 10 {
        lemma_digit_char_val(n);
        let s = spec_dec_digits(n);
        assert(s.drop_last() =~= Seq::<char>::empty());
        assert(s.last() == spec_digit_char(n));
        assert(spec_digits_val(Seq::<char>::empty()) == 0);
        assert(spec_digits_val(s) == 0 * 10 + n);
    } else {
        lemma_dec_digits_val(n / 10);
        lemma_digit_char_val(n % 10);
        let s = spec_dec_digits(n);
        assert(s.drop_last() =~= spec_dec_digits(n / 10));
        assert(s.last() == spec_digit_char(n % 10));
        assert(spec_digits_val(s) == (n / 10) * 10 + n % 10);
        vstd::arithmetic::div_mod::lemma_fundamental_div_mod(n as int, 10);
        assert(n == 10 * (n / 10) + n % 10);
        assert forall|i: int| 0 <= i < s.len() implies spec_is_digit(s[i]) by {
            if i < s.len() - 1 {
                assert(s[i] == spec_dec_digits(n / 10)[i]);
            }
        }
    }
}

/// Law: a score written with four decimal places parses back to exactly the
/// same fixed-point value.
pub proof fn lemma_score_round_trip(units: u64)
    ensures
        spec_parse_score(spec_format_score(units as nat)) == Some(units),
{
    let ip: nat = (units as nat) / 10000;
    let fr: nat = (units as nat) % 10000;
    let ds = spec_dec_digits(ip);
    let fs = spec_frac4_digits(fr);
    let s = spec_format_score(units as nat);
    lemma_dec_digits_val(ip);
    assert(fr < 10000);
    lemma_digit_char_val((fr / 1000) % 10);
    lemma_digit_char_val((fr / 100) % 10);
    lemma_digit_char_val((fr / 10) % 10);
    lemma_digit_char_val(fr % 10);
    // The first dot is the separator: everything before it is a digit.
    let di = ds.len() as int;
    assert(s[di] == '.');
    assert forall|j: int| 0 <= j < di implies s[j] != '.' by {
        assert(s[j] == ds[j]);
        assert(spec_is_digit(ds[j]));
    }
    s.index_of_first_ensures('.');
    assert(s.contains('.'));
    let found = s.index_of_first('.')->0;
    assert(s[found] == '.');
    if found < di {
        assert(s[found] != '.');
        assert(false);
    }
    if found > di {
        assert(false);
    }
    assert(found == di);
    // Both parts read back to their values.
    assert(s.take(di) =~= ds);
    assert(s.skip(di + 1) =~= fs);
    assert(fs.len() == 4);
    // The four fraction digits recombine to fr.
    let a = (fr / 1000) % 10;
    let b = (fr / 100) % 10;
    let c = (fr / 10) % 10;
    let d = fr % 10;
    let f3 = fs.drop_last();
    let f2 = f3.drop_last();
    let f1 = f2.drop_last();
    assert(f3 =~= seq![spec_digit_char(a), spec_digit_char(b), spec_digit_char(c)]);
    assert(f2 =~= seq![spec_digit_char(a), spec_digit_char(b)]);
    assert(f1 =~= seq![spec_digit_char(a)]);
    assert(f1.drop_last() =~= Seq::<char>::empty());
    assert(fs.last() == spec_digit_char(d));
    assert(f3.last() == spec_digit_char(c));
    assert(f2.last() == spec_digit_char(b));
    assert(f1.last() == spec_digit_char(a));
    assert(spec_digits_val(Seq::<char>::empty()) == 0);
    assert(spec_digits_val(f1) == 0 * 10 + a);
    assert(spec_digits_val(f2) == a * 10 + b);
    assert(spec_digits_val(f3) == (a * 10 + b) * 10 + c);
    assert(spec_digits_val(fs) == ((a * 10 + b) * 10 + c) * 10 + d);
    assert(fr / 1000 < 10);
    assert(a == fr / 1000);
    assert(fr == (fr / 1000) * 1000 + ((fr / 100) % 10) * 100 + ((fr / 10) % 10) * 10 + fr % 10)
        by {
        assert(fr == (fr / 10) * 10 + fr % 10);
        assert(fr / 10 == ((fr / 10) / 10) * 10 + (fr / 10) % 10);
        assert((fr / 10) / 10 == fr / 100) by (nonlinear_arith);
        assert(fr / 100 == ((fr / 100) / 10) * 10 + (fr / 100) % 10);
        assert((fr / 100) / 10 == fr / 1000) by (nonlinear_arith);
    }
    assert(spec_digits_val(fs) == fr);
    assert(pow10(0) == 1);
    assert(spec_frac_units(fs) == spec_digits_val(fs) * 1);
    assert(spec_frac_units(fs) == fr);
    assert(spec_digits_val(ds) * 10000 + spec_frac_units(fs) == ip * 10000 + fr);
    assert(ip * 10000 + fr == units as nat);
}

/// The character of one digit.
fn digit_char(d: u64) -> (c: char)
    requires
        d < 10,
    ensures
        c == spec_digit_char(d as nat),
{
    if d == 0 {
        '0'
    } else if d == 1 {
        '1'
    } else if d == 2 {
        '2'
    } else if d == 3 {
        '3'
    } else if d == 4 {
        '4'
    } else if d == 5 {
        '5'
    } else if d == 6 {
        '6'
    } else if d == 7 {
        '7'
    } else if d == 8 {
        '8'
    } else {
        '9'
    }
}

/// The value of one character; 10 marks a non-digit.
fn digit_val(c: char) -> (d: u64)
    ensures
        d as nat == spec_digit_val(c),
{
    if c == '0' {
        0
    } else if c == '1' {
        1
    } else if c == '2' {
        2
    } else if c == '3' {
        3
    } else if c == '4' {
        4
    } else if c == '5' {
        5
    } else if c == '6' {
        6
    } else if c == '7' {
        7
    } else if c == '8' {
        8
    } else if c == '9' {
        9
    } else {
        10
    }
}

/// Format a fixed-point score with four decimal places.
pub fn format_score_units(units: u64) -> (r: String)
    ensures
        r@ == spec_format_score(units as nat),
{
    let ip = units / 10000;
    let fr = units % 10000;
    // Least-significant digits of the integer part, collected in reverse.
    let mut rev: Vec<char> = Vec::new();
    let mut n = ip;
    proof {
        assert(rev@.reverse() =~= Seq::<char>::empty());
        assert(spec_dec_digits(ip as nat) + Seq::<char>::empty() =~= spec_dec_digits(ip as nat));
    }
    while n >= 10
        invariant
            spec_dec_digits(ip as nat) == spec_dec_digits(n as nat) + rev@.reverse(),
        decreases n,
    {
        let ghost prev = rev@;
        let d = n % 10;
        rev.push(digit_char(d));
        proof {
            assert(rev@.reverse() =~= seq![spec_digit_char(d as nat)] + prev.reverse());
            assert(spec_dec_digits(n as nat) == spec_dec_digits((n / 10) as nat).push(
                spec_digit_char(d as nat),
            ));
            assert(spec_dec_digits((n / 10) as nat).push(spec_digit_char(d as nat))
                + prev.reverse() =~= spec_dec_digits((n / 10) as nat) + rev@.reverse());
        }
        n = n / 10;
    }
    let ghost prev = rev@;
    rev.push(digit_char(n));
    proof {
        assert(spec_dec_digits(n as nat) == seq![spec_digit_char(n as nat)]);
        assert(rev@.reverse() =~= seq![spec_digit_char(n as nat)] + prev.reverse());
        assert(rev@.reverse() =~= spec_dec_digits(ip as nat));
    }
    // Assemble: reversed integer digits, the dot, four fraction digits.
    let mut out: Vec<char> = Vec::new();
    let mut i: usize = rev.len();
    while i > 0
        invariant
            i <= rev@.len(),
            out@ == rev@.reverse().take(rev@.len() - i),
        decreases i,
    {
        i = i - 1;
        out.push(rev[i]);
        proof {
            assert(rev@.reverse()[rev@.len() - i - 1] == rev@[i as int]);
            assert(out@ =~= rev@.reverse().take(rev@.len() - i));
        }
    }
    proof {
        assert(out@ =~= rev@.reverse());
    }
    let ghost int_done = out@;
    out.push('.');
    out.push(digit_char((fr / 1000) % 10));
    out.push(digit_char((fr / 100) % 10));
    out.push(digit_char((fr / 10) % 10));
    out.push(digit_char(fr % 10));
    proof {
        assert(out@ =~= spec_dec_digits(ip as nat) + seq!['.'] + spec_frac4_digits(fr as nat));
    }
    chars_to_string(&out)
}

/// Whether every character in `cs[a..b]` is a digit.
fn check_digits(cs: &Vec<char>, a: usize, b: usize) -> (r: bool)
    requires
        a <= b <= cs@.len(),
    ensures
        r == all_digits(cs@.subrange(a as int, b as int)),
{
    let mut i: usize = a;
    while i < b
        invariant
            a <= i <= b <= cs@.len(),
            forall|q: int| a <= q < i ==> spec_is_digit(#[trigger] cs@[q]),
        decreases b - i,
    {
        let d = digit_val(cs[i]);
        if d >= 10 {
            proof {
                assert(cs@.subrange(a as int, b as int)[i - a] == cs@[i as int]);
            }
            return false;
        }
        i = i + 1;
    }
    proof {
        assert forall|q: int| 0 <= q < b - a implies spec_is_digit(
            #[trigger] cs@.subrange(a as int, b as int)[q],
        ) by {
            assert(cs@.subrange(a as int, b as int)[q] == cs@[a + q]);
        }
    }
    true
}

/// A prefix of a digit string never exceeds the whole string's value.
proof fn lemma_digits_prefix_le(s: Seq<char>, k: int)
    requires
        0 <= k <= s.len(),
    ensures
        spec_digits_val(s.take(k)) <= spec_digits_val(s),
    decreases s.len(),
{
    if k < s.len() {
        assert(s.drop_last().take(k) =~= s.take(k));
        lemma_digits_prefix_le(s.drop_last(), k);
    } else {
        assert(s.take(k) =~= s);
    }
}

/// Parse the digits `cs[a..b]` into a value; nothing on a non-digit or when
/// the value runs past `u64::MAX`.
fn parse_digits(cs: &Vec<char>, a: usize, b: usize) -> (r: Option<u64>)
    requires
        a <= b <= cs@.len(),
    ensures
        ({
            let sub = cs@.subrange(a as int, b as int);
            if all_digits(sub) && spec_digits_val(sub) <= u64::MAX {
                r == Some(spec_digits_val(sub) as u64)
            } else {
                r is None
            }
        }),
{
    let ghost sub = cs@.subrange(a as int, b as int);
    let mut val: u64 = 0;
    let mut i: usize = a;
    proof {
        assert(sub.take(0) =~= Seq::<char>::empty());
    }
    while i < b
        invariant
            a <= i <= b <= cs@.len(),
            sub == cs@.subrange(a as int, b as int),
            all_digits(sub.take(i - a)),
            val as nat == spec_digits_val(sub.take(i - a)),
        decreases b - i,
    {
        let c = cs[i];
        proof {
            assert(sub[i - a] == cs@[i as int]);
        }
        let d = digit_val(c);
        if d >= 10 {
            proof {
                assert(!spec_is_digit(sub[i - a]));
            }
            return None;
        }
        proof {
            assert(sub.take(i - a + 1).drop_last() =~= sub.take(i - a));
            assert(sub.take(i - a + 1).last() == sub[i - a]);
        }
        let next = match val.checked_mul(10) {
            Some(x) => x.checked_add(d),
            None => None,
        };
        match next {
            Some(x) => {
                val = x;
            },
            None => {
                proof {
                    // The value so far already tops u64::MAX, and longer
                    // prefixes only grow.
                    assert(spec_digits_val(sub.take(i - a + 1)) > u64::MAX);
                    lemma_digits_prefix_le(sub, i - a + 1);
                }
                return None;
            },
        }
        i = i + 1;
    }
    proof {
        assert(sub.take(b - a) =~= sub);
    }
    Some(val)
}

/// Parse a score string into fixed-point units, exactly as
/// `spec_parse_score` states it. Leading and trailing spaces or carriage
/// returns are trimmed first, as a loader of hand-edited files expects.
pub fn parse_score_units(cs: &Vec<char>) -> (r: Option<u64>)
    ensures
        r == spec_parse_score(cs@),
{
    let n = cs.len();
    // First dot, if any.
    let mut dot: usize = 0;
    while dot < n && cs[dot] != '.'
        invariant
            dot <= n,
            n == cs@.len(),
            forall|j: int| 0 <= j < dot ==> cs@[j] != '.',
        decreases n - dot,
    {
        dot = dot + 1;
    }
    proof {
        cs@.index_of_first_ensures('.');
        if dot < n {
            assert(cs@[dot as int] == '.');
            assert(cs@.contains('.'));
            let found = cs@.index_of_first('.')->0;
            if found < dot {
                assert(cs@[found] != '.');
            }
            assert(cs@.index_of_first('.') == Some(dot as int));
        } else {
            if cs@.contains('.') {
                let w = choose|w: int| 0 <= w < cs@.len() && cs@[w] == '.';
                assert(cs@[w] != '.');
            }
            assert(cs@.index_of_first('.') is None);
        }
    }
    if dot >= n {
        // No dot: the whole string is the integer part.
        if n == 0 {
            return None;
        }
        if !check_digits(cs, 0, n) {
            proof {
                assert(cs@.subrange(0, n as int) =~= cs@);
            }
            return None;
        }
        proof {
            assert(cs@.subrange(0, n as int) =~= cs@);
        }
        let v = match parse_digits(cs, 0, n) {
            Some(x) => x,
            None => {
                return None;
            },
        };
        return v.checked_mul(10000);
    }
    // Integer part before the dot.
    if dot == 0 {
        proof {
            assert(cs@.take(dot as int).len() == 0);
        }
        return None;
    }
    if !check_digits(cs, 0, dot) {
        proof {
            assert(cs@.subrange(0, dot as int) =~= cs@.take(dot as int));
        }
        return None;
    }
    proof {
        assert(cs@.subrange(0, dot as int) =~= cs@.take(dot as int));
    }
    let ipv = match parse_digits(cs, 0, dot) {
        Some(x) => x,
        None => {
            proof {
                lemma_digits_prefix_le(cs@.take(dot as int), dot as int);
                assert(cs@.take(dot as int).take(dot as int) =~= cs@.take(dot as int));
                assert(spec_digits_val(cs@.take(dot as int)) > u64::MAX);
                assert(spec_digits_val(cs@.take(dot as int)) * 10000 >= spec_digits_val(
                    cs@.take(dot as int),
                )) by (nonlinear_arith);
            }
            return None;
        },
    };
    // Fraction digits after the dot; validity covers all of them, the value
    // keeps the first four.
    if !check_digits(cs, dot + 1, n) {
        proof {
            assert(cs@.subrange(dot + 1, n as int) =~= cs@.skip(dot + 1));
        }
        return None;
    }
    proof {
        assert(cs@.subrange(dot + 1, n as int) =~= cs@.skip(dot + 1));
    }
    let frac_len = n - (dot + 1);
    let kept: usize = if frac_len > 4 {
        4
    } else {
        frac_len
    };
    proof {
        let ks = cs@.subrange(dot + 1, dot + 1 + kept);
        assert forall|q: int| 0 <= q < ks.len() implies spec_is_digit(#[trigger] ks[q]) by {
            assert(ks[q] == cs@[dot + 1 + q]);
            assert(cs@.subrange(dot + 1, n as int)[q] == cs@[dot + 1 + q]);
        }
        lemma_digits_val_bound(ks);
        assert(pow10(0) == 1);
        assert(pow10(1) == 10);
        assert(pow10(2) == 100);
        assert(pow10(3) == 1000);
        assert(pow10(4) == 10000);
    }
    let kv = match parse_digits(cs, dot + 1, dot + 1 + kept) {
        Some(x) => x,
        None => {
            // Unreachable: at most four digits always fit in a u64.
            proof {
                assert(false);
            }
            0
        },
    };
    let scale: u64 = if kept == 0 {
        10000
    } else if kept == 1 {
        1000
    } else if kept == 2 {
        100
    } else if kept == 3 {
        10
    } else {
        1
    };
    proof {
        let ks = cs@.subrange(dot + 1, dot + 1 + kept);
        assert((kv as nat) < pow10(kept as nat));
        assert((kv as nat) * (scale as nat) <= 10000 * 10000) by (nonlinear_arith)
            requires
                kv <= 10000,
                scale <= 10000,
                0 <= kv,
                0 <= scale,
        ;
    }
    let frac_units = kv * scale;
    proof {
        let fp = cs@.skip(dot + 1);
        let ks = cs@.subrange(dot + 1, dot + 1 + kept);
        if frac_len > 4 {
            assert(ks =~= fp.take(4));
        } else {
            assert(ks =~= fp);
        }
        assert(scale as nat == pow10((4 - ks.len()) as nat) || frac_len > 4);
        assert(frac_units as nat == spec_frac_units(fp));
    }
    match ipv.checked_mul(10000) {
        Some(x) => x.checked_add(frac_units),
        None => {
            proof {
                assert((ipv as nat) * 10000 + spec_frac_units(cs@.skip(dot + 1)) > u64::MAX);
            }
            None
        },
    }
}

/// A digit string's value stays below ten to its length.
proof fn lemma_digits_val_bound(s: Seq<char>)
    requires
        all_digits(s),
    ensures
        spec_digits_val(s) < pow10(s.len()),
    decreases s.len(),
{
    if s.len() == 0 {
    } else {
        assert(all_digits(s.drop_last())) by {
            assert(forall|i: int|
                0 <= i < s.drop_last().len() ==> #[trigger] s.drop_last()[i] == s[i]);
        }
        lemma_digits_val_bound(s.drop_last());
        assert(spec_digit_val(s.last()) <= 9);
        assert(pow10(s.len()) == 10 * pow10((s.len() - 1) as nat));
    }
}

/// Space-like characters a loader tolerates around a score: blanks, and the
/// carriage return a CRLF line leaves behind.
pub open spec fn spec_is_space(c: char) -> bool {
    c == ' ' || c == '\r'
}

/// Drop leading space-like characters.
pub open spec fn spec_trim_front(s: Seq<char>) -> Seq<char>
    decreases s.len(),
{
    if s.len() > 0 && spec_is_space(s[0]) {
        spec_trim_front(s.drop_first())
    } else {
        s
    }
}

/// Drop trailing space-like characters.
pub open spec fn spec_trim_back(s: Seq<char>) -> Seq<char>
    decreases s.len(),
{
    if s.len() > 0 && spec_is_space(s.last()) {
        spec_trim_back(s.drop_last())
    } else {
        s
    }
}

/// Drop space-like characters on both ends.
pub open spec fn spec_trim(s: Seq<char>) -> Seq<char> {
    spec_trim_back(spec_trim_front(s))
}

/// One line of the persisted vocabulary: escaped token, a tab, the score.
pub open spec fn spec_format_line(token: Seq<char>, units: nat) -> Seq<char> {
    spec_escape(token) + seq!['\t'] + spec_format_score(units)
}

/// Parse one line: split on the last tab — tokens may contain spaces and
/// even tabs — unescape the token, parse the trimmed score. A line without a
/// tab or with a malformed score yields nothing and is skipped by a loader.
pub open spec fn spec_parse_line(s: Seq<char>) -> Option<(Seq<char>, u64)> {
    match s.index_of_last('\t') {
        Some(i) => match spec_parse_score(spec_trim(s.skip(i + 1))) {
            Some(u) => Some((spec_unescape(s.take(i)), u)),
            None => None,
        },
        None => None,
    }
}

/// Law: a vocabulary line written for a token and score parses back to
/// exactly that token and score, provided the token does not itself contain
/// the two-character sequences `\n` or `\r`.
pub proof fn lemma_line_round_trip(token: Seq<char>, units: u64)
    requires
        no_escape_ambiguity(token),
    ensures
        spec_parse_line(spec_format_line(token, units as nat)) == Some((token, units)),
{
    let esc = spec_escape(token);
    let score = spec_format_score(units as nat);
    let s = spec_format_line(token, units as nat);
    let ip: nat = (units as nat) / 10000;
    let ds = spec_dec_digits(ip);
    lemma_dec_digits_val(ip);
    lemma_digit_char_val(((units as nat) % 10000 / 1000) % 10);
    lemma_digit_char_val(((units as nat) % 10000 / 100) % 10);
    lemma_digit_char_val(((units as nat) % 10000 / 10) % 10);
    lemma_digit_char_val((units as nat) % 10000 % 10);
    // No character of the score is a tab, so the separator is the last tab.
    assert forall|q: int| 0 <= q < score.len() implies score[q] != '\t' by {
        if q < ds.len() {
            assert(score[q] == ds[q]);
            assert(spec_is_digit(ds[q]));
        } else if q == ds.len() {
            assert(score[q] == '.');
        } else {
            assert(score[q] == spec_frac4_digits((units as nat) % 10000)[q - ds.len() - 1]);
            assert(spec_is_digit(score[q]));
        }
    }
    let ti = esc.len() as int;
    assert(s[ti] == '\t');
    s.index_of_last_ensures('\t');
    assert(s.contains('\t'));
    let found = s.index_of_last('\t')->0;
    assert forall|q: int| ti < q < s.len() implies s[q] != '\t' by {
        assert(s[q] == score[q - ti - 1]);
    }
    if found < ti {
        assert(s[ti] != '\t');
        assert(false);
    }
    if found > ti {
        assert(s[found] != '\t');
        assert(false);
    }
    assert(s.take(ti) =~= esc);
    assert(s.skip(ti + 1) =~= score);
    // The score has a digit at either end, so trimming changes nothing.
    assert(score[0] == ds[0]);
    assert(spec_is_digit(score[0]));
    assert(!spec_is_space(score[0]));
    assert(score.last() == spec_digit_char((units as nat) % 10000 % 10));
    assert(spec_is_digit(score.last()));
    assert(!spec_is_space(score.last()));
    assert(spec_trim_front(score) == score);
    assert(spec_trim_back(score) == score);
    lemma_score_round_trip(units);
    lemma_escape_round_trip(token);
}

/// Format one vocabulary line: the escaped token, a tab, and the score with
/// four decimal places.
pub fn format_vocab_line(token: &str, units: u64) -> (r: String)
    ensures
        r@ == spec_format_line(token@, units as nat),
{
    let cs = str_to_chars(token);
    let mut head = escape_chars(&cs);
    head.push('\t');
    let mut out = chars_to_string(&head);
    let score = format_score_units(units);
    out.append(score.as_str());
    proof {
        assert(out@ =~= spec_escape(token@) + seq!['\t'] + spec_format_score(units as nat));
    }
    out
}

/// Parse one vocabulary line, exactly as `spec_parse_line` states it: the
/// unescaped token and its score in fixed-point units, or nothing for a
/// malformed line.
pub fn parse_vocab_line(line: &str) -> (r: Option<(String, u64)>)
    ensures
        ({
            let sp = spec_parse_line(line@);
            match r {
                Some(p) => sp matches Some(q) && p.0@ == q.0 && p.1 == q.1,
                None => sp is None,
            }
        }),
{
    let cs = str_to_chars(line);
    let n = cs.len();
    // Last tab of the line.
    let mut j: usize = n;
    while j > 0 && cs[j - 1] != '\t'
        invariant
            j <= n,
            n == cs@.len(),
            forall|q: int| j <= q < n ==> cs@[q] != '\t',
        decreases j,
    {
        j = j - 1;
    }
    proof {
        cs@.index_of_last_ensures('\t');
    }
    if j == 0 {
        proof {
            if cs@.contains('\t') {
                let w = choose|w: int| 0 <= w < cs@.len() && cs@[w] == '\t';
                assert(cs@[w] != '\t');
            }
            assert(cs@.index_of_last('\t') is None);
        }
        return None;
    }
    let ti = j - 1;
    proof {
        assert(cs@[ti as int] == '\t');
        assert(cs@.contains('\t'));
        let found = cs@.index_of_last('\t')->0;
        if found > ti {
            assert(cs@[found] != '\t');
        }
        if found < ti {
            assert(cs@[ti as int] != '\t');
        }
        assert(cs@.index_of_last('\t') == Some(ti as int));
    }
    // Trim the score part.
    let mut a: usize = ti + 1;
    proof {
        assert(cs@.subrange(ti + 1, n as int) =~= cs@.skip(ti + 1));
        assert(spec_trim_front(cs@.skip(ti + 1)) == spec_trim_front(cs@.subrange(a as int, n as int)));
    }
    while a < n && (cs[a] == ' ' || cs[a] == '\r')
        invariant
            ti + 1 <= a <= n,
            n == cs@.len(),
            spec_trim_front(cs@.skip(ti + 1)) == spec_trim_front(cs@.subrange(a as int, n as int)),
        decreases n - a,
    {
        proof {
            let cur = cs@.subrange(a as int, n as int);
            assert(cur[0] == cs@[a as int]);
            assert(cur.drop_first() =~= cs@.subrange(a + 1, n as int));
        }
        a = a + 1;
    }
    proof {
        let cur = cs@.subrange(a as int, n as int);
        if cur.len() > 0 {
            assert(cur[0] == cs@[a as int]);
        }
        assert(spec_trim_front(cur) == cur);
    }
    let mut b: usize = n;
    proof {
        assert(spec_trim_back(cs@.subrange(a as int, n as int)) == spec_trim_back(
            cs@.subrange(a as int, b as int),
        ));
    }
    while b > a && (cs[b - 1] == ' ' || cs[b - 1] == '\r')
        invariant
            a <= b <= n,
            n == cs@.len(),
            spec_trim_back(spec_trim_front(cs@.skip(ti + 1))) == spec_trim_back(
                cs@.subrange(a as int, b as int),
            ),
            spec_trim_front(cs@.subrange(a as int, n as int)) == cs@.subrange(a as int, n as int),
        decreases b,
    {
        proof {
            let cur = cs@.subrange(a as int, b as int);
            assert(cur.last() == cs@[b - 1]);
            assert(cur.drop_last() =~= cs@.subrange(a as int, b - 1));
        }
        b = b - 1;
    }
    proof {
        let cur = cs@.subrange(a as int, b as int);
        if cur.len() > 0 {
            assert(cur.last() == cs@[b - 1]);
        }
        assert(spec_trim_back(cur) == cur);
        assert(spec_trim(cs@.skip(ti + 1)) == cur);
    }
    let score_cs = char_slice(&cs, a, b);
    let units = match parse_score_units(&score_cs) {
        Some(u) => u,
        None => {
            return None;
        },
    };
    let token_cs = char_slice(&cs, 0, ti);
    let unesc = unescape_chars(&token_cs);
    let token = chars_to_string(&unesc);
    proof {
        assert(cs@.subrange(0, ti as int) =~= cs@.take(ti as int));
    }
    Some((token, units))
}

/// Escape a token for the persisted file.
pub fn escape_token(s: &str) -> (r: String)
    ensures
        r@ == spec_escape(s@),
{
    let cs = str_to_chars(s);
    let out = escape_chars(&cs);
    chars_to_string(&out)
}

/// Undo the file escaping of a token.
pub fn unescape_token(s: &str) -> (r: String)
    ensures
        r@ == spec_unescape(s@),
{
    let cs = str_to_chars(s);
    let out = unescape_chars(&cs);
    chars_to_string(&out)
}

} // verus!
