//! Turning bound string values into typed values: the `Parser` trait
//! and its implementations for the supported field types, plus the
//! verified decimal parsers behind them. Unparsable text falls back
//! to the type's default value rather than failing.

use vstd::prelude::*;

use crate::arg::true_lit;
use crate::info::Info;
use crate::strutil::{
    all_digits, digits_val, join_sub, lemma_digits_val_prefix, signed_body, split_sub,
    str_join_sub, str_split_sub,
};
use crate::validate::{find_name, first_name_ix, lemma_first_name_ix};

verus! {

/// The separator the registry uses to join multiple bound values into
/// one string, chosen to never occur in ordinary values.
pub const VALUE_SEPARATOR: &'static str = "(_(__)===D";

/// The characters of `VALUE_SEPARATOR`.
pub open spec fn value_separator() -> Seq<char> {
    seq!['(', '_', '(', '_', '_', ')', '=', '=', '=', 'D']
}

fn value_separator_str() -> (r: &'static str)
    ensures
        r@ == value_separator(),
{
    proof {
        reveal_strlit("(_(__)===D");
        assert("(_(__)===D"@ =~= value_separator());
    }
    VALUE_SEPARATOR
}

/// The digit body of an unsigned decimal literal: everything after an
/// optional leading plus sign.
pub open spec fn unsigned_body(s: Seq<char>) -> Seq<char> {
    if s.len() > 0 && s[0] == '+' {
        s.subrange(1, s.len() as int)
    } else {
        s
    }
}

/// What `str::parse::<usize>().unwrap_or_default()` yields.
pub open spec fn spec_parse_usize(s: Seq<char>) -> usize {
    let body = unsigned_body(s);
    if body.len() > 0 && all_digits(body) && digits_val(body) <= usize::MAX as int {
        digits_val(body) as usize
    } else {
        0
    }
}

/// What `str::parse::<u8>().unwrap_or_default()` yields.
pub open spec fn spec_parse_u8(s: Seq<char>) -> u8 {
    let body = unsigned_body(s);
    if body.len() > 0 && all_digits(body) && digits_val(body) <= 255 {
        digits_val(body) as u8
    } else {
        0
    }
}

/// What `str::parse::<isize>().unwrap_or_default()` yields.
pub open spec fn spec_parse_isize(s: Seq<char>) -> isize {
    let body = signed_body(s);
    let neg = s.len() > 0 && s[0] == '-';
    if body.len() > 0 && all_digits(body) && (if neg {
        digits_val(body) <= isize::MAX as int + 1
    } else {
        digits_val(body) <= isize::MAX as int
    }) {
        if neg {
            (0 - digits_val(body)) as isize
        } else {
            digits_val(body) as isize
        }
    } else {
        0
    }
}

/// What `str::parse::<bool>().unwrap_or_default()` yields.
pub open spec fn spec_parse_bool(s: Seq<char>) -> bool {
    s == true_lit()
}

/// Parse an unsigned decimal with an optional leading plus sign; any
/// other text, and any value over the limit, gives zero.
pub fn parse_usize_str(s: &str) -> (r: usize)
    ensures
        r == spec_parse_usize(s@),
{
    let n = s.unicode_len();
    if n == 0 {
        return 0;
    }
    let start: usize = if s.get_char(0) == '+' {
        1
    } else {
        0
    };
    if n == start {
        return 0;
    }
    let ghost body = unsigned_body(s@);
    assert(body =~= s@.subrange(start as int, n as int));
    let umax: u128 = usize::MAX as u128;
    assert(umax <= 0xffff_ffff_ffff_ffff);
    let mut acc: u128 = 0;
    let mut i: usize = start;
    while i < n
        invariant
            start <= i <= n,
            start < n,
            start == 0 || start == 1,
            n == s@.len(),
            (start == 1) == (s@[0] == '+'),
            body == s@.subrange(start as int, n as int),
            body == unsigned_body(s@),
            umax == usize::MAX as u128,
            umax <= 0xffff_ffff_ffff_ffff,
            all_digits(s@.subrange(start as int, i as int)),
            acc == digits_val(s@.subrange(start as int, i as int)),
            acc <= umax,
        decreases n - i,
    {
        let c = s.get_char(i);
        let cv = c as u32;
        let ghost prev = s@.subrange(start as int, i as int);
        let ghost cur = s@.subrange(start as int, i + 1 as int);
        assert(cur.drop_last() =~= prev);
        if cv < 48 || cv > 57 {
            assert(body[i - start] == c);
            return 0;
        }
        assert(all_digits(cur));
        let d = (cv - 48) as u128;
        let next = acc * 10 + d;
        if next > umax {
            proof {
                assert(digits_val(cur) == acc * 10 + d > umax);
                if all_digits(body) {
                    lemma_digits_val_prefix(body, i + 1 - start);
                    assert(body.subrange(0, i + 1 - start) =~= cur);
                }
            }
            return 0;
        }
        acc = next;
        i += 1;
    }
    assert(s@.subrange(start as int, i as int) =~= body);
    acc as usize
}

/// Parse an unsigned decimal into a byte; any other text, and any
/// value over the limit, gives zero.
pub fn parse_u8_str(s: &str) -> (r: u8)
    ensures
        r == spec_parse_u8(s@),
{
    let n = s.unicode_len();
    if n == 0 {
        return 0;
    }
    let start: usize = if s.get_char(0) == '+' {
        1
    } else {
        0
    };
    if n == start {
        return 0;
    }
    let ghost body = unsigned_body(s@);
    assert(body =~= s@.subrange(start as int, n as int));
    let mut acc: u32 = 0;
    let mut i: usize = start;
    while i < n
        invariant
            start <= i <= n,
            start < n,
            start == 0 || start == 1,
            n == s@.len(),
            (start == 1) == (s@[0] == '+'),
            body == s@.subrange(start as int, n as int),
            body == unsigned_body(s@),
            all_digits(s@.subrange(start as int, i as int)),
            acc == digits_val(s@.subrange(start as int, i as int)),
            acc <= 255,
        decreases n - i,
    {
        let c = s.get_char(i);
        let cv = c as u32;
        let ghost prev = s@.subrange(start as int, i as int);
        let ghost cur = s@.subrange(start as int, i + 1 as int);
        assert(cur.drop_last() =~= prev);
        if cv < 48 || cv > 57 {
            assert(body[i - start] == c);
            return 0;
        }
        assert(all_digits(cur));
        let d = cv - 48;
        let next = acc * 10 + d;
        if next > 255 {
            proof {
                assert(digits_val(cur) == acc * 10 + d > 255);
                if all_digits(body) {
                    lemma_digits_val_prefix(body, i + 1 - start);
                    assert(body.subrange(0, i + 1 - start) =~= cur);
                }
            }
            return 0;
        }
        acc = next;
        i += 1;
    }
    assert(s@.subrange(start as int, i as int) =~= body);
    acc as u8
}

/// Parse a signed decimal; any other text, and any value out of
/// range, gives zero.
pub fn parse_isize_str(s: &str) -> (r: isize)
    ensures
        r == spec_parse_isize(s@),
{
    let n = s.unicode_len();
    if n == 0 {
        return 0;
    }
    let first = s.get_char(0);
    let neg = first == '-';
    let start: usize = if first == '-' || first == '+' {
        1
    } else {
        0
    };
    if n == start {
        return 0;
    }
    let ghost body = signed_body(s@);
    assert(body =~= s@.subrange(start as int, n as int));
    let imax: u128 = isize::MAX as u128;
    assert(imax <= 0x7fff_ffff_ffff_ffff);
    let mut acc: u128 = 0;
    let mut i: usize = start;
    while i < n
        invariant
            start <= i <= n,
            start < n,
            start == 0 || start == 1,
            n == s@.len(),
            (start == 1) == (s@[0] == '+' || s@[0] == '-'),
            neg == (s@[0] == '-'),
            body == s@.subrange(start as int, n as int),
            body == signed_body(s@),
            imax == isize::MAX as u128,
            imax <= 0x7fff_ffff_ffff_ffff,
            all_digits(s@.subrange(start as int, i as int)),
            acc == digits_val(s@.subrange(start as int, i as int)),
            acc <= imax + 1,
        decreases n - i,
    {
        let c = s.get_char(i);
        let cv = c as u32;
        let ghost prev = s@.subrange(start as int, i as int);
        let ghost cur = s@.subrange(start as int, i + 1 as int);
        assert(cur.drop_last() =~= prev);
        if cv < 48 || cv > 57 {
            assert(body[i - start] == c);
            return 0;
        }
        assert(all_digits(cur));
        let d = (cv - 48) as u128;
        let next = acc * 10 + d;
        if next > imax + 1 {
            proof {
                assert(digits_val(cur) == acc * 10 + d > imax + 1);
                if all_digits(body) {
                    lemma_digits_val_prefix(body, i + 1 - start);
                    assert(body.subrange(0, i + 1 - start) =~= cur);
                }
            }
            return 0;
        }
        acc = next;
        i += 1;
    }
    assert(s@.subrange(start as int, i as int) =~= body);
    if neg {
        if acc == imax + 1 {
            isize::MIN
        } else {
            let v = acc as isize;
            -v
        }
    } else {
        if acc == imax + 1 {
            0
        } else {
            acc as isize
        }
    }
}

/// Parse `"true"` to true; anything else gives false.
pub fn parse_bool_str(s: &str) -> (r: bool)
    ensures
        r == spec_parse_bool(s@),
{
    proof {
        reveal_strlit("true");
        assert("true"@ =~= true_lit());
    }
    crate::strutil::str_eq(s, "true")
}

/// A typed reading of a bound value string. `parse` never fails: text
/// the type cannot hold yields the type's default value.
pub trait Parser: DeepView + Sized {
    /// What `parse` yields for a given character sequence.
    spec fn spec_parse(value: Seq<char>) -> Self::V;

    /// Read the joined bound value into this type.
    fn parse(value: &str) -> (r: Self)
        ensures
            r.deep_view() == Self::spec_parse(value@),
    ;
}

impl Parser for String {
    open spec fn spec_parse(value: Seq<char>) -> Seq<char> {
        value
    }

    fn parse(value: &str) -> (r: Self) {
        value.to_owned()
    }
}

impl Parser for bool {
    open spec fn spec_parse(value: Seq<char>) -> bool {
        spec_parse_bool(value)
    }

    fn parse(value: &str) -> (r: Self) {
        parse_bool_str(value)
    }
}

impl Parser for u8 {
    open spec fn spec_parse(value: Seq<char>) -> u8 {
        spec_parse_u8(value)
    }

    fn parse(value: &str) -> (r: Self) {
        parse_u8_str(value)
    }
}

impl Parser for usize {
    open spec fn spec_parse(value: Seq<char>) -> usize {
        spec_parse_usize(value)
    }

    fn parse(value: &str) -> (r: Self) {
        parse_usize_str(value)
    }
}

impl Parser for isize {
    open spec fn spec_parse(value: Seq<char>) -> isize {
        spec_parse_isize(value)
    }

    fn parse(value: &str) -> (r: Self) {
        parse_isize_str(value)
    }
}

impl<T: DeepView> Parser for Option<T> {
    open spec fn spec_parse(value: Seq<char>) -> Option<T::V> {
        None
    }

    fn parse(value: &str) -> (r: Self) {
        None
    }
}

impl Parser for Vec<String> {
    open spec fn spec_parse(value: Seq<char>) -> Seq<Seq<char>> {
        if value.len() == 0 {
            Seq::empty()
        } else {
            split_sub(value, value_separator())
        }
    }

    fn parse(value: &str) -> (r: Self) {
        if value.is_empty() {
            let r: Vec<String> = Vec::new();
            assert(r.deep_view() =~= Seq::<Seq<char>>::empty());
            return r;
        }
        let sep = value_separator_str();
        assert(sep@.len() == 10);
        str_split_sub(value, sep)
    }
}

impl Parser for Vec<usize> {
    open spec fn spec_parse(value: Seq<char>) -> Seq<usize> {
        if value.len() == 0 {
            Seq::empty()
        } else {
            split_sub(value, value_separator()).map_values(|p: Seq<char>| spec_parse_usize(p))
        }
    }

    fn parse(value: &str) -> (r: Self) {
        if value.is_empty() {
            let r: Vec<usize> = Vec::new();
            assert(r.deep_view() =~= Seq::<usize>::empty());
            return r;
        }
        let sep = value_separator_str();
        assert(sep@.len() == 10);
        let parts = str_split_sub(value, sep);
        let ghost expected = split_sub(value@, value_separator()).map_values(
            |p: Seq<char>| spec_parse_usize(p),
        );
        let mut r: Vec<usize> = Vec::new();
        let mut m: usize = 0;
        while m < parts.len()
            invariant
                m <= parts@.len(),
                parts.deep_view() == split_sub(value@, value_separator()),
                expected == split_sub(value@, value_separator()).map_values(
                    |p: Seq<char>| spec_parse_usize(p),
                ),
                r@ == expected.subrange(0, m as int),
            decreases parts@.len() - m,
        {
            let v = parse_usize_str(parts[m].as_str());
            r.push(v);
            proof {
                assert(expected[m as int] == spec_parse_usize(parts.deep_view()[m as int]));
                assert(expected.subrange(0, m + 1 as int) =~= expected.subrange(0, m as int).push(
                    expected[m as int],
                ));
                assert(r@ =~= expected.subrange(0, m + 1 as int));
            }
            m += 1;
        }
        assert(expected.subrange(0, expected.len() as int) =~= expected);
        assert(r.deep_view() =~= expected);
        r
    }
}

impl Parser for Vec<isize> {
    open spec fn spec_parse(value: Seq<char>) -> Seq<isize> {
        if value.len() == 0 {
            Seq::empty()
        } else {
            split_sub(value, value_separator()).map_values(|p: Seq<char>| spec_parse_isize(p))
        }
    }

    fn parse(value: &str) -> (r: Self) {
        if value.is_empty() {
            let r: Vec<isize> = Vec::new();
            assert(r.deep_view() =~= Seq::<isize>::empty());
            return r;
        }
        let sep = value_separator_str();
        assert(sep@.len() == 10);
        let parts = str_split_sub(value, sep);
        let ghost expected = split_sub(value@, value_separator()).map_values(
            |p: Seq<char>| spec_parse_isize(p),
        );
        let mut r: Vec<isize> = Vec::new();
        let mut m: usize = 0;
        while m < parts.len()
            invariant
                m <= parts@.len(),
                parts.deep_view() == split_sub(value@, value_separator()),
                expected == split_sub(value@, value_separator()).map_values(
                    |p: Seq<char>| spec_parse_isize(p),
                ),
                r@ == expected.subrange(0, m as int),
            decreases parts@.len() - m,
        {
            let v = parse_isize_str(parts[m].as_str());
            r.push(v);
            proof {
                assert(expected[m as int] == spec_parse_isize(parts.deep_view()[m as int]));
                assert(expected.subrange(0, m + 1 as int) =~= expected.subrange(0, m as int).push(
                    expected[m as int],
                ));
                assert(r@ =~= expected.subrange(0, m + 1 as int));
            }
            m += 1;
        }
        assert(expected.subrange(0, expected.len() as int) =~= expected);
        assert(r.deep_view() =~= expected);
        r
    }
}

/// Read the named descriptor's bound values as one joined string and
/// parse it into the requested type.
pub fn parse_value<P: Parser>(name: &str, info: &Info) -> (r: P)
    requires
        exists|j: int|
            0 <= j < info@.args.len() && (#[trigger] info@.args[j]).name == name@,
    ensures
        ({
            let ix = first_name_ix(info@.args, name@, 0);
            r.deep_view() == P::spec_parse(join_sub(info@.args[ix].value, value_separator()))
        }),
{
    proof {
        lemma_first_name_ix(info@.args, name@, 0);
        let w = choose|j: int|
            0 <= j < info@.args.len() && (#[trigger] info@.args[j]).name == name@;
        if first_name_ix(info@.args, name@, 0) >= info@.args.len() {
            assert(info@.args[w].name != name@);
        }
    }
    let kopt = find_name(&info.args, name);
    let k = match kopt {
        Some(k) => k,
        None => {
            proof {
                assert(false);
            }
            0
        },
    };
    let sep = value_separator_str();
    let joined = str_join_sub(&info.args[k].value, sep);
    P::parse(joined.as_str())
}

} // verus!
