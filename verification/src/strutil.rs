//! Verified helpers over `&str` and `String`, specified against the
//! `Seq<char>` views that the rest of the crate's contracts use.

use vstd::prelude::*;

verus! {

/// `p` is an initial segment of `s`.
pub open spec fn is_prefix(p: Seq<char>, s: Seq<char>) -> bool {
    p.len() <= s.len() && s.subrange(0, p.len() as int) == p
}

/// Character-for-character string equality.
pub fn str_eq(a: &str, b: &str) -> (r: bool)
    ensures
        r == (a@ == b@),
{
    let an = a.unicode_len();
    let bn = b.unicode_len();
    if an != bn {
        assert(a@ != b@) by {
            assert(a@.len() != b@.len());
        }
        return false;
    }
    let mut i: usize = 0;
    while i < an
        invariant
            i <= an,
            an == a@.len(),
            an == b@.len(),
            forall|j: int| 0 <= j < i ==> a@[j] == b@[j],
        decreases an - i,
    {
        if a.get_char(i) != b.get_char(i) {
            return false;
        }
        i += 1;
    }
    assert(a@ =~= b@);
    true
}

/// Whether `s` begins with the characters of `p`.
pub fn str_starts_with(s: &str, p: &str) -> (r: bool)
    ensures
        r == is_prefix(p@, s@),
{
    let sn = s.unicode_len();
    let pn = p.unicode_len();
    if pn > sn {
        return false;
    }
    let mut i: usize = 0;
    while i < pn
        invariant
            i <= pn,
            pn <= sn,
            sn == s@.len(),
            pn == p@.len(),
            forall|j: int| 0 <= j < i ==> s@[j] == p@[j],
        decreases pn - i,
    {
        if s.get_char(i) != p.get_char(i) {
            assert(!is_prefix(p@, s@)) by {
                assert(s@.subrange(0, p@.len() as int)[i as int] == s@[i as int]);
            }
            return false;
        }
        i += 1;
    }
    assert(s@.subrange(0, p@.len() as int) =~= p@);
    true
}

/// Whether the character `c` occurs in `s`.
pub fn str_contains_char(s: &str, c: char) -> (r: bool)
    ensures
        r == s@.contains(c),
{
    let n = s.unicode_len();
    let mut i: usize = 0;
    while i < n
        invariant
            i <= n,
            n == s@.len(),
            forall|j: int| 0 <= j < i ==> s@[j] != c,
        decreases n - i,
    {
        if s.get_char(i) == c {
            return true;
        }
        i += 1;
    }
    assert(!s@.contains(c));
    false
}

/// Index of the first occurrence of `c` in `s`, counting from `from`;
/// `s.len()` if there is none.
pub open spec fn find_char_from(s: Seq<char>, c: char, from: int) -> int
    decreases s.len() - from,
{
    if from < 0 || from >= s.len() {
        s.len() as int
    } else if s[from] == c {
        from
    } else {
        find_char_from(s, c, from + 1)
    }
}

pub proof fn lemma_find_char_from(s: Seq<char>, c: char, from: int)
    requires
        0 <= from <= s.len(),
    ensures
        from <= find_char_from(s, c, from) <= s.len(),
        find_char_from(s, c, from) < s.len() ==> s[find_char_from(s, c, from)] == c,
        forall|j: int| from <= j < find_char_from(s, c, from) ==> s[j] != c,
    decreases s.len() - from,
{
    if from < s.len() && s[from] != c {
        lemma_find_char_from(s, c, from + 1);
    }
}

/// First occurrence of `c` in `s`, or `s.len()` if absent.
pub fn str_find_char(s: &str, c: char) -> (r: usize)
    ensures
        r == find_char_from(s@, c, 0),
        r <= s@.len(),
{
    let n = s.unicode_len();
    let mut i: usize = 0;
    while i < n
        invariant
            i <= n,
            n == s@.len(),
            forall|j: int| 0 <= j < i ==> s@[j] != c,
        decreases n - i,
    {
        if s.get_char(i) == c {
            proof {
                lemma_find_char_from(s@, c, 0);
                if find_char_from(s@, c, 0) < i {
                    assert(s@[find_char_from(s@, c, 0)] == c);
                }
            }
            return i;
        }
        i += 1;
    }
    proof {
        lemma_find_char_from(s@, c, 0);
        if find_char_from(s@, c, 0) < s@.len() {
            assert(s@[find_char_from(s@, c, 0)] == c);
        }
    }
    n
}

/// Copy of `s[from..to]` (in characters) as an owned string.
pub fn substr_string(s: &str, from: usize, to: usize) -> (r: String)
    requires
        from <= to <= s@.len(),
    ensures
        r@ == s@.subrange(from as int, to as int),
{
    s.substring_char(from, to).to_owned()
}

/// Head and tail of `s` around the first occurrence of `c`.
pub fn split_once_char(s: &str, c: char) -> (r: (String, String))
    requires
        s@.contains(c),
    ensures
        r.0@ == s@.subrange(0, find_char_from(s@, c, 0)),
        r.1@ == s@.subrange(find_char_from(s@, c, 0) + 1, s@.len() as int),
{
    proof {
        lemma_find_char_from(s@, c, 0);
        let w = choose|j: int| 0 <= j < s@.len() && s@[j] == c;
        if find_char_from(s@, c, 0) >= s@.len() {
            assert(s@[w] != c);
        }
    }
    let n = s.unicode_len();
    let ix = str_find_char(s, c);
    let head = substr_string(s, 0, ix);
    let tail = substr_string(s, ix + 1, n);
    (head, tail)
}

/// The pieces of `s` between occurrences of `c`, in order; an absent
/// separator leaves `s` whole, and separators at the edges produce
/// empty pieces, as `str::split` does.
pub open spec fn split_char(s: Seq<char>, c: char) -> Seq<Seq<char>>
    decreases s.len(),
{
    let ix = find_char_from(s, c, 0);
    if ix < 0 || ix >= s.len() {
        seq![s]
    } else {
        seq![s.subrange(0, ix)] + split_char(s.subrange(ix + 1, s.len() as int), c)
    }
}

pub fn str_split_char(s: &str, c: char) -> (r: Vec<String>)
    ensures
        r.deep_view() == split_char(s@, c),
    decreases s@.len(),
{
    proof {
        lemma_find_char_from(s@, c, 0);
    }
    let n = s.unicode_len();
    let ix = str_find_char(s, c);
    if ix == n {
        let mut r: Vec<String> = Vec::new();
        r.push(s.to_owned());
        assert(r.deep_view() =~= split_char(s@, c));
        r
    } else {
        let head = substr_string(s, 0, ix);
        let rest = s.substring_char(ix + 1, n);
        let mut r = str_split_char(rest, c);
        r.insert(0, head);
        assert(r.deep_view() =~= split_char(s@, c));
        r
    }
}

/// `a + b` as character sequences.
pub fn concat2(a: &str, b: &str) -> (r: String)
    ensures
        r@ == a@ + b@,
{
    let mut r = a.to_owned();
    r.append(b);
    r
}

/// `a + b + c` as character sequences.
pub fn concat3(a: &str, b: &str, c: &str) -> (r: String)
    ensures
        r@ == a@ + b@ + c@,
{
    let mut r = a.to_owned();
    r.append(b);
    r.append(c);
    r
}

pub open spec fn is_digit_char(c: char) -> bool {
    48 <= c as u32 <= 57
}

pub open spec fn digit_char_val(c: char) -> int {
    c as u32 - 48
}

pub open spec fn all_digits(s: Seq<char>) -> bool {
    forall|j: int| 0 <= j < s.len() ==> is_digit_char(#[trigger] s[j])
}

/// Value of a digit string, most significant digit first.
pub open spec fn digits_val(s: Seq<char>) -> int
    decreases s.len(),
{
    if s.len() == 0 {
        0
    } else {
        digits_val(s.drop_last()) * 10 + digit_char_val(s.last())
    }
}

pub proof fn lemma_digits_val_bounds(s: Seq<char>)
    requires
        all_digits(s),
    ensures
        digits_val(s) >= 0,
    decreases s.len(),
{
    if s.len() > 0 {
        assert(all_digits(s.drop_last()));
        lemma_digits_val_bounds(s.drop_last());
    }
}

/// Appending digits never decreases the value.
pub proof fn lemma_digits_val_prefix(s: Seq<char>, i: int)
    requires
        all_digits(s),
        0 <= i <= s.len(),
    ensures
        digits_val(s) >= digits_val(s.subrange(0, i)),
    decreases s.len() - i,
{
    if i < s.len() {
        lemma_digits_val_prefix(s, i + 1);
        let p = s.subrange(0, i + 1);
        assert(p.drop_last() =~= s.subrange(0, i));
        assert(all_digits(s.subrange(0, i)));
        lemma_digits_val_bounds(s.subrange(0, i));
        assert(digits_val(p) == digits_val(s.subrange(0, i)) * 10 + digit_char_val(s[i]));
        assert(digits_val(p) >= digits_val(s.subrange(0, i)));
    } else {
        assert(s.subrange(0, i) =~= s);
    }
}

/// The digit body of a signed decimal literal: everything after an
/// optional leading sign.
pub open spec fn signed_body(s: Seq<char>) -> Seq<char> {
    if s.len() > 0 && (s[0] == '+' || s[0] == '-') {
        s.subrange(1, s.len() as int)
    } else {
        s
    }
}

/// Whether `str::parse::<isize>` accepts `s`: an optional sign, at
/// least one digit, and a value within the 64-bit signed range.
pub open spec fn spec_is_isize(s: Seq<char>) -> bool {
    let body = signed_body(s);
    &&& body.len() > 0
    &&& all_digits(body)
    &&& (if s.len() > 0 && s[0] == '-' {
        digits_val(body) <= isize::MAX as int + 1
    } else {
        digits_val(body) <= isize::MAX as int
    })
}

/// Whether `s` parses as an `isize`, without panicking on any input.
pub fn is_isize_str(s: &str) -> (r: bool)
    ensures
        r == spec_is_isize(s@),
{
    let n = s.unicode_len();
    if n == 0 {
        return false;
    }
    let first = s.get_char(0);
    let neg = first == '-';
    let start: usize = if first == '-' || first == '+' {
        1
    } else {
        0
    };
    if n == start {
        return false;
    }
    let ghost body = signed_body(s@);
    assert(body =~= s@.subrange(start as int, n as int));
    let imax: u128 = isize::MAX as u128;
    assert(imax <= 0x7fff_ffff_ffff_ffff);
    let mut acc: u128 = 0;
    let mut i: usize = start;
    while i < n
        invariant
            start <= i <= n,
            start < n,
            start == 0 || start == 1,
            n == s@.len(),
            (start == 1) == (s@[0] == '+' || s@[0] == '-'),
            neg == (s@[0] == '-'),
            body == s@.subrange(start as int, n as int),
            body == signed_body(s@),
            imax == isize::MAX as u128,
            imax <= 0x7fff_ffff_ffff_ffff,
            all_digits(s@.subrange(start as int, i as int)),
            acc == digits_val(s@.subrange(start as int, i as int)),
            acc <= imax + 1,
        decreases n - i,
    {
        let c = s.get_char(i);
        let cv = c as u32;
        let ghost prev = s@.subrange(start as int, i as int);
        let ghost cur = s@.subrange(start as int, i + 1 as int);
        assert(cur.drop_last() =~= prev);
        if cv < 48 || cv > 57 {
            assert(body[i - start] == c);
            return false;
        }
        assert(all_digits(cur));
        let d = (cv - 48) as u128;
        let next = acc * 10 + d;
        if next > imax + 1 {
            proof {
                assert(digits_val(cur) == acc * 10 + d > imax + 1);
                if all_digits(body) {
                    lemma_digits_val_prefix(body, i + 1 - start);
                    assert(body.subrange(0, i + 1 - start) =~= cur);
                }
            }
            return false;
        }
        acc = next;
        i += 1;
    }
    assert(s@.subrange(start as int, i as int) =~= body);
    if neg {
        acc <= imax + 1
    } else {
        acc <= imax
    }
}

/// The decimal digit character for `d`.
pub open spec fn digit_char(d: int) -> char {
    if d == 0 {
        '0'
    } else if d == 1 {
        '1'
    } else if d == 2 {
        '2'
    } else if d == 3 {
        '3'
    } else if d == 4 {
        '4'
    } else if d == 5 {
        '5'
    } else if d == 6 {
        '6'
    } else if d == 7 {
        '7'
    } else if d == 8 {
        '8'
    } else {
        '9'
    }
}

/// Decimal form of `n`, without a sign and without leading zeros.
pub open spec fn dec_str(n: int) -> Seq<char>
    decreases n,
{
    if n < 10 {
        seq![digit_char(n)]
    } else {
        dec_str(n / 10).push(digit_char(n % 10))
    }
}

fn digit_str(d: usize) -> (r: &'static str)
    requires
        d < 10,
    ensures
        r@ == seq![digit_char(d as int)],
{
    proof {
        reveal_strlit("0");
        reveal_strlit("1");
        reveal_strlit("2");
        reveal_strlit("3");
        reveal_strlit("4");
        reveal_strlit("5");
        reveal_strlit("6");
        reveal_strlit("7");
        reveal_strlit("8");
        reveal_strlit("9");
    }
    let r: &'static str = match d {
        0 => "0",
        1 => "1",
        2 => "2",
        3 => "3",
        4 => "4",
        5 => "5",
        6 => "6",
        7 => "7",
        8 => "8",
        _ => "9",
    };
    assert(r@ =~= seq![digit_char(d as int)]);
    r
}

/// Decimal rendering of `n`.
pub fn usize_to_string(n: usize) -> (r: String)
    ensures
        r@ == dec_str(n as int),
    decreases n,
{
    if n < 10 {
        digit_str(n).to_owned()
    } else {
        let mut r = usize_to_string(n / 10);
        r.append(digit_str(n % 10));
        assert(r@ =~= dec_str(n as int));
        r
    }
}

/// What `str::to_lowercase` returns for a given character sequence.
pub uninterp spec fn lower_of(s: Seq<char>) -> Seq<char>;

/// Relies on str::to_lowercase: the result is a function of the
/// characters of the receiver alone.
#[verifier::external_body]
pub fn str_to_lowercase(s: &str) -> (r: String)
    ensures
        r@ == lower_of(s@),
{
    s.to_lowercase()
}

/// Code-point lexicographic order, the order `str::cmp` uses.
pub open spec fn lex_le(a: Seq<char>, b: Seq<char>) -> bool
    decreases a.len(),
{
    if a.len() == 0 {
        true
    } else if b.len() == 0 {
        false
    } else if (a[0] as u32) < (b[0] as u32) {
        true
    } else if (a[0] as u32) > (b[0] as u32) {
        false
    } else {
        lex_le(a.subrange(1, a.len() as int), b.subrange(1, b.len() as int))
    }
}

pub fn str_lex_le(a: &str, b: &str) -> (r: bool)
    ensures
        r == lex_le(a@, b@),
    decreases a@.len(),
{
    let an = a.unicode_len();
    let bn = b.unicode_len();
    if an == 0 {
        true
    } else if bn == 0 {
        false
    } else {
        let ca = a.get_char(0);
        let cb = b.get_char(0);
        if (ca as u32) < (cb as u32) {
            true
        } else if (ca as u32) > (cb as u32) {
            false
        } else {
            str_lex_le(a.substring_char(1, an), b.substring_char(1, bn))
        }
    }
}

/// Index of the first occurrence of `sep` in `s` at or after `from`;
/// `s.len()` if there is none.
pub open spec fn find_sub_from(s: Seq<char>, sep: Seq<char>, from: int) -> int
    decreases s.len() - from,
{
    if from < 0 || sep.len() <= 0 || from + sep.len() > s.len() {
        s.len() as int
    } else if s.subrange(from, from + sep.len()) == sep {
        from
    } else {
        find_sub_from(s, sep, from + 1)
    }
}

pub proof fn lemma_find_sub_from(s: Seq<char>, sep: Seq<char>, from: int)
    requires
        0 <= from <= s.len(),
        sep.len() > 0,
    ensures
        from <= find_sub_from(s, sep, from) <= s.len(),
    decreases s.len() - from,
{
    if from + sep.len() > s.len() {
    } else if s.subrange(from, from + sep.len()) == sep {
    } else {
        lemma_find_sub_from(s, sep, from + 1);
    }
}

fn str_match_at(s: &str, sep: &str, at: usize) -> (r: bool)
    requires
        at + sep@.len() <= s@.len(),
    ensures
        r == (s@.subrange(at as int, at + sep@.len()) == sep@),
{
    let n = s.unicode_len();
    let m = sep.unicode_len();
    let mut j: usize = 0;
    while j < m
        invariant
            j <= m,
            m == sep@.len(),
            n == s@.len(),
            at + m <= n,
            forall|k: int| 0 <= k < j ==> s@[at + k] == sep@[k],
        decreases m - j,
    {
        if s.get_char(at + j) != sep.get_char(j) {
            assert(s@.subrange(at as int, at + sep@.len())[j as int] == s@[at + j]);
            return false;
        }
        j += 1;
    }
    assert(s@.subrange(at as int, at + sep@.len()) =~= sep@);
    true
}

/// First occurrence of `sep` in `s`, or `s.len()` if absent.
pub fn str_find_sub(s: &str, sep: &str) -> (r: usize)
    requires
        sep@.len() > 0,
    ensures
        r == find_sub_from(s@, sep@, 0),
        r <= s@.len(),
{
    let n = s.unicode_len();
    let m = sep.unicode_len();
    if m > n {
        proof {
            lemma_find_sub_none(s@, sep@, 0);
        }
        return n;
    }
    let mut i: usize = 0;
    while i <= n - m
        invariant
            m == sep@.len(),
            n == s@.len(),
            0 < m <= n,
            i <= n - m + 1,
            forall|j: int| 0 <= j < i ==> #[trigger] s@.subrange(j, j + sep@.len()) != sep@,
        decreases n - i,
    {
        if str_match_at(s, sep, i) {
            proof {
                lemma_find_sub_stops(s@, sep@, 0, i as int);
            }
            return i;
        }
        i += 1;
    }
    proof {
        lemma_find_sub_none_all(s@, sep@, 0, i as int);
    }
    n
}

proof fn lemma_find_sub_none(s: Seq<char>, sep: Seq<char>, from: int)
    requires
        0 <= from,
        sep.len() > 0,
        sep.len() > s.len(),
    ensures
        find_sub_from(s, sep, from) == s.len(),
    decreases s.len() - from,
{
    if from + sep.len() <= s.len() {
        lemma_find_sub_none(s, sep, from + 1);
    }
}

proof fn lemma_find_sub_stops(s: Seq<char>, sep: Seq<char>, from: int, at: int)
    requires
        sep.len() > 0,
        0 <= from <= at,
        at + sep.len() <= s.len(),
        s.subrange(at, at + sep.len()) == sep,
        forall|j: int| from <= j < at ==> #[trigger] s.subrange(j, j + sep.len()) != sep,
    ensures
        find_sub_from(s, sep, from) == at,
    decreases at - from,
{
    if from < at {
        lemma_find_sub_stops(s, sep, from + 1, at);
    }
}

proof fn lemma_find_sub_none_all(s: Seq<char>, sep: Seq<char>, from: int, stop: int)
    requires
        sep.len() > 0,
        0 <= from,
        stop + sep.len() > s.len(),
        from <= stop,
        forall|j: int| from <= j < stop ==> #[trigger] s.subrange(j, j + sep.len()) != sep,
    ensures
        find_sub_from(s, sep, from) == s.len(),
    decreases s.len() - from,
{
    if from + sep.len() <= s.len() {
        assert(s.subrange(from, from + sep.len()) != sep);
        lemma_find_sub_none_all(s, sep, from + 1, stop);
    }
}

/// The pieces of `s` between non-overlapping occurrences of `sep`,
/// scanned left to right, as `str::split` with a string pattern.
pub open spec fn split_sub(s: Seq<char>, sep: Seq<char>) -> Seq<Seq<char>>
    decreases s.len(),
{
    let ix = find_sub_from(s, sep, 0);
    if sep.len() == 0 || ix < 0 || ix >= s.len() || ix + sep.len() > s.len() {
        seq![s]
    } else {
        seq![s.subrange(0, ix)] + split_sub(s.subrange(ix + sep.len(), s.len() as int), sep)
    }
}

pub fn str_split_sub(s: &str, sep: &str) -> (r: Vec<String>)
    requires
        sep@.len() > 0,
    ensures
        r.deep_view() == split_sub(s@, sep@),
    decreases s@.len(),
{
    proof {
        lemma_find_sub_from(s@, sep@, 0);
    }
    let n = s.unicode_len();
    let sm = sep.unicode_len();
    let ix = str_find_sub(s, sep);
    if ix == n {
        let mut r: Vec<String> = Vec::new();
        r.push(s.to_owned());
        assert(r.deep_view() =~= split_sub(s@, sep@));
        r
    } else {
        proof {
            lemma_find_sub_in_range(s@, sep@, 0);
        }
        let head = substr_string(s, 0, ix);
        let rest = s.substring_char(ix + sm, n);
        let mut r = str_split_sub(rest, sep);
        r.insert(0, head);
        assert(r.deep_view() =~= split_sub(s@, sep@));
        r
    }
}

proof fn lemma_find_sub_in_range(s: Seq<char>, sep: Seq<char>, from: int)
    requires
        sep.len() > 0,
        0 <= from,
        find_sub_from(s, sep, from) < s.len(),
    ensures
        find_sub_from(s, sep, from) + sep.len() <= s.len(),
    decreases s.len() - from,
{
    if from + sep.len() > s.len() {
    } else if s.subrange(from, from + sep.len()) == sep {
    } else {
        lemma_find_sub_in_range(s, sep, from + 1);
    }
}

/// The pieces joined with `sep` between consecutive pieces.
pub open spec fn join_sub(parts: Seq<Seq<char>>, sep: Seq<char>) -> Seq<char>
    decreases parts.len(),
{
    if parts.len() == 0 {
        Seq::empty()
    } else if parts.len() == 1 {
        parts[0]
    } else {
        parts[0] + sep + join_sub(parts.subrange(1, parts.len() as int), sep)
    }
}

pub fn str_join_sub(parts: &Vec<String>, sep: &str) -> (r: String)
    ensures
        r@ == join_sub(parts.deep_view(), sep@),
{
    if parts.len() == 0 {
        return String::new();
    }
    let mut r: String = parts[0].clone();
    let mut i: usize = 1;
    while i < parts.len()
        invariant
            1 <= i <= parts@.len(),
            r@ == join_sub(parts.deep_view().subrange(0, i as int), sep@),
        decreases parts@.len() - i,
    {
        let ghost pre = parts.deep_view().subrange(0, i as int);
        let ghost post = parts.deep_view().subrange(0, i + 1 as int);
        r.append(sep);
        r.append(parts[i].as_str());
        proof {
            lemma_join_sub_push(pre, parts.deep_view()[i as int], sep@);
            assert(post.drop_last() =~= pre);
            assert(post.last() == parts.deep_view()[i as int]);
            assert(post =~= pre.push(parts.deep_view()[i as int]));
        }
        i += 1;
    }
    assert(parts.deep_view().subrange(0, parts@.len() as int) =~= parts.deep_view());
    r
}

proof fn lemma_join_sub_push(parts: Seq<Seq<char>>, last: Seq<char>, sep: Seq<char>)
    requires
        parts.len() >= 1,
    ensures
        join_sub(parts.push(last), sep) == join_sub(parts, sep) + sep + last,
    decreases parts.len(),
{
    let p2 = parts.push(last);
    if parts.len() == 1 {
        assert(p2.subrange(1, p2.len() as int) =~= seq![last]);
        assert(join_sub(p2, sep) == p2[0] + sep + join_sub(seq![last], sep));
    } else {
        lemma_join_sub_push(parts.subrange(1, parts.len() as int), last, sep);
        assert(p2.subrange(1, p2.len() as int) =~= parts.subrange(1, parts.len() as int).push(
            last,
        ));
        assert(join_sub(p2, sep) == p2[0] + sep + join_sub(
            parts.subrange(1, parts.len() as int).push(last),
            sep,
        ));
        assert(join_sub(parts, sep) + sep + last == parts[0] + sep + (join_sub(
            parts.subrange(1, parts.len() as int),
            sep,
        ) + sep + last)) by {
            assert((parts[0] + sep + join_sub(parts.subrange(1, parts.len() as int), sep)) + sep
                + last =~= parts[0] + sep + (join_sub(parts.subrange(1, parts.len() as int), sep)
                + sep + last));
        }
    }
}

} // verus!
