//! Character-level helpers shared by the parsers: Unicode whitespace,
//! trimming, searching, and decimal integer parsing with the exact rules of
//! std's `FromStr` for unsigned integers.
use vstd::prelude::*;

verus! {

/// Unicode `White_Space`, the property that `char::is_whitespace` tests.
pub open spec fn is_ws(c: char) -> bool {
    ||| ('\u{9}' <= c && c <= '\u{d}')
    ||| c == ' '
    ||| c == '\u{85}'
    ||| c == '\u{a0}'
    ||| c == '\u{1680}'
    ||| ('\u{2000}' <= c && c <= '\u{200a}')
    ||| c == '\u{2028}'
    ||| c == '\u{2029}'
    ||| c == '\u{202f}'
    ||| c == '\u{205f}'
    ||| c == '\u{3000}'
}

/// `s` without its leading whitespace.
pub open spec fn trim_start(s: Seq<char>) -> Seq<char>
    decreases s.len(),
{
    if s.len() > 0 && is_ws(s[0]) {
        trim_start(s.drop_first())
    } else {
        s
    }
}

/// `s` without its trailing whitespace.
pub open spec fn trim_end(s: Seq<char>) -> Seq<char>
    decreases s.len(),
{
    if s.len() > 0 && is_ws(s.last()) {
        trim_end(s.drop_last())
    } else {
        s
    }
}

/// `s` without leading and trailing whitespace (`str::trim`).
pub open spec fn trim(s: Seq<char>) -> Seq<char> {
    trim_end(trim_start(s))
}

/// The leading run of non-whitespace characters of `s`.
pub open spec fn take_until_ws(s: Seq<char>) -> Seq<char>
    decreases s.len(),
{
    if s.len() == 0 || is_ws(s[0]) {
        Seq::empty()
    } else {
        seq![s[0]] + take_until_ws(s.drop_first())
    }
}

/// `s` starts with `p`.
pub open spec fn has_prefix(s: Seq<char>, p: Seq<char>) -> bool {
    p.len() <= s.len() && s.take(p.len() as int) == p
}

/// Index of the first occurrence of `c` in `s`.
pub open spec fn find_first<A>(s: Seq<A>, c: A) -> Option<int>
    decreases s.len(),
{
    if s.len() == 0 {
        None
    } else if s[0] == c {
        Some(0)
    } else {
        match find_first(s.drop_first(), c) {
            Some(i) => Some(i + 1),
            None => None,
        }
    }
}

pub open spec fn is_digit(c: char) -> bool {
    '0' <= c && c <= '9'
}

pub open spec fn all_digits(s: Seq<char>) -> bool {
    forall|i: int| 0 <= i < s.len() ==> #[trigger] is_digit(s[i])
}

pub open spec fn digit_value(c: char) -> nat {
    (c as int - '0' as int) as nat
}

/// The number that a string of decimal digits denotes.
pub open spec fn digits_value(s: Seq<char>) -> nat
    decreases s.len(),
{
    if s.len() == 0 {
        0
    } else {
        digits_value(s.drop_last()) * 10 + digit_value(s.last())
    }
}

/// What `str::parse` gives for an unsigned integer type whose maximum is
/// `max`: an optional `+`, then at least one ASCII digit and nothing else, and
/// a value that fits.
pub open spec fn parse_uint(s: Seq<char>, max: nat) -> Option<nat> {
    let d = if s.len() > 0 && s[0] == '+' {
        s.drop_first()
    } else {
        s
    };
    if d.len() > 0 && all_digits(d) && digits_value(d) <= max {
        Some(digits_value(d))
    } else {
        None
    }
}

/// The decimal digit character for `d < 10`.
pub open spec fn digit_char(d: nat) -> char {
    (d + '0' as int) as char
}

/// The decimal rendering of `n`: its digits, most significant first, with
/// no leading zero (a single `0` for zero).
pub open spec fn decimal(n: nat) -> Seq<char>
    decreases n,
{
    if n < 10 {
        seq![digit_char(n)]
    } else {
        decimal(n / 10).push(digit_char(n % 10))
    }
}

/// A decimal rendering is a non-empty run of digits that reads back as the
/// number rendered.
pub proof fn lemma_decimal(n: nat)
    ensures
        decimal(n).len() >= 1,
        all_digits(decimal(n)),
        digits_value(decimal(n)) == n,
    decreases n,
{
    if n < 10 {
        let s = decimal(n);
        assert(s.drop_last() =~= Seq::<char>::empty());
        assert(is_digit(s[0]));
        assert(digit_char(n) as int == n + '0' as int);
        assert(digit_value(s.last()) == n);
        assert(digits_value(s) == digits_value(s.drop_last()) * 10 + digit_value(s.last()));
    } else {
        lemma_decimal(n / 10);
        let s = decimal(n);
        let p = decimal(n / 10);
        assert(s.drop_last() =~= p);
        let d = n % 10;
        assert(digit_char(d) as int == d + '0' as int);
        assert(digit_value(s.last()) == d);
        assert(n == (n / 10) * 10 + d);
        assert(digits_value(s) == digits_value(p) * 10 + digit_value(s.last()));
        assert forall|i: int| 0 <= i < s.len() implies #[trigger] is_digit(s[i]) by {
            if i < p.len() {
                assert(s[i] == p[i]);
            }
        }
    }
}

/// Digits are neither whitespace nor any of `+ - , \n`.
pub proof fn lemma_digit_not_special(c: char)
    requires
        is_digit(c),
    ensures
        !is_ws(c),
        c != '+' && c != '-' && c != ',' && c != '\n',
{
}

/// How numbers read: the decimal rendering of `n`, with or without one
/// leading `+`, reads as `n` exactly when `n` is within the limit; an empty
/// string, a lone `+`, or any non-digit after the optional `+` reads as
/// nothing.
pub proof fn law_parse_uint(n: nat, max: nat, s: Seq<char>)
    ensures
        parse_uint(decimal(n), max) == (if n <= max {
            Some(n)
        } else {
            None::<nat>
        }),
        parse_uint(seq!['+'] + decimal(n), max) == parse_uint(decimal(n), max),
        parse_uint(Seq::empty(), max) is None,
        parse_uint(seq!['+'], max) is None,
        (exists|i: int| 0 <= i < s.len() && !is_digit(#[trigger] s[i]) && !(i == 0 && s[0] == '+'))
            ==> parse_uint(s, max) is None,
{
    lemma_decimal(n);
    let d = decimal(n);
    lemma_digit_not_special(d[0]);
    assert((seq!['+'] + d).drop_first() =~= d);
    if exists|i: int| 0 <= i < s.len() && !is_digit(#[trigger] s[i]) && !(i == 0 && s[0] == '+') {
        let i = choose|i: int| 0 <= i < s.len() && !is_digit(#[trigger] s[i]) && !(i == 0 && s[0]
            == '+');
        if s.len() > 0 && s[0] == '+' {
            assert(s.drop_first()[i - 1] == s[i]);
        }
    }
}

pub proof fn lemma_find_first<A>(s: Seq<A>, c: A)
    ensures
        match find_first(s, c) {
            Some(i) => 0 <= i < s.len() && s[i] == c && forall|k: int| 0 <= k < i ==> s[k] != c,
            None => forall|k: int| 0 <= k < s.len() ==> s[k] != c,
        },
    decreases s.len(),
{
    if s.len() > 0 && s[0] != c {
        lemma_find_first(s.drop_first(), c);
        match find_first(s.drop_first(), c) {
            Some(i) => {
                assert forall|k: int| 0 <= k < i + 1 implies s[k] != c by {
                    if k > 0 {
                        assert(s[k] == s.drop_first()[k - 1]);
                    }
                }
            },
            None => {
                assert forall|k: int| 0 <= k < s.len() implies s[k] != c by {
                    if k > 0 {
                        assert(s[k] == s.drop_first()[k - 1]);
                    }
                }
            },
        }
    }
}

/// `find_first` is characterised by the first position that holds `c`.
pub proof fn lemma_find_first_at<A>(s: Seq<A>, c: A, j: int)
    requires
        0 <= j <= s.len(),
        forall|k: int| 0 <= k < j ==> s[k] != c,
    ensures
        j < s.len() && s[j] == c ==> find_first(s, c) == Some(j),
        j == s.len() ==> find_first(s, c) is None,
{
    lemma_find_first(s, c);
    match find_first(s, c) {
        Some(i) => {
            if i < j {
                assert(s[i] != c);
            }
        },
        None => {},
    }
}

pub proof fn lemma_trim_start_idempotent(s: Seq<char>)
    ensures
        trim_start(trim_start(s)) == trim_start(s),
    decreases s.len(),
{
    if s.len() > 0 && is_ws(s[0]) {
        lemma_trim_start_idempotent(s.drop_first());
    }
}

pub proof fn lemma_digits_value_monotone(s: Seq<char>, k: int)
    requires
        0 <= k <= s.len(),
    ensures
        digits_value(s.take(k)) <= digits_value(s),
    decreases s.len() - k,
{
    if k < s.len() {
        lemma_digits_value_monotone(s, k + 1);
        assert(s.take(k + 1).drop_last() =~= s.take(k));
    } else {
        assert(s.take(k) =~= s);
    }
}

pub fn is_whitespace(c: char) -> (b: bool)
    ensures
        b == is_ws(c),
{
    ('\u{9}' <= c && c <= '\u{d}') || c == ' ' || c == '\u{85}' || c == '\u{a0}' || c
        == '\u{1680}' || ('\u{2000}' <= c && c <= '\u{200a}') || c == '\u{2028}' || c
        == '\u{2029}' || c == '\u{202f}' || c == '\u{205f}' || c == '\u{3000}'
}

/// The characters of `s`, in order.
pub fn chars_of(s: &str) -> (v: Vec<char>)
    ensures
        v@ == s@,
{
    let mut v: Vec<char> = Vec::new();
    for c in it: s.chars()
        invariant
            v@ == it.seq().take(it.index() as int),
    {
        v.push(c);
    }
    v
}

/// Start of `cs[lo..hi]` once its leading whitespace is skipped.
pub fn skip_ws(cs: &Vec<char>, lo: usize, hi: usize) -> (a: usize)
    requires
        lo <= hi <= cs@.len(),
    ensures
        lo <= a <= hi,
        cs@.subrange(a as int, hi as int) == trim_start(cs@.subrange(lo as int, hi as int)),
{
    let mut a = lo;
    while a < hi && is_whitespace(cs[a])
        invariant
            lo <= a <= hi <= cs@.len(),
            trim_start(cs@.subrange(lo as int, hi as int)) == trim_start(
                cs@.subrange(a as int, hi as int),
            ),
        decreases hi - a,
    {
        assert(cs@.subrange(a as int, hi as int).drop_first() =~= cs@.subrange(
            a + 1,
            hi as int,
        ));
        a = a + 1;
    }
    a
}

/// End of the run of non-whitespace characters that starts at `lo`.
pub fn token_end(cs: &Vec<char>, lo: usize, hi: usize) -> (b: usize)
    requires
        lo <= hi <= cs@.len(),
    ensures
        lo <= b <= hi,
        cs@.subrange(lo as int, b as int) == take_until_ws(cs@.subrange(lo as int, hi as int)),
{
    let mut k = lo;
    while k < hi && !is_whitespace(cs[k])
        invariant
            lo <= k <= hi <= cs@.len(),
            take_until_ws(cs@.subrange(lo as int, hi as int)) == cs@.subrange(lo as int, k as int)
                + take_until_ws(cs@.subrange(k as int, hi as int)),
        decreases hi - k,
    {
        let ghost r = cs@.subrange(k as int, hi as int);
        assert(r.drop_first() =~= cs@.subrange(k + 1, hi as int));
        assert(cs@.subrange(lo as int, k + 1) =~= cs@.subrange(lo as int, k as int) + seq![r[0]]);
        k = k + 1;
    }
    assert(take_until_ws(cs@.subrange(k as int, hi as int)) =~= Seq::<char>::empty());
    assert(cs@.subrange(lo as int, k as int) + Seq::<char>::empty() =~= cs@.subrange(lo as int, k as int));
    k
}

/// Bounds of `cs[lo..hi]` with its surrounding whitespace removed.
pub fn trim_bounds(cs: &Vec<char>, lo: usize, hi: usize) -> (r: (usize, usize))
    requires
        lo <= hi <= cs@.len(),
    ensures
        lo <= r.0 <= r.1 <= hi,
        cs@.subrange(r.0 as int, r.1 as int) == trim(cs@.subrange(lo as int, hi as int)),
{
    let a = skip_ws(cs, lo, hi);
    assert(trim_start(cs@.subrange(a as int, hi as int)) == cs@.subrange(a as int, hi as int)) by {
        lemma_trim_start_idempotent(cs@.subrange(lo as int, hi as int));
    }
    let mut b = hi;
    while b > a && is_whitespace(cs[b - 1])
        invariant
            lo <= a <= b <= hi <= cs@.len(),
            trim_end(cs@.subrange(a as int, hi as int)) == trim_end(
                cs@.subrange(a as int, b as int),
            ),
        decreases b - a,
    {
        assert(cs@.subrange(a as int, b as int).drop_last() =~= cs@.subrange(
            a as int,
            b - 1,
        ));
        b = b - 1;
    }
    (a, b)
}

/// First index in `lo..hi` that holds `c`, or `hi` when there is none.
pub fn find_in(cs: &Vec<char>, lo: usize, hi: usize, c: char) -> (j: usize)
    requires
        lo <= hi <= cs@.len(),
    ensures
        lo <= j <= hi,
        j < hi ==> find_first(cs@.subrange(lo as int, hi as int), c) == Some(j - lo),
        j == hi ==> find_first(cs@.subrange(lo as int, hi as int), c) is None,
{
    let mut j = lo;
    while j < hi && cs[j] != c
        invariant
            lo <= j <= hi <= cs@.len(),
            forall|k: int| lo <= k < j ==> cs@[k] != c,
        decreases hi - j,
    {
        j = j + 1;
    }
    proof {
        let s = cs@.subrange(lo as int, hi as int);
        assert forall|k: int| 0 <= k < j - lo implies s[k] != c by {
            assert(s[k] == cs@[lo + k]);
        }
        lemma_find_first_at(s, c, j - lo);
    }
    j
}

/// `parse_uint` on `cs[lo..hi]`, for a limit that fits in a `u64`.
pub fn parse_uint_in(cs: &Vec<char>, lo: usize, hi: usize, max: u64) -> (r: Option<u64>)
    requires
        lo <= hi <= cs@.len(),
    ensures
        match parse_uint(cs@.subrange(lo as int, hi as int), max as nat) {
            Some(v) => r == Some(v as u64),
            None => r is None,
        },
{
    let ghost s = cs@.subrange(lo as int, hi as int);
    let mut a = lo;
    if lo < hi && cs[lo] == '+' {
        a = lo + 1;
    }
    let ghost d = cs@.subrange(a as int, hi as int);
    assert(d == (if s.len() > 0 && s[0] == '+' {
        s.drop_first()
    } else {
        s
    }));
    if a == hi {
        assert(d.len() == 0);
        assert(parse_uint(s, max as nat) is None);
        return None;
    }
    let mut k = a;
    while k < hi
        invariant
            a <= k <= hi <= cs@.len(),
            d == cs@.subrange(a as int, hi as int),
            s == cs@.subrange(lo as int, hi as int),
            d == (if s.len() > 0 && s[0] == '+' {
                s.drop_first()
            } else {
                s
            }),
            forall|i: int| a <= i < k ==> is_digit(cs@[i]),
        decreases hi - k,
    {
        if !('0' <= cs[k] && cs[k] <= '9') {
            assert(!is_digit(d[k - a]));
            assert(!all_digits(d));
            assert(parse_uint(s, max as nat) is None);
            return None;
        }
        k = k + 1;
    }
    assert(all_digits(d)) by {
        assert forall|i: int| 0 <= i < d.len() implies #[trigger] is_digit(d[i]) by {
            assert(d[i] == cs@[a + i]);
        }
    }
    let mut v: u64 = 0;
    let mut k = a;
    while k < hi
        invariant
            a <= k <= hi <= cs@.len(),
            d == cs@.subrange(a as int, hi as int),
            s == cs@.subrange(lo as int, hi as int),
            d == (if s.len() > 0 && s[0] == '+' {
                s.drop_first()
            } else {
                s
            }),
            all_digits(d),
            v as nat == digits_value(d.take(k - a)),
            v <= max,
        decreases hi - k,
    {
        let ghost t = d.take(k - a + 1);
        assert(t.drop_last() =~= d.take(k - a));
        assert(t.last() == cs@[k as int]);
        assert(is_digit(d[k - a]));
        let dig = (cs[k] as u32 - '0' as u32) as u64;
        assert(digits_value(t) == digits_value(d.take(k - a)) * 10 + dig);
        let next = match v.checked_mul(10) {
            Some(m) => m.checked_add(dig),
            None => None,
        };
        match next {
            Some(n) if n <= max => {
                v = n;
            },
            _ => {
                proof {
                    lemma_digits_value_monotone(d, k - a + 1);
                    assert(v * 10 + dig > max);
                    assert(digits_value(d) > max);
                    assert(parse_uint(s, max as nat) is None);
                }
                return None;
            },
        }
        k = k + 1;
    }
    assert(d.take(k - a) =~= d);
    assert(parse_uint(s, max as nat) == Some(v as nat));
    Some(v)
}

/// `str::parse::<usize>`, as an `Option`.
pub fn parse_usize(s: &str) -> (r: Option<usize>)
    ensures
        match parse_uint(s@, usize::MAX as nat) {
            Some(v) => r == Some(v as usize),
            None => r is None,
        },
{
    let cs = chars_of(s);
    assert(cs@.subrange(0, cs@.len() as int) =~= s@);
    match parse_uint_in(&cs, 0, cs.len(), usize::MAX as u64) {
        Some(v) => Some(v as usize),
        None => None,
    }
}

/// `str::parse::<u64>`, as an `Option`.
pub fn parse_u64(s: &str) -> (r: Option<u64>)
    ensures
        match parse_uint(s@, u64::MAX as nat) {
            Some(v) => r == Some(v as u64),
            None => r is None,
        },
{
    let cs = chars_of(s);
    assert(cs@.subrange(0, cs@.len() as int) =~= s@);
    parse_uint_in(&cs, 0, cs.len(), u64::MAX)
}

} // verus!
