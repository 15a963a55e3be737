//! The `HH:MM:SS` text form of elapsed durations, in whole seconds.
//!
//! Each of the three fields is an unsigned decimal integer (with an optional
//! leading `+`, as `u64` parsing allows); hours may exceed 24. The value is
//! `hours * 3600 + minutes * 60 + seconds`, clamped to `u64::MAX`.

use vstd::prelude::*;

verus! {

pub const SECS_PER_MINUTE: u64 = 60;

pub const SECS_PER_HOUR: u64 = 3600;

pub open spec fn is_digit(c: char) -> bool {
    48 <= c as u32 && c as u32 <= 57
}

pub open spec fn digit_value(c: char) -> int {
    c as u32 as int - 48
}

pub open spec fn all_digits(s: Seq<char>) -> bool {
    forall|i: int| 0 <= i < s.len() ==> is_digit(#[trigger] s[i])
}

/// The number written by a string of decimal digits, most significant first.
pub open spec fn digits_value(s: Seq<char>) -> int
    decreases s.len(),
{
    if s.len() == 0 {
        0
    } else {
        digits_value(s.drop_last()) * 10 + digit_value(s.last())
    }
}

/// The digits of an unsigned integer text, without its optional leading `+`.
pub open spec fn unsigned_digits(s: Seq<char>) -> Seq<char> {
    if s.len() > 0 && s[0] == '+' {
        s.drop_first()
    } else {
        s
    }
}

/// What `u64` parsing gives for a text: an optional `+`, then one or more
/// decimal digits whose value fits in a `u64`.
pub open spec fn u64_of_text(s: Seq<char>) -> Option<u64> {
    let d = unsigned_digits(s);
    if d.len() > 0 && all_digits(d) && digits_value(d) <= u64::MAX {
        Some(digits_value(d) as u64)
    } else {
        None
    }
}

/// `p` and `q` are the positions of the only two colons in `s`.
pub open spec fn colons_at(s: Seq<char>, p: int, q: int) -> bool {
    &&& 0 <= p < q < s.len()
    &&& s[p] == ':'
    &&& s[q] == ':'
    &&& forall|k: int| 0 <= k < s.len() && k != p && k != q ==> #[trigger] s[k] != ':'
}

pub open spec fn clamp_u64(n: int) -> u64 {
    if n > u64::MAX {
        u64::MAX
    } else {
        n as u64
    }
}

/// The elapsed seconds that three decoded fields stand for, clamped.
pub open spec fn seconds_of(h: u64, m: u64, s: u64) -> u64 {
    clamp_u64(h * 3600 + m * 60 + s)
}

/// The seconds written by an `HH:MM:SS` text, or `None` where the text has
/// not exactly three colon-separated fields that each parse as a `u64`.
pub open spec fn duration_of_text(s: Seq<char>) -> Option<u64> {
    if exists|p: int, q: int| colons_at(s, p, q) {
        let (p, q) = choose|p: int, q: int| colons_at(s, p, q);
        match (
            u64_of_text(s.subrange(0, p)),
            u64_of_text(s.subrange(p + 1, q)),
            u64_of_text(s.subrange(q + 1, s.len() as int)),
        ) {
            (Some(h), Some(m), Some(sec)) => Some(seconds_of(h, m, sec)),
            _ => None,
        }
    } else {
        None
    }
}

proof fn lemma_colons_unique(s: Seq<char>, p: int, q: int, pb: int, qb: int)
    requires
        colons_at(s, p, q),
        colons_at(s, pb, qb),
    ensures
        p == pb && q == qb,
{
    if p != pb && p != qb {
        assert(s[p] != ':');
    }
    if q != pb && q != qb {
        assert(s[q] != ':');
    }
}

proof fn lemma_digits_prefix(d: Seq<char>, k: int)
    requires
        all_digits(d),
        0 <= k <= d.len(),
    ensures
        digits_value(d.subrange(0, k)) <= digits_value(d),
        0 <= digits_value(d),
    decreases d.len(),
{
    if d.len() > 0 {
        assert(is_digit(d[d.len() - 1]));
        lemma_digits_prefix(d.drop_last(), if k == d.len() { k - 1 } else { k });
        if k < d.len() {
            assert(d.drop_last().subrange(0, k) =~= d.subrange(0, k));
        } else {
            assert(d.subrange(0, k) =~= d);
        }
    } else {
        assert(d.subrange(0, k) =~= d);
    }
}

/// Parses `s[from..to]` (in characters) as `u64` parsing does.
fn parse_u64_range(s: &str, from: usize, to: usize) -> (r: Option<u64>)
    requires
        from <= to <= s@.len(),
    ensures
        r == u64_of_text(s@.subrange(from as int, to as int)),
{
    let ghost t = s@.subrange(from as int, to as int);
    let mut i: usize = from;
    if from < to && s.get_char(from) == '+' {
        i = from + 1;
    }
    let ghost d = unsigned_digits(t);
    assert(d =~= s@.subrange(i as int, to as int));
    if i >= to {
        return None;
    }
    let start = i;
    let mut acc: u64 = 0;
    while i < to
        invariant
            from <= start <= i <= to <= s@.len(),
            start < to,
            d == s@.subrange(start as int, to as int),
            t == s@.subrange(from as int, to as int),
            d == unsigned_digits(t),
            all_digits(s@.subrange(start as int, i as int)),
            acc == digits_value(s@.subrange(start as int, i as int)),
        decreases to - i,
    {
        let c = s.get_char(i);
        let ghost pre = s@.subrange(start as int, i as int);
        let ghost next = s@.subrange(start as int, i + 1);
        assert(next.drop_last() =~= pre);
        if !('0' <= c && c <= '9') {
            assert(!is_digit(d[i - start]));
            return None;
        }
        let dv: u64 = (c as u32 - 48) as u64;
        assert(all_digits(next)) by {
            assert forall|k: int| 0 <= k < next.len() implies is_digit(#[trigger] next[k]) by {
                if k < pre.len() {
                    assert(next[k] == pre[k]);
                }
            }
        }
        if acc > 1844674407370955161 || (acc == 1844674407370955161 && dv > 5) {
            proof {
                if all_digits(d) {
                    assert(d.subrange(0, i + 1 - start) =~= next);
                    lemma_digits_prefix(d, i + 1 - start);
                }
            }
            return None;
        }
        acc = acc * 10 + dv;
        i = i + 1;
    }
    assert(s@.subrange(start as int, i as int) =~= d);
    Some(acc)
}

/// Decodes an `HH:MM:SS` duration text into elapsed seconds, clamped to
/// `u64::MAX`. Returns `None` where the text is not of that form.
pub fn decode_duration(s: &str) -> (r: Option<u64>)
    ensures
        r == duration_of_text(s@),
{
    let n = s.unicode_len();
    let mut p: usize = 0;
    let mut q: usize = 0;
    let mut colons: usize = 0;
    let mut i: usize = 0;
    while i < n
        invariant
            n == s@.len(),
            i <= n,
            colons <= 2,
            colons >= 1 ==> p < i && s@[p as int] == ':',
            colons >= 2 ==> p < q < i && s@[q as int] == ':',
            forall|k: int|
                0 <= k < i && !(colons >= 1 && k == p) && !(colons >= 2 && k == q)
                    ==> #[trigger] s@[k] != ':',
        decreases n - i,
    {
        if s.get_char(i) == ':' {
            if colons == 2 {
                proof {
                    if exists|a: int, b: int| colons_at(s@, a, b) {
                        let (a, b) = choose|a: int, b: int| colons_at(s@, a, b);
                        assert(s@[p as int] == ':' && s@[q as int] == ':');
                    }
                }
                return None;
            }
            if colons == 0 {
                p = i;
            } else {
                q = i;
            }
            colons = colons + 1;
        }
        i = i + 1;
    }
    if colons < 2 {
        proof {
            if exists|a: int, b: int| colons_at(s@, a, b) {
                let (a, b) = choose|a: int, b: int| colons_at(s@, a, b);
                assert(s@[a] == ':' && s@[b] == ':');
            }
        }
        return None;
    }
    proof {
        assert(colons_at(s@, p as int, q as int));
        let (a, b) = choose|a: int, b: int| colons_at(s@, a, b);
        lemma_colons_unique(s@, p as int, q as int, a, b);
    }
    let h = parse_u64_range(s, 0, p);
    let m = parse_u64_range(s, p + 1, q);
    let sec = parse_u64_range(s, q + 1, n);
    match (h, m, sec) {
        (Some(h), Some(m), Some(sec)) => Some(clamped_seconds(h, m, sec)),
        _ => None,
    }
}

/// `h * 3600 + m * 60 + s`, clamped to `u64::MAX`.
pub fn clamped_seconds(h: u64, m: u64, s: u64) -> (r: u64)
    ensures
        r == seconds_of(h, m, s),
{
    let hs = if h > u64::MAX / SECS_PER_HOUR {
        u64::MAX
    } else {
        h * SECS_PER_HOUR
    };
    let ms = if m > u64::MAX / SECS_PER_MINUTE {
        u64::MAX
    } else {
        m * SECS_PER_MINUTE
    };
    hs.saturating_add(ms).saturating_add(s)
}

/// Whole hours in a number of seconds, rounded down.
pub fn hours(secs: u64) -> (r: u64)
    ensures
        r == secs / 3600,
{
    secs / SECS_PER_MINUTE / 60
}

/// The decimal digit character for `n < 10`.
pub open spec fn digit_char(n: int) -> char {
    ((n + 48) as u8) as char
}

/// The decimal text of `n`, without leading zeros.
pub open spec fn decimal(n: nat) -> Seq<char>
    decreases n,
{
    if n < 10 {
        seq![digit_char(n as int)]
    } else {
        decimal(n / 10).push(digit_char((n % 10) as int))
    }
}

/// The decimal text of `n`, padded with a zero to at least two digits.
pub open spec fn two_digits(n: nat) -> Seq<char> {
    if n < 10 {
        seq!['0'] + decimal(n)
    } else {
        decimal(n)
    }
}

/// The canonical `HH:MM:SS` text of `d` seconds: minutes and seconds below
/// 60, hours unbounded, each field at least two digits.
pub open spec fn duration_text(d: u64) -> Seq<char> {
    two_digits((d / 3600) as nat) + seq![':'] + two_digits(((d % 3600) / 60) as nat) + seq![':']
        + two_digits((d % 60) as nat)
}

proof fn lemma_decimal(n: nat)
    ensures
        decimal(n).len() >= 1,
        all_digits(decimal(n)),
        digits_value(decimal(n)) == n,
    decreases n,
{
    let k = (n % 10) as int;
    assert(digit_value(digit_char(k)) == k && is_digit(digit_char(k)));
    if n >= 10 {
        lemma_decimal(n / 10);
        let d = decimal(n);
        assert(d.drop_last() =~= decimal(n / 10));
        assert(d.last() == digit_char(k));
        assert(n == (n / 10) * 10 + n % 10);
        assert(digits_value(d) == digits_value(decimal(n / 10)) * 10 + digit_value(digit_char(k)));
        assert forall|i: int| 0 <= i < d.len() implies is_digit(#[trigger] d[i]) by {
            if i < d.len() - 1 {
                assert(d[i] == decimal(n / 10)[i]);
            }
        }
    } else {
        assert(decimal(n).drop_last() =~= Seq::<char>::empty());
        assert(digits_value(decimal(n)) == digits_value(Seq::<char>::empty()) * 10 + digit_value(
            digit_char(k),
        ));
    }
}

proof fn lemma_leading_zero(x: Seq<char>)
    requires
        all_digits(x),
    ensures
        all_digits(seq!['0'] + x),
        digits_value(seq!['0'] + x) == digits_value(x),
    decreases x.len(),
{
    let z = seq!['0'] + x;
    assert forall|i: int| 0 <= i < z.len() implies is_digit(#[trigger] z[i]) by {
        if i > 0 {
            assert(z[i] == x[i - 1]);
        }
    }
    if x.len() == 0 {
        assert(z.drop_last() =~= Seq::<char>::empty());
        assert(z.last() == '0');
        assert('0' as u32 == 48);
        assert(digits_value(z) == digits_value(Seq::<char>::empty()) * 10 + digit_value('0'));
    } else {
        assert(z.drop_last() =~= seq!['0'] + x.drop_last());
        assert(z.last() == x.last());
        assert(digits_value(z) == digits_value(seq!['0'] + x.drop_last()) * 10 + digit_value(
            x.last(),
        ));
        assert(is_digit(x[x.len() - 1]));
        lemma_leading_zero(x.drop_last());
    }
}

proof fn lemma_two_digits(n: nat)
    requires
        n <= u64::MAX,
    ensures
        two_digits(n).len() >= 1,
        all_digits(two_digits(n)),
        u64_of_text(two_digits(n)) == Some(n as u64),
{
    lemma_decimal(n);
    if n < 10 {
        lemma_leading_zero(decimal(n));
    }
    let t = two_digits(n);
    assert(is_digit(t[0]));
    assert(unsigned_digits(t) == t);
}

proof fn lemma_no_colon(t: Seq<char>, k: int)
    requires
        all_digits(t),
        0 <= k < t.len(),
    ensures
        t[k] != ':',
{
    assert(is_digit(t[k]));
}

/// Decoding the canonical text of a number of seconds gives it back.
pub proof fn lemma_decode_encode(d: u64)
    ensures
        duration_of_text(duration_text(d)) == Some(d),
{
    let h = (d / 3600) as nat;
    let m = ((d % 3600) / 60) as nat;
    let sec = (d % 60) as nat;
    let a = two_digits(h);
    let b = two_digits(m);
    let c = two_digits(sec);
    lemma_two_digits(h);
    lemma_two_digits(m);
    lemma_two_digits(sec);
    let s = duration_text(d);
    assert(s =~= a + seq![':'] + b + seq![':'] + c);
    let p = a.len() as int;
    let q = p + 1 + b.len();
    assert(s[p] == ':');
    assert(s[q] == ':');
    assert forall|k: int| 0 <= k < s.len() && k != p && k != q implies #[trigger] s[k] != ':' by {
        if k < p {
            assert(s[k] == a[k]);
            lemma_no_colon(a, k);
        } else if k < q {
            assert(s[k] == b[k - p - 1]);
            lemma_no_colon(b, k - p - 1);
        } else {
            assert(s[k] == c[k - q - 1]);
            lemma_no_colon(c, k - q - 1);
        }
    }
    assert(colons_at(s, p, q));
    let (pb, qb) = choose|pb: int, qb: int| colons_at(s, pb, qb);
    lemma_colons_unique(s, p, q, pb, qb);
    assert(s.subrange(0, p) =~= a);
    assert(s.subrange(p + 1, q) =~= b);
    assert(s.subrange(q + 1, s.len() as int) =~= c);
    assert(h * 3600 + m * 60 + sec == d) by (nonlinear_arith)
        requires
            h == d / 3600,
            m == (d % 3600) / 60,
            sec == d % 60,
    ;
}

/// Decoding is stable under the canonical text: for every valid `HH:MM:SS`
/// text, encoding its seconds and decoding again gives the same seconds.
pub proof fn lemma_duration_round_trip(s: Seq<char>)
    requires
        duration_of_text(s) is Some,
    ensures
        duration_of_text(duration_text(duration_of_text(s)->Some_0)) == duration_of_text(s),
{
    lemma_decode_encode(duration_of_text(s)->Some_0);
}

/// Relies on `String::push`: appends one character.
#[verifier::external_body]
fn push_char(s: &mut String, c: char)
    ensures
        final(s)@ == old(s)@.push(c),
{
    s.push(c)
}

fn push_decimal(out: &mut String, n: u64)
    ensures
        final(out)@ == old(out)@ + decimal(n as nat),
    decreases n,
{
    if n >= 10 {
        push_decimal(out, n / 10);
    }
    push_char(out, ((n % 10) as u8 + 48) as char);
    assert(out@ =~= old(out)@ + decimal(n as nat));
}

fn push_two_digits(out: &mut String, n: u64)
    ensures
        final(out)@ == old(out)@ + two_digits(n as nat),
{
    if n < 10 {
        push_char(out, '0');
    }
    push_decimal(out, n);
    assert(out@ =~= old(out)@ + two_digits(n as nat));
}

/// The canonical `HH:MM:SS` text of `d` seconds.
pub fn encode_duration(d: u64) -> (r: String)
    ensures
        r@ == duration_text(d),
{
    let mut out = String::new();
    push_two_digits(&mut out, d / SECS_PER_HOUR);
    push_char(&mut out, ':');
    push_two_digits(&mut out, (d % SECS_PER_HOUR) / SECS_PER_MINUTE);
    push_char(&mut out, ':');
    push_two_digits(&mut out, d % SECS_PER_MINUTE);
    assert(out@ =~= duration_text(d));
    out
}

} // verus!
