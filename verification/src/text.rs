//! Small verified text utilities: string equality and decimal numbers.

use vstd::prelude::*;
use vstd::string::*;

verus! {

/// The view of an optional borrowed string.
pub open spec fn opt_str_view(o: Option<&str>) -> Option<Seq<char>> {
    match o {
        Some(s) => Some(s@),
        None => None,
    }
}

/// Character-for-character equality of two string slices.
pub fn str_eq(a: &str, b: &str) -> (r: bool)
    ensures
        r == (a@ == b@),
{
    let alen: usize = a.unicode_len();
    let blen: usize = b.unicode_len();
    if alen != blen {
        return false;
    }
    let mut i: usize = 0;
    while i < alen
        invariant
            alen == a@.len(),
            blen == b@.len(),
            alen == blen,
            0 <= i <= alen,
            forall|k: int| 0 <= k < i ==> a@[k] == b@[k],
        decreases alen - i,
    {
        if a.get_char(i) != b.get_char(i) {
            return false;
        }
        i = i + 1;
    }
    proof {
        assert(a@ =~= b@);
    }
    true
}

pub open spec fn is_digit(c: char) -> bool {
    '0' <= c && c <= '9'
}

pub open spec fn digit_val(c: char) -> int {
    c as int - '0' as int
}

pub open spec fn all_digits(s: Seq<char>) -> bool {
    forall|i: int| 0 <= i < s.len() ==> is_digit(#[trigger] s[i])
}

/// The value of a sequence of decimal digits, most significant first.
pub open spec fn dec_value(s: Seq<char>) -> int
    decreases s.len(),
{
    if s.len() == 0 {
        0
    } else {
        dec_value(s.drop_last()) * 10 + digit_val(s.last())
    }
}

pub proof fn lemma_dec_value_nonneg(s: Seq<char>)
    requires
        all_digits(s),
    ensures
        dec_value(s) >= 0,
    decreases s.len(),
{
    if s.len() > 0 {
        assert(all_digits(s.drop_last()));
        lemma_dec_value_nonneg(s.drop_last());
    }
}

/// Extending a digit string on the right can only grow its value.
pub proof fn lemma_dec_value_prefix(t: Seq<char>, n: int)
    requires
        all_digits(t),
        0 <= n <= t.len(),
    ensures
        dec_value(t) >= dec_value(t.subrange(0, n)),
    decreases t.len() - n,
{
    if n < t.len() {
        lemma_dec_value_prefix(t, n + 1);
        let p = t.subrange(0, n);
        let q = t.subrange(0, n + 1);
        assert(q.drop_last() =~= p);
        assert(all_digits(p)) by {
            assert(forall|i: int| 0 <= i < p.len() ==> p[i] == t[i]);
        }
        lemma_dec_value_nonneg(p);
        assert(dec_value(q) == dec_value(p) * 10 + digit_val(t[n]));
    } else {
        assert(t.subrange(0, n) =~= t);
    }
}

/// The digit part of a decimal string: everything after an optional leading `+`.
pub open spec fn unsigned_digits_of(s: Seq<char>) -> Seq<char> {
    if s.len() > 0 && s[0] == '+' {
        s.subrange(1, s.len() as int)
    } else {
        s
    }
}

/// What a decimal string denotes as a `u64`: an optional leading `+`,
/// then one or more digits, whose value fits in 64 bits.
pub open spec fn parse_u64_spec(s: Seq<char>) -> Option<u64> {
    let digits = unsigned_digits_of(s);
    if digits.len() > 0 && all_digits(digits) && dec_value(digits) <= u64::MAX {
        Some(dec_value(digits) as u64)
    } else {
        None
    }
}

/// Parses an unsigned 64-bit decimal number.
#[verifier::rlimit(30)]
pub fn parse_u64(s: &str) -> (r: Option<u64>)
    ensures
        r == parse_u64_spec(s@),
{
    let len: usize = s.unicode_len();
    if len == 0 {
        return None;
    }
    let start: usize = if s.get_char(0) == '+' {
        1
    } else {
        0
    };
    let ghost digits: Seq<char> = unsigned_digits_of(s@);
    proof {
        assert(digits =~= s@.subrange(start as int, len as int));
    }
    if start == len {
        return None;
    }
    let mut acc: u64 = 0;
    let mut i: usize = start;
    while i < len
        invariant
            len == s@.len(),
            start <= i <= len,
            start < len,
            start == 0 || start == 1,
            (start == 1) == (s@[0] == '+'),
            digits == unsigned_digits_of(s@),
            digits =~= s@.subrange(start as int, len as int),
            all_digits(s@.subrange(start as int, i as int)),
            acc == dec_value(s@.subrange(start as int, i as int)),
        decreases len - i,
    {
        let c: char = s.get_char(i);
        if !('0' <= c && c <= '9') {
            proof {
                assert(digits[i - start] == c);
                assert(!all_digits(digits));
            }
            return None;
        }
        let d: u64 = (c as u32 as u64) - ('0' as u32 as u64);
        let ghost prefix = s@.subrange(start as int, i as int);
        let ghost prefix1 = s@.subrange(start as int, i as int + 1);
        proof {
            assert(prefix1.drop_last() =~= prefix);
            assert(prefix1.last() == c);
            assert(dec_value(prefix1) == acc * 10 + d);
            assert(all_digits(prefix1));
        }
        if acc > (u64::MAX - d) / 10 {
            proof {
                assert(acc * 10 + d > u64::MAX);
                if all_digits(digits) {
                    lemma_dec_value_prefix(digits, i + 1 - start);
                    assert(digits.subrange(0, i + 1 - start) =~= prefix1);
                    assert(dec_value(digits) > u64::MAX);
                }
            }
            return None;
        }
        acc = acc * 10 + d;
        i = i + 1;
    }
    proof {
        assert(digits =~= s@.subrange(start as int, len as int));
        assert(dec_value(digits) == acc);
    }
    Some(acc)
}

pub open spec fn digit_char(d: int) -> char {
    if d == 0 {
        '0'
    } else if d == 1 {
        '1'
    } else if d == 2 {
        '2'
    } else if d == 3 {
        '3'
    } else if d == 4 {
        '4'
    } else if d == 5 {
        '5'
    } else if d == 6 {
        '6'
    } else if d == 7 {
        '7'
    } else {
        if d == 8 {
            '8'
        } else {
            '9'
        }
    }
}

/// The one-character string for a single decimal digit.
pub fn digit_str(d: u64) -> (r: &'static str)
    requires
        d < 10,
    ensures
        r@ == seq![digit_char(d as int)],
{
    proof {
        reveal_strlit("0");
        reveal_strlit("1");
        reveal_strlit("2");
        reveal_strlit("3");
        reveal_strlit("4");
        reveal_strlit("5");
        reveal_strlit("6");
        reveal_strlit("7");
        reveal_strlit("8");
        reveal_strlit("9");
    }
    let r: &'static str = match d {
        0 => "0",
        1 => "1",
        2 => "2",
        3 => "3",
        4 => "4",
        5 => "5",
        6 => "6",
        7 => "7",
        8 => "8",
        _ => "9",
    };
    proof {
        assert(r@ =~= seq![digit_char(d as int)]);
    }
    r
}

/// The decimal digit string of a nonnegative number, no leading zeros.
pub open spec fn u64_dec_str(n: int) -> Seq<char>
    decreases n,
{
    if n < 10 {
        seq![digit_char(n)]
    } else {
        u64_dec_str(n / 10).push(digit_char(n % 10))
    }
}

/// Renders a `u64` in decimal.
pub fn u64_to_string(n: u64) -> (r: String)
    ensures
        r@ == u64_dec_str(n as int),
    decreases n,
{
    if n < 10 {
        String::from_str(digit_str(n))
    } else {
        let mut s = u64_to_string(n / 10);
        s.append(digit_str(n % 10));
        proof {
            assert(u64_dec_str((n / 10) as int) + seq![digit_char((n % 10) as int)]
                =~= u64_dec_str((n / 10) as int).push(digit_char((n % 10) as int)));
        }
        s
    }
}
pub open spec fn pow10(k: nat) -> int
    decreases k,
{
    if k == 0 {
        1
    } else {
        10 * pow10((k - 1) as nat)
    }
}

pub proof fn lemma_dec_value_bound(s: Seq<char>)
    requires
        all_digits(s),
    ensures
        0 <= dec_value(s) < pow10(s.len()),
    decreases s.len(),
{
    if s.len() > 0 {
        assert(all_digits(s.drop_last()));
        lemma_dec_value_bound(s.drop_last());
    }
}

pub proof fn lemma_dec_value_all_zeros(s: Seq<char>)
    requires
        forall|i: int| 0 <= i < s.len() ==> #[trigger] s[i] == '0',
    ensures
        dec_value(s) == 0,
    decreases s.len(),
{
    if s.len() > 0 {
        lemma_dec_value_all_zeros(s.drop_last());
    }
}

pub proof fn lemma_dec_value_some_nonzero(s: Seq<char>, k: int)
    requires
        all_digits(s),
        0 <= k < s.len(),
        s[k] != '0',
    ensures
        dec_value(s) >= 1,
{
    let p = s.subrange(0, k + 1);
    assert(all_digits(p)) by {
        assert(forall|i: int| 0 <= i < p.len() ==> p[i] == s[i]);
    }
    assert(p.drop_last() =~= s.subrange(0, k));
    assert(all_digits(s.subrange(0, k))) by {
        assert(forall|i: int| 0 <= i < k ==> s.subrange(0, k)[i] == s[i]);
    }
    lemma_dec_value_nonneg(s.subrange(0, k));
    assert(p.last() == s[k]);
    assert(digit_val(s[k]) >= 1);
    assert(dec_value(p) >= 1);
    lemma_dec_value_prefix(s, k + 1);
}

pub proof fn lemma_pow10_pos(k: nat)
    ensures
        pow10(k) >= 1,
    decreases k,
{
    if k > 0 {
        lemma_pow10_pos((k - 1) as nat);
    }
}

pub proof fn lemma_pow10_mono(a: nat, b: nat)
    requires
        a <= b,
    ensures
        pow10(a) <= pow10(b),
    decreases b,
{
    if a < b {
        lemma_pow10_mono(a, (b - 1) as nat);
        lemma_pow10_pos((b - 1) as nat);
    }
}

/// Splitting a digit string splits its value at the matching power of ten.
#[verifier::rlimit(30)]
pub proof fn lemma_dec_value_split(s: Seq<char>, p: int)
    requires
        all_digits(s),
        0 <= p <= s.len(),
    ensures
        dec_value(s) == dec_value(s.subrange(0, p)) * pow10((s.len() - p) as nat) + dec_value(
            s.subrange(p, s.len() as int),
        ),
    decreases s.len() - p,
{
    let head = s.subrange(0, p);
    let tail = s.subrange(p, s.len() as int);
    if p == s.len() {
        assert(head =~= s);
        assert(tail =~= Seq::<char>::empty());
        assert(dec_value(tail) == 0);
        assert(pow10(0) == 1);
        assert(dec_value(s) * 1 == dec_value(s)) by (nonlinear_arith);
    } else {
        let dl = s.drop_last();
        assert(all_digits(dl)) by {
            assert(forall|i: int| 0 <= i < dl.len() ==> dl[i] == s[i]);
        }
        lemma_dec_value_split(dl, p);
        assert(dl.subrange(0, p) =~= head);
        assert(dl.subrange(p, dl.len() as int) =~= tail.drop_last());
        assert(tail.last() == s.last());
        let q = (s.len() - 1 - p) as nat;
        assert(dec_value(dl) == dec_value(head) * pow10(q) + dec_value(tail.drop_last()));
        assert(dec_value(s) == dec_value(dl) * 10 + digit_val(s.last()));
        assert(dec_value(tail) == dec_value(tail.drop_last()) * 10 + digit_val(s.last()));
        assert(pow10((s.len() - p) as nat) == 10 * pow10(q));
        assert((dec_value(head) * pow10(q) + dec_value(tail.drop_last())) * 10 == dec_value(head)
            * (10 * pow10(q)) + dec_value(tail.drop_last()) * 10) by (nonlinear_arith);
    }
}

/// Dividing a digit string's value by a power of ten drops that many
/// trailing digits.
pub proof fn lemma_dec_value_div_pow10(s: Seq<char>, w: nat)
    requires
        all_digits(s),
        w <= s.len(),
    ensures
        dec_value(s) / pow10(w) == dec_value(s.subrange(0, s.len() - w)),
{
    let p = s.len() - w;
    lemma_dec_value_split(s, p);
    let head = s.subrange(0, p);
    let tail = s.subrange(p, s.len() as int);
    assert(all_digits(tail)) by {
        assert(forall|i: int| 0 <= i < tail.len() ==> tail[i] == s[p + i]);
    }
    lemma_dec_value_bound(tail);
    lemma_pow10_pos(w);
    vstd::arithmetic::div_mod::lemma_fundamental_div_mod_converse_div(
        dec_value(s),
        pow10(w),
        dec_value(head),
        dec_value(tail),
    );
}

/// A nonzero digit anywhere gives the value a power-of-ten lower bound.
pub proof fn lemma_dec_value_lower(s: Seq<char>, j: int)
    requires
        all_digits(s),
        0 <= j < s.len(),
        s[j] != '0',
    ensures
        dec_value(s) >= pow10((s.len() - 1 - j) as nat),
    decreases s.len(),
{
    let dl = s.drop_last();
    assert(all_digits(dl)) by {
        assert(forall|i: int| 0 <= i < dl.len() ==> dl[i] == s[i]);
    }
    if j == s.len() - 1 {
        lemma_dec_value_nonneg(dl);
        assert(digit_val(s.last()) >= 1);
    } else {
        lemma_dec_value_lower(dl, j);
        assert(pow10((s.len() - 1 - j) as nat) == 10 * pow10((s.len() - 2 - j) as nat));
        assert(dec_value(dl) * 10 >= pow10((s.len() - 2 - j) as nat) * 10) by (nonlinear_arith)
            requires
                dec_value(dl) >= pow10((s.len() - 2 - j) as nat),
        ;
        assert(digit_val(s.last()) >= 0);
    }
}

/// Leading zeros do not change a digit string's value.
pub proof fn lemma_dec_value_skip_zeros(s: Seq<char>, p: int)
    requires
        all_digits(s),
        0 <= p <= s.len(),
        forall|i: int| 0 <= i < p ==> #[trigger] s[i] == '0',
    ensures
        dec_value(s) == dec_value(s.subrange(p, s.len() as int)),
{
    lemma_dec_value_split(s, p);
    let head = s.subrange(0, p);
    assert(forall|i: int| 0 <= i < head.len() ==> #[trigger] head[i] == s[i]);
    lemma_dec_value_all_zeros(head);
}

/// The index at which a run of decimal digits starting at `i` ends.
pub open spec fn digit_run_end(s: Seq<char>, i: int) -> int
    decreases s.len() - i,
{
    if i < s.len() && is_digit(s[i]) {
        digit_run_end(s, i + 1)
    } else {
        i
    }
}

pub proof fn lemma_digit_run_end(s: Seq<char>, i: int)
    requires
        0 <= i <= s.len(),
    ensures
        i <= digit_run_end(s, i) <= s.len(),
        forall|k: int| i <= k < digit_run_end(s, i) ==> is_digit(#[trigger] s[k]),
        digit_run_end(s, i) < s.len() ==> !is_digit(s[digit_run_end(s, i)]),
    decreases s.len() - i,
{
    if i < s.len() && is_digit(s[i]) {
        lemma_digit_run_end(s, i + 1);
    }
}

pub proof fn lemma_digit_run_end_is(s: Seq<char>, i: int, m: int)
    requires
        0 <= i <= m <= s.len(),
        forall|k: int| i <= k < m ==> is_digit(#[trigger] s[k]),
        m < s.len() ==> !is_digit(s[m]),
    ensures
        digit_run_end(s, i) == m,
    decreases m - i,
{
    if i < m {
        lemma_digit_run_end_is(s, i + 1, m);
    }
}

/// The power-of-ten exponent a decimal string carries at position `p`:
/// nothing at all, or `e`/`E`, an optional sign, and digits running to
/// the end.
pub open spec fn parse_exp_spec(t: Seq<char>, p: int) -> Option<int> {
    if p == t.len() {
        Some(0)
    } else if t[p] == 'e' || t[p] == 'E' {
        let q = if p + 1 < t.len() && (t[p + 1] == '+' || t[p + 1] == '-') {
            p + 2
        } else {
            p + 1
        };
        if q < t.len() && digit_run_end(t, q) == t.len() {
            let mag = dec_value(t.subrange(q, t.len() as int));
            if t[p + 1] == '-' {
                Some(-mag)
            } else {
                Some(mag)
            }
        } else {
            None
        }
    } else {
        None
    }
}

/// What a decimal string denotes as an error rate, in millionths,
/// truncated and clamped to `[0, 1]`: an optional leading `+`, a
/// mantissa of digits holding at most one point and at least one digit,
/// and an optional power-of-ten exponent.
pub open spec fn parse_rate_spec(s: Seq<char>) -> Option<int> {
    let t = unsigned_digits_of(s);
    let e = digit_run_end(t, 0);
    let has_dot = e < t.len() && t[e] == '.';
    let f_end = if has_dot {
        digit_run_end(t, e + 1)
    } else {
        e
    };
    let mantissa = if has_dot {
        t.subrange(0, e) + t.subrange(e + 1, f_end)
    } else {
        t.subrange(0, e)
    };
    let flen: int = if has_dot {
        f_end - (e + 1)
    } else {
        0
    };
    if mantissa.len() == 0 {
        None
    } else {
        match parse_exp_spec(t, f_end) {
            None => None,
            Some(k) => {
                let shift = 6 + k - flen;
                let p = if shift >= 0 {
                    dec_value(mantissa) * pow10(shift as nat)
                } else {
                    dec_value(mantissa) / pow10((-shift) as nat)
                };
                Some(
                    if p > 1000000 {
                        1000000
                    } else {
                        p
                    },
                )
            },
        }
    }
}

/// Scans the run of digits beginning at `from`, reporting where it ends
/// and whether any digit in it is nonzero.
pub fn scan_digits(s: &str, from: usize) -> (r: (usize, bool))
    requires
        from as int <= s@.len(),
    ensures
        r.0 as int == digit_run_end(s@, from as int),
        from <= r.0 <= s@.len(),
        r.1 == exists|k: int| from <= k < r.0 && s@[k] != '0',
{
    let len: usize = s.unicode_len();
    let mut i: usize = from;
    let mut nz: bool = false;
    while i < len
        invariant
            len == s@.len(),
            from <= i <= len,
            forall|k: int| from <= k < i ==> is_digit(#[trigger] s@[k]),
            nz == exists|k: int| from <= k < i && s@[k] != '0',
        ensures
            from <= i <= len,
            len == s@.len(),
            forall|k: int| from <= k < i ==> is_digit(#[trigger] s@[k]),
            nz == exists|k: int| from <= k < i && s@[k] != '0',
            i < len ==> !is_digit(s@[i as int]),
        decreases len - i,
    {
        let c: char = s.get_char(i);
        if !('0' <= c && c <= '9') {
            break;
        }
        if c != '0' {
            nz = true;
        }
        i = i + 1;
    }
    proof {
        lemma_digit_run_end_is(s@, from as int, i as int);
    }
    (i, nz)
}
pub proof fn lemma_pow10_table()
    ensures
        pow10(0) == 1,
        pow10(1) == 10,
        pow10(2) == 100,
        pow10(3) == 1000,
        pow10(4) == 10000,
        pow10(5) == 100000,
        pow10(6) == 1000000,
{
    reveal_with_fuel(pow10, 7);
}

/// The saturation cap for exponent magnitudes, far beyond any shift
/// that can still matter.
const EXP_MAG_CAP: u128 = 1000000000000000000000000000000;

/// Reads one mantissa digit by its index: the integer digits sit at
/// `[start, e)` of `s` and the fraction digits follow the point at `e`.
fn mantissa_digit(s: &str, start: usize, e: usize, i: usize) -> (c: char)
    requires
        s@.len() <= usize::MAX,
        start <= e <= s@.len(),
        i < e - start || (e + 1 + (i - (e - start))) < s@.len(),
    ensures
        c == if (i as int) < e - start {
            s@[start + i]
        } else {
            s@[e + 1 + i - (e - start)]
        },
{
    if i < e - start {
        s.get_char(start + i)
    } else {
        proof {
            assert(e + 1 + (i - (e - start)) < s@.len());
        }
        s.get_char(e + 1 + (i - (e - start)))
    }
}

/// The value of the first `limit` digits of the mantissa, read through
/// `s`; exact below ten million, saturated at ten million.
#[verifier::rlimit(100)]
fn mantissa_prefix_value(
    s: &str,
    start: usize,
    e: usize,
    flen: usize,
    limit: usize,
    Ghost(mantissa): Ghost<Seq<char>>,
) -> (r: u64)
    requires
        s@.len() <= usize::MAX,
        start <= e <= s@.len(),
        mantissa.len() == (e - start) + flen,
        limit <= mantissa.len(),
        all_digits(mantissa),
        flen > 0 ==> e + 1 + flen <= s@.len(),
        forall|i: int|
            0 <= i < mantissa.len() ==> #[trigger] mantissa[i] == (if i < e - start {
                s@[start + i]
            } else {
                s@[e + 1 + i - (e - start)]
            }),
    ensures
        ({
            let v = dec_value(mantissa.subrange(0, limit as int));
            (r == 10000000 && v >= 10000000) || (r < 10000000 && r == v)
        }),
{
    proof {
        lemma_pow10_table();
    }
    let ghost meff: Seq<char> = mantissa.subrange(0, limit as int);
    proof {
        assert(all_digits(meff)) by {
            assert(forall|i: int| 0 <= i < meff.len() ==> meff[i] == mantissa[i]);
        }
    }
    let mut nzi: usize = 0;
    let mut found: bool = false;
    while nzi < limit
        invariant
            s@.len() <= usize::MAX,
            start <= e <= s@.len(),
            mantissa.len() == (e - start) + flen,
            limit <= mantissa.len(),
            all_digits(mantissa),
            flen > 0 ==> e + 1 + flen <= s@.len(),
            forall|i: int|
                0 <= i < mantissa.len() ==> #[trigger] mantissa[i] == (if i < e - start {
                    s@[start + i]
                } else {
                    s@[e + 1 + i - (e - start)]
                }),
            0 <= nzi <= limit,
            forall|i: int| 0 <= i < nzi ==> #[trigger] mantissa[i] == '0',
            found ==> nzi < limit && mantissa[nzi as int] != '0',
        ensures
            0 <= nzi <= limit,
            forall|i: int| 0 <= i < nzi ==> #[trigger] mantissa[i] == '0',
            found ==> nzi < limit && mantissa[nzi as int] != '0',
            !found ==> nzi == limit,
        decreases limit - nzi,
    {
        proof {
            if !((nzi as int) < e - start) {
                assert(nzi < mantissa.len());
                assert(e + 1 + (nzi - (e - start)) < s@.len());
            }
        }
        let c: char = mantissa_digit(s, start, e, nzi);
        proof {
            assert(mantissa[nzi as int] == c);
        }
        if c != '0' {
            found = true;
            break;
        }
        nzi = nzi + 1;
    }
    if !found {
        proof {
            assert forall|i: int| 0 <= i < meff.len() implies #[trigger] meff[i] == '0' by {
                assert(meff[i] == mantissa[i]);
            }
            lemma_dec_value_all_zeros(meff);
        }
        return 0;
    }
    proof {
        assert(meff[nzi as int] == mantissa[nzi as int]);
        lemma_dec_value_lower(meff, nzi as int);
    }
    let sig: usize = limit - nzi;
    if sig >= 8 {
        proof {
            lemma_pow10_mono(7, (sig - 1) as nat);
            assert(pow10(7) == 10 * pow10(6));
        }
        return 10000000;
    }
    let mut acc: u64 = 0;
    let mut j: usize = nzi;
    proof {
        assert(mantissa.subrange(nzi as int, nzi as int) =~= Seq::<char>::empty());
    }
    while j < limit
        invariant
            s@.len() <= usize::MAX,
            start <= e <= s@.len(),
            mantissa.len() == (e - start) + flen,
            limit <= mantissa.len(),
            all_digits(mantissa),
            flen > 0 ==> e + 1 + flen <= s@.len(),
            forall|i: int|
                0 <= i < mantissa.len() ==> #[trigger] mantissa[i] == (if i < e - start {
                    s@[start + i]
                } else {
                    s@[e + 1 + i - (e - start)]
                }),
            nzi <= j <= limit,
            limit - nzi <= 7,
            acc == dec_value(mantissa.subrange(nzi as int, j as int)),
        decreases limit - j,
    {
        proof {
            if !((j as int) < e - start) {
                assert(j < mantissa.len());
                assert(e + 1 + (j - (e - start)) < s@.len());
            }
        }
        let c: char = mantissa_digit(s, start, e, j);
        let ghost pre = mantissa.subrange(nzi as int, j as int);
        let ghost pre1 = mantissa.subrange(nzi as int, j as int + 1);
        proof {
            lemma_pow10_table();
            assert(mantissa[j as int] == c);
            assert(pre1.drop_last() =~= pre);
            assert(pre1.last() == c);
            assert(all_digits(pre)) by {
                assert(forall|i: int| 0 <= i < pre.len() ==> pre[i] == mantissa[nzi + i]);
            }
            lemma_dec_value_bound(pre);
            assert(pre.len() <= 6);
            lemma_pow10_mono(pre.len() as nat, 6);
        }
        let d: u64 = ((c as u32) - ('0' as u32)) as u64;
        acc = acc * 10 + d;
        j = j + 1;
    }
    proof {
        let win = mantissa.subrange(nzi as int, limit as int);
        assert(win =~= meff.subrange(nzi as int, meff.len() as int));
        assert(forall|i: int| 0 <= i < nzi ==> #[trigger] meff[i] == '0');
        lemma_dec_value_skip_zeros(meff, nzi as int);
        assert(dec_value(meff) == acc);
        assert(all_digits(win)) by {
            assert(forall|i: int| 0 <= i < win.len() ==> win[i] == mantissa[nzi + i]);
        }
        lemma_dec_value_bound(win);
        lemma_pow10_mono(win.len() as nat, 7);
        assert(pow10(7) == 10 * pow10(6));
        assert(acc < 10000000);
    }
    acc
}

/// Scans an exponent part at `[p, len)` of `s`: nothing at all, or
/// `e`/`E`, an optional sign, and digits to the end. The magnitude is
/// reported exactly up to `EXP_MAG_CAP`, and saturated above it.
#[verifier::rlimit(100)]
fn scan_exponent(s: &str, p: usize, Ghost(start): Ghost<int>, Ghost(t): Ghost<Seq<char>>) -> (r:
    Option<(bool, u128)>)
    requires
        0 <= start <= p as int <= s@.len(),
        t =~= s@.subrange(start, s@.len() as int),
    ensures
        r is Some <==> parse_exp_spec(t, p - start) is Some,
        r matches Some(pair) ==> ({
            let k = parse_exp_spec(t, p - start)->0;
            &&& (pair.1 <= EXP_MAG_CAP ==> k == if pair.0 {
                -(pair.1 as int)
            } else {
                pair.1 as int
            })
            &&& (pair.1 > EXP_MAG_CAP ==> if pair.0 {
                k < -(EXP_MAG_CAP as int)
            } else {
                k > EXP_MAG_CAP as int
            })
        }),
{
    let len: usize = s.unicode_len();
    let ghost pt: int = p - start;
    if p == len {
        return Some((false, 0));
    }
    let c: char = s.get_char(p);
    proof {
        assert(t[pt] == s@[p as int]);
    }
    if !(c == 'e' || c == 'E') {
        return None;
    }
    let mut q: usize = p + 1;
    let mut neg: bool = false;
    if q < len {
        let c2: char = s.get_char(q);
        proof {
            assert(t[pt + 1] == s@[q as int]);
        }
        if c2 == '+' {
            q = q + 1;
        } else if c2 == '-' {
            neg = true;
            q = q + 1;
        }
    }
    let ghost qt: int = q - start;
    if q >= len {
        return None;
    }
    let ed = scan_digits(s, q);
    proof {
        lemma_digit_run_end(s@, q as int);
        assert forall|k: int| 0 <= k < ed.0 - q implies is_digit(#[trigger] t[qt + k]) by {
            assert(t[qt + k] == s@[q + k]);
        }
        if (ed.0 as int) < len {
            assert(t[ed.0 - start] == s@[ed.0 as int]);
        }
        lemma_digit_run_end_is(t, qt, ed.0 - start);
    }
    if ed.0 != len {
        return None;
    }
    let ghost expd: Seq<char> = t.subrange(qt, t.len() as int);
    proof {
        assert(all_digits(expd)) by {
            assert(forall|k: int| 0 <= k < expd.len() ==> expd[k] == t[qt + k]);
        }
        assert(expd.subrange(0, 0) =~= Seq::<char>::empty());
    }
    let mut mag: u128 = 0;
    let mut big: bool = false;
    let mut j: usize = q;
    while j < len
        invariant
            len == s@.len(),
            q <= j <= len,
            q < len,
            0 <= start <= q,
            qt == q - start,
            t =~= s@.subrange(start, s@.len() as int),
            expd == t.subrange(qt, t.len() as int),
            all_digits(expd),
            expd.len() == len - q,
            !big ==> mag == dec_value(expd.subrange(0, j - q)) && mag <= EXP_MAG_CAP,
            big ==> dec_value(expd.subrange(0, j - q)) > EXP_MAG_CAP,
        decreases len - j,
    {
        let c3: char = s.get_char(j);
        let ghost pre = expd.subrange(0, j - q);
        let ghost pre1 = expd.subrange(0, j - q + 1);
        proof {
            assert(t[qt + (j - q)] == s@[j as int]);
            assert(expd[j - q] == c3);
            assert(pre1.drop_last() =~= pre);
            assert(pre1.last() == c3);
            assert(all_digits(pre)) by {
                assert(forall|k: int| 0 <= k < pre.len() ==> pre[k] == expd[k]);
            }
            lemma_dec_value_nonneg(pre);
        }
        let d: u128 = ((c3 as u32) - ('0' as u32)) as u128;
        if !big {
            mag = mag * 10 + d;
            if mag > EXP_MAG_CAP {
                big = true;
            }
        }
        j = j + 1;
    }
    proof {
        assert(expd.subrange(0, len - q) =~= expd);
    }
    if big {
        Some((neg, EXP_MAG_CAP + 1))
    } else {
        Some((neg, mag))
    }
}

/// The clamped millionths value of a mantissa scaled by ten to the
/// exponent `k`, which `neg` and `emag` carry in saturated form.
#[verifier::rlimit(100)]
fn rate_value(
    s: &str,
    start: usize,
    e: usize,
    flen: usize,
    mlen: usize,
    neg: bool,
    emag: u128,
    nz: bool,
    Ghost(mantissa): Ghost<Seq<char>>,
    Ghost(k): Ghost<int>,
) -> (v: u32)
    requires
        s@.len() <= usize::MAX,
        start <= e <= s@.len(),
        mantissa.len() == (e - start) + flen,
        mlen == mantissa.len(),
        mlen > 0,
        all_digits(mantissa),
        flen > 0 ==> e + 1 + flen <= s@.len(),
        forall|i: int|
            0 <= i < mantissa.len() ==> #[trigger] mantissa[i] == (if i < e - start {
                s@[start + i]
            } else {
                s@[e + 1 + i - (e - start)]
            }),
        nz <==> dec_value(mantissa) >= 1,
        emag <= EXP_MAG_CAP ==> k == (if neg {
            -(emag as int)
        } else {
            emag as int
        }),
        emag > EXP_MAG_CAP ==> (if neg {
            k < -(EXP_MAG_CAP as int)
        } else {
            k > EXP_MAG_CAP as int
        }),
    ensures
        ({
            let shift = 6 + k - flen;
            let p = if shift >= 0 {
                dec_value(mantissa) * pow10(shift as nat)
            } else {
                dec_value(mantissa) / pow10((-shift) as nat)
            };
            v as int == if p > 1000000 {
                1000000
            } else {
                p
            }
        }),
        v <= 1000000,
{
    proof {
        lemma_pow10_table();
    }
    let ghost shift: int = 6 + k - flen;
    let ghost dv: int = dec_value(mantissa);
    proof {
        lemma_dec_value_nonneg(mantissa);
    }
    if emag > EXP_MAG_CAP {
        if neg {
            proof {
                assert(k < -(EXP_MAG_CAP as int));
                assert(mlen as int <= usize::MAX as int);
                assert(shift < 0);
                assert((-shift) as nat > mantissa.len());
                lemma_dec_value_bound(mantissa);
                lemma_pow10_mono(mantissa.len() as nat, (-shift) as nat);
                vstd::arithmetic::div_mod::lemma_basic_div(dv, pow10((-shift) as nat));
            }
            return 0;
        } else if nz {
            proof {
                assert(k > EXP_MAG_CAP as int);
                assert(flen as int <= usize::MAX as int);
                assert(shift >= 7);
                lemma_pow10_mono(7, shift as nat);
                assert(pow10(7) == 10 * pow10(6));
                assert(dv * pow10(shift as nat) >= pow10(shift as nat)) by (nonlinear_arith)
                    requires
                        dv >= 1,
                        pow10(shift as nat) >= 0,
                ;
            }
            return 1000000;
        } else {
            proof {
                assert(k > EXP_MAG_CAP as int);
                assert(flen as int <= usize::MAX as int);
                assert(shift >= 7);
                assert(dv == 0);
            }
            return 0;
        }
    }
    let shift_i: i128 = 6 - (flen as i128) + (if neg {
        -(emag as i128)
    } else {
        emag as i128
    });
    proof {
        assert(shift_i as int == shift);
    }
    if shift_i >= 7 {
        if nz {
            proof {
                lemma_pow10_mono(7, shift as nat);
                assert(pow10(7) == 10 * pow10(6));
                assert(dv * pow10(shift as nat) >= pow10(shift as nat)) by (nonlinear_arith)
                    requires
                        dv >= 1,
                        pow10(shift as nat) >= 0,
                ;
            }
            return 1000000;
        } else {
            return 0;
        }
    }
    let mut extra: usize = 0;
    let mut mlen_eff: usize = mlen;
    if shift_i >= 0 {
        extra = shift_i as usize;
    } else {
        let w128: u128 = (-shift_i) as u128;
        if w128 >= mlen as u128 {
            proof {
                lemma_dec_value_bound(mantissa);
                lemma_pow10_mono(mantissa.len() as nat, (-shift) as nat);
                lemma_pow10_pos((-shift) as nat);
                vstd::arithmetic::div_mod::lemma_basic_div(dv, pow10((-shift) as nat));
            }
            return 0;
        }
        let w: usize = w128 as usize;
        mlen_eff = mlen - w;
    }
    let ghost meff: Seq<char> = mantissa.subrange(0, mlen_eff as int);
    let ghost pval: int = if shift >= 0 {
        dv * pow10(shift as nat)
    } else {
        dv / pow10((-shift) as nat)
    };
    proof {
        if shift >= 0 {
            assert(meff =~= mantissa);
        } else {
            lemma_dec_value_div_pow10(mantissa, (-shift) as nat);
        }
        assert(pval == dec_value(meff) * pow10(extra as nat)) by {
            if shift >= 0 {
                assert(extra as int == shift);
            } else {
                assert(extra == 0);
                assert(pow10(0) == 1);
                assert(dec_value(meff) * 1 == dec_value(meff)) by (nonlinear_arith);
            }
        }
    }
    let v: u64 = mantissa_prefix_value(s, start, e, flen, mlen_eff, Ghost(mantissa));
    let pw: u64 = if extra == 0 {
        1
    } else if extra == 1 {
        10
    } else if extra == 2 {
        100
    } else if extra == 3 {
        1000
    } else if extra == 4 {
        10000
    } else if extra == 5 {
        100000
    } else {
        1000000
    };
    proof {
        lemma_pow10_table();
        assert(extra <= 6);
        assert(pw as int == pow10(extra as nat));
        assert(v * pw <= 10000000 * 1000000) by (nonlinear_arith)
            requires
                0 <= v <= 10000000,
                0 < pw <= 1000000,
        ;
        if v == 10000000 && dec_value(meff) >= 10000000 {
            assert(dec_value(meff) * pow10(extra as nat) >= dec_value(meff)) by (nonlinear_arith)
                requires
                    dec_value(meff) >= 0,
                    pow10(extra as nat) >= 1,
            ;
            assert(v * pw >= 10000000) by (nonlinear_arith)
                requires
                    v == 10000000,
                    pw >= 1,
            ;
            assert(pval > 1000000);
        } else {
            assert(v as int == dec_value(meff));
            assert(v * pw == dec_value(meff) * pow10(extra as nat));
        }
    }
    let p64: u64 = v * pw;
    if p64 > 1000000 {
        proof {
            assert(pval > 1000000);
        }
        1000000
    } else {
        proof {
            assert(p64 as int == pval);
        }
        p64 as u32
    }}

/// Parses an error rate written as a decimal number, yielding millionths
/// clamped to `[0, 1_000_000]`.
#[verifier::rlimit(100)]
pub fn parse_rate(s: &str) -> (r: Option<u32>)
    ensures
        r is Some <==> parse_rate_spec(s@) is Some,
        r matches Some(v) ==> parse_rate_spec(s@) == Some(v as int) && v <= 1000000,
{
    proof {
        lemma_pow10_table();
    }
    let len: usize = s.unicode_len();
    let start: usize = if len > 0 && s.get_char(0) == '+' {
        1
    } else {
        0
    };
    let ghost t: Seq<char> = unsigned_digits_of(s@);
    proof {
        assert(t =~= s@.subrange(start as int, len as int));
    }
    let sd = scan_digits(s, start);
    let e: usize = sd.0;
    let int_nz: bool = sd.1;
    let ghost e_t: int = e - start;
    proof {
        lemma_digit_run_end(s@, start as int);
        assert forall|k: int| 0 <= k < e_t implies is_digit(#[trigger] t[k]) by {
            assert(t[k] == s@[start + k]);
        }
        if (e as int) < len {
            assert(t[e_t] == s@[e as int]);
        }
        lemma_digit_run_end_is(t, 0, e_t);
    }
    let has_dot: bool = e < len && s.get_char(e) == '.';
    let mut f_end: usize = e;
    let mut frac_nz: bool = false;
    if has_dot {
        let fd = scan_digits(s, e + 1);
        f_end = fd.0;
        frac_nz = fd.1;
        proof {
            lemma_digit_run_end(s@, e + 1);
            assert forall|k: int| 0 <= k < f_end - (e + 1) implies is_digit(
                #[trigger] t[e_t + 1 + k],
            ) by {
                assert(t[e_t + 1 + k] == s@[e + 1 + k]);
            }
            if (f_end as int) < len {
                assert(t[f_end - start] == s@[f_end as int]);
            }
            lemma_digit_run_end_is(t, e_t + 1, f_end - start);
        }
    }
    let ghost f_t: int = f_end - start;
    let ghost mantissa: Seq<char> = if has_dot {
        t.subrange(0, e_t) + t.subrange(e_t + 1, f_t)
    } else {
        t.subrange(0, e_t)
    };
    let flen: usize = if has_dot {
        f_end - (e + 1)
    } else {
        0
    };
    let mlen: usize = (e - start) + flen;
    proof {
        assert(has_dot == (e_t < t.len() && t[e_t] == '.'));
        assert(mantissa.len() == mlen);
        assert forall|i: int|
            0 <= i < mantissa.len() implies #[trigger] mantissa[i] == (if i < e - start {
                s@[start + i]
            } else {
                s@[e + 1 + i - (e - start)]
            }) by {
            if i < e_t {
                assert(mantissa[i] == t[i]);
                assert(t[i] == s@[start + i]);
            } else {
                assert(mantissa[i] == t[i + 1]);
                assert(t[i + 1] == s@[start + i + 1]);
            }
        }
        assert(all_digits(mantissa)) by {
            assert forall|k: int| 0 <= k < mantissa.len() implies is_digit(
                #[trigger] mantissa[k],
            ) by {
                if k < e_t {
                    assert(mantissa[k] == t[k]);
                } else {
                    assert(mantissa[k] == t[k + 1]);
                }
            }
        }
        lemma_dec_value_nonneg(mantissa);
    }
    if mlen == 0 {
        return None;
    }
    let exp = scan_exponent(s, f_end, Ghost(start as int), Ghost(t));
    let pair = match exp {
        None => {
            return None;
        },
        Some(pr) => pr,
    };
    let neg: bool = pair.0;
    let emag: u128 = pair.1;
    let ghost k: int = parse_exp_spec(t, f_t)->0;
    let ghost dv: int = dec_value(mantissa);
    let nz: bool = int_nz || frac_nz;
    proof {
        if nz {
            if int_nz {
                let w = choose|w: int| start <= w < e && s@[w] != '0';
                assert(mantissa[w - start] == t[w - start]);
                assert(t[w - start] == s@[w]);
                lemma_dec_value_lower(mantissa, w - start);
                lemma_pow10_pos((mantissa.len() - 1 - (w - start)) as nat);
            } else {
                let w = choose|w: int| e + 1 <= w < f_end && s@[w] != '0';
                let idx = e_t + (w - (e + 1));
                assert(mantissa[idx] == t[idx + 1]);
                assert(t[idx + 1] == s@[w]);
                lemma_dec_value_lower(mantissa, idx);
                lemma_pow10_pos((mantissa.len() - 1 - idx) as nat);
            }
            assert(dv >= 1);
        } else {
            assert forall|i: int| 0 <= i < mantissa.len() implies #[trigger] mantissa[i]
                == '0' by {
                if i < e_t {
                    assert(mantissa[i] == t[i]);
                    assert(t[i] == s@[start + i]);
                } else {
                    assert(mantissa[i] == t[i + 1]);
                    assert(t[i + 1] == s@[e + 1 + (i - e_t)]);
                }
            }
            lemma_dec_value_all_zeros(mantissa);
            assert(dv == 0);
        }
    }
    proof {
        lemma_dec_value_nonneg(mantissa);
    }
    let v: u32 = rate_value(
        s,
        start,
        e,
        flen,
        mlen,
        neg,
        emag,
        nz,
        Ghost(mantissa),
        Ghost(k),
    );
    proof {
        assert(parse_rate_spec(s@) is Some);
    }
    Some(v)
}

pub open spec fn strip_trailing_zeros(s: Seq<char>) -> Seq<char>
    decreases s.len(),
{
    if s.len() > 0 && s.last() == '0' {
        strip_trailing_zeros(s.drop_last())
    } else {
        s
    }
}

/// The six fraction digits of a value in millionths, most significant first.
pub open spec fn frac_digits6(ppm: int) -> Seq<char> {
    Seq::new(6, |i: int| digit_char((ppm / pow10((5 - i) as nat)) % 10))
}

/// How an error rate in millionths reads as a decimal string: the integer
/// part, then a point and the fraction digits without trailing zeros, the
/// point and fraction omitted when the fraction is zero.
pub open spec fn rate_dec_str(ppm: int) -> Seq<char> {
    let frac = ppm % 1000000;
    if frac == 0 {
        u64_dec_str(ppm / 1000000)
    } else {
        u64_dec_str(ppm / 1000000) + seq!['.'] + strip_trailing_zeros(frac_digits6(frac))
    }
}

proof fn lemma_strip_at(s: Seq<char>, m: int)
    requires
        0 <= m < s.len(),
        s[m] != '0',
        forall|k: int| m < k < s.len() ==> #[trigger] s[k] == '0',
    ensures
        strip_trailing_zeros(s) == s.subrange(0, m + 1),
    decreases s.len(),
{
    if m + 1 == s.len() {
        assert(s.last() == s[m]);
        assert(s.subrange(0, m + 1) =~= s);
    } else {
        assert(s.last() == '0');
        lemma_strip_at(s.drop_last(), m);
        assert(s.drop_last().subrange(0, m + 1) =~= s.subrange(0, m + 1));
    }
}

/// Renders an error rate in millionths as its decimal string.
#[verifier::rlimit(100)]
pub fn rate_to_string(ppm: u32) -> (r: String)
    requires
        ppm <= 1000000,
    ensures
        r@ == rate_dec_str(ppm as int),
{
    proof {
        lemma_pow10_table();
    }
    if ppm == 1000000 || ppm == 0 {
        let w: u64 = if ppm == 0 {
            0
        } else {
            1
        };
        let s = u64_to_string(w);
        return s;
    }
    let d0: u32 = (ppm / 100000) % 10;
    let d1: u32 = (ppm / 10000) % 10;
    let d2: u32 = (ppm / 1000) % 10;
    let d3: u32 = (ppm / 100) % 10;
    let d4: u32 = (ppm / 10) % 10;
    let d5: u32 = ppm % 10;
    let ghost f: Seq<char> = frac_digits6(ppm as int);
    proof {
        assert(f[0] == digit_char(d0 as int));
        assert(f[1] == digit_char(d1 as int));
        assert(f[2] == digit_char(d2 as int));
        assert(f[3] == digit_char(d3 as int));
        assert(f[4] == digit_char(d4 as int));
        assert(f[5] == digit_char(d5 as int));
    }
    let last: usize = if d5 != 0 {
        5
    } else if d4 != 0 {
        4
    } else if d3 != 0 {
        3
    } else if d2 != 0 {
        2
    } else if d1 != 0 {
        1
    } else {
        0
    };
    proof {
        if d5 == 0 && d4 == 0 && d3 == 0 && d2 == 0 && d1 == 0 {
            assert(d0 != 0);
        }
        assert(f[last as int] != '0');
        assert(forall|k: int| last < k < 6 ==> #[trigger] f[k] == '0');
        lemma_strip_at(f, last as int);
    }
    let mut s = u64_to_string(0);
    proof {
        reveal_strlit(".");
    }
    s.append(".");
    s.append(digit_str(d0 as u64));
    if last >= 1 {
        s.append(digit_str(d1 as u64));
    }
    if last >= 2 {
        s.append(digit_str(d2 as u64));
    }
    if last >= 3 {
        s.append(digit_str(d3 as u64));
    }
    if last >= 4 {
        s.append(digit_str(d4 as u64));
    }
    if last >= 5 {
        s.append(digit_str(d5 as u64));
    }
    proof {
        assert((ppm as int) % 1000000 == ppm as int);
        assert((ppm as int) / 1000000 == 0);
        assert(s@ =~= u64_dec_str(0) + seq!['.'] + f.subrange(0, last as int + 1));
    }
    s
}

} // verus!
