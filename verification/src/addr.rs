//! Verified validation of `host:port` backend addresses.
//!
//! A backend address is an IPv4 socket address in dotted-decimal form:
//! four octets separated by points, a colon, and a port. Every octet and
//! the port are decimal digit runs without leading zeros; octets are at
//! most 255 and the port is at most 65535.

use crate::text::{
    all_digits, dec_value, digit_run_end, lemma_dec_value_bound, lemma_digit_run_end,
    lemma_pow10_table, pow10, scan_digits,
};
use vstd::prelude::*;

verus! {

pub open spec fn valid_octet(s: Seq<char>) -> bool {
    &&& 1 <= s.len() <= 3
    &&& all_digits(s)
    &&& (s.len() == 1 || s[0] != '0')
    &&& dec_value(s) <= 255
}

pub open spec fn valid_port_str(s: Seq<char>) -> bool {
    &&& 1 <= s.len() <= 5
    &&& all_digits(s)
    &&& (s.len() == 1 || s[0] != '0')
    &&& dec_value(s) <= 65535
}

/// A well-formed IPv4 socket address string.
pub open spec fn valid_socket_addr(s: Seq<char>) -> bool {
    let e1 = digit_run_end(s, 0);
    let e2 = digit_run_end(s, e1 + 1);
    let e3 = digit_run_end(s, e2 + 1);
    let e4 = digit_run_end(s, e3 + 1);
    &&& e1 < s.len() && s[e1] == '.'
    &&& e2 < s.len() && s[e2] == '.'
    &&& e3 < s.len() && s[e3] == '.'
    &&& e4 < s.len() && s[e4] == ':'
    &&& digit_run_end(s, e4 + 1) == s.len()
    &&& valid_octet(s.subrange(0, e1))
    &&& valid_octet(s.subrange(e1 + 1, e2))
    &&& valid_octet(s.subrange(e2 + 1, e3))
    &&& valid_octet(s.subrange(e3 + 1, e4))
    &&& valid_port_str(s.subrange(e4 + 1, s.len() as int))
}

/// The value of a short digit segment `[from, to)` of `s`.
fn seg_value(s: &str, from: usize, to: usize) -> (v: u32)
    requires
        from <= to <= s@.len(),
        to - from <= 5,
        all_digits(s@.subrange(from as int, to as int)),
    ensures
        v == dec_value(s@.subrange(from as int, to as int)),
        v < 100000,
{
    let ghost seg: Seq<char> = s@.subrange(from as int, to as int);
    let mut v: u32 = 0;
    let mut i: usize = from;
    proof {
        assert(seg.subrange(0, 0) =~= Seq::<char>::empty());
        lemma_pow10_table();
    }
    while i < to
        invariant
            from <= i <= to <= s@.len(),
            to - from <= 5,
            seg == s@.subrange(from as int, to as int),
            all_digits(seg),
            v == dec_value(seg.subrange(0, i - from)),
            pow10(5) == 100000,
        decreases to - i,
    {
        let c: char = s.get_char(i);
        let ghost pre = seg.subrange(0, i - from);
        let ghost pre1 = seg.subrange(0, i + 1 - from);
        proof {
            assert(seg[i - from] == c);
            assert(pre1.drop_last() =~= pre);
            assert(pre1.last() == c);
            assert(all_digits(pre)) by {
                assert(forall|k: int| 0 <= k < pre.len() ==> pre[k] == seg[k]);
            }
            assert(all_digits(pre1)) by {
                assert(forall|k: int| 0 <= k < pre1.len() ==> pre1[k] == seg[k]);
            }
            lemma_dec_value_bound(pre);
            assert(pre.len() <= 4);
            assert(pow10(pre.len()) <= 10000) by {
                lemma_pow10_table();
                assert(pow10(0) <= pow10(1) <= pow10(2) <= pow10(3) <= pow10(4));
            }
        }
        let d: u32 = (c as u32) - ('0' as u32);
        v = v * 10 + d;
        i = i + 1;
    }
    proof {
        assert(seg.subrange(0, to - from) =~= seg);
        lemma_dec_value_bound(seg);
        assert(pow10(seg.len()) <= 100000) by {
            lemma_pow10_table();
            assert(pow10(0) <= pow10(1) <= pow10(2) <= pow10(3) <= pow10(4) <= pow10(5));
        }
    }
    v
}

/// Checks one digit segment against the octet grammar.
fn check_octet(s: &str, from: usize, to: usize) -> (b: bool)
    requires
        from <= to <= s@.len(),
        all_digits(s@.subrange(from as int, to as int)),
    ensures
        b == valid_octet(s@.subrange(from as int, to as int)),
{
    let l: usize = to - from;
    if l < 1 || l > 3 {
        return false;
    }
    if l > 1 && s.get_char(from) == '0' {
        proof {
            assert(s@.subrange(from as int, to as int)[0] == s@[from as int]);
        }
        return false;
    }
    proof {
        assert(s@.subrange(from as int, to as int)[0] == s@[from as int]);
    }
    seg_value(s, from, to) <= 255
}

/// Checks one digit segment against the port grammar.
fn check_port(s: &str, from: usize, to: usize) -> (b: bool)
    requires
        from <= to <= s@.len(),
        all_digits(s@.subrange(from as int, to as int)),
    ensures
        b == valid_port_str(s@.subrange(from as int, to as int)),
{
    let l: usize = to - from;
    if l < 1 || l > 5 {
        return false;
    }
    if l > 1 && s.get_char(from) == '0' {
        proof {
            assert(s@.subrange(from as int, to as int)[0] == s@[from as int]);
        }
        return false;
    }
    proof {
        assert(s@.subrange(from as int, to as int)[0] == s@[from as int]);
    }
    seg_value(s, from, to) <= 65535
}

/// Decides whether a string is a well-formed IPv4 socket address.
#[verifier::rlimit(60)]
pub fn check_socket_addr(s: &str) -> (b: bool)
    ensures
        b == valid_socket_addr(s@),
{
    let len: usize = s.unicode_len();
    let r1 = scan_digits(s, 0);
    let e1: usize = r1.0;
    if e1 >= len || s.get_char(e1) != '.' {
        return false;
    }
    let r2 = scan_digits(s, e1 + 1);
    let e2: usize = r2.0;
    if e2 >= len || s.get_char(e2) != '.' {
        return false;
    }
    let r3 = scan_digits(s, e2 + 1);
    let e3: usize = r3.0;
    if e3 >= len || s.get_char(e3) != '.' {
        return false;
    }
    let r4 = scan_digits(s, e3 + 1);
    let e4: usize = r4.0;
    if e4 >= len || s.get_char(e4) != ':' {
        return false;
    }
    let r5 = scan_digits(s, e4 + 1);
    let e5: usize = r5.0;
    if e5 != len {
        return false;
    }
    proof {
        lemma_digit_run_end(s@, 0);
        lemma_digit_run_end(s@, e1 + 1);
        lemma_digit_run_end(s@, e2 + 1);
        lemma_digit_run_end(s@, e3 + 1);
        lemma_digit_run_end(s@, e4 + 1);
        assert(all_digits(s@.subrange(0, e1 as int))) by {
            assert(forall|k: int|
                0 <= k < e1 ==> s@.subrange(0, e1 as int)[k] == s@[k]);
        }
        assert(all_digits(s@.subrange(e1 + 1, e2 as int))) by {
            assert(forall|k: int|
                0 <= k < e2 - (e1 + 1) ==> #[trigger] s@.subrange(e1 + 1, e2 as int)[k] == s@[e1 + 1 + k]);
        }
        assert(all_digits(s@.subrange(e2 + 1, e3 as int))) by {
            assert(forall|k: int|
                0 <= k < e3 - (e2 + 1) ==> #[trigger] s@.subrange(e2 + 1, e3 as int)[k] == s@[e2 + 1 + k]);
        }
        assert(all_digits(s@.subrange(e3 + 1, e4 as int))) by {
            assert(forall|k: int|
                0 <= k < e4 - (e3 + 1) ==> #[trigger] s@.subrange(e3 + 1, e4 as int)[k] == s@[e3 + 1 + k]);
        }
        assert(all_digits(s@.subrange(e4 + 1, len as int))) by {
            assert(forall|k: int|
                0 <= k < len - (e4 + 1) ==> #[trigger] s@.subrange(e4 + 1, len as int)[k] == s@[e4 + 1 + k]);
        }
    }
    if !check_octet(s, 0, e1) {
        return false;
    }
    if !check_octet(s, e1 + 1, e2) {
        return false;
    }
    if !check_octet(s, e2 + 1, e3) {
        return false;
    }
    if !check_octet(s, e3 + 1, e4) {
        return false;
    }
    check_port(s, e4 + 1, len)
}

} // verus!
