//! Reading one trace line: `r` or `w`, whitespace, then an address token
//! whose first two characters are skipped and whose rest is hexadecimal.
use vstd::prelude::*;

use crate::definitions::AccessType;

verus! {

/// ASCII whitespace: space, tab, line feed, vertical tab, form feed,
/// carriage return.
pub open spec fn is_space(b: u8) -> bool {
    b == 32 || (9 <= b && b <= 13)
}

/// The first position at or after `i` that holds no whitespace, or the end.
pub open spec fn skip_spaces(s: Seq<u8>, i: int) -> int
    decreases s.len() - i,
{
    if i >= s.len() || i < 0 {
        i
    } else if is_space(s[i]) {
        skip_spaces(s, i + 1)
    } else {
        i
    }
}

/// The first position at or after `i` that holds whitespace, or the end.
pub open spec fn token_end(s: Seq<u8>, i: int) -> int
    decreases s.len() - i,
{
    if i >= s.len() || i < 0 {
        i
    } else if !is_space(s[i]) {
        token_end(s, i + 1)
    } else {
        i
    }
}

/// The value of a hexadecimal digit.
pub open spec fn hex_digit(b: u8) -> Option<nat> {
    if 48 <= b && b <= 57 {
        Some((b - 48) as nat)
    } else if 97 <= b && b <= 102 {
        Some((b - 87) as nat)
    } else if 65 <= b && b <= 70 {
        Some((b - 55) as nat)
    } else {
        None
    }
}

pub open spec fn all_hex(d: Seq<u8>) -> bool {
    forall|i: int| 0 <= i < d.len() ==> (#[trigger] hex_digit(d[i])) is Some
}

/// The number that a string of hexadecimal digits writes.
pub open spec fn hex_value(d: Seq<u8>) -> nat
    decreases d.len(),
{
    if d.len() == 0 {
        0
    } else {
        hex_value(d.drop_last()) * 16 + hex_digit(d.last()).unwrap_or(0)
    }
}

/// Base-16 reading of `d` into a `u64`: one optional `+`, then at least one
/// hexadecimal digit, and a value that fits.
pub open spec fn hex_u64(d: Seq<u8>) -> Option<u64> {
    let body = if d.len() > 0 && d[0] == 43 { d.drop_first() } else { d };
    if body.len() > 0 && all_hex(body) && hex_value(body) <= u64::MAX {
        Some(hex_value(body) as u64)
    } else {
        None
    }
}

/// The access a trace line describes, or `None` for a line to skip.
pub open spec fn parsed_line(s: Seq<u8>) -> Option<(AccessType, u64)> {
    let a1 = skip_spaces(s, 0);
    let e1 = token_end(s, a1);
    let a2 = skip_spaces(s, e1);
    let e2 = token_end(s, a2);
    let op = s.subrange(a1, e1);
    let addr = s.subrange(a2, e2);
    let kind = if op == seq![114u8] {
        Some(AccessType::Read)
    } else if op == seq![119u8] {
        Some(AccessType::Write)
    } else {
        None
    };
    if kind is Some && addr.len() >= 2 && hex_u64(addr.subrange(2, addr.len() as int)) is Some {
        Some((kind.unwrap(), hex_u64(addr.subrange(2, addr.len() as int)).unwrap()))
    } else {
        None
    }
}

proof fn lemma_skip_bounds(s: Seq<u8>, i: int)
    requires
        0 <= i <= s.len(),
    ensures
        i <= skip_spaces(s, i) <= s.len(),
        i <= token_end(s, i) <= s.len(),
    decreases s.len() - i,
{
    if i < s.len() {
        lemma_skip_bounds(s, i + 1);
    }
}

fn skip_spaces_from(s: &[u8], start: usize) -> (r: usize)
    requires
        start <= s@.len(),
    ensures
        r == skip_spaces(s@, start as int),
{
    let mut i = start;
    while i < s.len() && (s[i] == 32 || (9 <= s[i] && s[i] <= 13))
        invariant
            start <= i <= s@.len(),
            skip_spaces(s@, i as int) == skip_spaces(s@, start as int),
        decreases s@.len() - i,
    {
        i += 1;
    }
    i
}

fn token_end_from(s: &[u8], start: usize) -> (r: usize)
    requires
        start <= s@.len(),
    ensures
        r == token_end(s@, start as int),
{
    let mut i = start;
    while i < s.len() && !(s[i] == 32 || (9 <= s[i] && s[i] <= 13))
        invariant
            start <= i <= s@.len(),
            token_end(s@, i as int) == token_end(s@, start as int),
        decreases s@.len() - i,
    {
        i += 1;
    }
    i
}

fn hex_digit_of(b: u8) -> (r: Option<u64>)
    ensures
        match hex_digit(b) {
            Some(v) => r == Some(v as u64),
            None => r is None,
        },
{
    if 48 <= b && b <= 57 {
        Some((b - 48) as u64)
    } else if 97 <= b && b <= 102 {
        Some((b - 87) as u64)
    } else if 65 <= b && b <= 70 {
        Some((b - 55) as u64)
    } else {
        None
    }
}

/// A longer string of digits writes at least as large a number.
proof fn lemma_hex_prefix(d: Seq<u8>, i: int)
    requires
        0 <= i <= d.len(),
    ensures
        hex_value(d.subrange(0, i)) <= hex_value(d),
    decreases d.len() - i,
{
    if i < d.len() {
        lemma_hex_prefix(d, i + 1);
        let p = d.subrange(0, i + 1);
        assert(p.drop_last() =~= d.subrange(0, i));
        let x = hex_value(d.subrange(0, i));
        let y = hex_digit(p.last()).unwrap_or(0);
        assert(x <= x * 16 + y) by (nonlinear_arith);
    } else {
        assert(d.subrange(0, i) =~= d);
    }
}

/// Reads the hexadecimal number in `s[start..end]`, with one optional `+`.
fn parse_hex(s: &[u8], start: usize, end: usize) -> (r: Option<u64>)
    requires
        start <= end <= s@.len(),
    ensures
        r == hex_u64(s@.subrange(start as int, end as int)),
{
    let ghost d = s@.subrange(start as int, end as int);
    let mut i = start;
    if i < end && s[i] == 43 {
        i += 1;
    }
    let ghost body = s@.subrange(i as int, end as int);
    assert(body == if d.len() > 0 && d[0] == 43 { d.drop_first() } else { d });
    if i == end {
        return None;
    }
    let first = i;
    let mut acc: u64 = 0;
    assert(body.subrange(0, 0) =~= Seq::<u8>::empty());
    assert(hex_u64(d) == (if body.len() > 0 && all_hex(body) && hex_value(body) <= u64::MAX {
        Some(hex_value(body) as u64)
    } else {
        None
    }));
    while i < end
        invariant
            first <= i <= end <= s@.len(),
            d == s@.subrange(start as int, end as int),
            body.len() > 0,
            hex_u64(d) == (if body.len() > 0 && all_hex(body) && hex_value(body) <= u64::MAX {
                Some(hex_value(body) as u64)
            } else {
                None
            }),
            body == s@.subrange(first as int, end as int),
            acc == hex_value(body.subrange(0, i - first)),
            all_hex(body.subrange(0, i - first)),
        decreases end - i,
    {
        let ghost k = i - first;
        assert(body.subrange(0, k + 1).drop_last() =~= body.subrange(0, k));
        assert(body[k] == s@[i as int]);
        match hex_digit_of(s[i]) {
            None => {
                assert(hex_digit(body[k]) is None);
                assert(!all_hex(body));
                return None;
            },
            Some(v) => {
                if acc > (u64::MAX - v) / 16 {
                    proof {
                        lemma_hex_prefix(body, k + 1);
                        let m = u64::MAX as int;
                        let a = acc as int;
                        let w = v as int;
                        assert(a * 16 + w > m) by (nonlinear_arith)
                            requires a > (m - w) / 16, 0 <= w <= 15, m > 15;
                        assert(hex_value(body.subrange(0, k + 1)) == a * 16 + w);
                    }
                    return None;
                }
                acc = acc * 16 + v;
                assert forall|j: int| 0 <= j < k + 1 implies (#[trigger] hex_digit(
                    body.subrange(0, k + 1)[j],
                )) is Some by {
                    if j < k {
                        assert(body.subrange(0, k + 1)[j] == body.subrange(0, k)[j]);
                    }
                }
            },
        }
        i += 1;
    }
    assert(body.subrange(0, end - first) =~= body);
    Some(acc)
}

/// Parses one trace line: `r` or `w`, then an address token of which the
/// first two characters are skipped and the rest is read in base 16.
/// Anything else yields `None`.
pub fn parse_trace_line(line: &[u8]) -> (r: Option<(AccessType, u64)>)
    ensures
        r == parsed_line(line@),
{
    let s = line;
    proof {
        lemma_skip_bounds(s@, 0);
    }
    let a1 = skip_spaces_from(s, 0);
    proof {
        lemma_skip_bounds(s@, a1 as int);
    }
    let e1 = token_end_from(s, a1);
    proof {
        lemma_skip_bounds(s@, e1 as int);
    }
    let a2 = skip_spaces_from(s, e1);
    proof {
        lemma_skip_bounds(s@, a2 as int);
    }
    let e2 = token_end_from(s, a2);
    let ghost op = s@.subrange(a1 as int, e1 as int);
    let kind = if e1 - a1 == 1 && s[a1] == 114 {
        assert(op =~= seq![114u8]);
        AccessType::Read
    } else if e1 - a1 == 1 && s[a1] == 119 {
        assert(op =~= seq![119u8]);
        assert(op != seq![114u8]) by {
            assert(op[0] != seq![114u8][0]);
        }
        AccessType::Write
    } else {
        assert(op != seq![114u8] && op != seq![119u8]) by {
            assert(seq![114u8].len() == 1 && seq![119u8].len() == 1);
            if e1 - a1 == 1 {
                assert(op[0] == s@[a1 as int]);
                assert(op[0] != seq![114u8][0]);
                assert(op[0] != seq![119u8][0]);
            }
        }
        return None;
    };
    if e2 - a2 < 2 {
        return None;
    }
    let ghost addr = s@.subrange(a2 as int, e2 as int);
    assert(addr.subrange(2, addr.len() as int) =~= s@.subrange(a2 + 2, e2 as int));
    match parse_hex(s, a2 + 2, e2) {
        Some(address) => Some((kind, address)),
        None => None,
    }
}

} // verus!
