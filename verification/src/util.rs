//! Small parsing and formatting helpers for the host-binding surface:
//! direction-filter vocabulary, non-negative bound checking, and base-10
//! node-id parsing.

use vstd::prelude::*;

use crate::reachability::{Direction, TraversalDirection};
use vstd::string::StringSliceAdditionalSpecFns;

verus! {

/// ASCII lower-casing of one byte.
pub open spec fn lower_byte(b: u8) -> u8 {
    if 65 <= b <= 90 {
        (b + 32) as u8
    } else {
        b
    }
}

/// ASCII lower-casing of a byte string.
pub open spec fn lower_bytes(bs: Seq<u8>) -> Seq<u8> {
    bs.map(|i: int, b: u8| lower_byte(b))
}

/// The UTF-8 bytes of the accepted direction spellings, lower case.
pub open spec fn spelling_outgoing() -> Seq<u8> {
    seq![111u8, 117u8, 116u8, 103u8, 111u8, 105u8, 110u8, 103u8]
}

pub open spec fn spelling_out() -> Seq<u8> {
    seq![111u8, 117u8, 116u8]
}

pub open spec fn spelling_incoming() -> Seq<u8> {
    seq![105u8, 110u8, 99u8, 111u8, 109u8, 105u8, 110u8, 103u8]
}

pub open spec fn spelling_in() -> Seq<u8> {
    seq![105u8, 110u8]
}

pub open spec fn spelling_both() -> Seq<u8> {
    seq![98u8, 111u8, 116u8, 104u8]
}

/// The direction filter a string selects, case-insensitively:
/// `outgoing`/`out`, `incoming`/`in`, or `both`.
pub open spec fn spec_parse_direction(bs: Seq<u8>) -> Option<TraversalDirection> {
    let l = lower_bytes(bs);
    if l == spelling_outgoing() || l == spelling_out() {
        Some(TraversalDirection::Outgoing)
    } else if l == spelling_incoming() || l == spelling_in() {
        Some(TraversalDirection::Incoming)
    } else if l == spelling_both() {
        Some(TraversalDirection::Both)
    } else {
        None
    }
}

fn lower_byte_x(b: u8) -> (r: u8)
    ensures
        r == lower_byte(b),
{
    if b >= 65 && b <= 90 {
        b + 32
    } else {
        b
    }
}

fn lowered(s: &str) -> (r: Vec<u8>)
    ensures
        r@ == lower_bytes(s.spec_bytes()),
{
    let bs = s.as_bytes();
    let n = bs.len();
    let mut out: Vec<u8> = Vec::new();
    for i in 0..n
        invariant
            n == bs@.len(),
            bs@ == s.spec_bytes(),
            out@ == lower_bytes(bs@.take(i as int)),
    {
        out.push(lower_byte_x(bs[i]));
        proof {
            assert(out@ =~= lower_bytes(bs@.take(i + 1)));
        }
    }
    proof {
        assert(bs@.take(n as int) =~= bs@);
    }
    out
}

fn bytes_eq(a: &Vec<u8>, b: &Vec<u8>) -> (r: bool)
    ensures
        r == (a@ == b@),
{
    if a.len() != b.len() {
        return false;
    }
    let n = a.len();
    for i in 0..n
        invariant
            n == a@.len(),
            n == b@.len(),
            forall|j: int| 0 <= j < i ==> a@[j] == b@[j],
    {
        if a[i] != b[i] {
            return false;
        }
    }
    proof {
        assert(a@ =~= b@);
    }
    true
}

/// Parse a direction-filter string, case-insensitively:
/// `outgoing`/`out`, `incoming`/`in`, or `both`. Unknown spellings are
/// rejected with `None`.
pub fn parse_direction(s: &str) -> (r: Option<TraversalDirection>)
    ensures
        r == spec_parse_direction(s.spec_bytes()),
{
    let l = lowered(s);
    let mut pat: Vec<u8> = Vec::new();
    pat.push(111);
    pat.push(117);
    pat.push(116);
    pat.push(103);
    pat.push(111);
    pat.push(105);
    pat.push(110);
    pat.push(103);
    proof {
        assert(pat@ =~= spelling_outgoing());
    }
    if bytes_eq(&l, &pat) {
        return Some(TraversalDirection::Outgoing);
    }
    pat.truncate(3);
    proof {
        assert(pat@ =~= spelling_out());
    }
    if bytes_eq(&l, &pat) {
        return Some(TraversalDirection::Outgoing);
    }
    let mut pat2: Vec<u8> = Vec::new();
    pat2.push(105);
    pat2.push(110);
    pat2.push(99);
    pat2.push(111);
    pat2.push(109);
    pat2.push(105);
    pat2.push(110);
    pat2.push(103);
    proof {
        assert(pat2@ =~= spelling_incoming());
    }
    if bytes_eq(&l, &pat2) {
        return Some(TraversalDirection::Incoming);
    }
    pat2.truncate(2);
    proof {
        assert(pat2@ =~= spelling_in());
    }
    if bytes_eq(&l, &pat2) {
        return Some(TraversalDirection::Incoming);
    }
    let mut pat3: Vec<u8> = Vec::new();
    pat3.push(98);
    pat3.push(111);
    pat3.push(116);
    pat3.push(104);
    proof {
        assert(pat3@ =~= spelling_both());
    }
    if bytes_eq(&l, &pat3) {
        return Some(TraversalDirection::Both);
    }
    None
}

/// The string a traversed direction renders as.
pub fn direction_str(d: Direction) -> (r: String)
    ensures
        d == Direction::Outgoing ==> r@ == "outgoing"@,
        d == Direction::Incoming ==> r@ == "incoming"@,
{
    match d {
        Direction::Outgoing => "outgoing".to_owned(),
        Direction::Incoming => "incoming".to_owned(),
    }
}

/// Check that a depth or hop bound is non-negative, converting it.
pub fn check_non_negative(value: i32) -> (r: Option<u32>)
    ensures
        value >= 0 ==> r == Some(value as u32),
        value < 0 ==> r is None,
{
    if value >= 0 {
        Some(value as u32)
    } else {
        None
    }
}

/// Value of a base-10 digit string.
pub open spec fn dec_value(bs: Seq<u8>) -> nat
    decreases bs.len(),
{
    if bs.len() == 0 {
        0
    } else {
        (dec_value(bs.drop_last()) * 10 + (bs.last() - 48)) as nat
    }
}

pub open spec fn all_digits(bs: Seq<u8>) -> bool {
    forall|i: int| 0 <= i < bs.len() ==> 48 <= #[trigger] bs[i] <= 57
}

/// The node id a base-10 string denotes: optional leading `+`, then one or
/// more digits, rejecting overflow.
pub open spec fn spec_parse_u64(bs: Seq<u8>) -> Option<u64> {
    let digits = if bs.len() >= 1 && bs[0] == 43 {
        bs.drop_first()
    } else {
        bs
    };
    if digits.len() >= 1 && all_digits(digits) && dec_value(digits) <= u64::MAX {
        Some(dec_value(digits) as u64)
    } else {
        None
    }
}

/// Once a digit prefix exceeds the range, every extension does.
proof fn lemma_dec_value_prefix(bs: Seq<u8>, i: int)
    requires
        0 <= i <= bs.len(),
        all_digits(bs),
    ensures
        dec_value(bs.take(i)) <= dec_value(bs),
    decreases bs.len() - i,
{
    if i < bs.len() {
        lemma_dec_value_prefix(bs, i + 1);
        assert(bs.take(i + 1).drop_last() =~= bs.take(i));
        assert(bs.take(i + 1).last() == bs[i]);
        assert(dec_value(bs.take(i + 1)) == dec_value(bs.take(i)) * 10 + (bs[i] - 48));
        assert(dec_value(bs.take(i)) <= dec_value(bs.take(i)) * 10 + (bs[i] - 48)) by (
        nonlinear_arith)
            requires
                48 <= bs[i] <= 57,
        ;
    } else {
        assert(bs.take(i) =~= bs);
    }
}

/// Parse a base-10 node id: optional leading `+`, then digits.
pub fn parse_node_id(s: &str) -> (r: Option<u64>)
    ensures
        r == spec_parse_u64(s.spec_bytes()),
{
    let bs = s.as_bytes();
    let n = bs.len();
    if n == 0 {
        return None;
    }
    let from: usize = if bs[0] == 43 {
        1
    } else {
        0
    };
    let ghost digits = if bs@[0] == 43 {
        bs@.drop_first()
    } else {
        bs@
    };
    proof {
        assert(digits =~= bs@.subrange(from as int, n as int));
    }
    if from == n {
        return None;
    }
    let mut acc: u64 = 0;
    for i in from..n
        invariant
            n == bs@.len(),
            bs@ == s.spec_bytes(),
            from <= i <= n,
            from < n,
            from == 0 || from == 1,
            from == 1 ==> bs@[0] == 43,
            from == 0 ==> bs@[0] != 43,
            digits == bs@.subrange(from as int, n as int),
            all_digits(bs@.subrange(from as int, i as int)),
            acc == dec_value(bs@.subrange(from as int, i as int)),
    {
        let b = bs[i];
        if b < 48 || b > 57 {
            proof {
                assert(digits[i - from] == bs@[i as int]);
                assert(!all_digits(digits));
            }
            return None;
        }
        let d = (b - 48) as u64;
        if acc > (u64::MAX - d) / 10 {
            proof {
                let pre = bs@.subrange(from as int, i as int);
                let pre1 = bs@.subrange(from as int, i + 1);
                assert(pre1.drop_last() =~= pre);
                assert(pre1.last() == bs@[i as int]);
                assert(dec_value(pre1) == dec_value(pre) * 10 + (bs@[i as int] - 48));
                assert(dec_value(pre) * 10 + d > u64::MAX) by (nonlinear_arith)
                    requires
                        dec_value(pre) > ((u64::MAX - d) / 10) as nat,
                        (u64::MAX - d) / 10 == (u64::MAX - d) as int / 10,
                        0 <= d <= 9,
                ;
                if all_digits(digits) {
                    lemma_dec_value_prefix(digits, i + 1 - from);
                    assert(digits.take(i + 1 - from) =~= pre1);
                    assert(dec_value(digits) > u64::MAX);
                }
                assert(s.spec_bytes().len() >= 1);
                assert(digits == (if s.spec_bytes().len() >= 1 && s.spec_bytes()[0] == 43 {
                    s.spec_bytes().drop_first()
                } else {
                    s.spec_bytes()
                })) by {
                    if from == 1 {
                        assert(bs@.drop_first() =~= bs@.subrange(1, n as int));
                    } else {
                        assert(bs@ =~= bs@.subrange(0, n as int));
                    }
                }
                assert(spec_parse_u64(s.spec_bytes()) is None);
            }
            return None;
        }
        proof {
            assert(acc * 10 + d <= u64::MAX) by (nonlinear_arith)
                requires
                    acc <= ((u64::MAX - d) / 10) as nat,
                    (u64::MAX - d) / 10 == (u64::MAX - d) as int / 10,
                    0 <= d <= 9,
            ;
        }
        acc = acc * 10 + d;
        proof {
            let pre = bs@.subrange(from as int, i as int);
            let pre1 = bs@.subrange(from as int, i + 1);
            assert(pre1.drop_last() =~= pre);
            assert(pre1.last() == bs@[i as int]);
            assert forall|t: int| 0 <= t < pre1.len() implies 48 <= #[trigger] pre1[t] <= 57 by {
                if t < pre1.len() - 1 {
                    assert(pre1[t] == pre[t]);
                }
            }
        }
    }
    proof {
        assert(bs@.subrange(from as int, n as int) =~= digits);
        assert(digits.len() >= 1);
        assert(all_digits(digits));
        assert(acc == dec_value(digits));
    }
    Some(acc)
}

} // verus!
