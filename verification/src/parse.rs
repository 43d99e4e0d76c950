//! Turning raw delimited records into edges.
//!
//! A record is a list of fields, each a list of bytes.  A well-formed edge
//! record has exactly two fields, each an unsigned 32-bit decimal integer,
//! written as one or more digits after an optional leading plus sign.

use vstd::prelude::*;
use crate::ParseError;

verus! {

/// The byte of the plus sign.
pub open spec fn plus_byte() -> u8 {
    43
}

/// `s` is one or more decimal digit bytes.
pub open spec fn all_digits(s: Seq<u8>) -> bool {
    s.len() > 0 && forall|i: int| 0 <= i < s.len() ==> 48 <= #[trigger] s[i] <= 57
}

/// The digit run of a field: an optional leading plus sign is dropped.
pub open spec fn digits_of(s: Seq<u8>) -> Seq<u8> {
    if s.len() > 0 && s[0] == plus_byte() {
        s.skip(1)
    } else {
        s
    }
}

/// The numeric value of a run of digit bytes, most significant first.
pub open spec fn dec_value(s: Seq<u8>) -> int
    decreases s.len(),
{
    if s.len() == 0 {
        0
    } else {
        dec_value(s.drop_last()) * 10 + (s.last() - 48)
    }
}

/// The field holds an unsigned 32-bit decimal integer.
pub open spec fn valid_u32_field(s: Seq<u8>) -> bool {
    all_digits(digits_of(s)) && dec_value(digits_of(s)) <= u32::MAX
}

/// The number a valid field denotes.
pub open spec fn u32_field_value(s: Seq<u8>) -> int {
    dec_value(digits_of(s))
}

/// The value of a digit run is never negative.
proof fn lemma_dec_value_nonneg(s: Seq<u8>)
    requires
        forall|i: int| 0 <= i < s.len() ==> #[trigger] s[i] >= 48,
    ensures
        dec_value(s) >= 0,
    decreases s.len(),
{
    if s.len() > 0 {
        lemma_dec_value_nonneg(s.drop_last());
    }
}

/// Extending a digit run to the right never shrinks its value.
proof fn lemma_dec_value_prefix(s: Seq<u8>, k: int)
    requires
        0 <= k <= s.len(),
        forall|i: int| 0 <= i < s.len() ==> #[trigger] s[i] >= 48,
    ensures
        dec_value(s.take(k)) <= dec_value(s),
    decreases s.len() - k,
{
    if k == s.len() {
        assert(s.take(k) =~= s);
    } else {
        assert(s.take(k + 1).drop_last() =~= s.take(k));
        assert(s.take(k + 1).last() == s[k]);
        assert forall|i: int| 0 <= i < s.take(k).len() implies #[trigger] s.take(k)[i] >= 48 by {
            assert(s[i] >= 48);
        }
        lemma_dec_value_nonneg(s.take(k));
        assert(dec_value(s.take(k + 1)) == dec_value(s.take(k)) * 10 + (s[k] - 48));
        assert(dec_value(s.take(k)) * 10 >= dec_value(s.take(k))) by (nonlinear_arith)
            requires dec_value(s.take(k)) >= 0;
        lemma_dec_value_prefix(s, k + 1);
    }
}

/// Parse a field as an unsigned 32-bit decimal integer: one or more
/// digits after an optional leading plus sign, rejecting values above
/// `u32::MAX`.
pub fn parse_u32(field: &Vec<u8>) -> (r: Option<u32>)
    ensures
        r is Some <==> valid_u32_field(field@),
        r is Some ==> r->Some_0 as int == u32_field_value(field@),
{
    let n = field.len();
    let mut i: usize = 0;
    if n > 0 && field[0] == 43u8 {
        i = 1;
    }
    let ghost start = i as int;
    let ghost ds = digits_of(field@);
    proof {
        assert(ds =~= field@.skip(start));
    }
    if i >= n {
        proof {
            assert(ds.len() == 0);
        }
        return None;
    }
    let mut acc: u32 = 0;
    while i < n
        invariant
            0 <= start <= i as int <= n,
            n == field@.len(),
            start < n,
            ds == digits_of(field@),
            ds == field@.skip(start),
            ds.len() == n - start,
            forall|k: int| start <= k < i as int ==> 48 <= #[trigger] field@[k] <= 57,
            forall|k: int| 0 <= k < ds.len() ==> ds[k] == field@[k + start],
            acc as int == dec_value(field@.subrange(start, i as int)),
        decreases n - i,
    {
        let c = field[i];
        if c < 48 || c > 57 {
            proof {
                assert(ds[i - start] == c);
            }
            return None;
        }
        let d: u32 = (c - 48) as u32;
        if acc > (u32::MAX - d) / 10 {
            proof {
                // Even the digits seen so far outgrow `u32::MAX`, so if
                // the rest are digits at all the field's value does too.
                let pre = field@.subrange(start, i as int + 1);
                assert(pre.drop_last() =~= field@.subrange(start, i as int));
                assert(pre.last() == field@[i as int]);
                assert(dec_value(pre) == acc as int * 10 + d);
                assert(acc as int * 10 + d > u32::MAX) by (nonlinear_arith)
                    requires
                        acc > (u32::MAX - d) / 10,
                        0 <= d <= 9,
                        0 <= acc <= u32::MAX;
                if valid_u32_field(field@) {
                    assert(all_digits(ds));
                    assert forall|k: int| 0 <= k < field@.len() implies
                        #[trigger] field@[k] >= 43 by {
                        if k >= start {
                            assert(ds[k - start] >= 48);
                        }
                    }
                    assert forall|k: int| 0 <= k < pre.len() implies
                        #[trigger] pre[k] >= 48 by {
                        assert(ds[k] >= 48);
                        assert(pre[k] == field@[k + start]);
                    }
                    assert(field@.skip(start).take(i as int + 1 - start) =~= pre);
                    assert forall|k: int| 0 <= k < ds.len() implies #[trigger] ds[k] >= 48 by {}
                    lemma_dec_value_prefix(ds, i as int + 1 - start);
                    assert(dec_value(ds) >= dec_value(pre));
                    assert(false);
                }
            }
            return None;
        }
        proof {
            assert(acc as int * 10 + d <= u32::MAX) by (nonlinear_arith)
                requires
                    acc <= (u32::MAX - d) / 10,
                    0 <= d <= 9;
            let pre = field@.subrange(start, i as int + 1);
            assert(pre.drop_last() =~= field@.subrange(start, i as int));
            assert(pre.last() == field@[i as int]);
        }
        acc = acc * 10 + d;
        i += 1;
    }
    proof {
        assert(field@.subrange(start, n as int) =~= ds);
        assert forall|k: int| 0 <= k < ds.len() implies 48 <= #[trigger] ds[k] <= 57 by {
            assert(48 <= field@[k + start] <= 57);
        }
        assert(all_digits(ds));
    }
    Some(acc)
}

/// Turn a raw record into an edge: the record must have exactly two
/// fields, each an unsigned 32-bit decimal integer.  Any other record is
/// malformed.
pub fn parse_edge_record(fields: &Vec<Vec<u8>>) -> (r: Result<(u32, u32), ParseError>)
    ensures
        r is Ok <==> (fields@.len() == 2 && valid_u32_field(fields@[0]@)
            && valid_u32_field(fields@[1]@)),
        r is Ok ==> (r->Ok_0).0 as int == u32_field_value(fields@[0]@)
            && (r->Ok_0).1 as int == u32_field_value(fields@[1]@),
        r is Err ==> r->Err_0 == ParseError::MalformedRecord,
{
    if fields.len() != 2 {
        return Err(ParseError::MalformedRecord);
    }
    let a = match parse_u32(&fields[0]) {
        Some(v) => v,
        None => {
            return Err(ParseError::MalformedRecord);
        },
    };
    let b = match parse_u32(&fields[1]) {
        Some(v) => v,
        None => {
            return Err(ParseError::MalformedRecord);
        },
    };
    Ok((a, b))
}

} // verus!
