use vstd::arithmetic::div_mod::lemma_fundamental_div_mod;
use vstd::prelude::*;

use crate::errors::StoreError;

verus! {

// ---------------------------------------------------------------------------
// Decimal text
// ---------------------------------------------------------------------------

/// An ASCII decimal digit byte, `'0'` through `'9'`.
pub open spec fn is_digit(b: u8) -> bool {
    48 <= b && b <= 57
}

/// The decimal digit bytes of `n`, most significant first.
pub open spec fn dec_digits(n: nat) -> Seq<u8>
    decreases n,
{
    if n < 10 {
        seq![(48 + n) as u8]
    } else {
        dec_digits(n / 10).push((48 + n % 10) as u8)
    }
}

/// The decimal text of an integer: a leading `'-'` for negatives, then digits.
pub open spec fn dec_int(n: int) -> Seq<u8> {
    if n < 0 {
        seq![45u8] + dec_digits((-n) as nat)
    } else {
        dec_digits(n as nat)
    }
}

/// The value of a digit sequence read as a decimal numeral.
pub open spec fn dec_val(s: Seq<u8>) -> int
    decreases s.len(),
{
    if s.len() == 0 {
        0
    } else {
        dec_val(s.drop_last()) * 10 + (s.last() - 48)
    }
}

/// A non-empty sequence of decimal digit bytes.
pub open spec fn all_digits(s: Seq<u8>) -> bool {
    s.len() >= 1 && forall|i: int| 0 <= i < s.len() ==> is_digit(#[trigger] s[i])
}

/// What a field parses to as a decimal integer: an optional leading minus
/// sign, then at least one digit; anything else is rejected.
pub open spec fn parse_int(s: Seq<u8>) -> Option<int> {
    if s.len() >= 2 && s[0] == 45 && all_digits(s.skip(1)) {
        Some(-dec_val(s.skip(1)))
    } else if all_digits(s) {
        Some(dec_val(s))
    } else {
        None
    }
}

pub proof fn lemma_dec_digits_wf(n: nat)
    ensures
        dec_digits(n).len() >= 1,
        all_digits(dec_digits(n)),
    decreases n,
{
    if n >= 10 {
        lemma_dec_digits_wf(n / 10);
    }
}

pub proof fn lemma_dec_digits_val(n: nat)
    ensures
        dec_val(dec_digits(n)) == n,
    decreases n,
{
    if n < 10 {
        assert(dec_digits(n).drop_last() =~= Seq::<u8>::empty());
        assert(dec_val(Seq::<u8>::empty()) == 0);
        assert(dec_digits(n).last() == (48 + n) as u8);
        assert((48 + n) as u8 == 48 + n);
        assert(dec_val(dec_digits(n)) == dec_val(Seq::<u8>::empty()) * 10 + (48 + n) - 48);
    } else {
        lemma_dec_digits_val(n / 10);
        assert(dec_digits(n).drop_last() =~= dec_digits(n / 10));
        assert(dec_digits(n).last() == (48 + n % 10) as u8);
        assert((48 + n % 10) as u8 == 48 + n % 10);
        lemma_fundamental_div_mod(n as int, 10);
        assert(dec_val(dec_digits(n)) == (n / 10) * 10 + n % 10);
    }
}

/// The decimal text of an integer parses back to that integer.
pub proof fn lemma_parse_dec_int(n: int)
    ensures
        parse_int(dec_int(n)) == Some(n),
{
    if n < 0 {
        let d = dec_digits((-n) as nat);
        lemma_dec_digits_wf((-n) as nat);
        lemma_dec_digits_val((-n) as nat);
        let s = seq![45u8] + d;
        assert(s.skip(1) =~= d);
        assert(s[0] == 45);
    } else {
        lemma_dec_digits_wf(n as nat);
        lemma_dec_digits_val(n as nat);
        let s = dec_digits(n as nat);
        assert(is_digit(s[0]));
    }
}

/// Appends the decimal digits of `n` to `out`.
pub fn push_decimal_u64(n: u64, out: &mut Vec<u8>)
    ensures
        final(out)@ == old(out)@ + dec_digits(n as nat),
    decreases n,
{
    if n < 10 {
        out.push(48 + (n as u8));
        assert(out@ =~= old(out)@ + dec_digits(n as nat));
    } else {
        push_decimal_u64(n / 10, out);
        let d: u8 = (n % 10) as u8;
        out.push(48 + d);
        assert(out@ =~= old(out)@ + dec_digits(n as nat));
    }
}

/// Appends the decimal text of `n` (sign included) to `out`.
pub fn push_decimal_i32(n: i32, out: &mut Vec<u8>)
    ensures
        final(out)@ == old(out)@ + dec_int(n as int),
{
    if n < 0 {
        out.push(45);
        let m: i64 = -(n as i64);
        assert(m as u64 as nat == (-(n as int)) as nat);
        push_decimal_u64(m as u64, out);
        assert(out@ =~= old(out)@ + dec_int(n as int));
    } else {
        push_decimal_u64(n as u64, out);
    }
}

/// The decimal text of `n` as a fresh byte vector.
pub fn u64_to_decimal(n: u64) -> (r: Vec<u8>)
    ensures
        r@ == dec_digits(n as nat),
{
    let mut out: Vec<u8> = Vec::new();
    push_decimal_u64(n, &mut out);
    assert(out@ =~= dec_digits(n as nat));
    out
}

/// The decimal text of `n` (sign included) as a fresh byte vector.
pub fn i32_to_decimal(n: i32) -> (r: Vec<u8>)
    ensures
        r@ == dec_int(n as int),
{
    let mut out: Vec<u8> = Vec::new();
    push_decimal_i32(n, &mut out);
    assert(out@ =~= dec_int(n as int));
    out
}

// ---------------------------------------------------------------------------
// Byte helpers
// ---------------------------------------------------------------------------

/// Appends all of `src` to `dst`.
pub fn push_bytes(dst: &mut Vec<u8>, src: &[u8])
    ensures
        final(dst)@ == old(dst)@ + src@,
{
    let mut i: usize = 0;
    while i < src.len()
        invariant
            i <= src@.len(),
            dst@ == old(dst)@ + src@.take(i as int),
        decreases src@.len() - i,
    {
        dst.push(src[i]);
        assert(dst@ =~= old(dst)@ + src@.take(i as int + 1));
        i = i + 1;
    }
    assert(src@.take(src@.len() as int) =~= src@);
}

/// Copies `s[start..end]` into a fresh vector.
pub fn copy_range(s: &[u8], start: usize, end: usize) -> (r: Vec<u8>)
    requires
        start <= end <= s@.len(),
    ensures
        r@ == s@.subrange(start as int, end as int),
{
    let mut out: Vec<u8> = Vec::new();
    let mut i: usize = start;
    while i < end
        invariant
            start <= i <= end <= s@.len(),
            out@ == s@.subrange(start as int, i as int),
        decreases end - i,
    {
        out.push(s[i]);
        assert(out@ =~= s@.subrange(start as int, i as int + 1));
        i = i + 1;
    }
    out
}

// ---------------------------------------------------------------------------
// Field trimming and splitting
// ---------------------------------------------------------------------------

/// A padding byte: space or NUL.
pub open spec fn is_pad(b: u8) -> bool {
    b == 32 || b == 0
}

/// `s` with trailing space and NUL padding dropped.
pub open spec fn trim_end_pad(s: Seq<u8>) -> Seq<u8>
    decreases s.len(),
{
    if s.len() > 0 && is_pad(s.last()) {
        trim_end_pad(s.drop_last())
    } else {
        s
    }
}

/// The end index of `s[start..end]` once trailing space and NUL padding is
/// dropped.
pub fn trimmed_end(s: &[u8], start: usize, end: usize) -> (e: usize)
    requires
        start <= end <= s@.len(),
    ensures
        start <= e <= end,
        s@.subrange(start as int, e as int) == trim_end_pad(
            s@.subrange(start as int, end as int),
        ),
{
    let mut e: usize = end;
    while e > start && (s[e - 1] == 32 || s[e - 1] == 0)
        invariant
            start <= e <= end <= s@.len(),
            trim_end_pad(s@.subrange(start as int, e as int)) == trim_end_pad(
                s@.subrange(start as int, end as int),
            ),
        decreases e,
    {
        assert(s@.subrange(start as int, e as int - 1) =~= s@.subrange(
            start as int,
            e as int,
        ).drop_last());
        e = e - 1;
    }
    assert(trim_end_pad(s@.subrange(start as int, e as int)) == s@.subrange(
        start as int,
        e as int,
    ));
    e
}

/// The index of the first comma of `s` at or after `from`, or `s.len()` if
/// there is none.
pub open spec fn first_comma(s: Seq<u8>, from: int) -> int
    decreases s.len() - from,
{
    if from < 0 || from >= s.len() {
        s.len() as int
    } else if s[from] == 44 {
        from
    } else {
        first_comma(s, from + 1)
    }
}

/// If `s[k]` is the first comma at or after `from`, the scan finds it.
pub proof fn lemma_first_comma_at(s: Seq<u8>, from: int, k: int)
    requires
        0 <= from <= k < s.len(),
        s[k] == 44,
        forall|i: int| from <= i < k ==> s[i] != 44,
    ensures
        first_comma(s, from) == k,
    decreases k - from,
{
    if from < k {
        lemma_first_comma_at(s, from + 1, k);
    }
}

/// Scans `s` for the first comma at or after `from`.
pub fn find_comma(s: &[u8], from: usize) -> (r: usize)
    requires
        from <= s@.len(),
    ensures
        r as int == first_comma(s@, from as int),
        from <= r <= s@.len(),
{
    let mut i: usize = from;
    while i < s.len() && s[i] != 44
        invariant
            from <= i <= s@.len(),
            first_comma(s@, from as int) == first_comma(s@, i as int),
        decreases s@.len() - i,
    {
        assert(first_comma(s@, i as int) == first_comma(s@, i as int + 1));
        i = i + 1;
    }
    assert(first_comma(s@, i as int) == i);
    i
}

// ---------------------------------------------------------------------------
// Bounded integer parsing
// ---------------------------------------------------------------------------

pub proof fn lemma_dec_val_nonneg(s: Seq<u8>)
    requires
        forall|i: int| 0 <= i < s.len() ==> is_digit(#[trigger] s[i]),
    ensures
        dec_val(s) >= 0,
    decreases s.len(),
{
    if s.len() > 0 {
        lemma_dec_val_nonneg(s.drop_last());
    }
}

/// Reading more digits never shrinks the value of a numeral.
pub proof fn lemma_dec_val_take(s: Seq<u8>, k: int)
    requires
        0 <= k <= s.len(),
        forall|i: int| 0 <= i < s.len() ==> is_digit(#[trigger] s[i]),
    ensures
        dec_val(s.take(k)) <= dec_val(s),
    decreases s.len(),
{
    if k == s.len() {
        assert(s.take(k) =~= s);
    } else {
        assert(s.take(k) =~= s.drop_last().take(k));
        lemma_dec_val_take(s.drop_last(), k);
        lemma_dec_val_nonneg(s.drop_last());
    }
}

/// What a numeric field holds once bounded to `u64`.
pub open spec fn spec_parse_u64(s: Seq<u8>) -> Option<u64> {
    match parse_int(s) {
        Some(v) => if 0 <= v <= u64::MAX {
            Some(v as u64)
        } else {
            None
        },
        None => None,
    }
}

/// What a numeric field holds once bounded to `i32`.
pub open spec fn spec_parse_i32(s: Seq<u8>) -> Option<i32> {
    match parse_int(s) {
        Some(v) => if i32::MIN <= v <= i32::MAX {
            Some(v as i32)
        } else {
            None
        },
        None => None,
    }
}

/// Parses `s[start..end]` as an unsigned numeral, bounded to `u64`.
fn parse_digits_u64(s: &[u8], start: usize, end: usize) -> (r: Option<u64>)
    requires
        start <= end <= s@.len(),
    ensures
        ({
            let sub = s@.subrange(start as int, end as int);
            match r {
                Some(v) => all_digits(sub) && dec_val(sub) == v as int,
                None => !(all_digits(sub) && dec_val(sub) <= u64::MAX),
            }
        }),
{
    let ghost sub = s@.subrange(start as int, end as int);
    if start == end {
        return None;
    }
    let mut acc: u64 = 0;
    let mut i: usize = start;
    while i < end
        invariant
            start <= i <= end <= s@.len(),
            sub == s@.subrange(start as int, end as int),
            forall|j: int| start <= j < i ==> is_digit(#[trigger] s@[j]),
            acc as int == dec_val(s@.subrange(start as int, i as int)),
        decreases end - i,
    {
        let b = s[i];
        if b < 48 || b > 57 {
            assert(!is_digit(sub[i as int - start as int]));
            return None;
        }
        let d: u64 = (b - 48) as u64;
        proof {
            assert(s@.subrange(start as int, i as int + 1).drop_last() =~= s@.subrange(
                start as int,
                i as int,
            ));
            assert(s@.subrange(start as int, i as int + 1).last() == s@[i as int]);
        }
        let m = acc.checked_mul(10);
        if m.is_none() {
            proof {
                if all_digits(sub) {
                    lemma_dec_val_take(sub, i as int + 1 - start as int);
                    assert(sub.take(i as int + 1 - start as int) =~= s@.subrange(
                        start as int,
                        i as int + 1,
                    ));
                    lemma_dec_val_nonneg(sub);
                }
            }
            return None;
        }
        let m2 = m.unwrap();
        let a2 = m2.checked_add(d);
        if a2.is_none() {
            proof {
                if all_digits(sub) {
                    lemma_dec_val_take(sub, i as int + 1 - start as int);
                    assert(sub.take(i as int + 1 - start as int) =~= s@.subrange(
                        start as int,
                        i as int + 1,
                    ));
                }
            }
            return None;
        }
        acc = a2.unwrap();
        i = i + 1;
    }
    assert(sub =~= s@.subrange(start as int, i as int));
    Some(acc)
}

/// Parses `s[start..end]` as a decimal integer, bounded to `u64`.
pub fn parse_u64_field(s: &[u8], start: usize, end: usize) -> (r: Option<u64>)
    requires
        start <= end <= s@.len(),
    ensures
        r == spec_parse_u64(s@.subrange(start as int, end as int)),
{
    let ghost sub = s@.subrange(start as int, end as int);
    if start < end && s[start] == 45 {
        proof {
            assert(sub.skip(1) =~= s@.subrange(start as int + 1, end as int));
        }
        match parse_digits_u64(s, start + 1, end) {
            Some(v) => {
                proof {
                    if v == 0 {
                        assert(parse_int(sub) == Some(-dec_val(sub.skip(1))));
                    } else {
                        assert(!is_digit(sub[0]));
                        assert(!all_digits(sub));
                    }
                }
                if v == 0 {
                    Some(0)
                } else {
                    None
                }
            },
            None => {
                proof {
                    assert(!is_digit(sub[0]));
                    assert(!all_digits(sub));
                    if sub.len() >= 2 && sub[0] == 45 && all_digits(sub.skip(1)) {
                        lemma_dec_val_nonneg(sub.skip(1));
                        if dec_val(sub.skip(1)) <= u64::MAX {
                            assert(false);
                        }
                    }
                }
                None
            },
        }
    } else {
        proof {
            if sub.len() >= 1 {
                assert(sub[0] == s@[start as int]);
            }
        }
        match parse_digits_u64(s, start, end) {
            Some(v) => {
                proof {
                    lemma_dec_val_nonneg(sub);
                }
                Some(v)
            },
            None => None,
        }
    }
}

/// Parses `s[start..end]` as a decimal integer, bounded to `i32`.
pub fn parse_i32_field(s: &[u8], start: usize, end: usize) -> (r: Option<i32>)
    requires
        start <= end <= s@.len(),
    ensures
        r == spec_parse_i32(s@.subrange(start as int, end as int)),
{
    let ghost sub = s@.subrange(start as int, end as int);
    if start < end && s[start] == 45 {
        proof {
            assert(sub.skip(1) =~= s@.subrange(start as int + 1, end as int));
            assert(!is_digit(sub[0]));
            assert(!all_digits(sub));
        }
        match parse_digits_u64(s, start + 1, end) {
            Some(v) => {
                if v <= 2147483648 {
                    let w: i64 = -(v as i64);
                    assert(i32::MIN as i64 <= w <= 0);
                    Some(w as i32)
                } else {
                    None
                }
            },
            None => {
                proof {
                    if sub.len() >= 2 && sub[0] == 45 && all_digits(sub.skip(1)) {
                        lemma_dec_val_nonneg(sub.skip(1));
                        if dec_val(sub.skip(1)) <= u64::MAX {
                            assert(false);
                        }
                    }
                }
                None
            },
        }
    } else {
        proof {
            if sub.len() >= 1 {
                assert(sub[0] == s@[start as int]);
            }
        }
        match parse_digits_u64(s, start, end) {
            Some(v) => {
                if v <= 2147483647 {
                    Some(v as i32)
                } else {
                    None
                }
            },
            None => None,
        }
    }
}

// ---------------------------------------------------------------------------
// Log records
// ---------------------------------------------------------------------------

/// One mutation event of a counter's audit log.
pub struct AtomicLog {
    /// Store-wide transaction identifier assigned at the commit.
    pub tx_id: u64,
    /// The requested change (the delta).
    pub value: i32,
    /// The counter's value right after the commit.
    pub updated_value: i32,
    /// Commit time as RFC-3339 text with six fractional digits and a `Z`
    /// suffix.
    pub datetime: Vec<u8>,
    /// Opaque caller-supplied bytes; may be empty.
    pub payload: Vec<u8>,
}

/// The un-padded text of a record: the five fields joined by commas.
pub open spec fn spec_content(
    tx: int,
    delta: int,
    updated: int,
    ts: Seq<u8>,
    payload: Seq<u8>,
) -> Seq<u8> {
    dec_int(tx) + seq![44u8] + dec_int(delta) + seq![44u8] + dec_int(updated) + seq![44u8] + ts
        + seq![44u8] + payload
}

/// Whether the un-padded text leaves room for the line-feed terminator
/// within `log_size` bytes.
pub open spec fn encode_fits(
    tx: int,
    delta: int,
    updated: int,
    ts: Seq<u8>,
    payload: Seq<u8>,
    log_size: nat,
) -> bool {
    spec_content(tx, delta, updated, ts, payload).len() + 1 <= log_size
}

/// `n` space bytes.
pub open spec fn spec_pad(n: nat) -> Seq<u8> {
    Seq::new(n, |i: int| 32u8)
}

/// The full fixed-width line: content, space padding, one line feed.
pub open spec fn spec_encode(
    tx: int,
    delta: int,
    updated: int,
    ts: Seq<u8>,
    payload: Seq<u8>,
    log_size: nat,
) -> Seq<u8> {
    let c = spec_content(tx, delta, updated, ts, payload);
    c + spec_pad((log_size - 1 - c.len()) as nat) + seq![10u8]
}

/// Encodes `rec` as one fixed-width line of exactly `log_size` bytes:
/// comma-joined fields, right-padded with spaces, terminated by a line
/// feed. Fails before anything is written when the un-padded content would
/// not fit.
pub fn encode_record(rec: &AtomicLog, log_size: usize) -> (r: Result<Vec<u8>, StoreError>)
    ensures
        match r {
            Ok(line) => encode_fits(
                rec.tx_id as int,
                rec.value as int,
                rec.updated_value as int,
                rec.datetime@,
                rec.payload@,
                log_size as nat,
            ) && line@ == spec_encode(
                rec.tx_id as int,
                rec.value as int,
                rec.updated_value as int,
                rec.datetime@,
                rec.payload@,
                log_size as nat,
            ) && line@.len() == log_size,
            Err(e) => e == StoreError::RecordTooLarge && !encode_fits(
                rec.tx_id as int,
                rec.value as int,
                rec.updated_value as int,
                rec.datetime@,
                rec.payload@,
                log_size as nat,
            ),
        },
{
    let ghost c = spec_content(
        rec.tx_id as int,
        rec.value as int,
        rec.updated_value as int,
        rec.datetime@,
        rec.payload@,
    );
    let mut line: Vec<u8> = Vec::new();
    push_decimal_u64(rec.tx_id, &mut line);
    line.push(44);
    push_decimal_i32(rec.value, &mut line);
    line.push(44);
    push_decimal_i32(rec.updated_value, &mut line);
    line.push(44);
    push_bytes(&mut line, rec.datetime.as_slice());
    line.push(44);
    push_bytes(&mut line, rec.payload.as_slice());
    assert(line@ =~= c);
    if log_size == 0 || line.len() > log_size - 1 {
        return Err(StoreError::RecordTooLarge);
    }
    let ghost pad_len = (log_size - 1 - line@.len()) as nat;
    while line.len() < log_size - 1
        invariant
            c.len() <= line@.len() <= log_size - 1,
            log_size >= 1,
            line@ == c + spec_pad((line@.len() - c.len()) as nat),
        decreases log_size - line@.len(),
    {
        line.push(32);
        assert(line@ =~= c + spec_pad((line@.len() - c.len()) as nat));
    }
    line.push(10);
    assert(line@ =~= c + spec_pad(pad_len) + seq![10u8]);
    Ok(line)
}

/// What a fixed-width line decodes to: `(tx_id, delta, updated_value,
/// datetime, payload)`. The trailing line feed is dropped, the line is split
/// at its first four commas, each field loses its trailing space and NUL
/// padding, and the three numeric fields are parsed; a line without four
/// commas, or with an unparsable numeric field, is a blank or torn record
/// and decodes to `None`.
pub open spec fn spec_decode(line: Seq<u8>) -> Option<(u64, i32, i32, Seq<u8>, Seq<u8>)> {
    let body = if line.len() > 0 && line.last() == 10 {
        line.drop_last()
    } else {
        line
    };
    let c1 = first_comma(body, 0);
    let c2 = first_comma(body, c1 + 1);
    let c3 = first_comma(body, c2 + 1);
    let c4 = first_comma(body, c3 + 1);
    if c4 >= body.len() {
        None
    } else {
        let f0 = trim_end_pad(body.subrange(0, c1));
        let f1 = trim_end_pad(body.subrange(c1 + 1, c2));
        let f2 = trim_end_pad(body.subrange(c2 + 1, c3));
        let f3 = trim_end_pad(body.subrange(c3 + 1, c4));
        let f4 = trim_end_pad(body.skip(c4 + 1));
        match (spec_parse_u64(f0), spec_parse_i32(f1), spec_parse_i32(f2)) {
            (Some(tx), Some(delta), Some(updated)) => Some((tx, delta, updated, f3, f4)),
            _ => None,
        }
    }
}

/// Decodes one fixed-width line back into a record. A blank, padded or
/// otherwise unparsable line yields `None`, never an error.
pub fn decode_record(line: &[u8]) -> (r: Option<AtomicLog>)
    ensures
        match r {
            Some(rec) => spec_decode(line@) == Some(
                (rec.tx_id, rec.value, rec.updated_value, rec.datetime@, rec.payload@),
            ),
            None => spec_decode(line@) is None,
        },
{
    let n = line.len();
    let body_end: usize = if n > 0 && line[n - 1] == 10 {
        n - 1
    } else {
        n
    };
    let body = copy_range(line, 0, body_end);
    proof {
        if line@.len() > 0 && line@.last() == 10 {
            assert(body@ =~= line@.drop_last());
        } else {
            assert(body@ =~= line@);
        }
    }
    let blen = body.len();
    let c1 = find_comma(body.as_slice(), 0);
    let c2 = if c1 < blen {
        find_comma(body.as_slice(), c1 + 1)
    } else {
        blen
    };
    let c3 = if c2 < blen {
        find_comma(body.as_slice(), c2 + 1)
    } else {
        blen
    };
    let c4 = if c3 < blen {
        find_comma(body.as_slice(), c3 + 1)
    } else {
        blen
    };
    proof {
        assert(c2 as int == first_comma(body@, c1 as int + 1));
        assert(c3 as int == first_comma(body@, c2 as int + 1));
        assert(c4 as int == first_comma(body@, c3 as int + 1));
    }
    if c4 >= blen {
        return None;
    }
    let e0 = trimmed_end(body.as_slice(), 0, c1);
    let tx = parse_u64_field(body.as_slice(), 0, e0);
    let e1 = trimmed_end(body.as_slice(), c1 + 1, c2);
    let delta = parse_i32_field(body.as_slice(), c1 + 1, e1);
    let e2 = trimmed_end(body.as_slice(), c2 + 1, c3);
    let updated = parse_i32_field(body.as_slice(), c2 + 1, e2);
    let e3 = trimmed_end(body.as_slice(), c3 + 1, c4);
    let datetime = copy_range(body.as_slice(), c3 + 1, e3);
    let e4 = trimmed_end(body.as_slice(), c4 + 1, blen);
    let payload = copy_range(body.as_slice(), c4 + 1, e4);
    proof {
        assert(body@.skip(c4 as int + 1) =~= body@.subrange(c4 as int + 1, blen as int));
    }
    match (tx, delta, updated) {
        (Some(t), Some(d), Some(u)) => Some(
            AtomicLog { tx_id: t, value: d, updated_value: u, datetime, payload },
        ),
        _ => None,
    }
}

// ---------------------------------------------------------------------------
// The round-trip law
// ---------------------------------------------------------------------------

pub proof fn lemma_trim_pad_suffix(x: Seq<u8>, k: nat)
    ensures
        trim_end_pad(x + spec_pad(k)) == trim_end_pad(x),
    decreases k,
{
    if k == 0 {
        assert(x + spec_pad(0) =~= x);
    } else {
        assert((x + spec_pad(k)).last() == 32);
        assert((x + spec_pad(k)).drop_last() =~= x + spec_pad((k - 1) as nat));
        lemma_trim_pad_suffix(x, (k - 1) as nat);
    }
}

/// Decimal text never holds a comma, a space or a NUL, and never ends in
/// padding.
pub proof fn lemma_dec_int_plain(n: int)
    ensures
        dec_int(n).len() >= 1,
        forall|i: int| 0 <= i < dec_int(n).len() ==> dec_int(n)[i] != 44 && !is_pad(
            #[trigger] dec_int(n)[i],
        ),
        !is_pad(dec_int(n).last()),
{
    if n < 0 {
        lemma_dec_digits_wf((-n) as nat);
    } else {
        lemma_dec_digits_wf(n as nat);
    }
}

/// The round-trip law of the codec: a record whose un-padded content fits
/// in `log_size` bytes, whose timestamp holds no comma and no trailing
/// padding, and whose payload has no trailing padding, decodes from its own
/// encoding to exactly the fields that were encoded.
#[verifier::rlimit(50)]
pub proof fn lemma_encode_decode(
    tx: u64,
    delta: i32,
    updated: i32,
    ts: Seq<u8>,
    payload: Seq<u8>,
    log_size: nat,
)
    requires
        encode_fits(tx as int, delta as int, updated as int, ts, payload, log_size),
        forall|i: int| 0 <= i < ts.len() ==> ts[i] != 44,
        ts.len() == 0 || !is_pad(ts.last()),
        payload.len() == 0 || !is_pad(payload.last()),
    ensures
        spec_decode(spec_encode(tx as int, delta as int, updated as int, ts, payload, log_size))
            == Some((tx, delta, updated, ts, payload)),
{
    let d0 = dec_int(tx as int);
    let d1 = dec_int(delta as int);
    let d2 = dec_int(updated as int);
    lemma_dec_int_plain(tx as int);
    lemma_dec_int_plain(delta as int);
    lemma_dec_int_plain(updated as int);
    let c = spec_content(tx as int, delta as int, updated as int, ts, payload);
    let line = spec_encode(tx as int, delta as int, updated as int, ts, payload, log_size);
    let padlen = (log_size - 1 - c.len()) as nat;
    let body = c + spec_pad(padlen);
    assert(line.last() == 10);
    assert(line.drop_last() =~= body);
    let p1 = d0.len() as int;
    let p2 = p1 + 1 + d1.len();
    let p3 = p2 + 1 + d2.len();
    let p4 = p3 + 1 + ts.len();
    assert(body.len() == c.len() + padlen);
    assert(c.len() == p4 + 1 + payload.len());
    // the four field separators
    assert(body[p1] == 44);
    assert(body[p2] == 44);
    assert(body[p3] == 44);
    assert(body[p4] == 44);
    // the raw fields between them
    assert(body.subrange(0, p1) =~= d0);
    assert(body.subrange(p1 + 1, p2) =~= d1);
    assert(body.subrange(p2 + 1, p3) =~= d2);
    assert(body.subrange(p3 + 1, p4) =~= ts);
    assert(body.skip(p4 + 1) =~= payload + spec_pad(padlen));
    // the scan stops at each separator
    assert(forall|i: int| 0 <= i < p1 ==> body[i] == d0[i] && body[i] != 44);
    lemma_first_comma_at(body, 0, p1);
    assert(forall|i: int| p1 + 1 <= i < p2 ==> body[i] == d1[i - (p1 + 1)] && body[i] != 44);
    lemma_first_comma_at(body, p1 + 1, p2);
    assert(forall|i: int| p2 + 1 <= i < p3 ==> body[i] == d2[i - (p2 + 1)] && body[i] != 44);
    lemma_first_comma_at(body, p2 + 1, p3);
    assert(forall|i: int| p3 + 1 <= i < p4 ==> body[i] == ts[i - (p3 + 1)] && body[i] != 44);
    lemma_first_comma_at(body, p3 + 1, p4);
    // trimming leaves each field intact
    assert(trim_end_pad(d0) == d0);
    assert(trim_end_pad(d1) == d1);
    assert(trim_end_pad(d2) == d2);
    assert(trim_end_pad(ts) == ts);
    lemma_trim_pad_suffix(payload, padlen);
    assert(trim_end_pad(payload + spec_pad(padlen)) == payload);
    // the numeric fields parse back
    lemma_parse_dec_int(tx as int);
    lemma_parse_dec_int(delta as int);
    lemma_parse_dec_int(updated as int);
    assert(spec_parse_u64(d0) == Some(tx));
    assert(spec_parse_i32(d1) == Some(delta));
    assert(spec_parse_i32(d2) == Some(updated));
}

} // verus!
