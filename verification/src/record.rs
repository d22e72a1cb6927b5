//! The record model: the five transaction kinds and their field rules.
//!
//! A `Tx` is one input event. Deposits and withdrawals carry an amount;
//! disputes, resolves and chargebacks reference a prior deposit by its
//! transaction id and carry none. Amounts are fixed-point integers with
//! four fractional decimal digits: a stored value of `125_000` stands for
//! `12.5` units of currency.

use vstd::prelude::*;

verus! {

use vstd::string::StringSliceAdditionalSpecFns;

/// The kind of a transaction record.
#[derive(Clone, Copy, PartialEq, Eq, Structural, Debug)]
pub enum TxKind {
    Deposit,
    Withdrawal,
    Dispute,
    Resolve,
    Chargeback,
}

/// One input event: a parsed transaction record.
#[derive(Clone, Copy, PartialEq, Eq, Structural, Debug)]
pub struct Tx {
    /// Which of the five kinds this record is.
    pub kind: TxKind,
    /// The account the record refers to.
    pub client_id: u16,
    /// Globally unique identifier among accepted deposits, and among
    /// accepted withdrawals; disputes, resolves and chargebacks use it to
    /// reference a prior deposit.
    pub tx_id: u32,
    /// Fixed-point amount; present exactly for deposits and withdrawals.
    pub amount: Option<u64>,
}

impl Tx {
    /// Structural validity: the amount is present exactly when the kind
    /// calls for one.
    pub open spec fn wf(self) -> bool {
        (self.kind is Deposit || self.kind is Withdrawal) <==> self.amount is Some
    }
}

/// A structurally invalid input line: a hard failure that aborts the
/// whole run, as opposed to a business rejection.
#[derive(Clone, Copy, PartialEq, Eq, Structural, Debug)]
pub enum ParseError {
    /// Wrong field count for the kind, or an unparsable numeric field.
    MalformedRecord,
    /// The kind keyword is none of the five known ones.
    UnknownTransactionKind,
}

// ---------------------------------------------------------------------------
// Characters and trimming
// ---------------------------------------------------------------------------

/// ASCII whitespace stripped around numeric fields.
pub open spec fn is_space(b: u8) -> bool {
    b == 32 || b == 9 || b == 13 || b == 10
}

/// An ASCII decimal digit.
pub open spec fn is_digit(b: u8) -> bool {
    48 <= b <= 57
}

/// Every byte of `s` is a decimal digit.
pub open spec fn all_digits(s: Seq<u8>) -> bool {
    forall|i: int| 0 <= i < s.len() ==> is_digit(#[trigger] s[i])
}

/// `s` with leading whitespace removed.
pub open spec fn trim_front(s: Seq<u8>) -> Seq<u8>
    decreases s.len(),
{
    if s.len() > 0 && is_space(s[0]) {
        trim_front(s.drop_first())
    } else {
        s
    }
}

/// `s` with trailing whitespace removed.
pub open spec fn trim_back(s: Seq<u8>) -> Seq<u8>
    decreases s.len(),
{
    if s.len() > 0 && is_space(s.last()) {
        trim_back(s.drop_last())
    } else {
        s
    }
}

/// `s` with whitespace removed at both ends.
pub open spec fn trimmed(s: Seq<u8>) -> Seq<u8> {
    trim_back(trim_front(s))
}

// ---------------------------------------------------------------------------
// Decimal digit strings
// ---------------------------------------------------------------------------

/// The number a digit string denotes, most significant digit first.
pub open spec fn digits_val(s: Seq<u8>) -> int
    decreases s.len(),
{
    if s.len() == 0 {
        0
    } else {
        digits_val(s.drop_last()) * 10 + (s.last() - 48)
    }
}

/// Ten to the `n`.
pub open spec fn pow10(n: nat) -> int
    decreases n,
{
    if n == 0 {
        1
    } else {
        10 * pow10((n - 1) as nat)
    }
}

/// A digit string's value is non-negative.
proof fn lemma_digits_val_nonneg(s: Seq<u8>)
    requires
        all_digits(s),
    ensures
        digits_val(s) >= 0,
    decreases s.len(),
{
    if s.len() > 0 {
        assert(all_digits(s.drop_last()));
        lemma_digits_val_nonneg(s.drop_last());
    }
}

/// A digit string of length `n` denotes less than `10^n`.
proof fn lemma_digits_val_bound(s: Seq<u8>)
    requires
        all_digits(s),
    ensures
        0 <= digits_val(s) < pow10(s.len()),
    decreases s.len(),
{
    if s.len() > 0 {
        assert(all_digits(s.drop_last()));
        lemma_digits_val_bound(s.drop_last());
    }
}

/// A digit string denotes at least as much as any of its prefixes.
proof fn lemma_digits_val_take_mono(s: Seq<u8>, i: int)
    requires
        all_digits(s),
        0 <= i <= s.len(),
    ensures
        digits_val(s.take(i)) <= digits_val(s),
    decreases s.len(),
{
    if i == s.len() {
        assert(s.take(i) =~= s);
    } else {
        assert(all_digits(s.drop_last()));
        assert(s.take(i) =~= s.drop_last().take(i));
        lemma_digits_val_take_mono(s.drop_last(), i);
        lemma_digits_val_nonneg(s.drop_last());
    }
}

// ---------------------------------------------------------------------------
// Numbers and amounts
// ---------------------------------------------------------------------------

/// A non-negative integer field: its trimmed form is one or more digits
/// denoting at most `max`.
pub open spec fn spec_parse_uint(s: Seq<u8>, max: int) -> Option<int> {
    let t = trimmed(s);
    if t.len() >= 1 && all_digits(t) && digits_val(t) <= max {
        Some(digits_val(t))
    } else {
        None
    }
}

/// The position of the first `.` in `s`, if any.
pub open spec fn first_dot(s: Seq<u8>) -> Option<int>
    decreases s.len(),
{
    if s.len() == 0 {
        None
    } else if s[0] == 46 {
        Some(0)
    } else {
        match first_dot(s.drop_first()) {
            None => None,
            Some(k) => Some(k + 1),
        }
    }
}

/// A non-negative fixed-point amount with at most four fractional
/// digits: `digits`, `digits.digits`, `digits.` or `.digits`, denoting
/// `10000` times its numeric value, as long as that fits in a `u64`.
pub open spec fn spec_parse_amount(s: Seq<u8>) -> Option<int> {
    let t = trimmed(s);
    match first_dot(t) {
        None => {
            if t.len() >= 1 && all_digits(t) && digits_val(t) * 10000 <= u64::MAX {
                Some(digits_val(t) * 10000)
            } else {
                None
            }
        },
        Some(p) => {
            let ip = t.take(p);
            let fp = t.skip(p + 1);
            let v = digits_val(ip) * 10000 + digits_val(fp) * pow10((4 - fp.len()) as nat);
            if all_digits(ip) && all_digits(fp) && ip.len() + fp.len() >= 1 && fp.len() <= 4 && v
                <= u64::MAX {
                Some(v)
            } else {
                None
            }
        },
    }
}

/// If no byte of `s` is a dot, `first_dot` finds none.
proof fn lemma_first_dot_none(s: Seq<u8>)
    requires
        forall|j: int| 0 <= j < s.len() ==> s[j] != 46,
    ensures
        first_dot(s) is None,
    decreases s.len(),
{
    if s.len() > 0 {
        lemma_first_dot_none(s.drop_first());
    }
}

/// If `s[p]` is the first dot, `first_dot` finds exactly it.
proof fn lemma_first_dot_at(s: Seq<u8>, p: int)
    requires
        0 <= p < s.len(),
        s[p] == 46,
        forall|j: int| 0 <= j < p ==> s[j] != 46,
    ensures
        first_dot(s) == Some(p),
    decreases s.len(),
{
    if p > 0 {
        lemma_first_dot_at(s.drop_first(), p - 1);
    }
}

// ---------------------------------------------------------------------------
// Executable parsing
// ---------------------------------------------------------------------------

/// The bounds of `s` with surrounding whitespace stripped.
fn trim_bounds(s: &[u8]) -> (r: (usize, usize))
    ensures
        r.0 <= r.1 <= s@.len(),
        s@.subrange(r.0 as int, r.1 as int) == trimmed(s@),
{
    let n = s.len();
    let mut lo: usize = 0;
    proof {
        assert(s@.skip(0) =~= s@);
    }
    while lo < n && (s[lo] == 32 || s[lo] == 9 || s[lo] == 13 || s[lo] == 10)
        invariant
            lo <= n,
            n == s@.len(),
            trim_front(s@.skip(lo as int)) == trim_front(s@),
        decreases n - lo,
    {
        proof {
            assert(s@.skip(lo as int).drop_first() =~= s@.skip(lo as int + 1));
        }
        lo = lo + 1;
    }
    let ghost u = s@.skip(lo as int);
    proof {
        assert(trim_front(u) == u);
        assert(trim_front(s@) == u);
    }
    let mut hi: usize = n;
    proof {
        assert(u.take(n as int - lo as int) =~= u);
    }
    while hi > lo && (s[hi - 1] == 32 || s[hi - 1] == 9 || s[hi - 1] == 13 || s[hi - 1] == 10)
        invariant
            lo <= hi <= n,
            n == s@.len(),
            u == s@.skip(lo as int),
            trim_back(u.take(hi as int - lo as int)) == trim_back(u),
        decreases hi,
    {
        proof {
            assert(u.len() == n as int - lo as int);
            assert(u.take(hi as int - lo as int).len() == hi as int - lo as int);
            assert(u.take(hi as int - lo as int).drop_last() =~= u.take(hi as int - 1 - lo as int));
            assert(u.take(hi as int - lo as int).last() == u[hi as int - lo as int - 1]);
            assert(u[hi as int - lo as int - 1] == s@[hi as int - 1]);
        }
        hi = hi - 1;
    }
    proof {
        assert(trim_back(u.take(hi as int - lo as int)) == u.take(hi as int - lo as int));
        assert(u.take(hi as int - lo as int) =~= s@.subrange(lo as int, hi as int));
    }
    (lo, hi)
}

/// The value of the digit string `s[lo..hi]`, if it is all digits and
/// denotes at most `max`.
fn digits_value(s: &[u8], lo: usize, hi: usize, max: u64) -> (r: Option<u64>)
    requires
        lo <= hi <= s@.len(),
    ensures
        ({
            let t = s@.subrange(lo as int, hi as int);
            match r {
                Some(v) => all_digits(t) && digits_val(t) == v && v <= max,
                None => !all_digits(t) || digits_val(t) > max,
            }
        }),
{
    let ghost t = s@.subrange(lo as int, hi as int);
    let mut acc: u64 = 0;
    let mut i: usize = lo;
    while i < hi
        invariant
            lo <= i <= hi <= s@.len(),
            t == s@.subrange(lo as int, hi as int),
            acc <= max,
            all_digits(t.take(i as int - lo as int)),
            acc == digits_val(t.take(i as int - lo as int)),
        decreases hi - i,
    {
        let b = s[i];
        proof {
            assert(t[i as int - lo as int] == b);
        }
        if b < 48 || b > 57 {
            return None;
        }
        let d = (b - 48) as u64;
        let next: u128 = (acc as u128) * 10 + (d as u128);
        proof {
            assert(t.take(i as int - lo as int + 1).drop_last() =~= t.take(i as int - lo as int));
            assert(t.take(i as int - lo as int + 1).last() == t[i as int - lo as int]);
        }
        if next > max as u128 {
            proof {
                if all_digits(t) {
                    lemma_digits_val_take_mono(t, i as int - lo as int + 1);
                }
            }
            return None;
        }
        acc = next as u64;
        i = i + 1;
    }
    proof {
        assert(t.take(hi as int - lo as int) =~= t);
    }
    Some(acc)
}

/// Parse a non-negative integer field no larger than `max`, exactly as
/// `spec_parse_uint` says.
pub fn parse_uint(s: &[u8], max: u64) -> (r: Option<u64>)
    ensures
        (match r {
            Some(v) => spec_parse_uint(s@, max as int) == Some(v as int),
            None => spec_parse_uint(s@, max as int) is None,
        }),
{
    let (lo, hi) = trim_bounds(s);
    if hi == lo {
        return None;
    }
    digits_value(s, lo, hi, max)
}

/// Parse a fixed-point amount field, exactly as `spec_parse_amount`
/// says.
pub fn parse_amount(s: &[u8]) -> (r: Option<u64>)
    ensures
        (match r {
            Some(v) => spec_parse_amount(s@) == Some(v as int),
            None => spec_parse_amount(s@) is None,
        }),
{
    let (lo, hi) = trim_bounds(s);
    let ghost t = trimmed(s@);
    let mut p: usize = lo;
    while p < hi && s[p] != 46
        invariant
            lo <= p <= hi <= s@.len(),
            forall|j: int| lo <= j < p ==> s@[j] != 46,
        decreases hi - p,
    {
        p = p + 1;
    }
    if p == hi {
        proof {
            assert forall|j: int| 0 <= j < t.len() implies t[j] != 46 by {
                assert(t[j] == s@[j + lo]);
            }
            lemma_first_dot_none(t);
        }
        if hi == lo {
            return None;
        }
        match digits_value(s, lo, hi, 1_844_674_407_370_955) {
            None => {
                proof {
                    if all_digits(t) && digits_val(t) > 1_844_674_407_370_955 {
                        assert(digits_val(t) * 10000 > u64::MAX);
                    }
                }
                None
            },
            Some(v) => Some(v * 10000),
        }
    } else {
        let ghost pd = p as int - lo as int;
        let ghost ip = t.take(pd);
        let ghost fp = t.skip(pd + 1);
        proof {
            assert(t[pd] == 46);
            assert forall|j: int| 0 <= j < pd implies t[j] != 46 by {
                assert(t[j] == s@[j + lo]);
            }
            lemma_first_dot_at(t, pd);
            assert(ip =~= s@.subrange(lo as int, p as int));
            assert(fp =~= s@.subrange(p as int + 1, hi as int));
            reveal_with_fuel(pow10, 5);
        }
        let fplen = hi - (p + 1);
        if fplen > 4 {
            return None;
        }
        if p == lo && fplen == 0 {
            return None;
        }
        match digits_value(s, lo, p, 1_844_674_407_370_955) {
            None => {
                proof {
                    if all_digits(ip) && all_digits(fp) {
                        lemma_digits_val_nonneg(fp);
                        assert(digits_val(fp) * pow10((4 - fp.len()) as nat) >= 0)
                            by (nonlinear_arith)
                            requires digits_val(fp) >= 0, pow10((4 - fp.len()) as nat) >= 1;
                        if digits_val(ip) > 1_844_674_407_370_955 {
                            assert(digits_val(ip) * 10000 > u64::MAX);
                        }
                    }
                }
                None
            },
            Some(ipv) => {
                match digits_value(s, p + 1, hi, 9999) {
                    None => {
                        proof {
                            if all_digits(fp) {
                                lemma_digits_val_bound(fp);
                                assert(pow10(fp.len()) <= 10000);
                            }
                        }
                        None
                    },
                    Some(fv) => {
                        let mul: u64 = if fplen == 0 {
                            10000
                        } else if fplen == 1 {
                            1000
                        } else if fplen == 2 {
                            100
                        } else if fplen == 3 {
                            10
                        } else {
                            1
                        };
                        proof {
                            assert(mul as int == pow10((4 - fp.len()) as nat));
                            assert(fv * mul <= 99_990_000) by (nonlinear_arith)
                                requires fv <= 9999, mul <= 10000;
                        }
                        let scaled: u64 = fv * mul;
                        let total: u128 = (ipv as u128) * 10000 + (scaled as u128);
                        proof {
                            assert(total == digits_val(ip) * 10000 + digits_val(fp) * pow10(
                                (4 - fp.len()) as nat,
                            ));
                        }
                        if total > 0xffff_ffff_ffff_ffffu128 {
                            None
                        } else {
                            Some(total as u64)
                        }
                    },
                }
            },
        }
    }
}

/// Byte-for-byte equality of two slices.
fn bytes_eq(a: &[u8], b: &[u8]) -> (r: bool)
    ensures
        r == (a@ == b@),
{
    if a.len() != b.len() {
        return false;
    }
    let mut i: usize = 0;
    while i < a.len()
        invariant
            i <= a@.len(),
            a@.len() == b@.len(),
            forall|j: int| 0 <= j < i ==> a@[j] == b@[j],
        decreases a@.len() - i,
    {
        if a[i] != b[i] {
            return false;
        }
        i = i + 1;
    }
    proof {
        assert(a@ =~= b@);
    }
    true
}

// ---------------------------------------------------------------------------
// Whole records
// ---------------------------------------------------------------------------

/// The keyword of a deposit record.
pub open spec fn kw_deposit() -> Seq<u8> {
    "deposit".spec_bytes()
}

/// The keyword of a withdrawal record.
pub open spec fn kw_withdrawal() -> Seq<u8> {
    "withdrawal".spec_bytes()
}

/// The keyword of a dispute record.
pub open spec fn kw_dispute() -> Seq<u8> {
    "dispute".spec_bytes()
}

/// The keyword of a resolve record.
pub open spec fn kw_resolve() -> Seq<u8> {
    "resolve".spec_bytes()
}

/// The keyword of a chargeback record.
pub open spec fn kw_chargeback() -> Seq<u8> {
    "chargeback".spec_bytes()
}

/// The byte sequences of a line's fields.
pub open spec fn fields_view(fields: &Vec<Vec<u8>>) -> Seq<Seq<u8>> {
    Seq::new(fields@.len(), |i: int| fields@[i]@)
}

/// A deposit or withdrawal line: exactly four fields, with a client id,
/// a transaction id and an amount in their domains.
pub open spec fn spec_parse_funded(fields: Seq<Seq<u8>>, kind: TxKind) -> Result<Tx, ParseError> {
    if fields.len() != 4 {
        Err(ParseError::MalformedRecord)
    } else {
        let cid = spec_parse_uint(fields[1], u16::MAX as int);
        let tid = spec_parse_uint(fields[2], u32::MAX as int);
        let amt = spec_parse_amount(fields[3]);
        if cid is Some && tid is Some && amt is Some {
            Ok(
                Tx {
                    kind,
                    client_id: cid.unwrap() as u16,
                    tx_id: tid.unwrap() as u32,
                    amount: Some(amt.unwrap() as u64),
                },
            )
        } else {
            Err(ParseError::MalformedRecord)
        }
    }
}

/// A dispute, resolve or chargeback line: exactly three fields, with a
/// client id and a transaction id in their domains, and no amount.
pub open spec fn spec_parse_referencing(fields: Seq<Seq<u8>>, kind: TxKind) -> Result<
    Tx,
    ParseError,
> {
    if fields.len() != 3 {
        Err(ParseError::MalformedRecord)
    } else {
        let cid = spec_parse_uint(fields[1], u16::MAX as int);
        let tid = spec_parse_uint(fields[2], u32::MAX as int);
        if cid is Some && tid is Some {
            Ok(
                Tx {
                    kind,
                    client_id: cid.unwrap() as u16,
                    tx_id: tid.unwrap() as u32,
                    amount: None,
                },
            )
        } else {
            Err(ParseError::MalformedRecord)
        }
    }
}

/// One input line, split into fields: the first field picks the kind by
/// exact, case-sensitive match; the rest must fit that kind's shape.
pub open spec fn spec_parse_record(fields: Seq<Seq<u8>>) -> Result<Tx, ParseError> {
    if fields.len() == 0 {
        Err(ParseError::MalformedRecord)
    } else if fields[0] == kw_deposit() {
        spec_parse_funded(fields, TxKind::Deposit)
    } else if fields[0] == kw_withdrawal() {
        spec_parse_funded(fields, TxKind::Withdrawal)
    } else if fields[0] == kw_dispute() {
        spec_parse_referencing(fields, TxKind::Dispute)
    } else if fields[0] == kw_resolve() {
        spec_parse_referencing(fields, TxKind::Resolve)
    } else if fields[0] == kw_chargeback() {
        spec_parse_referencing(fields, TxKind::Chargeback)
    } else {
        Err(ParseError::UnknownTransactionKind)
    }
}

/// Parse the numeric fields of a four-field deposit or withdrawal line.
fn parse_funded(fields: &Vec<Vec<u8>>, kind: TxKind) -> (r: Result<Tx, ParseError>)
    ensures
        r == spec_parse_funded(fields_view(fields), kind),
{
    if fields.len() != 4 {
        return Err(ParseError::MalformedRecord);
    }
    let cid = parse_uint(fields[1].as_slice(), 65535);
    let tid = parse_uint(fields[2].as_slice(), 4294967295);
    let amt = parse_amount(fields[3].as_slice());
    match (cid, tid, amt) {
        (Some(c), Some(t), Some(a)) => Ok(
            Tx { kind, client_id: c as u16, tx_id: t as u32, amount: Some(a) },
        ),
        _ => Err(ParseError::MalformedRecord),
    }
}

/// Parse the numeric fields of a three-field dispute, resolve or
/// chargeback line.
fn parse_referencing(fields: &Vec<Vec<u8>>, kind: TxKind) -> (r: Result<Tx, ParseError>)
    ensures
        r == spec_parse_referencing(fields_view(fields), kind),
{
    if fields.len() != 3 {
        return Err(ParseError::MalformedRecord);
    }
    let cid = parse_uint(fields[1].as_slice(), 65535);
    let tid = parse_uint(fields[2].as_slice(), 4294967295);
    match (cid, tid) {
        (Some(c), Some(t)) => Ok(
            Tx { kind, client_id: c as u16, tx_id: t as u32, amount: None },
        ),
        _ => Err(ParseError::MalformedRecord),
    }
}

/// Parse one input line, split into fields, into a transaction record,
/// exactly as `spec_parse_record` says. A parsed record is structurally
/// valid: its amount is present exactly when its kind calls for one.
pub fn parse_record(fields: &Vec<Vec<u8>>) -> (r: Result<Tx, ParseError>)
    ensures
        r == spec_parse_record(fields_view(fields)),
        r is Ok ==> r.unwrap().wf(),
{
    if fields.len() == 0 {
        return Err(ParseError::MalformedRecord);
    }
    let kw = fields[0].as_slice();
    if bytes_eq(kw, "deposit".as_bytes()) {
        parse_funded(fields, TxKind::Deposit)
    } else if bytes_eq(kw, "withdrawal".as_bytes()) {
        parse_funded(fields, TxKind::Withdrawal)
    } else if bytes_eq(kw, "dispute".as_bytes()) {
        parse_referencing(fields, TxKind::Dispute)
    } else if bytes_eq(kw, "resolve".as_bytes()) {
        parse_referencing(fields, TxKind::Resolve)
    } else if bytes_eq(kw, "chargeback".as_bytes()) {
        parse_referencing(fields, TxKind::Chargeback)
    } else {
        Err(ParseError::UnknownTransactionKind)
    }
}

} // verus!
