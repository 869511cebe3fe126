//! The on-disk format of the alert store: a UTF-8 JSON array of alert
//! objects, `[{"time":2,"created_at":1234567890,"enabled":true},...]`,
//! written without any whitespace. The encoder below produces exactly this
//! canonical form, and the decoder accepts exactly the canonical encodings
//! (plus the empty file, which stands for the empty sequence); anything
//! else, including trailing bytes after the array, is a parse failure.

use vstd::prelude::*;
use crate::alert::Alert;

verus! {

/// Is `b` the ASCII code of a decimal digit?
pub open spec fn is_digit(b: u8) -> bool {
    48 <= b && b <= 57
}

/// The ASCII byte for the decimal digit `d % 10`.
pub open spec fn digit_byte(d: nat) -> u8 {
    (48 + d % 10) as u8
}

/// The ASCII decimal digits of `n`, most significant first; no digits at
/// all for zero.
pub open spec fn spec_digits(n: nat) -> Seq<u8>
    decreases n,
{
    if n == 0 {
        Seq::empty()
    } else {
        spec_digits(n / 10).push(digit_byte(n % 10))
    }
}

/// Canonical decimal rendering of an unsigned number: `"0"` for zero,
/// otherwise the digits with no leading zero.
pub open spec fn spec_enc_nat(n: nat) -> Seq<u8> {
    if n == 0 {
        seq![48u8]
    } else {
        spec_digits(n)
    }
}

/// Canonical decimal rendering of a signed number: a leading `-` for
/// negative values.
pub open spec fn spec_enc_int(v: int) -> Seq<u8> {
    if v < 0 {
        seq![45u8] + spec_enc_nat((-v) as nat)
    } else {
        spec_enc_nat(v as nat)
    }
}

/// The bytes of `true` or `false`.
pub open spec fn spec_enc_bool(b: bool) -> Seq<u8> {
    if b {
        seq![116u8, 114u8, 117u8, 101u8]
    } else {
        seq![102u8, 97u8, 108u8, 115u8, 101u8]
    }
}

/// The bytes of `{"time":`.
pub open spec fn lit_head() -> Seq<u8> {
    seq![123u8, 34u8, 116u8, 105u8, 109u8, 101u8, 34u8, 58u8]
}

/// The bytes of `,"created_at":`.
pub open spec fn lit_created() -> Seq<u8> {
    seq![44u8, 34u8, 99u8, 114u8, 101u8, 97u8, 116u8, 101u8, 100u8, 95u8, 97u8, 116u8, 34u8, 58u8]
}

/// The bytes of `,"enabled":`.
pub open spec fn lit_enabled() -> Seq<u8> {
    seq![44u8, 34u8, 101u8, 110u8, 97u8, 98u8, 108u8, 101u8, 100u8, 34u8, 58u8]
}

/// One alert as a JSON object with the three fields in a fixed order.
pub open spec fn spec_enc_alert(a: Alert) -> Seq<u8> {
    lit_head() + spec_enc_nat(a.time as nat) + lit_created() + spec_enc_int(a.created_at as int)
        + lit_enabled() + spec_enc_bool(a.enabled) + seq![125u8]
}

/// The alert objects joined by commas.
pub open spec fn spec_enc_items(s: Seq<Alert>) -> Seq<u8>
    decreases s.len(),
{
    if s.len() == 0 {
        Seq::empty()
    } else if s.len() == 1 {
        spec_enc_alert(s[0])
    } else {
        spec_enc_alert(s[0]) + seq![44u8] + spec_enc_items(s.skip(1))
    }
}

/// The whole store file: the items in square brackets.
pub open spec fn spec_encode(s: Seq<Alert>) -> Seq<u8> {
    seq![91u8] + spec_enc_items(s) + seq![93u8]
}

/// Appending one alert extends the item list by a comma and one object.
pub proof fn lemma_enc_items_snoc(s: Seq<Alert>, a: Alert)
    ensures
        spec_enc_items(s.push(a)) == if s.len() == 0 {
            spec_enc_alert(a)
        } else {
            spec_enc_items(s) + seq![44u8] + spec_enc_alert(a)
        },
    decreases s.len(),
{
    if s.len() == 0 {
        assert(s.push(a) =~= seq![a]);
        assert(spec_enc_items(seq![a]) == spec_enc_alert(a));
    } else if s.len() == 1 {
        assert(s.push(a).len() == 2);
        assert(s.push(a)[0] == s[0]);
        assert(s.push(a).skip(1) =~= seq![a]);
        assert(spec_enc_items(seq![a]) == spec_enc_alert(a));
        assert(spec_enc_items(s) == spec_enc_alert(s[0]));
    } else {
        lemma_enc_items_snoc(s.skip(1), a);
        assert(s.push(a).skip(1) =~= s.skip(1).push(a));
        assert(s.push(a)[0] == s[0]);
        assert(spec_enc_items(s.push(a)) == spec_enc_alert(s[0]) + seq![44u8] + (spec_enc_items(
            s.skip(1),
        ) + seq![44u8] + spec_enc_alert(a)));
        assert(spec_enc_items(s.push(a)) =~= spec_enc_items(s) + seq![44u8] + spec_enc_alert(a));
    }
}

/// ASCII digits of `n`, most significant first.
fn enc_u64(n: u64) -> (v: Vec<u8>)
    ensures
        v@ == spec_enc_nat(n as nat),
{
    if n == 0 {
        let mut v: Vec<u8> = Vec::new();
        v.push(48);
        proof {
            assert(v@ =~= seq![48u8]);
        }
        return v;
    }
    let mut v: Vec<u8> = Vec::new();
    let mut m: u64 = n;
    proof {
        assert(spec_digits(n as nat) =~= spec_digits(m as nat) + v@);
    }
    while m > 0
        invariant
            spec_digits(n as nat) == spec_digits(m as nat) + v@,
            n > 0,
        decreases m,
    {
        let ghost m_pre: nat = m as nat;
        let ghost v_pre: Seq<u8> = v@;
        let d: u8 = 48 + (m % 10) as u8;
        v.insert(0, d);
        m = m / 10;
        proof {
            assert(d == digit_byte(m_pre % 10));
            assert(spec_digits(m_pre) == spec_digits(m_pre / 10).push(digit_byte(m_pre % 10)));
            assert(v@ == v_pre.insert(0, d));
            assert(spec_digits(m as nat) + v@ =~= spec_digits(m_pre) + v_pre);
        }
    }
    proof {
        assert(spec_digits(n as nat) =~= v@);
    }
    v
}

/// Signed decimal: a `-` sign, then the magnitude's digits.
fn enc_i64(x: i64) -> (v: Vec<u8>)
    ensures
        v@ == spec_enc_int(x as int),
{
    if x >= 0 {
        let v = enc_u64(x as u64);
        proof {
            assert(spec_enc_int(x as int) == spec_enc_nat(x as nat));
        }
        v
    } else {
        let mag: u64 = ((-(x + 1)) as u64) + 1;
        proof {
            assert(mag as int == -(x as int));
        }
        let mut digits = enc_u64(mag);
        let mut v: Vec<u8> = Vec::new();
        v.push(45);
        v.append(&mut digits);
        proof {
            assert(v@ =~= seq![45u8] + spec_enc_nat((-(x as int)) as nat));
        }
        v
    }
}

/// The literal bytes of `{"time":`.
fn lit_head_vec() -> (v: Vec<u8>)
    ensures
        v@ == lit_head(),
{
    let mut v: Vec<u8> = Vec::new();
    v.push(123);
    v.push(34);
    v.push(116);
    v.push(105);
    v.push(109);
    v.push(101);
    v.push(34);
    v.push(58);
    proof {
        assert(v@ =~= lit_head());
    }
    v
}

/// The literal bytes of `,"created_at":`.
fn lit_created_vec() -> (v: Vec<u8>)
    ensures
        v@ == lit_created(),
{
    let mut v: Vec<u8> = Vec::new();
    v.push(44);
    v.push(34);
    v.push(99);
    v.push(114);
    v.push(101);
    v.push(97);
    v.push(116);
    v.push(101);
    v.push(100);
    v.push(95);
    v.push(97);
    v.push(116);
    v.push(34);
    v.push(58);
    proof {
        assert(v@ =~= lit_created());
    }
    v
}

/// The literal bytes of `,"enabled":`.
fn lit_enabled_vec() -> (v: Vec<u8>)
    ensures
        v@ == lit_enabled(),
{
    let mut v: Vec<u8> = Vec::new();
    v.push(44);
    v.push(34);
    v.push(101);
    v.push(110);
    v.push(97);
    v.push(98);
    v.push(108);
    v.push(101);
    v.push(100);
    v.push(34);
    v.push(58);
    proof {
        assert(v@ =~= lit_enabled());
    }
    v
}

/// The literal bytes of `true`.
fn lit_true_vec() -> (v: Vec<u8>)
    ensures
        v@ == spec_enc_bool(true),
{
    let mut v: Vec<u8> = Vec::new();
    v.push(116);
    v.push(114);
    v.push(117);
    v.push(101);
    proof {
        assert(v@ =~= spec_enc_bool(true));
    }
    v
}

/// The literal bytes of `false`.
fn lit_false_vec() -> (v: Vec<u8>)
    ensures
        v@ == spec_enc_bool(false),
{
    let mut v: Vec<u8> = Vec::new();
    v.push(102);
    v.push(97);
    v.push(108);
    v.push(115);
    v.push(101);
    proof {
        assert(v@ =~= spec_enc_bool(false));
    }
    v
}

/// One alert rendered as its JSON object.
fn enc_alert(a: &Alert) -> (v: Vec<u8>)
    ensures
        v@ == spec_enc_alert(*a),
{
    let mut v = lit_head_vec();
    let mut part = enc_u64(a.time as u64);
    v.append(&mut part);
    let mut part = lit_created_vec();
    v.append(&mut part);
    let mut part = enc_i64(a.created_at);
    v.append(&mut part);
    let mut part = lit_enabled_vec();
    v.append(&mut part);
    let mut part = if a.enabled {
        lit_true_vec()
    } else {
        lit_false_vec()
    };
    v.append(&mut part);
    v.push(125);
    proof {
        assert(v@ =~= spec_enc_alert(*a));
    }
    v
}

/// The canonical encoding of a whole alert sequence.
pub fn encode(alerts: &Vec<Alert>) -> (v: Vec<u8>)
    ensures
        v@ == spec_encode(alerts@),
{
    let mut v: Vec<u8> = Vec::new();
    v.push(91);
    let mut i: usize = 0;
    proof {
        assert(alerts@.take(0) =~= Seq::<Alert>::empty());
        assert(v@ =~= seq![91u8] + spec_enc_items(alerts@.take(0)));
    }
    while i < alerts.len()
        invariant
            i <= alerts@.len(),
            v@ == seq![91u8] + spec_enc_items(alerts@.take(i as int)),
        decreases alerts@.len() - i,
    {
        let ghost v_pre: Seq<u8> = v@;
        if i > 0 {
            v.push(44);
        }
        let mut part = enc_alert(&alerts[i]);
        v.append(&mut part);
        proof {
            lemma_enc_items_snoc(alerts@.take(i as int), alerts@[i as int]);
            assert(alerts@.take(i + 1) =~= alerts@.take(i as int).push(alerts@[i as int]));
            assert(v@ =~= seq![91u8] + spec_enc_items(alerts@.take(i + 1)));
        }
        i = i + 1;
    }
    v.push(93);
    proof {
        assert(alerts@.take(alerts@.len() as int) =~= alerts@);
        assert(v@ =~= spec_encode(alerts@));
    }
    v
}

/// The canonical digits of a number are digits, are never empty, and never
/// start with a zero unless the number is zero.
pub proof fn lemma_enc_nat_props(n: nat)
    ensures
        spec_enc_nat(n).len() >= 1,
        forall|k: int| 0 <= k < spec_enc_nat(n).len() ==> is_digit(spec_enc_nat(n)[k]),
        n > 0 ==> spec_enc_nat(n)[0] != 48,
    decreases n,
{
    if n == 0 {
        assert(spec_enc_nat(0)[0] == 48);
    } else if n < 10 {
        assert(spec_digits(n) == spec_digits(n / 10).push(digit_byte(n % 10)));
        assert(spec_digits(n / 10) == Seq::<u8>::empty());
        assert(spec_digits(n) =~= seq![digit_byte(n)]);
        assert(digit_byte(n) == (48 + n) as u8);
    } else {
        lemma_enc_nat_props(n / 10);
        assert(spec_digits(n) == spec_digits(n / 10).push(digit_byte(n % 10)));
        assert(spec_enc_nat(n / 10) == spec_digits(n / 10));
        assert(spec_digits(n)[0] == spec_digits(n / 10)[0]);
    }
}

/// The numeric value of a sequence of ASCII digits.
pub open spec fn digit_val(b: u8) -> nat {
    if is_digit(b) {
        (b - 48) as nat
    } else {
        0
    }
}

/// The value of a digit string, most significant digit first.
pub open spec fn spec_val(s: Seq<u8>) -> nat
    decreases s.len(),
{
    if s.len() == 0 {
        0
    } else {
        spec_val(s.drop_last()) * 10 + digit_val(s.last())
    }
}

/// The canonical digits of `n` evaluate back to `n`.
pub proof fn lemma_val_digits(n: nat)
    ensures
        spec_val(spec_digits(n)) == n,
    decreases n,
{
    if n == 0 {
    } else {
        lemma_val_digits(n / 10);
        assert(spec_digits(n) == spec_digits(n / 10).push(digit_byte(n % 10)));
        assert(spec_digits(n).drop_last() =~= spec_digits(n / 10));
        assert(spec_digits(n).last() == digit_byte(n % 10));
        assert(digit_val(digit_byte(n % 10)) == n % 10);
        assert(spec_val(spec_digits(n)) == (n / 10) * 10 + n % 10);
    }
}

/// The canonical rendering of `n` evaluates back to `n`.
pub proof fn lemma_val_enc(n: nat)
    ensures
        spec_val(spec_enc_nat(n)) == n,
{
    if n == 0 {
        assert(spec_enc_nat(0) =~= seq![48u8]);
        assert(spec_enc_nat(0).drop_last() =~= Seq::<u8>::empty());
        assert(spec_val(Seq::<u8>::empty()) == 0);
        assert(spec_enc_nat(0).last() == 48);
        assert(spec_val(spec_enc_nat(0)) == spec_val(spec_enc_nat(0).drop_last()) * 10
            + digit_val(spec_enc_nat(0).last()));
    } else {
        lemma_val_digits(n);
    }
}

/// A digit-string prefix never evaluates above the whole string.
pub proof fn lemma_val_prefix_le(s: Seq<u8>, k: int)
    requires
        0 <= k <= s.len(),
    ensures
        spec_val(s.subrange(0, k)) <= spec_val(s),
    decreases s.len() - k,
{
    if k == s.len() {
        assert(s.subrange(0, k) =~= s);
    } else {
        lemma_val_prefix_le(s.drop_last(), k);
        assert(s.drop_last().subrange(0, k) =~= s.subrange(0, k));
        assert(spec_val(s) == spec_val(s.drop_last()) * 10 + digit_val(s.last()));
    }
}

/// A canonical unsigned number stands at position `i` of `b`: the digits
/// match and the run of digits ends there.
pub open spec fn canon_nat_at(b: Seq<u8>, i: int, n: u64) -> bool {
    let e = spec_enc_nat(n as nat);
    &&& 0 <= i
    &&& i + e.len() <= b.len()
    &&& b.subrange(i, i + e.len()) == e
    &&& (i + e.len() == b.len() || !is_digit(b[i + e.len()]))
}

/// At one position of one byte string, at most one canonical number stands.
pub proof fn lemma_canon_nat_unique(b: Seq<u8>, i: int, n1: u64, n2: u64)
    requires
        canon_nat_at(b, i, n1),
        canon_nat_at(b, i, n2),
    ensures
        n1 == n2,
{
    let e1 = spec_enc_nat(n1 as nat);
    let e2 = spec_enc_nat(n2 as nat);
    lemma_enc_nat_props(n1 as nat);
    lemma_enc_nat_props(n2 as nat);
    if e1.len() < e2.len() {
        assert(b[i + e1.len()] == e2[e1.len() as int]);
        assert(is_digit(e2[e1.len() as int]));
        assert(i + e1.len() < b.len());
        assert(false);
    } else if e2.len() < e1.len() {
        assert(b[i + e2.len()] == e1[e2.len() as int]);
        assert(is_digit(e1[e2.len() as int]));
        assert(i + e2.len() < b.len());
        assert(false);
    } else {
        assert(e1 =~= e2);
        lemma_val_enc(n1 as nat);
        lemma_val_enc(n2 as nat);
    }
}

/// Read a canonical unsigned decimal at position `i`. Whatever comes back
/// on other inputs, on a canonical number the exact value and end position
/// come back.
fn parse_u64(b: &Vec<u8>, i: usize) -> (r: Option<(u64, usize)>)
    requires
        i <= b@.len(),
    ensures
        r matches Some(p) ==> i < p.1 <= b@.len(),
        forall|n: u64| canon_nat_at(b@, i as int, n) ==> (r matches Some(p) && p.0 == n && p.1
            == i + spec_enc_nat(n as nat).len()),
{
    let ghost has: bool = exists|n: u64| canon_nat_at(b@, i as int, n);
    let ghost gn: u64 = if has {
        choose|n: u64| canon_nat_at(b@, i as int, n)
    } else {
        0
    };
    let ghost ge: Seq<u8> = spec_enc_nat(gn as nat);
    proof {
        if has {
            lemma_enc_nat_props(gn as nat);
        }
    }
    if i == b.len() {
        proof {
            assert forall|n: u64| !canon_nat_at(b@, i as int, n) by {
                lemma_enc_nat_props(n as nat);
            }
        }
        return None;
    }
    let b0: u8 = b[i];
    if !(48 <= b0 && b0 <= 57) {
        proof {
            assert forall|n: u64| !canon_nat_at(b@, i as int, n) by {
                lemma_enc_nat_props(n as nat);
                if canon_nat_at(b@, i as int, n) {
                    assert(b@[i as int] == spec_enc_nat(n as nat)[0]);
                }
            }
        }
        return None;
    }
    if b0 == 48 {
        proof {
            assert forall|n: u64| canon_nat_at(b@, i as int, n) implies n == 0 by {
                lemma_enc_nat_props(n as nat);
                if n > 0 {
                    assert(b@[i as int] == spec_enc_nat(n as nat)[0]);
                }
            }
        }
        return Some((0, i + 1));
    }
    // A nonzero leading digit: accumulate the maximal digit run.
    let mut acc: u64 = (b0 - 48) as u64;
    let mut j: usize = i + 1;
    proof {
        if has {
            assert(b@[i as int] == ge[0]);
            assert(gn != 0);
        }
        assert(b@.subrange(i as int, i + 1) =~= seq![b@[i as int]]);
        assert(b@.subrange(i as int, i + 1).drop_last() =~= Seq::<u8>::empty());
        assert(spec_val(Seq::<u8>::empty()) == 0);
        assert(b@.subrange(i as int, i + 1).last() == b0);
        assert(spec_val(b@.subrange(i as int, i + 1)) == spec_val(
            b@.subrange(i as int, i + 1).drop_last(),
        ) * 10 + digit_val(b@.subrange(i as int, i + 1).last()));
    }
    while j < b.len() && 48 <= b[j] && b[j] <= 57
        invariant
            i < j <= b@.len(),
            forall|k: int| i <= k < j ==> is_digit(b@[k]),
            acc == spec_val(b@.subrange(i as int, j as int)),
            has ==> canon_nat_at(b@, i as int, gn),
            has ==> gn > 0 && ge == spec_enc_nat(gn as nat),
            has ==> j <= i + ge.len(),
            forall|n: u64| canon_nat_at(b@, i as int, n) ==> has,
        decreases b@.len() - j,
    {
        let d: u8 = b[j] - 48;
        proof {
            if has {
                // Still inside the canonical run: its end is not a digit.
                if j == i + ge.len() {
                    assert(!is_digit(b@[j as int]));
                    assert(false);
                }
                assert(b@.subrange(i as int, j + 1) =~= ge.subrange(0, j + 1 - i));
                lemma_val_prefix_le(ge, j + 1 - i);
                lemma_val_enc(gn as nat);
                assert(b@.subrange(i as int, j + 1).drop_last() =~= b@.subrange(
                    i as int,
                    j as int,
                ));
                assert(spec_val(b@.subrange(i as int, j + 1)) == acc * 10 + (d as nat));
                assert(acc * 10 + (d as nat) <= gn as nat);
            }
        }
        if acc > (u64::MAX - (d as u64)) / 10 {
            proof {
                if has {
                    assert(acc * 10 + (d as nat) > u64::MAX);
                    assert(false);
                }
                assert forall|n: u64| !canon_nat_at(b@, i as int, n) by {}
            }
            return None;
        }
        acc = acc * 10 + (d as u64);
        j = j + 1;
        proof {
            assert(b@.subrange(i as int, j as int).drop_last() =~= b@.subrange(
                i as int,
                j - 1,
            ));
            assert(b@.subrange(i as int, j as int).last() == b@[j - 1]);
        }
    }
    proof {
        if has {
            lemma_enc_nat_props(gn as nat);
            // The loop stops exactly at the canonical run's end.
            if j < i + ge.len() {
                assert(b@[j as int] == ge[j - i]);
                assert(is_digit(b@[j as int]));
                assert(j < b@.len());
                assert(false);
            }
            assert(j == i + ge.len());
            assert(b@.subrange(i as int, j as int) == ge);
            lemma_val_enc(gn as nat);
            assert(acc == gn);
        }
        assert forall|n: u64| canon_nat_at(b@, i as int, n) implies (n == gn && has) by {
            lemma_canon_nat_unique(b@, i as int, n, gn);
        }
    }
    Some((acc, j))
}

/// A window equal to `e` makes every inner window equal to the matching
/// window of `e`.
pub proof fn lemma_subrange_shift(b: Seq<u8>, i: int, e: Seq<u8>, x: int, y: int)
    requires
        0 <= i,
        i + e.len() <= b.len(),
        b.subrange(i, i + e.len()) == e,
        0 <= x <= y <= e.len(),
    ensures
        b.subrange(i + x, i + y) == e.subrange(x, y),
{
    assert forall|t: int| 0 <= t < y - x implies b.subrange(i + x, i + y)[t] == e.subrange(
        x,
        y,
    )[t] by {
        assert(b.subrange(i, i + e.len())[x + t] == b[i + x + t]);
    }
    assert(b.subrange(i + x, i + y) =~= e.subrange(x, y));
}

/// A canonical signed number stands at position `i` of `b`.
pub open spec fn canon_int_at(b: Seq<u8>, i: int, v: i64) -> bool {
    let e = spec_enc_int(v as int);
    &&& 0 <= i
    &&& i + e.len() <= b.len()
    &&& b.subrange(i, i + e.len()) == e
    &&& (i + e.len() == b.len() || !is_digit(b[i + e.len()]))
}

/// A negative canonical number is a `-` and then its canonical magnitude.
pub proof fn lemma_canon_int_neg(b: Seq<u8>, i: int, v: i64)
    requires
        canon_int_at(b, i, v),
        v < 0,
    ensures
        b[i] == 45,
        canon_nat_at(b, i + 1, (-(v as int)) as u64),
{
    let e = spec_enc_int(v as int);
    let m = spec_enc_nat((-(v as int)) as nat);
    assert(e == seq![45u8] + m);
    assert(b[i] == e[0]);
    lemma_subrange_shift(b, i, e, 1, e.len() as int);
    assert(e.subrange(1, e.len() as int) =~= m);
    assert(((-(v as int)) as u64) as nat == (-(v as int)) as nat);
}

/// At one position of one byte string, at most one canonical signed number
/// stands.
pub proof fn lemma_canon_int_unique(b: Seq<u8>, i: int, v1: i64, v2: i64)
    requires
        canon_int_at(b, i, v1),
        canon_int_at(b, i, v2),
    ensures
        v1 == v2,
{
    if v1 < 0 && v2 < 0 {
        lemma_canon_int_neg(b, i, v1);
        lemma_canon_int_neg(b, i, v2);
        lemma_canon_nat_unique(b, i + 1, (-(v1 as int)) as u64, (-(v2 as int)) as u64);
    } else if v1 < 0 && v2 >= 0 {
        lemma_canon_int_neg(b, i, v1);
        lemma_enc_nat_props(v2 as nat);
        assert(b[i] == spec_enc_int(v2 as int)[0]);
        assert(is_digit(b[i]));
        assert(false);
    } else if v2 < 0 && v1 >= 0 {
        lemma_canon_int_neg(b, i, v2);
        lemma_enc_nat_props(v1 as nat);
        assert(b[i] == spec_enc_int(v1 as int)[0]);
        assert(is_digit(b[i]));
        assert(false);
    } else {
        assert(canon_nat_at(b, i, v1 as u64));
        assert(canon_nat_at(b, i, v2 as u64));
        lemma_canon_nat_unique(b, i, v1 as u64, v2 as u64);
    }
}

/// Read a canonical signed decimal at position `i`.
fn parse_i64(b: &Vec<u8>, i: usize) -> (r: Option<(i64, usize)>)
    requires
        i <= b@.len(),
    ensures
        r matches Some(p) ==> i < p.1 <= b@.len(),
        forall|v: i64| canon_int_at(b@, i as int, v) ==> (r matches Some(p) && p.0 == v && p.1
            == i + spec_enc_int(v as int).len()),
{
    if i < b.len() && b[i] == 45 {
        proof {
            assert forall|v: i64| canon_int_at(b@, i as int, v) implies v < 0 by {
                if v >= 0 {
                    lemma_enc_nat_props(v as nat);
                    assert(b@[i as int] == spec_enc_int(v as int)[0]);
                }
            }
            assert forall|v: i64|
                canon_int_at(b@, i as int, v) implies canon_nat_at(
                b@,
                i + 1,
                (-(v as int)) as u64,
            ) by {
                lemma_canon_int_neg(b@, i as int, v);
            }
        }
        match parse_u64(b, i + 1) {
            None => {
                proof {
                    assert forall|v: i64| !canon_int_at(b@, i as int, v) by {}
                }
                None
            },
            Some((u, j)) => {
                if u <= 9223372036854775807u64 {
                    proof {
                        assert forall|v: i64|
                            canon_int_at(b@, i as int, v) implies v == -(u as i64) && i
                            + spec_enc_int(v as int).len() == j by {
                            assert((-(v as int)) as u64 == u);
                        }
                    }
                    Some((-(u as i64), j))
                } else if u == 9223372036854775808u64 {
                    proof {
                        assert forall|v: i64|
                            canon_int_at(b@, i as int, v) implies v == i64::MIN && i + spec_enc_int(
                            v as int,
                        ).len() == j by {
                            assert((-(v as int)) as u64 == u);
                        }
                    }
                    Some((i64::MIN, j))
                } else {
                    proof {
                        assert forall|v: i64| !canon_int_at(b@, i as int, v) by {
                            if canon_int_at(b@, i as int, v) {
                                assert((-(v as int)) as u64 == u);
                            }
                        }
                    }
                    None
                }
            },
        }
    } else {
        proof {
            assert forall|v: i64| canon_int_at(b@, i as int, v) implies v >= 0 && canon_nat_at(
                b@,
                i as int,
                v as u64,
            ) by {
                if v < 0 {
                    lemma_canon_int_neg(b@, i as int, v);
                    assert(i < b@.len());
                }
            }
        }
        match parse_u64(b, i) {
            None => {
                proof {
                    assert forall|v: i64| !canon_int_at(b@, i as int, v) by {}
                }
                None
            },
            Some((u, j)) => {
                if u <= 9223372036854775807u64 {
                    Some((u as i64, j))
                } else {
                    proof {
                        assert forall|v: i64| !canon_int_at(b@, i as int, v) by {
                            if canon_int_at(b@, i as int, v) {
                                assert(v as u64 == u);
                            }
                        }
                    }
                    None
                }
            },
        }
    }
}

/// Does the literal stand at position `i` of `b`? Exactly that, as a
/// boolean.
fn match_lit(b: &Vec<u8>, i: usize, lit: &Vec<u8>) -> (r: bool)
    requires
        i <= b@.len(),
    ensures
        r == (i + lit@.len() <= b@.len() && b@.subrange(i as int, i + lit@.len()) == lit@),
        b@.len() <= usize::MAX,
{
    if b.len() - i < lit.len() {
        return false;
    }
    let mut k: usize = 0;
    while k < lit.len()
        invariant
            k <= lit@.len(),
            i + lit@.len() <= b@.len(),
            b@.len() <= usize::MAX,
            forall|t: int| 0 <= t < k ==> b@[i + t] == lit@[t],
        decreases lit@.len() - k,
    {
        if b[i + k] != lit[k] {
            proof {
                assert(b@.subrange(i as int, i + lit@.len())[k as int] == b@[i + k]);
            }
            return false;
        }
        k = k + 1;
    }
    proof {
        assert(b@.subrange(i as int, i + lit@.len()) =~= lit@);
    }
    true
}

/// A canonical boolean literal stands at position `i` of `b`.
pub open spec fn canon_bool_at(b: Seq<u8>, i: int, v: bool) -> bool {
    let e = spec_enc_bool(v);
    &&& 0 <= i
    &&& i + e.len() <= b.len()
    &&& b.subrange(i, i + e.len()) == e
}

/// Read `true` or `false` at position `i`.
fn parse_bool(b: &Vec<u8>, i: usize) -> (r: Option<(bool, usize)>)
    requires
        i <= b@.len(),
    ensures
        r matches Some(p) ==> i < p.1 <= b@.len(),
        forall|v: bool| canon_bool_at(b@, i as int, v) ==> (r matches Some(p) && p.0 == v && p.1
            == i + spec_enc_bool(v).len()),
{
    let t = lit_true_vec();
    if match_lit(b, i, &t) {
        proof {
            assert forall|v: bool| canon_bool_at(b@, i as int, v) implies v == true by {
                if !v {
                    assert(b@[i as int] == spec_enc_bool(false)[0]);
                    assert(b@[i as int] == spec_enc_bool(true)[0]);
                }
            }
        }
        Some((true, i + 4))
    } else {
        let f = lit_false_vec();
        if match_lit(b, i, &f) {
            proof {
                assert forall|v: bool| canon_bool_at(b@, i as int, v) implies v == false by {}
            }
            Some((false, i + 5))
        } else {
            proof {
                assert forall|v: bool| !canon_bool_at(b@, i as int, v) by {}
            }
            None
        }
    }
}

/// Length of the interval's digits inside an encoded alert.
pub open spec fn len_time(a: Alert) -> int {
    spec_enc_nat(a.time as nat).len() as int
}

/// Offset of the creation time's digits inside an encoded alert.
pub open spec fn off_created(a: Alert) -> int {
    8 + len_time(a) + 14
}

/// Offset of the enabled flag's literal value inside an encoded alert.
pub open spec fn off_enabled(a: Alert) -> int {
    off_created(a) + spec_enc_int(a.created_at as int).len() + 11
}

/// Offset of the closing brace inside an encoded alert.
pub open spec fn off_close(a: Alert) -> int {
    off_enabled(a) + spec_enc_bool(a.enabled).len()
}

/// A canonical alert object stands at position `i` of `b`.
pub open spec fn canon_item_at(b: Seq<u8>, i: int, a: Alert) -> bool {
    let e = spec_enc_alert(a);
    &&& 0 <= i
    &&& i + e.len() <= b.len()
    &&& b.subrange(i, i + e.len()) == e
}

/// An encoded alert at position `i` puts each of its parts at its offset,
/// and each number's digit run ends at the literal that follows it.
pub proof fn lemma_canon_item_fields(b: Seq<u8>, i: int, a: Alert)
    requires
        canon_item_at(b, i, a),
    ensures
        spec_enc_alert(a).len() == off_close(a) + 1,
        b.subrange(i, i + 8) == lit_head(),
        canon_nat_at(b, i + 8, a.time as u64),
        b.subrange(i + 8 + len_time(a), i + off_created(a)) == lit_created(),
        canon_int_at(b, i + off_created(a), a.created_at),
        b.subrange(i + off_enabled(a) - 11, i + off_enabled(a)) == lit_enabled(),
        canon_bool_at(b, i + off_enabled(a), a.enabled),
        b[i + off_close(a)] == 125,
{
    let e = spec_enc_alert(a);
    let p2 = spec_enc_nat(a.time as nat);
    let p4 = spec_enc_int(a.created_at as int);
    let p6 = spec_enc_bool(a.enabled);
    assert(e.len() == 8 + p2.len() + 14 + p4.len() + 11 + p6.len() + 1);
    assert(e.subrange(0, 8) =~= lit_head());
    lemma_subrange_shift(b, i, e, 0, 8);
    assert(e.subrange(8, 8 + p2.len() as int) =~= p2);
    lemma_subrange_shift(b, i, e, 8, 8 + p2.len() as int);
    assert(e.subrange(8 + p2.len() as int, off_created(a)) =~= lit_created());
    lemma_subrange_shift(b, i, e, 8 + p2.len() as int, off_created(a));
    assert(e.subrange(off_created(a), off_created(a) + p4.len()) =~= p4);
    lemma_subrange_shift(b, i, e, off_created(a), off_created(a) + p4.len());
    let front = lit_head() + p2 + lit_created() + p4;
    assert(lit_head().len() == 8);
    assert(lit_created().len() == 14);
    assert(lit_enabled().len() == 11);
    assert(front.len() == 8 + p2.len() + 14 + p4.len());
    assert(len_time(a) == p2.len());
    assert(off_enabled(a) == 8 + p2.len() + 14 + p4.len() + 11);
    assert(front.len() == off_enabled(a) - 11);
    assert forall|t: int| 0 <= t < 11 implies e[front.len() + t] == lit_enabled()[t] by {
        assert((front + lit_enabled())[front.len() + t] == lit_enabled()[t]);
        assert(e[front.len() + t] == (front + lit_enabled())[front.len() + t]);
    }
    assert(e.subrange(off_enabled(a) - 11, off_enabled(a)) =~= lit_enabled());
    lemma_subrange_shift(b, i, e, off_enabled(a) - 11, off_enabled(a));
    assert(e.subrange(off_enabled(a), off_close(a)) =~= p6);
    lemma_subrange_shift(b, i, e, off_enabled(a), off_close(a));
    assert(e[off_close(a)] == 125);
    assert(b[i + off_close(a)] == e[off_close(a)]);
    // The digit run of the interval ends at the comma of `,"created_at":`.
    assert(b[i + 8 + p2.len()] == lit_created()[0]);
    assert(!is_digit(44));
    assert(i + 8 + p2.len() < b.len());
    // The digit run of the creation time ends at the comma of `,"enabled":`.
    assert(b[i + off_created(a) + p4.len()] == lit_enabled()[0]);
    assert(i + off_created(a) + p4.len() < b.len());
    assert((a.time as u64) as nat == a.time as nat);
}

/// At one position of one byte string, at most one canonical alert stands.
pub proof fn lemma_canon_item_unique(b: Seq<u8>, i: int, a1: Alert, a2: Alert)
    requires
        canon_item_at(b, i, a1),
        canon_item_at(b, i, a2),
    ensures
        a1 == a2,
{
    lemma_canon_item_fields(b, i, a1);
    lemma_canon_item_fields(b, i, a2);
    lemma_canon_nat_unique(b, i + 8, a1.time as u64, a2.time as u64);
    assert(a1.time == a2.time);
    assert(off_created(a1) == off_created(a2));
    lemma_canon_int_unique(b, i + off_created(a1), a1.created_at, a2.created_at);
    assert(off_enabled(a1) == off_enabled(a2));
    if a1.enabled != a2.enabled {
        assert(b[i + off_enabled(a1)] == spec_enc_bool(a1.enabled)[0]);
        assert(b[i + off_enabled(a2)] == spec_enc_bool(a2.enabled)[0]);
        assert(false);
    }
}

/// Read one canonical alert object at position `i`.
fn parse_item(b: &Vec<u8>, i: usize) -> (r: Option<(Alert, usize)>)
    requires
        i <= b@.len(),
    ensures
        r matches Some(p) ==> i < p.1 <= b@.len(),
        forall|a: Alert| canon_item_at(b@, i as int, a) ==> (r matches Some(p) && p.0 == a && p.1
            == i + spec_enc_alert(a).len()),
{
    let ghost hasa: bool = exists|a: Alert| canon_item_at(b@, i as int, a);
    let ghost ga: Alert = choose|a: Alert| canon_item_at(b@, i as int, a);
    proof {
        if hasa {
            lemma_canon_item_fields(b@, i as int, ga);
        }
    }
    let lh = lit_head_vec();
    if !match_lit(b, i, &lh) {
        proof {
            if hasa {
                assert(false);
            }
            assert forall|a: Alert| !canon_item_at(b@, i as int, a) by {}
        }
        return None;
    }
    let j0: usize = i + 8;
    match parse_u64(b, j0) {
        None => {
            proof {
                if hasa {
                    assert(false);
                }
                assert forall|a: Alert| !canon_item_at(b@, i as int, a) by {}
            }
            None
        },
        Some((t, j1)) => {
            if t > 255 {
                proof {
                    if hasa {
                        assert(t == ga.time as u64);
                        assert(false);
                    }
                    assert forall|a: Alert| !canon_item_at(b@, i as int, a) by {}
                }
                return None;
            }
            let time: u8 = t as u8;
            let lc = lit_created_vec();
            if !match_lit(b, j1, &lc) {
                proof {
                    if hasa {
                        assert(j1 == i + 8 + len_time(ga));
                        assert(false);
                    }
                    assert forall|a: Alert| !canon_item_at(b@, i as int, a) by {}
                }
                return None;
            }
            let j2: usize = j1 + 14;
            match parse_i64(b, j2) {
                None => {
                    proof {
                        if hasa {
                            assert(j2 == i + off_created(ga));
                            assert(false);
                        }
                        assert forall|a: Alert| !canon_item_at(b@, i as int, a) by {}
                    }
                    None
                },
                Some((ts, j3)) => {
                    let le = lit_enabled_vec();
                    if !match_lit(b, j3, &le) {
                        proof {
                            if hasa {
                                assert(j3 == i + off_created(ga) + spec_enc_int(
                                    ga.created_at as int,
                                ).len());
                                assert(false);
                            }
                            assert forall|a: Alert| !canon_item_at(b@, i as int, a) by {}
                        }
                        return None;
                    }
                    let j4: usize = j3 + 11;
                    match parse_bool(b, j4) {
                        None => {
                            proof {
                                if hasa {
                                    assert(j4 == i + off_enabled(ga));
                                    assert(false);
                                }
                                assert forall|a: Alert| !canon_item_at(b@, i as int, a) by {}
                            }
                            None
                        },
                        Some((en, j5)) => {
                            if j5 < b.len() && b[j5] == 125 {
                                let a = Alert { time, created_at: ts, enabled: en };
                                proof {
                                    if hasa {
                                        assert(j5 == i + off_close(ga));
                                        assert(a == ga);
                                        assert(j5 + 1 == i + spec_enc_alert(ga).len());
                                    }
                                    assert forall|x: Alert|
                                        canon_item_at(b@, i as int, x) implies x == ga by {
                                        lemma_canon_item_unique(b@, i as int, x, ga);
                                    }
                                }
                                Some((a, j5 + 1))
                            } else {
                                proof {
                                    if hasa {
                                        assert(j5 == i + off_close(ga));
                                        assert(b@[j5 as int] == 125);
                                        assert(j5 < b@.len());
                                        assert(false);
                                    }
                                    assert forall|a: Alert| !canon_item_at(b@, i as int, a) by {}
                                }
                                None
                            }
                        },
                    }
                },
            }
        },
    }
}

/// A nonempty item list starts with its first alert's object, and a comma
/// follows it when more items come.
pub proof fn lemma_items_decomp(rem: Seq<Alert>)
    requires
        rem.len() >= 1,
    ensures
        spec_enc_items(rem).len() >= spec_enc_alert(rem[0]).len(),
        spec_enc_items(rem).subrange(0, spec_enc_alert(rem[0]).len() as int) == spec_enc_alert(
            rem[0],
        ),
        rem.len() == 1 ==> spec_enc_items(rem) == spec_enc_alert(rem[0]),
        rem.len() > 1 ==> spec_enc_items(rem) == spec_enc_alert(rem[0]) + seq![44u8]
            + spec_enc_items(rem.skip(1)),
        rem.len() > 1 ==> spec_enc_items(rem)[spec_enc_alert(rem[0]).len() as int] == 44,
        rem.len() > 1 ==> spec_enc_items(rem).len() >= spec_enc_alert(rem[0]).len() + 2,
        spec_enc_alert(rem[0]).len() >= 1,
{
    let ea = spec_enc_alert(rem[0]);
    if rem.len() == 1 {
        assert(spec_enc_items(rem).subrange(0, ea.len() as int) =~= ea);
    } else {
        lemma_items_len_pos(rem.skip(1));
        assert(spec_enc_items(rem).subrange(0, ea.len() as int) =~= ea);
        assert(spec_enc_items(rem)[ea.len() as int] == (ea + seq![44u8])[ea.len() as int]);
    }
}

/// The encoding of a nonempty item list is never empty.
pub proof fn lemma_items_len_pos(s: Seq<Alert>)
    requires
        s.len() >= 1,
    ensures
        spec_enc_items(s).len() >= 1,
{
    assert(spec_enc_alert(s[0]).len() >= 1);
}

/// Equal item encodings come from equal alert sequences.
pub proof fn lemma_enc_items_unique(s1: Seq<Alert>, s2: Seq<Alert>)
    requires
        spec_enc_items(s1) == spec_enc_items(s2),
    ensures
        s1 == s2,
    decreases s1.len(),
{
    if s1.len() == 0 {
        if s2.len() >= 1 {
            lemma_items_len_pos(s2);
            assert(false);
        }
        assert(s1 =~= s2);
    } else if s2.len() == 0 {
        lemma_items_len_pos(s1);
        assert(false);
    } else {
        lemma_items_decomp(s1);
        lemma_items_decomp(s2);
        let b = spec_enc_items(s1);
        assert(canon_item_at(b, 0, s1[0]));
        assert(canon_item_at(b, 0, s2[0]));
        lemma_canon_item_unique(b, 0, s1[0], s2[0]);
        let ea = spec_enc_alert(s1[0]);
        if s1.len() == 1 && s2.len() == 1 {
            assert(s1 =~= s2);
        } else if s1.len() == 1 {
            assert(b.len() == ea.len());
            assert(false);
        } else if s2.len() == 1 {
            assert(b.len() == ea.len());
            assert(false);
        } else {
            let t1 = spec_enc_items(s1.skip(1));
            let t2 = spec_enc_items(s2.skip(1));
            assert(t1.len() == t2.len());
            assert forall|t: int| 0 <= t < t1.len() implies t1[t] == t2[t] by {
                assert(t1[t] == (ea + seq![44u8] + t1)[ea.len() + 1 + t]);
                assert(t2[t] == (ea + seq![44u8] + t2)[ea.len() + 1 + t]);
            }
            assert(t1 =~= t2);
            lemma_enc_items_unique(s1.skip(1), s2.skip(1));
            assert(s1.len() == s2.len());
            assert forall|t: int| 0 <= t < s1.len() implies s1[t] == s2[t] by {
                if t >= 1 {
                    assert(s1[t] == s1.skip(1)[t - 1]);
                    assert(s2[t] == s2.skip(1)[t - 1]);
                }
            }
            assert(s1 =~= s2);
        }
    }
}

/// Equal encodings come from equal alert sequences: the format is
/// unambiguous.
pub proof fn lemma_encode_unique(s1: Seq<Alert>, s2: Seq<Alert>)
    requires
        spec_encode(s1) == spec_encode(s2),
    ensures
        s1 == s2,
{
    let i1 = spec_enc_items(s1);
    let i2 = spec_enc_items(s2);
    assert(spec_encode(s1) == seq![91u8] + i1 + seq![93u8]);
    assert(spec_encode(s2) == seq![91u8] + i2 + seq![93u8]);
    assert((seq![91u8] + i1 + seq![93u8]).len() == 2 + i1.len());
    assert((seq![91u8] + i2 + seq![93u8]).len() == 2 + i2.len());
    assert(i1.len() == i2.len());
    assert forall|t: int| 0 <= t < i1.len() implies i1[t] == i2[t] by {
        assert(i1[t] == (seq![91u8] + i1 + seq![93u8])[1 + t]);
        assert(i2[t] == (seq![91u8] + i2 + seq![93u8])[1 + t]);
    }
    assert(i1 =~= i2);
    lemma_enc_items_unique(s1, s2);
}

/// Parse the whole buffer as a bracketed item list. On any byte string
/// that is a canonical encoding, the encoded sequence comes back.
fn try_parse_all(b: &Vec<u8>) -> (r: Option<Vec<Alert>>)
    requires
        b@.len() >= 1,
    ensures
        forall|s: Seq<Alert>| b@ == spec_encode(s) ==> (r matches Some(v) && v@ == s),
{
    let ghost has: bool = exists|s: Seq<Alert>| b@ == spec_encode(s);
    let ghost gs: Seq<Alert> = choose|s: Seq<Alert>| b@ == spec_encode(s);
    let blen: usize = b.len();
    if b[0] != 91 {
        proof {
            if has {
                assert(b@[0] == spec_encode(gs)[0]);
                assert(false);
            }
            assert forall|s: Seq<Alert>| b@ != spec_encode(s) by {}
        }
        return None;
    }
    let mut out: Vec<Alert> = Vec::new();
    if 2 <= blen && b[1] == 93 {
        proof {
            assert(out@ =~= Seq::<Alert>::empty());
            assert forall|s: Seq<Alert>| b@ == spec_encode(s) implies out@ == s by {
                if s.len() >= 1 {
                    lemma_items_decomp(s);
                    assert(b@[1] == (seq![91u8] + spec_enc_items(s) + seq![93u8])[1]);
                    assert(b@[1] == spec_enc_items(s)[0]);
                    assert(spec_enc_items(s)[0] == spec_enc_alert(s[0])[0]);
                    assert(false);
                }
                assert(s =~= Seq::<Alert>::empty());
            }
        }
        return Some(out);
    }
    let mut j: usize = 1;
    proof {
        if has {
            if gs.len() == 0 {
                assert(b@ =~= seq![91u8] + seq![93u8]);
                assert(b@.len() == 2 && b@[1] == 93);
                assert(false);
            }
            assert(b@.subrange(1, blen as int) =~= spec_enc_items(gs) + seq![93u8]);
            assert(gs.skip(0) =~= gs);
            assert(out@ =~= gs.take(0));
        }
    }
    loop
        invariant
            1 <= j <= b@.len(),
            b@.len() == blen,
            blen <= usize::MAX,
            has ==> b@ == spec_encode(gs),
            forall|s: Seq<Alert>| b@ == spec_encode(s) ==> has,
            has ==> out@.len() < gs.len(),
            has ==> out@ == gs.take(out@.len() as int),
            has ==> b@.subrange(j as int, blen as int) == spec_enc_items(
                gs.skip(out@.len() as int),
            ) + seq![93u8],
        decreases b@.len() - j,
    {
        let ghost k: int = out@.len() as int;
        let ghost rem: Seq<Alert> = gs.skip(k);
        proof {
            if has {
                lemma_items_decomp(rem);
                let tail = spec_enc_items(rem) + seq![93u8];
                let ea = spec_enc_alert(rem[0]);
                lemma_subrange_shift(b@, j as int, tail, 0, ea.len() as int);
                assert(tail.subrange(0, ea.len() as int) =~= spec_enc_items(rem).subrange(
                    0,
                    ea.len() as int,
                ));
                assert(b@.subrange(j as int, j + ea.len()) == ea);
                assert(canon_item_at(b@, j as int, rem[0]));
            }
        }
        match parse_item(b, j) {
            None => {
                proof {
                    if has {
                        assert(false);
                    }
                    assert forall|s: Seq<Alert>| b@ != spec_encode(s) by {}
                }
                return None;
            },
            Some((a, j2)) => {
                proof {
                    if has {
                        assert(a == gs.skip(k)[0]);
                        assert(gs.skip(k)[0] == gs[k]);
                        assert(out@.push(a) =~= gs.take(k + 1));
                    }
                }
                out.push(a);
                if j2 < blen && b[j2] == 93 {
                    proof {
                        if has {
                            let rem2 = gs.skip(k);
                            let tail = spec_enc_items(rem2) + seq![93u8];
                            let ea = spec_enc_alert(rem2[0]);
                            lemma_items_decomp(rem2);
                            assert(b@.subrange(j as int, blen as int)[j2 - j] == b@[j2 as int]);
                            if rem2.len() > 1 {
                                assert(tail[ea.len() as int] == 44);
                                assert(j2 - j == ea.len());
                                assert(false);
                            }
                            assert(k + 1 == gs.len());
                            assert(out@ =~= gs);
                        }
                        assert forall|s: Seq<Alert>|
                            b@ == spec_encode(s) implies out@ == s by {
                            lemma_encode_unique(s, gs);
                        }
                    }
                    return Some(out);
                } else if j2 < blen && b[j2] == 44 {
                    proof {
                        if has {
                            let rem2 = gs.skip(k);
                            let tail = spec_enc_items(rem2) + seq![93u8];
                            let ea = spec_enc_alert(rem2[0]);
                            lemma_items_decomp(rem2);
                            assert(b@.subrange(j as int, blen as int)[j2 - j] == b@[j2 as int]);
                            if rem2.len() == 1 {
                                assert(tail[ea.len() as int] == 93);
                                assert(j2 - j == ea.len());
                                assert(false);
                            }
                            // Step past the comma: the tail is the remaining items.
                            lemma_subrange_shift(
                                b@,
                                j as int,
                                tail,
                                ea.len() as int + 1,
                                tail.len() as int,
                            );
                            assert(gs.skip(k + 1) =~= rem2.skip(1));
                            assert(tail.subrange(ea.len() as int + 1, tail.len() as int)
                                =~= spec_enc_items(rem2.skip(1)) + seq![93u8]);
                            assert(b@.subrange(j2 + 1, blen as int) == spec_enc_items(
                                gs.skip(k + 1),
                            ) + seq![93u8]);
                        }
                    }
                    j = j2 + 1;
                } else {
                    proof {
                        if has {
                            let rem2 = gs.skip(k);
                            let tail = spec_enc_items(rem2) + seq![93u8];
                            let ea = spec_enc_alert(rem2[0]);
                            lemma_items_decomp(rem2);
                            assert(j2 - j == ea.len());
                            assert(blen - j == tail.len());
                            assert(j2 < blen);
                            assert(b@.subrange(j as int, blen as int)[j2 - j] == b@[j2 as int]);
                            if rem2.len() == 1 {
                                assert(tail[ea.len() as int] == 93);
                            } else {
                                assert(tail[ea.len() as int] == 44);
                            }
                            assert(false);
                        }
                        assert forall|s: Seq<Alert>| b@ != spec_encode(s) by {}
                    }
                    return None;
                }
            },
        }
    }
}

/// Are two byte strings equal, byte for byte?
fn bytes_eq(a: &Vec<u8>, b: &Vec<u8>) -> (r: bool)
    ensures
        r == (a@ == b@),
{
    if a.len() != b.len() {
        return false;
    }
    let mut k: usize = 0;
    while k < a.len()
        invariant
            k <= a@.len(),
            a@.len() == b@.len(),
            forall|t: int| 0 <= t < k ==> a@[t] == b@[t],
        decreases a@.len() - k,
    {
        if a[k] != b[k] {
            return false;
        }
        k = k + 1;
    }
    proof {
        assert(a@ =~= b@);
    }
    true
}

/// Decode a store file. The empty file is the empty sequence; otherwise
/// exactly the canonical encodings decode, to exactly the sequence that
/// was encoded, and everything else is refused.
pub fn decode(bytes: &Vec<u8>) -> (r: Option<Vec<Alert>>)
    ensures
        bytes@.len() == 0 ==> (r matches Some(v) && v@ == Seq::<Alert>::empty()),
        r matches Some(v) ==> (bytes@.len() == 0 || bytes@ == spec_encode(v@)),
        forall|s: Seq<Alert>| bytes@ == spec_encode(s) ==> (r matches Some(v) && v@ == s),
        r is None <==> (bytes@.len() > 0 && !(exists|s: Seq<Alert>| bytes@ == spec_encode(s))),
{
    if bytes.len() == 0 {
        let out: Vec<Alert> = Vec::new();
        proof {
            assert(out@ =~= Seq::<Alert>::empty());
            assert forall|s: Seq<Alert>| bytes@ != spec_encode(s) by {
                assert(spec_encode(s).len() >= 2);
            }
        }
        return Some(out);
    }
    match try_parse_all(bytes) {
        None => None,
        Some(v) => {
            let re = encode(&v);
            if bytes_eq(&re, bytes) {
                Some(v)
            } else {
                proof {
                    assert forall|s: Seq<Alert>| bytes@ != spec_encode(s) by {}
                }
                None
            }
        },
    }
}

} // verus!
