//! How the server picks a username for a new player: the requested name is
//! tried first; otherwise a number at its end is counted up until a name is
//! found that nobody has.

use vstd::prelude::*;
use vstd::utf8::*;

verus! {

pub const ASCII_ZERO: u8 = 48;

pub const ASCII_ONE: u8 = 49;

pub const ASCII_EIGHT: u8 = 56;

pub const ASCII_NINE: u8 = 57;

/// An ASCII decimal digit.
pub open spec fn is_digit(b: u8) -> bool {
    48 <= b <= 57
}

/// The first name tried: the requested name, with "1" appended unless it
/// already ends in a digit.
pub open spec fn first_candidate(b: Seq<u8>) -> Seq<u8> {
    if b.len() > 0 && is_digit(b.last()) {
        b
    } else {
        b.push(49)
    }
}

/// Adds one to the decimal number whose last digit is at `i`, carrying to
/// the left through the run of digits. A carry out of the leftmost digit of
/// the run turns it into "1" and appends a "0", so the run becomes one
/// digit longer ("9" to "10", "a99" to "a100").
pub open spec fn increment_at(b: Seq<u8>, i: int) -> Seq<u8>
    decreases i,
{
    if i < 0 || i >= b.len() {
        b
    } else if 48 <= b[i] <= 56 {
        b.update(i, (b[i] + 1) as u8)
    } else if b[i] == 57 {
        if i == 0 || !is_digit(b[i - 1]) {
            b.update(i, 49).push(48)
        } else {
            increment_at(b.update(i, 48), i - 1)
        }
    } else {
        b
    }
}

/// The name tried after `b`: its trailing number plus one.
pub open spec fn next_candidate(b: Seq<u8>) -> Seq<u8> {
    increment_at(b, b.len() - 1)
}

/// The `n`-th name tried (as UTF-8 bytes) for the requested name `wanted`.
pub open spec fn nth_candidate(wanted: Seq<char>, n: nat) -> Seq<u8>
    decreases n,
{
    if n == 0 {
        first_candidate(encode_utf8(wanted))
    } else {
        next_candidate(nth_candidate(wanted, (n - 1) as nat))
    }
}

/// The `n`-th name tried for the requested name `wanted`.
pub open spec fn candidate_name(wanted: Seq<char>, n: nat) -> Seq<char> {
    decode_utf8(nth_candidate(wanted, n))
}

/// `name` is the name given to a player who asked for `wanted` while the
/// names in `taken` were in use: `wanted` itself when it is already in use,
/// otherwise the first candidate that is free.
pub open spec fn allocated_name(taken: Set<Seq<char>>, wanted: Seq<char>, name: Seq<char>) -> bool {
    if taken.contains(wanted) {
        name == wanted
    } else {
        exists|n: nat|
            {
                &&& name == #[trigger] candidate_name(wanted, n)
                &&& !taken.contains(name)
                &&& forall|m: nat| m < n ==> taken.contains(#[trigger] candidate_name(wanted, m))
            }
    }
}

/// Decimal value of a sequence of ASCII digits.
pub open spec fn digits_value(d: Seq<u8>) -> nat
    decreases d.len(),
{
    if d.len() == 0 {
        0
    } else {
        digits_value(d.drop_last()) * 10 + (d.last() - 48) as nat
    }
}

pub open spec fn pow10(k: nat) -> nat
    decreases k,
{
    if k == 0 {
        1
    } else {
        10 * pow10((k - 1) as nat)
    }
}

/// Start of the run of digits at the end of `b` (`b.len()` when `b` does
/// not end in a digit).
pub open spec fn digit_run_start(b: Seq<u8>) -> int
    decreases b.len(),
{
    if b.len() == 0 || !is_digit(b.last()) {
        b.len() as int
    } else {
        digit_run_start(b.drop_last())
    }
}

/// `b` is a prefix of length `p`, not ending in a digit, followed by a
/// non-empty run of digits.
pub open spec fn has_number_suffix(b: Seq<u8>, p: int) -> bool {
    &&& 0 <= p < b.len()
    &&& (p == 0 || !is_digit(b[p - 1]))
    &&& forall|j: int| p <= j < b.len() ==> #[trigger] is_digit(b[j])
}

pub proof fn lemma_digit_run_start(b: Seq<u8>)
    ensures
        0 <= digit_run_start(b) <= b.len(),
        digit_run_start(b) == 0 || !is_digit(b[digit_run_start(b) - 1]),
        forall|j: int| digit_run_start(b) <= j < b.len() ==> #[trigger] is_digit(b[j]),
    decreases b.len(),
{
    if b.len() > 0 && is_digit(b.last()) {
        let d = b.drop_last();
        lemma_digit_run_start(d);
        assert(forall|j: int| 0 <= j < d.len() ==> d[j] == b[j]);
    }
}

/// Changing digit `k` to `x` changes the value by the difference of the two
/// digits times the place value of position `k`.
pub proof fn lemma_value_update(d: Seq<u8>, k: int, x: u8)
    requires
        0 <= k < d.len(),
        forall|j: int| 0 <= j < d.len() ==> #[trigger] is_digit(d[j]),
        is_digit(x),
    ensures
        digits_value(d.update(k, x)) + (d[k] - 48) * pow10((d.len() - 1 - k) as nat)
            == digits_value(d) + (x - 48) * pow10((d.len() - 1 - k) as nat),
    decreases d.len(),
{
    let u = d.update(k, x);
    assert(is_digit(d[k]));
    assert(is_digit(d.last()));
    if k == d.len() - 1 {
        assert(u.drop_last() =~= d.drop_last());
        assert(pow10(0) == 1);
        assert(digits_value(u) == digits_value(d.drop_last()) * 10 + (x - 48) as nat);
        assert(digits_value(d) == digits_value(d.drop_last()) * 10 + (d[k] - 48) as nat);
        let e = (d.len() - 1 - k) as nat;
        assert(e == 0);
        assert(pow10(e) == 1);
        let one = pow10(e);
        let dk = (d[k] - 48) as int;
        let xk = (x - 48) as int;
        assert(dk * one == dk) by (nonlinear_arith)
            requires
                one == 1,
        ;
        assert(xk * one == xk) by (nonlinear_arith)
            requires
                one == 1,
        ;
        assert(digits_value(u) + (d[k] - 48) * pow10(e) == digits_value(d) + (x - 48) * pow10(e));
    } else {
        let dl = d.drop_last();
        assert(u.drop_last() =~= dl.update(k, x));
        assert(forall|j: int| 0 <= j < dl.len() ==> dl[j] == d[j]);
        lemma_value_update(dl, k, x);
        let q = pow10((dl.len() - 1 - k) as nat);
        assert(pow10((d.len() - 1 - k) as nat) == 10 * q);
        let a = digits_value(dl.update(k, x));
        let b = digits_value(dl);
        let dk = (d[k] - 48) as int;
        let xk = (x - 48) as int;
        assert(a + dk * q == b + xk * q);
        assert((a + dk * q) * 10 == (b + xk * q) * 10);
        assert((a + dk * q) * 10 == a * 10 + dk * (10 * q)) by (nonlinear_arith);
        assert((b + xk * q) * 10 == b * 10 + xk * (10 * q)) by (nonlinear_arith);
        assert(u.last() == d.last());
        assert(digits_value(u) == a * 10 + (u.last() - 48) as nat);
        assert(digits_value(d) == b * 10 + (d.last() - 48) as nat);
        let e = (d.len() - 1 - k) as nat;
        assert(pow10(e) == 10 * q);
        assert(digits_value(u) + (d[k] - 48) * pow10(e) == digits_value(d) + (x - 48) * pow10(e));
    }
}

/// A run of zeros is worth zero.
pub proof fn lemma_value_zeros(d: Seq<u8>)
    requires
        forall|j: int| 0 <= j < d.len() ==> #[trigger] d[j] == 48,
    ensures
        digits_value(d) == 0,
    decreases d.len(),
{
    if d.len() > 0 {
        let dl = d.drop_last();
        assert(forall|j: int| 0 <= j < dl.len() ==> dl[j] == d[j]);
        lemma_value_zeros(dl);
    }
}

/// Incrementing at position `i`, with only zeros after it, adds the place
/// value of position `i` to the number and keeps the shape of the name.
pub proof fn lemma_increment_at(b: Seq<u8>, p: int, i: int)
    requires
        has_number_suffix(b, p),
        p <= i < b.len(),
        forall|j: int| i < j < b.len() ==> #[trigger] b[j] == 48,
    ensures
        has_number_suffix(increment_at(b, i), p),
        increment_at(b, i).take(p) == b.take(p),
        digits_value(increment_at(b, i).skip(p)) == digits_value(b.skip(p)) + pow10((b.len() - 1 - i) as nat),
    decreases i,
{
    let d = b.skip(p);
    let k = i - p;
    assert(forall|j: int| 0 <= j < d.len() ==> #[trigger] d[j] == b[p + j]);
    assert forall|j: int| 0 <= j < d.len() implies #[trigger] is_digit(d[j]) by {
        assert(is_digit(b[p + j]));
    }
    if 48 <= b[i] <= 56 {
        let r = b.update(i, (b[i] + 1) as u8);
        assert(r.take(p) =~= b.take(p));
        assert(r.skip(p) =~= d.update(k, (b[i] + 1) as u8));
        lemma_value_update(d, k, (b[i] + 1) as u8);
        let qq = pow10((d.len() - 1 - k) as nat);
        let v = (b[i] - 48) as int;
        assert((v + 1) * qq == v * qq + qq) by (nonlinear_arith);
        assert(d[k] == b[i]);
    } else if i == 0 || !is_digit(b[i - 1]) {
        assert(i == p);
        let r = b.update(i, 49).push(48);
        assert(r.take(p) =~= b.take(p));
        assert(r.skip(p) =~= d.update(0, 49).push(48));
        let q = pow10((d.len() - 1) as nat);
        lemma_value_update(d, 0, 48);
        assert forall|j: int| 0 <= j < d.len() implies #[trigger] d.update(0, 48)[j] == 48 by {
            if j > 0 {
                assert(d[j] == b[p + j]);
                assert(b[p + j] == 48);
            }
        }
        assert(d[0] == b[i]);
        assert(b[i] == 57) by {
            assert(is_digit(b[i]));
        }
        assert(0 * q == 0);
        lemma_value_zeros(d.update(0, 48));
        lemma_value_update(d, 0, 49);
        let dp = d.update(0, 49);
        assert(dp.push(48).drop_last() =~= dp);
        assert(digits_value(dp.push(48)) == digits_value(dp) * 10);
        assert(digits_value(d) == 9 * q);
        assert(digits_value(dp) == q);
    } else {
        assert(is_digit(b[i]));
        assert(is_digit(b[i - 1]));
        let c = b.update(i, 48);
        assert(d[k] == 57);
        assert(0 * pow10((d.len() - 1 - k) as nat) == 0);
        assert(c.take(p) =~= b.take(p));
        assert(c.skip(p) =~= d.update(k, 48));
        assert(forall|j: int| i - 1 < j < c.len() ==> #[trigger] c[j] == 48);
        lemma_increment_at(c, p, i - 1);
        lemma_value_update(d, k, 48);
        let q = pow10((b.len() - 1 - i) as nat);
        assert(pow10((c.len() - 1 - (i - 1)) as nat) == 10 * q);
    }
}

/// Every candidate is the prefix of the first candidate followed by a
/// number, and that number goes up by one from each candidate to the next.
pub proof fn candidates_count_up(wanted: Seq<char>, n: nat)
    ensures
        ({
            let s0 = first_candidate(encode_utf8(wanted));
            let p = digit_run_start(s0);
            &&& has_number_suffix(nth_candidate(wanted, n), p)
            &&& nth_candidate(wanted, n).take(p) == s0.take(p)
            &&& digits_value(nth_candidate(wanted, n).skip(p)) == digits_value(s0.skip(p)) + n
        }),
    decreases n,
{
    let s0 = first_candidate(encode_utf8(wanted));
    lemma_digit_run_start(s0);
    let p = digit_run_start(s0);
    if n > 0 {
        candidates_count_up(wanted, (n - 1) as nat);
        let prev = nth_candidate(wanted, (n - 1) as nat);
        lemma_increment_at(prev, p, prev.len() - 1);
        assert(pow10(0) == 1);
    }
}

/// Every candidate is valid UTF-8.
pub proof fn lemma_candidate_valid(wanted: Seq<char>, n: nat)
    ensures
        valid_utf8(nth_candidate(wanted, n)),
{
    let w = encode_utf8(wanted);
    let s0 = first_candidate(w);
    lemma_digit_run_start(s0);
    let p = digit_run_start(s0);
    candidates_count_up(wanted, n);
    candidates_count_up(wanted, 0);
    encode_utf8_valid_utf8(wanted);
    assert(valid_utf8(s0.take(p))) by {
        if w.len() > 0 && is_digit(w.last()) {
            lemma_digit_run_start(w);
            lemma_digit_run_start(w.drop_last());
            assert(p < w.len());
            assert(is_digit(w[p]));
            is_char_boundary_iff_not_is_continuation_byte(w, p);
            valid_utf8_split(w, p);
            assert(w.subrange(0, p) =~= w.take(p));
        } else {
            assert(s0.drop_last() =~= w);
            assert(p == w.len());
            assert(s0.take(p) =~= w);
        }
    }
    let c = nth_candidate(wanted, n);
    assert(c.subrange(0, p) =~= s0.take(p));
    assert forall|j: int| p <= j < c.len() implies #[trigger] is_leading_byte_width_1(c[j]) by {
        assert(is_digit(c[j]));
    }
    partial_valid_utf8_extend_ascii_block(c, p, c.len() as int);
    assert(c.subrange(0, c.len() as int) =~= c);
}

/// Different candidates have different names.
pub proof fn lemma_candidate_names_distinct(wanted: Seq<char>, m: nat, n: nat)
    requires
        m != n,
    ensures
        candidate_name(wanted, m) != candidate_name(wanted, n),
{
    candidates_count_up(wanted, m);
    candidates_count_up(wanted, n);
    lemma_candidate_valid(wanted, m);
    lemma_candidate_valid(wanted, n);
    let s0 = first_candidate(encode_utf8(wanted));
    let p = digit_run_start(s0);
    if candidate_name(wanted, m) == candidate_name(wanted, n) {
        decode_utf8_encode_utf8(nth_candidate(wanted, m));
        decode_utf8_encode_utf8(nth_candidate(wanted, n));
        assert(nth_candidate(wanted, m).skip(p) == nth_candidate(wanted, n).skip(p));
    }
}

/// A player who asks for a free name gets a name nobody has; a player who
/// asks for a name in use gets that very name.
pub proof fn allocated_name_is_free_unless_requested_is_taken(taken: Set<Seq<char>>, wanted: Seq<char>, name: Seq<char>)
    requires
        allocated_name(taken, wanted, name),
    ensures
        !taken.contains(wanted) ==> !taken.contains(name),
        taken.contains(wanted) ==> name == wanted,
{
}

/// The allocated name is determined by the names in use and the request.
pub proof fn allocated_name_is_unique(taken: Set<Seq<char>>, wanted: Seq<char>, a: Seq<char>, b: Seq<char>)
    requires
        allocated_name(taken, wanted, a),
        allocated_name(taken, wanted, b),
    ensures
        a == b,
{
    if !taken.contains(wanted) {
        let n = choose|n: nat|
            {
                &&& a == #[trigger] candidate_name(wanted, n)
                &&& !taken.contains(a)
                &&& forall|m: nat| m < n ==> taken.contains(#[trigger] candidate_name(wanted, m))
            };
        let k = choose|k: nat|
            {
                &&& b == #[trigger] candidate_name(wanted, k)
                &&& !taken.contains(b)
                &&& forall|m: nat| m < k ==> taken.contains(#[trigger] candidate_name(wanted, m))
            };
        if n < k {
            assert(taken.contains(candidate_name(wanted, n)));
        } else if k < n {
            assert(taken.contains(candidate_name(wanted, k)));
        }
    }
}

/// Declares `core::str::Utf8Error` so that the result of `str::from_utf8`
/// can stand in verified code.
#[verifier::external_type_specification]
#[verifier::external_body]
pub struct ExUtf8Error(core::str::Utf8Error);

/// Declares `alloc::string::FromUtf8Error` so that the result of
/// `String::from_utf8` can stand in verified code.
#[verifier::external_type_specification]
#[verifier::external_body]
pub struct ExFromUtf8Error(std::string::FromUtf8Error);

/// Calls `std::str::from_utf8`. Claimed: it succeeds exactly when the bytes
/// are valid UTF-8, and then the slice's characters are the ones the bytes
/// encode.
#[verifier::external_body]
pub(crate) fn str_from_utf8(v: &[u8]) -> (r: Result<&str, core::str::Utf8Error>)
    ensures
        r is Ok <==> valid_utf8(v@),
        r matches Ok(s) ==> s@ == decode_utf8(v@),
{
    std::str::from_utf8(v)
}

/// Calls `String::from_utf8`. Claimed: it succeeds exactly when the bytes
/// are valid UTF-8, and then the string's characters are the ones the bytes
/// encode.
#[verifier::external_body]
pub(crate) fn string_from_utf8(v: Vec<u8>) -> (r: Result<String, std::string::FromUtf8Error>)
    ensures
        r is Ok <==> valid_utf8(v@),
        r matches Ok(s) ==> s@ == decode_utf8(v@),
{
    String::from_utf8(v)
}

/// Replaces a name that ends in a number by the next name to try.
pub(crate) fn advance_candidate(bytes: &mut Vec<u8>)
    requires
        exists|p: int| has_number_suffix(old(bytes)@, p),
    ensures
        final(bytes)@ == next_candidate(old(bytes)@),
{
    let ghost orig = bytes@;
    let ghost p = choose|p: int| has_number_suffix(orig, p);
    let mut i: usize = bytes.len() - 1;
    loop
        invariant_except_break
            has_number_suffix(bytes@, p),
            p <= i < bytes@.len(),
            increment_at(bytes@, i as int) == next_candidate(orig),
        ensures
            bytes@ == next_candidate(orig),
        decreases i,
    {
        let c: u8 = bytes[i];
        assert(is_digit(bytes@[i as int]));
        if c <= ASCII_EIGHT {
            bytes[i] = c + 1;
            break;
        } else if i == 0 || !(ASCII_ZERO <= bytes[i - 1] && bytes[i - 1] <= ASCII_NINE) {
            bytes[i] = ASCII_ONE;
            bytes.push(ASCII_ZERO);
            break;
        } else {
            proof {
                if i - 1 < p {
                    assert(i == p);
                }
            }
            bytes[i] = ASCII_ZERO;
            i = i - 1;
        }
    }
}

} // verus!
