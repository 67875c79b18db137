use vstd::prelude::*;
use vstd::string::StringSliceAdditionalSpecFns;

verus! {

/// Number of decimal fraction digits the fixed-point representation carries.
/// A price or quantity is stored as a whole number of atoms, each atom being
/// `10^-FRACTION_DIGITS` of one unit.
pub const FRACTION_DIGITS: usize = 8;

/// Atoms per whole unit: `10^FRACTION_DIGITS`.
pub const ATOMS_PER_UNIT: u64 = 100_000_000;

/// The ASCII code of `'0'`.
pub const ASCII_ZERO: u8 = 48;

/// The ASCII code of `'9'`.
pub const ASCII_NINE: u8 = 57;

/// The ASCII code of `'.'`.
pub const ASCII_DOT: u8 = 46;

/// Whether a byte is an ASCII decimal digit.
pub open spec fn is_ascii_digit_byte(b: u8) -> bool {
    ASCII_ZERO <= b && b <= ASCII_NINE
}

/// Whether every byte of `s` is an ASCII decimal digit.
pub open spec fn all_digits(s: Seq<u8>) -> bool {
    forall|i: int| 0 <= i < s.len() ==> is_ascii_digit_byte(s[i])
}

/// The value of a digit string read as a base-10 number.
pub open spec fn digits_val(s: Seq<u8>) -> int
    decreases s.len(),
{
    if s.len() == 0 {
        0
    } else {
        digits_val(s.drop_last()) * 10 + (s.last() - ASCII_ZERO)
    }
}

/// `10^k`.
pub open spec fn pow10(k: nat) -> int
    decreases k,
{
    if k == 0 {
        1
    } else {
        10 * pow10((k - 1) as nat)
    }
}

/// Index of the first `.` in `s`, or `s.len()` when there is none.
pub open spec fn first_dot(s: Seq<u8>) -> int
    decreases s.len(),
{
    if s.len() == 0 {
        0
    } else if s[0] == ASCII_DOT {
        0
    } else {
        1 + first_dot(s.skip(1))
    }
}

/// The integer part of `s`: everything before the first dot.
pub open spec fn int_part(s: Seq<u8>) -> Seq<u8> {
    s.take(first_dot(s))
}

/// The fraction part of `s`: everything after the first dot, empty when
/// there is no dot.
pub open spec fn frac_part(s: Seq<u8>) -> Seq<u8> {
    if first_dot(s) == s.len() {
        Seq::empty()
    } else {
        s.skip(first_dot(s) + 1)
    }
}

/// The shape a numeric token must have: one or more digits, optionally
/// followed by a dot and between one and [`FRACTION_DIGITS`] digits.
pub open spec fn valid_decimal(s: Seq<u8>) -> bool {
    &&& int_part(s).len() >= 1
    &&& all_digits(int_part(s))
    &&& (first_dot(s) < s.len() ==> {
        &&& frac_part(s).len() >= 1
        &&& frac_part(s).len() <= FRACTION_DIGITS
        &&& all_digits(frac_part(s))
    })
}

/// The number of atoms a token denotes: integer part scaled to atoms, plus
/// the fraction digits scaled by the power of ten they fall short of a full
/// fraction.
pub open spec fn decimal_atoms(s: Seq<u8>) -> int {
    digits_val(int_part(s)) * ATOMS_PER_UNIT + digits_val(frac_part(s)) * pow10(
        (FRACTION_DIGITS - frac_part(s).len()) as nat,
    )
}

/// What parsing a numeric token yields: its atom count when the token is
/// well-shaped and the value fits in 64 bits, nothing otherwise.
pub open spec fn parse_fixed(s: Seq<u8>) -> Option<u64> {
    if valid_decimal(s) && decimal_atoms(s) <= u64::MAX {
        Some(decimal_atoms(s) as u64)
    } else {
        None
    }
}

/// `first_dot` indeed points at the first dot: no dot lies before it, and it
/// lies on a dot unless there is none at all.
pub proof fn lemma_first_dot(s: Seq<u8>)
    ensures
        0 <= first_dot(s) <= s.len(),
        first_dot(s) < s.len() ==> s[first_dot(s)] == ASCII_DOT,
        forall|j: int| 0 <= j < first_dot(s) ==> s[j] != ASCII_DOT,
    decreases s.len(),
{
    if s.len() == 0 {
    } else if s[0] == ASCII_DOT {
    } else {
        lemma_first_dot(s.skip(1));
        assert forall|j: int| 0 <= j < first_dot(s) implies s[j] != ASCII_DOT by {
            if j >= 1 {
                assert(s.skip(1)[j - 1] == s[j]);
            }
        }
    }
}

/// A digit string has a non-negative value.
pub proof fn lemma_digits_val_nonneg(s: Seq<u8>)
    requires
        all_digits(s),
    ensures
        digits_val(s) >= 0,
    decreases s.len(),
{
    if s.len() > 0 {
        assert(all_digits(s.drop_last()));
        lemma_digits_val_nonneg(s.drop_last());
    }
}

/// Dropping trailing digits never increases the value of a digit string.
pub proof fn lemma_digits_val_prefix(s: Seq<u8>, m: int)
    requires
        all_digits(s),
        0 <= m <= s.len(),
    ensures
        digits_val(s.take(m)) <= digits_val(s),
    decreases s.len(),
{
    if m < s.len() {
        let dl = s.drop_last();
        assert(all_digits(dl));
        lemma_digits_val_prefix(dl, m);
        assert(dl.take(m) =~= s.take(m));
        lemma_digits_val_nonneg(dl);
    } else {
        assert(s.take(m) =~= s);
    }
}

/// A string of `n` digits is worth less than `10^n`.
pub proof fn lemma_digits_val_bound(s: Seq<u8>)
    requires
        all_digits(s),
    ensures
        digits_val(s) < pow10(s.len()),
    decreases s.len(),
{
    if s.len() > 0 {
        assert(all_digits(s.drop_last()));
        lemma_digits_val_bound(s.drop_last());
    }
}

/// Powers of ten grow with the exponent.
pub proof fn lemma_pow10_increases(i: nat, j: nat)
    requires
        i <= j,
    ensures
        pow10(i) <= pow10(j),
        pow10(i) >= 1,
    decreases j,
{
    if j > 0 {
        if i <= j - 1 {
            lemma_pow10_increases(i, (j - 1) as nat);
        } else {
            lemma_pow10_increases((j - 1) as nat, (j - 1) as nat);
        }
    }
}

/// One full fraction's worth of atoms.
pub proof fn lemma_pow10_full_fraction()
    ensures
        pow10(FRACTION_DIGITS as nat) == ATOMS_PER_UNIT,
        pow10((FRACTION_DIGITS - 1) as nat) == 10000000,
{
    assert(pow10(0) == 1);
    assert(pow10(1) == 10);
    assert(pow10(2) == 100);
    assert(pow10(3) == 1000);
    assert(pow10(4) == 10000);
    assert(pow10(5) == 100000);
    assert(pow10(6) == 1000000);
    assert(pow10(7) == 10000000);
    assert(pow10(8) == 100000000);
}

/// For a well-shaped token, the fraction contributes a non-negative number
/// of atoms.
proof fn lemma_frac_term_nonneg(s: Seq<u8>)
    requires
        valid_decimal(s),
    ensures
        digits_val(frac_part(s)) * pow10((FRACTION_DIGITS - frac_part(s).len()) as nat) >= 0,
{
    if first_dot(s) < s.len() {
        lemma_digits_val_nonneg(frac_part(s));
        lemma_pow10_increases(0, (FRACTION_DIGITS - frac_part(s).len()) as nat);
        assert(digits_val(frac_part(s)) * pow10((FRACTION_DIGITS - frac_part(s).len()) as nat)
            >= 0) by (nonlinear_arith)
            requires
                digits_val(frac_part(s)) >= 0,
                pow10((FRACTION_DIGITS - frac_part(s).len()) as nat) >= 1,
        ;
    } else {
        lemma_first_dot(s);
        assert(frac_part(s).len() == 0);
        assert(digits_val(frac_part(s)) == 0);
    }
}

/// Base-10 digit accumulation, one digit at a time.
proof fn lemma_digits_val_push(s: Seq<u8>, d: u8)
    ensures
        digits_val(s.push(d)) == digits_val(s) * 10 + (d - ASCII_ZERO),
{
    assert(s.push(d).drop_last() =~= s);
    assert(s.push(d).last() == d);
}

/// Reads the digits of `b` between `from` and `to` as a base-10 number.
/// Yields nothing when a byte there is not a digit or the value does not fit.
fn parse_digit_range(b: &[u8], from: usize, to: usize) -> (r: Option<u64>)
    requires
        from <= to <= b@.len(),
    ensures
        r == (if all_digits(b@.subrange(from as int, to as int)) && digits_val(
            b@.subrange(from as int, to as int),
        ) <= u64::MAX {
            Some(digits_val(b@.subrange(from as int, to as int)) as u64)
        } else {
            None::<u64>
        }),
{
    let ghost sub = b@.subrange(from as int, to as int);
    let mut acc: u64 = 0;
    let mut i: usize = from;
    while i < to
        invariant
            from <= i <= to <= b@.len(),
            sub == b@.subrange(from as int, to as int),
            all_digits(sub.take(i - from)),
            acc == digits_val(sub.take(i - from)),
        decreases to - i,
    {
        let d = b[i];
        let ghost done = sub.take(i - from);
        proof {
            assert(sub.take(i + 1 - from) =~= done.push(sub[i - from]));
            assert(sub[i - from] == b@[i as int]);
            lemma_digits_val_push(done, d);
        }
        if d < ASCII_ZERO || d > ASCII_NINE {
            proof {
                assert(!is_ascii_digit_byte(sub[i - from]));
            }
            return None;
        }
        let dv = (d - ASCII_ZERO) as u64;
        match acc.checked_mul(10) {
            Some(t) => {
                match t.checked_add(dv) {
                    Some(next) => {
                        acc = next;
                    },
                    None => {
                        proof {
                            if all_digits(sub) {
                                lemma_digits_val_prefix(sub, i + 1 - from);
                            }
                        }
                        return None;
                    },
                }
            },
            None => {
                proof {
                    if all_digits(sub) {
                        lemma_digits_val_prefix(sub, i + 1 - from);
                    }
                }
                return None;
            },
        }
        i += 1;
    }
    proof {
        assert(sub.take(to - from) =~= sub);
    }
    Some(acc)
}

/// `10^k` as a machine word, for small `k`.
fn pow10_u64(k: usize) -> (r: u64)
    requires
        k <= FRACTION_DIGITS,
    ensures
        r == pow10(k as nat),
{
    let mut r: u64 = 1;
    let mut i: usize = 0;
    while i < k
        invariant
            0 <= i <= k <= FRACTION_DIGITS,
            r == pow10(i as nat),
        decreases k - i,
    {
        proof {
            lemma_pow10_increases(i as nat, (FRACTION_DIGITS - 1) as nat);
            lemma_pow10_full_fraction();
        }
        r = r * 10;
        i += 1;
    }
    r
}

/// Parses a numeric token of the wire format — one or more digits with an
/// optional dot and up to [`FRACTION_DIGITS`] fraction digits — into a
/// fixed-point atom count.
pub fn parse_fixed_point(text: &str) -> (r: Option<u64>)
    ensures
        r == parse_fixed(text.spec_bytes()),
{
    let b: &[u8] = text.as_bytes();
    let n = b.len();
    proof {
        lemma_first_dot(b@);
    }
    // locate the first dot, if any
    let mut k: usize = 0;
    while k < n && b[k] != ASCII_DOT
        invariant
            0 <= k <= n == b@.len(),
            forall|j: int| 0 <= j < k ==> b@[j] != ASCII_DOT,
        decreases n - k,
    {
        k += 1;
    }
    proof {
        lemma_first_dot(b@);
        assert(first_dot(b@) == k);
        assert(int_part(b@) =~= b@.subrange(0, k as int));
    }
    if k == 0 {
        // empty integer part
        return None;
    }
    let ip = match parse_digit_range(b, 0, k) {
        Some(v) => v,
        None => {
            proof {
                if valid_decimal(b@) {
                    // the integer part alone already overflows, so the whole
                    // token does too
                    lemma_frac_term_nonneg(b@);
                    assert(decimal_atoms(b@) > u64::MAX) by (nonlinear_arith)
                        requires
                            digits_val(int_part(b@)) > u64::MAX,
                            digits_val(frac_part(b@)) * pow10(
                                (FRACTION_DIGITS - frac_part(b@).len()) as nat,
                            ) >= 0,
                            decimal_atoms(b@) == digits_val(int_part(b@)) * ATOMS_PER_UNIT
                                + digits_val(frac_part(b@)) * pow10(
                                (FRACTION_DIGITS - frac_part(b@).len()) as nat,
                            ),
                            ATOMS_PER_UNIT == 100000000,
                    ;
                }
            }
            return None;
        },
    };
    proof {
        lemma_digits_val_nonneg(int_part(b@));
    }
    if k == n {
        // no fraction: scale the integer part to atoms
        proof {
            assert(frac_part(b@) =~= Seq::<u8>::empty());
        }
        return match ip.checked_mul(ATOMS_PER_UNIT) {
            Some(total) => Some(total),
            None => None,
        };
    }
    // a dot is present: the fraction must hold 1 ..= FRACTION_DIGITS digits
    let frac_len = n - k - 1;
    proof {
        assert(frac_part(b@) =~= b@.subrange(k + 1, n as int));
    }
    if frac_len == 0 || frac_len > FRACTION_DIGITS {
        return None;
    }
    let fp = match parse_digit_range(b, k + 1, n) {
        Some(v) => v,
        None => {
            proof {
                // a fraction of at most eight digits cannot overflow, so the
                // range must hold a non-digit
                if all_digits(frac_part(b@)) {
                    lemma_digits_val_bound(frac_part(b@));
                    lemma_pow10_increases(frac_part(b@).len(), FRACTION_DIGITS as nat);
                    lemma_pow10_full_fraction();
                }
            }
            return None;
        },
    };
    let mult = pow10_u64(FRACTION_DIGITS - frac_len);
    proof {
        lemma_digits_val_bound(frac_part(b@));
        lemma_digits_val_nonneg(frac_part(b@));
        lemma_pow10_increases((FRACTION_DIGITS - frac_len) as nat, FRACTION_DIGITS as nat);
        lemma_pow10_full_fraction();
        lemma_pow10_mul_split(frac_len as nat);
        assert(fp * mult < ATOMS_PER_UNIT && fp * mult >= 0) by (nonlinear_arith)
            requires
                fp < pow10(frac_len as nat),
                mult == pow10((FRACTION_DIGITS - frac_len) as nat),
                pow10(frac_len as nat) * pow10((FRACTION_DIGITS - frac_len) as nat)
                    == ATOMS_PER_UNIT,
                fp >= 0,
                mult >= 1,
        ;
    }
    let frac_atoms = fp * mult;
    match ip.checked_mul(ATOMS_PER_UNIT) {
        Some(scaled) => {
            match scaled.checked_add(frac_atoms) {
                Some(total) => Some(total),
                None => None,
            }
        },
        None => {
            proof {
                assert(decimal_atoms(b@) > u64::MAX) by (nonlinear_arith)
                    requires
                        digits_val(int_part(b@)) * ATOMS_PER_UNIT > u64::MAX,
                        digits_val(frac_part(b@)) * pow10(
                            (FRACTION_DIGITS - frac_part(b@).len()) as nat,
                        ) >= 0,
                        decimal_atoms(b@) == digits_val(int_part(b@)) * ATOMS_PER_UNIT
                            + digits_val(frac_part(b@)) * pow10(
                            (FRACTION_DIGITS - frac_part(b@).len()) as nat,
                        ),
                ;
            }
            None
        },
    }
}

/// `10^a * 10^(FRACTION_DIGITS - a)` makes one full fraction, for `a` at most
/// [`FRACTION_DIGITS`].
proof fn lemma_pow10_mul_split(a: nat)
    requires
        a <= FRACTION_DIGITS,
    ensures
        pow10(a) * pow10((FRACTION_DIGITS - a) as nat) == ATOMS_PER_UNIT,
    decreases a,
{
    if a == 0 {
        lemma_pow10_full_fraction();
    } else {
        lemma_pow10_mul_split((a - 1) as nat);
        assert(pow10(a) == 10 * pow10((a - 1) as nat));
        assert(pow10(a) * pow10((FRACTION_DIGITS - a) as nat) == 10 * (pow10((a - 1) as nat)
            * pow10((FRACTION_DIGITS - a) as nat))) by (nonlinear_arith)
            requires
                pow10(a) == 10 * pow10((a - 1) as nat),
        ;
        assert(pow10(((FRACTION_DIGITS - a) + 1) as nat) == 10 * pow10((FRACTION_DIGITS - a) as nat));
        assert(pow10((a - 1) as nat) * pow10(((FRACTION_DIGITS - a) + 1) as nat) == ATOMS_PER_UNIT);
        assert(pow10((a - 1) as nat) * (10 * pow10((FRACTION_DIGITS - a) as nat)) == 10 * (pow10(
            (a - 1) as nat,
        ) * pow10((FRACTION_DIGITS - a) as nat))) by (nonlinear_arith);
    }
}

} // verus!
