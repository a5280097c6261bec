use vstd::prelude::*;

verus! {

// ------------------------------------------------------------------
// Digit characters and decimal renderings
// ------------------------------------------------------------------

/// A decimal digit character.
pub open spec fn is_digit_char(c: char) -> bool {
    '0' <= c && c <= '9'
}

/// Numeric value of a digit character.
pub open spec fn digit_val(c: char) -> int {
    c as int - '0' as int
}

/// The digit character for a value in 0..10.
pub open spec fn digit_char(d: int) -> char {
    if d == 0 { '0' } else if d == 1 { '1' } else if d == 2 { '2' }
    else if d == 3 { '3' } else if d == 4 { '4' } else if d == 5 { '5' }
    else if d == 6 { '6' } else if d == 7 { '7' } else if d == 8 { '8' }
    else { '9' }
}

/// The uppercase hexadecimal digit character for a value in 0..16.
pub open spec fn hex_char(d: int) -> char {
    if d < 10 {
        digit_char(d)
    } else if d == 10 { 'A' } else if d == 11 { 'B' } else if d == 12 { 'C' }
    else if d == 13 { 'D' } else if d == 14 { 'E' } else { 'F' }
}

/// Matches a hexadecimal digit value to its uppercase character.
pub fn hex_to_char(d: u8) -> (c: char)
    requires
        d < 16,
    ensures
        c == hex_char(d as int),
{
    match d {
        0u8 => '0', 1u8 => '1', 2u8 => '2', 3u8 => '3', 4u8 => '4',
        5u8 => '5', 6u8 => '6', 7u8 => '7', 8u8 => '8', 9u8 => '9',
        10u8 => 'A', 11u8 => 'B', 12u8 => 'C', 13u8 => 'D', 14u8 => 'E', _ => 'F',
    }
}

/// Decimal digit string of a non-negative integer, most significant digit
/// first, without leading zeros (except for zero itself).
pub open spec fn dec_digits(n: int) -> Seq<char>
    decreases n,
{
    if n < 10 {
        seq![digit_char(n)]
    } else {
        dec_digits(n / 10).push(digit_char(n % 10))
    }
}

/// Decimal rendering of a signed integer: a minus sign for negative values,
/// then the digits of the absolute value.
pub open spec fn dec_int(n: int) -> Seq<char> {
    if n < 0 {
        seq!['-'] + dec_digits(-n)
    } else {
        dec_digits(n)
    }
}

/// The integer denoted by a digit string (most significant digit first).
pub open spec fn val_of(s: Seq<char>) -> int
    decreases s.len(),
{
    if s.len() == 0 {
        0
    } else {
        val_of(s.drop_last()) * 10 + digit_val(s.last())
    }
}

pub open spec fn all_digits(s: Seq<char>) -> bool {
    forall|i: int| 0 <= i < s.len() ==> is_digit_char(#[trigger] s[i])
}

pub proof fn lemma_dec_digits_wf(n: int)
    requires
        n >= 0,
    ensures
        dec_digits(n).len() >= 1,
        all_digits(dec_digits(n)),
    decreases n,
{
    if n >= 10 {
        lemma_dec_digits_wf(n / 10);
        assert forall|i: int| 0 <= i < dec_digits(n).len() implies
            is_digit_char(#[trigger] dec_digits(n)[i]) by {
            if i < dec_digits(n / 10).len() {
                assert(dec_digits(n)[i] == dec_digits(n / 10)[i]);
            }
        }
    }
}

/// Rendering then evaluating a non-negative integer gives it back.
pub proof fn lemma_val_of_dec_digits(n: int)
    requires
        n >= 0,
    ensures
        val_of(dec_digits(n)) == n,
    decreases n,
{
    if n < 10 {
        let s = dec_digits(n);
        assert(s.len() == 1 && s.last() == digit_char(n));
        assert(s.drop_last() =~= Seq::<char>::empty());
        assert(val_of(s.drop_last()) == 0);
        assert(val_of(s) == digit_val(digit_char(n)));
        assert(digit_val(digit_char(n)) == n);
    } else {
        lemma_val_of_dec_digits(n / 10);
        let s = dec_digits(n);
        assert(s.drop_last() =~= dec_digits(n / 10));
        assert(val_of(s) == (n / 10) * 10 + digit_val(digit_char(n % 10)));
        assert(digit_val(digit_char(n % 10)) == n % 10);
        assert((n / 10) * 10 + n % 10 == n) by {
            vstd::arithmetic::div_mod::lemma_fundamental_div_mod(n, 10);
        }
    }
}

/// The value of a digit string is non-negative.
pub proof fn lemma_val_of_nonneg(s: Seq<char>)
    requires
        all_digits(s),
    ensures
        val_of(s) >= 0,
    decreases s.len(),
{
    if s.len() > 0 {
        assert(all_digits(s.drop_last()));
        lemma_val_of_nonneg(s.drop_last());
        assert(is_digit_char(s.last()));
    }
}

// ------------------------------------------------------------------
// Executable rendering
// ------------------------------------------------------------------

/// Matches a digit value to its character.
pub fn digit_to_char(d: u8) -> (c: char)
    requires
        d < 10,
    ensures
        c == digit_char(d as int),
{
    match d {
        0u8 => '0', 1u8 => '1', 2u8 => '2', 3u8 => '3', 4u8 => '4',
        5u8 => '5', 6u8 => '6', 7u8 => '7', 8u8 => '8', _ => '9',
    }
}

/// Appends the decimal digits of `n` to `out`.
pub fn push_digits_u128(n: u128, out: &mut Vec<char>)
    ensures
        final(out)@ == old(out)@ + dec_digits(n as int),
    decreases n,
{
    if n >= 10 {
        push_digits_u128(n / 10, out);
    }
    out.push(digit_to_char((n % 10) as u8));
    assert(out@ =~= old(out)@ + dec_digits(n as int));
}

/// Appends the decimal rendering of a signed 64-bit integer to `out`.
pub fn push_i64(n: i64, out: &mut Vec<char>)
    ensures
        final(out)@ == old(out)@ + dec_int(n as int),
{
    if n < 0 {
        out.push('-');
        let m: u128 = ((-1i128 - (n as i128)) as u128) + 1;
        assert(m == -(n as int));
        push_digits_u128(m, out);
        assert(out@ =~= old(out)@ + dec_int(n as int));
    } else {
        push_digits_u128(n as u128, out);
    }
}

/// Appends the decimal rendering of a signed 128-bit integer to `out`.
pub fn push_i128(n: i128, out: &mut Vec<char>)
    ensures
        final(out)@ == old(out)@ + dec_int(n as int),
{
    if n < 0 {
        out.push('-');
        let m: u128 = ((-1i128 - n) as u128) + 1;
        assert(m == -(n as int));
        push_digits_u128(m, out);
        assert(out@ =~= old(out)@ + dec_int(n as int));
    } else {
        push_digits_u128(n as u128, out);
    }
}

// ------------------------------------------------------------------
// Digit runs and integer parsing
// ------------------------------------------------------------------

/// Length of the maximal run of digit characters starting at `i`.
pub open spec fn digit_run(s: Seq<char>, i: int) -> int
    decreases s.len() - i when 0 <= i <= s.len()
{
    if i < s.len() && is_digit_char(s[i]) {
        1 + digit_run(s, i + 1)
    } else {
        0
    }
}

pub proof fn lemma_digit_run_bounds(s: Seq<char>, i: int)
    requires
        0 <= i <= s.len(),
    ensures
        0 <= digit_run(s, i) <= s.len() - i,
        all_digits(s.subrange(i, i + digit_run(s, i))),
        i + digit_run(s, i) < s.len() ==> !is_digit_char(s[i + digit_run(s, i)]),
    decreases s.len() - i,
{
    if i < s.len() && is_digit_char(s[i]) {
        lemma_digit_run_bounds(s, i + 1);
        let k = digit_run(s, i);
        assert(s.subrange(i + 1, i + 1 + digit_run(s, i + 1))
            =~= s.subrange(i, i + k).subrange(1, k));
        assert forall|j: int| 0 <= j < k implies
            is_digit_char(#[trigger] s.subrange(i, i + k)[j]) by {
            if j > 0 {
                assert(s.subrange(i, i + k)[j]
                    == s.subrange(i + 1, i + 1 + digit_run(s, i + 1))[j - 1]);
            }
        }
    }
}

/// The signed integer (value and end position) read at position `i`:
/// an optional minus sign, then a maximal non-empty digit run.
pub open spec fn parse_int_at(s: Seq<char>, i: int) -> Option<(int, int)> {
    let neg = i < s.len() && s[i] == '-';
    let j = if neg { i + 1 } else { i };
    let k = digit_run(s, j);
    if k == 0 {
        None
    } else {
        let v = val_of(s.subrange(j, j + k));
        Some((if neg { -v } else { v }, j + k))
    }
}

/// A digit run evaluated left to right keeps its value.
pub proof fn lemma_val_of_take_step(s: Seq<char>, j: int)
    requires
        0 < j <= s.len(),
    ensures
        val_of(s.take(j)) == val_of(s.take(j - 1)) * 10 + digit_val(s[j - 1]),
{
    assert(s.take(j).drop_last() =~= s.take(j - 1));
    assert(s.take(j).last() == s[j - 1]);
}

/// Scans the digit run at `pos`. Returns its length, and its value unless the
/// value exceeds `u128::MAX` (reported in the last component).
pub fn scan_digits(v: &Vec<char>, pos: usize) -> (r: (usize, u128, bool))
    requires
        pos <= v@.len(),
    ensures
        r.0 == digit_run(v@, pos as int),
        pos + r.0 <= v@.len(),
        !r.2 ==> r.1 == val_of(v@.subrange(pos as int, pos + r.0)),
        r.2 ==> val_of(v@.subrange(pos as int, pos + r.0)) > u128::MAX,
{
    proof {
        lemma_digit_run_bounds(v@, pos as int);
    }
    let ghost run: int = digit_run(v@, pos as int);
    let ghost digits: Seq<char> = v@.subrange(pos as int, pos + run);
    let mut i: usize = pos;
    let mut acc: u128 = 0;
    let mut over: bool = false;
    loop
        invariant_except_break
            pos <= i <= v@.len(),
            run == digit_run(v@, pos as int),
            0 <= run <= v@.len() - pos,
            digits == v@.subrange(pos as int, pos + run),
            all_digits(digits),
            i - pos <= run,
            i - pos < run ==> i < v@.len() && is_digit_char(v@[i as int]),
            i - pos == run ==> i == v@.len() || !is_digit_char(v@[i as int]),
            !over ==> acc == val_of(digits.take(i - pos)),
            over ==> val_of(digits.take(i - pos)) > u128::MAX,
        ensures
            pos <= i <= v@.len(),
            i - pos == run,
            run == digit_run(v@, pos as int),
            digits == v@.subrange(pos as int, pos + run),
            !over ==> acc == val_of(digits),
            over ==> val_of(digits) > u128::MAX,
        decreases v@.len() - i,
    {
        if i == v.len() {
            assert(i - pos == run);
            assert(digits.take(i - pos) =~= digits);
            break;
        }
        let c = v[i];
        if !('0' <= c && c <= '9') {
            assert(i - pos == run) by {
                if i - pos < run {
                    assert(is_digit_char(v@[i as int]));
                }
            }
            assert(digits.take(i - pos) =~= digits);
            break;
        }
        assert(i - pos < run) by {
            if i - pos == run {
                assert(!is_digit_char(v@[i as int]));
            }
        }
        let d: u32 = (c as u32) - ('0' as u32);
        assert(d == digit_val(c) && d < 10);
        proof {
            assert(all_digits(digits.take(i - pos))) by {
                assert forall|j: int| 0 <= j < i - pos implies
                    is_digit_char(#[trigger] digits.take(i - pos)[j]) by {
                    assert(digits.take(i - pos)[j] == digits[j]);
                }
            }
            lemma_val_of_take_step(digits, i - pos + 1);
            assert(digits[i - pos] == v@[i as int]);
            lemma_val_of_nonneg(digits.take(i - pos));
        }
        let ghost prev_val: int = val_of(digits.take(i - pos));
        if over {
            proof {
                assert(val_of(digits.take(i - pos + 1)) == prev_val * 10 + d);
                assert(prev_val * 10 >= prev_val + prev_val * 9);
                assert(prev_val * 9 >= 0) by (nonlinear_arith)
                    requires prev_val > 0,
                {}
            }
        } else if acc > (u128::MAX - (d as u128)) / 10 {
            proof {
                let m: int = u128::MAX as int - d;
                vstd::arithmetic::div_mod::lemma_fundamental_div_mod(m, 10);
                vstd::arithmetic::div_mod::lemma_mod_bound(m, 10);
                assert(acc * 10 >= (m / 10 + 1) * 10) by (nonlinear_arith)
                    requires acc >= m / 10 + 1,
                {}
                assert(val_of(digits.take(i - pos + 1)) > u128::MAX);
            }
            over = true;
        } else {
            proof {
                let m: int = u128::MAX as int - d;
                vstd::arithmetic::div_mod::lemma_fundamental_div_mod(m, 10);
                vstd::arithmetic::div_mod::lemma_mod_bound(m, 10);
                assert(acc * 10 <= (m / 10) * 10) by (nonlinear_arith)
                    requires acc <= m / 10,
                {}
            }
            acc = acc * 10 + (d as u128);
        }
        i = i + 1;
        proof {
            lemma_digit_run_bounds(v@, pos as int);
            if i - pos < run {
                assert(digits[i - pos] == v@[i as int]);
                assert(is_digit_char(digits[i - pos]));
            }
        }
    }
    (i - pos, acc, over)
}

/// Reads a signed 64-bit integer at `pos`: `parse_int_at` restricted to the
/// `i64` range; out-of-range values give `None`.
pub fn parse_i64_at(v: &Vec<char>, pos: usize) -> (r: Option<(i64, usize)>)
    requires
        pos <= v@.len(),
    ensures
        match parse_int_at(v@, pos as int) {
            Some((val, end)) => {
                if i64::MIN <= val <= i64::MAX {
                    r matches Some(p) && p.0 == val && p.1 == end && p.1 <= v@.len()
                } else {
                    r is None
                }
            },
            None => r is None,
        },
{
    let neg = pos < v.len() && v[pos] == '-';
    let j: usize = if neg { pos + 1 } else { pos };
    let (k, val, over) = scan_digits(v, j);
    if k == 0 {
        return None;
    }
    proof {
        lemma_digit_run_bounds(v@, j as int);
        lemma_val_of_nonneg(v@.subrange(j as int, j + k));
    }
    if neg {
        if over || val > 9_223_372_036_854_775_808u128 {
            return None;
        }
        let m: i128 = -(val as i128);
        Some((m as i64, j + k))
    } else {
        if over || val > i64::MAX as u128 {
            return None;
        }
        Some((val as i64, j + k))
    }
}

/// Reads a signed 128-bit integer at `pos`, `None` outside the `i128` range.
pub fn parse_i128_at(v: &Vec<char>, pos: usize) -> (r: Option<(i128, usize)>)
    requires
        pos <= v@.len(),
    ensures
        match parse_int_at(v@, pos as int) {
            Some((val, end)) => {
                if i128::MIN <= val <= i128::MAX {
                    r matches Some(p) && p.0 == val && p.1 == end && p.1 <= v@.len()
                } else {
                    r is None
                }
            },
            None => r is None,
        },
{
    let neg = pos < v.len() && v[pos] == '-';
    let j: usize = if neg { pos + 1 } else { pos };
    let (k, val, over) = scan_digits(v, j);
    if k == 0 {
        return None;
    }
    proof {
        lemma_digit_run_bounds(v@, j as int);
        lemma_val_of_nonneg(v@.subrange(j as int, j + k));
    }
    if neg {
        if over || val > 170_141_183_460_469_231_731_687_303_715_884_105_728u128 {
            return None;
        }
        if val == 170_141_183_460_469_231_731_687_303_715_884_105_728u128 {
            Some((i128::MIN, j + k))
        } else {
            Some((-(val as i128), j + k))
        }
    } else {
        if over || val > i128::MAX as u128 {
            return None;
        }
        Some((val as i128, j + k))
    }
}


// ------------------------------------------------------------------
// Number texts
// ------------------------------------------------------------------

/// A character that may appear in a decimal number text.
pub open spec fn is_number_char(c: char) -> bool {
    is_digit_char(c) || c == '-' || c == '+' || c == '.' || c == 'e' || c == 'E'
}

pub open spec fn all_number_chars(s: Seq<char>) -> bool {
    forall|i: int| 0 <= i < s.len() ==> is_number_char(#[trigger] s[i])
}

/// Length of the maximal run of number characters starting at `i`.
pub open spec fn number_run(s: Seq<char>, i: int) -> int
    decreases s.len() - i when 0 <= i <= s.len()
{
    if i < s.len() && is_number_char(s[i]) {
        1 + number_run(s, i + 1)
    } else {
        0
    }
}

pub proof fn lemma_number_run_bounds(s: Seq<char>, i: int)
    requires
        0 <= i <= s.len(),
    ensures
        0 <= number_run(s, i) <= s.len() - i,
        all_number_chars(s.subrange(i, i + number_run(s, i))),
    decreases s.len() - i,
{
    if i < s.len() && is_number_char(s[i]) {
        lemma_number_run_bounds(s, i + 1);
        let k = number_run(s, i);
        assert forall|j: int| 0 <= j < k implies
            is_number_char(#[trigger] s.subrange(i, i + k)[j]) by {
            if j > 0 {
                assert(s.subrange(i, i + k)[j]
                    == s.subrange(i + 1, i + 1 + number_run(s, i + 1))[j - 1]);
            }
        }
    }
}

/// A run of number characters stops exactly at the first non-number character.
pub proof fn lemma_number_run_exact(s: Seq<char>, i: int, k: int)
    requires
        0 <= i,
        0 <= k,
        i + k <= s.len(),
        forall|j: int| i <= j < i + k ==> is_number_char(#[trigger] s[j]),
        i + k < s.len() ==> !is_number_char(s[i + k]),
    ensures
        number_run(s, i) == k,
    decreases k,
{
    if k == 0 {
    } else {
        lemma_number_run_exact(s, i + 1, k - 1);
    }
}

/// A run of digits stops exactly at the first non-digit.
pub proof fn lemma_digit_run_exact(s: Seq<char>, i: int, k: int)
    requires
        0 <= i,
        0 <= k,
        i + k <= s.len(),
        forall|j: int| i <= j < i + k ==> is_digit_char(#[trigger] s[j]),
        i + k < s.len() ==> !is_digit_char(s[i + k]),
    ensures
        digit_run(s, i) == k,
    decreases k,
{
    if k > 0 {
        lemma_digit_run_exact(s, i + 1, k - 1);
    }
}

/// The decimal grammar of a stored number text: an optional minus sign,
/// an integer part without spurious leading zeros, an optional fractional
/// part, and an optional exponent. This is the JSON number grammar.
pub open spec fn json_number(s: Seq<char>) -> bool {
    let i: int = if s.len() > 0 && s[0] == '-' { 1 } else { 0 };
    if i > s.len() {
        false
    } else {
        let k = digit_run(s, i);
        if k < 1 || (s[i] == '0' && k != 1) {
            false
        } else {
            let j: int = i + k;
            let j2: int = if j < s.len() && s[j] == '.' { j + 1 + digit_run(s, j + 1) } else { j };
            let frac_ok = j < s.len() && s[j] == '.' ==> digit_run(s, j + 1) >= 1;
            if !frac_ok {
                false
            } else {
                if j2 < s.len() && (s[j2] == 'e' || s[j2] == 'E') {
                    let js: int = if j2 + 1 < s.len() && (s[j2 + 1] == '+' || s[j2 + 1] == '-') {
                        j2 + 2
                    } else {
                        j2 + 1
                    };
                    let ke = digit_run(s, js);
                    ke >= 1 && js + ke == s.len()
                } else {
                    j2 == s.len()
                }
            }
        }
    }
}

/// Scans the run of number characters starting at `pos`.
pub fn scan_number_run(v: &Vec<char>, pos: usize) -> (r: usize)
    requires
        pos <= v@.len(),
    ensures
        r == number_run(v@, pos as int),
        pos + r <= v@.len(),
    decreases v@.len() - pos,
{
    proof {
        lemma_number_run_bounds(v@, pos as int);
    }
    if pos < v.len() {
        let c = v[pos];
        if ('0' <= c && c <= '9') || c == '-' || c == '+' || c == '.' || c == 'e' || c == 'E' {
            let rest = scan_number_run(v, pos + 1);
            return rest + 1;
        }
    }
    0
}

/// Decides the decimal-number grammar.
pub fn is_json_number(v: &Vec<char>) -> (r: bool)
    ensures
        r == json_number(v@),
{
    let n = v.len();
    let i: usize = if n > 0 && v[0] == '-' { 1 } else { 0 };
    if i > n {
        return false;
    }
    let (k, _val, _over) = scan_digits(v, i);
    if k < 1 || (v[i] == '0' && k != 1) {
        return false;
    }
    let j: usize = i + k;
    let mut j2: usize = j;
    if j < n && v[j] == '.' {
        let (kf, _v2, _o2) = scan_digits(v, j + 1);
        if kf < 1 {
            return false;
        }
        j2 = j + 1 + kf;
    }
    if j2 < n && (v[j2] == 'e' || v[j2] == 'E') {
        let js: usize = if j2 + 1 < n && (v[j2 + 1] == '+' || v[j2 + 1] == '-') {
            j2 + 2
        } else {
            j2 + 1
        };
        let (ke, _v3, _o3) = scan_digits(v, js);
        ke >= 1 && js + ke == n
    } else {
        j2 == n
    }
}

// ------------------------------------------------------------------
// Accepted decimal texts and their canonical form
// ------------------------------------------------------------------

/// The decimal grammar accepted at the edge: an optional sign, digits with an
/// optional fractional part (at least one digit on one side of the point),
/// and an optional exponent. Leading zeros, a leading `+`, a bare point side
/// are all accepted: these are the finite texts the standard floating-point
/// parser reads.
pub open spec fn decimal_number(s: Seq<char>) -> bool {
    let i: int = if s.len() > 0 && (s[0] == '-' || s[0] == '+') { 1 } else { 0 };
    let k1 = digit_run(s, i);
    let j = i + k1;
    let has_dot = j < s.len() && s[j] == '.';
    let k2: int = if has_dot { digit_run(s, j + 1) } else { 0 };
    let j2: int = if has_dot { j + 1 + k2 } else { j };
    if k1 + k2 == 0 {
        false
    } else if j2 < s.len() && (s[j2] == 'e' || s[j2] == 'E') {
        let js: int = if j2 + 1 < s.len() && (s[j2 + 1] == '+' || s[j2 + 1] == '-') {
            j2 + 2
        } else {
            j2 + 1
        };
        let ke = digit_run(s, js);
        ke >= 1 && js + ke == s.len()
    } else {
        j2 == s.len()
    }
}

/// A digit run without its leading zeros; a lone zero where the run is empty
/// or all zeros.
pub open spec fn strip_zeros(d: Seq<char>) -> Seq<char>
    decreases d.len(),
{
    if d.len() == 0 {
        seq!['0']
    } else if d.len() == 1 {
        d
    } else if d[0] == '0' {
        strip_zeros(d.skip(1))
    } else {
        d
    }
}

/// The canonical rendering of an accepted decimal text: the sign only where
/// the value is negated, the integer digits without spurious leading zeros
/// (a lone zero where there are none), the fractional part only where it has
/// digits, and the exponent as written.
pub open spec fn canon_decimal(s: Seq<char>) -> Seq<char> {
    let neg = s.len() > 0 && s[0] == '-';
    let i: int = if s.len() > 0 && (s[0] == '-' || s[0] == '+') { 1 } else { 0 };
    let k1 = digit_run(s, i);
    let j = i + k1;
    let has_dot = j < s.len() && s[j] == '.';
    let k2: int = if has_dot { digit_run(s, j + 1) } else { 0 };
    let j2: int = if has_dot { j + 1 + k2 } else { j };
    let sign = if neg { seq!['-'] } else { Seq::<char>::empty() };
    let ip = strip_zeros(s.subrange(i, j));
    let fp = if k2 >= 1 {
        seq!['.'] + s.subrange(j + 1, j + 1 + k2)
    } else {
        Seq::<char>::empty()
    };
    sign + ip + fp + s.subrange(j2, s.len() as int)
}

/// Stripping leading zeros keeps digits only, at least one of them, and the
/// result starts with a zero only when it is the lone zero.
pub proof fn lemma_strip_zeros_props(d: Seq<char>)
    requires
        all_digits(d),
    ensures
        strip_zeros(d).len() >= 1,
        all_digits(strip_zeros(d)),
        strip_zeros(d)[0] == '0' ==> strip_zeros(d).len() == 1,
    decreases d.len(),
{
    if d.len() >= 2 && d[0] == '0' {
        assert(all_digits(d.skip(1)));
        lemma_strip_zeros_props(d.skip(1));
    }
}

/// Where the first `z` characters are zeros, stripping leading zeros is
/// skipping: it skips exactly `z` characters, or yields the lone zero where
/// nothing follows them.
pub proof fn lemma_strip_zeros_skip(d: Seq<char>, z: int)
    requires
        0 <= z <= d.len(),
        forall|m: int| 0 <= m < z ==> d[m] == '0',
    ensures
        z == d.len() ==> strip_zeros(d) == seq!['0'],
        (z < d.len() && d[z] != '0') ==> strip_zeros(d) == d.skip(z),
    decreases z,
{
    if z == 0 {
        if 0 < d.len() && d[0] != '0' {
            assert(d.skip(0) =~= d);
        }
    } else {
        if d.len() == 1 {
            assert(d =~= seq!['0']);
        } else {
            assert(forall|m: int| 0 <= m < z - 1 ==> #[trigger] d.skip(1)[m] == '0');
            lemma_strip_zeros_skip(d.skip(1), z - 1);
            if z < d.len() && d[z] != '0' {
                assert(d.skip(1)[z - 1] == d[z]);
                assert(d.skip(1).skip(z - 1) =~= d.skip(z));
            }
        }
    }
}

/// The canonical rendering of an accepted decimal text is a JSON number made
/// of number characters only.
#[verifier::rlimit(100)]
pub proof fn lemma_canon_decimal_wf(s: Seq<char>)
    requires
        decimal_number(s),
    ensures
        json_number(canon_decimal(s)),
        all_number_chars(canon_decimal(s)),
{
    let neg = s.len() > 0 && s[0] == '-';
    let i: int = if s.len() > 0 && (s[0] == '-' || s[0] == '+') { 1 } else { 0 };
    let k1 = digit_run(s, i);
    let j = i + k1;
    let has_dot = j < s.len() && s[j] == '.';
    let k2: int = if has_dot { digit_run(s, j + 1) } else { 0 };
    let j2: int = if has_dot { j + 1 + k2 } else { j };
    let sign = if neg { seq!['-'] } else { Seq::<char>::empty() };
    let ip = strip_zeros(s.subrange(i, j));
    let fp = if k2 >= 1 {
        seq!['.'] + s.subrange(j + 1, j + 1 + k2)
    } else {
        Seq::<char>::empty()
    };
    let ep = s.subrange(j2, s.len() as int);
    let t = canon_decimal(s);
    assert(t == sign + ip + fp + ep);
    let a: int = sign.len() as int;
    let b: int = ip.len() as int;
    let c: int = fp.len() as int;
    let d: int = ep.len() as int;
    assert(t.len() == a + b + c + d);

    lemma_digit_run_bounds(s, i);
    assert(all_digits(s.subrange(i, j)));
    lemma_strip_zeros_props(s.subrange(i, j));
    assert(b >= 1);
    if has_dot {
        lemma_digit_run_bounds(s, j + 1);
        assert(all_digits(s.subrange(j + 1, j + 1 + k2)));
    }

    // characters of each region of the canonical text
    assert(forall|m: int| a <= m < a + b ==> #[trigger] t[m] == ip[m - a]);
    assert(forall|m: int| a + b <= m < a + b + c ==> #[trigger] t[m] == fp[m - a - b]);
    assert(forall|m: int| a + b + c <= m < t.len() ==> #[trigger] t[m] == ep[m - a - b - c]);
    assert(forall|m: int| 0 <= m < d ==> #[trigger] ep[m] == s[j2 + m]);

    // the source's exponent, where it has one
    if d > 0 {
        assert(j2 < s.len());
        assert(s[j2] == 'e' || s[j2] == 'E');
    }
    let js: int = if j2 + 1 < s.len() && (s[j2 + 1] == '+' || s[j2 + 1] == '-') {
        j2 + 2
    } else {
        j2 + 1
    };
    let ke = digit_run(s, js);
    if d > 0 {
        assert(ke >= 1 && js + ke == s.len());
        lemma_digit_run_bounds(s, js);
        assert(all_digits(s.subrange(js, js + ke)));
        assert(forall|m: int| js <= m < s.len() ==> is_digit_char(#[trigger] s[m])) by {
            assert(forall|m: int| js <= m < s.len()
                ==> s[m] == s.subrange(js, js + ke)[m - js]);
        }
        assert(d >= 2);
    }

    // the integer digit run of the canonical text
    assert forall|m: int| a <= m < a + b implies is_digit_char(#[trigger] t[m]) by {
        assert(t[m] == ip[m - a]);
    }
    if a + b < t.len() {
        if c > 0 {
            assert(t[a + b] == fp[0] && fp[0] == '.');
        } else {
            assert(t[a + b] == ep[0] && (ep[0] == 'e' || ep[0] == 'E'));
        }
        assert(!is_digit_char(t[a + b]));
    }
    lemma_digit_run_exact(t, a, b);

    // the fractional digit run
    if c > 0 {
        assert(c == 1 + k2 && k2 >= 1);
        assert forall|m: int| a + b + 1 <= m < a + b + c implies
            is_digit_char(#[trigger] t[m]) by {
            assert(t[m] == fp[m - a - b]);
            assert(fp[m - a - b] == s.subrange(j + 1, j + 1 + k2)[m - a - b - 1]);
        }
        if a + b + c < t.len() {
            assert(t[a + b + c] == ep[0] && (ep[0] == 'e' || ep[0] == 'E'));
            assert(!is_digit_char(t[a + b + c]));
        }
        lemma_digit_run_exact(t, a + b + 1, k2);
    }

    // the exponent digit run
    let jst: int = a + b + c + (js - j2);
    if d > 0 {
        assert forall|m: int| jst <= m < t.len() implies is_digit_char(#[trigger] t[m]) by {
            assert(t[m] == ep[m - a - b - c]);
            assert(ep[m - a - b - c] == s[j2 + m - a - b - c]);
        }
        lemma_digit_run_exact(t, jst, t.len() - jst);
        assert(t.len() - jst == ke);
    }

    // the canonical text follows the stored grammar
    assert(t.len() > 0);
    if neg {
        assert(t[0] == '-');
    } else {
        assert(t[0] == ip[0] && is_digit_char(ip[0]));
    }
    let it: int = if t[0] == '-' { 1 } else { 0 };
    assert(it == a);
    assert(digit_run(t, a) == b);
    assert(t[a] == ip[0]);
    assert(t[a] == '0' ==> b == 1);
    if c > 0 {
        assert(t[a + b] == '.');
        assert(digit_run(t, a + b + 1) == k2 && k2 >= 1);
    } else {
        if a + b < t.len() {
            assert(t[a + b] != '.');
        }
    }
    let j2t: int = a + b + c;
    if d > 0 {
        assert(t[j2t] == 'e' || t[j2t] == 'E');
        assert(j2t + 1 < t.len());
        assert(t[j2t + 1] == ep[1] && ep[1] == s[j2 + 1]);
        assert(js == j2 + 2 <==> (t[j2t + 1] == '+' || t[j2t + 1] == '-'));
        assert(jst + ke == t.len());
        assert(json_number(t));
    } else {
        assert(j2t == t.len());
        assert(json_number(t));
    }

    // every character of the canonical text is a number character
    assert forall|m: int| 0 <= m < t.len() implies is_number_char(#[trigger] t[m]) by {
        if m < a {
            assert(t[m] == '-');
        } else if m < a + b {
            assert(t[m] == ip[m - a]);
        } else if m < a + b + c {
            assert(t[m] == fp[m - a - b]);
            if m > a + b {
                assert(fp[m - a - b] == s.subrange(j + 1, j + 1 + k2)[m - a - b - 1]);
            }
        } else {
            assert(t[m] == ep[m - a - b - c]);
            if m == a + b + c {
            } else if m < jst {
                assert(m == a + b + c + 1 && js == j2 + 2);
                assert(t[m] == s[j2 + 1]);
            } else {
                assert(is_digit_char(t[m]));
            }
        }
    }
}

/// Reads a decimal text and renders its canonical form, `None` exactly where
/// the text does not follow the accepted decimal grammar.
#[verifier::rlimit(100)]
pub fn normalize_decimal(v: &Vec<char>) -> (r: Option<Vec<char>>)
    ensures
        (r is Some) <==> decimal_number(v@),
        (r matches Some(t) ==> t@ == canon_decimal(v@)),
{
    let n = v.len();
    let neg = n > 0 && v[0] == '-';
    let i: usize = if n > 0 && (v[0] == '-' || v[0] == '+') { 1 } else { 0 };
    let (k1, _v1, _o1) = scan_digits(v, i);
    let j = i + k1;
    let has_dot = j < n && v[j] == '.';
    let k2: usize = if has_dot {
        let (k2v, _v2, _o2) = scan_digits(v, j + 1);
        k2v
    } else {
        0
    };
    let j2: usize = if has_dot { j + 1 + k2 } else { j };
    if k1 == 0 && k2 == 0 {
        return None;
    }
    if j2 < n && (v[j2] == 'e' || v[j2] == 'E') {
        let js: usize = if j2 + 1 < n && (v[j2 + 1] == '+' || v[j2 + 1] == '-') {
            j2 + 2
        } else {
            j2 + 1
        };
        let (ke, _v3, _o3) = scan_digits(v, js);
        if !(ke >= 1 && js + ke == n) {
            return None;
        }
    } else {
        if j2 != n {
            return None;
        }
    }
    assert(decimal_number(v@));

    let mut out: Vec<char> = Vec::new();
    if neg {
        out.push('-');
    }
    let ghost sign: Seq<char> = if neg { seq!['-'] } else { Seq::<char>::empty() };
    assert(out@ =~= sign);
    let mut z: usize = i;
    while z < j && v[z] == '0'
        invariant
            i <= z <= j <= v@.len(),
            forall|m: int| i <= m < z ==> v@[m] == '0',
        decreases j - z,
    {
        z = z + 1;
    }
    proof {
        assert(forall|m: int| 0 <= m < z - i
            ==> #[trigger] v@.subrange(i as int, j as int)[m] == '0');
        lemma_strip_zeros_skip(v@.subrange(i as int, j as int), z - i);
    }
    if z == j {
        out.push('0');
        assert(strip_zeros(v@.subrange(i as int, j as int)) == seq!['0']);
        assert(out@ =~= sign + strip_zeros(v@.subrange(i as int, j as int)));
    } else {
        assert(v@.subrange(i as int, j as int)[z - i] == v@[z as int]);
        assert(v@.subrange(i as int, j as int).skip(z - i)
            =~= v@.subrange(z as int, j as int));
        let ipart = copy_range(v, z, j);
        push_seq(&mut out, &ipart);
        assert(out@ =~= sign + strip_zeros(v@.subrange(i as int, j as int)));
    }
    let ghost ip: Seq<char> = strip_zeros(v@.subrange(i as int, j as int));
    if k2 >= 1 {
        out.push('.');
        let fpart = copy_range(v, j + 1, j + 1 + k2);
        push_seq(&mut out, &fpart);
        assert(out@ =~= sign + ip
            + (seq!['.'] + v@.subrange(j as int + 1, j as int + 1 + k2 as int)));
    }
    let ghost fp: Seq<char> = if k2 >= 1 {
        seq!['.'] + v@.subrange(j as int + 1, j as int + 1 + k2 as int)
    } else {
        Seq::<char>::empty()
    };
    assert(out@ =~= sign + ip + fp);
    let epart = copy_range(v, j2, n);
    push_seq(&mut out, &epart);
    assert(out@ =~= sign + ip + fp + v@.subrange(j2 as int, v@.len() as int));
    assert(out@ == canon_decimal(v@));
    Some(out)
}

// ------------------------------------------------------------------
// Characters, strings and literals
// ------------------------------------------------------------------

/// Relies on `Iterator::collect` building a `String` from exactly the
/// characters of the vector, in order.
#[verifier::external_body]
pub fn chars_to_string(v: &Vec<char>) -> (r: String)
    ensures
        r@ == v@,
{
    v.iter().collect()
}

/// Relies on `str::chars` yielding exactly the characters of the string,
/// in order.
#[verifier::external_body]
pub fn str_chars(s: &str) -> (r: Vec<char>)
    ensures
        r@ == s@,
{
    s.chars().collect()
}

/// Appends a copy of `s` to `out`.
pub fn push_seq(out: &mut Vec<char>, s: &Vec<char>)
    ensures
        final(out)@ == old(out)@ + s@,
{
    let mut i: usize = 0;
    while i < s.len()
        invariant
            i <= s@.len(),
            out@ == old(out)@ + s@.take(i as int),
        decreases s@.len() - i,
    {
        out.push(s[i]);
        assert(out@ =~= old(out)@ + s@.take(i + 1));
        i = i + 1;
    }
    assert(out@ =~= old(out)@ + s@);
}

/// Copies the characters of `v` in `from..to` into a fresh vector.
pub fn copy_range(v: &Vec<char>, from: usize, to: usize) -> (r: Vec<char>)
    requires
        from <= to <= v@.len(),
    ensures
        r@ == v@.subrange(from as int, to as int),
{
    let mut out: Vec<char> = Vec::new();
    let mut i: usize = from;
    while i < to
        invariant
            from <= i <= to <= v@.len(),
            out@ == v@.subrange(from as int, i as int),
        decreases to - i,
    {
        out.push(v[i]);
        assert(out@ =~= v@.subrange(from as int, i as int + 1));
        i = i + 1;
    }
    out
}

} // verus!
