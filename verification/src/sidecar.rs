use vstd::prelude::*;
use crate::entry::{Entry, EntryV, wf_entry, wf_path, wf_temp, is_path_char};
use crate::text::{
    chars_to_string, copy_range, dec_digits, dec_int, is_digit_char, is_json_number,
    is_number_char, json_number, lemma_dec_digits_wf, lemma_digit_run_exact,
    lemma_number_run_exact, lemma_val_of_dec_digits, number_run, parse_i128_at, parse_i64_at,
    parse_int_at, push_i128, push_i64, push_seq, scan_number_run, str_chars,
};

verus! {

// ------------------------------------------------------------------
// The sidecar text format
// ------------------------------------------------------------------
//
// A sidecar is one JSON object holding the entry's fields in a fixed order:
//
//   {"path":"...","sys":1,"dia":2,"pulse":3,"temp_c":36.6,"timestamp_nanos":4}
//
// The writer always produces exactly this shape. The reader accepts exactly
// this shape; anything else counts as malformed, and the store then falls
// back to a synthesized entry.

pub open spec fn lit_head() -> Seq<char> {
    seq!['{', '"', 'p', 'a', 't', 'h', '"', ':', '"']
}

pub open spec fn lit_sys() -> Seq<char> {
    seq!['"', ',', '"', 's', 'y', 's', '"', ':']
}

pub open spec fn lit_dia() -> Seq<char> {
    seq![',', '"', 'd', 'i', 'a', '"', ':']
}

pub open spec fn lit_pulse() -> Seq<char> {
    seq![',', '"', 'p', 'u', 'l', 's', 'e', '"', ':']
}

pub open spec fn lit_temp() -> Seq<char> {
    seq![',', '"', 't', 'e', 'm', 'p', '_', 'c', '"', ':']
}

pub open spec fn lit_ts() -> Seq<char> {
    seq![',', '"', 't', 'i', 'm', 'e', 's', 't', 'a', 'm', 'p', '_', 'n', 'a', 'n', 'o', 's', '"', ':']
}

/// The canonical sidecar text of an entry.
pub open spec fn sidecar_text(e: EntryV) -> Seq<char> {
    lit_head() + e.path
        + lit_sys() + dec_int(e.sys)
        + lit_dia() + dec_int(e.dia)
        + lit_pulse() + dec_int(e.pulse)
        + lit_temp() + e.temp_c
        + lit_ts() + dec_int(e.timestamp_nanos)
        + seq!['}']
}

/// The literal `lit` stands at position `i` of `s`.
pub open spec fn matches_at(s: Seq<char>, i: int, lit: Seq<char>) -> bool {
    0 <= i && i + lit.len() <= s.len() && s.subrange(i, i + lit.len()) == lit
}

/// Index of the first quote at or after `i`, or the length of `s`.
pub open spec fn find_quote(s: Seq<char>, i: int) -> int
    decreases s.len() - i when 0 <= i <= s.len()
{
    if i < s.len() {
        if s[i] == '"' {
            i
        } else {
            find_quote(s, i + 1)
        }
    } else {
        i
    }
}

/// The first quote at or after `i` is at `i + k` when the `k` characters
/// before it are not quotes.
pub proof fn lemma_find_quote_exact(s: Seq<char>, i: int, k: int)
    requires
        0 <= i,
        0 <= k,
        i + k < s.len(),
        forall|j: int| i <= j < i + k ==> s[j] != '"',
        s[i + k] == '"',
    ensures
        find_quote(s, i) == i + k,
    decreases k,
{
    if k > 0 {
        lemma_find_quote_exact(s, i + 1, k - 1);
    }
}

/// What the strict reader makes of a text: the entry it denotes, or `None`
/// where the text is not a canonical sidecar.
pub open spec fn parse_sidecar(s: Seq<char>) -> Option<EntryV> {
    if !matches_at(s, 0, lit_head()) {
        None
    } else {
        let pe = find_quote(s, 9);
        if pe >= s.len() || !matches_at(s, pe, lit_sys()) {
            None
        } else {
            let path = s.subrange(9, pe);
            match parse_int_at(s, pe + 8) {
                None => None,
                Some((sys, p2)) => if !(i64::MIN <= sys <= i64::MAX) || !matches_at(s, p2, lit_dia()) {
                    None
                } else {
                    match parse_int_at(s, p2 + 7) {
                        None => None,
                        Some((dia, p3)) => if !(i64::MIN <= dia <= i64::MAX) || !matches_at(s, p3, lit_pulse()) {
                            None
                        } else {
                            match parse_int_at(s, p3 + 9) {
                                None => None,
                                Some((pulse, p4)) => if !(i64::MIN <= pulse <= i64::MAX) || !matches_at(s, p4, lit_temp()) {
                                    None
                                } else {
                                    let p5 = p4 + 10;
                                    let kt = number_run(s, p5);
                                    let temp = s.subrange(p5, p5 + kt);
                                    if kt == 0 || !json_number(temp) || !matches_at(s, p5 + kt, lit_ts()) {
                                        None
                                    } else {
                                        match parse_int_at(s, p5 + kt + 19) {
                                            None => None,
                                            Some((ts, p6)) => if !(i128::MIN <= ts <= i128::MAX)
                                                || p6 + 1 != s.len() || s[p6] != '}' {
                                                None
                                            } else {
                                                Some(EntryV {
                                                    path,
                                                    sys,
                                                    dia,
                                                    pulse,
                                                    temp_c: temp,
                                                    timestamp_nanos: ts,
                                                })
                                            },
                                        }
                                    }
                                },
                            }
                        },
                    }
                },
            }
        }
    }
}


// ------------------------------------------------------------------
// Executable writer and reader
// ------------------------------------------------------------------

fn lit_head_vec() -> (r: Vec<char>)
    ensures
        r@ == lit_head(),
{
    let mut v: Vec<char> = Vec::new();
    v.push('{'); v.push('"'); v.push('p'); v.push('a'); v.push('t');
    v.push('h'); v.push('"'); v.push(':'); v.push('"');
    assert(v@ =~= lit_head());
    v
}

fn lit_sys_vec() -> (r: Vec<char>)
    ensures
        r@ == lit_sys(),
{
    let mut v: Vec<char> = Vec::new();
    v.push('"'); v.push(','); v.push('"'); v.push('s'); v.push('y');
    v.push('s'); v.push('"'); v.push(':');
    assert(v@ =~= lit_sys());
    v
}

fn lit_dia_vec() -> (r: Vec<char>)
    ensures
        r@ == lit_dia(),
{
    let mut v: Vec<char> = Vec::new();
    v.push(','); v.push('"'); v.push('d'); v.push('i'); v.push('a');
    v.push('"'); v.push(':');
    assert(v@ =~= lit_dia());
    v
}

fn lit_pulse_vec() -> (r: Vec<char>)
    ensures
        r@ == lit_pulse(),
{
    let mut v: Vec<char> = Vec::new();
    v.push(','); v.push('"'); v.push('p'); v.push('u'); v.push('l');
    v.push('s'); v.push('e'); v.push('"'); v.push(':');
    assert(v@ =~= lit_pulse());
    v
}

fn lit_temp_vec() -> (r: Vec<char>)
    ensures
        r@ == lit_temp(),
{
    let mut v: Vec<char> = Vec::new();
    v.push(','); v.push('"'); v.push('t'); v.push('e'); v.push('m');
    v.push('p'); v.push('_'); v.push('c'); v.push('"'); v.push(':');
    assert(v@ =~= lit_temp());
    v
}

fn lit_ts_vec() -> (r: Vec<char>)
    ensures
        r@ == lit_ts(),
{
    let mut v: Vec<char> = Vec::new();
    v.push(','); v.push('"'); v.push('t'); v.push('i'); v.push('m');
    v.push('e'); v.push('s'); v.push('t'); v.push('a'); v.push('m');
    v.push('p'); v.push('_'); v.push('n'); v.push('a'); v.push('n');
    v.push('o'); v.push('s'); v.push('"'); v.push(':');
    assert(v@ =~= lit_ts());
    v
}

/// Whether `lit` stands at position `pos` of `v`.
fn match_lit(v: &Vec<char>, pos: usize, lit: &Vec<char>) -> (r: bool)
    requires
        pos <= v@.len(),
    ensures
        r == matches_at(v@, pos as int, lit@),
{
    let n = v.len();
    if n - pos < lit.len() {
        return false;
    }
    let mut i: usize = 0;
    while i < lit.len()
        invariant
            n == v@.len(),
            pos + lit@.len() <= n,
            i <= lit@.len(),
            forall|j: int| 0 <= j < i ==> v@[pos + j] == lit@[j],
        decreases lit@.len() - i,
    {
        if v[pos + i] != lit[i] {
            assert(v@.subrange(pos as int, pos + lit@.len())[i as int] != lit@[i as int]);
            return false;
        }
        i = i + 1;
    }
    assert(v@.subrange(pos as int, pos + lit@.len()) =~= lit@);
    true
}

/// Writes the canonical sidecar text of an entry.
pub fn sidecar_string(e: &Entry) -> (r: String)
    ensures
        r@ == sidecar_text(e@),
{
    let mut out: Vec<char> = Vec::new();
    let head = lit_head_vec();
    push_seq(&mut out, &head);
    let path = str_chars(e.path.as_str());
    push_seq(&mut out, &path);
    let l2 = lit_sys_vec();
    push_seq(&mut out, &l2);
    push_i64(e.sys, &mut out);
    let l3 = lit_dia_vec();
    push_seq(&mut out, &l3);
    push_i64(e.dia, &mut out);
    let l4 = lit_pulse_vec();
    push_seq(&mut out, &l4);
    push_i64(e.pulse, &mut out);
    let l5 = lit_temp_vec();
    push_seq(&mut out, &l5);
    let temp = str_chars(e.temp_c.as_str());
    push_seq(&mut out, &temp);
    let l6 = lit_ts_vec();
    push_seq(&mut out, &l6);
    push_i128(e.timestamp_nanos, &mut out);
    out.push('}');
    assert(out@ =~= sidecar_text(e@));
    chars_to_string(&out)
}

/// Finds the first quote at or after `pos`.
fn find_quote_from(v: &Vec<char>, pos: usize) -> (r: usize)
    requires
        pos <= v@.len(),
    ensures
        r == find_quote(v@, pos as int),
        pos <= r <= v@.len(),
    decreases v@.len() - pos,
{
    if pos < v.len() {
        if v[pos] == '"' {
            pos
        } else {
            find_quote_from(v, pos + 1)
        }
    } else {
        pos
    }
}

/// Reads a sidecar text. Returns the entry it denotes, or `None` where the
/// text is not a canonical sidecar.
#[verifier::rlimit(100)]
pub fn parse_sidecar_str(text: &str) -> (r: Option<Entry>)
    ensures
        match r {
            Some(e) => parse_sidecar(text@) == Some(e@),
            None => parse_sidecar(text@) is None,
        },
{
    let v = str_chars(text);
    let head = lit_head_vec();
    if !match_lit(&v, 0, &head) {
        return None;
    }
    let pe = find_quote_from(&v, 9);
    if pe >= v.len() {
        return None;
    }
    let l2 = lit_sys_vec();
    if !match_lit(&v, pe, &l2) {
        return None;
    }
    let path_chars = copy_range(&v, 9, pe);
    let sys_end = match parse_i64_at(&v, pe + 8) {
        None => { return None; },
        Some(p) => p,
    };
    let (sys, p2) = sys_end;
    proof {
        let pi = parse_int_at(v@, pe + 8);
        assert(pi matches Some(p) && p.0 == sys as int && p.1 == p2 as int);
    }
    let l3 = lit_dia_vec();
    if !match_lit(&v, p2, &l3) {
        return None;
    }
    let dia_end = match parse_i64_at(&v, p2 + 7) {
        None => { return None; },
        Some(p) => p,
    };
    let (dia, p3) = dia_end;
    proof {
        let pi = parse_int_at(v@, p2 + 7);
        assert(pi matches Some(p) && p.0 == dia as int && p.1 == p3 as int);
    }
    let l4 = lit_pulse_vec();
    if !match_lit(&v, p3, &l4) {
        return None;
    }
    let pulse_end = match parse_i64_at(&v, p3 + 9) {
        None => { return None; },
        Some(p) => p,
    };
    let (pulse, p4) = pulse_end;
    proof {
        let pi = parse_int_at(v@, p3 + 9);
        assert(pi matches Some(p) && p.0 == pulse as int && p.1 == p4 as int);
    }
    let l5 = lit_temp_vec();
    if !match_lit(&v, p4, &l5) {
        return None;
    }
    let p5 = p4 + 10;
    let kt = scan_number_run(&v, p5);
    let temp_chars = copy_range(&v, p5, p5 + kt);
    if kt == 0 || !is_json_number(&temp_chars) {
        return None;
    }
    let l6 = lit_ts_vec();
    if !match_lit(&v, p5 + kt, &l6) {
        return None;
    }
    let ts_end = match parse_i128_at(&v, p5 + kt + 19) {
        None => { return None; },
        Some(p) => p,
    };
    let (ts, p6) = ts_end;
    proof {
        let pi = parse_int_at(v@, p5 + kt + 19);
        assert(pi matches Some(p) && p.0 == ts as int && p.1 == p6 as int);
    }
    if p6 == v.len() {
        return None;
    }
    if p6 + 1 != v.len() || v[p6] != '}' {
        return None;
    }
    let path = chars_to_string(&path_chars);
    let temp_c = chars_to_string(&temp_chars);
    let e = Entry { path, sys, dia, pulse, temp_c, timestamp_nanos: ts };
    proof {
        let s = text@;
        assert(matches_at(s, 0, lit_head()));
        assert(pe == find_quote(s, 9) && pe < s.len());
        assert(matches_at(s, pe as int, lit_sys()));
        assert(e@.path == s.subrange(9, pe as int));
        assert(matches_at(s, p2 as int, lit_dia()));
        assert(matches_at(s, p3 as int, lit_pulse()));
        assert(matches_at(s, p4 as int, lit_temp()));
        assert(kt == number_run(s, p4 + 10) && kt > 0);
        assert(e@.temp_c == s.subrange(p4 + 10, p4 + 10 + kt));
        assert(json_number(e@.temp_c));
        assert(matches_at(s, p4 + 10 + kt, lit_ts()));
        assert(p6 + 1 == s.len() && s[p6 as int] == '}');
        assert(parse_sidecar(s) == Some(e@));
    }
    Some(e)
}


// ------------------------------------------------------------------
// Round trip
// ------------------------------------------------------------------

/// An integer rendering at position `i`, followed by a non-digit, reads back
/// as that integer.
pub proof fn lemma_parse_int_exact(s: Seq<char>, i: int, n: int)
    requires
        0 <= i,
        i + dec_int(n).len() <= s.len(),
        s.subrange(i, i + dec_int(n).len()) == dec_int(n),
        i + dec_int(n).len() < s.len() ==> !is_digit_char(s[i + dec_int(n).len()]),
    ensures
        parse_int_at(s, i) == Some((n, i + dec_int(n).len())),
{
    let text = dec_int(n);
    let m = if n < 0 { -n } else { n };
    lemma_dec_digits_wf(m);
    let digits = dec_digits(m);
    let j = if n < 0 { i + 1 } else { i };
    assert forall|q: int| j <= q < i + text.len() implies is_digit_char(#[trigger] s[q]) by {
        assert(s[q] == s.subrange(i, i + text.len())[q - i]);
        if n < 0 {
            assert(text[q - i] == digits[q - i - 1]);
        } else {
            assert(text[q - i] == digits[q - i]);
        }
    }
    if n < 0 {
        assert(s[i] == s.subrange(i, i + text.len())[0]);
        assert(s[i] == '-');
    } else {
        assert(s[i] == s.subrange(i, i + text.len())[0]);
        assert(is_digit_char(s[i]));
        assert(s[i] != '-');
    }
    lemma_digit_run_exact(s, j, digits.len() as int);
    assert(s.subrange(j, j + digits.len()) =~= digits) by {
        assert forall|q: int| 0 <= q < digits.len() implies
            s.subrange(j, j + digits.len())[q] == digits[q] by {
            assert(s.subrange(j, j + digits.len())[q] == s[j + q]);
            assert(s[j + q] == s.subrange(i, i + text.len())[j + q - i]);
        }
    }
    lemma_val_of_dec_digits(m);
}

/// Writing an entry and reading the text back yields the same entry.
#[verifier::rlimit(100)]
pub proof fn lemma_sidecar_round_trip(e: EntryV)
    requires
        wf_entry(e),
    ensures
        parse_sidecar(sidecar_text(e)) == Some(e),
{
    let s = sidecar_text(e);
    let d_sys = dec_int(e.sys);
    let d_dia = dec_int(e.dia);
    let d_pulse = dec_int(e.pulse);
    let d_ts = dec_int(e.timestamp_nanos);
    let a1 = 9 + e.path.len() as int;
    let a2 = a1 + 8;
    let a3 = a2 + d_sys.len() as int;
    let a4 = a3 + 7;
    let a5 = a4 + d_dia.len() as int;
    let a6 = a5 + 9;
    let a7 = a6 + d_pulse.len() as int;
    let a8 = a7 + 10;
    let a9 = a8 + e.temp_c.len() as int;
    let a10 = a9 + 19;
    let a11 = a10 + d_ts.len() as int;
    assert(s.len() == a11 + 1);

    assert(s.subrange(0, 9) =~= lit_head());
    assert(matches_at(s, 0, lit_head()));

    assert(s.subrange(9, a1) =~= e.path);
    assert(s.subrange(a1, a2) =~= lit_sys());
    assert(s.subrange(a2, a3) =~= d_sys);
    assert(s.subrange(a3, a4) =~= lit_dia());
    assert(s.subrange(a4, a5) =~= d_dia);
    assert(s.subrange(a5, a6) =~= lit_pulse());
    assert(s.subrange(a6, a7) =~= d_pulse);
    assert(s.subrange(a7, a8) =~= lit_temp());
    assert(s.subrange(a8, a9) =~= e.temp_c);
    assert(s.subrange(a9, a10) =~= lit_ts());
    assert(s.subrange(a10, a11) =~= d_ts);
    assert(s[a11] == '}');

    // the path ends at the first quote
    assert forall|j: int| 9 <= j < a1 implies s[j] != '"' by {
        assert(s[j] == s.subrange(9, a1)[j - 9]);
        assert(is_path_char(e.path[j - 9]));
    }
    assert(s[a1] == s.subrange(a1, a2)[0]);
    assert(s[a1] == '"');
    lemma_find_quote_exact(s, 9, e.path.len() as int);
    assert(find_quote(s, 9) == a1);

    // the integer fields read back
    assert(s[a3] == s.subrange(a3, a4)[0] && s[a3] == ',');
    lemma_parse_int_exact(s, a2, e.sys);
    assert(s[a5] == s.subrange(a5, a6)[0] && s[a5] == ',');
    lemma_parse_int_exact(s, a4, e.dia);
    assert(s[a7] == s.subrange(a7, a8)[0] && s[a7] == ',');
    lemma_parse_int_exact(s, a6, e.pulse);
    lemma_parse_int_exact(s, a10, e.timestamp_nanos);

    // the temperature run stops at the comma before the timestamp key
    assert forall|j: int| a8 <= j < a9 implies is_number_char(#[trigger] s[j]) by {
        assert(s[j] == s.subrange(a8, a9)[j - a8]);
        assert(is_number_char(e.temp_c[j - a8]));
    }
    assert(s[a9] == s.subrange(a9, a10)[0] && s[a9] == ',');
    assert(!is_number_char(','));
    lemma_number_run_exact(s, a8, e.temp_c.len() as int);
    assert(number_run(s, a8) == e.temp_c.len());
    assert(json_number(s.subrange(a8, a9)));
    assert(e.temp_c.len() > 0) by {
        if e.temp_c.len() == 0 {
            assert(!json_number(e.temp_c));
        }
    }

    assert(parse_sidecar(s) == Some(e));
}

} // verus!
