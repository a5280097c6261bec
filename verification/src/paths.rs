use vstd::prelude::*;
use crate::text::{
    chars_to_string, dec_int, parse_i128_at, parse_int_at, push_i128, push_seq, str_chars,
};

verus! {

// ------------------------------------------------------------------
// Identity
// ------------------------------------------------------------------

/// The identity of a stored entry: nanoseconds since the epoch, derived from
/// a creation instant given as whole seconds and the nanosecond of that
/// second.
pub fn identity_from_instant(secs: i64, nanos: u32) -> (r: i128)
    requires
        nanos < 1_000_000_000,
    ensures
        r == secs * 1_000_000_000 + nanos,
{
    (secs as i128) * 1_000_000_000 + (nanos as i128)
}

/// Identities are ordered as their creation instants: under a correctly
/// functioning clock the identity is monotone.
pub proof fn lemma_identity_monotonic(s1: int, n1: int, s2: int, n2: int)
    requires
        0 <= n1 < 1_000_000_000,
        0 <= n2 < 1_000_000_000,
        s1 < s2 || (s1 == s2 && n1 < n2),
    ensures
        s1 * 1_000_000_000 + n1 < s2 * 1_000_000_000 + n2,
{
    if s1 < s2 {
        assert((s2 - s1) * 1_000_000_000 >= 1_000_000_000) by (nonlinear_arith)
            requires s2 - s1 >= 1,
        {}
        assert(s2 * 1_000_000_000 == s1 * 1_000_000_000 + (s2 - s1) * 1_000_000_000)
            by (nonlinear_arith);
    }
}

/// The decimal text of an identity, used as the filename stem of its files.
pub fn identity_stem(id: i128) -> (r: String)
    ensures
        r@ == dec_int(id as int),
{
    let mut out: Vec<char> = Vec::new();
    push_i128(id, &mut out);
    chars_to_string(&out)
}

/// The identity denoted by a filename base: the whole base read as a decimal
/// integer, or zero where it is not one.
pub open spec fn stem_identity(base: Seq<char>) -> int {
    match parse_int_at(base, 0) {
        Some((v, end)) => if end == base.len() && i128::MIN <= v <= i128::MAX {
            v
        } else {
            0
        },
        None => 0,
    }
}

/// Reads a filename base as an identity, zero where unparsable.
pub fn stem_identity_of(base: &Vec<char>) -> (r: i128)
    ensures
        r as int == stem_identity(base@),
{
    match parse_i128_at(base, 0) {
        Some(p) => {
            let (v, end) = p;
            if end == base.len() {
                v
            } else {
                0
            }
        },
        None => 0,
    }
}

// ------------------------------------------------------------------
// Paths in the two on-disk layouts
// ------------------------------------------------------------------

pub open spec fn jpg_suffix() -> Seq<char> {
    seq!['.', 'j', 'p', 'g']
}

pub open spec fn json_suffix() -> Seq<char> {
    seq!['.', 'j', 's', 'o', 'n']
}

/// The metadata directory of the current layout.
pub open spec fn json_dir_prefix() -> Seq<char> {
    seq!['d', 'a', 't', 'a', '/', 'j', 's', 'o', 'n', '/']
}

/// The photo directory, which also holds legacy sidecars.
pub open spec fn photos_dir_prefix() -> Seq<char> {
    seq!['d', 'a', 't', 'a', '/', 'p', 'h', 'o', 't', 'o', 's', '/']
}

/// The web-relative prefix under which photos are served.
pub open spec fn web_photos_prefix() -> Seq<char> {
    seq!['/', 'p', 'h', 'o', 't', 'o', 's', '/']
}

pub open spec fn json_meta_path_spec(base: Seq<char>) -> Seq<char> {
    json_dir_prefix() + base + json_suffix()
}

pub open spec fn legacy_meta_path_spec(base: Seq<char>) -> Seq<char> {
    photos_dir_prefix() + base + json_suffix()
}

pub open spec fn image_path_spec(stem: Seq<char>) -> Seq<char> {
    photos_dir_prefix() + stem + jpg_suffix()
}

/// The web-relative path of a photo file.
pub open spec fn web_photo_path(fname: Seq<char>) -> Seq<char> {
    web_photos_prefix() + fname
}

fn jpg_suffix_vec() -> (r: Vec<char>)
    ensures
        r@ == jpg_suffix(),
{
    let mut v: Vec<char> = Vec::new();
    v.push('.'); v.push('j'); v.push('p'); v.push('g');
    assert(v@ =~= jpg_suffix());
    v
}

fn json_suffix_vec() -> (r: Vec<char>)
    ensures
        r@ == json_suffix(),
{
    let mut v: Vec<char> = Vec::new();
    v.push('.'); v.push('j'); v.push('s'); v.push('o'); v.push('n');
    assert(v@ =~= json_suffix());
    v
}

fn json_dir_prefix_vec() -> (r: Vec<char>)
    ensures
        r@ == json_dir_prefix(),
{
    let mut v: Vec<char> = Vec::new();
    v.push('d'); v.push('a'); v.push('t'); v.push('a'); v.push('/');
    v.push('j'); v.push('s'); v.push('o'); v.push('n'); v.push('/');
    assert(v@ =~= json_dir_prefix());
    v
}

fn photos_dir_prefix_vec() -> (r: Vec<char>)
    ensures
        r@ == photos_dir_prefix(),
{
    let mut v: Vec<char> = Vec::new();
    v.push('d'); v.push('a'); v.push('t'); v.push('a'); v.push('/');
    v.push('p'); v.push('h'); v.push('o'); v.push('t'); v.push('o');
    v.push('s'); v.push('/');
    assert(v@ =~= photos_dir_prefix());
    v
}

fn web_photos_prefix_vec() -> (r: Vec<char>)
    ensures
        r@ == web_photos_prefix(),
{
    let mut v: Vec<char> = Vec::new();
    v.push('/'); v.push('p'); v.push('h'); v.push('o'); v.push('t');
    v.push('o'); v.push('s'); v.push('/');
    assert(v@ =~= web_photos_prefix());
    v
}

/// Path of a base's sidecar in the current layout: `data/json/<base>.json`.
pub fn json_meta_path(base_name: &str) -> (r: String)
    ensures
        r@ == json_meta_path_spec(base_name@),
{
    let mut out = json_dir_prefix_vec();
    let base = str_chars(base_name);
    push_seq(&mut out, &base);
    let suf = json_suffix_vec();
    push_seq(&mut out, &suf);
    assert(out@ =~= json_meta_path_spec(base_name@));
    chars_to_string(&out)
}

/// Path of a base's sidecar in the legacy layout: `data/photos/<base>.json`.
pub fn legacy_meta_path(base_name: &str) -> (r: String)
    ensures
        r@ == legacy_meta_path_spec(base_name@),
{
    let mut out = photos_dir_prefix_vec();
    let base = str_chars(base_name);
    push_seq(&mut out, &base);
    let suf = json_suffix_vec();
    push_seq(&mut out, &suf);
    assert(out@ =~= legacy_meta_path_spec(base_name@));
    chars_to_string(&out)
}

/// Path of a stem's image: `data/photos/<stem>.jpg`.
pub fn image_path(stem: &str) -> (r: String)
    ensures
        r@ == image_path_spec(stem@),
{
    let mut out = photos_dir_prefix_vec();
    let s = str_chars(stem);
    push_seq(&mut out, &s);
    let suf = jpg_suffix_vec();
    push_seq(&mut out, &suf);
    assert(out@ =~= image_path_spec(stem@));
    chars_to_string(&out)
}

/// The web-relative photo path of a filename: `/photos/<fname>`.
pub fn web_photo_path_of(fname: &Vec<char>) -> (r: Vec<char>)
    ensures
        r@ == web_photo_path(fname@),
{
    let mut out = web_photos_prefix_vec();
    push_seq(&mut out, fname);
    assert(out@ =~= web_photo_path(fname@));
    out
}

// ------------------------------------------------------------------
// Filename bases
// ------------------------------------------------------------------

/// The metadata base of a filename stem: the stem with every further
/// trailing `.jpg` stripped, matching how listing derives the base from a
/// filename by trimming all trailing `.jpg` suffixes.
pub open spec fn strip_jpg(s: Seq<char>) -> Seq<char>
    decreases s.len(),
{
    if s.len() >= 4 && s.subrange(s.len() - 4, s.len() as int) == jpg_suffix() {
        strip_jpg(s.subrange(0, s.len() - 4))
    } else {
        s
    }
}

/// Strips every trailing `.jpg` from a character sequence.
pub fn strip_jpg_chars(v: &Vec<char>) -> (r: Vec<char>)
    ensures
        r@ == strip_jpg(v@),
    decreases v@.len(),
{
    let n = v.len();
    if n >= 4 && v[n - 4] == '.' && v[n - 3] == 'j' && v[n - 2] == 'p' && v[n - 1] == 'g' {
        assert(v@.subrange(n - 4, n as int) =~= jpg_suffix());
        let head = crate::text::copy_range(v, 0, n - 4);
        let r = strip_jpg_chars(&head);
        r
    } else {
        proof {
            if v@.len() >= 4 && v@.subrange(v@.len() - 4, v@.len() as int) == jpg_suffix() {
                assert(v@[n - 4] == v@.subrange(v@.len() - 4, v@.len() as int)[0]);
                assert(v@[n - 3] == v@.subrange(v@.len() - 4, v@.len() as int)[1]);
                assert(v@[n - 2] == v@.subrange(v@.len() - 4, v@.len() as int)[2]);
                assert(v@[n - 1] == v@.subrange(v@.len() - 4, v@.len() as int)[3]);
            }
        }
        let mut r: Vec<char> = Vec::new();
        push_seq(&mut r, v);
        assert(r@ =~= v@);
        r
    }
}

} // verus!
