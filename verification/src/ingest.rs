use vstd::prelude::*;
use crate::compositor::{
    all_decodable, composite_images, dims_of, jpeg_encodable, layout_overflows, max_height,
    sum_scaled_widths, views_of, CompositeError,
};
use crate::entry::{wf_temp, Entry};
use crate::assoc::assoc_upsert;
use crate::sidecar::sidecar_text;
use crate::store::{saved_entry, store_save, wf_store, Store};
use crate::text::{
    canon_decimal, chars_to_string, dec_int, decimal_number, lemma_canon_decimal_wf,
    normalize_decimal, parse_i64_at, parse_int_at, str_chars,
};

verus! {

// ------------------------------------------------------------------
// The ingestion endpoint's logic
// ------------------------------------------------------------------
//
// A submission carries four required scalar texts and up to three photo
// buffers. A missing or unparsable scalar is the client's fault and stores
// nothing; so is an absent or undecodable photo set. Otherwise the photos
// are composited and the reading is saved. Forwarding to the sink is the
// caller's affair, after a successful save.

/// Why a submission was refused.
#[derive(Debug)]
pub enum IngestError {
    /// A required scalar field is missing or unparsable: the client's fault.
    Validation,
    /// No photo was provided, or one did not decode: the client's fault.
    Decode(String),
    /// The composite geometry exceeds the raster's 32-bit dimensions.
    TooLarge,
    /// The composite could not be encoded: the server's fault.
    Encode(String),
}

impl IngestError {
    /// The HTTP status such an error answers with: a client error for
    /// validation and decoding, a server error otherwise.
    pub fn status_code(&self) -> (r: u16)
        ensures
            r == (if self is Validation || self is Decode { 400int } else { 500int }),
    {
        match self {
            IngestError::Validation => 400,
            IngestError::Decode(_) => 400,
            IngestError::TooLarge => 500,
            IngestError::Encode(_) => 500,
        }
    }
}

/// The integer a whole scalar text denotes, within the `i64` range: an
/// optional sign (a lone one, plus or minus), then decimal digits.
pub open spec fn scalar_i64(s: Seq<char>) -> Option<int> {
    let i: int = if s.len() > 0 && s[0] == '+' { 1 } else { 0 };
    if i == 1 && s.len() > 1 && s[1] == '-' {
        None
    } else {
        match parse_int_at(s, i) {
            Some((v, end)) => if end == s.len() && i64::MIN <= v <= i64::MAX {
                Some(v)
            } else {
                None
            },
            None => None,
        }
    }
}

/// Reads a whole scalar text as an `i64`.
pub fn parse_scalar_i64(text: &str) -> (r: Option<i64>)
    ensures
        (match r {
            Some(v) => scalar_i64(text@) == Some(v as int),
            None => scalar_i64(text@) is None,
        }),
{
    let v = str_chars(text);
    let start: usize = if v.len() > 0 && v[0] == '+' { 1 } else { 0 };
    if start == 1 && v.len() > 1 && v[1] == '-' {
        return None;
    }
    match parse_i64_at(&v, start) {
        Some(p) => {
            let (val, end) = p;
            if end == v.len() {
                Some(val)
            } else {
                None
            }
        },
        None => None,
    }
}

/// Decides whether a temperature text is an accepted decimal.
pub fn validate_temp(text: &str) -> (r: bool)
    ensures
        r == decimal_number(text@),
{
    let v = str_chars(text);
    match normalize_decimal(&v) {
        Some(_) => true,
        None => false,
    }
}

/// Reads a temperature text: its canonical decimal form, `None` exactly
/// where the text does not follow the accepted decimal grammar.
pub fn normalize_temp(text: &str) -> (r: Option<String>)
    ensures
        (r is Some) <==> decimal_number(text@),
        (r matches Some(t) ==> t@ == canon_decimal(text@) && wf_temp(t@)),
{
    let v = str_chars(text);
    match normalize_decimal(&v) {
        Some(t) => {
            proof {
                lemma_canon_decimal_wf(text@);
            }
            Some(chars_to_string(&t))
        },
        None => None,
    }
}

/// A required scalar validates when it is present and parses.
pub open spec fn scalars_valid(
    sys: Option<Seq<char>>,
    dia: Option<Seq<char>>,
    pulse: Option<Seq<char>>,
    temp: Option<Seq<char>>,
) -> bool {
    &&& sys matches Some(s) && scalar_i64(s) is Some
    &&& dia matches Some(s) && scalar_i64(s) is Some
    &&& pulse matches Some(s) && scalar_i64(s) is Some
    &&& temp matches Some(s) && decimal_number(s)
}

/// The photo buffers of a submission, in the order front, left, right,
/// keeping only those provided.
pub open spec fn parts_of(
    front: Option<Seq<u8>>,
    left: Option<Seq<u8>>,
    right: Option<Seq<u8>>,
) -> Seq<Seq<u8>> {
    let a = match front {
        Some(b) => seq![b],
        None => Seq::<Seq<u8>>::empty(),
    };
    let c = match left {
        Some(b) => a.push(b),
        None => a,
    };
    match right {
        Some(b) => c.push(b),
        None => c,
    }
}

pub open spec fn view_opt(o: Option<Vec<u8>>) -> Option<Seq<u8>> {
    match o {
        Some(v) => Some(v@),
        None => None,
    }
}

pub open spec fn view_opt_str(o: Option<&str>) -> Option<Seq<char>> {
    match o {
        Some(s) => Some(s@),
        None => None,
    }
}

/// A submission is accepted exactly when its own content allows it: the four
/// scalars are present and parse, at least one photo is provided, every photo
/// decodes, and the composite geometry fits the raster and a JPEG frame.
/// Nothing else enters the decision — in particular no state of the
/// forwarding sink, whose breaker is invisible to the submitting client.
pub open spec fn submission_accepted(
    sys: Option<Seq<char>>,
    dia: Option<Seq<char>>,
    pulse: Option<Seq<char>>,
    temp: Option<Seq<char>>,
    front: Option<Seq<u8>>,
    left: Option<Seq<u8>>,
    right: Option<Seq<u8>>,
) -> bool {
    let parts_v = parts_of(front, left, right);
    &&& scalars_valid(sys, dia, pulse, temp)
    &&& parts_v.len() >= 1
    &&& all_decodable(parts_v)
    &&& !layout_overflows(dims_of(parts_v))
    &&& jpeg_encodable(dims_of(parts_v))
}

/// What a successful submission yields: the written entry and the composite's
/// dimensions.
pub struct IngestOutcome {
    pub entry: Entry,
    pub width: u32,
    pub height: u32,
}

/// Handles one submission: validates the four required scalars, composites
/// the provided photos, and saves the reading into the store under the given
/// identity, the temperature in its canonical decimal form. On any error
/// nothing is stored. A `Validation` error is returned exactly when a scalar
/// is missing or unparsable; given valid scalars, a `Decode` error is
/// returned exactly when no photo was provided or one of them does not
/// decode; given decodable photos, the geometry decides between success and
/// the two size errors.
pub fn process_submission(
    store: &mut Store,
    identity: i128,
    sys_text: Option<&str>,
    dia_text: Option<&str>,
    pulse_text: Option<&str>,
    temp_text: Option<&str>,
    front: Option<Vec<u8>>,
    left: Option<Vec<u8>>,
    right: Option<Vec<u8>>,
) -> (r: Result<IngestOutcome, IngestError>)
    requires
        wf_store(old(store)@),
    ensures
        wf_store(final(store)@),
        r is Err ==> final(store)@ == old(store)@,
        (r matches Err(IngestError::Validation)) <==> !scalars_valid(view_opt_str(sys_text),
            view_opt_str(dia_text), view_opt_str(pulse_text), view_opt_str(temp_text)),
        ((r matches Err(IngestError::Decode(_)))
            <==> (scalars_valid(view_opt_str(sys_text), view_opt_str(dia_text),
                    view_opt_str(pulse_text), view_opt_str(temp_text))
                && (parts_of(view_opt(front), view_opt(left), view_opt(right)).len() == 0
                    || !all_decodable(parts_of(view_opt(front), view_opt(left),
                        view_opt(right)))))),
        (r matches Err(IngestError::TooLarge)) <==> {
            let parts_v = parts_of(view_opt(front), view_opt(left), view_opt(right));
            &&& scalars_valid(view_opt_str(sys_text), view_opt_str(dia_text),
                view_opt_str(pulse_text), view_opt_str(temp_text))
            &&& parts_v.len() >= 1
            &&& all_decodable(parts_v)
            &&& layout_overflows(dims_of(parts_v))
        },
        (r matches Err(IngestError::Encode(_))) <==> {
            let parts_v = parts_of(view_opt(front), view_opt(left), view_opt(right));
            &&& scalars_valid(view_opt_str(sys_text), view_opt_str(dia_text),
                view_opt_str(pulse_text), view_opt_str(temp_text))
            &&& parts_v.len() >= 1
            &&& all_decodable(parts_v)
            &&& !layout_overflows(dims_of(parts_v))
            &&& !jpeg_encodable(dims_of(parts_v))
        },
        (r is Ok) <==> submission_accepted(view_opt_str(sys_text), view_opt_str(dia_text),
            view_opt_str(pulse_text), view_opt_str(temp_text), view_opt(front),
            view_opt(left), view_opt(right)),
        (match r {
            Ok(o) => o.entry@ == saved_entry(identity as int,
                scalar_i64(sys_text->Some_0@)->Some_0,
                scalar_i64(dia_text->Some_0@)->Some_0,
                scalar_i64(pulse_text->Some_0@)->Some_0, canon_decimal(temp_text->Some_0@)),
            Err(_) => true,
        }),
        (match r {
            Ok(o) => {
                let dims = dims_of(parts_of(view_opt(front), view_opt(left), view_opt(right)));
                o.height as int == max_height(dims)
                    && o.width as int == sum_scaled_widths(dims, o.height as int)
            },
            Err(_) => true,
        }),
        (match r {
            Ok(o) => final(store)@.sidecars == assoc_upsert(old(store)@.sidecars,
                dec_int(identity as int), sidecar_text(o.entry@))
                && final(store)@.legacy == old(store)@.legacy
                && (exists|b: Seq<u8>| final(store)@.images
                    == #[trigger] assoc_upsert(old(store)@.images, dec_int(identity as int), b)),
            Err(_) => true,
        }),
{
    // validate the required scalars
    let sys = match sys_text {
        Some(t) => match parse_scalar_i64(t) {
            Some(v) => v,
            None => { return Err(IngestError::Validation); },
        },
        None => { return Err(IngestError::Validation); },
    };
    let dia = match dia_text {
        Some(t) => match parse_scalar_i64(t) {
            Some(v) => v,
            None => { return Err(IngestError::Validation); },
        },
        None => { return Err(IngestError::Validation); },
    };
    let pulse = match pulse_text {
        Some(t) => match parse_scalar_i64(t) {
            Some(v) => v,
            None => { return Err(IngestError::Validation); },
        },
        None => { return Err(IngestError::Validation); },
    };
    let temp_string = match temp_text {
        Some(t) => match normalize_temp(t) {
            Some(s) => s,
            None => { return Err(IngestError::Validation); },
        },
        None => { return Err(IngestError::Validation); },
    };

    // collect the photos in caller order
    let ghost parts_spec = parts_of(view_opt(front), view_opt(left), view_opt(right));
    let mut parts: Vec<Vec<u8>> = Vec::new();
    match front {
        Some(b) => { parts.push(b); },
        None => {},
    }
    match left {
        Some(b) => { parts.push(b); },
        None => {},
    }
    match right {
        Some(b) => { parts.push(b); },
        None => {},
    }
    assert(views_of(parts@) =~= parts_spec);

    // composite, then persist
    let composite = match composite_images(&parts) {
        Ok(c) => c,
        Err(CompositeError::Decode(m)) => { return Err(IngestError::Decode(m)); },
        Err(CompositeError::TooLarge) => { return Err(IngestError::TooLarge); },
        Err(CompositeError::Encode(m)) => { return Err(IngestError::Encode(m)); },
    };
    let width = composite.width;
    let height = composite.height;
    let ghost bytes_v = composite.bytes@;
    let entry = store.save(identity, composite.bytes, sys, dia, pulse, temp_string);
    proof {
        assert(store@ == store_save(old(store)@, identity as int, bytes_v,
            sidecar_text(entry@)));
        let parts_v = parts_of(view_opt(front), view_opt(left), view_opt(right));
        assert(scalars_valid(view_opt_str(sys_text), view_opt_str(dia_text),
            view_opt_str(pulse_text), view_opt_str(temp_text)));
        assert(scalar_i64(sys_text->Some_0@) == Some(sys as int));
        assert(scalar_i64(dia_text->Some_0@) == Some(dia as int));
        assert(scalar_i64(pulse_text->Some_0@) == Some(pulse as int));
        assert(entry@ == saved_entry(identity as int, sys as int, dia as int, pulse as int,
            canon_decimal(temp_text->Some_0@)));
        assert(parts_v == views_of(parts@));
        assert(all_decodable(parts_v) && parts_v.len() >= 1);
        assert(height as int == max_height(dims_of(parts_v)));
        assert(width as int == sum_scaled_widths(dims_of(parts_v), height as int));
    }
    let out = IngestOutcome { entry, width, height };
    proof {
        assert(store@ == store_save(old(store)@, identity as int, bytes_v,
            sidecar_text(out.entry@)));
        assert(store@.images == assoc_upsert(old(store)@.images, dec_int(identity as int),
            bytes_v));
    }
    Ok(out)
}

} // verus!
