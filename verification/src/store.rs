use vstd::prelude::*;
use crate::assoc::{
    assoc_lookup, assoc_remove, assoc_upsert, has_key, keys_unique, lemma_lookup_none_no_key,
    lemma_lookup_remove_other, lemma_lookup_remove_same, lemma_lookup_upsert_same,
    lemma_remove_absent_keys, lemma_remove_at, lemma_remove_twice, lemma_unique_remove,
    lemma_unique_upsert, lemma_upsert_absent, lemma_upsert_at,
};
use crate::entry::{Entry, EntryV, is_path_char, wf_entry, wf_temp};
use crate::paths::{
    jpg_suffix, stem_identity, stem_identity_of, strip_jpg, strip_jpg_chars, web_photo_path,
    web_photo_path_of, identity_stem,
};
use crate::sidecar::{
    lemma_sidecar_round_trip, parse_sidecar, parse_sidecar_str, sidecar_string, sidecar_text,
};
use crate::text::{chars_to_string, dec_digits, dec_int, lemma_dec_digits_wf, str_chars};

verus! {

// ------------------------------------------------------------------
// The store model
// ------------------------------------------------------------------
//
// The entry store is a view of two directories: the photo directory, holding
// `<stem>.jpg` images and `<base>.json` legacy sidecars, and the metadata
// directory, holding `<base>.json` sidecars of the current layout. Each is a
// name-keyed association sequence; file names in a directory are unique.

/// The model of the store's on-disk state.
pub struct StoreV {
    /// Photo files: stem (filename without the final `.jpg`) and raw bytes.
    pub images: Seq<(Seq<char>, Seq<u8>)>,
    /// Current-layout sidecars: base name and file text.
    pub sidecars: Seq<(Seq<char>, Seq<char>)>,
    /// Legacy sidecars next to the photos: base name and file text.
    pub legacy: Seq<(Seq<char>, Seq<char>)>,
}

pub open spec fn wf_store(st: StoreV) -> bool {
    keys_unique(st.images) && keys_unique(st.sidecars) && keys_unique(st.legacy)
}

/// The entry store: images, current-layout sidecars, legacy sidecars.
pub struct Store {
    images: Vec<(String, Vec<u8>)>,
    sidecars: Vec<(String, String)>,
    legacy: Vec<(String, String)>,
}

pub open spec fn view_bytes(m: Seq<(String, Vec<u8>)>) -> Seq<(Seq<char>, Seq<u8>)> {
    Seq::new(m.len(), |i: int| (m[i].0@, m[i].1@))
}

pub open spec fn view_text(m: Seq<(String, String)>) -> Seq<(Seq<char>, Seq<char>)> {
    Seq::new(m.len(), |i: int| (m[i].0@, m[i].1@))
}

impl View for Store {
    type V = StoreV;

    closed spec fn view(&self) -> StoreV {
        StoreV {
            images: view_bytes(self.images@),
            sidecars: view_text(self.sidecars@),
            legacy: view_text(self.legacy@),
        }
    }
}

// ------------------------------------------------------------------
// What the store's operations do, at the model level
// ------------------------------------------------------------------

/// The zero temperature of a synthesized entry.
pub open spec fn zero_temp() -> Seq<char> {
    seq!['0', '.', '0']
}

/// The minimal entry synthesized for a photo without readable metadata:
/// zeroed numeric fields, the photo's web path, and an identity read from
/// the filename base, zero where unparsable.
pub open spec fn synth_entry(stem: Seq<char>) -> EntryV {
    EntryV {
        path: web_photo_path(stem + jpg_suffix()),
        sys: 0,
        dia: 0,
        pulse: 0,
        temp_c: zero_temp(),
        timestamp_nanos: stem_identity(strip_jpg(stem)),
    }
}

/// The entry listed for the photo with the given stem: the current-layout
/// sidecar where it parses, else the legacy sidecar where it parses, else a
/// synthesized minimal entry.
pub open spec fn entry_for(st: StoreV, stem: Seq<char>) -> EntryV {
    let base = strip_jpg(stem);
    let cur = match assoc_lookup(st.sidecars, base) {
        Some(t) => parse_sidecar(t),
        None => None,
    };
    match cur {
        Some(e) => e,
        None => {
            let leg = match assoc_lookup(st.legacy, base) {
                Some(t) => parse_sidecar(t),
                None => None,
            };
            match leg {
                Some(e) => e,
                None => synth_entry(stem),
            }
        },
    }
}

/// The entry written for a fresh identity: its photo path is derived from
/// the identity, its numeric fields are the submitted ones.
pub open spec fn saved_entry(id: int, sys: int, dia: int, pulse: int, temp: Seq<char>) -> EntryV {
    EntryV {
        path: web_photo_path(dec_int(id) + jpg_suffix()),
        sys,
        dia,
        pulse,
        temp_c: temp,
        timestamp_nanos: id,
    }
}

/// Saving writes the image under the identity's stem, then the sidecar text
/// in the current layout; the legacy layout is never written.
pub open spec fn store_save(st: StoreV, id: int, img: Seq<u8>, meta: Seq<char>) -> StoreV {
    StoreV {
        images: assoc_upsert(st.images, dec_int(id), img),
        sidecars: assoc_upsert(st.sidecars, dec_int(id), meta),
        legacy: st.legacy,
    }
}

/// Deleting removes the image and both sidecar variants of the identity text;
/// a missing file is no error.
pub open spec fn store_delete(st: StoreV, ts: Seq<char>) -> StoreV {
    StoreV {
        images: assoc_remove(st.images, ts),
        sidecars: assoc_remove(st.sidecars, ts),
        legacy: assoc_remove(st.legacy, ts),
    }
}

/// The listing: one entry per photo file, in directory order.
pub open spec fn store_list(st: StoreV) -> Seq<EntryV> {
    Seq::new(st.images.len(), |i: int| entry_for(st, st.images[i].0))
}

// ------------------------------------------------------------------
// Executable operations
// ------------------------------------------------------------------


/// String equality, specified over the views.
fn string_eq(a: &String, b: &String) -> (r: bool)
    ensures
        r == (a@ == b@),
{
    a.eq(b)
}

fn upsert_text(m: &mut Vec<(String, String)>, k: String, v: String)
    ensures
        view_text(final(m)@) == assoc_upsert(view_text(old(m)@), k@, v@),
{
    let ghost m0 = view_text(old(m)@);
    let mut i: usize = 0;
    while i < m.len()
        invariant
            i <= m@.len(),
            m@ == old(m)@,
            m0 == view_text(m@),
            forall|j: int| 0 <= j < i ==> (#[trigger] m0[j]).0 != k@,
        decreases m@.len() - i,
    {
        if string_eq(&m[i].0, &k) {
            assert(m0[i as int] == (m@[i as int].0@, m@[i as int].1@));
            assert(m0[i as int].0 == k@);
            proof {
                lemma_upsert_at(m0, k@, v@, i as int);
            }
            m.remove(i);
            m.insert(i, (k, v));
            assert(view_text(m@) =~= m0.update(i as int, (k@, v@)));
            return;
        }
        assert(m0[i as int] == (m@[i as int].0@, m@[i as int].1@));
        assert(m0[i as int].0 != k@);
        i = i + 1;
    }
    proof {
        lemma_upsert_absent(m0, k@, v@);
    }
    m.push((k, v));
    assert(view_text(m@) =~= m0.push((k@, v@)));
}

fn upsert_bytes(m: &mut Vec<(String, Vec<u8>)>, k: String, v: Vec<u8>)
    ensures
        view_bytes(final(m)@) == assoc_upsert(view_bytes(old(m)@), k@, v@),
{
    let ghost m0 = view_bytes(old(m)@);
    let mut i: usize = 0;
    while i < m.len()
        invariant
            i <= m@.len(),
            m@ == old(m)@,
            m0 == view_bytes(m@),
            forall|j: int| 0 <= j < i ==> (#[trigger] m0[j]).0 != k@,
        decreases m@.len() - i,
    {
        if string_eq(&m[i].0, &k) {
            assert(m0[i as int] == (m@[i as int].0@, m@[i as int].1@));
            assert(m0[i as int].0 == k@);
            proof {
                lemma_upsert_at(m0, k@, v@, i as int);
            }
            m.remove(i);
            m.insert(i, (k, v));
            assert(view_bytes(m@) =~= m0.update(i as int, (k@, v@)));
            return;
        }
        assert(m0[i as int] == (m@[i as int].0@, m@[i as int].1@));
        assert(m0[i as int].0 != k@);
        i = i + 1;
    }
    proof {
        lemma_upsert_absent(m0, k@, v@);
    }
    m.push((k, v));
    assert(view_bytes(m@) =~= m0.push((k@, v@)));
}

fn remove_text(m: &mut Vec<(String, String)>, k: &String)
    ensures
        view_text(final(m)@) == assoc_remove(view_text(old(m)@), k@),
{
    let ghost m0 = view_text(old(m)@);
    let mut i: usize = 0;
    while i < m.len()
        invariant
            i <= m@.len(),
            m@ == old(m)@,
            m0 == view_text(m@),
            forall|j: int| 0 <= j < i ==> (#[trigger] m0[j]).0 != k@,
        decreases m@.len() - i,
    {
        if string_eq(&m[i].0, k) {
            assert(m0[i as int] == (m@[i as int].0@, m@[i as int].1@));
            assert(m0[i as int].0 == k@);
            proof {
                lemma_remove_at(m0, k@, i as int);
            }
            m.remove(i);
            assert(view_text(m@) =~= m0.remove(i as int));
            return;
        }
        assert(m0[i as int] == (m@[i as int].0@, m@[i as int].1@));
        assert(m0[i as int].0 != k@);
        i = i + 1;
    }
    proof {
        lemma_remove_absent_keys(m0, k@);
    }
}

fn remove_bytes(m: &mut Vec<(String, Vec<u8>)>, k: &String)
    ensures
        view_bytes(final(m)@) == assoc_remove(view_bytes(old(m)@), k@),
{
    let ghost m0 = view_bytes(old(m)@);
    let mut i: usize = 0;
    while i < m.len()
        invariant
            i <= m@.len(),
            m@ == old(m)@,
            m0 == view_bytes(m@),
            forall|j: int| 0 <= j < i ==> (#[trigger] m0[j]).0 != k@,
        decreases m@.len() - i,
    {
        if string_eq(&m[i].0, k) {
            assert(m0[i as int] == (m@[i as int].0@, m@[i as int].1@));
            assert(m0[i as int].0 == k@);
            proof {
                lemma_remove_at(m0, k@, i as int);
            }
            m.remove(i);
            assert(view_bytes(m@) =~= m0.remove(i as int));
            return;
        }
        assert(m0[i as int] == (m@[i as int].0@, m@[i as int].1@));
        assert(m0[i as int].0 != k@);
        i = i + 1;
    }
    proof {
        lemma_remove_absent_keys(m0, k@);
    }
}

fn lookup_text<'a>(m: &'a Vec<(String, String)>, k: &String) -> (r: Option<&'a String>)
    ensures
        match r {
            Some(t) => assoc_lookup(view_text(m@), k@) == Some(t@),
            None => assoc_lookup(view_text(m@), k@) is None,
        },
{
    let ghost m0 = view_text(m@);
    let mut i: usize = 0;
    while i < m.len()
        invariant
            i <= m@.len(),
            m0 == view_text(m@),
            forall|j: int| 0 <= j < i ==> (#[trigger] m0[j]).0 != k@,
        decreases m@.len() - i,
    {
        if string_eq(&m[i].0, k) {
            assert(m0[i as int] == (m@[i as int].0@, m@[i as int].1@));
            assert(m0[i as int].0 == k@);
            proof {
                lemma_lookup_at(m0, k@, i as int);
            }
            return Some(&m[i].1);
        }
        assert(m0[i as int] == (m@[i as int].0@, m@[i as int].1@));
        assert(m0[i as int].0 != k@);
        i = i + 1;
    }
    proof {
        lemma_lookup_absent(m0, k@);
    }
    None
}

/// When `k` first occurs at `i`, lookup finds that value.
proof fn lemma_lookup_at<V>(m: Seq<(Seq<char>, V)>, k: Seq<char>, i: int)
    requires
        0 <= i < m.len(),
        m[i].0 == k,
        forall|j: int| 0 <= j < i ==> (#[trigger] m[j]).0 != k,
    ensures
        assoc_lookup(m, k) == Some(m[i].1),
    decreases i,
{
    if i > 0 {
        assert forall|j: int| 0 <= j < i - 1 implies (#[trigger] m.drop_first()[j]).0 != k by {
            assert(m.drop_first()[j] == m[j + 1]);
        }
        lemma_lookup_at(m.drop_first(), k, i - 1);
    }
}

/// When `k` does not occur, lookup fails.
proof fn lemma_lookup_absent<V>(m: Seq<(Seq<char>, V)>, k: Seq<char>)
    requires
        forall|j: int| 0 <= j < m.len() ==> (#[trigger] m[j]).0 != k,
    ensures
        assoc_lookup(m, k) is None,
    decreases m.len(),
{
    if m.len() > 0 {
        assert forall|j: int| 0 <= j < m.drop_first().len() implies
            (#[trigger] m.drop_first()[j]).0 != k by {
            assert(m.drop_first()[j] == m[j + 1]);
        }
        lemma_lookup_absent(m.drop_first(), k);
    }
}

impl Store {
    /// An empty store.
    pub fn new() -> (r: Store)
        ensures
            r@.images.len() == 0,
            r@.sidecars.len() == 0,
            r@.legacy.len() == 0,
            wf_store(r@),
    {
        let r = Store { images: Vec::new(), sidecars: Vec::new(), legacy: Vec::new() };
        proof {
            assert(r@.images =~= Seq::<(Seq<char>, Seq<u8>)>::empty());
            assert(r@.sidecars =~= Seq::<(Seq<char>, Seq<char>)>::empty());
            assert(r@.legacy =~= Seq::<(Seq<char>, Seq<char>)>::empty());
        }
        r
    }

    /// Records a photo file, as when seeding the store from a directory scan.
    pub fn add_image(&mut self, stem: String, bytes: Vec<u8>)
        requires
            wf_store(old(self)@),
        ensures
            wf_store(final(self)@),
            final(self)@.images == assoc_upsert(old(self)@.images, stem@, bytes@),
            final(self)@.sidecars == old(self)@.sidecars,
            final(self)@.legacy == old(self)@.legacy,
    {
        proof {
            lemma_unique_upsert(self@.images, stem@, bytes@);
        }
        upsert_bytes(&mut self.images, stem, bytes);
    }

    /// Records a current-layout sidecar file.
    pub fn add_sidecar(&mut self, base: String, text: String)
        requires
            wf_store(old(self)@),
        ensures
            wf_store(final(self)@),
            final(self)@.sidecars == assoc_upsert(old(self)@.sidecars, base@, text@),
            final(self)@.images == old(self)@.images,
            final(self)@.legacy == old(self)@.legacy,
    {
        proof {
            lemma_unique_upsert(self@.sidecars, base@, text@);
        }
        upsert_text(&mut self.sidecars, base, text);
    }

    /// Records a legacy sidecar file.
    pub fn add_legacy(&mut self, base: String, text: String)
        requires
            wf_store(old(self)@),
        ensures
            wf_store(final(self)@),
            final(self)@.legacy == assoc_upsert(old(self)@.legacy, base@, text@),
            final(self)@.images == old(self)@.images,
            final(self)@.sidecars == old(self)@.sidecars,
    {
        proof {
            lemma_unique_upsert(self@.legacy, base@, text@);
        }
        upsert_text(&mut self.legacy, base, text);
    }

    /// Persists a composite image and its metadata under a fresh identity:
    /// the image first, then the current-layout sidecar. Returns the entry
    /// that was written.
    pub fn save(
        &mut self,
        identity: i128,
        composite: Vec<u8>,
        sys: i64,
        dia: i64,
        pulse: i64,
        temp_c: String,
    ) -> (r: Entry)
        requires
            wf_store(old(self)@),
            wf_temp(temp_c@),
        ensures
            wf_store(final(self)@),
            r@ == saved_entry(identity as int, sys as int, dia as int, pulse as int, temp_c@),
            wf_entry(r@),
            final(self)@ == store_save(old(self)@, identity as int, composite@, sidecar_text(r@)),
    {
        let stem = identity_stem(identity);
        let stem_chars = str_chars(stem.as_str());
        let mut fname_chars = stem_chars;
        fname_chars.push('.');
        fname_chars.push('j');
        fname_chars.push('p');
        fname_chars.push('g');
        assert(fname_chars@ =~= dec_int(identity as int) + jpg_suffix());
        let path_chars = web_photo_path_of(&fname_chars);
        let path = chars_to_string(&path_chars);
        let entry = Entry { path, sys, dia, pulse, temp_c, timestamp_nanos: identity };
        proof {
            lemma_saved_entry_wf(identity as int, sys as int, dia as int, pulse as int,
                entry@.temp_c);
        }
        let meta = sidecar_string(&entry);
        let stem2 = identity_stem(identity);
        proof {
            lemma_unique_upsert(self@.images, stem@, composite@);
            lemma_unique_upsert(self@.sidecars, stem@, meta@);
        }
        upsert_bytes(&mut self.images, stem, composite);
        upsert_text(&mut self.sidecars, stem2, meta);
        entry
    }

    /// The listing: one entry per photo file, in directory order. A photo
    /// whose sidecar is missing or malformed in both layouts yields a
    /// synthesized minimal entry.
    pub fn list(&self) -> (r: Vec<Entry>)
        ensures
            r@.len() == store_list(self@).len(),
            forall|i: int| 0 <= i < r@.len() ==> (#[trigger] r@[i])@ == store_list(self@)[i],
    {
        let mut out: Vec<Entry> = Vec::new();
        let mut i: usize = 0;
        while i < self.images.len()
            invariant
                i <= self.images@.len(),
                store_list(self@).len() == self.images@.len(),
                out@.len() == i,
                forall|j: int| 0 <= j < i ==> (#[trigger] out@[j])@ == store_list(self@)[j],
            decreases self.images@.len() - i,
        {
            let stem: &String = &self.images[i].0;
            assert(self@.images[i as int].0 == stem@);
            let e = self.entry_for_stem(stem);
            assert(e@ == entry_for(self@, self@.images[i as int].0));
            out.push(e);
            i = i + 1;
        }
        out
    }

    /// The entry listed for one photo stem.
    fn entry_for_stem(&self, stem: &String) -> (r: Entry)
        ensures
            r@ == entry_for(self@, stem@),
    {
        let stem_chars = str_chars(stem.as_str());
        let base_chars = strip_jpg_chars(&stem_chars);
        let base = chars_to_string(&base_chars);
        if let Some(text) = lookup_text(&self.sidecars, &base) {
            let t = text.clone();
            if let Some(e) = parse_sidecar_str(t.as_str()) {
                return e;
            }
        }
        if let Some(text) = lookup_text(&self.legacy, &base) {
            let t = text.clone();
            if let Some(e) = parse_sidecar_str(t.as_str()) {
                return e;
            }
        }
        // synthesize a minimal entry
        let mut fname_chars = stem_chars;
        fname_chars.push('.');
        fname_chars.push('j');
        fname_chars.push('p');
        fname_chars.push('g');
        assert(fname_chars@ =~= stem@ + jpg_suffix());
        let path_chars = web_photo_path_of(&fname_chars);
        let path = chars_to_string(&path_chars);
        let mut zero: Vec<char> = Vec::new();
        zero.push('0');
        zero.push('.');
        zero.push('0');
        assert(zero@ =~= zero_temp());
        let temp_c = chars_to_string(&zero);
        let ts = stem_identity_of(&base_chars);
        Entry { path, sys: 0, dia: 0, pulse: 0, temp_c, timestamp_nanos: ts }
    }

    /// The stored bytes of a photo stem, if that photo exists.
    pub fn image_bytes<'a>(&'a self, stem: &String) -> (r: Option<&'a Vec<u8>>)
        ensures
            (match r {
                Some(b) => assoc_lookup(self@.images, stem@) == Some(b@),
                None => assoc_lookup(self@.images, stem@) is None,
            }),
    {
        let ghost m0 = view_bytes(self.images@);
        let mut i: usize = 0;
        while i < self.images.len()
            invariant
                i <= self.images@.len(),
                m0 == view_bytes(self.images@),
                forall|j: int| 0 <= j < i ==> (#[trigger] m0[j]).0 != stem@,
            decreases self.images@.len() - i,
        {
            if string_eq(&self.images[i].0, stem) {
                assert(m0[i as int] == (self.images@[i as int].0@, self.images@[i as int].1@));
                assert(m0[i as int].0 == stem@);
                proof {
                    lemma_lookup_at(m0, stem@, i as int);
                }
                return Some(&self.images[i].1);
            }
            assert(m0[i as int] == (self.images@[i as int].0@, self.images@[i as int].1@));
            assert(m0[i as int].0 != stem@);
            i = i + 1;
        }
        proof {
            lemma_lookup_absent(m0, stem@);
        }
        None
    }

    /// Removes the image and both sidecar variants of an identity text.
    /// Removing what is absent is no error, so deletion is idempotent.
    pub fn delete(&mut self, ts: &String)
        requires
            wf_store(old(self)@),
        ensures
            wf_store(final(self)@),
            final(self)@ == store_delete(old(self)@, ts@),
    {
        proof {
            lemma_unique_remove(self@.images, ts@);
            lemma_unique_remove(self@.sidecars, ts@);
            lemma_unique_remove(self@.legacy, ts@);
        }
        remove_text(&mut self.sidecars, ts);
        remove_text(&mut self.legacy, ts);
        remove_bytes(&mut self.images, ts);
    }
}

/// The entry written by `save` is well formed: its path holds only path
/// characters.
pub proof fn lemma_saved_entry_wf(id: int, sys: int, dia: int, pulse: int, temp: Seq<char>)
    requires
        wf_temp(temp),
        i64::MIN <= sys <= i64::MAX,
        i64::MIN <= dia <= i64::MAX,
        i64::MIN <= pulse <= i64::MAX,
        i128::MIN <= id <= i128::MAX,
    ensures
        wf_entry(saved_entry(id, sys, dia, pulse, temp)),
{
    let p = web_photo_path(dec_int(id) + jpg_suffix());
    let m = if id < 0 { -id } else { id };
    lemma_dec_digits_wf(m);
    assert forall|i: int| 0 <= i < p.len() implies is_path_char(#[trigger] p[i]) by {
        if i < 8 {
            assert(p[i] == seq!['/', 'p', 'h', 'o', 't', 'o', 's', '/'][i]);
        } else if i < 8 + dec_int(id).len() {
            let d = dec_int(id);
            assert(p[i] == d[i - 8]);
            if id < 0 {
                if i == 8 {
                    assert(d[0] == '-');
                } else {
                    assert(d[i - 8] == dec_digits(m)[i - 9]);
                }
            } else {
                assert(d[i - 8] == dec_digits(m)[i - 8]);
            }
        } else {
            assert(p[i] == jpg_suffix()[i - 8 - dec_int(id).len()]);
        }
    }
}


// ------------------------------------------------------------------
// Laws
// ------------------------------------------------------------------

/// The stem of an identity never ends in `.jpg`, so its metadata base is the
/// stem itself.
pub proof fn lemma_strip_jpg_of_identity(id: int)
    ensures
        strip_jpg(dec_int(id)) == dec_int(id),
{
    let stem = dec_int(id);
    let m = if id < 0 { -id } else { id };
    lemma_dec_digits_wf(m);
    if stem.len() >= 4 && stem.subrange(stem.len() - 4, stem.len() as int) == jpg_suffix() {
        let d = dec_digits(m);
        assert(stem.last() == d.last());
        assert(crate::text::is_digit_char(d[d.len() - 1]));
        assert(stem.subrange(stem.len() - 4, stem.len() as int)[3] == stem.last());
        assert(jpg_suffix()[3] == 'g');
        assert(false);
    }
}

/// After a save, the listing holds an entry whose identity is the one the
/// save returned and whose numeric fields are exactly the saved ones.
pub proof fn lemma_save_then_list_contains(
    st: StoreV,
    id: int,
    img: Seq<u8>,
    sys: int,
    dia: int,
    pulse: int,
    temp: Seq<char>,
)
    requires
        wf_store(st),
        wf_temp(temp),
        i64::MIN <= sys <= i64::MAX,
        i64::MIN <= dia <= i64::MAX,
        i64::MIN <= pulse <= i64::MAX,
        i128::MIN <= id <= i128::MAX,
    ensures
        ({
            let e = saved_entry(id, sys, dia, pulse, temp);
            let st2 = store_save(st, id, img, sidecar_text(e));
            exists|i: int| 0 <= i < store_list(st2).len()
                && #[trigger] store_list(st2)[i] == e
        }),
{
    let e = saved_entry(id, sys, dia, pulse, temp);
    let stem = dec_int(id);
    let st2 = store_save(st, id, img, sidecar_text(e));
    lemma_lookup_upsert_same(st.images, stem, img);
    crate::assoc::lemma_lookup_first_index(st2.images, stem);
    let i = choose|i: int| 0 <= i < st2.images.len() && (#[trigger] st2.images[i]).0 == stem
        && (forall|j: int| 0 <= j < i ==> (#[trigger] st2.images[j]).0 != stem);
    lemma_strip_jpg_of_identity(id);
    lemma_lookup_upsert_same(st.sidecars, stem, sidecar_text(e));
    lemma_saved_entry_wf(id, sys, dia, pulse, temp);
    lemma_sidecar_round_trip(e);
    assert(entry_for(st2, st2.images[i].0) == e);
    assert(store_list(st2)[i] == e);
}

/// A photo whose sidecar is absent or malformed in both layouts lists as the
/// synthesized minimal entry, with zeroed numeric fields.
pub proof fn lemma_list_synthesizes(st: StoreV, i: int)
    requires
        0 <= i < st.images.len(),
        ({
            let base = strip_jpg(st.images[i].0);
            &&& match assoc_lookup(st.sidecars, base) {
                Some(t) => parse_sidecar(t) is None,
                None => true,
            }
            &&& match assoc_lookup(st.legacy, base) {
                Some(t) => parse_sidecar(t) is None,
                None => true,
            }
        }),
    ensures
        store_list(st)[i] == synth_entry(st.images[i].0),
        store_list(st)[i].sys == 0,
        store_list(st)[i].dia == 0,
        store_list(st)[i].pulse == 0,
        store_list(st)[i].temp_c == zero_temp(),
{
}

/// Deleting an identity removes its files: afterwards no photo remains under
/// its stem, and — as long as no other photo claims the same identity and no
/// other photo's metadata base equals its stem — no listed entry carries it.
pub proof fn lemma_delete_then_list_excludes(st: StoreV, id: int)
    requires
        wf_store(st),
        i128::MIN <= id <= i128::MAX,
        forall|i: int| 0 <= i < st.images.len() && (#[trigger] st.images[i]).0 != dec_int(id)
            ==> entry_for(st, st.images[i].0).timestamp_nanos != id
                && strip_jpg(st.images[i].0) != dec_int(id),
    ensures
        ({
            let st2 = store_delete(st, dec_int(id));
            &&& !has_key(st2.images, dec_int(id))
            &&& forall|j: int| 0 <= j < store_list(st2).len()
                ==> (#[trigger] store_list(st2)[j]).timestamp_nanos != id
        }),
{
    let ts = dec_int(id);
    let st2 = store_delete(st, ts);
    lemma_lookup_remove_same(st.images, ts);
    assert forall|j: int| 0 <= j < store_list(st2).len() implies
        (#[trigger] store_list(st2)[j]).timestamp_nanos != id by {
        let stem = st2.images[j].0;
        lemma_lookup_none_no_key(st2.images, ts);
        assert(stem != ts);
        // the remaining photos all stood in the store before the deletion
        if assoc_lookup(st.images, ts) is Some {
            crate::assoc::lemma_lookup_first_index(st.images, ts);
            let i0 = choose|i: int| 0 <= i < st.images.len() && (#[trigger] st.images[i]).0 == ts
                && (forall|q: int| 0 <= q < i ==> (#[trigger] st.images[q]).0 != ts);
            lemma_remove_at(st.images, ts, i0);
            assert(st2.images == st.images.remove(i0));
            if j < i0 {
                assert(st2.images[j] == st.images[j]);
            } else {
                assert(st2.images[j] == st.images[j + 1]);
            }
        } else {
            lemma_lookup_none_no_key(st.images, ts);
            lemma_remove_absent_keys(st.images, ts);
            assert(st2.images[j] == st.images[j]);
        }
        // its stem stood in the store before the deletion, under another base
        assert(exists|i: int| 0 <= i < st.images.len() && (#[trigger] st.images[i]).0 == stem);
        let iorig = choose|i: int| 0 <= i < st.images.len() && (#[trigger] st.images[i]).0 == stem;
        assert(strip_jpg(stem) != ts);
        lemma_lookup_remove_other(st.sidecars, ts, strip_jpg(stem));
        lemma_lookup_remove_other(st.legacy, ts, strip_jpg(stem));
        assert(entry_for(st2, stem) == entry_for(st, stem));
        assert(entry_for(st, st.images[iorig].0).timestamp_nanos != id);
    }
}

/// Deleting the same identity twice leaves what one deletion left: the second
/// deletion finds nothing and changes nothing.
pub proof fn lemma_delete_idempotent(st: StoreV, ts: Seq<char>)
    requires
        wf_store(st),
    ensures
        store_delete(store_delete(st, ts), ts) == store_delete(st, ts),
{
    lemma_remove_twice(st.images, ts);
    lemma_remove_twice(st.sidecars, ts);
    lemma_remove_twice(st.legacy, ts);
}

} // verus!
