use vstd::prelude::*;
use vstd::string::StringExecFns;
use crate::text::{
    chars_to_string, dec_int, hex_char, hex_to_char, push_i128, push_i64, push_seq, str_chars,
};

verus! {

// ------------------------------------------------------------------
// The time-series forwarder
// ------------------------------------------------------------------
//
// A saved entry is mirrored, best effort, to an external time-series sink.
// This module holds what can be computed: the sink configuration with its
// defaults, the line-protocol record, the write and query requests for the
// two supported sink styles, and the circuit breaker's state machine. The
// HTTP call itself is outside work; the caller performs it and reports the
// outcome back as a `SinkFailure`.

/// The sink configuration: the client of the time-series store.
pub struct InfluxClient {
    pub url: String,
    pub token: Option<String>,
    pub org: Option<String>,
    pub bucket: String,
}

impl InfluxClient {
    /// Builds the configuration from optional settings, applying the
    /// defaults: a local sink URL and the `default` bucket. The presence of
    /// an organization selects the org/bucket wire style.
    pub fn from_settings(
        url: Option<String>,
        token: Option<String>,
        org: Option<String>,
        bucket: Option<String>,
    ) -> (r: InfluxClient)
        ensures
            (match url {
                Some(u) => r.url@ == u@,
                None => r.url@ == "http://localhost:8086"@,
            }),
            r.token == token,
            r.org == org,
            (match bucket {
                Some(b) => r.bucket@ == b@,
                None => r.bucket@ == "default"@,
            }),
    {
        let u = match url {
            Some(u) => u,
            None => "http://localhost:8086".to_owned(),
        };
        let b = match bucket {
            Some(b) => b,
            None => "default".to_owned(),
        };
        InfluxClient { url: u, token, org, bucket: b }
    }

    /// The configured organization, if any.
    pub fn org(&self) -> (r: Option<&String>)
        ensures
            (match r {
                Some(o) => self.org matches Some(so) && o@ == so@,
                None => self.org is None,
            }),
    {
        self.org.as_ref()
    }

    /// The configured bucket or database name.
    pub fn bucket(&self) -> (r: &str)
        ensures
            r@ == self.bucket@,
    {
        self.bucket.as_str()
    }

    /// The write endpoint: org/bucket-scoped with nanosecond precision where
    /// an organization is configured, database-scoped otherwise.
    pub fn write_url(&self) -> (r: String)
        ensures
            (match self.org {
                Some(o) => r@ == self.url@ + "/api/v2/write?org="@ + o@ + "&bucket="@
                    + self.bucket@ + "&precision=ns"@,
                None => r@ == self.url@ + "/write?db="@ + self.bucket@,
            }),
    {
        let mut s = self.url.clone();
        match &self.org {
            Some(o) => {
                s.append("/api/v2/write?org=");
                s.append(o.as_str());
                s.append("&bucket=");
                s.append(self.bucket.as_str());
                s.append("&precision=ns");
            },
            None => {
                s.append("/write?db=");
                s.append(self.bucket.as_str());
            },
        }
        s
    }

    /// The query endpoint matching the configured wire style.
    pub fn query_url(&self) -> (r: String)
        ensures
            (match self.org {
                Some(o) => r@ == self.url@ + "/api/v2/query?org="@ + o@,
                None => r@ == self.url@ + "/query?db="@ + self.bucket@,
            }),
    {
        let mut s = self.url.clone();
        match &self.org {
            Some(o) => {
                s.append("/api/v2/query?org=");
                s.append(o.as_str());
            },
            None => {
                s.append("/query?db=");
                s.append(self.bucket.as_str());
            },
        }
        s
    }

    /// The text of the query for the most recent reading: a Flux pipeline
    /// over the configured bucket where an organization is configured, an
    /// InfluxQL statement otherwise.
    pub fn last_entry_query(&self) -> (r: String)
        ensures
            (match self.org {
                Some(_) => r@ == "from(bucket:\""@ + self.bucket@
                    + "\") |> range(start: -30d) |> filter(fn: (r) => r._measurement == \"vital_entry\") |> sort(columns: [\"_time\"], desc: true) |> limit(n:1)"@,
                None => r@ == "SELECT * FROM vital_entry ORDER BY time DESC LIMIT 1"@,
            }),
    {
        match &self.org {
            Some(_) => {
                let mut s = "from(bucket:\"".to_owned();
                s.append(self.bucket.as_str());
                s.append("\") |> range(start: -30d) |> filter(fn: (r) => r._measurement == \"vital_entry\") |> sort(columns: [\"_time\"], desc: true) |> limit(n:1)");
                s
            },
            None => "SELECT * FROM vital_entry ORDER BY time DESC LIMIT 1".to_owned(),
        }
    }
}

// ------------------------------------------------------------------
// The line-protocol record
// ------------------------------------------------------------------

/// A text with every quote preceded by a backslash, as the line protocol
/// wants string field values.
pub open spec fn escape_quotes(s: Seq<char>) -> Seq<char>
    decreases s.len(),
{
    if s.len() == 0 {
        s
    } else if s.last() == '"' {
        escape_quotes(s.drop_last()) + seq!['\\', '"']
    } else {
        escape_quotes(s.drop_last()).push(s.last())
    }
}

/// Escapes the quotes of a text.
pub fn escape_quotes_chars(v: &Vec<char>) -> (r: Vec<char>)
    ensures
        r@ == escape_quotes(v@),
{
    let mut out: Vec<char> = Vec::new();
    let mut i: usize = 0;
    while i < v.len()
        invariant
            i <= v@.len(),
            out@ == escape_quotes(v@.take(i as int)),
        decreases v@.len() - i,
    {
        let c = v[i];
        proof {
            assert(v@.take(i + 1).drop_last() =~= v@.take(i as int));
            assert(v@.take(i + 1).last() == v@[i as int]);
        }
        if c == '"' {
            out.push('\\');
            out.push('"');
            assert(out@ =~= escape_quotes(v@.take(i as int)) + seq!['\\', '"']);
        } else {
            out.push(c);
        }
        i = i + 1;
    }
    assert(v@.take(v@.len() as int) =~= v@);
    out
}

/// The line-protocol record of a reading: the `vital_entry` measurement with
/// the numeric fields, the quoted (escaped) photo path, and the nanosecond
/// timestamp.
pub open spec fn entry_line_spec(
    sys: int,
    dia: int,
    pulse: int,
    temp: Seq<char>,
    photo: Seq<char>,
    ts: int,
) -> Seq<char> {
    "vital_entry sys="@ + dec_int(sys) + ",dia="@ + dec_int(dia) + ",pulse="@ + dec_int(pulse)
        + ",temp_c="@ + temp + ",photo=\""@ + escape_quotes(photo) + "\" "@ + dec_int(ts)
}

/// Writes the line-protocol record of a reading.
pub fn entry_line(
    sys: i64,
    dia: i64,
    pulse: i64,
    temp_c: &str,
    photo_path: &str,
    timestamp: i128,
) -> (r: String)
    ensures
        r@ == entry_line_spec(sys as int, dia as int, pulse as int, temp_c@, photo_path@,
            timestamp as int),
{
    let mut out: Vec<char> = Vec::new();
    let head = str_chars("vital_entry sys=");
    push_seq(&mut out, &head);
    push_i64(sys, &mut out);
    let l2 = str_chars(",dia=");
    push_seq(&mut out, &l2);
    push_i64(dia, &mut out);
    let l3 = str_chars(",pulse=");
    push_seq(&mut out, &l3);
    push_i64(pulse, &mut out);
    let l4 = str_chars(",temp_c=");
    push_seq(&mut out, &l4);
    let temp = str_chars(temp_c);
    push_seq(&mut out, &temp);
    let l5 = str_chars(",photo=\"");
    push_seq(&mut out, &l5);
    let photo = str_chars(photo_path);
    let escaped = escape_quotes_chars(&photo);
    push_seq(&mut out, &escaped);
    let l6 = str_chars("\" ");
    push_seq(&mut out, &l6);
    push_i128(timestamp, &mut out);
    assert(out@ =~= entry_line_spec(sys as int, dia as int, pulse as int, temp_c@, photo_path@,
        timestamp as int));
    chars_to_string(&out)
}

/// The line-protocol record of a single named metric: one measurement with a
/// `metric` tag, one `value` field, and the nanosecond timestamp.
pub fn point_line(measurement: &str, metric: &str, value_text: &str, timestamp: i128) -> (r: String)
    ensures
        r@ == measurement@ + ",metric="@ + metric@ + " value="@ + value_text@ + " "@
            + dec_int(timestamp as int),
{
    let mut out: Vec<char> = Vec::new();
    let m = str_chars(measurement);
    push_seq(&mut out, &m);
    let l1 = str_chars(",metric=");
    push_seq(&mut out, &l1);
    let t = str_chars(metric);
    push_seq(&mut out, &t);
    let l2 = str_chars(" value=");
    push_seq(&mut out, &l2);
    let v = str_chars(value_text);
    push_seq(&mut out, &v);
    let l3 = str_chars(" ");
    push_seq(&mut out, &l3);
    push_i128(timestamp, &mut out);
    assert(out@ =~= measurement@ + ",metric="@ + metric@ + " value="@ + value_text@ + " "@
        + dec_int(timestamp as int));
    chars_to_string(&out)
}

// ------------------------------------------------------------------
// Form encoding of a query
// ------------------------------------------------------------------

/// A byte a form-encoded value carries as itself: a letter, a digit, or one
/// of `-` `_` `.` `~` (the unreserved characters of percent encoding).
pub open spec fn is_unreserved_byte(b: u8) -> bool {
    ||| 65 <= b <= 90
    ||| 97 <= b <= 122
    ||| 48 <= b <= 57
    ||| b == 45
    ||| b == 95
    ||| b == 46
    ||| b == 126
}

/// The percent encoding of one byte: itself where unreserved, `%` and two
/// uppercase hexadecimal digits otherwise.
pub open spec fn encoded_byte(b: u8) -> Seq<char> {
    if is_unreserved_byte(b) {
        seq![b as char]
    } else {
        seq!['%', hex_char(b as int / 16), hex_char(b as int % 16)]
    }
}

/// The percent encoding of a byte text, byte for byte.
pub open spec fn url_encoded(s: Seq<u8>) -> Seq<char>
    decreases s.len(),
{
    if s.len() == 0 {
        Seq::<char>::empty()
    } else {
        url_encoded(s.drop_last()) + encoded_byte(s.last())
    }
}

/// Percent-encodes a form value, given as its bytes.
pub fn url_encode(s: &Vec<u8>) -> (r: Vec<char>)
    ensures
        r@ == url_encoded(s@),
{
    let mut out: Vec<char> = Vec::new();
    let mut i: usize = 0;
    while i < s.len()
        invariant
            i <= s@.len(),
            out@ == url_encoded(s@.take(i as int)),
        decreases s@.len() - i,
    {
        let b = s[i];
        proof {
            assert(s@.take(i + 1).drop_last() =~= s@.take(i as int));
            assert(s@.take(i + 1).last() == s@[i as int]);
        }
        if (65 <= b && b <= 90) || (97 <= b && b <= 122) || (48 <= b && b <= 57)
            || b == 45 || b == 95 || b == 46 || b == 126 {
            out.push(b as char);
        } else {
            out.push('%');
            out.push(hex_to_char(b / 16));
            out.push(hex_to_char(b % 16));
        }
        assert(out@ =~= url_encoded(s@.take(i + 1)));
        i = i + 1;
    }
    assert(s@.take(s@.len() as int) =~= s@);
    out
}

// ------------------------------------------------------------------
// The circuit breaker
// ------------------------------------------------------------------

/// How a sink write failed: at the connection, or inside the sink.
pub enum SinkFailure {
    /// The sink could not be reached at all. Opens the breaker.
    Connection,
    /// The sink was reached and rejected the write. Logged, breaker
    /// unaffected.
    Application,
}

/// The forwarder's state: a one-way breaker latch, and a latch that keeps the
/// breaker's log line to a single occurrence.
pub struct ForwarderState {
    pub breaker_open: bool,
    pub logged_once: bool,
}

/// The state after a failure was observed: a connection failure opens the
/// breaker for the rest of the process's life; an application failure
/// changes nothing.
pub open spec fn after_failure(st: ForwarderState, f: SinkFailure) -> ForwarderState {
    match f {
        SinkFailure::Connection => ForwarderState { breaker_open: true, logged_once: true },
        SinkFailure::Application => st,
    }
}

impl ForwarderState {
    /// The state at startup: breaker closed, nothing logged.
    pub fn new() -> (r: ForwarderState)
        ensures
            !r.breaker_open,
            !r.logged_once,
    {
        ForwarderState { breaker_open: false, logged_once: false }
    }

    /// What `should_attempt` returns.
    pub open spec fn should_attempt_spec(&self, disabled_by_config: bool) -> bool {
        !disabled_by_config && !self.breaker_open
    }

    /// Whether a forward may be attempted: not disabled by configuration and
    /// the breaker still closed.
    pub fn should_attempt(&self, disabled_by_config: bool) -> (r: bool)
        ensures
            r == self.should_attempt_spec(disabled_by_config),
    {
        !disabled_by_config && !self.breaker_open
    }

    /// Records a failure. Returns whether the breaker's log line is owed:
    /// exactly at the first connection failure.
    pub fn on_failure(&mut self, f: &SinkFailure) -> (log_breaker_msg: bool)
        ensures
            *final(self) == after_failure(*old(self), *f),
            log_breaker_msg == (f is Connection && !old(self).logged_once),
    {
        match f {
            SinkFailure::Connection => {
                self.breaker_open = true;
                let first = !self.logged_once;
                self.logged_once = true;
                first
            },
            SinkFailure::Application => false,
        }
    }
}

/// The breaker transition is one way: once open it stays open whatever
/// failures follow, and while it is open no attempt is allowed.
pub proof fn lemma_breaker_one_way(st: ForwarderState, f: SinkFailure, disabled: bool)
    ensures
        st.breaker_open ==> after_failure(st, f).breaker_open,
        f is Connection ==> after_failure(st, f).breaker_open,
        st.breaker_open ==> !st.should_attempt_spec(disabled),
{
}


// ------------------------------------------------------------------
// Classifying a failure by its message
// ------------------------------------------------------------------

/// `needle` stands at offset `k` of `hay`.
pub open spec fn occurs_at(hay: Seq<char>, needle: Seq<char>, k: int) -> bool {
    0 <= k && k + needle.len() <= hay.len() && hay.subrange(k, k + needle.len()) == needle
}

/// `needle` occurs somewhere in `hay`.
pub open spec fn contains_seq(hay: Seq<char>, needle: Seq<char>) -> bool {
    exists|k: int| occurs_at(hay, needle, k)
}

/// Whether `needle` stands at offset `k`.
fn occurs_at_exec(hay: &Vec<char>, needle: &Vec<char>, k: usize) -> (r: bool)
    requires
        k + needle@.len() <= hay@.len(),
    ensures
        r == occurs_at(hay@, needle@, k as int),
{
    let n = hay.len();
    let mut j: usize = 0;
    while j < needle.len()
        invariant
            n == hay@.len(),
            k + needle@.len() <= n,
            j <= needle@.len(),
            forall|q: int| 0 <= q < j ==> hay@[k + q] == needle@[q],
        decreases needle@.len() - j,
    {
        if hay[k + j] != needle[j] {
            assert(hay@.subrange(k as int, k + needle@.len())[j as int] != needle@[j as int]);
            return false;
        }
        j = j + 1;
    }
    assert(hay@.subrange(k as int, k + needle@.len()) =~= needle@);
    true
}

/// Whether `needle` occurs anywhere in `hay`.
pub fn contains_chars(hay: &Vec<char>, needle: &Vec<char>) -> (r: bool)
    ensures
        r == contains_seq(hay@, needle@),
{
    let n = hay.len();
    if needle.len() == 0 {
        assert(hay@.subrange(0, 0) =~= needle@);
        assert(occurs_at(hay@, needle@, 0));
        return true;
    }
    if needle.len() > n {
        assert(forall|k: int| !occurs_at(hay@, needle@, k));
        return false;
    }
    let mut k: usize = 0;
    while k <= n - needle.len()
        invariant
            n == hay@.len(),
            1 <= needle@.len() <= n,
            k <= n - needle@.len() + 1,
            forall|q: int| 0 <= q < k ==> !occurs_at(hay@, needle@, q),
        decreases n - needle@.len() + 1 - k,
    {
        if occurs_at_exec(hay, needle, k) {
            assert(occurs_at(hay@, needle@, k as int));
            return true;
        }
        k = k + 1;
    }
    assert(forall|q: int| !occurs_at(hay@, needle@, q));
    false
}

/// Whether an error text reports a connection-level failure, by the two
/// phrases such failures carry in their messages; matching texts open the
/// breaker where the failure's kind is not otherwise known.
pub fn is_connection_error_message(msg: &str) -> (r: bool)
    ensures
        r == (contains_seq(msg@, "No connection could be made"@)
            || contains_seq(msg@, "error trying to connect"@)),
{
    let hay = str_chars(msg);
    let n1 = str_chars("No connection could be made");
    let n2 = str_chars("error trying to connect");
    if contains_chars(&hay, &n1) {
        true
    } else {
        contains_chars(&hay, &n2)
    }
}

} // verus!
