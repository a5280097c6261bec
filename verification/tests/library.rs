use vital_tracker::compositor::{composite_images, CompositeError};
use vital_tracker::entry::Entry;
use vital_tracker::forwarder::{
    entry_line, is_connection_error_message, point_line, url_encode, ForwarderState, InfluxClient,
    SinkFailure,
};
use vital_tracker::ingest::{
    normalize_temp, parse_scalar_i64, process_submission, validate_temp, IngestError,
};
use vital_tracker::paths::{identity_from_instant, identity_stem, image_path, json_meta_path, legacy_meta_path};
use vital_tracker::sidecar::{parse_sidecar_str, sidecar_string};
use vital_tracker::store::Store;

fn png_bytes(width: u32, height: u32) -> Vec<u8> {
    let img = image::DynamicImage::new_rgb8(width, height);
    let mut out: Vec<u8> = Vec::new();
    img.write_to(&mut std::io::Cursor::new(&mut out), image::ImageFormat::Png)
        .unwrap();
    out
}

fn decoded_size(bytes: &[u8]) -> (u32, u32) {
    let img = image::ImageReader::new(std::io::Cursor::new(bytes))
        .with_guessed_format()
        .unwrap()
        .decode()
        .unwrap();
    (img.width(), img.height())
}

#[test]
fn identity_is_nanoseconds() {
    assert_eq!(identity_from_instant(1, 500), 1_000_000_500i128);
    assert_eq!(identity_from_instant(0, 0), 0i128);
    assert_eq!(identity_from_instant(-1, 999_999_999), -1i128);
    assert_eq!(identity_stem(1_000_000_500i128), "1000000500");
    assert_eq!(identity_stem(-42i128), "-42");
}

#[test]
fn paths_have_both_layouts() {
    assert_eq!(json_meta_path("123"), "data/json/123.json");
    assert_eq!(legacy_meta_path("123"), "data/photos/123.json");
    assert_eq!(image_path("123"), "data/photos/123.jpg");
}

#[test]
fn scalar_parsing() {
    assert_eq!(parse_scalar_i64("120"), Some(120));
    assert_eq!(parse_scalar_i64("-5"), Some(-5));
    assert_eq!(parse_scalar_i64("+120"), Some(120));
    assert_eq!(parse_scalar_i64("007"), Some(7));
    assert_eq!(parse_scalar_i64("+-5"), None);
    assert_eq!(parse_scalar_i64("+"), None);
    assert_eq!(parse_scalar_i64("12a"), None);
    assert_eq!(parse_scalar_i64(""), None);
    assert_eq!(parse_scalar_i64("9223372036854775807"), Some(i64::MAX));
    assert_eq!(parse_scalar_i64("9223372036854775808"), None);
    assert_eq!(parse_scalar_i64("-9223372036854775808"), Some(i64::MIN));
}

#[test]
fn temperature_grammar() {
    assert!(validate_temp("36.6"));
    assert!(validate_temp("0.0"));
    assert!(validate_temp("-1.25e2"));
    assert!(validate_temp("40"));
    assert!(validate_temp("36."));
    assert!(validate_temp(".5"));
    assert!(validate_temp("+36.6"));
    assert!(validate_temp("007"));
    assert!(!validate_temp("inf"));
    assert!(!validate_temp("NaN"));
    assert!(!validate_temp("36,6"));
    assert!(!validate_temp("."));
    assert!(!validate_temp("e5"));
    assert!(!validate_temp("1.5e"));
    assert!(!validate_temp(""));
}

#[test]
fn temperature_normalization() {
    // every accepted text is stored in its canonical decimal form
    assert_eq!(normalize_temp("36.6").as_deref(), Some("36.6"));
    assert_eq!(normalize_temp(".5").as_deref(), Some("0.5"));
    assert_eq!(normalize_temp("-.5").as_deref(), Some("-0.5"));
    assert_eq!(normalize_temp("3.").as_deref(), Some("3"));
    assert_eq!(normalize_temp("007.25").as_deref(), Some("7.25"));
    assert_eq!(normalize_temp("+36.6").as_deref(), Some("36.6"));
    assert_eq!(normalize_temp("000").as_deref(), Some("0"));
    assert_eq!(normalize_temp("-0").as_deref(), Some("-0"));
    assert_eq!(normalize_temp("1.25E+2").as_deref(), Some("1.25E+2"));
    assert_eq!(normalize_temp("2.e07").as_deref(), Some("2e07"));
    assert_eq!(normalize_temp("inf"), None);
    assert_eq!(normalize_temp(""), None);
}

#[test]
fn ingest_stores_canonical_temperature() {
    let mut store = Store::new();
    let out = process_submission(
        &mut store,
        42,
        Some("+120"),
        Some("080"),
        Some("70"),
        Some(".5"),
        Some(png_bytes(3, 3)),
        None,
        None,
    )
    .unwrap();
    assert_eq!(out.entry.sys, 120);
    assert_eq!(out.entry.dia, 80);
    assert_eq!(out.entry.temp_c, "0.5");
    // the stored sidecar reads back with the canonical temperature
    let listed = store.list();
    assert_eq!(listed.len(), 1);
    assert_eq!(listed[0].temp_c, "0.5");
}

#[test]
fn sidecar_round_trip() {
    let e = Entry {
        path: "/photos/17.jpg".to_string(),
        sys: 120,
        dia: 80,
        pulse: 70,
        temp_c: "36.6".to_string(),
        timestamp_nanos: 17,
    };
    let text = sidecar_string(&e);
    assert_eq!(
        text,
        "{\"path\":\"/photos/17.jpg\",\"sys\":120,\"dia\":80,\"pulse\":70,\"temp_c\":36.6,\"timestamp_nanos\":17}"
    );
    let back = parse_sidecar_str(&text).unwrap();
    assert_eq!(back.path, e.path);
    assert_eq!(back.sys, e.sys);
    assert_eq!(back.dia, e.dia);
    assert_eq!(back.pulse, e.pulse);
    assert_eq!(back.temp_c, e.temp_c);
    assert_eq!(back.timestamp_nanos, e.timestamp_nanos);
}

#[test]
fn sidecar_rejects_malformed() {
    assert!(parse_sidecar_str("").is_none());
    assert!(parse_sidecar_str("{}").is_none());
    assert!(parse_sidecar_str("{\"path\":\"x\",\"sys\":1}").is_none());
    assert!(parse_sidecar_str(
        "{\"path\":\"x\",\"sys\":1,\"dia\":2,\"pulse\":3,\"temp_c\":nope,\"timestamp_nanos\":4}"
    )
    .is_none());
}

#[test]
fn single_image_composite_keeps_dimensions() {
    let parts = vec![png_bytes(400, 300)];
    let c = composite_images(&parts).unwrap();
    assert_eq!(c.width, 400);
    assert_eq!(c.height, 300);
    // the encoded bytes really are a 400 x 300 raster
    assert_eq!(decoded_size(&c.bytes), (400, 300));
}

#[test]
fn multi_image_composite_geometry() {
    // heights 200 and 100: common height 200, second is upscaled twofold
    let parts = vec![png_bytes(100, 200), png_bytes(50, 100)];
    let c = composite_images(&parts).unwrap();
    assert_eq!(c.height, 200);
    assert_eq!(c.width, 100 + 100);
    assert_eq!(decoded_size(&c.bytes), (200, 200));
}

#[test]
fn three_image_composite_rounds_widths() {
    // heights 10, 20, 15: common height 20
    // widths: 7 -> round(7*20/10) = 14; 9 -> 9; 4 -> round(4*20/15) = round(5.33) = 5
    let parts = vec![png_bytes(7, 10), png_bytes(9, 20), png_bytes(4, 15)];
    let c = composite_images(&parts).unwrap();
    assert_eq!(c.height, 20);
    assert_eq!(c.width, 14 + 9 + 5);
}

#[test]
fn composite_fails_without_images() {
    let parts: Vec<Vec<u8>> = Vec::new();
    match composite_images(&parts) {
        Err(CompositeError::Decode(_)) => {},
        _ => panic!("expected a decode error"),
    }
}

#[test]
fn composite_fails_on_undecodable_bytes() {
    let parts = vec![png_bytes(4, 4), vec![1u8, 2, 3, 4]];
    match composite_images(&parts) {
        Err(CompositeError::Decode(_)) => {},
        _ => panic!("expected a decode error"),
    }
}

#[test]
fn composite_too_wide_for_jpeg_is_an_encode_error() {
    // a single 70000 x 1 source decodes and lays out, but no JPEG frame holds
    // a width beyond 65535
    let parts = vec![png_bytes(70_000, 1)];
    match composite_images(&parts) {
        Err(CompositeError::Encode(_)) => {},
        _ => panic!("expected an encode error"),
    }
    // and through ingestion nothing is stored
    let mut store = Store::new();
    let r = process_submission(
        &mut store,
        7,
        Some("120"),
        Some("80"),
        Some("70"),
        Some("36.6"),
        Some(png_bytes(70_000, 1)),
        None,
        None,
    );
    assert!(matches!(r, Err(IngestError::Encode(_))));
    assert_eq!(store.list().len(), 0);
}

#[test]
fn ingest_scenario_end_to_end() {
    // ingest sys=120 dia=80 pulse=70 temp=36.6 with one 400 x 300 front photo
    let mut store = Store::new();
    let id = identity_from_instant(1_700_000_000, 123_456_789);
    let out = process_submission(
        &mut store,
        id,
        Some("120"),
        Some("80"),
        Some("70"),
        Some("36.6"),
        Some(png_bytes(400, 300)),
        None,
        None,
    )
    .unwrap();
    assert_eq!(out.width, 400);
    assert_eq!(out.height, 300);
    assert_eq!(out.entry.sys, 120);
    assert_eq!(out.entry.timestamp_nanos, id);
    let stem = identity_stem(id);
    assert_eq!(out.entry.path, format!("/photos/{}.jpg", stem));

    // the listing holds exactly that entry, with the exact numeric values
    let listed = store.list();
    assert_eq!(listed.len(), 1);
    assert_eq!(listed[0].sys, 120);
    assert_eq!(listed[0].dia, 80);
    assert_eq!(listed[0].pulse, 70);
    assert_eq!(listed[0].temp_c, "36.6");
    assert_eq!(listed[0].timestamp_nanos, id);
    assert_eq!(listed[0].path, out.entry.path);

    // deletion removes image and metadata; a second delete still succeeds
    store.delete(&stem);
    assert_eq!(store.list().len(), 0);
    store.delete(&stem);
    assert_eq!(store.list().len(), 0);
}

#[test]
fn ingest_rejects_missing_scalars() {
    let mut store = Store::new();
    let r = process_submission(
        &mut store,
        1,
        None,
        Some("80"),
        Some("70"),
        Some("36.6"),
        Some(png_bytes(2, 2)),
        None,
        None,
    );
    assert!(matches!(r, Err(IngestError::Validation)));
    assert_eq!(store.list().len(), 0);

    let r2 = process_submission(
        &mut store,
        1,
        Some("120"),
        Some("80"),
        Some("70"),
        Some("warm"),
        Some(png_bytes(2, 2)),
        None,
        None,
    );
    assert!(matches!(r2, Err(IngestError::Validation)));
    assert_eq!(store.list().len(), 0);
}

#[test]
fn ingest_rejects_empty_photo_set() {
    let mut store = Store::new();
    let r = process_submission(
        &mut store, 1, Some("120"), Some("80"), Some("70"), Some("36.6"), None, None, None,
    );
    assert!(matches!(r, Err(IngestError::Decode(_))));
    assert_eq!(store.list().len(), 0);
}

#[test]
fn ingest_error_status_codes() {
    assert_eq!(IngestError::Validation.status_code(), 400);
    assert_eq!(IngestError::Decode(String::new()).status_code(), 400);
    assert_eq!(IngestError::TooLarge.status_code(), 500);
    assert_eq!(IngestError::Encode(String::new()).status_code(), 500);
}

#[test]
fn listing_synthesizes_minimal_entries() {
    let mut store = Store::new();
    store.add_image("777".to_string(), vec![1u8, 2, 3]);
    let listed = store.list();
    assert_eq!(listed.len(), 1);
    assert_eq!(listed[0].path, "/photos/777.jpg");
    assert_eq!(listed[0].sys, 0);
    assert_eq!(listed[0].dia, 0);
    assert_eq!(listed[0].pulse, 0);
    assert_eq!(listed[0].temp_c, "0.0");
    assert_eq!(listed[0].timestamp_nanos, 777);

    // a malformed sidecar in both layouts still synthesizes
    store.add_sidecar("777".to_string(), "not json".to_string());
    store.add_legacy("777".to_string(), "{broken".to_string());
    let listed2 = store.list();
    assert_eq!(listed2[0].sys, 0);
    assert_eq!(listed2[0].timestamp_nanos, 777);

    // an unparsable stem synthesizes identity zero
    let mut store2 = Store::new();
    store2.add_image("portrait".to_string(), vec![0u8]);
    let listed3 = store2.list();
    assert_eq!(listed3[0].timestamp_nanos, 0);
    assert_eq!(listed3[0].path, "/photos/portrait.jpg");
}

#[test]
fn listing_prefers_current_layout_then_legacy() {
    let cur = Entry {
        path: "/photos/5.jpg".to_string(),
        sys: 1,
        dia: 2,
        pulse: 3,
        temp_c: "4.5".to_string(),
        timestamp_nanos: 5,
    };
    let leg = Entry {
        path: "/photos/5.jpg".to_string(),
        sys: 9,
        dia: 8,
        pulse: 7,
        temp_c: "6.5".to_string(),
        timestamp_nanos: 5,
    };
    let mut store = Store::new();
    store.add_image("5".to_string(), vec![0u8]);
    store.add_legacy("5".to_string(), sidecar_string(&leg));
    // only the legacy sidecar exists: its values are served
    let listed = store.list();
    assert_eq!(listed[0].sys, 9);
    // the current layout is authoritative once present
    store.add_sidecar("5".to_string(), sidecar_string(&cur));
    let listed2 = store.list();
    assert_eq!(listed2[0].sys, 1);
}

#[test]
fn breaker_opens_once_and_stays_open() {
    let mut st = ForwarderState::new();
    assert!(st.should_attempt(false));
    assert!(!st.should_attempt(true));

    // an application failure does not open the breaker
    let logged = st.on_failure(&SinkFailure::Application);
    assert!(!logged);
    assert!(st.should_attempt(false));

    // the first connection failure opens it and owes one log line
    let logged2 = st.on_failure(&SinkFailure::Connection);
    assert!(logged2);
    assert!(!st.should_attempt(false));

    // a second ingest in the same process attempts no further write
    let logged3 = st.on_failure(&SinkFailure::Connection);
    assert!(!logged3);
    assert!(!st.should_attempt(false));
}

#[test]
fn line_protocol_record() {
    assert_eq!(
        entry_line(120, 80, 70, "36.6", "/photos/1.jpg", 123),
        "vital_entry sys=120,dia=80,pulse=70,temp_c=36.6,photo=\"/photos/1.jpg\" 123"
    );
    // embedded quotes are escaped
    assert_eq!(
        entry_line(1, 2, 3, "4.5", "a\"b", -6),
        "vital_entry sys=1,dia=2,pulse=3,temp_c=4.5,photo=\"a\\\"b\" -6"
    );
    assert_eq!(
        point_line("vital_entry", "pulse", "70", 9),
        "vital_entry,metric=pulse value=70 9"
    );
}

#[test]
fn sink_requests_follow_configuration() {
    let with_org = InfluxClient::from_settings(
        Some("http://sink:8086".to_string()),
        Some("SECRET-REDACTED".to_string()),
        Some("myorg".to_string()),
        Some("vitals".to_string()),
    );
    assert_eq!(
        with_org.write_url(),
        "http://sink:8086/api/v2/write?org=myorg&bucket=vitals&precision=ns"
    );
    assert_eq!(with_org.query_url(), "http://sink:8086/api/v2/query?org=myorg");
    assert!(with_org.last_entry_query().starts_with("from(bucket:\"vitals\")"));
    assert_eq!(with_org.bucket(), "vitals");
    assert!(with_org.org().is_some());

    let plain = InfluxClient::from_settings(None, None, None, None);
    assert_eq!(plain.write_url(), "http://localhost:8086/write?db=default");
    assert_eq!(plain.query_url(), "http://localhost:8086/query?db=default");
    assert_eq!(
        plain.last_entry_query(),
        "SELECT * FROM vital_entry ORDER BY time DESC LIMIT 1"
    );
    assert!(plain.org().is_none());
}

#[test]
fn trimmed_bases_share_metadata() {
    // a photo named 9.jpg.jpg lists under base 9: its sidecar is found there
    let e = Entry {
        path: "/photos/9.jpg.jpg".to_string(),
        sys: 11,
        dia: 12,
        pulse: 13,
        temp_c: "14.5".to_string(),
        timestamp_nanos: 9,
    };
    let mut store = Store::new();
    store.add_image("9.jpg".to_string(), vec![0u8]);
    store.add_sidecar("9".to_string(), sidecar_string(&e));
    let listed = store.list();
    assert_eq!(listed[0].sys, 11);
}

#[test]
fn query_values_are_percent_encoded() {
    let bytes: Vec<u8> = "SELECT * FROM vital_entry".bytes().collect();
    let encoded: String = url_encode(&bytes).into_iter().collect();
    assert_eq!(encoded, "SELECT%20%2A%20FROM%20vital_entry");
    let unreserved: Vec<u8> = "Az09-_.~".bytes().collect();
    let kept: String = url_encode(&unreserved).into_iter().collect();
    assert_eq!(kept, "Az09-_.~");
    let reserved: Vec<u8> = "q=a&b%".bytes().collect();
    let escaped: String = url_encode(&reserved).into_iter().collect();
    assert_eq!(escaped, "q%3Da%26b%25");
}

#[test]
fn connection_failures_recognized_by_message() {
    assert!(is_connection_error_message(
        "tcp connect error: error trying to connect: connection refused"
    ));
    assert!(is_connection_error_message(
        "No connection could be made because the target machine actively refused it"
    ));
    assert!(!is_connection_error_message("sink write failed: 400 Bad Request"));
    assert!(!is_connection_error_message(""));
}
