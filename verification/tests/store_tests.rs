use temperature_guardian::decimal::Decimal;
use temperature_guardian::store::ThresholdStore;
use temperature_guardian::thresholds::{Thresholds, decode_thresholds, load_or_defaults};

fn dec(mantissa: i64, scale: u32) -> Decimal {
    Decimal { mantissa, scale }
}

#[test]
fn defaults_are_75_80_85() {
    let t = Thresholds::new();
    assert_eq!(t.cpu_temp_threshold, dec(750, 1));
    assert_eq!(t.gpu_temp_threshold, dec(800, 1));
    assert_eq!(t.overall_temp_threshold, dec(850, 1));
}

#[test]
fn set_cpu_only_changes_cpu() {
    let mut t = Thresholds::new();
    t.set(Some(dec(900, 1)), None, None);
    assert_eq!(t.cpu_temp_threshold, dec(900, 1));
    assert_eq!(t.gpu_temp_threshold, dec(800, 1));
    assert_eq!(t.overall_temp_threshold, dec(850, 1));
}

#[test]
fn set_all_three() {
    let mut t = Thresholds::new();
    t.set(Some(dec(1, 0)), Some(dec(2, 0)), Some(dec(3, 0)));
    assert_eq!(t.get(), (dec(1, 0), dec(2, 0), dec(3, 0)));
}

#[test]
fn set_none_changes_nothing() {
    let mut t = Thresholds::new();
    t.set(None, None, None);
    assert_eq!(t, Thresholds::new());
}

#[test]
fn encode_of_defaults_is_flat_json() {
    let t = Thresholds::new();
    assert_eq!(
        t.encode(),
        "{\"cpu_temp_threshold\":75.0,\"gpu_temp_threshold\":80.0,\"overall_temp_threshold\":85.0}"
    );
}

#[test]
fn round_trip_reproduces_the_exact_triple() {
    let mut t = Thresholds::new();
    t.set(Some(dec(-1225, 2)), Some(dec(42, 0)), Some(dec(99999, 3)));
    let text = t.encode();
    assert_eq!(decode_thresholds(&text), Some(t));
}

#[test]
fn round_trip_of_defaults() {
    let t = Thresholds::new();
    assert_eq!(decode_thresholds(&t.encode()), Some(t));
}

#[test]
fn decode_rejects_garbage() {
    assert_eq!(decode_thresholds("not json"), None);
    assert_eq!(decode_thresholds(""), None);
    assert_eq!(decode_thresholds("{\"cpu_temp_threshold\":75.0}"), None);
    assert_eq!(
        decode_thresholds(
            "{\"cpu_temp_threshold\":x,\"gpu_temp_threshold\":80.0,\"overall_temp_threshold\":85.0}"
        ),
        None
    );
}

#[test]
fn decode_accepts_integer_fields() {
    let t = decode_thresholds(
        "{\"cpu_temp_threshold\":75,\"gpu_temp_threshold\":80,\"overall_temp_threshold\":85}",
    )
    .unwrap();
    assert_eq!(t.get(), (dec(75, 0), dec(80, 0), dec(85, 0)));
}

#[test]
fn decode_accepts_reordered_fields() {
    let t = decode_thresholds(
        "{\"overall_temp_threshold\":85.0,\"cpu_temp_threshold\":75.5,\"gpu_temp_threshold\":80}",
    )
    .unwrap();
    assert_eq!(t.get(), (dec(755, 1), dec(80, 0), dec(850, 1)));
}

#[test]
fn decode_accepts_whitespace() {
    let t = decode_thresholds(
        "{\n  \"cpu_temp_threshold\" : 75.0 ,\n  \"gpu_temp_threshold\" : 80.0 ,\n  \"overall_temp_threshold\" : 85.0\n}\n",
    )
    .unwrap();
    assert_eq!(t, Thresholds::new());
}

#[test]
fn config_decode_ignores_unknown_fields() {
    let t = decode_thresholds(
        "{\"cpu_temp_threshold\":75.0,\"note\":\"added later\",\"version\":2,\"gpu_temp_threshold\":80.0,\"overall_temp_threshold\":85.0}",
    )
    .unwrap();
    assert_eq!(t, Thresholds::new());
}

#[test]
fn decode_rejects_duplicate_known_field() {
    assert_eq!(
        decode_thresholds(
            "{\"cpu_temp_threshold\":75.0,\"cpu_temp_threshold\":76.0,\"gpu_temp_threshold\":80.0,\"overall_temp_threshold\":85.0}",
        ),
        None
    );
}

#[test]
fn decode_rejects_wrong_value_type() {
    assert_eq!(
        decode_thresholds(
            "{\"cpu_temp_threshold\":\"75.0\",\"gpu_temp_threshold\":80.0,\"overall_temp_threshold\":85.0}",
        ),
        None
    );
}

#[test]
fn load_reordered_file_gives_its_triple() {
    let t = load_or_defaults(Some(
        "{\"gpu_temp_threshold\":81.0,\"overall_temp_threshold\":85.0,\"cpu_temp_threshold\":75.0}",
    ));
    assert_eq!(t.gpu_temp_threshold, dec(810, 1));
    assert_eq!(t.cpu_temp_threshold, dec(750, 1));
}

#[test]
fn load_absent_file_gives_defaults() {
    assert_eq!(load_or_defaults(None), Thresholds::new());
}

#[test]
fn load_malformed_file_gives_defaults() {
    assert_eq!(load_or_defaults(Some("{broken")), Thresholds::new());
}

#[test]
fn locked_store_update_changes_only_given_fields() {
    let store = ThresholdStore::new_store(Thresholds::new());
    store.update(Some(dec(900, 1)), None, None);
    let snap = store.snapshot();
    assert_eq!(snap.cpu_temp_threshold, dec(900, 1));
    assert_eq!(snap.gpu_temp_threshold, dec(800, 1));
    assert_eq!(snap.overall_temp_threshold, dec(850, 1));
}

#[test]
fn locked_store_round_trips_through_persisted_form() {
    let store = ThresholdStore::new_store(Thresholds::new());
    store.update(None, Some(dec(825, 1)), Some(dec(90, 0)));
    let snap = store.snapshot();
    assert_eq!(decode_thresholds(&snap.encode()), Some(snap));
}

#[test]
fn load_valid_file_gives_its_triple() {
    let mut t = Thresholds::new();
    t.set(None, Some(dec(777, 1)), None);
    let text = t.encode();
    assert_eq!(load_or_defaults(Some(&text)), t);
}
