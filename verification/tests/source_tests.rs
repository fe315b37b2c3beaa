use temperature_guardian::decimal::Decimal;
use temperature_guardian::json::decode_tree;
use temperature_guardian::monitor::{CycleDecision, evaluate_cycle};
use temperature_guardian::source::{FetchError, get_temperatures};
use temperature_guardian::thresholds::Thresholds;

fn dec(mantissa: i64, scale: u32) -> Decimal {
    Decimal { mantissa, scale }
}

const BODY: &str = r#"{
  "id": 0,
  "Text": "Sensor",
  "Children": [
    {
      "id": 1,
      "Text": "MACHINE",
      "Children": [
        {
          "Text": "AMD Ryzen 7 5800X",
          "Children": [
            {
              "Text": "Temperatures",
              "Children": [
                {
                  "Text": "Core (Tctl/Tdie)",
                  "Min": "39,0 °C",
                  "Value": "48,9 °C",
                  "Max": "70,3 °C",
                  "SensorId": "/amdcpu/0/temperature/2",
                  "Type": "Temperature",
                  "Children": []
                }
              ]
            }
          ]
        },
        {
          "Text": "NVIDIA GeForce RTX 3070",
          "Children": [
            {
              "Text": "Temperatures",
              "Children": [
                {
                  "Text": "GPU Core",
                  "Value": "61.0 °C",
                  "Type": "Temperature",
                  "Children": []
                },
                {
                  "Text": "GPU Core",
                  "Value": "1800",
                  "Type": "Clock",
                  "Children": []
                }
              ]
            }
          ]
        }
      ]
    }
  ]
}"#;

#[test]
fn decodes_and_extracts_both_metrics() {
    let r = get_temperatures(BODY).unwrap();
    assert_eq!(r.0, Some(dec(489, 1)));
    assert_eq!(r.1, Some(dec(610, 1)));
}

#[test]
fn decode_keeps_field_text_and_values() {
    let root = decode_tree(BODY).unwrap();
    assert_eq!(root.text, "Sensor");
    // the wire's lowercase "id" is not the renamed "Id" field: it is an
    // unknown key, skipped, and the field stays empty
    assert_eq!(root.id, None);
    let leaf = &root.children[0].children[0].children[0].children[0];
    assert_eq!(leaf.text, "Core (Tctl/Tdie)");
    assert_eq!(leaf.min.as_deref(), Some("39,0 °C"));
    assert_eq!(leaf.value.as_deref(), Some("48,9 °C"));
    assert_eq!(leaf.max.as_deref(), Some("70,3 °C"));
    assert_eq!(leaf.sensor_id.as_deref(), Some("/amdcpu/0/temperature/2"));
    assert_eq!(leaf.type_field.as_deref(), Some("Temperature"));
    assert!(leaf.children.is_empty());
}

#[test]
fn decode_processes_escapes() {
    let body = r#"{"Text":"aAb\n\"\\°C","Children":[]}"#;
    let root = decode_tree(body).unwrap();
    assert_eq!(root.text, "aAb\n\"\\°C");
}

#[test]
fn decode_processes_surrogate_pairs() {
    let body = r#"{"Text":"😀","Children":[]}"#;
    let root = decode_tree(body).unwrap();
    assert_eq!(root.text, "\u{1F600}");
}

#[test]
fn decode_rejects_lone_surrogate() {
    assert!(decode_tree(r#"{"Text":"\ud83d","Children":[]}"#).is_none());
}

#[test]
fn decode_reads_renamed_id_field() {
    let root = decode_tree(r#"{"Id":7,"Text":"t","Children":[]}"#).unwrap();
    assert_eq!(root.id, Some(7));
}

#[test]
fn decode_ignores_unknown_fields() {
    let body = r#"{"Text":"t","Whatever":{"deep":[1,2,{"x":null}]},"Children":[]}"#;
    assert!(decode_tree(body).is_some());
}

#[test]
fn decode_requires_text_and_children() {
    assert!(decode_tree(r#"{"Children":[]}"#).is_none());
    assert!(decode_tree(r#"{"Text":"t"}"#).is_none());
}

#[test]
fn decode_rejects_duplicate_field() {
    assert!(decode_tree(r#"{"Text":"a","Text":"b","Children":[]}"#).is_none());
}

#[test]
fn decode_rejects_wrong_type() {
    assert!(decode_tree(r#"{"Text":5,"Children":[]}"#).is_none());
    assert!(decode_tree(r#"{"Text":"t","Children":{}}"#).is_none());
    assert!(decode_tree(r#"{"Text":"t","Id":1.5,"Children":[]}"#).is_none());
}

#[test]
fn decode_enforces_json_number_grammar() {
    // a trailing dot, a leading zero, or a bare sign is not a JSON number
    assert!(decode_tree(r#"{"Text":"t","Id":5.,"Children":[]}"#).is_none());
    assert!(decode_tree(r#"{"Text":"t","Id":007,"Children":[]}"#).is_none());
    assert!(decode_tree(r#"{"Text":"t","X":-,"Children":[]}"#).is_none());
    // exponents are valid JSON and fine in a skipped field
    assert!(decode_tree(r#"{"Text":"t","X":-1.25e+3,"Children":[]}"#).is_some());
}

#[test]
fn decode_rejects_trailing_junk() {
    assert!(decode_tree(r#"{"Text":"t","Children":[]}x"#).is_none());
}

#[test]
fn malformed_body_is_a_decode_error() {
    assert_eq!(get_temperatures("nonsense"), Err(FetchError::Decode));
}

#[test]
fn tree_without_matches_is_not_an_error() {
    let r = get_temperatures(r#"{"Text":"t","Children":[]}"#).unwrap();
    assert_eq!(r, (None, None));
}

#[test]
fn alert_fires_every_cycle_while_condition_holds() {
    let t = Thresholds::new(); // cpu threshold 75.0
    let fetch = Ok((Some(dec(800, 1)), None)); // cpu at 80.0
    for _ in 0..3 {
        let d = evaluate_cycle(&fetch, &t);
        assert_eq!(d, CycleDecision { cpu_alert: true, gpu_alert: false });
    }
}

#[test]
fn both_alerts_can_fire_in_one_cycle() {
    let t = Thresholds::new();
    let fetch = Ok((Some(dec(761, 1)), Some(dec(805, 1))));
    let d = evaluate_cycle(&fetch, &t);
    assert!(d.cpu_alert && d.gpu_alert);
}

#[test]
fn reading_at_threshold_does_not_alert() {
    let t = Thresholds::new();
    let fetch = Ok((Some(dec(750, 1)), Some(dec(80, 0))));
    let d = evaluate_cycle(&fetch, &t);
    assert!(!d.cpu_alert && !d.gpu_alert);
}

#[test]
fn failed_fetch_yields_no_alerts() {
    let t = Thresholds::new();
    let d = evaluate_cycle(&Err(FetchError::Network), &t);
    assert_eq!(d, CycleDecision { cpu_alert: false, gpu_alert: false });
    let d2 = evaluate_cycle(&Err(FetchError::Decode), &t);
    assert!(!d2.cpu_alert && !d2.gpu_alert);
}

#[test]
fn missing_reading_yields_no_alert_for_that_metric() {
    let t = Thresholds::new();
    let d = evaluate_cycle(&Ok((None, Some(dec(999, 1)))), &t);
    assert!(!d.cpu_alert && d.gpu_alert);
}
