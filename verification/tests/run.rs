use armada_rgb::attributes::MaximumError;
use armada_rgb::backend::{
    ApplyError, ApplyRun, Attribute, LightingBackend, MulticolorBackend, Request,
};
use armada_rgb::config::LightingConfig;
use armada_rgb::targets::NameError;
use armada_rgb::text::NumberError;
use std::collections::HashMap;
use std::path::PathBuf;

/// One LED directory: attribute texts, and attributes that fail to open, read or write.
#[derive(Default, Clone)]
struct Led {
    files: HashMap<&'static str, String>,
    unopenable: Vec<&'static str>,
    unwritable: Vec<&'static str>,
    level_fails: bool,
}

fn led(order: &str, maximum: &str) -> Led {
    let mut led: Led = Led::default();
    led.files.insert("multi_index", order.into());
    led.files.insert("max_brightness", maximum.into());
    led.files.insert("multi_intensity", "unchanged".into());
    led.files.insert("brightness", "unchanged".into());
    led
}

/// Drives `run` against `leds`; returns the result, the requests made and the writes
/// that succeeded, in order.
fn drive(
    mut run: ApplyRun,
    leds: &mut HashMap<String, Led>,
) -> (Result<(), ApplyError>, Vec<Request>, Vec<(String, &'static str, String)>) {
    let mut requests: Vec<Request> = Vec::new();
    let mut writes: Vec<(String, &'static str, String)> = Vec::new();
    loop {
        let request: Request = run.request();
        let name = |i: usize| run.target(i).unwrap().clone();
        let open = |leds: &HashMap<String, Led>, i: usize, attribute: &'static str| {
            match leds.get(&name(i)) {
                Some(led) if led.files.contains_key(attribute) && !led.unopenable.contains(&attribute) => {
                    Ok(String::new())
                }
                _ => Err(format!("cannot open {attribute}")),
            }
        };
        let read = |leds: &HashMap<String, Led>, i: usize, attribute: &'static str| {
            match leds.get(&name(i)).and_then(|led| led.files.get(attribute)) {
                Some(text) => Ok(text.clone()),
                None => Err(format!("cannot read {attribute}")),
            }
        };
        let mut write = |leds: &mut HashMap<String, Led>, i: usize, attribute: &'static str, value: &str| {
            let led: &mut Led = leds.get_mut(&name(i)).unwrap();
            if led.unwritable.contains(&attribute) {
                Err(format!("cannot write {attribute}"))
            } else {
                led.files.insert(attribute, value.to_string());
                writes.push((name(i), attribute, value.to_string()));
                Ok(String::new())
            }
        };
        let outcome: Result<String, String> = match &request {
            Request::OpenBlank(i) => open(leds, *i, "brightness"),
            Request::ReadOrder(i) => read(leds, *i, "multi_index"),
            Request::ReadMaximum(i) => read(leds, *i, "max_brightness"),
            Request::OpenIntensity(i) => open(leds, *i, "multi_intensity"),
            Request::OpenBrightness(i) => open(leds, *i, "brightness"),
            Request::WriteBlank(i) => write(leds, *i, "brightness", "0"),
            Request::WriteColour(i, text) => write(leds, *i, "multi_intensity", text),
            Request::WriteBrightness(i, text) => {
                if leds[&name(*i)].level_fails {
                    Err("cannot write level".to_string())
                } else {
                    write(leds, *i, "brightness", text)
                }
            }
            Request::BlankAll => {
                for target in run.targets().clone() {
                    if let Some(led) = leds.get_mut(&target) {
                        led.files.insert("brightness", "0".into());
                    }
                }
                Ok(String::new())
            }
            Request::Finish => {
                requests.push(Request::Finish);
                return (run.outcome(), requests, writes);
            }
        };
        requests.push(request);
        run = run.advance(outcome);
    }
}

fn backend(targets: &[&str]) -> MulticolorBackend {
    MulticolorBackend::new(
        PathBuf::from("/sys/class/leds"),
        targets.iter().map(|name| name.to_string()).collect(),
    )
}

fn enabled(color: &str, brightness: u8) -> LightingConfig {
    LightingConfig { version: 1, enabled: true, brightness, color: color.into() }
}

fn disabled() -> LightingConfig {
    LightingConfig { version: 1, enabled: false, brightness: 25, color: "00FF00".into() }
}

fn text(leds: &HashMap<String, Led>, target: &str, attribute: &str) -> String {
    leds[target].files[attribute].clone()
}

#[test]
fn thor_targets_get_colour_and_brightness_in_order() {
    let names: Vec<String> = ["l1", "l2", "l3", "l4", "r1", "r2", "r3", "r4"]
        .map(|name| format!("rgb:{name}"))
        .into();
    let mut leds: HashMap<String, Led> = HashMap::new();
    for name in &names {
        leds.insert(name.clone(), led("blue green red", "255"));
    }
    leds.insert("power-led".into(), led("red green blue", "511"));
    let targets: Vec<&str> = names.iter().map(|name| name.as_str()).collect();
    let run: ApplyRun = backend(&targets).apply(&enabled("FF8000", 25)).unwrap();
    let (result, _, writes) = drive(run, &mut leds);

    assert_eq!(result, Ok(()));
    for name in &names {
        assert_eq!(text(&leds, name, "multi_intensity"), "0 55 255");
        assert_eq!(text(&leds, name, "brightness"), "64");
    }
    assert_eq!(text(&leds, "power-led", "brightness"), "unchanged");
    assert_eq!(writes.len(), 3 * names.len());
    for (k, (name, attribute, value)) in writes.iter().enumerate() {
        assert_eq!(name, &names[k % names.len()]);
        match k / names.len() {
            0 => assert_eq!((*attribute, value.as_str()), ("brightness", "0")),
            1 => assert_eq!((*attribute, value.as_str()), ("multi_intensity", "0 55 255")),
            _ => assert_eq!((*attribute, value.as_str()), ("brightness", "64")),
        }
    }
}

#[test]
fn levels_follow_each_targets_maximum() {
    let mut leds: HashMap<String, Led> = HashMap::new();
    leds.insert("a".into(), led("red green blue", "511"));
    leds.insert("b".into(), led("green blue red", "100"));
    let run: ApplyRun = backend(&["a", "b"]).apply(&enabled("FF8000", 50)).unwrap();
    let (result, _, _) = drive(run, &mut leds);
    assert_eq!(result, Ok(()));
    assert_eq!(text(&leds, "a", "multi_intensity"), "511 110 0");
    assert_eq!(text(&leds, "a", "brightness"), "256");
    assert_eq!(text(&leds, "b", "multi_intensity"), "22 0 100");
    assert_eq!(text(&leds, "b", "brightness"), "50");
}

#[test]
fn target_errors_happen_before_writes() {
    let mut leds: HashMap<String, Led> = HashMap::new();
    leds.insert("rgb:l1".into(), led("blue green red", "255"));
    let run: ApplyRun = backend(&["rgb:l1", "rgb:missing"]).apply(&enabled("FFFFFF", 25)).unwrap();
    let (result, _, writes) = drive(run, &mut leds);
    assert_eq!(
        result,
        Err(ApplyError::Open {
            target: "rgb:missing".into(),
            attribute: Attribute::Brightness,
            cause: "cannot open brightness".into(),
        })
    );
    assert!(writes.is_empty());
    assert_eq!(text(&leds, "rgb:l1", "brightness"), "unchanged");
}

#[test]
fn preflight_rejects_an_unwritable_target() {
    let mut leds: HashMap<String, Led> = HashMap::new();
    leds.insert("rgb:l1".into(), led("blue green red", "255"));
    let mut r1: Led = led("blue green red", "255");
    r1.unopenable.push("multi_intensity");
    leds.insert("rgb:r1".into(), r1);
    let run: ApplyRun = backend(&["rgb:l1", "rgb:r1"]).apply(&enabled("FF0000", 10)).unwrap();
    let (result, _, writes) = drive(run, &mut leds);
    assert!(matches!(
        result,
        Err(ApplyError::Open { ref target, attribute: Attribute::MultiIntensity, .. }) if target == "rgb:r1"
    ));
    assert!(writes.is_empty());
    assert_eq!(text(&leds, "rgb:l1", "brightness"), "unchanged");
}

#[test]
fn partial_writes_leave_targets_off() {
    let mut leds: HashMap<String, Led> = HashMap::new();
    leds.insert("rgb:l1".into(), led("blue green red", "255"));
    let mut r1: Led = led("blue green red", "255");
    r1.unwritable.push("brightness");
    leds.insert("rgb:r1".into(), r1);
    let run: ApplyRun = backend(&["rgb:l1", "rgb:r1"]).apply(&enabled("FF0000", 10)).unwrap();
    let (result, requests, writes) = drive(run, &mut leds);
    assert_eq!(
        result,
        Err(ApplyError::Write {
            target: "rgb:r1".into(),
            attribute: Attribute::Brightness,
            cause: "cannot write brightness".into(),
        })
    );
    assert_eq!(writes, vec![("rgb:l1".to_string(), "brightness", "0".to_string())]);
    assert_eq!(requests[requests.len() - 2], Request::BlankAll);
    assert_eq!(text(&leds, "rgb:l1", "brightness"), "0");
    assert_eq!(text(&leds, "rgb:l1", "multi_intensity"), "unchanged");
}

#[test]
fn a_failed_colour_write_leaves_targets_off() {
    let mut leds: HashMap<String, Led> = HashMap::new();
    leds.insert("rgb:l1".into(), led("blue green red", "255"));
    let mut r1: Led = led("blue green red", "255");
    r1.unwritable.push("multi_intensity");
    leds.insert("rgb:r1".into(), r1);
    let run: ApplyRun = backend(&["rgb:l1", "rgb:r1"]).apply(&enabled("FF0000", 10)).unwrap();
    let (result, requests, _) = drive(run, &mut leds);
    assert_eq!(
        result,
        Err(ApplyError::Write {
            target: "rgb:r1".into(),
            attribute: Attribute::MultiIntensity,
            cause: "cannot write multi_intensity".into(),
        })
    );
    assert_eq!(requests[requests.len() - 2], Request::BlankAll);
    assert_eq!(text(&leds, "rgb:l1", "brightness"), "0");
    assert_eq!(text(&leds, "rgb:r1", "brightness"), "0");
}

#[test]
fn off_is_persistent_and_only_needs_brightness() {
    let mut leds: HashMap<String, Led> = HashMap::new();
    leds.insert("rgb:l1".into(), led("not rgb", "zero"));
    let mut config: LightingConfig = disabled();
    config.color = "not a colour".into();
    let run: ApplyRun = backend(&["rgb:l1"]).apply(&config).unwrap();
    let (result, requests, _) = drive(run, &mut leds);
    assert_eq!(result, Ok(()));
    assert_eq!(requests, vec![Request::OpenBlank(0), Request::WriteBlank(0), Request::Finish]);
    assert_eq!(text(&leds, "rgb:l1", "brightness"), "0");
    assert_eq!(text(&leds, "rgb:l1", "multi_intensity"), "unchanged");
}

#[test]
fn a_failed_blank_while_off_ends_at_once() {
    let mut leds: HashMap<String, Led> = HashMap::new();
    let mut l1: Led = led("blue green red", "255");
    l1.unwritable.push("brightness");
    leds.insert("rgb:l1".into(), l1);
    leds.insert("rgb:r1".into(), led("blue green red", "255"));
    let run: ApplyRun = backend(&["rgb:l1", "rgb:r1"]).apply(&disabled()).unwrap();
    let (result, requests, _) = drive(run, &mut leds);
    assert!(matches!(result, Err(ApplyError::Write { attribute: Attribute::Brightness, .. })));
    assert!(!requests.contains(&Request::BlankAll));
    assert_eq!(text(&leds, "rgb:r1", "brightness"), "unchanged");
}

#[test]
fn unreadable_attributes_are_reported() {
    let mut leds: HashMap<String, Led> = HashMap::new();
    leds.insert("a".into(), led("red green", "255"));
    let run: ApplyRun = backend(&["a"]).apply(&enabled("FFFFFF", 25)).unwrap();
    let (result, _, writes) = drive(run, &mut leds);
    assert_eq!(result, Err(ApplyError::NotRgb { target: "a".into(), text: "red green".into() }));
    assert!(writes.is_empty());

    let mut leds: HashMap<String, Led> = HashMap::new();
    leds.insert("a".into(), led("red green blue", "0\n"));
    let run: ApplyRun = backend(&["a"]).apply(&enabled("FFFFFF", 25)).unwrap();
    let (result, _, _) = drive(run, &mut leds);
    assert_eq!(
        result,
        Err(ApplyError::Maximum { target: "a".into(), text: "0\n".into(), error: MaximumError::Zero })
    );

    let mut leds: HashMap<String, Led> = HashMap::new();
    leds.insert("a".into(), led("red green blue", "lots"));
    let run: ApplyRun = backend(&["a"]).apply(&enabled("FFFFFF", 25)).unwrap();
    let (result, _, _) = drive(run, &mut leds);
    assert_eq!(
        result,
        Err(ApplyError::Maximum {
            target: "a".into(),
            text: "lots".into(),
            error: MaximumError::Unparsable(NumberError::InvalidDigit),
        })
    );

    let mut leds: HashMap<String, Led> = HashMap::new();
    let mut a: Led = led("red green blue", "255");
    a.files.remove("multi_index");
    leds.insert("a".into(), a);
    let run: ApplyRun = backend(&["a"]).apply(&enabled("FFFFFF", 25)).unwrap();
    let (result, _, _) = drive(run, &mut leds);
    assert!(matches!(result, Err(ApplyError::Read { attribute: Attribute::MultiIndex, .. })));
}

#[test]
fn unsupported_devices_are_ignored_during_boot() {
    let backend: LightingBackend = LightingBackend::Unsupported("not configured".into());
    assert_eq!(backend.unsupported_reason(), Some("not configured"));
    assert!(matches!(
        backend.apply(&enabled("FFFFFF", 25)),
        Err(ApplyError::Unsupported(ref reason)) if reason == "not configured"
    ));
    let supported: LightingBackend = LightingBackend::Multicolor(backend_for_reason());
    assert_eq!(supported.unsupported_reason(), None);
}

fn backend_for_reason() -> MulticolorBackend {
    backend(&["rgb:l1"])
}

#[test]
fn refused_starts() {
    assert!(matches!(
        backend(&[]).apply(&enabled("FFFFFF", 25)),
        Err(ApplyError::Targets(NameError::Empty))
    ));
    assert!(matches!(
        backend(&["a", "a"]).apply(&enabled("FFFFFF", 25)),
        Err(ApplyError::Targets(NameError::Duplicate(ref name))) if name == "a"
    ));
    assert!(matches!(
        backend(&["../x"]).apply(&disabled()),
        Err(ApplyError::Targets(NameError::Invalid(ref name))) if name == "../x"
    ));
    let root: PathBuf = backend(&["a"]).root().clone();
    assert_eq!(root, PathBuf::from("/sys/class/leds"));
}

#[test]
fn success_needs_the_last_brightness() {
    let mut leds: HashMap<String, Led> = HashMap::new();
    leds.insert("a".into(), led("red green blue", "255"));
    let mut b: Led = led("red green blue", "255");
    b.level_fails = true;
    leds.insert("b".into(), b);
    let run: ApplyRun = backend(&["a", "b"]).apply(&enabled("FFFFFF", 100)).unwrap();
    let (result, requests, _) = drive(run, &mut leds);
    assert_eq!(
        result,
        Err(ApplyError::Write {
            target: "b".into(),
            attribute: Attribute::Brightness,
            cause: "cannot write level".into(),
        })
    );
    assert_eq!(
        &requests[requests.len() - 3..],
        &[Request::WriteBrightness(1, "255".into()), Request::BlankAll, Request::Finish]
    );
    assert_eq!(text(&leds, "a", "brightness"), "0");
    assert_eq!(text(&leds, "b", "brightness"), "0");
}

#[test]
fn applying_twice_leaves_the_same_values() {
    let mut leds: HashMap<String, Led> = HashMap::new();
    leds.insert("a".into(), led("blue green red", "255"));
    leds.insert("b".into(), led("red green blue", "511"));
    let backend: MulticolorBackend = backend(&["a", "b"]);
    let (first, _, first_writes) = drive(backend.apply(&enabled("12AB34", 60)).unwrap(), &mut leds);
    let after_first: Vec<(String, String)> = ["a", "b"]
        .iter()
        .map(|name| (text(&leds, name, "multi_intensity"), text(&leds, name, "brightness")))
        .collect();
    let (second, _, second_writes) = drive(backend.apply(&enabled("12AB34", 60)).unwrap(), &mut leds);
    let after_second: Vec<(String, String)> = ["a", "b"]
        .iter()
        .map(|name| (text(&leds, name, "multi_intensity"), text(&leds, name, "brightness")))
        .collect();
    assert_eq!(first, Ok(()));
    assert_eq!(second, Ok(()));
    assert_eq!(first_writes, second_writes);
    assert_eq!(after_first, after_second);
}

#[test]
fn a_malformed_colour_lights_nothing() {
    let mut leds: HashMap<String, Led> = HashMap::new();
    leds.insert("a".into(), led("red green blue", "255"));
    let run: ApplyRun = backend(&["a"]).apply(&enabled("red", 25)).unwrap();
    let (result, _, _) = drive(run, &mut leds);
    assert_eq!(result, Ok(()));
    assert_eq!(text(&leds, "a", "multi_intensity"), "0 0 0");
    assert_eq!(text(&leds, "a", "brightness"), "64");
}
