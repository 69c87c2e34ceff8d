use faces::playback::{is_looping, Extra};

fn extra(name: &str, value: Option<bool>) -> Extra {
    Extra {
        name: name.to_owned(),
        value,
    }
}

#[test]
fn looping_reads_the_loop_extra_and_defaults_to_on() {
    assert!(!is_looping(&[extra("loop", Some(false))]));
    assert!(is_looping(&[extra("loop", Some(true))]));
    assert!(is_looping(&[]));
    assert!(is_looping(&[extra("loop", None)]));
}

#[test]
fn only_the_first_loop_setting_counts() {
    assert!(!is_looping(&[extra("gain", Some(true)), extra("loop", Some(false)), extra("loop", Some(true))]));
}
