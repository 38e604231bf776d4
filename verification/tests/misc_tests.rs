use deejx::adc::{stable_reading, ADC_SAMPLES};
use deejx::audio::app_name_matches;
use deejx::config::{latest_read, Config, Mapping, Quality};

fn config(serial: &str, baud: u32, timeout: u64) -> Config {
    Config {
        mappings: vec![Mapping::Master { pin: 35, inverted: false, master: 0 }],
        serial: serial.to_string(),
        baud_rate: baud,
        timeout,
        quality: Quality::Default,
    }
}

#[test]
fn stable_reading_of_full_scale() {
    assert_eq!(stable_reading(&[4095u16; ADC_SAMPLES]), 2047);
}

#[test]
fn stable_reading_rounds_down() {
    let mut samples = vec![0u16; ADC_SAMPLES];
    samples[0] = 255;
    assert_eq!(stable_reading(&samples), 0);
    let samples: Vec<u16> = (0..ADC_SAMPLES as u16).collect();
    // sum = 32640, mean = 127, halved = 63
    assert_eq!(stable_reading(&samples), 63);
    assert_eq!(stable_reading(&[65535u16; ADC_SAMPLES]), 32767);
}

#[test]
fn app_names_match_case_insensitively() {
    assert!(app_name_matches(&Some("Spotify".to_string()), "spotify"));
    assert!(app_name_matches(&Some("Firefox Web Browser".to_string()), "web"));
    assert!(!app_name_matches(&Some("Discord".to_string()), "spotify"));
    assert!(!app_name_matches(&None, "spotify"));
    assert!(app_name_matches(&Some("anything".to_string()), ""));
    // the text itself is not lowercased
    assert!(!app_name_matches(&Some("Spotify".to_string()), "Spotify"));
    assert!(app_name_matches(&Some("ÄPFEL".to_string()), "äpf"));
}

#[test]
fn quality_default() {
    assert_eq!(Quality::default(), Quality::Default);
}

#[test]
fn serial_change_detection() {
    let a = config("/dev/ttyUSB0", 9600, 1000);
    assert!(!a.serial_changed(&a.clone()));
    assert!(config("/dev/ttyUSB1", 9600, 1000).serial_changed(&a));
    assert!(config("/dev/ttyUSB0", 115200, 1000).serial_changed(&a));
    assert!(config("/dev/ttyUSB0", 9600, 20000).serial_changed(&a));
    let mut b = a.clone();
    b.quality = Quality::High;
    b.mappings.clear();
    assert!(!b.serial_changed(&a));
}

#[test]
fn update_takes_last_valid_read() {
    let mut current = config("a", 1, 1);
    let valid = current.update(vec![], false);
    assert!(!valid);
    assert_eq!(current, config("a", 1, 1));

    let valid = current.update(vec![Some(config("b", 2, 2)), None], true);
    assert!(!valid);
    assert_eq!(current, config("b", 2, 2));

    let valid = current.update(vec![None, Some(config("c", 3, 3))], false);
    assert!(valid);
    assert_eq!(current, config("c", 3, 3));

    let valid = current.update(vec![None], true);
    assert!(!valid);
    assert_eq!(current, config("c", 3, 3));
}

#[test]
fn latest_read_replaces_with_every_read() {
    assert_eq!(latest_read(None, vec![]), None);
    assert_eq!(latest_read(Some(config("a", 1, 1)), vec![]), Some(config("a", 1, 1)));
    assert_eq!(latest_read(None, vec![Some(config("a", 1, 1)), None]), None);
    assert_eq!(latest_read(None, vec![None, Some(config("b", 2, 2))]), Some(config("b", 2, 2)));
}
