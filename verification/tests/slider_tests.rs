use deejx::audio::{get_controller, AudioControl, VolumeCommand};
use deejx::config::Mapping;
use deejx::sliders::{iter_sliders, updates_are_mapped, STEP_SIZE};

fn master(index: u32) -> Mapping {
    Mapping::Master { pin: 35, inverted: false, master: index }
}

fn app(name: &str) -> Mapping {
    Mapping::App { pin: 34, inverted: false, app: name.to_string() }
}

fn describe(c: &VolumeCommand) -> String {
    match c {
        VolumeCommand::MasterVolume { device_index, volume } => format!("master {} {}", device_index, volume),
        VolumeCommand::DeviceVolumeByName { name, volume } => format!("device {} {}", name, volume),
        VolumeCommand::AppVolumeByIndex { app_index, volume } => format!("app# {} {}", app_index, volume),
        VolumeCommand::AppVolumeByName { name, volume } => format!("app {} {}", name, volume),
    }
}

#[test]
fn first_packet_sends_nothing() {
    let mut controller = get_controller();
    let mut previous = Vec::new();
    let mappings = vec![master(0), app("spotify")];
    let unsupported = iter_sliders(vec![100, 2000], &mut previous, &mut *controller, &mappings);
    assert!(unsupported.is_empty());
    assert_eq!(previous, vec![100, 2000]);
    assert!(controller.take_commands().is_empty());
}

#[test]
fn large_move_is_passed_on() {
    let mut controller = get_controller();
    let mut previous = vec![100, 2000];
    let mappings = vec![master(3), app("spotify")];
    iter_sliders(vec![100 + STEP_SIZE as u16, 1990], &mut previous, &mut *controller, &mappings);
    assert_eq!(previous, vec![164, 2000]);
    let cmds: Vec<String> = controller.take_commands().iter().map(describe).collect();
    assert_eq!(cmds, vec!["master 3 164".to_string()]);
}

#[test]
fn small_move_is_held_back() {
    let mut controller = get_controller();
    let mut previous = vec![500];
    iter_sliders(vec![563], &mut previous, &mut *controller, &[master(0)]);
    assert_eq!(previous, vec![500]);
    assert!(controller.take_commands().is_empty());
    iter_sliders(vec![437], &mut previous, &mut *controller, &[master(0)]);
    assert!(controller.take_commands().is_empty());
    iter_sliders(vec![436], &mut previous, &mut *controller, &[master(0)]);
    assert_eq!(previous, vec![436]);
    assert_eq!(controller.take_commands().len(), 1);
}

#[test]
fn range_ends_are_passed_on() {
    let mut controller = get_controller();
    let mut previous = vec![10, 2040];
    let mappings = vec![master(0), app("game")];
    iter_sliders(vec![0, 2047], &mut previous, &mut *controller, &mappings);
    assert_eq!(previous, vec![0, 2047]);
    let cmds: Vec<String> = controller.take_commands().iter().map(describe).collect();
    assert_eq!(cmds, vec!["master 0 0".to_string(), "app game 2047".to_string()]);
    // 2046 is inside the range: a move of 1 from 2047 is held back
    iter_sliders(vec![0, 2046], &mut previous, &mut *controller, &mappings);
    assert!(controller.take_commands().is_empty());
    assert_eq!(previous, vec![0, 2047]);
}

#[test]
fn repeated_packet_is_silent() {
    let mut controller = get_controller();
    let mut previous = vec![0, 0];
    let mappings = vec![master(0), master(1)];
    iter_sliders(vec![1000, 2047], &mut previous, &mut *controller, &mappings);
    assert_eq!(controller.take_commands().len(), 2);
    let before = previous.clone();
    iter_sliders(vec![1000, 2047], &mut previous, &mut *controller, &mappings);
    assert!(controller.take_commands().is_empty());
    assert_eq!(previous, before);
}

#[test]
fn device_mapping_names_the_device() {
    let mut controller = get_controller();
    let mut previous = vec![0];
    let mappings = vec![Mapping::Device { pin: 1, inverted: false, device: "headset".to_string() }];
    iter_sliders(vec![700], &mut previous, &mut *controller, &mappings);
    let cmds: Vec<String> = controller.take_commands().iter().map(describe).collect();
    assert_eq!(cmds, vec!["device headset 700".to_string()]);
}

#[test]
fn midi_and_unmapped_are_reported() {
    let mut controller = get_controller();
    let mut previous = vec![0, 0, 0];
    let mappings = vec![
        Mapping::Midi { pin: 33, inverted: false, midi: 10 },
        master(2),
        Mapping::Unmapped { pin: 32, inverted: false },
    ];
    let unsupported = iter_sliders(vec![900, 900, 900], &mut previous, &mut *controller, &mappings);
    assert_eq!(unsupported, vec![0, 2]);
    assert_eq!(previous, vec![900, 900, 900]);
    let cmds: Vec<String> = controller.take_commands().iter().map(describe).collect();
    assert_eq!(cmds, vec!["master 2 900".to_string()]);
}

#[test]
fn unmapped_moves_are_detected_before_the_call() {
    assert!(updates_are_mapped(&[0, 900], &[0, 0], 1) == false);
    assert!(updates_are_mapped(&[900, 0], &[0, 0], 1));
    assert!(updates_are_mapped(&[900, 900], &[0], 0));
    assert!(updates_are_mapped(&[900, 900], &[0, 0], 2));
}

#[test]
fn controller_name_is_libpulse() {
    let controller = get_controller();
    assert_eq!(controller.name(), "libpulse");
}

#[test]
fn controller_queues_in_order() {
    let mut controller = get_controller();
    controller.set_app_volume_by_index(4, 10);
    controller.set_master_volume(1, 20);
    controller.set_app_volume_by_name("discord", 30);
    controller.set_master_volume_by_name("speakers", 40);
    let cmds: Vec<String> = controller.take_commands().iter().map(describe).collect();
    assert_eq!(
        cmds,
        vec![
            "app# 4 10".to_string(),
            "master 1 20".to_string(),
            "app discord 30".to_string(),
            "device speakers 40".to_string()
        ]
    );
    assert!(controller.take_commands().is_empty());
}
