use overlayd::command::Command;
use overlayd::command::CommandKind;
use overlayd::coordinator::Coordinator;
use overlayd::display::icon_name_from_brightness;
use overlayd::display::icon_name_from_volume;
use overlayd::display::percent_label;

#[test]
fn brightness_icon_thresholds() {
    assert_eq!(icon_name_from_brightness(0), "display-brightness-low-symbolic");
    assert_eq!(icon_name_from_brightness(50), "display-brightness-low-symbolic");
    assert_eq!(icon_name_from_brightness(51), "display-brightness-high-symbolic");
    assert_eq!(icon_name_from_brightness(100), "display-brightness-high-symbolic");
}

#[test]
fn brightness_icon_out_of_scale_falls_back_to_low() {
    assert_eq!(icon_name_from_brightness(-1), "display-brightness-low-symbolic");
    assert_eq!(icon_name_from_brightness(101), "display-brightness-low-symbolic");
}

#[test]
fn volume_icon_thresholds() {
    assert_eq!(icon_name_from_volume(0, false), "audio-volume-low");
    assert_eq!(icon_name_from_volume(30, false), "audio-volume-low");
    assert_eq!(icon_name_from_volume(31, false), "audio-volume-medium");
    assert_eq!(icon_name_from_volume(50, false), "audio-volume-medium");
    assert_eq!(icon_name_from_volume(51, false), "audio-volume-high");
    assert_eq!(icon_name_from_volume(100, false), "audio-volume-high");
}

#[test]
fn volume_icon_out_of_scale_falls_back_to_muted() {
    assert_eq!(icon_name_from_volume(-1, false), "audio-volume-muted");
    assert_eq!(icon_name_from_volume(101, false), "audio-volume-muted");
}

#[test]
fn boundary_levels_map_to_valid_icons() {
    // a reading of 0 or 100 must still land inside the defined tables
    let brightness_names =
        ["display-brightness-low-symbolic", "display-brightness-high-symbolic"];
    let volume_names =
        ["audio-volume-muted", "audio-volume-low", "audio-volume-medium", "audio-volume-high"];
    for level in [0i64, 100] {
        assert!(brightness_names.contains(&icon_name_from_brightness(level)));
        for muted in [false, true] {
            assert!(volume_names.contains(&icon_name_from_volume(level, muted)));
        }
    }
}

#[test]
fn displayed_state_is_idempotent_for_one_reading() {
    // querying the displayed state twice with no intervening command
    // re-reads the same level, so the derivation must agree with itself
    for level in [0i64, 7, 50, 51, 100] {
        assert_eq!(icon_name_from_brightness(level), icon_name_from_brightness(level));
        assert_eq!(icon_name_from_volume(level, false), icon_name_from_volume(level, false));
        assert_eq!(icon_name_from_volume(level, true), icon_name_from_volume(level, true));
    }
}

#[test]
fn percent_label_writes_level_and_percent_sign() {
    assert_eq!(percent_label(0), b"0%".to_vec());
    assert_eq!(percent_label(7), b"7%".to_vec());
    assert_eq!(percent_label(50), b"50%".to_vec());
    assert_eq!(percent_label(100), b"100%".to_vec());
    assert_eq!(percent_label(-7), b"-7%".to_vec());
    assert_eq!(
        percent_label(i64::MIN),
        b"-9223372036854775808%".to_vec()
    );
}

#[test]
fn toggle_mute_flips_and_switches_to_muted_icon() {
    // the mixer's mute flag flips, and whatever the level reads, the
    // overlay switches to the muted icon
    let mut muted = false;
    let mut c = Coordinator::new();
    let shown = c.on_command_received(Command::new(CommandKind::ToggleMute, 0));
    assert!(shown);
    muted = !muted;
    assert!(muted);
    for level in [0i64, 40, 72, 100] {
        assert_eq!(icon_name_from_volume(level, muted), "audio-volume-muted");
    }
}
