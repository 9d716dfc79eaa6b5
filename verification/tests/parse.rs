use overlayd::parse::parse_brightness_level;
use overlayd::parse::parse_i64_decimal;
use overlayd::parse::parse_muted;
use overlayd::parse::parse_volume_level;

#[test]
fn decimal_parses_plain_signed_and_plus() {
    assert_eq!(parse_i64_decimal(b"50"), Some(50));
    assert_eq!(parse_i64_decimal(b"0"), Some(0));
    assert_eq!(parse_i64_decimal(b"-3"), Some(-3));
    assert_eq!(parse_i64_decimal(b"+7"), Some(7));
    assert_eq!(parse_i64_decimal(b"007"), Some(7));
}

#[test]
fn decimal_rejects_empty_signs_and_junk() {
    assert_eq!(parse_i64_decimal(b""), None);
    assert_eq!(parse_i64_decimal(b"-"), None);
    assert_eq!(parse_i64_decimal(b"+"), None);
    assert_eq!(parse_i64_decimal(b"4a"), None);
    assert_eq!(parse_i64_decimal(b"--5"), None);
    assert_eq!(parse_i64_decimal(b" 5"), None);
}

#[test]
fn decimal_handles_the_64_bit_edges() {
    assert_eq!(parse_i64_decimal(b"9223372036854775807"), Some(i64::MAX));
    assert_eq!(parse_i64_decimal(b"-9223372036854775808"), Some(i64::MIN));
    assert_eq!(parse_i64_decimal(b"9223372036854775808"), None);
    assert_eq!(parse_i64_decimal(b"-9223372036854775809"), None);
    // past even the unsigned accumulator
    assert_eq!(parse_i64_decimal(b"18446744073709551616"), None);
    assert_eq!(parse_i64_decimal(b"99999999999999999999999999"), None);
}

#[test]
fn brightness_level_reads_the_fourth_field() {
    // machine-readable status: device,class,current,percent,max
    assert_eq!(parse_brightness_level(b"intel_backlight,backlight,4437,50%,8853"), Some(50));
    assert_eq!(parse_brightness_level(b"intel_backlight,backlight,8853,100%,8853"), Some(100));
    assert_eq!(parse_brightness_level(b"intel_backlight,backlight,0,0%,8853"), Some(0));
}

#[test]
fn brightness_level_strips_every_percent_sign() {
    assert_eq!(parse_brightness_level(b"dev,cls,1,5%0,9"), Some(50));
}

#[test]
fn brightness_level_rejects_missing_or_malformed_field() {
    assert_eq!(parse_brightness_level(b"intel_backlight,backlight"), None);
    assert_eq!(parse_brightness_level(b""), None);
    assert_eq!(parse_brightness_level(b"dev,cls,1,high,9"), None);
    assert_eq!(parse_brightness_level(b"dev,cls,1,%,9"), None);
}

#[test]
fn volume_level_reads_the_fifth_word_of_the_volume_line() {
    let listing = b"Sink #56\n\tState: RUNNING\n\tMute: no\n\tVolume: front-left: 32768 /  50% / -18.06 dB,   front-right: 32768 /  50% / -18.06 dB\n";
    assert_eq!(parse_volume_level(listing), Some(50));
}

#[test]
fn volume_level_uses_the_topmost_volume_line() {
    let listing = b"Volume: a: 1 / 42% / x\nVolume: a: 1 / 99% / x\n";
    assert_eq!(parse_volume_level(listing), Some(42));
}

#[test]
fn volume_level_defaults_to_zero_without_a_volume_line() {
    assert_eq!(parse_volume_level(b"Sink #56\n\tMute: no\n"), Some(0));
    assert_eq!(parse_volume_level(b""), Some(0));
}

#[test]
fn volume_level_rejects_a_short_or_malformed_volume_line() {
    assert_eq!(parse_volume_level(b"Volume: too short\n"), None);
    assert_eq!(parse_volume_level(b"Volume: a: 1 / loud / x\n"), None);
}

#[test]
fn muted_follows_the_topmost_mute_line() {
    assert!(parse_muted(b"Sink #56\n\tMute: yes\n\tVolume: x\n"));
    assert!(!parse_muted(b"Sink #56\n\tMute: no\n\tVolume: x\n"));
    assert!(!parse_muted(b"\tMute: no\n\tMute: yes\n"));
    assert!(parse_muted(b"\tMute: yes\n\tMute: no\n"));
}

#[test]
fn muted_defaults_to_false_without_a_mute_line() {
    assert!(!parse_muted(b""));
    assert!(!parse_muted(b"Sink #56\nVolume: yes\n"));
}
