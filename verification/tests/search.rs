use jerkmon::devices::{find_mouse_devices, is_mouse_name, parse_listing, probed_devices, DeviceSearch};
use jerkmon::evdev::MonitorAction;
use jerkmon::inotify::DeviceChange;
use jerkmon::registry::{start_monitors, ActiveDevices};
use jerkmon::text::{
    after_prefix, chars_of, has_prefix, has_text, next_line, next_word, push_decimal, same_text, white_space,
    without_quotes,
};

const LISTING: &str = "I: Bus=0003 Vendor=046d Product=c08b Version=0111\n\
N: Name=\"Logitech G502 HERO Gaming Mouse\"\n\
P: Phys=usb-0000:00:14.0-1/input0\n\
H: Handlers=mouse0 event3 \n\
B: EV=17\n\
\n\
I: Bus=0011 Vendor=0001 Product=0001 Version=ab41\n\
N: Name=\"AT Translated Set 2 keyboard\"\n\
H: Handlers=sysrq kbd event0 leds \n\
\n\
I: Bus=0003 Vendor=1532 Product=0084 Version=0111\n\
N: Name=\"RAZER DeathAdder V2\"\n\
H: Handlers=sysrq kbd event5 mouse1 event6 \n";

fn strings(items: &[&str]) -> Vec<String> {
    items.iter().map(|s| s.to_string()).collect()
}

#[test]
fn mice_are_found_in_the_listing() {
    let expected = strings(&["/dev/input/event3", "/dev/input/event5", "/dev/input/event6"]);
    assert_eq!(parse_listing(LISTING), expected);
    assert_eq!(find_mouse_devices(Some(LISTING)), DeviceSearch::Listed(expected));
}

#[test]
fn names_match_in_any_case() {
    for name in ["mouse", "MOUSE", "my LoGiTeCh thing", "Razer"] {
        let listing = format!("I: x\nN: Name=\"{}\"\nH: Handlers=event9\n", name);
        assert_eq!(parse_listing(&listing), strings(&["/dev/input/event9"]), "{}", name);
    }
    let listing = "I: x\nN: Name=\"Trackpad\"\nH: Handlers=event9\n";
    assert!(parse_listing(listing).is_empty());
}

#[test]
fn another_device_begins_anew() {
    let listing = "I: a\nN: Name=\"mouse\"\nI: b\nH: Handlers=event1\n";
    assert!(parse_listing(listing).is_empty());
}

#[test]
fn handlers_before_the_name_do_not_count() {
    let listing = "I: a\nH: Handlers=event1\nN: Name=\"mouse\"\nH: Handlers=event2\n";
    assert_eq!(parse_listing(listing), strings(&["/dev/input/event2"]));
}

#[test]
fn listings_apart_are_read_apart() {
    let first = "I: a\nN: Name=\"mouse\"\nH: Handlers=event1\n";
    let second = "I: b\nN: Name=\"keyboard\"\nH: Handlers=event2\nI: c\nN: Name=\"razer\"\nH: Handlers=event3";
    let mut joined = parse_listing(first);
    joined.extend(parse_listing(second));
    assert_eq!(parse_listing(&format!("{}{}", first, second)), joined);
    assert_eq!(joined, strings(&["/dev/input/event1", "/dev/input/event3"]));
}

#[test]
fn line_endings_of_either_kind_are_read() {
    let listing = "I: a\r\nN: Name=\"mouse\"\r\nH: Handlers=event1\r\n";
    assert_eq!(parse_listing(listing), strings(&["/dev/input/event1"]));
}

#[test]
fn without_a_listed_mouse_paths_are_tried() {
    for listing in [None, Some(""), Some("I: a\nN: Name=\"keyboard\"\nH: Handlers=event2\n")] {
        match find_mouse_devices(listing) {
            DeviceSearch::Probe(paths) => {
                let expected: Vec<String> = (0..32).map(|i| format!("/dev/input/event{}", i)).collect();
                assert_eq!(paths, expected);
            }
            DeviceSearch::Listed(_) => panic!("no mouse is listed"),
        }
    }
}

#[test]
fn probed_mice_are_kept() {
    let paths = strings(&["a", "b", "c", "d"]);
    assert_eq!(probed_devices(&paths, &vec![true, false, false, true]), strings(&["a", "d"]));
    assert_eq!(probed_devices(&paths, &vec![false, true]), strings(&["b"]));
    assert!(probed_devices(&paths, &vec![]).is_empty());
}

#[test]
fn lowered_names_are_recognised() {
    assert!(is_mouse_name("usb optical mouse"));
    assert!(is_mouse_name("razer viper"));
    assert!(is_mouse_name("logitech"));
    assert!(!is_mouse_name("mous e"));
    assert!(!is_mouse_name("MOUSE"));
    assert!(!is_mouse_name(""));
}

#[test]
fn white_space_is_that_of_the_standard_library() {
    for n in 0..=0x10_ffffu32 {
        if let Some(c) = char::from_u32(n) {
            assert_eq!(white_space(c), c.is_whitespace(), "{:x}", n);
        }
    }
}

#[test]
fn lines_are_those_of_the_standard_library() {
    for text in ["", "\n", "a", "a\n", "a\nb", "a\r\nb\r\n", "a\r", "\r\n\r", "x\r\r\ny\n\nz", "é\nö"] {
        let chars = chars_of(text);
        let mut lines: Vec<String> = Vec::new();
        let mut pos = 0;
        while pos < chars.len() {
            let (line, next) = next_line(&chars, pos);
            lines.push(line.iter().collect());
            pos = next;
        }
        let expected: Vec<String> = text.lines().map(|l| l.to_string()).collect();
        assert_eq!(lines, expected, "{:?}", text);
    }
}

#[test]
fn words_are_those_of_the_standard_library() {
    for text in ["", "  ", "a", " a", "a ", "mouse0 event3 ", "\ta\u{a0}b\u{3000}\u{2003}c", "ab  cd"] {
        let chars = chars_of(text);
        let mut words: Vec<String> = Vec::new();
        let mut pos = 0;
        while let Some((word, end)) = next_word(&chars, pos) {
            words.push(word.iter().collect());
            pos = end;
        }
        let expected: Vec<String> = text.split_whitespace().map(|w| w.to_string()).collect();
        assert_eq!(words, expected, "{:?}", text);
    }
}

#[test]
fn quotes_are_trimmed_at_both_ends() {
    for text in ["", "\"", "\"\"", "\"a\"", "a", "\"\"a\"b\"\"\"", "a\""] {
        let chars = chars_of(text);
        let inner: String = without_quotes(&chars).iter().collect();
        assert_eq!(inner, text.trim_matches('"'), "{:?}", text);
    }
}

#[test]
fn parts_of_text_are_found() {
    let chars = chars_of("event12");
    assert!(has_prefix(&chars, "event"));
    assert!(has_prefix(&chars, ""));
    assert!(!has_prefix(&chars, "event123"));
    assert!(!has_prefix(&chars, "vent"));
    assert!(has_text(&chars, "vent"));
    assert!(has_text(&chars, ""));
    assert!(has_text(&chars, "12"));
    assert!(!has_text(&chars, "21"));
    assert_eq!(after_prefix(&chars, "event"), Some(&['1', '2'][..]));
    assert_eq!(after_prefix(&chars, "x"), None);
    assert!(same_text("abc", "abc"));
    assert!(!same_text("abc", "ab"));
    assert!(!same_text("ab", "abc"));
}

#[test]
fn numbers_are_written_in_decimal() {
    for n in [0u32, 9, 10, 31, 100, 4_294_967_295] {
        let mut s = String::from("n");
        push_decimal(&mut s, n);
        assert_eq!(s, format!("n{}", n));
    }
}

#[test]
fn a_device_gets_one_monitor() {
    let mut active = ActiveDevices::new();
    let path = "/dev/input/event4".to_string();
    assert!(!active.contains(&path));
    assert!(!active.enroll(&path, false));
    assert!(!active.contains(&path));
    assert!(active.enroll(&path, true));
    assert!(active.contains(&path));
    assert!(!active.enroll(&path, true));
    assert!(active.remove(&path));
    assert!(!active.remove(&path));
    assert!(active.enroll(&path, true));
}

#[test]
fn other_devices_stay_when_one_goes() {
    let mut active = ActiveDevices::new();
    let paths = strings(&["a", "b", "c"]);
    for path in &paths {
        assert!(active.insert(path));
    }
    assert!(active.remove(&paths[1]));
    assert!(active.contains(&paths[0]));
    assert!(!active.contains(&paths[1]));
    assert!(active.contains(&paths[2]));
}

#[test]
fn devices_found_at_the_start_are_registered() {
    let mut active = ActiveDevices::new();
    let found = strings(&["a", "b", "a"]);
    assert_eq!(start_monitors(&mut active, found.clone()), found);
    assert!(active.contains(&found[0]));
    assert!(active.contains(&found[1]));
    assert!(active.remove(&found[0]));
    assert!(!active.contains(&found[0]));
}

#[test]
fn a_listing_cut_between_devices_lists_the_same() {
    let mut joined = 0;
    for (at, _) in LISTING.match_indices("I: ") {
        let mut parts = parse_listing(&LISTING[..at]);
        parts.extend(parse_listing(&LISTING[at..]));
        assert_eq!(parts, parse_listing(LISTING));
        joined += 1;
    }
    assert_eq!(joined, 3);
}

#[test]
fn monitors_start_at_most_once_more_than_they_are_taken_out() {
    let mut active = ActiveDevices::new();
    let path = "/dev/input/event7".to_string();
    let mut started = 0;
    let mut taken_out = 0;
    for step in 0..40 {
        if step % 3 == 0 {
            if active.remove(&path) {
                taken_out += 1;
            }
        } else if active.enroll(&path, step % 5 != 0) {
            started += 1;
        }
        assert!(started <= taken_out + 1);
    }
    assert!(started > 5);
}

#[test]
fn a_monitor_that_ends_takes_its_device_out() {
    let paths = strings(&["/dev/input/event1", "/dev/input/event2"]);
    for last in [MonitorAction::Finish, MonitorAction::Fail] {
        let mut active = ActiveDevices::new();
        start_monitors(&mut active, paths.clone());
        assert!(active.monitor_ended(&paths[0], last));
        assert!(!active.contains(&paths[0]));
        assert!(active.contains(&paths[1]));
        assert!(active.monitor_ended(&paths[0], last));
        assert!(active.contains(&paths[1]));
    }
}

#[test]
fn a_device_that_cannot_be_opened_stays_in_the_set() {
    let paths = strings(&["/dev/input/event1"]);
    let mut active = ActiveDevices::new();
    start_monitors(&mut active, paths.clone());
    for last in [MonitorAction::Abandon, MonitorAction::Select, MonitorAction::Report(1, 2)] {
        assert!(!active.monitor_ended(&paths[0], last));
        assert!(active.contains(&paths[0]));
    }
}

#[test]
fn only_a_mouse_that_appears_gets_a_monitor() {
    let path = "/dev/input/event1".to_string();
    let mut active = ActiveDevices::new();
    let appeared = DeviceChange::Appeared(path.clone());
    assert_eq!(active.on_change(&appeared, false), None);
    assert_eq!(active.on_change(&DeviceChange::Ignored, true), None);
    assert_eq!(active.on_change(&DeviceChange::Removed(path.clone()), true), None);
    assert!(!active.contains(&path));
    assert_eq!(active.on_change(&appeared, true), Some(path.clone()));
    assert!(active.contains(&path));
    assert_eq!(active.on_change(&appeared, true), None);
    assert_eq!(active.on_change(&DeviceChange::Removed(path.clone()), true), None);
    assert!(active.contains(&path));
}
