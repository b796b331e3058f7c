use wi_tui::network::{active_ssid, parse_lines, parse_signal, split_fields, Network};

fn lines(raw: &[&str]) -> Vec<String> {
    raw.iter().map(|s| s.to_string()).collect()
}

#[test]
fn line_with_five_fields_gives_a_record() {
    let n = Network::from_nmcli_line("CafeWifi:45:WPA2:54Mbit/s:▂▄", "").unwrap();
    assert_eq!(n.ssid, "CafeWifi");
    assert_eq!(n.signal, 45);
    assert_eq!(n.security, "WPA2");
    assert_eq!(n.rate, "54Mbit/s");
    assert_eq!(n.bars, "▂▄");
    assert!(!n.is_connected);
}

#[test]
fn line_with_empty_name_is_rejected() {
    assert!(Network::from_nmcli_line(":80:WPA2:54Mbit/s:▂▄  ", "").is_none());
}

#[test]
fn hidden_network_is_rejected_even_when_no_network_is_active() {
    // the empty active name must not turn a nameless line into a record
    assert!(Network::from_nmcli_line(":80:WPA2:54Mbit/s:▂▄", "").is_none());
}

#[test]
fn line_with_four_fields_is_rejected() {
    assert!(Network::from_nmcli_line("CafeWifi:45:WPA2:54Mbit/s", "").is_none());
    assert!(Network::from_nmcli_line("CafeWifi", "").is_none());
    assert!(Network::from_nmcli_line("", "").is_none());
    assert!(Network::from_nmcli_line("::::", "").is_none());
}

#[test]
fn empty_trailing_fields_still_count() {
    let n = Network::from_nmcli_line("Open::::", "").unwrap();
    assert_eq!(n.ssid, "Open");
    assert_eq!(n.signal, 0);
    assert_eq!(n.security, "");
    assert_eq!(n.rate, "");
    assert_eq!(n.bars, "");
}

#[test]
fn fields_after_the_fifth_are_ignored() {
    let line = "Home:72:WPA3:130Mbit/s:▂▄▆_:yes:extra";
    let n = Network::from_nmcli_line(line, "Home").unwrap();
    assert_eq!(n.ssid, "Home");
    assert_eq!(n.signal, 72);
    assert_eq!(n.bars, "▂▄▆_");
    assert!(n.is_connected);
}

#[test]
fn connected_only_when_the_name_is_the_active_one() {
    let line = "Home:72:WPA3:130Mbit/s:▂▄▆_";
    assert!(Network::from_nmcli_line(line, "Home").unwrap().is_connected);
    assert!(!Network::from_nmcli_line(line, "Home2").unwrap().is_connected);
    assert!(!Network::from_nmcli_line(line, "home").unwrap().is_connected);
    assert!(!Network::from_nmcli_line(line, "Hom").unwrap().is_connected);
    assert!(!Network::from_nmcli_line(line, "").unwrap().is_connected);
}

#[test]
fn split_fields_splits_at_every_colon() {
    assert_eq!(split_fields(""), vec![""]);
    assert_eq!(split_fields("abc"), vec!["abc"]);
    assert_eq!(split_fields(":"), vec!["", ""]);
    assert_eq!(split_fields("a:b"), vec!["a", "b"]);
    assert_eq!(split_fields("a::b:"), vec!["a", "", "b", ""]);
    assert_eq!(split_fields("▂▄:é:z"), vec!["▂▄", "é", "z"]);
}

#[test]
fn split_fields_agrees_with_the_standard_split() {
    for line in ["", ":", "a", "a:b:c", "::a::", "CafeWifi:45:WPA2:54Mbit/s:▂▄", "x:▂:y"] {
        let expected: Vec<String> = line.split(':').map(|s| s.to_string()).collect();
        assert_eq!(split_fields(line), expected);
    }
}

#[test]
fn signal_text_is_read_as_a_number() {
    assert_eq!(parse_signal("0"), 0);
    assert_eq!(parse_signal("7"), 7);
    assert_eq!(parse_signal("45"), 45);
    assert_eq!(parse_signal("99"), 99);
    assert_eq!(parse_signal("100"), 100);
    assert_eq!(parse_signal("007"), 7);
    assert_eq!(parse_signal("0000000000000000000000100"), 100);
}

#[test]
fn signal_text_that_is_no_number_counts_as_zero() {
    assert_eq!(parse_signal(""), 0);
    assert_eq!(parse_signal("abc"), 0);
    assert_eq!(parse_signal("4 5"), 0);
    assert_eq!(parse_signal("45%"), 0);
    assert_eq!(parse_signal("-5"), 0);
    assert_eq!(parse_signal("+5"), 0);
    assert_eq!(parse_signal(" 45"), 0);
    assert_eq!(parse_signal("４５"), 0);
}

#[test]
fn signal_above_the_scale_counts_as_zero() {
    assert_eq!(parse_signal("101"), 0);
    assert_eq!(parse_signal("110"), 0);
    assert_eq!(parse_signal("255"), 0);
    assert_eq!(parse_signal("256"), 0);
    assert_eq!(parse_signal("1000"), 0);
    assert_eq!(parse_signal("99999999999999999999999999"), 0);
    assert_eq!(parse_signal("1000x"), 0);
}

#[test]
fn non_numeric_signal_gives_a_record_with_signal_zero() {
    let n = Network::from_nmcli_line("Odd:strong:WPA2:54Mbit/s:▂▄", "").unwrap();
    assert_eq!(n.signal, 0);
}

#[test]
fn active_name_is_taken_from_the_first_line_ending_in_yes() {
    assert_eq!(active_ssid(&lines(&["A:no", "B:yes", "C:yes"])), Some("B".to_string()));
    assert_eq!(active_ssid(&lines(&["Home:yes"])), Some("Home".to_string()));
    assert_eq!(active_ssid(&lines(&["a:b:yes"])), Some("a:b".to_string()));
    assert_eq!(active_ssid(&lines(&[":yes"])), Some("".to_string()));
    assert_eq!(active_ssid(&lines(&["▂▄:yes"])), Some("▂▄".to_string()));
}

#[test]
fn no_active_name_without_a_line_ending_in_yes() {
    assert_eq!(active_ssid(&lines(&[])), None);
    assert_eq!(active_ssid(&lines(&["A:no", "B:no"])), None);
    assert_eq!(active_ssid(&lines(&["yes", "A:yes ", "A:Yes", "Ayes"])), None);
}

#[test]
fn parse_lines_drops_malformed_lines_and_keeps_order() {
    let got = parse_lines(
        &lines(&[
            "B:20:WPA2:54Mbit/s:▂___",
            ":80:WPA2:54Mbit/s:▂▄▆█",
            "broken",
            "A:90:WPA3:270Mbit/s:▂▄▆█",
            "B:40:WPA2:54Mbit/s:▂▄__",
        ]),
        "A",
    );
    let names: Vec<&str> = got.iter().map(|n| n.ssid.as_str()).collect();
    let signals: Vec<u8> = got.iter().map(|n| n.signal).collect();
    let connected: Vec<bool> = got.iter().map(|n| n.is_connected).collect();
    assert_eq!(names, vec!["B", "A", "B"]);
    assert_eq!(signals, vec![20, 90, 40]);
    assert_eq!(connected, vec![false, true, false]);
}

#[test]
fn parse_lines_of_nothing_is_nothing() {
    assert!(parse_lines(&lines(&[]), "A").is_empty());
    assert!(parse_lines(&lines(&["", "x", ":1:2:3:4"]), "").is_empty());
}

#[test]
fn clone_keeps_every_field() {
    let n = Network::from_nmcli_line("Home:72:WPA3:130Mbit/s:▂▄▆_", "Home").unwrap();
    let c = n.clone();
    assert_eq!(c.ssid, n.ssid);
    assert_eq!(c.signal, n.signal);
    assert_eq!(c.security, n.security);
    assert_eq!(c.rate, n.rate);
    assert_eq!(c.bars, n.bars);
    assert_eq!(c.is_connected, n.is_connected);
}
