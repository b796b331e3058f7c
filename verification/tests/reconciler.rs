use wi_tui::app::App;
use wi_tui::inventory::{
    dedup, find_name, find_rank, get_networks, name_lt, ranks_before, reconcile,
};
use wi_tui::network::Network;

fn net(ssid: &str, signal: u8) -> Network {
    Network {
        ssid: ssid.to_string(),
        signal,
        security: "WPA2".to_string(),
        rate: "54Mbit/s".to_string(),
        bars: "▂▄".to_string(),
        is_connected: false,
    }
}

fn tagged(ssid: &str, signal: u8, tag: &str) -> Network {
    let mut n = net(ssid, signal);
    n.security = tag.to_string();
    n
}

fn lines(raw: &[&str]) -> Vec<String> {
    raw.iter().map(|s| s.to_string()).collect()
}

fn summary(list: &[Network]) -> Vec<(String, u8)> {
    list.iter().map(|n| (n.ssid.clone(), n.signal)).collect()
}

fn pairs(raw: &[(&str, u8)]) -> Vec<(String, u8)> {
    raw.iter().map(|(s, v)| (s.to_string(), *v)).collect()
}

#[test]
fn duplicate_name_keeps_the_stronger_signal() {
    let out = reconcile(&vec![net("Cafe", 30), net("Cafe", 70)]);
    assert_eq!(summary(&out), pairs(&[("Cafe", 70)]));
    let out = reconcile(&vec![net("Cafe", 70), net("Cafe", 30)]);
    assert_eq!(summary(&out), pairs(&[("Cafe", 70)]));
    let out = reconcile(&vec![net("Cafe", 70), net("Other", 50), net("Cafe", 30), net("Cafe", 70)]);
    assert_eq!(summary(&out), pairs(&[("Cafe", 70), ("Other", 50)]));
}

#[test]
fn signals_are_compared_as_numbers() {
    // as text "9" would beat "100"
    let out = reconcile(&vec![net("Cafe", 9), net("Cafe", 100)]);
    assert_eq!(summary(&out), pairs(&[("Cafe", 100)]));
    let out = reconcile(&vec![net("A", 9), net("B", 100), net("C", 25)]);
    assert_eq!(summary(&out), pairs(&[("B", 100), ("C", 25), ("A", 9)]));
}

#[test]
fn equal_signals_keep_the_first_record_seen() {
    let out = reconcile(&vec![tagged("Cafe", 50, "first"), tagged("Cafe", 50, "second")]);
    assert_eq!(out.len(), 1);
    assert_eq!(out[0].security, "first");
    let out = dedup(&vec![
        tagged("Cafe", 50, "first"),
        tagged("Cafe", 60, "second"),
        tagged("Cafe", 60, "third"),
        tagged("Cafe", 10, "fourth"),
    ]);
    assert_eq!(out.len(), 1);
    assert_eq!(out[0].security, "second");
    assert_eq!(out[0].signal, 60);
}

#[test]
fn inventory_is_sorted_by_signal_descending() {
    let out = reconcile(&vec![
        net("a", 10),
        net("b", 90),
        net("c", 50),
        net("d", 100),
        net("e", 0),
        net("f", 50),
    ]);
    assert_eq!(
        summary(&out),
        pairs(&[("d", 100), ("b", 90), ("c", 50), ("f", 50), ("a", 10), ("e", 0)])
    );
    for i in 0..out.len() - 1 {
        assert!(out[i].signal >= out[i + 1].signal);
    }
}

#[test]
fn equal_signals_are_listed_by_name() {
    let out = reconcile(&vec![net("zeta", 40), net("Alpha", 40), net("alpha", 40), net("al", 40)]);
    assert_eq!(summary(&out), pairs(&[("Alpha", 40), ("al", 40), ("alpha", 40), ("zeta", 40)]));
}

#[test]
fn reconciling_twice_gives_the_same_list() {
    let scanned = vec![net("x", 5), net("y", 5), net("x", 9), net("w", 70), net("y", 1)];
    let first = reconcile(&scanned);
    let second = reconcile(&scanned);
    assert_eq!(summary(&first), summary(&second));
    assert_eq!(summary(&first), pairs(&[("w", 70), ("x", 9), ("y", 5)]));
    let again = reconcile(&first);
    assert_eq!(summary(&again), summary(&first));
}

#[test]
fn order_of_the_scan_does_not_matter() {
    let a = vec![net("x", 5), net("y", 5), net("x", 9), net("w", 70), net("y", 1)];
    let b = vec![net("y", 1), net("w", 70), net("x", 9), net("y", 5), net("x", 5)];
    assert_eq!(summary(&reconcile(&a)), summary(&reconcile(&b)));
}

#[test]
fn nothing_scanned_gives_an_empty_inventory() {
    assert!(reconcile(&vec![]).is_empty());
    assert!(dedup(&vec![]).is_empty());
    assert!(App::sort_networks(&vec![]).is_empty());
}

#[test]
fn dedup_keeps_names_in_order_of_first_appearance() {
    let out = dedup(&vec![net("b", 1), net("a", 2), net("b", 3), net("c", 0), net("a", 1)]);
    assert_eq!(summary(&out), pairs(&[("b", 3), ("a", 2), ("c", 0)]));
}

#[test]
fn sort_keeps_every_record_and_the_order_of_equals() {
    let out = App::sort_networks(&vec![
        tagged("n", 5, "one"),
        tagged("m", 7, "two"),
        tagged("n", 5, "three"),
        tagged("n", 9, "four"),
        tagged("n", 5, "five"),
    ]);
    let tags: Vec<&str> = out.iter().map(|n| n.security.as_str()).collect();
    assert_eq!(tags, vec!["four", "two", "one", "three", "five"]);
}

#[test]
fn sort_networks_sorts_like_the_inventory() {
    let out = App::sort_networks(&vec![net("a", 10), net("b", 90), net("c", 50)]);
    assert_eq!(summary(&out), pairs(&[("b", 90), ("c", 50), ("a", 10)]));
}

#[test]
fn names_are_ordered_like_strings() {
    let names =
        ["", "a", "A", "ab", "abc", "b", "Z", "é", "▂", "zz", "a▂", "aé", "😀", "\u{ffff}"];
    for a in names {
        for b in names {
            assert_eq!(name_lt(a, b), a < b, "{:?} before {:?}", a, b);
        }
    }
}

#[test]
fn stronger_ranks_first_and_names_break_ties() {
    assert!(ranks_before(&net("b", 60), &net("a", 50)));
    assert!(!ranks_before(&net("a", 50), &net("b", 60)));
    assert!(ranks_before(&net("a", 50), &net("b", 50)));
    assert!(!ranks_before(&net("b", 50), &net("a", 50)));
    assert!(!ranks_before(&net("a", 50), &net("a", 50)));
}

#[test]
fn find_name_gives_the_first_place_or_the_length() {
    let list = vec![net("a", 1), net("b", 2), net("a", 3)];
    assert_eq!(find_name(&list, &"a".to_string()), 0);
    assert_eq!(find_name(&list, &"b".to_string()), 1);
    assert_eq!(find_name(&list, &"c".to_string()), 3);
    assert_eq!(find_name(&vec![], &"a".to_string()), 0);
}

#[test]
fn find_rank_places_a_record_behind_its_equals() {
    let list = vec![net("a", 90), net("b", 50), net("c", 10)];
    assert_eq!(find_rank(&list, &net("x", 100)), 0);
    assert_eq!(find_rank(&list, &net("x", 60)), 1);
    assert_eq!(find_rank(&list, &net("b", 50)), 2);
    assert_eq!(find_rank(&list, &net("a", 50)), 1);
    assert_eq!(find_rank(&list, &net("x", 0)), 3);
    assert_eq!(find_rank(&vec![], &net("x", 0)), 0);
}

#[test]
fn get_networks_reads_both_feeds() {
    let got = get_networks(
        &lines(&[
            "Cafe:30:WPA2:54Mbit/s:▂▄__",
            "Home:80:WPA3:270Mbit/s:▂▄▆█",
            ":99:WPA2:54Mbit/s:▂▄▆█",
            "Cafe:70:WPA2:130Mbit/s:▂▄▆_",
            "garbage",
        ]),
        &lines(&["Cafe:no", "Home:yes"]),
    );
    assert_eq!(summary(&got), pairs(&[("Cafe", 70), ("Home", 80)]));
    assert_eq!(got[0].rate, "130Mbit/s");
    assert!(!got[0].is_connected);
    assert!(got[1].is_connected);
}

#[test]
fn get_networks_without_an_active_network_marks_none() {
    let got = get_networks(
        &lines(&["Cafe:30:WPA2:54Mbit/s:▂▄__", "Home:80:WPA3:270Mbit/s:▂▄▆█"]),
        &lines(&["Cafe:no", "Home:no"]),
    );
    assert_eq!(got.len(), 2);
    assert!(got.iter().all(|n| !n.is_connected));
    let got = get_networks(&lines(&[]), &lines(&["Home:yes"]));
    assert!(got.is_empty());
}
