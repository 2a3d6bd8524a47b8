use iframe_traffic_counter::codec::{read_visits, write_visits};
use iframe_traffic_counter::handler::{decimal_string, handle, STATUS_BAD_REQUEST, STATUS_OK};
use iframe_traffic_counter::shutdown::{Action, Coordinator, Event};
use iframe_traffic_counter::table::VisitTable;
use iframe_traffic_counter::template::{fill_values, replace_all};

fn s(text: &str) -> String {
    String::from(text)
}

#[test]
fn increments_count_up_without_gaps() {
    let mut t = VisitTable::new();
    let mut seen = Vec::new();
    for _ in 0..50 {
        seen.push(t.increment_and_get(s("site")));
    }
    let expected: Vec<u64> = (1..=50).collect();
    assert_eq!(seen, expected);
    assert_eq!(t.count(&s("site")), 50);
    assert_eq!(t.len(), 1);
}

#[test]
fn increments_are_serialized_behind_a_lock() {
    let table = std::sync::Mutex::new(VisitTable::new());
    let mut seen = Vec::new();
    for i in 0..20 {
        let key = if i % 2 == 0 { "a" } else { "b" };
        let v = table.lock().unwrap().increment_and_get(s(key));
        if key == "a" {
            seen.push(v);
        }
    }
    assert_eq!(seen, (1..=10).collect::<Vec<u64>>());
    assert_eq!(table.lock().unwrap().count(&s("b")), 10);
}

#[test]
fn insert_overrides_and_count_of_absent_is_zero() {
    let mut t = VisitTable::new();
    assert_eq!(t.count(&s("x")), 0);
    t.insert(s("x"), 7);
    t.insert(s("y"), 1);
    t.insert(s("x"), 9);
    assert_eq!(t.count(&s("x")), 9);
    assert_eq!(t.count(&s("y")), 1);
    assert_eq!(t.len(), 2);
    assert_eq!(t.increment_and_get(s("x")), 10);
}

#[test]
fn snapshot_of_one_record() {
    let mut t = VisitTable::new();
    t.insert(s("https://a.example/page"), 12);
    assert_eq!(write_visits(&t), "https://a.example/page 12\n");
    assert_eq!(write_visits(&VisitTable::new()), "");
}

#[test]
fn snapshot_round_trip() {
    let mut t = VisitTable::new();
    t.insert(s("https://siteA.example"), 3);
    t.insert(s("https://siteB.example/x?y=1"), 0);
    t.insert(s("c"), u64::MAX);
    t.insert(s("d"), 1234567890);
    let back = read_visits(&write_visits(&t));
    assert_eq!(back.len(), 4);
    for k in ["https://siteA.example", "https://siteB.example/x?y=1", "c", "d"] {
        assert_eq!(back.count(&s(k)), t.count(&s(k)));
    }
    assert_eq!(back.count(&s("c")), u64::MAX);
    assert_eq!(back.count(&s("d")), 1234567890);
}

#[test]
fn load_skips_garbage_line() {
    let t = read_visits("a 3\nnot a record\n");
    assert_eq!(t.len(), 1);
    assert_eq!(t.count(&s("a")), 3);
}

#[test]
fn load_of_empty_text_is_empty() {
    assert_eq!(read_visits("").len(), 0);
    assert_eq!(read_visits("\n\n").len(), 0);
}

#[test]
fn load_edge_cases() {
    let t = read_visits(
        "x 18446744073709551616\ny +5\nz 12 13\nw\nv -1\nu 7\r\nq 4\nq 6\nr \nlast 8",
    );
    assert_eq!(t.count(&s("x")), 0);
    assert_eq!(t.count(&s("y")), 5);
    assert_eq!(t.count(&s("z")), 0);
    assert_eq!(t.count(&s("w")), 0);
    assert_eq!(t.count(&s("v")), 0);
    assert_eq!(t.count(&s("u")), 7);
    assert_eq!(t.count(&s("q")), 6);
    assert_eq!(t.count(&s("r")), 0);
    assert_eq!(t.count(&s("last")), 8);
    assert_eq!(t.len(), 4);
}

#[test]
fn site_with_space_does_not_round_trip() {
    let mut t = VisitTable::new();
    t.insert(s("a b"), 3);
    let back = read_visits(&write_visits(&t));
    assert_eq!(back.count(&s("a b")), 0);
    assert_eq!(back.len(), 0);
}

#[test]
fn flush_then_load_reproduces_table() {
    let mut t = VisitTable::new();
    for _ in 0..3 {
        t.increment_and_get(s("https://siteA.example"));
    }
    t.increment_and_get(s("https://siteB.example"));
    let snapshot = write_visits(&t);
    let loaded = read_visits(&snapshot);
    assert_eq!(loaded.len(), 2);
    assert_eq!(loaded.count(&s("https://siteA.example")), 3);
    assert_eq!(loaded.count(&s("https://siteB.example")), 1);
}

#[test]
fn decimal_notation() {
    assert_eq!(decimal_string(0), "0");
    assert_eq!(decimal_string(7), "7");
    assert_eq!(decimal_string(10), "10");
    assert_eq!(decimal_string(1234567890), "1234567890");
    assert_eq!(decimal_string(u64::MAX), "18446744073709551615");
}

#[test]
fn replacement_is_literal_and_left_to_right() {
    assert_eq!(replace_all("aaa", "aa", "X"), "Xa");
    assert_eq!(replace_all("{{A}} and {{A}}", "{{A}}", "b"), "b and b");
    assert_eq!(replace_all("none here", "{{A}}", "b"), "none here");
    assert_eq!(replace_all("", "x", "y"), "");
    assert_eq!(replace_all("ab", "abc", "y"), "ab");
}

#[test]
fn fill_values_puts_color() {
    let t = fill_values("white", "<p style=\"color: {{COLOR}}\">{{VISIT_COUNT}} {{COLOR}}</p>");
    assert_eq!(t, "<p style=\"color: white\">{{VISIT_COUNT}} white</p>");
}

#[test]
fn missing_referer_is_bad_request() {
    let mut t = VisitTable::new();
    let r = handle(&mut t, None, "n={{VISIT_COUNT}}");
    assert_eq!(r.status, STATUS_BAD_REQUEST);
    assert_eq!(r.status, 400);
    assert_eq!(r.body, "");
    assert_eq!(t.len(), 0);
    let r = handle(&mut t, Some(s("https://siteA.example")), "n={{VISIT_COUNT}}");
    assert_eq!(r.status, 200);
    assert_eq!(r.body, "n=1");
}

#[test]
fn end_to_end_counts_per_site() {
    let mut t = read_visits("");
    let template = fill_values("red", "<b style=\"color:{{COLOR}}\">{{VISIT_COUNT}}</b>");
    let r1 = handle(&mut t, Some(s("https://siteA.example")), &template);
    assert_eq!(r1.status, STATUS_OK);
    assert_eq!(r1.body, "<b style=\"color:red\">1</b>");
    let r2 = handle(&mut t, Some(s("https://siteA.example")), &template);
    assert_eq!(r2.body, "<b style=\"color:red\">2</b>");
    let r3 = handle(&mut t, Some(s("https://siteB.example")), &template);
    assert_eq!(r3.body, "<b style=\"color:red\">1</b>");
    assert_eq!(t.count(&s("https://siteA.example")), 2);
}

#[test]
fn referer_is_used_verbatim() {
    let mut t = VisitTable::new();
    handle(&mut t, Some(s("https://a.example/x")), "{{VISIT_COUNT}}");
    let r = handle(&mut t, Some(s("https://a.example/y")), "{{VISIT_COUNT}}");
    assert_eq!(r.body, "1");
}

#[test]
fn coordinator_stops_after_first_interrupt() {
    let mut c = Coordinator::new();
    assert!(!c.is_stopping());
    assert_eq!(c.on_event(Event::Connection), Action::Serve);
    assert_eq!(c.on_event(Event::Tick), Action::Flush);
    assert_eq!(c.on_event(Event::Interrupt), Action::FinalFlush);
    assert!(c.is_stopping());
    assert_eq!(c.on_event(Event::Interrupt), Action::Ignore);
    assert_eq!(c.on_event(Event::Connection), Action::Ignore);
    assert_eq!(c.on_event(Event::Tick), Action::Ignore);
}
