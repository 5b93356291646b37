use egg_viz::rows::Row;
use egg_viz::watcher::{RowResponse, WatchState};

fn line(id: &str, iteration: u64, name: &str, value: &str) -> String {
    format!("{},{},rn,rl,when,{},{}\n", id, iteration, name, value)
}

fn located(ev: &RowResponse) -> (&Row, u64) {
    match ev {
        RowResponse::Located { row, order, .. } => (row, *order),
        RowResponse::Restart { .. } => panic!("expected a located event"),
    }
}

fn is_restart(ev: &RowResponse) -> bool {
    matches!(ev, RowResponse::Restart { .. })
}

#[test]
fn appended_lines_become_ordered_events() {
    let mut st = WatchState::new();
    let path = "a.csv".to_string();

    // three well-formed lines appended to an empty file
    let mut content = String::new();
    content.push_str(&line("x", 1, "n1", "v1"));
    content.push_str(&line("x", 2, "n2", "v2"));
    content.push_str(&line("x", 3, "n3", "v3"));
    let bytes = content.as_bytes();

    assert_eq!(st.seek_pos(bytes.len() as u64), Some(0));
    let events = st.parse_event(&path, bytes.len() as u64, bytes);
    assert_eq!(events.len(), 3);
    for (i, ev) in events.iter().enumerate() {
        let (row, order) = located(ev);
        assert_eq!(order, i as u64);
        assert_eq!(row.iteration, (i + 1) as u64);
    }

    // two more lines: sequence numbers continue from the counter
    let more = format!("{}{}", line("x", 4, "n4", "v4"), line("x", 5, "n5", "v5"));
    let new_size = bytes.len() as u64 + more.len() as u64;
    assert_eq!(st.seek_pos(new_size), Some(bytes.len() as u64));
    let events = st.parse_event(&path, new_size, more.as_bytes());
    assert_eq!(events.len(), 2);
    assert_eq!(located(&events[0]).1, 3);
    assert_eq!(located(&events[1]).1, 4);
}

#[test]
fn truncation_emits_one_restart_then_counts_from_zero() {
    let mut st = WatchState::new();
    let path = "a.csv".to_string();

    let old = format!(
        "{}{}{}{}",
        line("x", 1, "n", "v"),
        line("x", 2, "n", "v"),
        line("x", 3, "n", "v"),
        line("x", 4, "n", "v")
    );
    let events = st.parse_event(&path, old.len() as u64, old.as_bytes());
    assert_eq!(events.len(), 4);

    // the file is truncated and rewritten with three fresh rows
    let fresh = format!(
        "{}{}{}",
        line("y", 1, "n", "v"),
        line("y", 2, "n", "v"),
        line("y", 3, "n", "v")
    );
    assert!(fresh.len() < old.len());
    assert_eq!(st.seek_pos(fresh.len() as u64), Some(0));
    let events = st.parse_event(&path, fresh.len() as u64, fresh.as_bytes());
    assert_eq!(events.len(), 4);
    assert!(is_restart(&events[0]));
    assert_eq!(located(&events[1]).1, 0);
    assert_eq!(located(&events[2]).1, 1);
    assert_eq!(located(&events[3]).1, 2);
}

#[test]
fn unchanged_size_is_a_no_op() {
    let mut st = WatchState::new();
    let path = "a.csv".to_string();
    let content = line("x", 1, "n", "v");
    let events = st.parse_event(&path, content.len() as u64, content.as_bytes());
    assert_eq!(events.len(), 1);
    assert_eq!(st.seek_pos(content.len() as u64), None);
    let events = st.parse_event(&path, content.len() as u64, &[]);
    assert!(events.is_empty());
}

#[test]
fn malformed_line_skipped_without_gap_or_duplicate() {
    let mut st = WatchState::new();
    let path = "a.csv".to_string();
    let mut content = String::new();
    content.push_str(&line("x", 1, "n", "v"));
    content.push_str("this line is, not a row\n");
    content.push_str(&line("x", 2, "n", "v"));
    content.push_str("id,notanumber,rn,rl,when,n,v\n");
    content.push_str(&line("x", 3, "n", "v"));
    let events = st.parse_event(&path, content.len() as u64, content.as_bytes());
    assert_eq!(events.len(), 3);
    let orders: Vec<u64> = events.iter().map(|e| located(e).1).collect();
    assert_eq!(orders, vec![0, 1, 2]);
    let iterations: Vec<u64> = events.iter().map(|e| located(e).0.iteration).collect();
    assert_eq!(iterations, vec![1, 2, 3]);
}

#[test]
fn session_counts_from_its_own_start() {
    // a.csv (10 existing rows, older) and b.csv (5 rows, newer): the
    // listing gives a.csv id 0 and b.csv id 1; a tail session opened on
    // a.csv afterwards numbers its first appended row 0
    let mut reg = egg_viz::registry::KnownFiles::new("root", Vec::new());
    reg.generate(&vec![("a.csv".to_string(), 100), ("b.csv".to_string(), 200)]);
    assert_eq!(reg.get_path(0).unwrap(), "a.csv");
    assert_eq!(reg.get_path(1).unwrap(), "b.csv");

    let existing: String = (1..=10).map(|i| line("x", i, "n", "v")).collect();

    // the session opens against the 10 existing rows: no backfill, so
    // the one appended row is the session's first event, sequence 0
    let mut session = WatchState::start_at(existing.len() as u64);
    let appended = line("x", 11, "n", "v");
    let new_size = existing.len() as u64 + appended.len() as u64;
    let events = session.parse_event(&"a.csv".to_string(), new_size, appended.as_bytes());
    assert_eq!(events.len(), 1);
    assert_eq!(located(&events[0]).1, 0);
    assert_eq!(located(&events[0]).0.iteration, 11);
}

#[test]
fn locate_and_order_set_the_event_fields() {
    let row = Row {
        id: "i".to_string(),
        iteration: 4,
        rule_name: "rn".to_string(),
        rule: "rl".to_string(),
        when: "w".to_string(),
        name: "n".to_string(),
        value: "v".to_string(),
    };
    let ev = row.locate("p.csv".to_string());
    match &ev {
        RowResponse::Located { path, row, order } => {
            assert_eq!(path, "p.csv");
            assert_eq!(row.iteration, 4);
            assert_eq!(*order, 0);
        },
        RowResponse::Restart { .. } => panic!("expected a located event"),
    }
    let ev = ev.order(9);
    assert_eq!(located(&ev).1, 9);

    let restart = RowResponse::Restart { path: "p.csv".to_string() };
    assert!(is_restart(&restart.order(5)));
}
