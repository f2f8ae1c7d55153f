use ffwebapps::live::{parse, parse_flags, status_subtitle, LiveEvent, LiveFlags};

#[test]
fn hello_gives_the_pid() {
    assert!(matches!(parse("hello v1 1234"), LiveEvent::Hello(1234)));
    assert!(matches!(parse("  hello v1   77  "), LiveEvent::Hello(77)));
    assert!(matches!(parse("hello v1 tray"), LiveEvent::Hello(0)));
    assert!(matches!(parse("hello v1 -5"), LiveEvent::Hello(-5)));
}

#[test]
fn unread_gives_the_count() {
    assert!(matches!(parse("unread 7"), LiveEvent::Unread(7)));
    assert!(matches!(parse(" unread 0\r"), LiveEvent::Unread(0)));
    assert!(matches!(parse("unread many"), LiveEvent::Unread(0)));
    assert!(matches!(parse("unread 4294967295"), LiveEvent::Unread(4294967295)));
    assert!(matches!(parse("unread 4294967296"), LiveEvent::Unread(0)));
}

#[test]
fn state_gives_the_flags() {
    match parse("state hidden=1 muted=0 dnd=1 suspend=0 autostart=1") {
        LiveEvent::State(f) => {
            assert!(f.hidden && !f.muted && f.dnd && !f.suspend && f.autostart);
        }
        _ => panic!("not a state line"),
    }
}

#[test]
fn other_lines_are_other() {
    assert!(matches!(parse("bogus"), LiveEvent::Other));
    assert!(matches!(parse(""), LiveEvent::Other));
    assert!(matches!(parse("statehidden=1"), LiveEvent::Other));
}

#[test]
fn flags_ignore_unknown_and_malformed_words() {
    let f = parse_flags("  hidden=1 foo=1 muted dnd=yes suspend=1 suspend=0 autostart=1 ");
    assert!(f.hidden);
    assert!(!f.muted);
    assert!(!f.dnd);
    assert!(!f.suspend);
    assert!(f.autostart);
}

#[test]
fn default_flags_are_off() {
    let f = LiveFlags::default();
    assert!(!f.hidden && !f.muted && !f.dnd && !f.suspend && !f.autostart);
}

#[test]
fn state_line_round_trip() {
    for bits in 0u8..32 {
        let on = |k: u8| bits & (1 << k) != 0;
        let line = format!(
            "state hidden={} muted={} dnd={} suspend={} autostart={}",
            on(0) as u8,
            on(1) as u8,
            on(2) as u8,
            on(3) as u8,
            on(4) as u8
        );
        match parse(&line) {
            LiveEvent::State(f) => {
                assert_eq!((f.hidden, f.muted, f.dnd, f.suspend, f.autostart), (on(0), on(1), on(2), on(3), on(4)));
            }
            _ => panic!("not a state line"),
        }
    }
}

#[test]
fn status_lines_of_events() {
    assert_eq!(status_subtitle(&LiveEvent::Hello(4242)).as_deref(), Some("Running · pid 4242"));
    assert_eq!(status_subtitle(&LiveEvent::Hello(-1)).as_deref(), Some("Running · pid -1"));
    let mut f = LiveFlags::default();
    assert_eq!(status_subtitle(&LiveEvent::State(f)).as_deref(), Some("Running · window shown"));
    f.hidden = true;
    assert_eq!(status_subtitle(&LiveEvent::State(f)).as_deref(), Some("Running · window hidden"));
    assert_eq!(status_subtitle(&LiveEvent::Disconnected).as_deref(), Some("Not running"));
    assert_eq!(status_subtitle(&LiveEvent::Unread(3)), None);
    assert_eq!(status_subtitle(&LiveEvent::Other), None);
}
