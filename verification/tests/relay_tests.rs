use factory_planner::relay::{
    answer_hello, client_ok_line, fail_line, hello_error_line, info_line, parse_hello, relay_text, trim_text,
    HelloError, Role, RoomTable,
};

fn hello(line: &str) -> Result<(Role, String), HelloError> {
    parse_hello(line)
}

#[test]
fn hello_lines() {
    assert_eq!(hello("HOST|abcd\n"), Ok((Role::Host, "ABCD".to_string())));
    assert_eq!(hello("JOIN|Ab12Cd"), Ok((Role::Join, "AB12CD".to_string())));
    assert_eq!(hello("HOST|abcd|extra"), Ok((Role::Host, "ABCD".to_string())));
    // the role field is not trimmed: "JOIN " is no role
    assert_eq!(hello(" JOIN | ab12cd \r\n"), Ok((Role::Other, "AB12CD".to_string())));
    assert_eq!(hello("|abcd"), Ok((Role::Other, "ABCD".to_string())));
    assert_eq!(hello("PLAY|abcd"), Ok((Role::Other, "ABCD".to_string())));
    assert_eq!(hello("HOST"), Err(HelloError::BadHello));
    assert_eq!(hello(""), Err(HelloError::BadHello));
    assert_eq!(hello("HOST|abc"), Err(HelloError::BadCode));
    assert_eq!(hello("HOST|abcdefghijklm"), Err(HelloError::BadCode));
    assert_eq!(hello("HOST|abcdefghijkl"), Ok((Role::Host, "ABCDEFGHIJKL".to_string())));
    assert_eq!(hello("HOST|ab-cd"), Err(HelloError::BadCode));
    assert_eq!(hello("HOST|é123"), Err(HelloError::BadCode));
    assert_eq!(hello("HOST|"), Err(HelloError::BadCode));
}

#[test]
fn trimming_matches_std() {
    for s in ["", "  a b  ", "\t\nx\u{3000}", "\u{85}\u{a0}", "no-space", " \u{2028}y\u{2029} "] {
        assert_eq!(trim_text(s), s.trim());
    }
}

#[test]
fn relayed_lines() {
    assert_eq!(relay_text("hello\r\n"), Some("hello".to_string()));
    assert_eq!(relay_text("a\rb\n"), Some("a\rb".to_string()));
    assert_eq!(relay_text("x|y"), Some("x|y".to_string()));
    assert_eq!(relay_text("\r\n"), None);
    assert_eq!(relay_text("\n\n\r"), None);
    assert_eq!(relay_text(""), None);
}

#[test]
fn reply_lines() {
    assert_eq!(fail_line("no_room"), "FAIL|no_room");
    assert_eq!(hello_error_line(HelloError::BadHello), "FAIL|bad_hello");
    assert_eq!(hello_error_line(HelloError::BadCode), "FAIL|bad_code");
    assert_eq!(client_ok_line(7), "OK|CLIENT|7");
    assert_eq!(info_line("join", 3), "INFO|join|3");
    assert_eq!(info_line("leave", 12), "INFO|leave|12");
}

#[test]
fn rooms_host_join_leave() {
    let mut t = RoomTable::new();
    assert_eq!(t.members("ABCD"), None);
    assert!(t.host("ABCD", 1));
    assert_eq!(t.members("ABCD"), Some(vec![1]));
    assert!(!t.host("ABCD", 2));
    assert!(t.join("ABCD", 2));
    assert!(t.join("ABCD", 3));
    assert_eq!(t.members("ABCD"), Some(vec![1, 2, 3]));
    assert!(!t.join("ZZZZ", 4));
    assert_eq!(t.recipients("ABCD", 2), vec![1, 3]);
    assert_eq!(t.recipients("ZZZZ", 2), Vec::<u32>::new());
    t.leave("ABCD", 2);
    assert_eq!(t.members("ABCD"), Some(vec![1, 3]));
    t.leave("ABCD", 9);
    assert_eq!(t.members("ABCD"), Some(vec![1, 3]));
    t.leave("ABCD", 1);
    t.leave("ABCD", 3);
    assert_eq!(t.members("ABCD"), None);
    assert!(t.host("ABCD", 5));
}

#[test]
fn rooms_join_then_leave_restores() {
    let mut t = RoomTable::new();
    assert!(t.host("ROOM1", 1));
    assert!(t.host("ROOM2", 2));
    assert!(t.join("ROOM1", 3));
    t.leave("ROOM1", 3);
    assert_eq!(t.members("ROOM1"), Some(vec![1]));
    assert_eq!(t.members("ROOM2"), Some(vec![2]));
    assert!(t.host("ROOM3", 4));
    t.leave("ROOM3", 4);
    assert_eq!(t.members("ROOM3"), None);
    assert_eq!(t.members("ROOM1"), Some(vec![1]));
}

#[test]
fn answering_hellos() {
    let mut t = RoomTable::new();
    let a = answer_hello(&mut t, Role::Join, "ABCD", 1);
    assert_eq!((a.reply.as_str(), a.admitted, a.announce), ("FAIL|no_room", false, false));
    let a = answer_hello(&mut t, Role::Host, "ABCD", 2);
    assert_eq!((a.reply.as_str(), a.admitted, a.announce), ("OK|HOST", true, false));
    let a = answer_hello(&mut t, Role::Host, "ABCD", 3);
    assert_eq!((a.reply.as_str(), a.admitted, a.announce), ("FAIL|code_taken", false, false));
    let a = answer_hello(&mut t, Role::Join, "ABCD", 4);
    assert_eq!((a.reply.as_str(), a.admitted, a.announce), ("OK|CLIENT|4", true, true));
    let a = answer_hello(&mut t, Role::Other, "ABCD", 5);
    assert_eq!((a.reply.as_str(), a.admitted, a.announce), ("FAIL|bad_role", false, false));
    assert_eq!(t.members("ABCD"), Some(vec![2, 4]));
}
