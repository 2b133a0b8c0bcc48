use factory_planner::net;
use factory_planner::net::{accepts_join, read_join_reply, gen_code, kind_opt, parse_kind, parse_u32, parse_u8, read_incoming, split_fields, Incoming, DEFAULT_PORT};
use factory_planner::sim::{BuildingKind, Facing};

#[test]
fn join_codes() {
    assert_eq!(gen_code(1_234_567_890), "567890");
    assert_eq!(gen_code(42), "000042");
    assert_eq!(gen_code(1_000_000), "000000");
    assert_eq!(DEFAULT_PORT, 7788);
}

#[test]
fn protocol_lines() {
    assert_eq!(net::line(&["place", "3", "4"]), "place|3|4\n");
    assert_eq!(net::line(&["hello"]), "hello\n");
    assert_eq!(net::line(&[]), "\n");
    assert_eq!(net::line(&["", ""]), "|\n");
}

#[test]
fn byte_fields() {
    assert_eq!(parse_u8("0"), Some(0));
    assert_eq!(parse_u8("255"), Some(255));
    assert_eq!(parse_u8("256"), None);
    assert_eq!(parse_u8("+7"), Some(7));
    assert_eq!(parse_u8("007"), Some(7));
    assert_eq!(parse_u8("0000000000000000001"), Some(1));
    assert_eq!(parse_u8(""), None);
    assert_eq!(parse_u8("+"), None);
    assert_eq!(parse_u8("-1"), None);
    assert_eq!(parse_u8("1a"), None);
    assert_eq!(parse_u8(" 1"), None);
    assert_eq!(parse_u8("99999999999"), None);
    for v in 0..=255u8 {
        assert_eq!(parse_u8(&v.to_string()), Some(v));
    }
    for s in ["", "+", "-0", "+0", "00", "12", "255", "256", "1000", "9a", "é", "+-1", "0x1"] {
        assert_eq!(parse_u8(s), s.parse::<u8>().ok(), "{s}");
    }
}

#[test]
fn kind_fields_roundtrip() {
    assert_eq!(kind_opt(None), "-");
    assert_eq!(parse_kind("-"), None);
    for v in 0..26u8 {
        let k = BuildingKind::from_u8(v).unwrap();
        let text = kind_opt(Some(k));
        assert_eq!(text, v.to_string());
        assert_eq!(parse_kind(&text), Some(k));
    }
    assert_eq!(parse_kind("26"), None);
    assert_eq!(parse_kind("x"), None);
    assert_eq!(parse_kind(""), None);
}

#[test]
fn split_fields_keeps_empty_fields() {
    assert_eq!(split_fields("a||b|"), vec!["a", "", "b", ""]);
    assert_eq!(split_fields(""), vec![""]);
    assert_eq!(split_fields("REM"), vec!["REM"]);
}

#[test]
fn parse_u32_bounds() {
    assert_eq!(parse_u32("4294967295"), Some(u32::MAX));
    assert_eq!(parse_u32("4294967296"), None);
    assert_eq!(parse_u32("+17"), Some(17));
    assert_eq!(parse_u32("+"), None);
    assert_eq!(parse_u32("-1"), None);
    assert_eq!(parse_u32(""), None);
}

#[test]
fn incoming_cursor_line() {
    match read_incoming(9, "  CUR|3|12.50|-4.00|-|2\n") {
        Incoming::Cursor { peer, x, y, selected, facing } => {
            assert_eq!(peer, 3);
            assert_eq!(x, "12.50");
            assert_eq!(y, "-4.00");
            assert_eq!(selected, None);
            assert_eq!(facing, Facing::S);
        }
        _ => panic!("expected a cursor"),
    }
    match read_incoming(9, "CUR|x|0|0|3|7") {
        Incoming::Cursor { peer, selected, facing, .. } => {
            assert_eq!(peer, 9);
            assert_eq!(selected, BuildingKind::from_u8(3));
            assert_eq!(facing, Facing::N);
        }
        _ => panic!("expected a cursor"),
    }
}

#[test]
fn incoming_place_and_remove_lines() {
    match read_incoming(0, "PLACE|70000|3|1.000|2.000|1") {
        Incoming::Place { id, kind, x, y, facing } => {
            assert_eq!(id, 70000);
            assert_eq!(Some(kind), BuildingKind::from_u8(3));
            assert_eq!(x, "1.000");
            assert_eq!(y, "2.000");
            assert_eq!(facing, Facing::E);
        }
        _ => panic!("expected a placement"),
    }
    assert!(matches!(read_incoming(0, "PLACE|1|200|0|0|0"), Incoming::Ignored));
    assert!(matches!(read_incoming(0, "PLACE|1|3|0|0"), Incoming::Ignored));
    assert!(matches!(read_incoming(0, "REM|42"), Incoming::Remove { id: 42 }));
    assert!(matches!(read_incoming(0, "REM|x"), Incoming::Ignored));
    assert!(matches!(read_incoming(0, "CUR|1|2"), Incoming::Ignored));
    assert!(matches!(read_incoming(0, "HELLO"), Incoming::Ignored));
}

#[test]
fn join_hello_and_reply() {
    assert!(accepts_join("JOIN|123456\n", "123456"));
    assert!(accepts_join(" JOIN|123456|extra ", "123456"));
    assert!(!accepts_join("JOIN|654321", "123456"));
    assert!(!accepts_join("JOIN", "123456"));
    assert!(!accepts_join("HOST|123456", "123456"));
    assert_eq!(read_join_reply("OK|3\n"), Some(3));
    assert_eq!(read_join_reply("OK"), Some(1));
    assert_eq!(read_join_reply("OK|x"), Some(1));
    assert_eq!(read_join_reply("FAIL|bad_code"), None);
    assert_eq!(read_join_reply(""), None);
}
