use rs9cc::tokenizer::{Tokenizer, Tokenkind};

#[test]
fn test_parse_1() {
    let actual = Tokenizer::parse(&String::from("42"));
    let expected = vec![
        Tokenkind::TkNum {
            str: String::from("42"),
            coord: (0, 0),
            val: 42,
        },
        Tokenkind::TkEof,
    ];
    assert_eq!(actual, expected);
}

#[test]
fn test_parse_2() {
    let actual = Tokenizer::parse(&String::from("  42 - 21 + 10  "));
    let expected = vec![
        Tokenkind::TkNum {
            str: String::from("42"),
            coord: (0, 2),
            val: 42,
        },
        Tokenkind::TkReserved {
            str: String::from("-"),
            coord: (0, 5),
        },
        Tokenkind::TkNum {
            str: String::from("21"),
            coord: (0, 7),
            val: 21,
        },
        Tokenkind::TkReserved {
            str: String::from("+"),
            coord: (0, 10),
        },
        Tokenkind::TkNum {
            str: String::from("10"),
            coord: (0, 12),
            val: 10,
        },
        Tokenkind::TkEof,
    ];
    assert_eq!(actual, expected);
}

#[test]
fn test_parse_3() {
    let actual = Tokenizer::parse(&String::from("5+20-4"));
    let expected = vec![
        Tokenkind::TkNum {
            str: String::from("5"),
            coord: (0, 0),
            val: 5,
        },
        Tokenkind::TkReserved {
            str: String::from("+"),
            coord: (0, 1),
        },
        Tokenkind::TkNum {
            str: String::from("20"),
            coord: (0, 2),
            val: 20,
        },
        Tokenkind::TkReserved {
            str: String::from("-"),
            coord: (0, 4),
        },
        Tokenkind::TkNum {
            str: String::from("4"),
            coord: (0, 5),
            val: 4,
        },
        Tokenkind::TkEof,
    ];
    assert_eq!(actual, expected);
}

#[test]
fn test_parse_4() {
    let actual = Tokenizer::parse(&String::from("5 + five"));
    let expected = vec![
        Tokenkind::TkNum {
            str: String::from("5"),
            coord: (0, 0),
            val: 5,
        },
        Tokenkind::TkReserved {
            str: String::from("+"),
            coord: (0, 2),
        },
        Tokenkind::TkUnk {
            str: String::from("five"),
            coord: (0, 4),
        },
        Tokenkind::TkEof,
    ];
    assert_eq!(actual, expected);
}

#[test]
fn parse_stops_at_first_unknown() {
    let actual = Tokenizer::parse(&String::from("1 x 2 + 3"));
    let expected = vec![
        Tokenkind::TkNum {
            str: String::from("1"),
            coord: (0, 0),
            val: 1,
        },
        Tokenkind::TkUnk {
            str: String::from("x 2 + 3"),
            coord: (0, 2),
        },
        Tokenkind::TkEof,
    ];
    assert_eq!(actual, expected);
}

#[test]
fn parse_empty_and_blank() {
    assert_eq!(Tokenizer::parse(&String::new()), vec![Tokenkind::TkEof]);
    assert_eq!(Tokenizer::parse(&String::from("   ")), vec![Tokenkind::TkEof]);
}

#[test]
fn parse_too_large_number_is_unknown() {
    let actual = Tokenizer::parse(&String::from("1+99999999999999999999"));
    let expected = vec![
        Tokenkind::TkNum {
            str: String::from("1"),
            coord: (0, 0),
            val: 1,
        },
        Tokenkind::TkReserved {
            str: String::from("+"),
            coord: (0, 1),
        },
        Tokenkind::TkUnk {
            str: String::from("99999999999999999999"),
            coord: (0, 2),
        },
        Tokenkind::TkEof,
    ];
    assert_eq!(actual, expected);
}

#[test]
fn parse_texts_and_spaces_rebuild_source() {
    let src = " 12 +3-  4 ";
    let tokens = Tokenizer::parse(&String::from(src));
    let mut rebuilt = String::new();
    for t in tokens.iter() {
        match t {
            Tokenkind::TkReserved { str, coord } | Tokenkind::TkNum { str, coord, .. } => {
                while rebuilt.len() < coord.1 {
                    rebuilt.push(' ');
                }
                rebuilt.push_str(str);
            }
            _ => {}
        }
    }
    while rebuilt.len() < src.len() {
        rebuilt.push(' ');
    }
    assert_eq!(rebuilt, src);
}

#[test]
fn cursor_walks_tokens() {
    let mut t = Tokenizer::new(&String::from("5 + 7"));
    assert_eq!(t.cur_str(), "5");
    assert!(!t.expect_op("+"));
    assert_eq!(t.expect_number(), Some(5));
    assert_eq!(t.expect_number(), None);
    assert_eq!(t.cur_str(), "+");
    assert!(!t.expect_op("-"));
    assert!(t.expect_op("+"));
    assert!(!t.expect_eof());
    assert_eq!(t.expect_number(), Some(7));
    assert!(t.expect_eof());
    assert_eq!(t.cur_str(), "");
    assert!(!t.expect_op(""));
    assert_eq!(t.expect_number(), None);
    assert!(t.expect_eof());
}

#[test]
fn get_coord_of_tokens() {
    let t = Tokenizer::new(&String::from("1"));
    let num = Tokenkind::TkNum {
        str: String::from("12"),
        coord: (0, 3),
        val: 12,
    };
    assert_eq!(t.get_coord(&num), Some((0, 3)));
    assert_eq!(t.get_coord(&Tokenkind::TkEof), None);
}

#[test]
fn error_at_cur_points_at_token() {
    let mut t = Tokenizer::new(&String::from("1 + x"));
    assert_eq!(t.expect_number(), Some(1));
    assert!(t.expect_op("+"));
    assert_eq!(t.error_at_cur("bad"), "1 + x\n    ^ bad");
}

#[test]
fn error_at_cur_on_end_points_after_source() {
    let mut t = Tokenizer::new(&String::from("12 "));
    assert_eq!(t.expect_number(), Some(12));
    assert!(t.expect_eof());
    assert_eq!(t.error_at_cur("end"), "12 \n   ^ end");
}
