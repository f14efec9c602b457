use rkb2040_lib::direct_keyboard::KeyCheck;
use rkb2040_lib::layout::{
    direct_layout_plan, matrix_layout_plan, parse_key_seq, parse_matrix_desc, parse_pin_list,
    tokenize, LayoutError, LayoutToken,
};

#[test]
fn tokens_of_a_description() {
    assert_eq!(
        tokenize(b" (1_0,\n 25)\t").unwrap(),
        vec![
            LayoutToken::Open,
            LayoutToken::Int(Some(10)),
            LayoutToken::Comma,
            LayoutToken::Int(Some(25)),
            LayoutToken::Close
        ]
    );
    assert_eq!(tokenize(b"").unwrap(), vec![]);
    assert_eq!(tokenize(b"1;2"), Err(LayoutError::InvalidByte(b';')));
    assert_eq!(tokenize(b"_1"), Err(LayoutError::InvalidByte(b'_')));
    assert_eq!(tokenize(b"18446744073709551615").unwrap(), vec![LayoutToken::Int(Some(u64::MAX))]);
    // A value above u64::MAX is still a literal; only its value is unknown.
    assert_eq!(tokenize(b"18446744073709551616").unwrap(), vec![LayoutToken::Int(None)]);
    assert_eq!(tokenize(b"x 18446744073709551616"), Err(LayoutError::InvalidByte(b'x')));
}

#[test]
fn literal_forms() {
    assert_eq!(
        tokenize(b"0x1C 0o17 0b101 7u8 0x1f_u32 1_000usize 3i64").unwrap(),
        vec![
            LayoutToken::Int(Some(0x1C)),
            LayoutToken::Int(Some(0o17)),
            LayoutToken::Int(Some(0b101)),
            LayoutToken::Int(Some(7)),
            LayoutToken::Int(Some(0x1F)),
            LayoutToken::Int(Some(1000)),
            LayoutToken::Int(Some(3)),
        ]
    );
    assert_eq!(tokenize(b"0xFFFF_FFFF_FFFF_FFFF").unwrap(), vec![LayoutToken::Int(Some(u64::MAX))]);
    assert_eq!(tokenize(b"0x1_0000_0000_0000_0000").unwrap(), vec![LayoutToken::Int(None)]);
    assert_eq!(tokenize(b"0x"), Err(LayoutError::InvalidLiteral));
    assert_eq!(tokenize(b"0x_"), Err(LayoutError::InvalidLiteral));
    assert_eq!(tokenize(b"0b102"), Err(LayoutError::InvalidLiteral));
    assert_eq!(tokenize(b"7e3"), Err(LayoutError::InvalidLiteral));
    assert_eq!(tokenize(b"7u7"), Err(LayoutError::InvalidLiteral));
    assert_eq!(tokenize(b"7abc"), Err(LayoutError::InvalidLiteral));
}

#[test]
fn pin_lists() {
    assert_eq!(
        parse_pin_list(b"7, 26, 27, 28, 29").unwrap(),
        vec![Some(7), Some(26), Some(27), Some(28), Some(29)]
    );
    assert_eq!(parse_pin_list(b"9, 8u8,").unwrap(), vec![Some(9), Some(8)]);
    // Commas are optional between pins.
    assert_eq!(parse_pin_list(b"1 2, 0x3").unwrap(), vec![Some(1), Some(2), Some(3)]);
    assert_eq!(parse_pin_list(b"  "), Err(LayoutError::EmptyPinSequence));
    assert_eq!(parse_pin_list(b"1,,2"), Err(LayoutError::Syntax));
    assert_eq!(parse_pin_list(b"(1)"), Err(LayoutError::Syntax));
    assert_eq!(parse_pin_list(b"1, a"), Err(LayoutError::InvalidByte(b'a')));
}

#[test]
fn matrix_descriptions() {
    let (cols, rows) = parse_matrix_desc(b"((8, 7, 6, 21, 28), (26, 5, 4, 9))").unwrap();
    assert_eq!(cols, vec![Some(8), Some(7), Some(6), Some(21), Some(28)]);
    assert_eq!(rows, vec![Some(26), Some(5), Some(4), Some(9)]);
    let (cols, rows) = parse_matrix_desc(b"((1), (2),)").unwrap();
    assert_eq!((cols, rows), (vec![Some(1)], vec![Some(2)]));
    let (cols, rows) = parse_matrix_desc(b"((), ())").unwrap();
    assert_eq!((cols, rows), (vec![], vec![]));
    assert_eq!(parse_matrix_desc(b"((1) (2))"), Err(LayoutError::Syntax));
    assert_eq!(parse_matrix_desc(b"((1), (2), (3))"), Err(LayoutError::Syntax));
    assert_eq!(parse_matrix_desc(b"((1), (2)"), Err(LayoutError::Syntax));
    assert_eq!(parse_matrix_desc(b"(1, (2))"), Err(LayoutError::Syntax));
    assert_eq!(parse_matrix_desc(b"((1, (2)), (3))"), Err(LayoutError::Syntax));
}

#[test]
fn key_sequences() {
    assert_eq!(
        parse_key_seq(b"(4, 0), (3, 0) (2, 3usize),").unwrap(),
        vec![(Some(4), Some(0)), (Some(3), Some(0)), (Some(2), Some(3))]
    );
    assert_eq!(parse_key_seq(b"").unwrap(), vec![]);
    assert_eq!(parse_key_seq(b"(4, 0), (3)"), Err(LayoutError::Syntax));
    assert_eq!(parse_key_seq(b"(4 0)"), Err(LayoutError::Syntax));
    assert_eq!(parse_key_seq(b"(4, 0, 1)"), Err(LayoutError::Syntax));
    assert_eq!(parse_key_seq(b"(4, 0),,"), Err(LayoutError::Syntax));
}

#[test]
fn direct_layout_plans() {
    let plan = direct_layout_plan(b"29, 28, 27").unwrap();
    assert_eq!(
        plan,
        vec![
            KeyCheck { row_pin: 29, index: 0 },
            KeyCheck { row_pin: 28, index: 1 },
            KeyCheck { row_pin: 27, index: 2 }
        ]
    );
    assert_eq!(direct_layout_plan(b"3, 32"), Err(LayoutError::OutOfRange));
    assert_eq!(direct_layout_plan(b"3, 0x1F").unwrap()[1], KeyCheck { row_pin: 31, index: 1 });
    assert_eq!(direct_layout_plan(b""), Err(LayoutError::EmptyPinSequence));
}

#[test]
fn matrix_layout_plans() {
    let plan = matrix_layout_plan(
        b"((8, 7, 6, 21, 28), (26, 5, 4, 9))",
        b"(4, 0), (3, 0), (2, 0), (1, 0), (0, 0),
          (4, 1), (3, 1), (2, 1), (1, 1), (0, 1),
          (4, 2), (3, 2), (2, 2), (1, 2), (0, 2),
          (2, 3), (1, 3), (4, 3)",
    )
    .unwrap();
    assert_eq!(plan.len(), 5);
    assert_eq!(plan[0].column, 0);
    assert_eq!(
        plan[0].checks,
        vec![
            KeyCheck { row_pin: 26, index: 4 },
            KeyCheck { row_pin: 5, index: 9 },
            KeyCheck { row_pin: 4, index: 14 }
        ]
    );
    assert_eq!(plan[4].settle_mask, (1 << 26) | (1 << 5) | (1 << 4) | (1 << 9));
    assert_eq!(matrix_layout_plan(b"((1), (40))", b"(0, 0)").err(), Some(LayoutError::OutOfRange));
    // Column literals are only counted, so any value will do.
    let plan = matrix_layout_plan(b"((99999999999999999999999), (0x4))", b"(0, 0)").unwrap();
    assert_eq!(plan.len(), 1);
    assert_eq!(plan[0].checks, vec![KeyCheck { row_pin: 4, index: 0 }]);
    assert_eq!(
        matrix_layout_plan(b"((1), (4))", b"(0, 99999999999999999999999)").err(),
        Some(LayoutError::OutOfRange)
    );
    assert_eq!(matrix_layout_plan(b"((1), (4))", b"(0 0)").err(), Some(LayoutError::Syntax));
    assert_eq!(matrix_layout_plan(b"((1), (4)", b"(0, 0)").err(), Some(LayoutError::Syntax));
}

#[test]
fn comments_are_skipped() {
    assert_eq!(
        tokenize(b"1 // one\n2 /* two */ 3").unwrap(),
        vec![LayoutToken::Int(Some(1)), LayoutToken::Int(Some(2)), LayoutToken::Int(Some(3))]
    );
    // Block comments nest.
    assert_eq!(
        tokenize(b"(/* a /* b */ c */)").unwrap(),
        vec![LayoutToken::Open, LayoutToken::Close]
    );
    // `/**/`, `/***/` and `////` are plain comments.
    assert_eq!(
        tokenize(b"1/**/2/***/3 //// four").unwrap(),
        vec![LayoutToken::Int(Some(1)), LayoutToken::Int(Some(2)), LayoutToken::Int(Some(3))]
    );
    // A line comment may end the input.
    assert_eq!(tokenize(b"7 // last").unwrap(), vec![LayoutToken::Int(Some(7))]);
    // A lone slash is no token.
    assert_eq!(tokenize(b"1 / 2"), Err(LayoutError::InvalidByte(b'/')));
}

#[test]
fn doc_and_unterminated_comments() {
    assert_eq!(tokenize(b"/// doc\n1"), Err(LayoutError::DocComment));
    assert_eq!(tokenize(b"1 //! inner"), Err(LayoutError::DocComment));
    assert_eq!(tokenize(b"/** doc */ 1"), Err(LayoutError::DocComment));
    assert_eq!(tokenize(b"/*! inner */"), Err(LayoutError::DocComment));
    assert_eq!(tokenize(b"1 /* open /* nested */"), Err(LayoutError::UnterminatedComment));
    assert_eq!(tokenize(b"/**"), Err(LayoutError::UnterminatedComment));
    // The first fault of the input is the one reported.
    assert_eq!(tokenize(b"; /// doc"), Err(LayoutError::InvalidByte(b';')));
}

#[test]
fn unicode_white_space() {
    assert_eq!(
        tokenize(b"1\xC2\x852\xE2\x80\x8E3\xE2\x80\x8F4\xE2\x80\xA85\xE2\x80\xA96\x0B7\x0C").unwrap(),
        (1..=7).map(|v| LayoutToken::Int(Some(v))).collect::<Vec<_>>()
    );
    // U+2020, a dagger, is no white space.
    assert_eq!(tokenize(b"1 \xE2\x80\xA0"), Err(LayoutError::InvalidByte(0xE2)));
}

#[test]
fn pin_list_with_comments() {
    let pins = parse_pin_list(
        b"7, 26, 27, 28, 29, // Top row pins.
          22, 20, 23, 21, 0, // Middle row pins.
          2, 3, 4, 5, 6, // Bottom row pins.
          8, 9 // Thumb cluster pins.",
    )
    .unwrap();
    assert_eq!(pins.len(), 17);
    assert_eq!(pins[5], Some(22));
    assert_eq!(pins[16], Some(9));
    let plan = direct_layout_plan(b"29, /* top */ 28\n// last\n27").unwrap();
    assert_eq!(plan[2], KeyCheck { row_pin: 27, index: 2 });
}

#[test]
fn matrix_reads_only_what_it_finds() {
    // The row pin 40 holds no key, so it is never read.
    let plan = matrix_layout_plan(b"((1), (4, 40))", b"(0, 0)").unwrap();
    assert_eq!(plan.len(), 1);
    assert_eq!(plan[0].checks, vec![KeyCheck { row_pin: 4, index: 0 }]);
    assert_eq!(plan[0].settle_mask, 1 << 4);
    // More than 128 keys: those after the first are never found.
    let mut keys = String::from("(0, 0)");
    for _ in 0..200 {
        keys.push_str(", (5, 5)");
    }
    let plan = matrix_layout_plan(b"((1), (4))", keys.as_bytes()).unwrap();
    assert_eq!(plan[0].checks, vec![KeyCheck { row_pin: 4, index: 0 }]);
    // A key found at index 128 cannot be carried by an event byte.
    let mut keys = String::new();
    for _ in 0..128 {
        keys.push_str("(5, 5), ");
    }
    keys.push_str("(0, 0)");
    assert_eq!(
        matrix_layout_plan(b"((1), (4))", keys.as_bytes()).err(),
        Some(LayoutError::OutOfRange)
    );
    // A coordinate that no search reaches is not read.
    let plan = matrix_layout_plan(b"((1), (4))", b"(0, 0), (99999999999999999999999, 0)").unwrap();
    assert_eq!(plan[0].checks, vec![KeyCheck { row_pin: 4, index: 0 }]);
    // A row is read only when the column matches.
    let plan = matrix_layout_plan(b"((1), (4))", b"(3, 99999999999999999999999), (0, 0)").unwrap();
    assert_eq!(plan[0].checks, vec![KeyCheck { row_pin: 4, index: 1 }]);
    // A column that a search reads must fit.
    assert_eq!(
        matrix_layout_plan(b"((1), (4))", b"(99999999999999999999999, 0), (0, 0)").err(),
        Some(LayoutError::OutOfRange)
    );
    // Descriptions are parsed before anything is read.
    assert_eq!(matrix_layout_plan(b"((1), (40))", b"(0 0)").err(), Some(LayoutError::Syntax));
}
