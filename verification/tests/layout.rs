use textflow::layout::{ColWidthUnit, Column, DynCol, Layout, LayoutError};
use textflow::pattern::PatternError;
use textflow::Alignment;

#[test]
fn test_new() {
    let blank = Layout::new();

    assert_eq!(blank.left(), &vec![]);
    assert_eq!(blank.fill(), None);
    assert_eq!(blank.right(), &vec![]);
}

#[test]
fn test_default() {
    let default = Layout::default();

    assert_eq!(default.left(), &vec![]);
    assert_eq!(
        default.fill(),
        Some(DynCol {
            size: 1,
            unit: ColWidthUnit::FRACTIONAL,
            align: Alignment::LEFT,
        })
    );
    assert_eq!(default.right(), &vec![]);
}

#[test]
fn test_from_pattern() {
    let valid1 = Layout::from_pattern("^7 - 3* =").unwrap();

    assert_eq!(
        valid1.left(),
        &vec![
            DynCol {
                size: 7,
                unit: ColWidthUnit::CHARACTER,
                align: Alignment::CENTER,
            },
            DynCol {
                size: 1,
                unit: ColWidthUnit::FRACTIONAL,
                align: Alignment::LEFT,
            }
        ]
    );
    assert_eq!(
        valid1.fill(),
        Some(DynCol {
            size: 3,
            unit: ColWidthUnit::CHARACTER,
            align: Alignment::LEFT,
        })
    );
    assert_eq!(
        valid1.right(),
        &vec![DynCol {
            size: 1,
            unit: ColWidthUnit::FRACTIONAL,
            align: Alignment::JUSTIFY,
        }]
    );

    let valid2 = Layout::from_pattern(">-  <--  =---").unwrap();

    assert_eq!(
        valid2.left(),
        &vec![
            DynCol {
                size: 1,
                unit: ColWidthUnit::FRACTIONAL,
                align: Alignment::RIGHT,
            },
            DynCol {
                size: 2,
                unit: ColWidthUnit::FRACTIONAL,
                align: Alignment::LEFT,
            },
            DynCol {
                size: 3,
                unit: ColWidthUnit::FRACTIONAL,
                align: Alignment::JUSTIFY,
            }
        ]
    );
    assert_eq!(valid2.fill(), None);
    assert_eq!(valid2.right(), &vec![]);

    let invalid1 = Layout::from_pattern("^7 +8 9");

    assert!(invalid1.is_err());

    let invalid2 = Layout::from_pattern("^7 8* 9* 10");

    assert!(invalid2.is_err());
}

#[test]
fn test_fractional() {
    let mock = Layout::new().fractional(4, Alignment::CENTER);

    assert_eq!(
        mock.left(),
        &vec![DynCol {
            size: 4,
            unit: ColWidthUnit::FRACTIONAL,
            align: Alignment::CENTER,
        }]
    );
    assert_eq!(mock.fill(), None);
    assert_eq!(mock.right(), &vec![]);

    let muck = mock.repeat().fractional(9, Alignment::RIGHT);

    assert_eq!(muck.left(), &vec![]);
    assert_eq!(
        muck.fill(),
        Some(DynCol {
            size: 4,
            unit: ColWidthUnit::FRACTIONAL,
            align: Alignment::CENTER,
        })
    );
    assert_eq!(
        muck.right(),
        &vec![DynCol {
            size: 9,
            unit: ColWidthUnit::FRACTIONAL,
            align: Alignment::RIGHT,
        }]
    );
}

#[test]
fn test_fixed() {
    let mock = Layout::new().fixed(4, Alignment::CENTER);

    assert_eq!(
        mock.left(),
        &vec![DynCol {
            size: 4,
            unit: ColWidthUnit::CHARACTER,
            align: Alignment::CENTER,
        }]
    );
    assert_eq!(mock.fill(), None);
    assert_eq!(mock.right(), &vec![]);

    let muck = mock.repeat().fixed(9, Alignment::RIGHT);

    assert_eq!(muck.left(), &vec![]);
    assert_eq!(
        muck.fill(),
        Some(DynCol {
            size: 4,
            unit: ColWidthUnit::CHARACTER,
            align: Alignment::CENTER,
        })
    );
    assert_eq!(
        muck.right(),
        &vec![DynCol {
            size: 9,
            unit: ColWidthUnit::CHARACTER,
            align: Alignment::RIGHT,
        }]
    );
}

#[test]
fn test_repeat_pass() {
    let valid = Layout::new().fixed(4, Alignment::CENTER).repeat();

    assert_eq!(valid.left(), &vec![]);
    assert_eq!(
        valid.fill(),
        Some(DynCol {
            size: 4,
            unit: ColWidthUnit::CHARACTER,
            align: Alignment::CENTER,
        })
    );
    assert_eq!(valid.right(), &vec![]);
}

#[test]
fn test_resolve() {
    let generic = Layout::from_pattern(">5 -*").unwrap();

    // common use case
    assert_eq!(
        generic.resolve(23, 4),
        Ok(vec![
            Column {
                width: 5,
                alignment: Alignment::RIGHT
            },
            Column {
                width: 6,
                alignment: Alignment::LEFT
            },
            Column {
                width: 6,
                alignment: Alignment::LEFT
            },
            Column {
                width: 6,
                alignment: Alignment::LEFT
            }
        ])
    );
    // not enough space
    assert_eq!(
        generic.resolve(3, 3),
        Ok(vec![
            Column {
                width: 5,
                alignment: Alignment::RIGHT
            },
            Column {
                width: 1,
                alignment: Alignment::LEFT
            },
            Column {
                width: 1,
                alignment: Alignment::LEFT
            },
        ])
    );
    // not enough columns
    assert!(generic.resolve(23, 0).is_err());

    let fixed_only = Layout::from_pattern(">5 10* 15").unwrap();

    // will always be the same size
    assert_eq!(
        fixed_only.resolve(11, 3),
        Ok(vec![
            Column {
                width: 5,
                alignment: Alignment::RIGHT
            },
            Column {
                width: 10,
                alignment: Alignment::LEFT
            },
            Column {
                width: 15,
                alignment: Alignment::LEFT
            }
        ])
    );
    assert_eq!(
        fixed_only.resolve(44, 3),
        Ok(vec![
            Column {
                width: 5,
                alignment: Alignment::RIGHT
            },
            Column {
                width: 10,
                alignment: Alignment::LEFT
            },
            Column {
                width: 15,
                alignment: Alignment::LEFT
            }
        ])
    );

    let no_repeat = Layout::from_pattern("11 -- 22").unwrap();

    // not enough columns
    assert!(no_repeat.resolve(99, 2).is_err());
    // too many columns
    assert!(no_repeat.resolve(99, 5).is_err());
}

#[test]
#[should_panic(expected = "Only one column can be repeated")]
fn test_repeat_fail() {
    let _invalid = Layout::new()
        .fixed(4, Alignment::CENTER)
        .repeat()
        .fractional(1, Alignment::LEFT)
        .repeat();
}

fn fr(size: usize, align: Alignment) -> DynCol {
    DynCol {
        size,
        unit: ColWidthUnit::FRACTIONAL,
        align,
    }
}

fn ch(size: usize, align: Alignment) -> DynCol {
    DynCol {
        size,
        unit: ColWidthUnit::CHARACTER,
        align,
    }
}

fn invalid(column: &str, pattern: &str) -> PatternError {
    PatternError::InvalidColumn {
        column: String::from(column),
        pattern: String::from(pattern),
    }
}

#[test]
fn try_repeat_hands_the_layout_back() {
    let once = Layout::new().fixed(4, Alignment::CENTER).try_repeat();
    let once = once.expect("the last column can be repeated");
    assert_eq!(once.fill(), Some(ch(4, Alignment::CENTER)));
    assert_eq!(once.left(), &vec![]);

    let twice = once.fractional(1, Alignment::LEFT).try_repeat();
    let back = twice.expect_err("only one column can be repeated");
    assert_eq!(back.fill(), Some(ch(4, Alignment::CENTER)));
    assert_eq!(back.right(), &vec![fr(1, Alignment::LEFT)]);

    let blank = Layout::new().try_repeat().expect_err("no column to repeat");
    assert_eq!(blank.left(), &vec![]);
    assert_eq!(blank.fill(), None);
}

#[test]
fn repeat_takes_the_last_column() {
    let layout = Layout::new()
        .fixed(4, Alignment::RIGHT)
        .fractional(2, Alignment::CENTER)
        .repeat()
        .fixed(3, Alignment::LEFT);
    assert_eq!(layout.left(), &vec![ch(4, Alignment::RIGHT)]);
    assert_eq!(layout.fill(), Some(fr(2, Alignment::CENTER)));
    assert_eq!(layout.right(), &vec![ch(3, Alignment::LEFT)]);
}

#[test]
fn clone_holds_the_same_columns() {
    let layout = Layout::new()
        .fixed(4, Alignment::RIGHT)
        .fractional(2, Alignment::CENTER)
        .repeat()
        .fixed(3, Alignment::LEFT);
    let copy = layout.clone();
    assert_eq!(copy.left(), layout.left());
    assert_eq!(copy.fill(), layout.fill());
    assert_eq!(copy.right(), layout.right());
}

#[test]
fn pattern_alignment_marks() {
    let layout = Layout::from_pattern("<1 ^2 >3 =4 5").unwrap();
    assert_eq!(
        layout.left(),
        &vec![
            ch(1, Alignment::LEFT),
            ch(2, Alignment::CENTER),
            ch(3, Alignment::RIGHT),
            ch(4, Alignment::JUSTIFY),
            ch(5, Alignment::LEFT),
        ]
    );
    assert_eq!(layout.fill(), None);
}

#[test]
fn pattern_widths() {
    let layout = Layout::from_pattern("= - ---- 007 0 <").unwrap();
    assert_eq!(
        layout.left(),
        &vec![
            fr(1, Alignment::JUSTIFY),
            fr(1, Alignment::LEFT),
            fr(4, Alignment::LEFT),
            ch(7, Alignment::LEFT),
            ch(0, Alignment::LEFT),
            fr(1, Alignment::LEFT),
        ]
    );
}

#[test]
fn pattern_repeating_flag() {
    let alone = Layout::from_pattern("*").unwrap();
    assert_eq!(alone.left(), &vec![]);
    assert_eq!(alone.fill(), Some(fr(1, Alignment::LEFT)));

    let fixed = Layout::from_pattern("16 *").unwrap();
    assert_eq!(fixed.left(), &vec![ch(16, Alignment::LEFT)]);
    assert_eq!(fixed.fill(), Some(fr(1, Alignment::LEFT)));

    let middle = Layout::from_pattern("=- ^15* >--").unwrap();
    assert_eq!(middle.left(), &vec![fr(1, Alignment::JUSTIFY)]);
    assert_eq!(middle.fill(), Some(ch(15, Alignment::CENTER)));
    assert_eq!(middle.right(), &vec![fr(2, Alignment::RIGHT)]);
}

#[test]
fn pattern_without_columns() {
    for pattern in ["", " ", "    "] {
        let blank = Layout::from_pattern(pattern).unwrap();
        assert_eq!(blank.left(), &vec![]);
        assert_eq!(blank.fill(), None);
        assert_eq!(blank.right(), &vec![]);
    }
}

#[test]
fn pattern_with_a_wrong_column() {
    assert_eq!(
        Layout::from_pattern("^7 +8 9").unwrap_err(),
        invalid("+8", "^7 +8 9")
    );
    for column in ["-5", "5-", "<<", "**", "*5", "5^", "a", "--*-", "1.5", "=5x", "\u{661}"] {
        let pattern = format!("- {} -*", column);
        assert_eq!(
            Layout::from_pattern(&pattern).unwrap_err(),
            invalid(column, &pattern)
        );
    }
}

#[test]
fn pattern_with_a_number_too_large() {
    let largest = format!("{}", usize::MAX);
    let layout = Layout::from_pattern(&largest).unwrap();
    assert_eq!(layout.left(), &vec![ch(usize::MAX, Alignment::LEFT)]);

    let pattern = format!("{}0", usize::MAX);
    assert_eq!(
        Layout::from_pattern(&pattern).unwrap_err(),
        invalid(&pattern, &pattern)
    );
    let pattern = "340282366920938463463374607431768211456";
    assert_eq!(
        Layout::from_pattern(pattern).unwrap_err(),
        invalid(pattern, pattern)
    );
}

#[test]
fn pattern_with_two_repeating_columns() {
    assert_eq!(
        Layout::from_pattern("^7 8* 9* 10").unwrap_err(),
        PatternError::RepeatedTwice {
            column: String::from("9*"),
            pattern: String::from("^7 8* 9* 10"),
        }
    );
    // the first wrong column is the one reported
    assert_eq!(
        Layout::from_pattern("8* x 9*").unwrap_err(),
        invalid("x", "8* x 9*")
    );
}

#[test]
fn pattern_error_messages() {
    assert_eq!(
        Layout::from_pattern("^7 +8 9").unwrap_err().message(),
        "Invalid column [+8] in pattern [^7 +8 9]"
    );
    assert_eq!(
        Layout::from_pattern("8* 9*").unwrap_err().message(),
        "Only one column can be repeated"
    );
}

#[test]
fn pattern_and_builder_resolve_alike() {
    let read = Layout::from_pattern("=- ^15* >--").unwrap();
    let built = Layout::new()
        .fractional(1, Alignment::JUSTIFY)
        .fixed(15, Alignment::CENTER)
        .repeat()
        .fractional(2, Alignment::RIGHT);
    assert_eq!(read.left(), built.left());
    assert_eq!(read.fill(), built.fill());
    assert_eq!(read.right(), built.right());
    for width in [0, 1, 17, 58, 60, 200] {
        for columns in 0..7 {
            assert_eq!(read.resolve(width, columns), built.resolve(width, columns));
        }
    }
    let default = Layout::from_pattern("<-*").unwrap();
    for columns in 0..5 {
        assert_eq!(default.resolve(30, columns), Layout::default().resolve(30, columns));
    }
}

#[test]
fn resolve_refuses_too_few_columns() {
    let layout = Layout::from_pattern("5 -* 7 9").unwrap();
    for columns in 0..3 {
        assert_eq!(
            layout.resolve(40, columns),
            Err(LayoutError::InsufficientColumns {
                expected: 3,
                got: columns
            })
        );
    }
    assert!(layout.resolve(40, 3).is_ok());
    assert!(layout.resolve(40, 4).is_ok());
}

#[test]
fn resolve_refuses_too_many_columns_without_a_repeating_one() {
    let layout = Layout::from_pattern("11 -- 22").unwrap();
    assert_eq!(
        layout.resolve(99, 5),
        Err(LayoutError::ColumnCountMismatch {
            expected: 3,
            got: 5
        })
    );
    assert_eq!(
        layout.resolve(99, 2),
        Err(LayoutError::InsufficientColumns {
            expected: 3,
            got: 2
        })
    );
    assert_eq!(
        Layout::new().resolve(10, 1),
        Err(LayoutError::ColumnCountMismatch {
            expected: 0,
            got: 1
        })
    );
    assert_eq!(Layout::new().resolve(10, 0), Ok(vec![]));
}

#[test]
fn layout_error_messages() {
    let layout = Layout::from_pattern("11 -- 22").unwrap();
    assert_eq!(
        layout.resolve(99, 2).unwrap_err().message(),
        "Expected at least 3 columns, got 2"
    );
    assert_eq!(
        layout.resolve(99, 120).unwrap_err().message(),
        "Expected 3 columns, got 120"
    );
    assert_eq!(
        LayoutError::InsufficientColumns {
            expected: 1005,
            got: 0
        }
        .message(),
        "Expected at least 1005 columns, got 0"
    );
}

fn widths(resolved: Result<Vec<Column>, LayoutError>) -> Vec<usize> {
    resolved.unwrap().iter().map(|column| column.width).collect()
}

#[test]
fn resolve_gives_each_unit_its_slot() {
    // 10 cells in 3 slots: marks at 10/3 and 20/3
    let layout = Layout::from_pattern("- --").unwrap();
    assert_eq!(widths(layout.resolve(10, 2)), vec![3, 7]);
    let layout = Layout::from_pattern("-- -").unwrap();
    assert_eq!(widths(layout.resolve(10, 2)), vec![7, 3]);
    // 66 cells are left for two units
    let layout = Layout::from_pattern("11 -- 22").unwrap();
    assert_eq!(widths(layout.resolve(99, 3)), vec![11, 66, 22]);
    // the repeating column stands three times
    assert_eq!(widths(Layout::default().resolve(10, 3)), vec![3, 4, 3]);
    assert_eq!(widths(Layout::default().resolve(48, 3)), vec![16, 16, 16]);
}

#[test]
fn resolve_keeps_one_cell_for_each_unit() {
    let layout = Layout::from_pattern("8 --- -*").unwrap();
    // the fixed column alone is wider than the width
    assert_eq!(widths(layout.resolve(5, 4)), vec![8, 3, 1, 1]);
    // less than one cell is left for each unit
    assert_eq!(widths(layout.resolve(12, 4)), vec![8, 3, 1, 1]);
    assert_eq!(widths(layout.resolve(13, 4)), vec![8, 3, 1, 1]);
    // fourteen cells hold six for five units
    assert_eq!(widths(layout.resolve(14, 4)), vec![8, 4, 1, 1]);
    assert_eq!(widths(layout.resolve(0, 2)), vec![8, 3]);
}

#[test]
fn resolve_with_columns_of_no_width() {
    let layout = Layout::new()
        .fractional(0, Alignment::LEFT)
        .fixed(0, Alignment::RIGHT)
        .fractional(0, Alignment::CENTER);
    assert_eq!(
        layout.resolve(10, 3),
        Ok(vec![
            Column {
                width: 0,
                alignment: Alignment::LEFT
            },
            Column {
                width: 0,
                alignment: Alignment::RIGHT
            },
            Column {
                width: 0,
                alignment: Alignment::CENTER
            },
        ])
    );
    let layout = layout.fractional(2, Alignment::LEFT);
    assert_eq!(widths(layout.resolve(10, 4)), vec![0, 0, 0, 10]);
}

#[test]
fn resolve_with_the_largest_numbers() {
    let layout = Layout::new()
        .fixed(usize::MAX, Alignment::LEFT)
        .fixed(usize::MAX, Alignment::LEFT)
        .fractional(usize::MAX, Alignment::LEFT)
        .fractional(usize::MAX, Alignment::LEFT);
    assert_eq!(
        widths(layout.resolve(usize::MAX, 4)),
        vec![usize::MAX, usize::MAX, usize::MAX, usize::MAX]
    );
    let layout = Layout::new()
        .fractional(1, Alignment::LEFT)
        .fractional(2, Alignment::LEFT);
    let resolved = widths(layout.resolve(usize::MAX, 2));
    assert_eq!(resolved[0] as u128 + resolved[1] as u128, usize::MAX as u128);
    assert_eq!(resolved[0], usize::MAX / 3);
}

#[test]
fn resolve_keeps_the_alignments_in_order() {
    let layout = Layout::from_pattern(">5 ^* =").unwrap();
    let resolved = layout.resolve(20, 4).unwrap();
    let alignments: Vec<Alignment> = resolved.iter().map(|column| column.alignment).collect();
    assert_eq!(
        alignments,
        vec![
            Alignment::RIGHT,
            Alignment::CENTER,
            Alignment::CENTER,
            Alignment::JUSTIFY
        ]
    );
    // without a missing column the repeating one does not stand at all
    let resolved = layout.resolve(20, 2).unwrap();
    let alignments: Vec<Alignment> = resolved.iter().map(|column| column.alignment).collect();
    assert_eq!(alignments, vec![Alignment::RIGHT, Alignment::JUSTIFY]);
}
