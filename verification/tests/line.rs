use selection_mode::{
    collect_regions, Buffer, BufferError, ByteRange, CursorDirection, Line, RegionIter, Selection,
    SelectionMode, SelectionModeParams,
};

fn plain(text: &str) -> Buffer {
    Buffer::new(text.as_bytes().to_vec())
}

fn params<'a>(buffer: &'a Buffer, selection: &'a Selection) -> SelectionModeParams<'a> {
    SelectionModeParams {
        buffer,
        current_selection: selection,
        cursor_direction: &CursorDirection::End,
    }
}

/// The regions of the line mode, each with the text that it covers.
fn all_selections(buffer: &Buffer, selection: Selection) -> Vec<(std::ops::Range<usize>, String)> {
    let pass = Line.iter(params(buffer, &selection)).unwrap();
    collect_regions(pass)
        .into_iter()
        .map(|range| {
            let text = String::from_utf8(buffer.slice(&range).unwrap()).unwrap();
            (range.start()..range.end(), text)
        })
        .collect()
}

fn assert_all_selections(
    buffer: &Buffer,
    selection: Selection,
    expected: &[(std::ops::Range<usize>, &str)],
) {
    let expected: Vec<(std::ops::Range<usize>, String)> = expected
        .iter()
        .map(|(range, text)| (range.clone(), text.to_string()))
        .collect();
    assert_eq!(all_selections(buffer, selection), expected);
}

/// A function nested in a function, with for each line the lines on which
/// the constructs around it begin, from the outermost to the innermost.
fn nested_functions() -> Buffer {
    let text = "
fn f() {
    fn g() {
        let a = 1;
        let b = 2;
        let c = 3;
        let d = 4;
    }

}"
    .trim();
    let parent_lines = vec![
        vec![],
        vec![0],
        vec![0, 1],
        vec![0, 1],
        vec![0, 1],
        vec![0, 1],
        vec![0, 1],
        vec![0],
        vec![0],
    ];
    Buffer::with_parent_lines(text.as_bytes().to_vec(), parent_lines).unwrap()
}

fn select_line(buffer: &Buffer, line: usize) -> Selection {
    let start = buffer.line_to_byte(line).unwrap();
    Selection::new(ByteRange::new(start..start + 1).unwrap())
}

fn line_of(buffer: &Buffer, selection: &Selection) -> usize {
    buffer.char_to_line(selection.extended_range().start()).unwrap()
}

#[test]
fn case_1() {
    let buffer = plain("a\n\n\nb\nc\n");
    assert_all_selections(
        &buffer,
        Selection::default(),
        &[
            (0..2, "a\n"),
            (2..3, "\n"),
            (3..4, "\n"),
            (4..6, "b\n"),
            (6..8, "c\n"),
        ],
    );
}

#[test]
fn single_line_without_trailing_newline_character() {
    let buffer = plain("a");
    assert_all_selections(&buffer, Selection::default(), &[(0..1, "a")]);
}

#[test]
fn up() {
    let buffer = nested_functions();

    let test = |selected_line: usize, expected: &str| {
        let start = buffer.line_to_byte(selected_line).unwrap();
        let result = Line
            .up(SelectionModeParams {
                buffer: &buffer,
                current_selection: &Selection::new(ByteRange::new(start..start + 1).unwrap()),
                cursor_direction: &CursorDirection::End,
            })
            .unwrap()
            .unwrap();

        // The selection covers the whole line, which ends with its newline.
        let actual = String::from_utf8(buffer.slice(&result.extended_range()).unwrap()).unwrap();
        assert_eq!(actual.strip_suffix('\n'), Some(expected));
    };

    test(4, "    fn g() {");

    test(1, "fn f() {");
}

#[test]
fn up_from_the_first_line_does_not_move() {
    let buffer = nested_functions();
    let selection = select_line(&buffer, 0);
    assert_eq!(Line.up(params(&buffer, &selection)), Ok(None));
}

#[test]
fn up_in_plain_text_does_not_move() {
    let buffer = plain("a\nb\nc\n");
    for line in 0..4 {
        let start = buffer.line_to_byte(line).unwrap();
        let selection = Selection::new(ByteRange::new(start..start).unwrap());
        assert_eq!(Line.up(params(&buffer, &selection)), Ok(None));
    }
}

#[test]
fn up_lands_on_the_named_lines() {
    let buffer = nested_functions();
    let moved = Line.up(params(&buffer, &select_line(&buffer, 5))).unwrap().unwrap();
    assert_eq!(moved.range(), ByteRange::new(9..22).unwrap());
    assert_eq!(line_of(&buffer, &moved), 1);
    let moved = Line.up(params(&buffer, &moved)).unwrap().unwrap();
    assert_eq!(moved.range(), ByteRange::new(0..9).unwrap());
    assert_eq!(line_of(&buffer, &moved), 0);
    assert_eq!(Line.up(params(&buffer, &moved)), Ok(None));
}

#[test]
fn up_takes_the_last_listed_line_above() {
    // Line 3 lists lines 1, 0 and 2 as its parents, in that order: the last
    // of them is taken, which is neither the nearest nor the farthest.
    let table = vec![vec![], vec![], vec![], vec![1, 0, 2], vec![]];
    let buffer = Buffer::with_parent_lines("a\nb\nc\nd\n".as_bytes().to_vec(), table).unwrap();
    let moved = Line.up(params(&buffer, &select_line(&buffer, 3))).unwrap().unwrap();
    assert_eq!(moved.range(), ByteRange::new(4..6).unwrap());
    assert_eq!(selection_mode::last_parent_above(&vec![1, 0, 2], 3), Some(2));
    assert_eq!(selection_mode::last_parent_above(&vec![2, 0, 1], 3), Some(1));
}

#[test]
fn up_passes_over_lines_that_are_not_above() {
    // A parent line at or below the current line is no way up.
    let table = vec![vec![], vec![0, 1, 3, 2], vec![2, 3], vec![], vec![]];
    let buffer = Buffer::with_parent_lines("a\nb\nc\nd\n".as_bytes().to_vec(), table).unwrap();
    let moved = Line.up(params(&buffer, &select_line(&buffer, 1))).unwrap().unwrap();
    assert_eq!(moved.range(), ByteRange::new(0..2).unwrap());
    assert_eq!(Line.up(params(&buffer, &select_line(&buffer, 2))), Ok(None));
    assert_eq!(selection_mode::last_parent_above(&vec![0, 1, 3, 2], 1), Some(0));
    assert_eq!(selection_mode::last_parent_above(&vec![2, 3], 2), None);
    assert_eq!(selection_mode::last_parent_above(&vec![], 2), None);
    assert_eq!(selection_mode::last_parent_above(&vec![0], 0), None);
}

#[test]
fn up_keeps_the_start_of_the_extension() {
    let buffer = nested_functions();
    let anchor = ByteRange::new(30..40).unwrap();
    let selection = select_line(&buffer, 4).set_initial_range(Some(anchor));
    let moved = Line.up(params(&buffer, &selection)).unwrap().unwrap();
    assert_eq!(moved.range(), ByteRange::new(9..22).unwrap());
    assert_eq!(moved.initial_range(), Some(anchor));
    assert_eq!(moved.extended_range(), ByteRange::new(9..40).unwrap());
}

#[test]
fn up_starts_from_the_extended_range() {
    // The selection is on line 4, its extension began on line 1: the way up
    // starts from line 1.
    let buffer = nested_functions();
    let anchor = ByteRange::new(9..10).unwrap();
    let selection = select_line(&buffer, 4).set_initial_range(Some(anchor));
    let moved = Line.up(params(&buffer, &selection)).unwrap().unwrap();
    assert_eq!(moved.range(), ByteRange::new(0..9).unwrap());
}

#[test]
fn up_fails_behind_the_content() {
    let buffer = plain("a\nb");
    let at_end = Selection::new(ByteRange::new(3..3).unwrap());
    assert_eq!(Line.up(params(&buffer, &at_end)), Ok(None));
    let behind = Selection::new(ByteRange::new(4..5).unwrap());
    assert_eq!(
        Line.up(params(&buffer, &behind)),
        Err(BufferError::ByteOutOfRange { byte: 4, len_bytes: 3 })
    );
}

#[test]
fn up_again_and_again_comes_to_an_end() {
    let buffer = nested_functions();
    for line in 0..buffer.len_lines() {
        let mut selection = select_line(&buffer, line);
        let mut presses = 0;
        while let Some(moved) = Line.up(params(&buffer, &selection)).unwrap() {
            assert!(line_of(&buffer, &moved) < line_of(&buffer, &selection));
            selection = moved;
            presses += 1;
            assert!(presses <= line);
        }
        assert_eq!(line_of(&buffer, &selection), 0);
    }
}

#[test]
fn name_is_line() {
    assert_eq!(Line.name(), "LINE");
}

#[test]
fn empty_content_has_no_region() {
    let buffer = plain("");
    assert_eq!(buffer.len_lines(), 1);
    assert_all_selections(&buffer, Selection::default(), &[]);
}

#[test]
fn a_lone_newline_is_a_region() {
    let buffer = plain("\n");
    assert_eq!(buffer.len_lines(), 2);
    assert_all_selections(&buffer, Selection::default(), &[(0..1, "\n")]);
}

#[test]
fn last_line_without_newline_is_a_region() {
    let buffer = plain("a\nbc");
    assert_all_selections(&buffer, Selection::default(), &[(0..2, "a\n"), (2..4, "bc")]);
}

#[test]
fn carriage_return_stays_in_the_line() {
    let buffer = plain("a\r\nb\rc");
    assert_all_selections(&buffer, Selection::default(), &[(0..3, "a\r\n"), (3..6, "b\rc")]);
}

#[test]
fn region_count_follows_the_last_byte() {
    for text in ["a\n", "a\n\n\nb\nc\n", "\n", "\n\n", "x\r\n"] {
        let buffer = plain(text);
        assert_eq!(all_selections(&buffer, Selection::default()).len(), buffer.len_lines() - 1);
    }
    for text in ["a", "a\nb", "\n\nc", "a\n\n\nb\nc", "a\r"] {
        let buffer = plain(text);
        assert_eq!(all_selections(&buffer, Selection::default()).len(), buffer.len_lines());
    }
}

#[test]
fn regions_ascend_without_overlap() {
    for text in ["", "a", "a\n\n\nb\nc\n", "one\ntwo\n\nthree", "\n\n\n"] {
        let buffer = plain(text);
        let selection = Selection::default();
        let pass = Line.iter(params(&buffer, &selection)).unwrap();
        let regions = collect_regions(pass);
        let mut covered = 0;
        for (index, region) in regions.iter().enumerate() {
            assert!(region.start() < region.end());
            assert_eq!(region.start(), covered);
            assert_eq!(buffer.line_to_byte_range(index), Ok(*region));
            covered = region.end();
        }
        assert_eq!(covered, buffer.len_bytes());
    }
}

#[test]
fn iter_starts_over() {
    let buffer = plain("a\n\n\nb\nc\n");
    let selection = Selection::default();
    let mut first = Line.iter(params(&buffer, &selection)).unwrap();
    assert_eq!(first.next(), ByteRange::new(0..2));
    assert_eq!(first.next(), ByteRange::new(2..3));
    let second = Line.iter(params(&buffer, &selection)).unwrap();
    let mut all = vec![ByteRange::new(0..2).unwrap(), ByteRange::new(2..3).unwrap()];
    all.extend(collect_regions(first));
    assert_eq!(collect_regions(second), all);
    assert_eq!(all.len(), 5);
}

#[test]
fn next_gives_none_at_the_end_and_after() {
    let buffer = plain("a\n");
    let selection = Selection::default();
    let mut pass = Line.iter(params(&buffer, &selection)).unwrap();
    assert_eq!(pass.next(), ByteRange::new(0..2));
    assert_eq!(pass.next(), None);
    assert_eq!(pass.next(), None);
}
