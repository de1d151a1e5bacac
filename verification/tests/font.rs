use clustering_labs::font::{CharSymbol, SYMBOL_HEIGHT, SYMBOL_WIDTH, UNKNOWN};

#[test]
fn chars_consistency() {
    let tested_chars = "ABCDEFGHIJKLMNOPQRSTUVWXYZ0123456789 ";
    for char in tested_chars.chars() {
        let symbol = CharSymbol::get(char);
        assert_ne!(symbol.0, UNKNOWN);
        assert_eq!(
            symbol.height(),
            SYMBOL_HEIGHT,
            "height mismatch (got {} instead of {}) {}",
            symbol.height(),
            SYMBOL_HEIGHT,
            symbol.0
        );
        assert_eq!(
            symbol.width(),
            SYMBOL_WIDTH,
            "width mismatch (got {} instead of {}) {}",
            symbol.width(),
            SYMBOL_WIDTH,
            symbol.0
        );
    }
}

#[test]
fn unknown_chars_share_one_glyph() {
    for char in "abc!?-+\n\u{25a0}".chars() {
        assert_eq!(CharSymbol::get(char).0, UNKNOWN);
    }
    assert_eq!(CharSymbol::get('@').height(), 5);
    assert_eq!(CharSymbol::get('@').width(), 5);
}

#[test]
fn new_keeps_the_text() {
    let symbol = CharSymbol::new("\nab\ncd");
    assert_eq!(symbol.0, "\nab\ncd");
    assert_eq!(symbol.height(), 2);
    assert_eq!(symbol.width(), 2);
}

#[test]
fn height_counts_lines_as_std_does() {
    for text in ["x", "\n", "a\nb", "a\nb\n", "\n\n\n", "a\r\nb", "\na\n\nb\n", "\r", "ab\n\ncd"] {
        assert_eq!(CharSymbol::new(text).height(), text.lines().count() - 1, "{:?}", text);
    }
}

#[test]
fn width_is_the_length_of_the_lines_that_are_not_empty() {
    assert_eq!(CharSymbol::new("abc").try_width(), Some(3));
    assert_eq!(CharSymbol::new("\nabc\n\nxyz\n").try_width(), Some(3));
    assert_eq!(CharSymbol::new("ab\r\ncd").try_width(), Some(2));
    assert_eq!(CharSymbol::new("ab\r\ncd\r").try_width(), None);
    assert_eq!(CharSymbol::new("a\u{25a0}\n\u{25a0}\u{25a0}").try_width(), Some(2));
}

#[test]
fn width_is_absent_without_a_common_length() {
    assert_eq!(CharSymbol::new("").try_width(), None);
    assert_eq!(CharSymbol::new("\n\n").try_width(), None);
    assert_eq!(CharSymbol::new("\r\n").try_width(), None);
    assert_eq!(CharSymbol::new("ab\nc").try_width(), None);
    assert_eq!(CharSymbol::new("a\nbc\nd").try_width(), None);
}

#[test]
fn try_width_agrees_with_std_lines() {
    let texts =
        ["abc", "\nabc\nxyz", "ab\r\ncd", "ab\r\ncd\r", "q\n\nq\n", "\r\r\n\r\r", "a\n\r\nb"];
    for text in texts {
        let mut lengths: Vec<usize> =
            text.lines().map(|line| line.chars().count()).filter(|len| *len > 0).collect();
        lengths.dedup();
        let expected = if lengths.len() == 1 { Some(lengths[0]) } else { None };
        assert_eq!(CharSymbol::new(text).try_width(), expected, "{:?}", text);
    }
}

#[test]
fn rows_show_the_cells_of_a_glyph() {
    let rows = CharSymbol::get('A').rows();
    let picture: Vec<String> = rows
        .iter()
        .map(|row| row.iter().map(|filled| if *filled { '#' } else { '.' }).collect())
        .collect();
    assert_eq!(picture, vec![".##...", "#..#..", "#####.", "#....#", "#....#"]);
    assert_eq!(CharSymbol::get(' ').rows(), vec![vec![false; 6]; 5]);
    assert_eq!(CharSymbol::get('?').rows(), vec![vec![true; 5]; 5]);
}

#[test]
fn rows_leave_empty_lines_out() {
    assert_eq!(CharSymbol::new("").rows(), Vec::<Vec<bool>>::new());
    assert_eq!(CharSymbol::new("\n\n\r\n").rows(), Vec::<Vec<bool>>::new());
    assert_eq!(CharSymbol::new("\n x\n\nxx \n").rows(), vec![vec![false, true], vec![true, true, false]]);
    assert_eq!(CharSymbol::new("x\r\n x").rows(), vec![vec![true], vec![false, true]]);
    assert_eq!(CharSymbol::new("x\r").rows(), vec![vec![true, true]]);
}

#[test]
fn rows_agree_with_std_lines() {
    let texts = [
        "abc", "\nab c\nxyz", "ab\r\ncd", "ab\r\ncd\r", "q\n\nq\n", "\r\r\n\r\r", "a\n\r\nb", " \n  ",
        "\r\n", "\n", "",
    ];
    for text in texts {
        let expected: Vec<Vec<bool>> = text
            .lines()
            .filter(|line| !line.is_empty())
            .map(|line| line.chars().map(|c| c != ' ').collect())
            .collect();
        assert_eq!(CharSymbol::new(text).rows(), expected, "{:?}", text);
    }
}

#[test]
fn every_glyph_has_five_rows_of_six_cells() {
    for char in "ABCDEFGHIJKLMNOPQRSTUVWXYZ0123456789 ".chars() {
        let rows = CharSymbol::get(char).rows();
        assert_eq!(rows.len(), SYMBOL_HEIGHT);
        assert!(rows.iter().all(|row| row.len() == SYMBOL_WIDTH));
    }
}
