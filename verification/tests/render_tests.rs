use senime::render::{calc_pre_render, calc_pre_render_checked, RenderCell, COLOR_NORMAL};

fn chars(s: &str) -> Vec<char> {
    s.chars().collect()
}

fn row_text(row: &[RenderCell<u8>]) -> String {
    row.iter().map(|c| c.char.unwrap_or('.')).collect()
}

#[test]
fn rows_wrap_before_the_last_column_and_after_line_breaks() {
    let content = chars("abc\nd");
    let styles: Vec<(usize, Option<u8>)> = vec![];
    let (rows, cursor) = calc_pre_render(&content, &styles, 4, 10, 100, 0);
    assert_eq!(rows.len(), 3);
    assert_eq!(row_text(&rows[0]), ".ab.");
    assert_eq!(row_text(&rows[1]), ".c..");
    assert_eq!(row_text(&rows[2]), ".d..");
    // the cursor was not among the characters: it stands after the last one
    assert_eq!(cursor, (2, 2));
    for (j, cell) in rows[0].iter().enumerate() {
        assert_eq!(cell.x as usize, j);
    }
}

#[test]
fn cells_carry_text_indices_and_styles() {
    let content = chars("ab");
    let styles: Vec<(usize, Option<u8>)> = vec![(9, None), (0, Some(7)), (1, None)];
    let (rows, cursor) = calc_pre_render(&content, &styles, 5, 10, 1, 1);
    assert_eq!(rows.len(), 1);
    assert_eq!(rows[0][1].sentence_i, 1);
    assert_eq!(rows[0][1].style, (0, Some(7)));
    assert_eq!(rows[0][2].sentence_i, 2);
    assert_eq!(rows[0][2].style, (1, None));
    assert_eq!(rows[0][3].style, (COLOR_NORMAL, None));
    assert_eq!(cursor, (2, 0));
}

#[test]
fn wide_characters_take_two_columns() {
    let content = chars("你好a");
    let styles: Vec<(usize, Option<u8>)> = vec![];
    let (rows, cursor) = calc_pre_render(&content, &styles, 5, 10, 1, 0);
    assert_eq!(rows.len(), 2);
    assert_eq!(rows[0][1].char, Some('你'));
    assert_eq!(rows[0][3].char, None);
    assert_eq!(rows[1][1].char, Some('好'));
    assert_eq!(rows[1][3].char, Some('a'));
    assert_eq!(cursor, (1, 1));
}

#[test]
fn layout_stops_past_the_rows_wanted() {
    let content = chars("abc\nd");
    let styles: Vec<(usize, Option<u8>)> = vec![];
    let (rows, cursor) = calc_pre_render(&content, &styles, 4, 0, 0, 0);
    assert_eq!(rows.len(), 1);
    assert_eq!(row_text(&rows[0]), ".ab.");
    // the character that would start the next row is marked where it stood
    assert_eq!(rows[0][3].sentence_i, 2);
    assert_eq!(cursor, (1, 0));
}

#[test]
fn too_narrow_rows_are_refused() {
    let content = chars("你a");
    let styles: Vec<(usize, Option<u8>)> = vec![];
    assert!(calc_pre_render_checked(&content, &styles, 1, 10, 0, 0).is_none());
    assert!(calc_pre_render_checked(&content, &styles, 2, 10, 0, 0).is_none());
    assert!(calc_pre_render_checked(&content, &styles, 4, 10, 0, 0).is_some());
    let empty: Vec<char> = vec![];
    let (rows, cursor) = calc_pre_render_checked(&empty, &styles, 0, 0, 0, 0).unwrap();
    assert!(rows.is_empty());
    assert_eq!(cursor, (1, 0));
}
