use shingles::{AsShingles2D, Pos, Shingles2D};

#[test]
fn shingles_2d_empty_str() {
    let s = ["", ""];
    let actual: Vec<_> = s.as_shingles_2d([2, 2]).collect();
    assert!(actual.is_empty());
}

#[test]
fn shingles_2d_num() {
    let a: Vec<_> = (1..9).collect();
    let v: Vec<_> = a.chunks(4).collect();

    let expected = vec![
        vec![&v[0][0..2], &v[1][0..2]],
        vec![&v[0][1..3], &v[1][1..3]],
        vec![&v[0][2..4], &v[1][2..4]],
    ];
    let actual: Vec<_> = v[..].as_shingles_2d([2, 2]).collect();
    assert_eq!(expected, actual);
}

#[test]
fn shingles_2d_num_with_step() {
    let a: Vec<_> = (1..9).collect();
    let v: Vec<_> = a.chunks(4).collect();

    let expected = vec![
        vec![&v[0][0..2], &v[1][0..2]],
        vec![&v[0][2..4], &v[1][2..4]],
    ];
    let actual: Vec<_> = v[..].as_shingles_2d_with_step([2, 2], [2, 2]).collect();
    assert_eq!(expected, actual);
}

#[test]
fn shingles_2d_str() {
    let v: Vec<_> = "abcd\n\
                     efgh\n\
                     ijkl"
        .split_terminator("\n")
        .collect();
    let expected = vec![
        vec![&v[0][0..3], &v[1][0..3], &v[2][0..3]],
        vec![&v[0][1..4], &v[1][1..4], &v[2][1..4]],
    ];
    let actual: Vec<_> = v[..].as_shingles_2d([3, 3]).collect();
    assert_eq!(expected, actual);
}

#[test]
fn shingles_2d_str_with_step() {
    let v: Vec<_> = "abcd\n\
                     efgh"
        .split_terminator("\n")
        .collect();
    let expected = vec![
        vec![&v[0][0..2], &v[1][0..2]],
        vec![&v[0][2..4], &v[1][2..4]],
    ];
    let actual: Vec<_> = v[..].as_shingles_2d_with_step([2, 2], [2, 2]).collect();
    assert_eq!(expected, actual);
}

#[test]
fn grid_next_moves_the_column_then_the_rows() {
    let a = [1, 2, 3];
    let b = [4, 5, 6];
    let c = [7, 8, 9];
    let rows = [&a[..], &b[..], &c[..]];
    let mut sh = Shingles2D::new(&rows[..], [2, 2]);
    assert!(matches!(sh.pos_x, Pos::Unset));
    assert_eq!(Some(vec![&a[0..2], &b[0..2]]), sh.next());
    assert!(matches!(sh.pos_x, Pos::Val(1)));
    assert_eq!(3, sh.data.len());
    assert_eq!(Some(vec![&a[1..3], &b[1..3]]), sh.next());
    assert!(matches!(sh.pos_x, Pos::Val(2)));
    assert_eq!(Some(vec![&b[0..2], &c[0..2]]), sh.next());
    assert!(matches!(sh.pos_x, Pos::Val(1)));
    assert_eq!(2, sh.data.len());
    assert_eq!(Some(vec![&b[1..3], &c[1..3]]), sh.next());
    assert_eq!(None, sh.next());
    assert!(matches!(sh.pos_x, Pos::Val(0)));
    assert_eq!(1, sh.data.len());
    assert_eq!(None, sh.next());
    assert_eq!(1, sh.data.len());
    assert_eq!([2, 2], sh.size);
    assert_eq!([1, 1], sh.step);
}

#[test]
fn grid_rows_step_by_the_row_step() {
    let a: Vec<u8> = (0..12).collect();
    let rows: Vec<&[u8]> = a.chunks(2).collect();
    let actual = rows[..].as_shingles_2d_with_step([2, 2], [1, 3]).collect();
    let expected = vec![
        vec![&rows[0][..], &rows[1][..]],
        vec![&rows[3][..], &rows[4][..]],
    ];
    assert_eq!(expected, actual);
    let wide = rows[..].as_shingles_2d_with_step([1, 3], [1, 2]).collect();
    let expected = vec![
        vec![&rows[0][0..1], &rows[1][0..1], &rows[2][0..1]],
        vec![&rows[0][1..2], &rows[1][1..2], &rows[2][1..2]],
        vec![&rows[2][0..1], &rows[3][0..1], &rows[4][0..1]],
        vec![&rows[2][1..2], &rows[3][1..2], &rows[4][1..2]],
    ];
    assert_eq!(expected, wide);
}

#[test]
fn grid_row_step_past_the_end_uses_up_the_rows() {
    let a = [1, 2];
    let b = [3, 4];
    let rows = [&a[..], &b[..]];
    let mut sh = rows.as_shingles_2d_with_step([2, 1], [1, 9]);
    assert_eq!(Some(vec![&a[..]]), sh.next());
    assert_eq!(None, sh.next());
    assert!(sh.data.is_empty());
}

#[test]
fn grid_short_rows_are_clipped() {
    let a = [1, 2, 3, 4];
    let b = [5];
    let c: [i32; 0] = [];
    let rows = [&a[..], &b[..], &c[..]];
    let actual = rows.as_shingles_2d_with_step([2, 3], [1, 1]).collect();
    let expected = vec![
        vec![&a[0..2], &b[0..1], &c[0..0]],
        vec![&a[1..3], &b[1..1], &c[0..0]],
        vec![&a[2..4], &b[1..1], &c[0..0]],
    ];
    assert_eq!(expected, actual);
}

#[test]
fn grid_needs_one_row_of_full_width() {
    let a = [1];
    let b = [2];
    let c = [3, 4];
    let d = [5, 6, 7];
    let rows = [&a[..], &b[..], &c[..], &d[..]];
    let actual = rows.as_shingles_2d([2, 2]).collect();
    let expected = vec![
        vec![&b[0..1], &c[0..2]],
        vec![&c[0..2], &d[0..2]],
        vec![&c[1..2], &d[1..3]],
    ];
    assert_eq!(expected, actual);
}

#[test]
fn grid_with_too_few_rows_gives_no_window() {
    let a = [1, 2, 3];
    let one = [&a[..]];
    assert!(one.as_shingles_2d([2, 2]).collect().is_empty());
    let none: [&[i32]; 0] = [];
    assert!(none.as_shingles_2d([1, 1]).collect().is_empty());
    let text = ["abc"];
    assert!(text.as_shingles_2d([2, 2]).collect().is_empty());
    let no_text: [&str; 0] = [];
    assert!(no_text.as_shingles_2d([1, 1]).collect().is_empty());
    let mut sh = Shingles2D::new(&text[..], [1, 2]);
    assert_eq!(None, sh.next());
    assert!(matches!(sh.pos_x, Pos::Unset));
    assert_eq!(1, sh.data.len());
}

#[test]
fn grid_of_narrow_rows_gives_no_window() {
    let a = [1];
    let b = [2];
    let rows = [&a[..], &b[..]];
    assert!(rows.as_shingles_2d([2, 2]).collect().is_empty());
    let empty: [&[u8]; 3] = [&[], &[], &[]];
    assert!(empty.as_shingles_2d([1, 2]).collect().is_empty());
    let text = ["я", "ю", ""];
    assert!(text.as_shingles_2d([2, 2]).collect().is_empty());
}

#[test]
fn grid_column_cursor_stops_at_the_largest() {
    let a = [1, 2, 3];
    let rows = [&a[..]];
    let mut sh = rows.as_shingles_2d_with_step([1, 1], [usize::MAX, 1]);
    assert_eq!(Some(vec![&a[0..1]]), sh.next());
    assert!(matches!(sh.pos_x, Pos::Val(usize::MAX)));
    assert_eq!(None, sh.next());
    let mut far = rows.as_shingles_2d_with_step([1, 1], [usize::MAX - 1, 1]);
    assert_eq!(Some(vec![&a[0..1]]), far.next());
    assert!(matches!(far.pos_x, Pos::Val(p) if p == usize::MAX - 1));
    assert_eq!(None, far.next());
    let mut wide = Shingles2D::new(&rows[..], [usize::MAX, 1]);
    assert_eq!(None, wide.next());
}

#[test]
fn text_grid_keeps_a_cursor_for_each_row() {
    let rows = ["aбв", "гдe", "жзи"];
    let mut sh = Shingles2D::new(&rows[..], [2, 2]);
    assert_eq!(Some(vec!["aб", "гд"]), sh.next());
    match &sh.pos_x {
        Pos::List(v) => assert_eq!(&vec![1, 2], v),
        _ => panic!("no cursors"),
    }
    assert_eq!(Some(vec!["бв", "дe"]), sh.next());
    match &sh.pos_x {
        Pos::List(v) => assert_eq!(&vec![3, 4], v),
        _ => panic!("no cursors"),
    }
    assert_eq!(Some(vec!["гд", "жз"]), sh.next());
    assert_eq!(2, sh.data.len());
    match &sh.pos_x {
        Pos::List(v) => assert_eq!(&vec![2, 2], v),
        _ => panic!("no cursors"),
    }
    assert_eq!(Some(vec!["дe", "зи"]), sh.next());
    assert_eq!(None, sh.next());
    assert_eq!(1, sh.data.len());
    match &sh.pos_x {
        Pos::List(v) => assert_eq!(&vec![0, 0], v),
        _ => panic!("no cursors"),
    }
    assert_eq!(None, sh.next());
}

#[test]
fn text_grid_short_rows_are_clipped() {
    let rows = ["абвг", "д", ""];
    let actual = rows.as_shingles_2d([2, 3]).collect();
    let expected = vec![
        vec!["аб", "д", ""],
        vec!["бв", "", ""],
        vec!["вг", "", ""],
    ];
    assert_eq!(expected, actual);
}

#[test]
fn text_grid_steps_by_characters() {
    let rows = ["😀😀😀😀😀", "abcde", "ééééé", "12"];
    let actual = rows.as_shingles_2d_with_step([2, 2], [3, 2]).collect();
    let expected = vec![
        vec!["😀😀", "ab"],
        vec!["😀😀", "de"],
        vec!["éé", "12"],
        vec!["éé", ""],
    ];
    assert_eq!(expected, actual);
}

#[test]
fn text_grid_matches_grid_over_the_characters() {
    let lines = ["Привет, мир", "hello", "", "日本語のテキスト", "🦀 краб", "x"];
    let chars: Vec<Vec<char>> = lines.iter().map(|l| l.chars().collect()).collect();
    let rows: Vec<&[char]> = chars.iter().map(|r| &r[..]).collect();
    for width in 1..=4 {
        for height in 1..=3 {
            for step_x in 1..=3 {
                for step_y in 1..=3 {
                    let size = [width, height];
                    let step = [step_x, step_y];
                    let expected: Vec<Vec<String>> = rows[..]
                        .as_shingles_2d_with_step(size, step)
                        .collect()
                        .iter()
                        .map(|w| w.iter().map(|part| part.iter().collect()).collect())
                        .collect();
                    let actual = lines[..].as_shingles_2d_with_step(size, step).collect();
                    assert_eq!(expected, actual);
                }
            }
        }
    }
}

#[test]
fn grid_windows_are_blocks_of_rows_and_runs_of_columns() {
    let a: Vec<u32> = (0..30).collect();
    let rows: Vec<&[u32]> = vec![&a[0..5], &a[5..8], &a[8..8], &a[8..15], &a[15..16], &a[16..22]];
    for width in 1..=4 {
        for height in 1..=4 {
            for step_x in 1..=3 {
                for step_y in 1..=3 {
                    let mut expected: Vec<Vec<&[u32]>> = Vec::new();
                    let mut top = 0;
                    while top + height <= rows.len() {
                        let block = &rows[top..top + height];
                        let widest = block.iter().map(|r| r.len()).max().unwrap();
                        let mut pos = 0;
                        while pos + width <= widest {
                            expected.push(
                                block
                                    .iter()
                                    .map(|r| &r[pos.min(r.len())..(pos + width).min(r.len())])
                                    .collect(),
                            );
                            pos += step_x;
                        }
                        top += step_y;
                    }
                    let actual = rows[..]
                        .as_shingles_2d_with_step([width, height], [step_x, step_y])
                        .collect();
                    assert_eq!(expected, actual);
                }
            }
        }
    }
}

#[test]
fn equal_grids_give_equal_windows() {
    let a: Vec<u8> = (0..12).collect();
    let b = a.clone();
    let rows_a: Vec<&[u8]> = a.chunks(3).collect();
    let rows_b: Vec<&[u8]> = b.chunks(3).collect();
    assert_eq!(
        rows_a[..].as_shingles_2d([2, 2]).collect(),
        rows_b[..].as_shingles_2d([2, 2]).collect()
    );
    let s = String::from("один\nдва\nтри");
    let t = s.clone();
    let lines_s: Vec<&str> = s.lines().collect();
    let lines_t: Vec<&str> = t.lines().collect();
    assert_eq!(
        lines_s[..].as_shingles_2d_with_step([2, 2], [2, 1]).collect(),
        lines_t[..].as_shingles_2d_with_step([2, 2], [2, 1]).collect()
    );
}

#[test]
fn grid_collect_gives_what_is_left() {
    let rows = ["abc", "def"];
    let mut sh = rows.as_shingles_2d([2, 2]);
    assert_eq!(Some(vec!["ab", "de"]), sh.next());
    assert_eq!(vec![vec!["bc", "ef"]], sh.collect());
    let a = [1, 2, 3];
    let b = [4, 5, 6];
    let nums = [&a[..], &b[..]];
    let mut sh = nums.as_shingles_2d([2, 2]);
    assert_eq!(Some(vec![&a[0..2], &b[0..2]]), sh.next());
    assert_eq!(vec![vec![&a[1..3], &b[1..3]]], sh.collect());
}

#[test]
fn grid_new_has_step_one() {
    let rows = ["abc", "def"];
    let sh = Shingles2D::new(&rows[..], [2, 1]);
    assert_eq!([2, 1], sh.size);
    assert_eq!([1, 1], sh.step);
    assert_eq!(2, sh.data.len());
    assert!(matches!(sh.pos_x, Pos::Unset));
    let st = Shingles2D::new_with_step(&rows[..], [2, 1], [3, 4]);
    assert_eq!([3, 4], st.step);
}
