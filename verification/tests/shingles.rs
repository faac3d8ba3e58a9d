use shingles::{AsShingles, Shingles};

#[test]
fn shingles_empty_num() {
    let v = vec![1];
    let res: Vec<_> = v[..].as_shingles(2).collect();
    assert!(res.is_empty());
}

#[test]
fn shingles_num() {
    let v: Vec<_> = (0..10).collect();
    let expected: Vec<_> = v.windows(2).collect();
    let actual: Vec<_> = v.as_shingles(2).collect();
    assert_eq!(expected, actual);
}

#[test]
fn shingled_num_with_step() {
    let v: Vec<_> = (0..10).collect();
    let expected: Vec<_> = v.windows(2).enumerate()
        .filter(|&(i, _)| i % 3 == 0)
        .map(|(_, s)| s)
        .collect();
    let actual: Vec<_> = v.as_shingles_with_step(2, 3).collect();
    assert_eq!(expected, actual);
}

#[test]
fn shingles_str() {
    let expected = vec!["Прив", "риве", "ивет", "вет!"];
    let actual: Vec<_> = Shingles::new("Привет!", 4).collect();
    assert_eq!(expected, actual);
}

#[test]
fn shingles_str_with_step() {
    let expected = vec!["hell", "llo!"];
    let actual: Vec<_> = Shingles::new_with_step("hello!", 4, 2).collect();
    assert_eq!(expected, actual);
}

fn naive<T>(data: &[T], size: usize, step: usize) -> Vec<&[T]> {
    let mut out = Vec::new();
    let mut from = 0;
    while from + size <= data.len() {
        out.push(&data[from..from + size]);
        from += step;
    }
    out
}

#[test]
fn step_one_gives_a_window_at_every_position() {
    let v: Vec<u32> = (0..7).collect();
    for len in 0..=v.len() {
        for size in 1..=8 {
            let actual = v[..len].as_shingles(size).collect();
            let count = if len >= size { len - size + 1 } else { 0 };
            assert_eq!(count, actual.len());
            for (i, w) in actual.iter().enumerate() {
                assert_eq!(&v[i..i + size], *w);
            }
        }
    }
}

#[test]
fn window_count_for_steps() {
    let v: Vec<u8> = (0..10).collect();
    assert_eq!(9, v.as_shingles_with_step(2, 1).collect().len());
    assert_eq!(5, v.as_shingles_with_step(2, 2).collect().len());
    assert_eq!(3, v.as_shingles_with_step(2, 3).collect().len());
    assert_eq!(3, v.as_shingles_with_step(2, 4).collect().len());
    assert_eq!(2, v.as_shingles_with_step(2, 5).collect().len());
    assert_eq!(2, v.as_shingles_with_step(2, 8).collect().len());
    assert_eq!(1, v.as_shingles_with_step(2, 9).collect().len());
    assert_eq!(1, v.as_shingles_with_step(2, 100).collect().len());
    assert_eq!(1, v.as_shingles_with_step(10, 1).collect().len());
    assert_eq!(0, v.as_shingles_with_step(11, 1).collect().len());
}

#[test]
fn stepped_windows_are_every_kth_window_of_step_one() {
    let v: Vec<i64> = (0..13).collect();
    for len in 0..=v.len() {
        for size in 1..=5 {
            for step in 1..=6 {
                let all = v[..len].as_shingles(size).collect();
                let expected: Vec<&[i64]> = all.iter().step_by(step).cloned().collect();
                let actual = v[..len].as_shingles_with_step(size, step).collect();
                assert_eq!(expected, actual);
                assert_eq!(naive(&v[..len], size, step), actual);
            }
        }
    }
}

#[test]
fn slice_next_moves_by_step_and_stays_once_exhausted() {
    let v = [10, 20, 30, 40, 50];
    let mut sh = Shingles::new_with_step(&v[..], 2, 3);
    assert_eq!(Some(&v[0..2]), sh.next());
    assert_eq!(&v[3..], sh.data);
    assert_eq!(Some(&v[3..5]), sh.next());
    assert_eq!(0, sh.data.len());
    assert_eq!(None, sh.next());
    assert_eq!(None, sh.next());
    assert_eq!(2, sh.size);
    assert_eq!(3, sh.step);
}

#[test]
fn slice_step_past_the_end_uses_up_the_data() {
    let v = [1, 2, 3];
    let mut sh = v.as_shingles_with_step(2, 7);
    assert_eq!(Some(&v[0..2]), sh.next());
    assert!(sh.data.is_empty());
    assert_eq!(None, sh.next());
}

#[test]
fn slice_without_a_window_keeps_its_data() {
    let v = [1, 2, 3];
    let mut sh = v.as_shingles(4);
    assert_eq!(None, sh.next());
    assert_eq!(&v[..], sh.data);
}

#[test]
fn window_as_long_as_the_data() {
    let v = [1, 2, 3];
    assert_eq!(vec![&v[..]], v.as_shingles(3).collect());
    assert_eq!(vec!["абв"], "абв".as_shingles(3).collect());
    assert_eq!(vec!["абв"], "абв".as_shingles_with_step(3, 5).collect());
}

#[test]
fn empty_data_gives_no_window() {
    let v: [u8; 0] = [];
    assert!(v.as_shingles(1).collect().is_empty());
    assert!("".as_shingles(1).collect().is_empty());
    assert!("".as_shingles_with_step(3, 2).collect().is_empty());
}

#[test]
fn text_shorter_than_a_window_gives_no_window() {
    assert!("ab".as_shingles(3).collect().is_empty());
    assert!("яя".as_shingles(3).collect().is_empty());
    let mut sh = Shingles::new("яяя", 4);
    assert_eq!(None, sh.next());
    assert_eq!("яя", sh.data);
    assert_eq!(None, sh.next());
    assert_eq!("я", sh.data);
    assert_eq!(None, sh.next());
    assert_eq!("", sh.data);
    assert_eq!(None, sh.next());
    assert_eq!("", sh.data);
}

#[test]
fn text_next_moves_by_characters() {
    let mut sh = Shingles::new_with_step("привет!", 4, 2);
    assert_eq!(Some("прив"), sh.next());
    assert_eq!("ивет!", sh.data);
    assert_eq!(Some("ивет"), sh.next());
    assert_eq!("ет!", sh.data);
    assert_eq!(None, sh.next());
    assert_eq!("!", sh.data);
    assert_eq!(None, sh.next());
    assert_eq!("", sh.data);
}

#[test]
fn text_step_past_the_end_uses_up_the_text() {
    let mut sh = "hello".as_shingles_with_step(2, 9);
    assert_eq!(Some("he"), sh.next());
    assert_eq!("", sh.data);
    assert_eq!(None, sh.next());
}

#[test]
fn text_windows_count_characters_not_bytes() {
    let text = "aé€😀b";
    assert_eq!(11, text.len());
    let actual = text.as_shingles(2).collect();
    assert_eq!(vec!["aé", "é€", "€😀", "😀b"], actual);
    let stepped = text.as_shingles_with_step(3, 2).collect();
    assert_eq!(vec!["aé€", "€😀b"], stepped);
    assert_eq!(vec!["a", "é", "€", "😀", "b"], text.as_shingles(1).collect());
}

#[test]
fn text_windows_begin_and_end_on_character_boundaries() {
    let text = "zß水🦀ж!";
    let count = text.chars().count();
    for size in 1..=7 {
        for step in 1..=7 {
            let actual = text.as_shingles_with_step(size, step).collect();
            let expected = if count >= size { (count - size) / step + 1 } else { 0 };
            assert_eq!(expected, actual.len());
            for (i, w) in actual.iter().enumerate() {
                let start = w.as_ptr() as usize - text.as_ptr() as usize;
                assert!(text.is_char_boundary(start));
                assert!(text.is_char_boundary(start + w.len()));
                assert_eq!(size, w.chars().count());
                assert_eq!(i * step, text[..start].chars().count());
            }
        }
    }
}

#[test]
fn text_windows_match_windows_over_the_characters() {
    let text = "Привет, мир! 😀";
    let chars: Vec<char> = text.chars().collect();
    for size in 1..=5 {
        for step in 1..=4 {
            let expected: Vec<String> = chars
                .as_shingles_with_step(size, step)
                .collect()
                .iter()
                .map(|w| w.iter().collect())
                .collect();
            let actual = text.as_shingles_with_step(size, step).collect();
            assert_eq!(expected, actual);
        }
    }
}

#[test]
fn equal_windowers_give_equal_windows() {
    let v: Vec<u32> = (0..20).collect();
    let w = v.clone();
    assert_eq!(
        v.as_shingles_with_step(4, 3).collect(),
        w.as_shingles_with_step(4, 3).collect()
    );
    let s = String::from("шла Саша по шоссе");
    let t = s.clone();
    assert_eq!(
        s.as_shingles_with_step(3, 2).collect(),
        t.as_shingles_with_step(3, 2).collect()
    );
    let mut a = Shingles::new(&s[..], 5);
    let mut b = Shingles::new(&t[..], 5);
    loop {
        let (x, y) = (a.next(), b.next());
        assert_eq!(x, y);
        assert_eq!(a.data, b.data);
        if x.is_none() {
            break;
        }
    }
}

#[test]
fn collect_gives_what_is_left() {
    let v = [1, 2, 3, 4, 5];
    let mut sh = v.as_shingles(2);
    assert_eq!(Some(&v[0..2]), sh.next());
    assert_eq!(vec![&v[1..3], &v[2..4], &v[3..5]], sh.collect());
    let mut text = "hello".as_shingles(4);
    assert_eq!(Some("hell"), text.next());
    assert_eq!(vec!["ello"], text.collect());
}

#[test]
fn new_has_step_one() {
    let v = [1, 2, 3];
    let sh = Shingles::new(&v[..], 2);
    assert_eq!(2, sh.size);
    assert_eq!(1, sh.step);
    assert_eq!(&v[..], sh.data);
    let st = Shingles::new_with_step("abc", 2, 5);
    assert_eq!(2, st.size);
    assert_eq!(5, st.step);
    assert_eq!("abc", st.data);
}
