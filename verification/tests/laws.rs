use str_windows::str_windows;

const TEXTS: [&str; 8] = [
    "",
    "a",
    "abcde",
    "hello, 你好, hi",
    "头尾都是",
    "s 😀😁",
    "aé你😀aé你😀",
    "\u{0}\u{7f}\u{80}\u{7ff}\u{800}\u{ffff}\u{10000}\u{10ffff}",
];

#[test]
fn window_count_is_len_minus_size_plus_one() {
    for text in TEXTS {
        let n = text.chars().count();
        for size in 1..=n + 3 {
            let expected = if n >= size { n - size + 1 } else { 0 };
            assert_eq!(str_windows(text, size).count(), expected);
        }
    }
    assert_eq!(str_windows("hello, 你好, hi", 3).count(), 11);
}

#[test]
fn every_window_holds_size_scalar_values() {
    for text in TEXTS {
        for size in 1..=text.chars().count() + 1 {
            for window in str_windows(text, size) {
                assert_eq!(window.chars().count(), size);
            }
        }
    }
}

#[test]
fn windows_slide_by_one_scalar_value() {
    for text in TEXTS {
        let chars: Vec<char> = text.chars().collect();
        for size in 1..=chars.len() {
            let windows: Vec<&str> = str_windows(text, size).collect();
            for i in 0..windows.len() {
                let expected: String = chars[i..i + size].iter().collect();
                assert_eq!(windows[i], expected);
            }
            for i in 1..windows.len() {
                let mut slid: String = windows[i - 1].chars().skip(1).collect();
                slid.push(chars[i - 1 + size]);
                assert_eq!(windows[i], slid);
            }
        }
    }
}

#[test]
fn exhaustion_is_final() {
    for text in TEXTS {
        for size in 1..=text.chars().count() + 2 {
            let mut iter = str_windows(text, size);
            while iter.next().is_some() {}
            for _ in 0..10 {
                assert_eq!(iter.next(), None);
            }
        }
    }
}

#[test]
fn window_heads_spell_the_text_without_its_tail() {
    for text in TEXTS {
        let n = text.chars().count();
        for size in 1..=n + 1 {
            let heads: String =
                str_windows(text, size).map(|w| w.chars().next().unwrap()).collect();
            let kept = if n >= size { n - size + 1 } else { 0 };
            let expected: String = text.chars().take(kept).collect();
            assert_eq!(heads, expected);
        }
    }
    let heads: String = str_windows("abcde", 3).map(|w| w.chars().next().unwrap()).collect();
    assert_eq!(heads, "abc");
}

#[test]
fn size_hint_brackets_the_windows_left() {
    for text in TEXTS {
        let n = text.chars().count();
        for size in 1..=n + 2 {
            let total = if n >= size { n - size + 1 } else { 0 };
            let mut produced = 0;
            let mut iter = str_windows(text, size);
            loop {
                let (lower, upper) = iter.size_hint();
                let left = total - produced;
                assert!(lower <= left);
                assert!(left <= upper.unwrap());
                if iter.next().is_none() {
                    break;
                }
                produced += 1;
            }
            assert_eq!(produced, total);
        }
    }
}

#[test]
fn size_hint_counts_bytes_not_scalar_values() {
    // 12 bytes in 4 scalar values: at least 3 and at most 12 scalar values.
    assert_eq!(str_windows("头尾都是", 1).size_hint(), (3, Some(12)));
    assert_eq!(str_windows("头尾都是", 2).size_hint(), (2, Some(11)));
    assert_eq!(str_windows("头尾都是", 4).size_hint(), (0, Some(9)));
    assert_eq!(str_windows("头尾都是", 13).size_hint(), (0, Some(0)));
    // 8 bytes in 2 scalar values.
    assert_eq!(str_windows("😀😁", 1).size_hint(), (2, Some(8)));
    assert_eq!(str_windows("😀😁", 2).size_hint(), (1, Some(7)));
    assert_eq!(str_windows("", 1).size_hint(), (0, Some(0)));
    assert_eq!(str_windows("a", 1).size_hint(), (1, Some(1)));
    assert_eq!(str_windows("abcd", 1).size_hint(), (1, Some(4)));
    assert_eq!(str_windows("abcdefghi", 2).size_hint(), (2, Some(8)));
    assert_eq!(str_windows("abc", usize::MAX).size_hint(), (0, Some(0)));
}

#[test]
fn size_hint_follows_the_cursor() {
    let mut iter = str_windows("ab你好", 2);
    assert_eq!(iter.size_hint(), (1, Some(7)));
    assert_eq!(iter.next(), Some("ab"));
    assert_eq!(iter.size_hint(), (1, Some(6)));
    assert_eq!(iter.next(), Some("b你"));
    assert_eq!(iter.size_hint(), (1, Some(5)));
    assert_eq!(iter.next(), Some("你好"));
    assert_eq!(iter.size_hint(), (0, Some(2)));
    assert_eq!(iter.next(), None);
    assert_eq!(iter.size_hint(), (0, Some(2)));
}
