use str_windows::str_windows;

#[test]
fn it_works() {
    let test_str = "test str_😃";
    let expected_arr = ["te", "es", "st", "t ", " s", "st", "tr", "r_", "_😃"];
    for (test, &expected) in str_windows(test_str, 2).zip(expected_arr.iter()) {
        println!("{} = {}", test, expected);
        assert_eq!(test, expected);
    }
    assert_eq!(str_windows(test_str, 2).count(), expected_arr.len());
}

#[test]
fn degenerate() {
    let test_str = "any string";
    let mut iter = str_windows(test_str, 0);
    for _ in 0..100 {
        assert_eq!(iter.next(), Some(""));
    }
}

#[test]
fn test() {
    let datas = [
        (
            "hello, 你好, hi",
            &[
                &[
                    "h",
                    "e",
                    "l",
                    "l",
                    "o",
                    ",",
                    " ",
                    "你",
                    "好",
                    ",",
                    " ",
                    "h",
                    "i",
                ][..],
                &[
                    "he",
                    "el",
                    "ll",
                    "lo",
                    "o,",
                    ", ",
                    " 你",
                    "你好",
                    "好,",
                    ", ",
                    " h",
                    "hi",
                ],
                &[
                    "hel",
                    "ell",
                    "llo",
                    "lo,",
                    "o, ",
                    ", 你",
                    " 你好",
                    "你好,",
                    "好, ",
                    ", h",
                    " hi",
                ],
                &[
                    "hell",
                    "ello",
                    "llo,",
                    "lo, ",
                    "o, 你",
                    ", 你好",
                    " 你好,",
                    "你好, ",
                    "好, h",
                    ", hi",
                ],
                &[
                    "hello",
                    "ello,",
                    "llo, ",
                    "lo, 你",
                    "o, 你好",
                    ", 你好,",
                    " 你好, ",
                    "你好, h",
                    "好, hi",
                ],
            ][..]
        ),
        (
            "头尾都是",
            &[
                &[
                    "头",
                    "尾",
                    "都",
                    "是",
                ][..],
                &[
                    "头尾",
                    "尾都",
                    "都是",
                ],
                &[
                    "头尾都",
                    "尾都是",
                ],
                &[
                    "头尾都是",
                ],
            ][..]
        ),
        (
            "头部是!",
            &[
                &[
                    "头",
                    "部",
                    "是",
                    "!",
                ][..],
                &[
                    "头部",
                    "部是",
                    "是!",
                ],
                &[
                    "头部是",
                    "部是!",
                ],
                &[
                    "头部是!",
                ],
            ][..]
        ),
        (
            ": 尾部是",
            &[
                &[
                    ":",
                    " ",
                    "尾",
                    "部",
                    "是",
                ][..],
                &[
                    ": ",
                    " 尾",
                    "尾部",
                    "部是",
                ],
                &[
                    ": 尾",
                    " 尾部",
                    "尾部是",
                ],
                &[
                    ": 尾部",
                    " 尾部是",
                ],
                &[
                    ": 尾部是",
                ],
            ][..]
        ),
    ];
    for (src, tests) in datas {
        for (i, &test) in tests.iter().enumerate() {
            assert_eq!(str_windows(src, i+1).collect::<Vec<_>>(), test);
        }
    }
}

#[test]
fn size_hint_test() {
    let src = "abcde";
    assert_eq!(str_windows(src, 0).size_hint(), (usize::MAX, None));
    assert_eq!(str_windows(src, 1).size_hint(), (2, Some(5)));
    assert_eq!(str_windows(src, 2).size_hint(), (1, Some(4)));
    assert_eq!(str_windows(src, 3).size_hint(), (0, Some(3)));
    assert_eq!(str_windows(src, 4).size_hint(), (0, Some(2)));
    assert_eq!(str_windows(src, 5).size_hint(), (0, Some(1)));
    assert_eq!(str_windows(src, 6).size_hint(), (0, Some(0)));
    assert_eq!(str_windows(src, 7).size_hint(), (0, Some(0)));
}
