use iirs::sort::{comes_first, sort_irs};
use iirs::strings::{
    int_size, push_decimal, push_letters, push_letters_reversed, push_padding, push_spaces,
    push_text,
};

#[test]
fn test_int_size() {
    assert_eq!(int_size(0), 1);
    assert_eq!(int_size(9), 1);
    assert_eq!(int_size(10), 2);
    assert_eq!(int_size(99), 2);
    assert_eq!(int_size(100), 3);
    assert_eq!(int_size(123456789), 9);
    assert_eq!(int_size(usize::MAX), usize::MAX.to_string().len());
}

#[test]
fn test_push_decimal() {
    for x in [0u128, 7, 10, 42, 100, 9999, 10000, 1234567890, u128::MAX] {
        let mut out = String::from("n=");
        push_decimal(&mut out, x);
        assert_eq!(out, format!("n={}", x));
    }
}

#[test]
fn test_push_pieces() {
    let mut out = String::new();
    push_text(&mut out, "ab");
    push_spaces(&mut out, 3);
    push_padding(&mut out, 9, 7);
    push_padding(&mut out, 9, 9);
    push_padding(&mut out, 9, 12);
    push_letters(&mut out, b"acgtn", 1, 4);
    push_letters(&mut out, b"acgtn", 4, 1);
    push_letters_reversed(&mut out, b"acgtn", 1, 4);
    push_letters_reversed(&mut out, b"acgtn", 3, 3);
    assert_eq!(out, "ab     cgttgc");
}

#[test]
fn test_comes_first() {
    // By first position, then by gap, then by last position backwards.
    assert!(comes_first(&(1, 9, 5), &(2, 3, 0)));
    assert!(!comes_first(&(2, 3, 0), &(1, 9, 5)));
    assert!(comes_first(&(2, 26, 1), &(2, 29, 2)));
    assert!(!comes_first(&(2, 29, 2), &(2, 26, 1)));
    assert!(comes_first(&(4, 29, 0), &(4, 25, 0)));
    assert!(!comes_first(&(4, 25, 0), &(4, 29, 0)));
    assert!(comes_first(&(4, 25, 0), &(4, 25, 0)));
}

#[test]
fn test_sort_irs() {
    let mut irs = vec![
        (7, 29, 1),
        (2, 29, 2),
        (4, 25, 0),
        (1, 29, 1),
        (7, 30, 0),
        (2, 26, 1),
        (4, 29, 0),
        (4, 25, 0),
    ];
    sort_irs(&mut irs);
    assert_eq!(
        irs,
        vec![
            (1, 29, 1),
            (2, 26, 1),
            (2, 29, 2),
            (4, 29, 0),
            (4, 25, 0),
            (4, 25, 0),
            (7, 30, 0),
            (7, 29, 1),
        ]
    );
    let mut none: Vec<(usize, usize, usize)> = vec![];
    sort_irs(&mut none);
    assert_eq!(none, vec![]);
    let mut many: Vec<(usize, usize, usize)> = (0..1000).map(|i| ((i * 7919) % 1000, i, 0)).collect();
    sort_irs(&mut many);
    assert!(many.windows(2).all(|w| w[0].0 < w[1].0));
}
