use arithmetic_coding::fenwick::FenwickTree;

#[test]
fn test_create_4() {
    let mut ft = FenwickTree::new(257, Some(1));
    ft.add(256, 1);
}

#[test]
fn test_sum_medium() {
    let size = 8000;
    let ft = FenwickTree::new(size, None);
    for i in 1..=size {
        assert_eq!(ft.sum(i - 1), i as u32);
    }
}

#[test]
fn test_add_medium() {
    let size = 8000;
    let mut ft = FenwickTree::new(size, Some(2));
    assert_eq!(ft.sum(size - 1), 2 * size as u32);
    ft.add(599, 1);
    ft.add(599, 1);
    ft.add(777, 1);
    ft.add(111, 1);
    ft.add(7999, 1);
    assert_eq!(ft.sum(size - 1), 5 + 2 * size as u32);
}

#[test]
fn test_scale_1() {
    let size = 8;
    let mut ft = FenwickTree::new(size, Some(2));
    ft.scale(2);
    assert_eq!(ft.sum(7), 8);
}

#[test]
fn test_scale_2() {
    let size = 8;
    let mut ft = FenwickTree::new(size, Some(4));
    ft.scale(2);
    assert_eq!(ft.sum(7), 16);
}

#[test]
fn test_scale_3() {
    let size = 8;
    let mut ft = FenwickTree::new(size, Some(3));
    ft.scale(2);
    assert_eq!(ft.sum(7), 16);
}

#[test]
fn test_lower_1() {
    let size = 8;
    let ft = FenwickTree::new(size, None);
    assert_eq!(ft.lower(2), 1);
}

#[test]
fn test_lower_2() {
    let size = 8;
    let mut ft = FenwickTree::new(size, Some(0));
    ft.add(5, 1);
    assert_eq!(ft.lower(1), 5);
    assert_eq!(ft.lower(0), 0);
}

#[test]
fn test_lower_3() {
    let size = 8;
    let mut ft = FenwickTree::new(size, Some(0));
    ft.add(5, 2);
    ft.add(6, 1);
    assert_eq!(ft.lower(3), 6);
    assert_eq!(ft.lower(2), 5);
    assert_eq!(ft.sum(4), 0);
    assert_eq!(ft.lower(1), 5);
}

#[test]
fn test_lower_4() {
    let size = 8;
    let mut ft = FenwickTree::new(size, Some(0));
    ft.add(0, 1);
    ft.add(2, 1);
    assert_eq!(ft.lower(1), 0);
    assert_eq!(ft.lower(2), 2);
    assert_eq!(ft.lower(3), 8);
}

#[test]
fn test_upper_1() {
    let size = 8;
    let mut ft = FenwickTree::new(size, Some(0));
    ft.add(0, 1);
    ft.add(2, 1);
    assert_eq!(ft.upper(1), 2);
    assert_eq!(ft.upper(2), 8);
    assert_eq!(ft.upper(3), 8);
}

#[test]
fn test_total_1() {
    let size = 16;
    let ft = FenwickTree::new(size, Some(1));
    assert_eq!(ft.total(), 16);
}

#[test]
fn test_total_2() {
    let size = 127;
    let ft = FenwickTree::new(size, Some(1));
    assert_eq!(ft.total(), 127);
}

#[test]
fn test_freq_1() {
    let size = 127;
    let ft = FenwickTree::new(size, Some(1));
    for i in 0..127 {
        assert_eq!(ft.freq(i), 1);
    }
}

#[test]
fn test_freq_2() {
    let size = 127;
    let ft = FenwickTree::new(size, Some(10));
    for i in 0..127 {
        assert_eq!(ft.freq(i), 10);
    }
}

#[test]
fn test_freq_and_sum_after_point_update() {
    let mut ft = FenwickTree::new(100, Some(1));
    ft.add(40, 5);
    assert_eq!(ft.freq(40), 6);
    for j in 0..100 {
        let expected = if j >= 40 { j as u32 + 6 } else { j as u32 + 1 };
        assert_eq!(ft.sum(j), expected);
    }
    ft.sub(40, 2);
    assert_eq!(ft.freq(40), 4);
    assert_eq!(ft.total(), 103);
}

#[test]
fn test_upper_finds_containing_interval() {
    let mut ft = FenwickTree::new(10, Some(1));
    ft.add(3, 4);
    // counts: 1 1 1 5 1 1 1 1 1 1, prefix at index 3 runs from 3 to 7
    assert_eq!(ft.upper(2), 2);
    assert_eq!(ft.upper(3), 3);
    assert_eq!(ft.upper(7), 3);
    assert_eq!(ft.upper(8), 4);
    assert_eq!(ft.upper(13), 9);
}

#[test]
fn test_scale_rounds_removed_part_down() {
    let mut ft = FenwickTree::new(4, Some(1));
    ft.add(0, 6);  // counts: 7 1 1 1
    ft.scale(2);
    // each count x becomes x - x / 2
    assert_eq!(ft.freq(0), 4);
    assert_eq!(ft.freq(1), 1);
    assert_eq!(ft.freq(2), 1);
    assert_eq!(ft.freq(3), 1);
}
