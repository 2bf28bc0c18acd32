use diffus::edit::Edit;
use diffus::lcs::Lcs;

#[test]
fn characters() {
    let left = "XMJYAUZ";
    let right = "MZJAWXU";

    let x: Vec<char> = left.chars().collect();
    let y: Vec<char> = right.chars().collect();
    let (s, modified) = Lcs::new(&x, &y).diff(&x, &y);
    assert!(modified);
    assert_eq!(
        s,
        vec![
            Edit::Remove('X'),
            Edit::Copy('M'),
            Edit::Insert('Z'),
            Edit::Copy('J'),
            Edit::Remove('Y'),
            Edit::Copy('A'),
            Edit::Insert('W'),
            Edit::Insert('X'),
            Edit::Copy('U'),
            Edit::Remove('Z')
        ]
    );
}

#[test]
fn words() {
    let left = "The quick brown fox jumps over the lazy dog";
    let right = "The quick brown dog leaps over the lazy cat";

    let x: Vec<&str> = left.split_whitespace().collect();
    let y: Vec<&str> = right.split_whitespace().collect();
    let (s, modified) = Lcs::new(&x, &y).diff(&x, &y);
    assert!(modified);
    assert_eq!(
        s,
        vec![
            Edit::Copy("The"),
            Edit::Copy("quick"),
            Edit::Copy("brown"),
            Edit::Remove("fox"),
            Edit::Remove("jumps"),
            Edit::Insert("dog"),
            Edit::Insert("leaps"),
            Edit::Copy("over"),
            Edit::Copy("the"),
            Edit::Copy("lazy"),
            Edit::Remove("dog"),
            Edit::Insert("cat")
        ]
    );
}

#[test]
fn copy_count_is_lcs_length() {
    // The longest common subsequence of the two words is MJAU, of length 4.
    let x: Vec<char> = "XMJYAUZ".chars().collect();
    let y: Vec<char> = "MZJAWXU".chars().collect();
    let (s, _) = Lcs::new(&x, &y).diff(&x, &y);
    let copies = s.iter().filter(|e| matches!(e, Edit::Copy(_))).count();
    assert_eq!(copies, 4);
}

#[test]
fn keeping_copy_and_insert_rebuilds_target() {
    let x: Vec<char> = "XMJYAUZ".chars().collect();
    let y: Vec<char> = "MZJAWXU".chars().collect();
    let (s, _) = Lcs::new(&x, &y).diff(&x, &y);
    let rebuilt: Vec<char> = s
        .iter()
        .filter_map(|e| match e {
            Edit::Copy(v) => Some(*v),
            Edit::Insert(v) => Some(*v),
            Edit::Remove(_) => None,
        })
        .collect();
    assert_eq!(rebuilt, y);
}

#[test]
fn keeping_copy_and_remove_rebuilds_source() {
    let x: Vec<char> = "XMJYAUZ".chars().collect();
    let y: Vec<char> = "MZJAWXU".chars().collect();
    let (s, _) = Lcs::new(&x, &y).diff(&x, &y);
    let rebuilt: Vec<char> = s
        .iter()
        .filter_map(|e| match e {
            Edit::Copy(v) => Some(*v),
            Edit::Remove(v) => Some(*v),
            Edit::Insert(_) => None,
        })
        .collect();
    assert_eq!(rebuilt, x);
}

#[test]
fn empty_sequences() {
    let x: Vec<u64> = vec![];
    let y: Vec<u64> = vec![];
    let (s, modified) = Lcs::new(&x, &y).diff(&x, &y);
    assert!(!modified);
    assert_eq!(s, vec![]);
}

#[test]
fn insert_only() {
    let x: Vec<u64> = vec![];
    let y: Vec<u64> = vec![1, 2];
    let (s, modified) = Lcs::new(&x, &y).diff(&x, &y);
    assert!(modified);
    assert_eq!(s, vec![Edit::Insert(1), Edit::Insert(2)]);
}

#[test]
fn remove_only() {
    let x: Vec<u64> = vec![1, 2];
    let y: Vec<u64> = vec![];
    let (s, modified) = Lcs::new(&x, &y).diff(&x, &y);
    assert!(modified);
    assert_eq!(s, vec![Edit::Remove(1), Edit::Remove(2)]);
}

#[test]
fn equal_sequences_are_all_copies() {
    let x: Vec<u64> = vec![7, 8, 9, 8];
    let (s, modified) = Lcs::new(&x, &x).diff(&x, &x);
    assert!(!modified);
    assert_eq!(
        s,
        vec![Edit::Copy(7), Edit::Copy(8), Edit::Copy(9), Edit::Copy(8)]
    );
}

#[test]
fn unequal_lengths() {
    let x: Vec<u64> = vec![1, 2];
    let y: Vec<u64> = vec![1, 2, 3];
    let (s, modified) = Lcs::new(&x, &y).diff(&x, &y);
    assert!(modified);
    assert_eq!(s, vec![Edit::Copy(1), Edit::Copy(2), Edit::Insert(3)]);

    let x: Vec<u64> = vec![1, 2, 3];
    let y: Vec<u64> = vec![2, 3];
    let (s, modified) = Lcs::new(&x, &y).diff(&x, &y);
    assert!(modified);
    assert_eq!(s, vec![Edit::Remove(1), Edit::Copy(2), Edit::Copy(3)]);
}

#[test]
fn swapping_swaps_insert_and_remove_counts() {
    let x: Vec<u64> = vec![1, 2, 3];
    let y: Vec<u64> = vec![9];
    let table_xy = Lcs::new(&x, &y);
    let (xy, _) = table_xy.diff(&x, &y);
    let table_yx = Lcs::new(&y, &x);
    let (yx, _) = table_yx.diff(&y, &x);
    let count = |s: &Vec<Edit<u64>>, want_insert: bool| {
        s.iter()
            .filter(|e| match e {
                Edit::Insert(_) => want_insert,
                Edit::Remove(_) => !want_insert,
                Edit::Copy(_) => false,
            })
            .count()
    };
    assert_eq!(count(&xy, true), count(&yx, false));
    assert_eq!(count(&xy, false), count(&yx, true));
    assert_eq!(count(&xy, true), 1);
    assert_eq!(count(&xy, false), 3);
}

#[test]
fn unordered_same_order_is_all_copies() {
    let x: Vec<u64> = vec![1, 2, 3];
    let (s, modified) = Lcs::new(&x, &x).diff_unordered(&x, &x);
    assert!(!modified);
    assert_eq!(s, vec![Edit::Copy(3), Edit::Copy(2), Edit::Copy(1)]);
}

#[test]
fn unordered_rebuilds_reversed_iteration_orders() {
    let x: Vec<u64> = vec![1, 2];
    let y: Vec<u64> = vec![2, 1];
    let (s, modified) = Lcs::new(&x, &y).diff_unordered(&x, &y);
    assert!(modified);
    assert_eq!(s, vec![Edit::Remove(2), Edit::Copy(1), Edit::Insert(2)]);
}
