use sorting::insertion::insertion_sort;
use sorting::order::Tagged;
use sorting::selection::selection_sort;

fn counts(v: &[i32]) -> std::collections::BTreeMap<i32, usize> {
    let mut m = std::collections::BTreeMap::new();
    for &e in v {
        *m.entry(e).or_insert(0) += 1;
    }
    m
}

#[test]
fn permutation_insertion() {
    let input = vec![2i32, -1, 2, 1, 3, -1, 0];
    let before = counts(&input);
    let out = insertion_sort(input);
    assert_eq!(counts(&out), before);
}

#[test]
fn permutation_selection() {
    let input = vec![2i32, -1, 2, 1, 3, -1, 0];
    let before = counts(&input);
    let out = selection_sort(input);
    assert_eq!(counts(&out), before);
}

#[test]
fn sortedness_adjacent_pairs() {
    let out_a = insertion_sort(vec![9i32, -3, 7, 0, 7, -3, 12, 1]);
    let out_b = selection_sort(vec![9i32, -3, 7, 0, 7, -3, 12, 1]);
    for w in out_a.windows(2) {
        assert!(w[0] <= w[1]);
    }
    for w in out_b.windows(2) {
        assert!(w[0] <= w[1]);
    }
    assert_eq!(out_a, vec![-3, -3, 0, 1, 7, 7, 9, 12]);
    assert_eq!(out_b, vec![-3, -3, 0, 1, 7, 7, 9, 12]);
}

#[test]
fn idempotence_insertion() {
    let sorted_input = vec![-2i32, 0, 0, 3, 5, 9];
    let out = insertion_sort(sorted_input.clone());
    assert_eq!(out, sorted_input);
    let twice = insertion_sort(insertion_sort(vec![4i32, 2, 8, 2]));
    assert_eq!(twice, vec![2, 2, 4, 8]);
}

#[test]
fn idempotence_selection() {
    let sorted_input = vec![-2i32, 0, 0, 3, 5, 9];
    let out = selection_sort(sorted_input.clone());
    assert_eq!(out, sorted_input);
    let twice = selection_sort(selection_sort(vec![4i32, 2, 8, 2]));
    assert_eq!(twice, vec![2, 2, 4, 8]);
}

#[test]
fn stability_insertion_equal_keys_keep_order() {
    let input = vec![
        Tagged { key: 5, tag: 0 },
        Tagged { key: 2, tag: 1 },
        Tagged { key: 5, tag: 2 },
        Tagged { key: 2, tag: 3 },
    ];
    let out = insertion_sort(input);
    let expected = vec![
        Tagged { key: 2, tag: 1 },
        Tagged { key: 2, tag: 3 },
        Tagged { key: 5, tag: 0 },
        Tagged { key: 5, tag: 2 },
    ];
    assert_eq!(out, expected);
}

#[test]
fn stability_insertion_sorted_tagged_input_unchanged() {
    let input = vec![
        Tagged { key: 1, tag: 9 },
        Tagged { key: 3, tag: 4 },
        Tagged { key: 3, tag: 1 },
        Tagged { key: 7, tag: 0 },
    ];
    let out = insertion_sort(input.clone());
    assert_eq!(out, input);
}

#[test]
fn all_equal_elements_insertion() {
    let out = insertion_sort(vec![3i32, 3, 3, 3]);
    assert_eq!(out, vec![3, 3, 3, 3]);
    let tagged = vec![
        Tagged { key: 3, tag: 0 },
        Tagged { key: 3, tag: 1 },
        Tagged { key: 3, tag: 2 },
        Tagged { key: 3, tag: 3 },
    ];
    let out_tagged = insertion_sort(tagged.clone());
    assert_eq!(out_tagged, tagged);
}

#[test]
fn all_equal_elements_selection() {
    let out = selection_sort(vec![3i32, 3, 3, 3]);
    assert_eq!(out, vec![3, 3, 3, 3]);
}

#[test]
fn two_elements_out_of_order() {
    assert_eq!(insertion_sort(vec![2i32, 1]), vec![1, 2]);
    assert_eq!(selection_sort(vec![2i32, 1]), vec![1, 2]);
}

#[test]
fn extreme_values() {
    let input = vec![i32::MAX, 0, i32::MIN, -1, 1];
    let expected = vec![i32::MIN, -1, 0, 1, i32::MAX];
    assert_eq!(insertion_sort(input.clone()), expected);
    assert_eq!(selection_sort(input), expected);
}

#[test]
fn tagged_selection_sorts_by_key() {
    let input = vec![
        Tagged { key: 4, tag: 0 },
        Tagged { key: 1, tag: 1 },
        Tagged { key: 3, tag: 2 },
    ];
    let out = selection_sort(input);
    let keys: Vec<i32> = out.iter().map(|t| t.key).collect();
    assert_eq!(keys, vec![1, 3, 4]);
}
