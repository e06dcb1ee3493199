use colony_sim::rle::compress;
use colony_sim::rle::decompress;
use colony_sim::sorting::bubble_sort;
use colony_sim::sorting::heap_sort;
use colony_sim::sorting::insertion_sort;
use colony_sim::sorting::merge_sort;
use colony_sim::sorting::quicksort;
use colony_sim::sorting::selection_sort;
use colony_sim::sorting::sort_list;

#[test]
fn bubble_sort_orders_the_classic_input() {
    let elems: Vec<i32> = vec![10, 9, 12, 15, 11];
    assert_eq!(bubble_sort(elems), vec![9, 10, 11, 12, 15]);
}

#[test]
fn bubble_sort_single_element() {
    assert_eq!(bubble_sort(vec![3]), vec![3]);
}

#[test]
fn bubble_sort_with_duplicates() {
    assert_eq!(bubble_sort(vec![2, 1, 2, 1]), vec![1, 1, 2, 2]);
}

#[test]
fn insertion_sort_orders_the_classic_input() {
    assert_eq!(insertion_sort(vec![9, 2, 5, 1, 6, 10]), vec![1, 2, 5, 6, 9, 10]);
}

#[test]
fn insertion_sort_empty() {
    assert_eq!(insertion_sort(Vec::new()), Vec::<i32>::new());
}

#[test]
fn merge_sort_orders_the_classic_input() {
    let x: Vec<i32> = vec![5, 2, 10, 19, 10, 1, 20];
    assert_eq!(merge_sort(&x), vec![1, 2, 5, 10, 10, 19, 20]);
}

#[test]
fn sort_list_merges_two_sorted_lists() {
    let a: Vec<i32> = vec![1, 4, 9];
    let b: Vec<i32> = vec![2, 3, 10, 11];
    assert_eq!(sort_list(&a, &b), vec![1, 2, 3, 4, 9, 10, 11]);
}

#[test]
fn quicksort_orders_the_classic_input() {
    let mut x: Vec<i32> = vec![8, 2, 5, 0, 1, 8, 7, 6, 9, 4];
    quicksort(&mut x);
    assert_eq!(x, vec![0, 1, 2, 4, 5, 6, 7, 8, 8, 9]);
}

#[test]
fn quicksort_empty_and_negative() {
    let mut x: Vec<i32> = Vec::new();
    quicksort(&mut x);
    assert!(x.is_empty());
    let mut y: Vec<i32> = vec![-3, 7, -10, 0];
    quicksort(&mut y);
    assert_eq!(y, vec![-10, -3, 0, 7]);
}

#[test]
fn selection_sort_orders_the_classic_input() {
    let mut x: Vec<i32> = vec![5, 2, 4, 6, 5, 7, 19, 2, 10, 2, 1, 0, 7];
    selection_sort(&mut x);
    assert_eq!(x, vec![0, 1, 2, 2, 2, 4, 5, 5, 6, 7, 7, 10, 19]);
}

#[test]
fn heap_sort_orders_the_classic_input() {
    let mut x: Vec<i32> = vec![5, 2, 4, 6, 5, 7, 19, 2, 10, 2, 1, 0, 7];
    heap_sort(&mut x);
    assert_eq!(x, vec![0, 1, 2, 2, 2, 4, 5, 5, 6, 7, 7, 10, 19]);
}

#[test]
fn heap_sort_empty_and_reversed() {
    let mut x: Vec<i32> = Vec::new();
    heap_sort(&mut x);
    assert!(x.is_empty());
    let mut y: Vec<i32> = vec![9, 8, 7, 1];
    heap_sort(&mut y);
    assert_eq!(y, vec![1, 7, 8, 9]);
}

#[test]
fn compress_writes_runs_with_counts() {
    assert_eq!(compress("aaabbbcccd"), "a3b3c3d1");
    assert_eq!(compress(""), "");
    assert_eq!(compress("ab"), "a1b1");
    assert_eq!(compress("aaaaaaaaaaaa"), "a12");
}

#[test]
fn decompress_expands_counts() {
    assert_eq!(decompress("a3b2").unwrap(), "aaabb");
    assert_eq!(decompress("").unwrap(), "");
    assert_eq!(decompress("a12").unwrap(), "aaaaaaaaaaaa");
    assert_eq!(decompress("x1").unwrap(), "x");
}

#[test]
fn decompress_rejects_a_missing_count() {
    let e = decompress("ab").unwrap_err();
    assert_eq!(e, "Invalid count in compressed data: ");
    assert!(decompress("a").is_err());
    assert!(decompress("a3b").is_err());
}

#[test]
fn compress_then_decompress_round_trips() {
    for s in ["", "a", "hello  world", "aaabccccccccccccd", "zzzzzzzzzz"] {
        assert_eq!(decompress(&compress(s)).unwrap(), s);
    }
}

#[test]
fn zero_counts_and_unicode_text() {
    assert_eq!(decompress("a0").unwrap(), "");
    assert_eq!(decompress("a0b2").unwrap(), "bb");
    assert_eq!(compress("ééé"), "é3");
    assert_eq!(decompress("é3").unwrap(), "ééé");
}
