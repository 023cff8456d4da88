use gaia_ir::ir::catalogue::extend_step::get_subsets;

#[test]
fn subsets_in_breadth_first_order() {
    let subsets = get_subsets(vec![1, 2, 3]);
    assert_eq!(
        subsets,
        vec![vec![], vec![1], vec![2], vec![3], vec![1, 2], vec![1, 3], vec![2, 3], vec![1, 2, 3]]
    );
}

#[test]
fn subsets_of_nothing() {
    assert_eq!(get_subsets(Vec::<u8>::new()), vec![Vec::<u8>::new()]);
    assert_eq!(get_subsets(vec!['a']), vec![vec![], vec!['a']]);
}

#[test]
fn get_subsets_lists_every_subset_once() {
    let subsets = get_subsets(vec![1, 2, 3, 4]);
    assert_eq!(subsets.len(), 16);
    for i in 0..subsets.len() {
        for j in (i + 1)..subsets.len() {
            assert_ne!(subsets[i], subsets[j]);
        }
    }
}
