use bus_spotting::paths::{objects_per_road, piece_index};

#[test]
fn roads_list_the_paths_crossing_them() {
    let paths = vec![(7, vec![(10, false), (20, true)]), (3, vec![(20, false), (10, false), (20, false)])];
    let per_road = objects_per_road(&paths);
    assert_eq!(per_road, vec![(10, vec![7, 3]), (20, vec![7, 3, 3])]);
    assert_eq!(piece_index(&per_road[1].1, 3), 1);
    assert_eq!(piece_index(&per_road[0].1, 7), 0);
    assert_eq!(objects_per_road(&vec![]), Vec::<(u64, Vec<usize>)>::new());
}
