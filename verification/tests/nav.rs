use crowd_core::nav::reconstruct;

#[test]
fn reconstruct_follows_predecessors_back_to_the_start() {
    // 0 <- 2 <- 3 <- 1
    let came_from = vec![u32::MAX, 3, 0, 2];
    assert_eq!(reconstruct(&came_from, 0, 1), vec![0, 2, 3, 1]);
}

#[test]
fn reconstruct_of_the_start_is_the_start() {
    let came_from = vec![u32::MAX, 0];
    assert_eq!(reconstruct(&came_from, 1, 1), vec![1]);
}
