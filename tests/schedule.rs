use ds_heightmap::output::crop;
use ds_heightmap::schedule::{plan, Step};

fn summary(s: &Step) -> (usize, usize, usize, Vec<(usize, usize)>) {
    (s.x, s.y, s.range, s.neighbors.clone())
}

#[test]
fn plan_of_side_two_is_empty() {
    assert!(plan(2).is_empty());
}

#[test]
fn plan_of_side_five_first_level() {
    let steps = plan(5);
    assert_eq!(steps.len(), 21);
    assert_eq!(summary(&steps[0]), (2, 2, 4, vec![(0, 0), (4, 0), (4, 4), (0, 4)]));
    assert_eq!(summary(&steps[1]), (2, 0, 4, vec![(0, 0), (4, 0), (2, 2)]));
    assert_eq!(summary(&steps[2]), (0, 2, 4, vec![(0, 0), (2, 2), (0, 4)]));
    assert_eq!(summary(&steps[3]), (4, 2, 4, vec![(2, 2), (4, 0), (4, 4)]));
    assert_eq!(summary(&steps[4]), (2, 4, 4, vec![(0, 4), (2, 2), (4, 4)]));
}

#[test]
fn plan_of_side_five_second_level() {
    let steps = plan(5);
    let squares: Vec<(usize, usize)> = steps[5..9].iter().map(|s| (s.x, s.y)).collect();
    assert_eq!(squares, vec![(1, 1), (3, 1), (1, 3), (3, 3)]);
    assert_eq!(summary(&steps[5]), (1, 1, 2, vec![(0, 0), (2, 0), (2, 2), (0, 2)]));
    assert_eq!(summary(&steps[9]), (1, 0, 2, vec![(0, 0), (2, 0), (1, 1)]));
    assert_eq!(summary(&steps[11]), (0, 1, 2, vec![(0, 0), (1, 1), (0, 2)]));
    assert!(steps[5..].iter().all(|s| s.range == 2));
}

#[test]
fn plan_of_side_three() {
    let steps = plan(3);
    let cells: Vec<(usize, usize)> = steps.iter().map(|s| (s.x, s.y)).collect();
    assert_eq!(cells, vec![(1, 1), (1, 0), (0, 1), (2, 1), (1, 2)]);
}

#[test]
fn plan_writes_each_non_corner_cell_once() {
    for side in [3usize, 5, 9, 17, 33, 129] {
        let steps = plan(side);
        let p = side - 1;
        let mut seen = vec![vec![0u32; side]; side];
        for s in &steps {
            assert!(s.x < side && s.y < side);
            assert!(!s.neighbors.is_empty() && s.neighbors.len() <= 4);
            for &(nx, ny) in &s.neighbors {
                assert!(nx < side && ny < side);
            }
            seen[s.x][s.y] += 1;
        }
        for x in 0..side {
            for y in 0..side {
                let corner = (x == 0 || x == p) && (y == 0 || y == p);
                assert_eq!(seen[x][y], if corner { 0 } else { 1 });
            }
        }
    }
}

#[test]
fn plan_reads_only_written_cells() {
    let side = 17usize;
    let p = side - 1;
    let mut written = vec![vec![false; side]; side];
    for (x, y) in [(0, 0), (0, p), (p, 0), (p, p)] {
        written[x][y] = true;
    }
    for s in plan(side) {
        for &(nx, ny) in &s.neighbors {
            assert!(written[nx][ny]);
        }
        written[s.x][s.y] = true;
    }
}

#[test]
fn crop_keeps_the_window() {
    let grid: Vec<Vec<i32>> = (0..5).map(|x| (0..5).map(|y| 10 * x + y).collect()).collect();
    let r = crop(&grid, 3, 5);
    assert_eq!(r.len(), 3);
    assert!(r.iter().all(|c| c.len() == 5));
    assert_eq!(r[2], vec![20, 21, 22, 23, 24]);
    let r = crop(&grid, 5, 2);
    assert_eq!(r.len(), 5);
    assert_eq!(r[4], vec![40, 41]);
    assert_eq!(grid.len(), 5);
}

#[test]
fn crop_to_nothing() {
    let grid: Vec<Vec<i32>> = vec![vec![1, 2], vec![3, 4]];
    assert!(crop(&grid, 0, 2).is_empty());
    assert_eq!(crop(&grid, 2, 0), vec![Vec::<i32>::new(), Vec::new()]);
}
