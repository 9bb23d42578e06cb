use std::cell::RefCell;

use color_bruteforcer::orchestrator::run_search;

fn search_with_band(alpha_min: u8, alpha_max: u8, band: (u8, u8)) -> (Vec<u8>, Vec<(u8, u8)>) {
    let tried = RefCell::new(Vec::new());
    let found = run_search(alpha_min, alpha_max, |alpha: u8| {
        tried.borrow_mut().push(alpha);
        if band.0 <= alpha && alpha <= band.1 {
            vec![(alpha, 0), (alpha, 1)]
        } else {
            Vec::new()
        }
    });
    (tried.into_inner(), found)
}

#[test]
fn test_run_search_without_matches_tries_everything() {
    let (tried, found) = search_with_band(75, 86, (0, 0));
    assert_eq!(vec![80, 83, 77, 86, 81, 79, 82, 78, 84, 76, 85, 75], tried);
    assert!(found.is_empty());
}

#[test]
fn test_run_search_follows_the_band() {
    let (tried, found) = search_with_band(1, 99, (73, 77));
    assert_eq!(
        vec![
            50, 53, 47, 56, 44, 59, 41, 62, 38, 65, 35, 68, 32, 71, 29, 74, 73, 72, 75, 76, 77,
            78,
        ],
        tried
    );
    assert_eq!(
        vec![(74, 0), (74, 1), (73, 0), (73, 1), (75, 0), (75, 1), (76, 0), (76, 1), (77, 0), (77, 1)],
        found
    );
}

#[test]
fn test_run_search_stays_inside_the_bounds() {
    let (tried, found) = search_with_band(19, 31, (17, 21));
    assert_eq!(vec![25, 28, 22, 31, 19, 20, 21], tried);
    assert_eq!(vec![(19, 0), (19, 1), (20, 0), (20, 1), (21, 0), (21, 1)], found);
}

#[test]
fn test_run_search_single_opacity() {
    let (tried, found) = search_with_band(30, 30, (30, 30));
    assert_eq!(vec![30], tried);
    assert_eq!(vec![(30, 0), (30, 1)], found);
    let (tried, found) = search_with_band(1, 1, (30, 30));
    assert_eq!(vec![1], tried);
    assert!(found.is_empty());
}
