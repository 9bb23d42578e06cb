use std::cell::Cell;
use std::sync::atomic::{AtomicUsize, Ordering};

use color_bruteforcer::colors::{instantiate_colors, Rgb};
use color_bruteforcer::search::{join_planes, judge_pairs, scan_plane, search_alpha};
use palette::white_point::D65;
use palette::{Blend, Laba, LinSrgba};

#[test]
fn test_scan_plane_judges_every_candidate_once_in_order() {
    let calls = Cell::new(0usize);
    let found = scan_plane(7, |candidate: Rgb| {
        let index = usize::from(candidate.green) * 256 + usize::from(candidate.blue);
        assert_eq!(7, candidate.red);
        assert_eq!(calls.get(), index);
        calls.set(calls.get() + 1);
        if candidate.green == candidate.blue {
            Some(candidate)
        } else {
            None
        }
    });
    assert_eq!(65536, calls.get());
    let expected: Vec<Rgb> = (0..=255u8).map(|v| Rgb { red: 7, green: v, blue: v }).collect();
    assert_eq!(expected, found);
}

#[test]
fn test_scan_plane_without_matches() {
    let found: Vec<u8> = scan_plane(255, |_candidate: Rgb| None);
    assert!(found.is_empty());
}

#[test]
fn test_scan_plane_keeps_everything_accepted() {
    let found = scan_plane(0, |candidate: Rgb| Some((candidate.green, candidate.blue)));
    assert_eq!(65536, found.len());
    assert_eq!((0, 0), found[0]);
    assert_eq!((0, 1), found[1]);
    assert_eq!((1, 0), found[256]);
    assert_eq!((255, 255), found[65535]);
}

#[test]
fn test_judge_pairs_all_within() {
    let distances = judge_pairs(4, |pair: usize| Some(pair * 10));
    assert_eq!(Some(vec![0, 10, 20, 30]), distances);
}

#[test]
fn test_judge_pairs_stops_at_first_failure() {
    let calls = Cell::new(0usize);
    let distances = judge_pairs(5, |pair: usize| {
        calls.set(calls.get() + 1);
        if pair == 2 {
            None
        } else {
            Some(pair)
        }
    });
    assert_eq!(None, distances);
    assert_eq!(3, calls.get());
}

#[test]
fn test_judge_pairs_without_pairs() {
    let distances: Option<Vec<u8>> = judge_pairs(0, |_pair: usize| None);
    assert_eq!(Some(Vec::new()), distances);
}

fn to_linear(color: Rgb, alpha: f32) -> LinSrgba {
    LinSrgba::new(
        f32::from(color.red) / 255.0,
        f32::from(color.green) / 255.0,
        f32::from(color.blue) / 255.0,
        alpha,
    )
}

// A plain Euclidean distance in Lab, which is all that this test needs of a metric.
fn lab_distance(first: &Laba<D65>, second: &Laba<D65>) -> f32 {
    ((first.l - second.l).powi(2) + (first.a - second.a).powi(2) + (first.b - second.b).powi(2))
        .sqrt()
}

#[test]
fn test_scan_plane_finds_a_known_overlay() {
    let base_colors: Vec<LinSrgba> = instantiate_colors(vec![
        "#ffffff".to_string(),
        "#bfbfbf".to_string(),
        "#808080".to_string(),
        "#404040".to_string(),
        "#000000".to_string(),
    ])
    .into_iter()
    .map(|color| to_linear(color, 1.0))
    .collect();
    let overlay = Rgb { red: 237, green: 28, blue: 35 };
    let target_colors: Vec<Laba<D65>> = base_colors
        .iter()
        .map(|base| to_linear(overlay, 0.30).over(*base).into())
        .collect();
    let max_distance = 0.5;

    let found = scan_plane(237, |candidate: Rgb| {
        let distances = judge_pairs(base_colors.len(), |pair: usize| {
            let guess: Laba<D65> = to_linear(candidate, 0.30).over(base_colors[pair]).into();
            let distance = lab_distance(&target_colors[pair], &guess);
            if distance > max_distance {
                None
            } else {
                Some(distance)
            }
        })?;
        let avg_distance = distances.iter().sum::<f32>() / distances.len() as f32;
        Some((candidate, avg_distance))
    });

    assert!(found.len() > 0);
    assert!(found.len() < 65536);
    assert!(found.iter().any(|(color, avg_distance)| *color == overlay && *avg_distance == 0.0));
    assert!(found.iter().all(|(_, avg_distance)| *avg_distance <= max_distance));
}

#[test]
fn test_join_planes_keeps_the_order() {
    let planes = vec![vec![1, 2], Vec::new(), vec![3], vec![4, 5, 6], Vec::new()];
    assert_eq!(vec![1, 2, 3, 4, 5, 6], join_planes(planes));
    let no_planes: Vec<Vec<u8>> = Vec::new();
    assert!(join_planes(no_planes).is_empty());
}

#[test]
fn test_join_planes_in_another_order_holds_the_same() {
    let planes = vec![vec![5, 1], vec![9], Vec::new(), vec![2, 2, 7]];
    let mut turned = planes.clone();
    turned.reverse();
    let mut joined = join_planes(planes);
    let mut joined_turned = join_planes(turned);
    assert_ne!(joined, joined_turned);
    joined.sort();
    joined_turned.sort();
    assert_eq!(joined, joined_turned);
}

#[test]
fn test_scanning_twice_gives_the_same() {
    let judge = |candidate: Rgb| {
        if (u32::from(candidate.green) * 31 + u32::from(candidate.blue) * 17) % 1000 == 3 {
            Some(candidate)
        } else {
            None
        }
    };
    let first = scan_plane(12, judge);
    let second = scan_plane(12, judge);
    assert!(!first.is_empty());
    assert_eq!(first, second);
}

#[test]
fn test_search_alpha_judges_the_whole_cube_once() {
    let calls = AtomicUsize::new(0);
    let found = search_alpha(|candidate: Rgb| {
        calls.fetch_add(1, Ordering::Relaxed);
        if candidate.red == candidate.green && candidate.green == candidate.blue {
            Some(candidate)
        } else if candidate.red == 200 && candidate.green == 0 && candidate.blue < 3 {
            Some(candidate)
        } else {
            None
        }
    });
    assert_eq!(256 * 256 * 256, calls.load(Ordering::Relaxed));
    let mut expected: Vec<Rgb> = (0..200u8).map(|v| Rgb { red: v, green: v, blue: v }).collect();
    expected.extend((0..3u8).map(|v| Rgb { red: 200, green: 0, blue: v }));
    expected.extend((200..=255u8).map(|v| Rgb { red: v, green: v, blue: v }));
    assert_eq!(expected, found);
}

#[test]
fn test_search_alpha_gives_the_same_on_every_run() {
    let judge = |candidate: Rgb| {
        let mixed = u32::from(candidate.red) * 65536
            + u32::from(candidate.green) * 256
            + u32::from(candidate.blue);
        if mixed % 99991 == 17 {
            Some(mixed)
        } else {
            None
        }
    };
    let first = search_alpha(judge);
    let second = search_alpha(judge);
    assert_eq!(168, first.len());
    assert_eq!(first, second);
    assert!(first.windows(2).all(|pair| pair[0] < pair[1]));
}
