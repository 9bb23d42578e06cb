use color_bruteforcer::colors::{instantiate_colors, Rgb};
use color_bruteforcer::search::{judge_pairs, search_alpha};
use palette::white_point::D65;
use palette::{Blend, Laba, LinSrgba};

struct ColorResult {
    color: Rgb,
    alpha: u8,
    avg_distance: f32,
}

fn to_linear(color: Rgb) -> LinSrgba {
    LinSrgba::new(
        f32::from(color.red) / 255.0,
        f32::from(color.green) / 255.0,
        f32::from(color.blue) / 255.0,
        1.0,
    )
}

/// The CIEDE2000 distance between two colors, with all three weights at 1.
fn ciede2000(lab1: &Laba<D65>, lab2: &Laba<D65>) -> f32 {
    // Step 1: chroma and hue.
    let c_star_1: f32 = lab1.a.hypot(lab1.b);
    let c_star_2: f32 = lab2.a.hypot(lab2.b);

    let c_bar_ab: f32 = (c_star_1 + c_star_2) / 2.0;
    let g = 0.5 * (1.0 - ((c_bar_ab.powi(7)) / (c_bar_ab.powi(7) + 25.0f32.powi(7))).sqrt());

    let a_prime_1 = (1.0 + g) * lab1.a;
    let a_prime_2 = (1.0 + g) * lab2.a;

    let c_prime_1 = a_prime_1.hypot(lab1.b);
    let c_prime_2 = a_prime_2.hypot(lab2.b);

    // The hue angle in degrees, which is zero where both channels are zero.
    let h_func = |a: f32, b: f32| {
        if a == 0.0 && b == 0.0 {
            0.0
        } else {
            let val = b.atan2(a).to_degrees();
            if val < 0.0 {
                val + 360.0
            } else {
                val
            }
        }
    };

    let h_prime_1 = h_func(a_prime_1, lab1.b);
    let h_prime_2 = h_func(a_prime_2, lab2.b);

    // Step 2: the differences in lightness, chroma and hue.
    let delta_l = lab2.l - lab1.l;
    let delta_c = c_prime_2 - c_prime_1;
    let delta_angle_h = if c_prime_1 * c_prime_2 == 0.0 {
        0.0
    } else if (h_prime_2 - h_prime_1).abs() <= 180.0 {
        h_prime_2 - h_prime_1
    } else if h_prime_2 - h_prime_1 > 180.0 {
        h_prime_2 - h_prime_1 - 360.0
    } else {
        h_prime_2 - h_prime_1 + 360.0
    };
    let delta_h = 2.0 * (c_prime_1 * c_prime_2).sqrt() * (delta_angle_h / 2.0).to_radians().sin();

    // Step 3: the weighted distance.
    let l_bar_prime = (lab1.l + lab2.l) / 2.0;
    let c_bar_prime = (c_prime_1 + c_prime_2) / 2.0;
    let h_bar_prime = if c_prime_1 * c_prime_2 == 0.0 {
        h_prime_1 + h_prime_2
    } else if (h_prime_2 - h_prime_1).abs() <= 180.0 {
        (h_prime_1 + h_prime_2) / 2.0
    } else if h_prime_1 + h_prime_2 < 360.0 {
        (h_prime_1 + h_prime_2 + 360.0) / 2.0
    } else {
        (h_prime_1 + h_prime_2 - 360.0) / 2.0
    };

    let deg_cos = |x: f32| x.to_radians().cos();

    let t = 1.0 - 0.17 * deg_cos(h_bar_prime - 30.0)
        + 0.24 * deg_cos(2.0 * h_bar_prime)
        + 0.32 * deg_cos(3.0 * h_bar_prime + 6.0)
        - 0.20 * deg_cos(4.0 * h_bar_prime - 63.0);

    let delta_theta = 30.0 * (-((h_bar_prime - 275.0) / 25.0).powi(2)).exp();
    let r_c = 2.0 * (c_bar_prime.powi(7) / (c_bar_prime.powi(7) + 25.0f32.powi(7))).sqrt();
    let s_l = 1.0
        + ((0.015 * (l_bar_prime - 50.0).powi(2)) / (20.0 + (l_bar_prime - 50.0).powi(2)).sqrt());
    let s_c = 1.0 + 0.045 * c_bar_prime;
    let s_h = 1.0 + 0.015 * c_bar_prime * t;
    let r_t = -r_c * (2.0 * delta_theta).to_radians().sin();
    ((delta_l / s_l).powi(2)
        + (delta_c / s_c).powi(2)
        + (delta_h / s_h).powi(2)
        + r_t * (delta_c / s_c) * (delta_h / s_h))
        .sqrt()
}

fn find_match(
    base_colors: &[LinSrgba],
    target_colors: &[Laba<D65>],
    candidate: Rgb,
    alpha: f32,
    max_distance: f32,
) -> Option<ColorResult> {
    let mut overlay = to_linear(candidate);
    overlay.alpha = alpha;
    let distances = judge_pairs(base_colors.len().min(target_colors.len()), |pair: usize| {
        let guess = overlay.over(base_colors[pair]);
        let guess_lab: Laba<D65> = guess.into();
        let distance = ciede2000(&target_colors[pair], &guess_lab);

        if distance > max_distance {
            None
        } else {
            Some(distance)
        }
    })?;

    Some(ColorResult {
        color: candidate,
        alpha: (overlay.alpha * 100.0) as u8,
        avg_distance: distances.iter().sum::<f32>() / distances.len() as f32,
    })
}

#[test]
fn test_search_alpha() {
    let base_colors: Vec<LinSrgba> = instantiate_colors(vec![
        "#ffffff".to_string(),
        "#bfbfbf".to_string(),
        "#808080".to_string(),
        "#404040".to_string(),
        "#000000".to_string(),
    ])
    .into_iter()
    .map(to_linear)
    .collect();
    let target_colors: Vec<Laba<D65>> = instantiate_colors(vec![
        "#f9bbbd".to_string(),
        "#cc8e90".to_string(),
        "#a06264".to_string(),
        "#733537".to_string(),
        "#46080a".to_string(),
    ])
    .into_iter()
    .map(|color| to_linear(color).into())
    .collect();
    let max_distance = 0.5;
    let color = Rgb { red: 237, green: 28, blue: 35 };
    let result = search_alpha(|candidate: Rgb| {
        find_match(&base_colors, &target_colors, candidate, 0.30, max_distance)
    });
    assert!(result.len() > 0);
    assert!(result
        .iter()
        .any(|r| r.color == color && r.alpha == 30 && r.avg_distance <= max_distance));
}

#[test]
fn test_distance_to_itself_is_zero_and_symmetric() {
    let first: Laba<D65> = to_linear(Rgb { red: 237, green: 28, blue: 35 }).into();
    let second: Laba<D65> = to_linear(Rgb { red: 20, green: 200, blue: 90 }).into();
    assert_eq!(0.0, ciede2000(&first, &first));
    assert_eq!(0.0, ciede2000(&second, &second));
    assert!(ciede2000(&first, &second) > 0.0);
    assert!((ciede2000(&first, &second) - ciede2000(&second, &first)).abs() < 1e-4);
}
