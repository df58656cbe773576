//! The portable-pixmap encoder.
//!
//! The tests build the channel samples the way the renderer does: each
//! real-valued channel is clamped to [0, 1] and scaled to 0..=255 before the
//! encoder sees it.

use ray_tracer::canvas::canvas_to_ppm;

fn scale_color(color_value: f64) -> u8 {
    if color_value > 1.0 {
        return 255;
    }
    if color_value < 0.0 {
        return 0;
    }
    (color_value * 255.0).round() as u8
}

fn flat_canvas(width: usize, height: usize) -> Vec<(f64, f64, f64)> {
    vec![(0., 0., 0.); width * height]
}

fn samples_of(pixels: &[(f64, f64, f64)]) -> Vec<u8> {
    let mut samples = Vec::new();
    for (r, g, b) in pixels {
        samples.push(scale_color(*r));
        samples.push(scale_color(*g));
        samples.push(scale_color(*b));
    }
    samples
}

#[test]
fn constructing_ppm_header() {
    let canvas = flat_canvas(5, 3);

    let expected = String::from("P3\n\
                                 5 3\n\
                                 255\n");

    let actual = canvas_to_ppm(5, 3, &samples_of(&canvas)).split('\n').take(3)
        .collect::<Vec<&str>>().join("\n") + "\n";

    assert_eq!(expected, actual);
}

#[test]
fn constructing_ppm_pixel_data() {
    let mut canvas = flat_canvas(5, 3);
    let color1 = (1.5, 0., 0.);
    let color2 = (0., 0.5, 0.);
    let color3 = (-0.5, 0., 1.);

    canvas[0 * 5 + 0] = color1;
    canvas[1 * 5 + 2] = color2;
    canvas[2 * 5 + 4] = color3;

    let expected = String::from("255 0 0 0 0 0 0 0 0 0 0 0 0 0 0\n\
                                 0 0 0 0 0 0 0 128 0 0 0 0 0 0 0\n\
                                 0 0 0 0 0 0 0 0 0 0 0 0 0 0 255\n");

    let actual = canvas_to_ppm(5, 3, &samples_of(&canvas)).split('\n').skip(3).take(3)
        .collect::<Vec<&str>>().join("\n") + "\n";

    assert_eq!(expected, actual);
}

#[test]
fn splitting_long_lines_in_ppm_files() {
    let canvas = vec![(1.0, 0.8, 0.6); 10 * 2];

    let expected = String::from("255 204 153 255 204 153 255 204 153 255 204 153 255 204 153 255 204\n\
                                 153 255 204 153 255 204 153 255 204 153 255 204 153\n\
                                 255 204 153 255 204 153 255 204 153 255 204 153 255 204 153 255 204\n\
                                 153 255 204 153 255 204 153 255 204 153 255 204 153\n");

    let actual = canvas_to_ppm(10, 2, &samples_of(&canvas)).split('\n').skip(3).take(4)
        .collect::<Vec<&str>>().join("\n") + "\n";

    assert_eq!(expected, actual);
}

#[test]
fn no_ppm_line_exceeds_seventy_characters() {
    let canvas = vec![(1.0, 0.8, 0.6); 33 * 4];

    let ppm = canvas_to_ppm(33, 4, &samples_of(&canvas));

    for line in ppm.split('\n') {
        assert!(line.len() <= 70);
    }
}

#[test]
fn ppm_files_are_terminated_by_newline_character() {
    let canvas = flat_canvas(5, 3);

    let expected = '\n';

    let actual = canvas_to_ppm(5, 3, &samples_of(&canvas)).chars().last().unwrap();

    assert_eq!(expected, actual);
}

#[test]
fn ppm_of_empty_canvas_is_header_only() {
    let samples: Vec<u8> = vec![];

    let actual = canvas_to_ppm(0, 0, &samples);

    assert_eq!("P3\n0 0\n255\n", actual);
}

#[test]
fn ppm_header_renders_multi_digit_sizes() {
    let samples: Vec<u8> = vec![];

    let actual = canvas_to_ppm(123, 0, &samples);

    assert_eq!("P3\n123 0\n255\n", actual);
}
