use lights_out_solver::args::Origin;
use lights_out_solver::program::Program;

#[test]
fn rotate_3x3() {
    let mut indices_bottom_left = vec![0, 8];
    let mut indices_top_right = vec![8, 0];
    let mut indices_bottom_right = vec![2, 6];
    let expected_top_left = vec![6, 2];

    Program::rotate_light_indices(&mut indices_bottom_left, 3, 3, Origin::BottomLeft);
    Program::rotate_light_indices(&mut indices_top_right, 3, 3, Origin::TopRight);
    Program::rotate_light_indices(&mut indices_bottom_right, 3, 3, Origin::BottomRight);

    assert_eq!(
        indices_bottom_left, expected_top_left,
        "Convertion from BL to TL failed"
    );
    assert_eq!(
        indices_top_right, expected_top_left,
        "Convertion from TR to TL failed"
    );
    assert_eq!(
        indices_bottom_right, expected_top_left,
        "Convertion from BR to TL failed"
    );
}

#[test]
fn rotate_5x2() {
    let mut indices_bottom_left = vec![0, 9];
    let mut indices_top_right = vec![9, 0];
    let mut indices_bottom_right = vec![1, 8];
    let expected_top_left = vec![8, 1];

    Program::rotate_light_indices(&mut indices_bottom_left, 2, 5, Origin::BottomLeft);
    Program::rotate_light_indices(&mut indices_top_right, 2, 5, Origin::TopRight);
    Program::rotate_light_indices(&mut indices_bottom_right, 2, 5, Origin::BottomRight);

    assert_eq!(
        indices_bottom_left, expected_top_left,
        "Convertion from BL to TL failed"
    );
    assert_eq!(
        indices_top_right, expected_top_left,
        "Convertion from TR to TL failed"
    );
    assert_eq!(
        indices_bottom_right, expected_top_left,
        "Convertion from BR to TL failed"
    );
}

#[test]
fn rotate_twice_restores() {
    for origin in [
        Origin::TopLeft,
        Origin::TopRight,
        Origin::BottomLeft,
        Origin::BottomRight,
    ] {
        let mut indices = vec![0, 1, 4, 7, 11];
        Program::rotate_light_indices(&mut indices, 4, 3, origin);
        Program::rotate_light_indices(&mut indices, 4, 3, origin);
        assert_eq!(indices, vec![0, 1, 4, 7, 11]);
    }
}
