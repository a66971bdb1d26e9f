use raytracer::sweep::{Step, Sweep};

fn run(width: i32, height: i32, samples: i32) -> Vec<Step> {
    let mut sweep = Sweep::new(width, height, samples);
    let mut steps = Vec::new();
    loop {
        let step = sweep.next();
        if step == Step::Done {
            return steps;
        }
        steps.push(step);
    }
}

#[test]
fn sweep_of_one_pixel_with_one_sample() {
    assert_eq!(
        run(1, 1, 1),
        vec![
            Step::Trace { column: 0, row: 0 },
            Step::Emit { column: 0, row: 0 },
        ]
    );
}

#[test]
fn sweep_goes_left_to_right_then_down() {
    assert_eq!(
        run(2, 2, 1),
        vec![
            Step::Trace { column: 0, row: 0 },
            Step::Emit { column: 0, row: 0 },
            Step::Trace { column: 1, row: 0 },
            Step::Emit { column: 1, row: 0 },
            Step::Trace { column: 0, row: 1 },
            Step::Emit { column: 0, row: 1 },
            Step::Trace { column: 1, row: 1 },
            Step::Emit { column: 1, row: 1 },
        ]
    );
}

#[test]
fn sweep_takes_every_sample_before_the_output() {
    assert_eq!(
        run(1, 2, 3),
        vec![
            Step::Trace { column: 0, row: 0 },
            Step::Trace { column: 0, row: 0 },
            Step::Trace { column: 0, row: 0 },
            Step::Emit { column: 0, row: 0 },
            Step::Trace { column: 0, row: 1 },
            Step::Trace { column: 0, row: 1 },
            Step::Trace { column: 0, row: 1 },
            Step::Emit { column: 0, row: 1 },
        ]
    );
}

#[test]
fn sweep_has_as_many_steps_as_planned() {
    let steps = run(7, 5, 4);
    assert_eq!(steps.len(), 7 * 5 * (4 + 1));
    let traces = steps
        .iter()
        .filter(|s| matches!(s, Step::Trace { .. }))
        .count();
    let emits = steps
        .iter()
        .filter(|s| matches!(s, Step::Emit { .. }))
        .count();
    assert_eq!(traces, 7 * 5 * 4);
    assert_eq!(emits, 7 * 5);
}

#[test]
fn sweep_emits_pixels_in_image_order() {
    let width = 4;
    let height = 3;
    let emitted: Vec<(i32, i32)> = run(width, height, 2)
        .into_iter()
        .filter_map(|s| match s {
            Step::Emit { column, row } => Some((column, row)),
            _ => None,
        })
        .collect();
    let mut expected = Vec::new();
    for row in 0..height {
        for column in 0..width {
            expected.push((column, row));
        }
    }
    assert_eq!(emitted, expected);
}

#[test]
fn sweep_step_at_a_place_is_that_of_its_pixel() {
    let width = 5;
    let samples = 3;
    let steps = run(width, 4, samples);
    let per = samples + 1;
    for (k, step) in steps.iter().enumerate() {
        let pixel = k as i32 / per;
        let turn = k as i32 % per;
        let column = pixel % width;
        let row = pixel / width;
        let expected = if turn < samples {
            Step::Trace { column, row }
        } else {
            Step::Emit { column, row }
        };
        assert_eq!(*step, expected);
    }
}

#[test]
fn sweep_without_samples_still_emits_every_pixel() {
    assert_eq!(
        run(2, 1, 0),
        vec![
            Step::Emit { column: 0, row: 0 },
            Step::Emit { column: 1, row: 0 },
        ]
    );
    assert_eq!(run(1, 1, -4), vec![Step::Emit { column: 0, row: 0 }]);
}

#[test]
fn sweep_of_an_empty_image_is_done_at_once() {
    assert!(run(0, 3, 2).is_empty());
    assert!(run(3, 0, 2).is_empty());
    assert!(run(-1, 3, 2).is_empty());
    assert!(run(3, -1, 2).is_empty());
    assert!(run(0, 0, 0).is_empty());
}

#[test]
fn sweep_stays_done() {
    let mut sweep = Sweep::new(1, 1, 1);
    assert_eq!(sweep.next(), Step::Trace { column: 0, row: 0 });
    assert_eq!(sweep.next(), Step::Emit { column: 0, row: 0 });
    assert_eq!(sweep.next(), Step::Done);
    assert_eq!(sweep.next(), Step::Done);
    assert_eq!(sweep.next(), Step::Done);
}
