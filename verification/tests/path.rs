use raytracer::path::{Encounter, End, Path};

fn follow(max_depth: i32, encounters: &[Encounter]) -> Path {
    let mut path = Path::new(max_depth);
    for e in encounters {
        path.meet(*e);
    }
    path
}

#[test]
fn path_without_budget_is_black_at_once() {
    assert_eq!(Path::new(0).end(), Some(End::Black));
    assert_eq!(Path::new(-5).end(), Some(End::Black));
}

#[test]
fn path_without_budget_stays_black_whatever_it_meets() {
    for e in [Encounter::Miss, Encounter::Absorbed, Encounter::Scattered] {
        assert_eq!(follow(0, &[e]).end(), Some(End::Black));
        assert_eq!(follow(0, &[e, Encounter::Miss]).end(), Some(End::Black));
    }
}

#[test]
fn path_with_budget_is_open_at_the_camera() {
    let path = Path::new(10);
    assert_eq!(path.end(), None);
    assert_eq!(path.budget(), 10);
}

#[test]
fn path_that_misses_sees_the_sky() {
    assert_eq!(follow(10, &[Encounter::Miss]).end(), Some(End::Sky));
}

#[test]
fn path_that_is_absorbed_is_black() {
    assert_eq!(follow(10, &[Encounter::Absorbed]).end(), Some(End::Black));
}

#[test]
fn path_that_scatters_goes_on_with_one_bounce_less() {
    let path = follow(10, &[Encounter::Scattered]);
    assert_eq!(path.end(), None);
    assert_eq!(path.budget(), 9);
}

#[test]
fn path_that_scatters_then_misses_sees_the_sky() {
    let path = follow(3, &[Encounter::Scattered, Encounter::Scattered, Encounter::Miss]);
    assert_eq!(path.end(), Some(End::Sky));
    assert_eq!(path.budget(), 1);
}

#[test]
fn path_that_spends_its_budget_is_black() {
    let path = follow(2, &[Encounter::Scattered, Encounter::Scattered]);
    assert_eq!(path.end(), Some(End::Black));
    assert_eq!(path.budget(), 0);
}

#[test]
fn path_with_one_bounce_ends_after_one_ray() {
    assert_eq!(follow(1, &[Encounter::Scattered]).end(), Some(End::Black));
    assert_eq!(follow(1, &[Encounter::Miss]).end(), Some(End::Sky));
    assert_eq!(follow(1, &[Encounter::Absorbed]).end(), Some(End::Black));
}

#[test]
fn path_that_has_ended_stays_as_it_is() {
    let mut path = follow(5, &[Encounter::Scattered, Encounter::Miss]);
    assert_eq!(path.end(), Some(End::Sky));
    path.meet(Encounter::Absorbed);
    assert_eq!(path.end(), Some(End::Sky));
    assert_eq!(path.budget(), 4);
    path.meet(Encounter::Scattered);
    assert_eq!(path.end(), Some(End::Sky));
    assert_eq!(path.budget(), 4);
}

#[test]
fn path_ends_within_its_budget() {
    for max_depth in 0..20 {
        let mut path = Path::new(max_depth);
        let mut rays = 0;
        while path.end().is_none() {
            path.meet(Encounter::Scattered);
            rays += 1;
        }
        assert_eq!(rays, max_depth);
        assert_eq!(path.end(), Some(End::Black));
    }
}

fn radiance(depth: i32, encounters: &[Encounter]) -> Option<End> {
    if depth <= 0 {
        return Some(End::Black);
    }
    match encounters.first() {
        None => None,
        Some(Encounter::Miss) => Some(End::Sky),
        Some(Encounter::Absorbed) => Some(End::Black),
        Some(Encounter::Scattered) => radiance(depth - 1, &encounters[1..]),
    }
}

#[test]
fn path_followed_ray_by_ray_agrees_with_the_recursion() {
    let all = [Encounter::Miss, Encounter::Absorbed, Encounter::Scattered];
    for max_depth in 0..4 {
        for a in all {
            for b in all {
                for c in all {
                    let encounters = [a, b, c];
                    for n in 0..=3 {
                        assert_eq!(
                            follow(max_depth, &encounters[..n]).end(),
                            radiance(max_depth, &encounters[..n])
                        );
                    }
                }
            }
        }
    }
}
