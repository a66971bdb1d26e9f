//! The bounce budget of a light path.
//!
//! A path starts at the camera with a number of bounces it may take. Each ray
//! of it either leaves the scene and sees the sky, is absorbed by what it
//! hits, or is scattered into a new ray, which costs one bounce. A path that
//! has spent its budget is black, whatever the scene holds.

use vstd::prelude::*;

verus! {

/// What became of one ray of a path.
#[derive(Clone, Copy, Debug, PartialEq, Eq, Structural)]
pub enum Encounter {
    /// The ray hit nothing.
    Miss,
    /// The ray hit a surface that absorbed it.
    Absorbed,
    /// The ray hit a surface that scattered it into a new ray.
    Scattered,
}

/// The light at the far end of a path, before the surfaces on the way
/// attenuate it.
#[derive(Clone, Copy, Debug, PartialEq, Eq, Structural)]
pub enum End {
    /// No light: the path was absorbed, or ran out of bounces.
    Black,
    /// The background: the last ray left the scene.
    Sky,
}

/// A path as far as it has been followed: the bounces it may still take, and
/// its end once that is known.
pub struct Trail {
    pub budget: int,
    pub end: Option<End>,
}

/// The path at the camera, with a budget of `max_depth` bounces.
pub open spec fn start(max_depth: int) -> Trail {
    Trail {
        budget: max_depth,
        end: if max_depth <= 0 {
            Some(End::Black)
        } else {
            None
        },
    }
}

/// The path after its current ray met `encounter`. A path that has ended
/// stays as it is.
pub open spec fn meet(trail: Trail, encounter: Encounter) -> Trail {
    if trail.end.is_some() {
        trail
    } else {
        match encounter {
            Encounter::Miss => Trail { end: Some(End::Sky), ..trail },
            Encounter::Absorbed => Trail { end: Some(End::Black), ..trail },
            Encounter::Scattered => start(trail.budget - 1),
        }
    }
}

/// The path after its rays met `encounters`, one after the other.
pub open spec fn walk(max_depth: int, encounters: Seq<Encounter>) -> Trail
    decreases encounters.len(),
{
    if encounters.len() == 0 {
        start(max_depth)
    } else {
        meet(walk(max_depth, encounters.drop_last()), encounters.last())
    }
}

/// The end of a path by recursion on its depth: black at depth zero; else
/// the sky on a miss, black where the ray is absorbed, and where it is
/// scattered the end of the scattered ray's path at one depth less. Nothing
/// where `encounters` stops before the path does.
pub open spec fn radiance(depth: int, encounters: Seq<Encounter>) -> Option<End>
    decreases encounters.len(),
{
    if depth <= 0 {
        Some(End::Black)
    } else if encounters.len() == 0 {
        None
    } else {
        match encounters.first() {
            Encounter::Miss => Some(End::Sky),
            Encounter::Absorbed => Some(End::Black),
            Encounter::Scattered => radiance(depth - 1, encounters.drop_first()),
        }
    }
}

/// A path that is being followed.
pub struct Path {
    budget: i32,
    end: Option<End>,
}

impl View for Path {
    type V = Trail;

    closed spec fn view(&self) -> Trail {
        Trail { budget: self.budget as int, end: self.end }
    }
}

impl Path {
    #[verifier::type_invariant]
    spec fn consistent(self) -> bool {
        self.end.is_none() ==> self.budget > 0
    }

    /// A path at the camera that may take `max_depth` bounces.
    pub fn new(max_depth: i32) -> (path: Path)
        ensures
            path@ == start(max_depth as int),
    {
        Path {
            budget: max_depth,
            end: if max_depth <= 0 {
                Some(End::Black)
            } else {
                None
            },
        }
    }

    /// The end of the path, once it has one. While it has none, the next ray
    /// is to be traced.
    pub fn end(&self) -> (end: Option<End>)
        ensures
            end == self@.end,
    {
        self.end
    }

    /// The bounces that the path may still take.
    pub fn budget(&self) -> (budget: i32)
        ensures
            budget == self@.budget,
    {
        self.budget
    }

    /// Records what the current ray of the path met.
    pub fn meet(&mut self, encounter: Encounter)
        ensures
            final(self)@ == meet(old(self)@, encounter),
    {
        proof {
            use_type_invariant(&*self);
        }
        if self.end.is_some() {
            return ;
        }
        match encounter {
            Encounter::Miss => {
                *self = Path { budget: self.budget, end: Some(End::Sky) };
            },
            Encounter::Absorbed => {
                *self = Path { budget: self.budget, end: Some(End::Black) };
            },
            Encounter::Scattered => {
                *self = Path::new(self.budget - 1);
            },
        }
    }
}

/// A path with no budget is black, whatever its rays would meet.
pub proof fn spent_budget_is_black(max_depth: int, encounters: Seq<Encounter>)
    requires
        max_depth <= 0,
    ensures
        walk(max_depth, encounters).end == Some(End::Black),
        radiance(max_depth, encounters) == Some(End::Black),
    decreases encounters.len(),
{
    if encounters.len() > 0 {
        spent_budget_is_black(max_depth, encounters.drop_last());
    }
}

/// A path never holds more bounces than it started with, and has ended by
/// the time its rays have met as many things as its budget allowed.
pub proof fn path_ends_within_budget(max_depth: int, encounters: Seq<Encounter>)
    ensures
        walk(max_depth, encounters).budget <= max_depth,
        walk(max_depth, encounters).end.is_none() ==> walk(max_depth, encounters).budget
            == max_depth - encounters.len(),
        encounters.len() >= max_depth ==> walk(max_depth, encounters).end.is_some(),
    decreases encounters.len(),
{
    if encounters.len() > 0 {
        path_ends_within_budget(max_depth, encounters.drop_last());
    }
}

/// Following a path ray by ray gives the end that the recursion on its
/// depth gives.
pub proof fn walk_is_radiance(max_depth: int, encounters: Seq<Encounter>)
    ensures
        walk(max_depth, encounters).end == radiance(max_depth, encounters),
    decreases encounters.len(),
{
    if encounters.len() == 0 {
    } else if max_depth <= 0 {
        spent_budget_is_black(max_depth, encounters);
    } else {
        lemma_walk_from_first(max_depth, encounters);
        match encounters.first() {
            Encounter::Scattered => {
                walk_is_radiance(max_depth - 1, encounters.drop_first());
            },
            _ => {
                lemma_ended_stays(
                    meet(start(max_depth), encounters.first()),
                    encounters.drop_first(),
                );
            },
        }
    }
}

/// The path from `trail` on, after its rays met `encounters`.
spec fn walk_from(trail: Trail, encounters: Seq<Encounter>) -> Trail
    decreases encounters.len(),
{
    if encounters.len() == 0 {
        trail
    } else {
        meet(walk_from(trail, encounters.drop_last()), encounters.last())
    }
}

proof fn lemma_walk_from_start(max_depth: int, encounters: Seq<Encounter>)
    ensures
        walk_from(start(max_depth), encounters) == walk(max_depth, encounters),
    decreases encounters.len(),
{
    if encounters.len() > 0 {
        lemma_walk_from_start(max_depth, encounters.drop_last());
    }
}

proof fn lemma_walk_from_split(trail: Trail, encounters: Seq<Encounter>)
    requires
        encounters.len() > 0,
    ensures
        walk_from(trail, encounters) == walk_from(
            meet(trail, encounters.first()),
            encounters.drop_first(),
        ),
    decreases encounters.len(),
{
    if encounters.len() == 1 {
        assert(encounters.drop_last() =~= Seq::<Encounter>::empty());
        assert(encounters.drop_first() =~= Seq::<Encounter>::empty());
        assert(encounters.first() == encounters.last());
        assert(walk_from(trail, encounters.drop_last()) == trail);
    } else {
        lemma_walk_from_split(trail, encounters.drop_last());
        assert(encounters.drop_last().drop_first() =~= encounters.drop_first().drop_last());
        assert(encounters.drop_last().first() == encounters.first());
        assert(encounters.drop_first().last() == encounters.last());
    }
}

proof fn lemma_ended_stays(trail: Trail, encounters: Seq<Encounter>)
    requires
        trail.end.is_some(),
    ensures
        walk_from(trail, encounters) == trail,
    decreases encounters.len(),
{
    if encounters.len() > 0 {
        lemma_ended_stays(trail, encounters.drop_last());
    }
}

/// After the first ray the rest of the path is the path of the scattered
/// ray, or the path has ended and stays so.
proof fn lemma_walk_from_first(max_depth: int, encounters: Seq<Encounter>)
    requires
        encounters.len() > 0,
    ensures
        walk(max_depth, encounters) == walk_from(
            meet(start(max_depth), encounters.first()),
            encounters.drop_first(),
        ),
        max_depth > 0 && encounters.first() == Encounter::Scattered ==> walk(
            max_depth,
            encounters,
        ) == walk(max_depth - 1, encounters.drop_first()),
{
    lemma_walk_from_start(max_depth, encounters);
    lemma_walk_from_split(start(max_depth), encounters);
    lemma_walk_from_start(max_depth - 1, encounters.drop_first());
}

} // verus!
