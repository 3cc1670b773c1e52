use vstd::prelude::*;

verus! {

/// Name of the vertex group that shows the path being recorded.
pub const RECORDING_GROUP: &'static str = "recording";
/// Name of the vertex group that shows the compared paths.
pub const PATHS_GROUP: &'static str = "paths";
/// Name of the vertex group that shows the triggers.
pub const TRIGGERS_GROUP: &'static str = "triggers";
/// Name of the vertex group that shows the teleport markers.
pub const TELEPORTS_GROUP: &'static str = "teleports";
/// Name of the vertex group that shows the custom shapes.
pub const SHAPES_GROUP: &'static str = "custom_shapes";

/// Which groups of the scene must be drawn again.
#[derive(Clone, Copy, PartialEq, Eq, Structural, Debug)]
pub struct RenderUpdates {
    pub paths: bool,
    pub triggers: bool,
    pub teleports: bool,
    pub shapes: bool,
}

/// The field-wise disjunction of two sets of pending updates.
pub open spec fn union_of(a: RenderUpdates, b: RenderUpdates) -> RenderUpdates {
    RenderUpdates {
        paths: a.paths || b.paths,
        triggers: a.triggers || b.triggers,
        teleports: a.teleports || b.teleports,
        shapes: a.shapes || b.shapes,
    }
}

impl RenderUpdates {
    /// No group needs to be drawn again.
    pub fn new() -> (r: Self)
        ensures
            r == (RenderUpdates { paths: false, triggers: false, teleports: false, shapes: false }),
    {
        RenderUpdates { paths: false, triggers: false, teleports: false, shapes: false }
    }

    /// Only the paths need to be drawn again.
    pub fn paths() -> (r: Self)
        ensures
            r == (RenderUpdates { paths: true, triggers: false, teleports: false, shapes: false }),
    {
        RenderUpdates { paths: true, triggers: false, teleports: false, shapes: false }
    }

    /// Only the triggers need to be drawn again.
    pub fn triggers() -> (r: Self)
        ensures
            r == (RenderUpdates { paths: false, triggers: true, teleports: false, shapes: false }),
    {
        RenderUpdates { paths: false, triggers: true, teleports: false, shapes: false }
    }

    /// Only the teleport markers need to be drawn again.
    pub fn teleports() -> (r: Self)
        ensures
            r == (RenderUpdates { paths: false, triggers: false, teleports: true, shapes: false }),
    {
        RenderUpdates { paths: false, triggers: false, teleports: true, shapes: false }
    }

    /// Only the custom shapes need to be drawn again.
    pub fn shapes() -> (r: Self)
        ensures
            r == (RenderUpdates { paths: false, triggers: false, teleports: false, shapes: true }),
    {
        RenderUpdates { paths: false, triggers: false, teleports: false, shapes: true }
    }

    /// Adds the updates of `other` to the pending ones.
    pub fn or(&mut self, other: RenderUpdates)
        ensures
            *final(self) == union_of(*old(self), other),
    {
        self.paths = self.paths || other.paths;
        self.triggers = self.triggers || other.triggers;
        self.teleports = self.teleports || other.teleports;
        self.shapes = self.shapes || other.shapes;
    }
}

/// Merging pending updates does not depend on the order in which they come.
pub proof fn lemma_union_commutative(a: RenderUpdates, b: RenderUpdates)
    ensures
        union_of(a, b) == union_of(b, a),
{
}

/// Merging pending updates groups freely.
pub proof fn lemma_union_associative(a: RenderUpdates, b: RenderUpdates, c: RenderUpdates)
    ensures
        union_of(union_of(a, b), c) == union_of(a, union_of(b, c)),
{
}

/// Merging the same updates twice changes nothing, and merging nothing changes nothing.
pub proof fn lemma_union_idempotent_and_unit(a: RenderUpdates)
    ensures
        union_of(a, a) == a,
        union_of(a, RenderUpdates { paths: false, triggers: false, teleports: false, shapes: false }) == a,
{
}

/// A pending update stays pending after any merge.
pub proof fn lemma_union_keeps_pending(a: RenderUpdates, b: RenderUpdates)
    ensures
        a.paths ==> union_of(a, b).paths,
        a.triggers ==> union_of(a, b).triggers,
        a.teleports ==> union_of(a, b).teleports,
        a.shapes ==> union_of(a, b).shapes,
{
}

} // verus!
