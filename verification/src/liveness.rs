//! The ternary liveness lattice.
use std::cmp::Ordering;
use vstd::prelude::*;

verus! {

/// Ternary liveness state of a node in the object graph.
///
/// The states form a chain, `Dead` below `MaybeAlive` below `Alive`, and the
/// join of two states is the higher one.
#[derive(Debug, Clone, Copy, PartialEq, Eq, Structural, Ord, Hash)]
pub enum Liveness {
    /// Definitely dead / unreachable (white, value -1).
    Dead,
    /// Maybe alive / pending scan (gray, value 0).
    MaybeAlive,
    /// Definitely alive / reachable (black, value +1).
    Alive,
}

impl Liveness {
    /// Position in the chain: -1, 0 or +1.
    pub open spec fn rank(self) -> int {
        match self {
            Liveness::Dead => -1,
            Liveness::MaybeAlive => 0,
            Liveness::Alive => 1,
        }
    }

    /// The order of the lattice.
    pub open spec fn le(self, other: Liveness) -> bool {
        self.rank() <= other.rank()
    }

    /// The higher of two states.
    pub open spec fn lub(self, other: Liveness) -> Liveness {
        if self.le(other) {
            other
        } else {
            self
        }
    }

    /// The state whose rank has the sign of `v`.
    pub open spec fn of_sign(v: int) -> Liveness {
        if v < 0 {
            Liveness::Dead
        } else if v == 0 {
            Liveness::MaybeAlive
        } else {
            Liveness::Alive
        }
    }

    /// Numeric value: -1, 0, or +1.
    pub fn value(self) -> (v: i8)
        ensures
            v == self.rank(),
            self == Liveness::Dead <==> v == -1,
            self == Liveness::MaybeAlive <==> v == 0,
            self == Liveness::Alive <==> v == 1,
    {
        match self {
            Liveness::Dead => -1,
            Liveness::MaybeAlive => 0,
            Liveness::Alive => 1,
        }
    }

    /// Join (least upper bound): the greater of the two states.
    pub fn join(self, other: Liveness) -> (joined: Liveness)
        ensures
            joined == self.lub(other),
            joined == Liveness::Alive <==> self == Liveness::Alive || other == Liveness::Alive,
            joined == Liveness::Dead <==> self == Liveness::Dead && other == Liveness::Dead,
    {
        if self <= other {
            other
        } else {
            self
        }
    }

    /// Parse from `i8`. Values outside {-1, 0, +1} are clamped.
    pub fn from_i8(v: i8) -> (liveness: Self)
        ensures
            liveness == Liveness::of_sign(v as int),
            liveness == Liveness::Dead <==> v < 0,
            liveness == Liveness::MaybeAlive <==> v == 0,
            liveness == Liveness::Alive <==> v > 0,
    {
        if v < 0 {
            Liveness::Dead
        } else if v == 0 {
            Liveness::MaybeAlive
        } else {
            Liveness::Alive
        }
    }

    /// Tri-color name.
    pub fn color_name(self) -> (name: &'static str)
        ensures
            name@ == (match self {
                Liveness::Dead => "white"@,
                Liveness::MaybeAlive => "gray"@,
                Liveness::Alive => "black"@,
            }),
    {
        match self {
            Liveness::Dead => "white",
            Liveness::MaybeAlive => "gray",
            Liveness::Alive => "black",
        }
    }
}

impl PartialOrd for Liveness {
    fn partial_cmp(&self, other: &Self) -> (order: Option<Ordering>) {
        let (left, right) = (self.value(), other.value());
        if left < right {
            Some(Ordering::Less)
        } else if left == right {
            Some(Ordering::Equal)
        } else {
            Some(Ordering::Greater)
        }
    }
}

impl vstd::std_specs::cmp::PartialOrdSpecImpl for Liveness {
    open spec fn obeys_partial_cmp_spec() -> bool {
        true
    }

    open spec fn partial_cmp_spec(&self, other: &Self) -> Option<Ordering> {
        if self.rank() < other.rank() {
            Some(Ordering::Less)
        } else if self.rank() == other.rank() {
            Some(Ordering::Equal)
        } else {
            Some(Ordering::Greater)
        }
    }
}

/// The liveness order is a total order with `Dead` at the bottom and `Alive`
/// at the top.
pub proof fn lemma_liveness_total_order(a: Liveness, b: Liveness, c: Liveness)
    ensures
        a.le(a),
        a.le(b) && b.le(a) ==> a == b,
        a.le(b) && b.le(c) ==> a.le(c),
        a.le(b) || b.le(a),
        Liveness::Dead.le(a),
        a.le(Liveness::Alive),
{
}

/// Join is commutative, associative and idempotent, so the order in which
/// promotions arrive, and how often each arrives, does not matter.
pub proof fn lemma_join_semilattice(a: Liveness, b: Liveness, c: Liveness)
    ensures
        a.lub(b) == b.lub(a),
        a.lub(b).lub(c) == a.lub(b.lub(c)),
        a.lub(a) == a,
{
}

/// Join is the least upper bound of its arguments.
pub proof fn lemma_join_is_least_upper_bound(a: Liveness, b: Liveness, c: Liveness)
    ensures
        a.le(a.lub(b)),
        b.le(a.lub(b)),
        a.le(c) && b.le(c) ==> a.lub(b).le(c),
{
}

/// Joining never lowers a state: `Dead` is neutral and `Alive` absorbs.
pub proof fn lemma_join_never_regresses(a: Liveness, b: Liveness)
    ensures
        a.le(a.lub(b)),
        a.lub(Liveness::Dead) == a,
        a.lub(Liveness::Alive) == Liveness::Alive,
{
}

/// Parsing the numeric value of a state gives the state back, and the numeric
/// value of a parsed number is the number clamped to {-1, 0, +1}.
pub proof fn lemma_value_round_trip(a: Liveness, v: int)
    ensures
        Liveness::of_sign(a.rank()) == a,
        Liveness::of_sign(v).rank() == (if v < -1 {
            -1
        } else if v > 1 {
            1
        } else {
            v
        }),
{
}

} // verus!
