//! Parts, their connectors, and the test that decides whether two parts snap.

use vstd::prelude::*;

verus! {

/// The shape family of a part.
#[derive(Clone, Copy, Debug, PartialEq, Eq, Structural)]
pub enum Part {
    Brick,
    Wedge,
    Ball,
    Mesh,
}

impl Default for Part {
    fn default() -> (part: Self)
        ensures
            part == Part::Brick,
    {
        Part::Brick
    }
}

/// The connector on one face of a part.
#[derive(Clone, Copy, Debug, PartialEq, Eq, Structural)]
pub enum StudType {
    Flat,
    Outlet,
    Inlet,
}

/// The connectors on the upper and the lower face of a part.
#[derive(Clone, Copy, Debug, PartialEq, Eq, Structural)]
pub struct StudInfo {
    pub top: StudType,
    pub bottom: StudType,
}

impl Default for StudInfo {
    fn default() -> (studs: Self)
        ensures
            studs == (StudInfo { top: StudType::Outlet, bottom: StudType::Inlet }),
    {
        StudInfo { top: StudType::Outlet, bottom: StudType::Inlet }
    }
}

/// How the bounding boxes of an ordered pair of parts `(a, b)` lie to each
/// other. The three flags are the outcome of the coordinate comparisons; the
/// caller makes them.
#[derive(Clone, Copy, Debug, PartialEq, Eq, Structural)]
pub struct Contact {
    /// The boxes overlap on all three axes, boundaries included.
    pub touch: bool,
    /// The lower face of `a` lies at the height of the upper face of `b`.
    pub rests_on: bool,
    /// The upper face of `a` lies at the height of the lower face of `b`.
    pub carries: bool,
}

impl Contact {
    /// The contact of two parts that are apart.
    pub fn none() -> (contact: Self)
        ensures
            contact == Contact::apart(),
    {
        Contact { touch: false, rests_on: false, carries: false }
    }

    /// The contact of two parts that are apart.
    pub open spec fn apart() -> Contact {
        Contact { touch: false, rests_on: false, carries: false }
    }
}

/// An outlet meets an inlet.
pub open spec fn complementary(x: StudType, y: StudType) -> bool {
    (x == StudType::Inlet && y == StudType::Outlet) || (x == StudType::Outlet && y
        == StudType::Inlet)
}

/// Two parts snap: their boxes touch, and on a pair of faces that meet the
/// connectors are complementary.
pub open spec fn snaps(contact: Contact, part_a: StudInfo, part_b: StudInfo) -> bool {
    contact.touch && ((contact.rests_on && complementary(part_a.bottom, part_b.top)) || (
    contact.carries && complementary(part_a.top, part_b.bottom)))
}

fn fits(x: StudType, y: StudType) -> (fit: bool)
    ensures
        fit == complementary(x, y),
{
    (x == StudType::Inlet && y == StudType::Outlet) || (x == StudType::Outlet && y
        == StudType::Inlet)
}

/// Whether two parts snap together, given how their boxes lie to each other.
pub fn touch_check(contact: &Contact, part_a: &StudInfo, part_b: &StudInfo) -> (snap: bool)
    ensures
        snap == snaps(*contact, *part_a, *part_b),
{
    if !contact.touch {
        return false;
    }
    let a_b_snap = contact.rests_on && fits(part_a.bottom, part_b.top);
    let b_a_snap = contact.carries && fits(part_a.top, part_b.bottom);
    a_b_snap || b_a_snap
}

/// What is known of the placement of the entities of a world: which of them
/// stand upright, and the contact of each ordered pair. Both tables are
/// indexed by entity id; an entry that is missing counts as not upright, or
/// as apart.
pub struct Geometry {
    pub upright: Vec<bool>,
    pub contacts: Vec<Vec<Contact>>,
}

impl Geometry {
    /// The entity's rotation is close to none.
    pub open spec fn upright_at(&self, e: int) -> bool {
        0 <= e < self.upright@.len() && self.upright@[e]
    }

    /// The contact of the ordered pair `(a, b)`.
    pub open spec fn contact_at(&self, a: int, b: int) -> Contact {
        if 0 <= a < self.contacts@.len() && 0 <= b < self.contacts@[a]@.len() {
            self.contacts@[a]@[b]
        } else {
            Contact::apart()
        }
    }

    /// Whether the entity stands upright.
    pub fn is_upright(&self, e: usize) -> (up: bool)
        ensures
            up == self.upright_at(e as int),
    {
        e < self.upright.len() && self.upright[e]
    }

    /// The contact of the ordered pair `(a, b)`.
    pub fn contact(&self, a: usize, b: usize) -> (contact: Contact)
        ensures
            contact == self.contact_at(a as int, b as int),
    {
        if a < self.contacts.len() && b < self.contacts[a].len() {
            self.contacts[a][b]
        } else {
            Contact::none()
        }
    }
}

} // verus!
