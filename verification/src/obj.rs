//! The objects a level is made of.
use vstd::prelude::*;

verus! {

/// One cell of a level.
#[derive(Clone, Copy, PartialEq, Eq, Structural, PartialOrd, Debug)]
pub enum Obj {
    Wall,
    Space,
    Boxx,
    Hole,
    Human,
    HumanInHole,
    BoxxInHole,
}

/// The character that stands for an object in level text.
pub open spec fn obj_char(o: Obj) -> char {
    match o {
        Obj::Wall => '#',
        Obj::Space => ' ',
        Obj::Boxx => '*',
        Obj::Hole => 'O',
        Obj::Human => '&',
        Obj::HumanInHole => '%',
        Obj::BoxxInHole => '@',
    }
}

/// Whether `c` stands for an object in level text.
pub open spec fn is_obj_char(c: char) -> bool {
    c == '#' || c == ' ' || c == '*' || c == 'O' || c == '&' || c == '%' || c == '@'
}

/// The object that the level-text character `c` stands for.
pub open spec fn char_obj(c: char) -> Obj {
    if c == '#' { Obj::Wall }
    else if c == ' ' { Obj::Space }
    else if c == '*' { Obj::Boxx }
    else if c == 'O' { Obj::Hole }
    else if c == '&' { Obj::Human }
    else if c == '%' { Obj::HumanInHole }
    else { Obj::BoxxInHole }
}

/// The number of each object (its position in the declaration).
pub open spec fn obj_code(o: Obj) -> u32 {
    match o {
        Obj::Wall => 0,
        Obj::Space => 1,
        Obj::Boxx => 2,
        Obj::Hole => 3,
        Obj::Human => 4,
        Obj::HumanInHole => 5,
        Obj::BoxxInHole => 6,
    }
}

impl Obj {
    pub fn to_char(&self) -> (c: char)
        ensures
            c == obj_char(*self),
    {
        match self {
            Obj::Wall => '#',
            Obj::Space => ' ',
            Obj::Boxx => '*',
            Obj::Hole => 'O',
            Obj::Human => '&',
            Obj::HumanInHole => '%',
            Obj::BoxxInHole => '@',
        }
    }

    /// The object for a level-text character; `c` must stand for one.
    pub fn from_char(c: &char) -> (o: Obj)
        requires
            is_obj_char(*c),
        ensures
            o == char_obj(*c),
            obj_char(o) == *c,
    {
        let c = *c;
        if c == '#' { Obj::Wall }
        else if c == ' ' { Obj::Space }
        else if c == '*' { Obj::Boxx }
        else if c == 'O' { Obj::Hole }
        else if c == '&' { Obj::Human }
        else if c == '%' { Obj::HumanInHole }
        else { Obj::BoxxInHole }
    }

    /// The number of the object (Wall 0 to BoxxInHole 6).
    pub fn to_u32(&self) -> (n: u32)
        ensures
            n == obj_code(*self),
    {
        match self {
            Obj::Wall => 0,
            Obj::Space => 1,
            Obj::Boxx => 2,
            Obj::Hole => 3,
            Obj::Human => 4,
            Obj::HumanInHole => 5,
            Obj::BoxxInHole => 6,
        }
    }
}

/// Whether `c` stands for an object in level text.
pub fn is_object_char(c: char) -> (r: bool)
    ensures
        r == is_obj_char(c),
{
    c == '#' || c == ' ' || c == '*' || c == 'O' || c == '&' || c == '%' || c == '@'
}

/// Reading a character back from an object gives the object again.
pub proof fn lemma_obj_char_roundtrip(o: Obj)
    ensures
        is_obj_char(obj_char(o)),
        char_obj(obj_char(o)) == o,
{
}

} // verus!
