//! What a traversal sees of a value: its shape.
use vstd::prelude::*;

verus! {

/// The width of an integer type.
pub enum Width {
    Bits8,
    Bits16,
    Bits32,
    Bits64,
    /// The width of a pointer (`usize`, `isize`).
    Pointer,
}

/// What a node of a value holds besides its children.
pub enum Label {
    /// Nothing besides the children (a struct).
    Node,
    /// A vector, whose children are its items.
    List,
    /// A box, whose one child is what it holds.
    Boxed,
    /// A boolean.
    Bool(bool),
    /// A character.
    Char(char),
    /// An unsigned integer of the given width.
    Unsigned(Width, int),
    /// A signed integer of the given width.
    Signed(Width, int),
    /// A text.
    Text(Seq<char>),
    /// The variant of an enum, numbered from 0.
    Variant(nat),
}

/// The tree of a value's parts that a traversal visits: one node for the
/// value, with what it holds itself and the shapes of its immediate
/// children, in the order in which they are visited.
pub struct Shape {
    pub label: Label,
    pub children: Seq<Shape>,
}

/// A node without children that holds `label`.
pub open spec fn leaf_with(label: Label) -> Shape {
    Shape { label, children: Seq::empty() }
}

/// A node without children that holds nothing.
pub open spec fn leaf() -> Shape {
    leaf_with(Label::Node)
}

/// One call of a query, as a record of the calls keeps it: its result, the
/// shape of its argument before and after the call, and whether the call
/// left its argument as it was.
pub struct Call<R> {
    pub result: R,
    pub before: Shape,
    pub after: Shape,
    pub kept: bool,
}

/// A value with a shape.
///
/// The default `shape` is a node without children that holds nothing; an
/// implementation outside verified code keeps that default, and then what
/// the library states of the value's shape says nothing of the value.
pub trait Shaped {
    /// The shape of the value.
    open spec fn shape(&self) -> Shape {
        leaf()
    }

    /// `self` holds what `other` holds: the same value, or for a vector
    /// the same number of items, each holding what the other's holds.
    open spec fn same_as(&self, other: &Self) -> bool {
        self == other
    }
}

impl Shaped for bool {
    open spec fn shape(&self) -> Shape {
        leaf_with(Label::Bool(*self))
    }
}

impl Shaped for char {
    open spec fn shape(&self) -> Shape {
        leaf_with(Label::Char(*self))
    }
}

impl Shaped for u8 {
    open spec fn shape(&self) -> Shape {
        leaf_with(Label::Unsigned(Width::Bits8, *self as int))
    }
}

impl Shaped for u16 {
    open spec fn shape(&self) -> Shape {
        leaf_with(Label::Unsigned(Width::Bits16, *self as int))
    }
}

impl Shaped for u32 {
    open spec fn shape(&self) -> Shape {
        leaf_with(Label::Unsigned(Width::Bits32, *self as int))
    }
}

impl Shaped for u64 {
    open spec fn shape(&self) -> Shape {
        leaf_with(Label::Unsigned(Width::Bits64, *self as int))
    }
}

impl Shaped for usize {
    open spec fn shape(&self) -> Shape {
        leaf_with(Label::Unsigned(Width::Pointer, *self as int))
    }
}

impl Shaped for i8 {
    open spec fn shape(&self) -> Shape {
        leaf_with(Label::Signed(Width::Bits8, *self as int))
    }
}

impl Shaped for i16 {
    open spec fn shape(&self) -> Shape {
        leaf_with(Label::Signed(Width::Bits16, *self as int))
    }
}

impl Shaped for i32 {
    open spec fn shape(&self) -> Shape {
        leaf_with(Label::Signed(Width::Bits32, *self as int))
    }
}

impl Shaped for i64 {
    open spec fn shape(&self) -> Shape {
        leaf_with(Label::Signed(Width::Bits64, *self as int))
    }
}

impl Shaped for isize {
    open spec fn shape(&self) -> Shape {
        leaf_with(Label::Signed(Width::Pointer, *self as int))
    }
}

impl Shaped for &'static str {
    open spec fn shape(&self) -> Shape {
        leaf_with(Label::Text((*self)@))
    }
}

impl Shaped for String {
    open spec fn shape(&self) -> Shape {
        leaf_with(Label::Text(self@))
    }
}

impl<T: Shaped> Shaped for Box<T> {
    open spec fn shape(&self) -> Shape {
        Shape { label: Label::Boxed, children: seq![(**self).shape()] }
    }

    open spec fn same_as(&self, other: &Self) -> bool {
        (**self).same_as(&**other)
    }
}

impl<T: Shaped> Shaped for Option<T> {
    open spec fn shape(&self) -> Shape {
        match self {
            Some(x) => Shape { label: Label::Variant(1), children: seq![x.shape()] },
            None => leaf_with(Label::Variant(0)),
        }
    }

    open spec fn same_as(&self, other: &Self) -> bool {
        match (self, other) {
            (Some(x), Some(y)) => x.same_as(y),
            (None, None) => true,
            _ => false,
        }
    }
}

impl<T: Shaped> Shaped for Vec<T> {
    open spec fn shape(&self) -> Shape {
        Shape { label: Label::List, children: Seq::new(self@.len(), |i: int| self@[i].shape()) }
    }

    open spec fn same_as(&self, other: &Self) -> bool {
        &&& self@.len() == other@.len()
        &&& forall|i: int| 0 <= i < self@.len() ==> #[trigger] self@[i].same_as(&other@[i])
    }
}

} // verus!
