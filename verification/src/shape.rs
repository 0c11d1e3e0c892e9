//! What a decoder is asked to find.

use vstd::prelude::*;
use crate::value::names_unique;

verus! {

/// What a scalar's text is expected to denote.
#[derive(Debug, Clone, Copy, PartialEq, Eq)]
pub enum ScalarKind {
    Text,
    Bool,
    I8,
    I16,
    I32,
    I64,
    U8,
    U16,
    U32,
    U64,
    Char,
}

/// What a decoder is asked to find at a path.
#[derive(Debug, PartialEq, Eq)]
pub enum Shape {
    /// Whatever the records show: a scalar, else a sequence, else a mapping.
    Any,
    /// A leaf whose text denotes a value of the given kind.
    Scalar(ScalarKind),
    /// Nothing; no record is read.
    Unit,
    /// The inner shape, or nothing where no record lies at or under the path.
    Optional(Box<Shape>),
    /// A sequence whose length is read from its marker, every element of the
    /// inner shape.
    Sequence(Box<Shape>),
    /// A sequence of fixed arity, one shape per element; no marker is read.
    Tuple(Vec<Shape>),
    /// A mapping whose field names are discovered from the record keys, every
    /// field of the inner shape.
    Dictionary(Box<Shape>),
    /// A mapping with exactly the given fields, in the given order.
    Struct(Vec<(String, Shape)>),
}

/// A shape as plain mathematical data.
pub enum ShapeView {
    Any,
    Scalar(ScalarKind),
    Unit,
    Optional(Box<ShapeView>),
    Sequence(Box<ShapeView>),
    Tuple(Seq<ShapeView>),
    Dictionary(Box<ShapeView>),
    Struct(Seq<(Seq<char>, ShapeView)>),
}

impl View for Shape {
    type V = ShapeView;

    open spec fn view(&self) -> ShapeView {
        shape_view(*self)
    }
}

/// The plain form of a shape.
pub open spec fn shape_view(shape: Shape) -> ShapeView
    decreases shape,
{
    match shape {
        Shape::Any => ShapeView::Any,
        Shape::Scalar(kind) => ShapeView::Scalar(kind),
        Shape::Unit => ShapeView::Unit,
        Shape::Optional(inner) => ShapeView::Optional(Box::new(shape_view(*inner))),
        Shape::Sequence(inner) => ShapeView::Sequence(Box::new(shape_view(*inner))),
        Shape::Tuple(items) => ShapeView::Tuple(
            Seq::new(
                items@.len(),
                |i: int|
                    if 0 <= i < items@.len() {
                        shape_view(items@[i])
                    } else {
                        ShapeView::Unit
                    },
            ),
        ),
        Shape::Dictionary(inner) => ShapeView::Dictionary(Box::new(shape_view(*inner))),
        Shape::Struct(fields) => ShapeView::Struct(
            Seq::new(
                fields@.len(),
                |i: int|
                    if 0 <= i < fields@.len() {
                        (fields@[i].0@, shape_view(fields@[i].1))
                    } else {
                        (Seq::empty(), ShapeView::Unit)
                    },
            ),
        ),
    }
}

impl ShapeView {
    /// Field names are unique in every struct of the shape.
    pub open spec fn well_formed(self) -> bool
        decreases self,
    {
        match self {
            ShapeView::Optional(inner) => inner.well_formed(),
            ShapeView::Sequence(inner) => inner.well_formed(),
            ShapeView::Dictionary(inner) => inner.well_formed(),
            ShapeView::Tuple(shapes) => forall|i: int|
                0 <= i < shapes.len() ==> (#[trigger] shapes[i]).well_formed(),
            ShapeView::Struct(fields) => names_unique(fields) && forall|i: int|
                0 <= i < fields.len() ==> (#[trigger] fields[i]).1.well_formed(),
            _ => true,
        }
    }
}

/// The view of a tuple shape holds the views of its items, in order.
pub proof fn lemma_tuple_view(items: Vec<Shape>)
    ensures
        Shape::Tuple(items)@ is Tuple,
        Shape::Tuple(items)@->Tuple_0.len() == items@.len(),
        forall|i: int| 0 <= i < items@.len() ==> Shape::Tuple(items)@->Tuple_0[i] == items@[i]@,
{
}

/// The view of a struct shape holds the names and the views of its fields,
/// in order.
pub proof fn lemma_struct_view(fields: Vec<(String, Shape)>)
    ensures
        Shape::Struct(fields)@ is Struct,
        Shape::Struct(fields)@->Struct_0.len() == fields@.len(),
        forall|i: int|
            0 <= i < fields@.len() ==> Shape::Struct(fields)@->Struct_0[i] == (
                fields@[i].0@,
                fields@[i].1@,
            ),
{
}

impl Shape {
    /// A copy that holds the same shape.
    #[verifier::loop_isolation(false)]
    pub fn duplicate(&self) -> (copy: Self)
        ensures
            copy@ == self@,
        decreases self,
    {
        match self {
            Shape::Any => Shape::Any,
            Shape::Scalar(kind) => Shape::Scalar(*kind),
            Shape::Unit => Shape::Unit,
            Shape::Optional(inner) => Shape::Optional(Box::new(inner.duplicate())),
            Shape::Sequence(inner) => Shape::Sequence(Box::new(inner.duplicate())),
            Shape::Dictionary(inner) => Shape::Dictionary(Box::new(inner.duplicate())),
            Shape::Tuple(items) => {
                let mut copies: Vec<Shape> = Vec::new();
                let mut i: usize = 0;
                while i < items.len()
                    invariant
                        i <= items.len(),
                        copies@.len() == i,
                        forall|j: int| 0 <= j < i ==> copies@[j]@ == items@[j]@,
                    decreases items.len() - i,
                {
                    copies.push(items[i].duplicate());
                    i += 1;
                }
                proof {
                    lemma_tuple_view(*items);
                    lemma_tuple_view(copies);
                    assert(Shape::Tuple(copies)@->Tuple_0 =~= self@->Tuple_0);
                }
                Shape::Tuple(copies)
            },
            Shape::Struct(fields) => {
                let mut copies: Vec<(String, Shape)> = Vec::new();
                let mut i: usize = 0;
                while i < fields.len()
                    invariant
                        i <= fields.len(),
                        copies@.len() == i,
                        forall|j: int|
                            0 <= j < i ==> copies@[j].0@ == fields@[j].0@ && copies@[j].1@
                                == fields@[j].1@,
                    decreases fields.len() - i,
                {
                    let field = &fields[i];
                    copies.push((field.0.clone(), field.1.duplicate()));
                    i += 1;
                }
                proof {
                    lemma_struct_view(*fields);
                    lemma_struct_view(copies);
                    assert(Shape::Struct(copies)@->Struct_0 =~= self@->Struct_0);
                }
                Shape::Struct(copies)
            },
        }
    }
}

impl Clone for Shape {
    fn clone(&self) -> (copy: Self)
        ensures
            copy@ == self@,
    {
        self.duplicate()
    }
}

} // verus!
