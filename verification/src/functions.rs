//! References to functions.

use vstd::prelude::*;

use crate::locations::{Location, Pinned, PinnedModel, Span, SpanModel};
use crate::ordered::{compare_text, compare_usize, nat_order, same_text, text_order, text_order_equal,
    text_order_flip, text_order_transitive, Order, Ordered};
use crate::text::decimal;

verus! {

/// Identifies a function across the whole analysis.
#[derive(Debug, Hash)]
pub enum FunctionRef {
    /// A function or method declared under a name.
    Named(Pinned<Span>),
    /// A function literal, by its place in the source.
    Anonymous(Pinned<Location>),
    /// A function that the language predeclares.
    BuiltIn(String),
    /// A callable of which nothing but its use is known.
    BlackboxInference(Pinned<Location>),
}

/// What a [`FunctionRef`] stands for.
#[verifier::ext_equal]
pub enum FunctionModel {
    Named(PinnedModel<SpanModel>),
    Anonymous(PinnedModel<Location>),
    BuiltIn(Seq<char>),
    BlackboxInference(PinnedModel<Location>),
}

impl View for FunctionRef {
    type V = FunctionModel;

    open spec fn view(&self) -> FunctionModel {
        match self {
            FunctionRef::Named(name) => FunctionModel::Named(name@),
            FunctionRef::Anonymous(at) => FunctionModel::Anonymous(at@),
            FunctionRef::BuiltIn(name) => FunctionModel::BuiltIn(name@),
            FunctionRef::BlackboxInference(at) => FunctionModel::BlackboxInference(at@),
        }
    }
}

impl FunctionModel {
    /// Where the kind of reference stands among the kinds.
    pub open spec fn rank(self) -> nat {
        match self {
            FunctionModel::Named(_) => 0,
            FunctionModel::Anonymous(_) => 1,
            FunctionModel::BuiltIn(_) => 2,
            FunctionModel::BlackboxInference(_) => 3,
        }
    }

    /// Whether this is the function with which a program starts.
    pub open spec fn is_main(self) -> bool {
        self matches FunctionModel::Named(name) && name.inner.content == "main"@
    }
}

/// Compares two references by kind, then by what they hold.
pub open spec fn function_order(a: FunctionModel, b: FunctionModel) -> Order {
    match (a, b) {
        (FunctionModel::Named(x), FunctionModel::Named(y)) => Pinned::<Span>::order(x, y),
        (FunctionModel::Anonymous(x), FunctionModel::Anonymous(y)) => Pinned::<Location>::order(
            x,
            y,
        ),
        (FunctionModel::BuiltIn(x), FunctionModel::BuiltIn(y)) => text_order(x, y),
        (
            FunctionModel::BlackboxInference(x),
            FunctionModel::BlackboxInference(y),
        ) => Pinned::<Location>::order(x, y),
        _ => nat_order(a.rank(), b.rank()),
    }
}

impl FunctionRef {
    fn rank(&self) -> (r: usize)
        ensures
            r == self@.rank(),
    {
        match self {
            FunctionRef::Named(_) => 0,
            FunctionRef::Anonymous(_) => 1,
            FunctionRef::BuiltIn(_) => 2,
            FunctionRef::BlackboxInference(_) => 3,
        }
    }

    /// Whether this is the function with which a program starts.
    pub fn is_main(&self) -> (r: bool)
        ensures
            r == self@.is_main(),
    {
        match self {
            FunctionRef::Named(name) => same_text(name.content(), "main"),
            _ => false,
        }
    }

    /// A short text for people: the name, or the place, of the function.
    pub fn to_text(&self) -> (r: String)
        ensures
            self@ matches FunctionModel::Named(name) ==> r@ == name.inner.content,
            self@ matches FunctionModel::BuiltIn(name) ==> r@ == name,
            self@ matches FunctionModel::Anonymous(at) ==> r@ == "func@"@ + crate::text::digits(
                at.inner.start as nat,
            ),
            self@ matches FunctionModel::BlackboxInference(at) ==> r@ == "func@"@
                + crate::text::digits(at.inner.start as nat),
    {
        match self {
            FunctionRef::Named(name) => name.content().to_owned(),
            FunctionRef::BuiltIn(name) => name.clone(),
            FunctionRef::Anonymous(at) => "func@".to_owned().concat(
                decimal(at.inner().start).as_str(),
            ),
            FunctionRef::BlackboxInference(at) => "func@".to_owned().concat(
                decimal(at.inner().start).as_str(),
            ),
        }
    }
}

impl Ordered for FunctionRef {
    open spec fn order(a: FunctionModel, b: FunctionModel) -> Order {
        function_order(a, b)
    }

    proof fn order_equal(a: FunctionModel, b: FunctionModel) {
        assert(Self::order(a, b) == function_order(a, b));
        match (a, b) {
            (FunctionModel::Named(x), FunctionModel::Named(y)) => {
                Pinned::<Span>::order_equal(x, y);
            },
            (FunctionModel::Anonymous(x), FunctionModel::Anonymous(y)) => {
                Pinned::<Location>::order_equal(x, y);
            },
            (FunctionModel::BuiltIn(x), FunctionModel::BuiltIn(y)) => {
                text_order_equal(x, y);
            },
            (FunctionModel::BlackboxInference(x), FunctionModel::BlackboxInference(y)) => {
                Pinned::<Location>::order_equal(x, y);
            },
            _ => {},
        }
    }

    proof fn order_flip(a: FunctionModel, b: FunctionModel) {
        assert(Self::order(a, b) == function_order(a, b));
        assert(Self::order(b, a) == function_order(b, a));
        match (a, b) {
            (FunctionModel::Named(x), FunctionModel::Named(y)) => {
                Pinned::<Span>::order_flip(x, y);
            },
            (FunctionModel::Anonymous(x), FunctionModel::Anonymous(y)) => {
                Pinned::<Location>::order_flip(x, y);
            },
            (FunctionModel::BuiltIn(x), FunctionModel::BuiltIn(y)) => {
                text_order_flip(x, y);
            },
            (FunctionModel::BlackboxInference(x), FunctionModel::BlackboxInference(y)) => {
                Pinned::<Location>::order_flip(x, y);
            },
            _ => {},
        }
    }

    proof fn order_transitive(a: FunctionModel, b: FunctionModel, c: FunctionModel) {
        assert(Self::order(a, b) == function_order(a, b));
        assert(Self::order(b, c) == function_order(b, c));
        assert(Self::order(a, c) == function_order(a, c));
        match (a, b, c) {
            (FunctionModel::Named(x), FunctionModel::Named(y), FunctionModel::Named(z)) => {
                Pinned::<Span>::order_transitive(x, y, z);
            },
            (
                FunctionModel::Anonymous(x),
                FunctionModel::Anonymous(y),
                FunctionModel::Anonymous(z),
            ) => {
                Pinned::<Location>::order_transitive(x, y, z);
            },
            (FunctionModel::BuiltIn(x), FunctionModel::BuiltIn(y), FunctionModel::BuiltIn(z)) => {
                text_order_transitive(x, y, z);
            },
            (
                FunctionModel::BlackboxInference(x),
                FunctionModel::BlackboxInference(y),
                FunctionModel::BlackboxInference(z),
            ) => {
                Pinned::<Location>::order_transitive(x, y, z);
            },
            _ => {},
        }
    }

    fn compare(&self, other: &Self) -> (r: Order) {
        match (self, other) {
            (FunctionRef::Named(x), FunctionRef::Named(y)) => x.compare(y),
            (FunctionRef::Anonymous(x), FunctionRef::Anonymous(y)) => x.compare(y),
            (FunctionRef::BuiltIn(x), FunctionRef::BuiltIn(y)) => compare_text(
                x.as_str(),
                y.as_str(),
            ),
            (FunctionRef::BlackboxInference(x), FunctionRef::BlackboxInference(y)) => x.compare(y),
            _ => compare_usize(self.rank(), other.rank()),
        }
    }

    fn duplicate(&self) -> (r: Self) {
        match self {
            FunctionRef::Named(name) => FunctionRef::Named(name.duplicate()),
            FunctionRef::Anonymous(at) => FunctionRef::Anonymous(at.duplicate()),
            FunctionRef::BuiltIn(name) => FunctionRef::BuiltIn(name.clone()),
            FunctionRef::BlackboxInference(at) => FunctionRef::BlackboxInference(at.duplicate()),
        }
    }
}

} // verus!
