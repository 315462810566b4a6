//! What the ring stores: values with a string identity that can be copied.
use vstd::prelude::*;

verus! {

/// A value that can be placed on the ring. Its identity string alone fixes its
/// replica positions and decides which entries its removal clears; the ring
/// keeps one copy of it at each position.
pub trait Node: Sized {
    /// The node's identity as characters.
    spec fn identity_view(&self) -> Seq<char>;

    /// The node's identity.
    fn identity(&self) -> (r: String)
        ensures
            r@ == self.identity_view(),
    ;

    /// A copy of the node, with the same identity.
    fn duplicate(&self) -> (r: Self)
        ensures
            r.identity_view() == self.identity_view(),
    ;
}

/// A string is a node whose identity is the string itself.
impl Node for String {
    open spec fn identity_view(&self) -> Seq<char> {
        self@
    }

    fn identity(&self) -> (r: String) {
        self.clone()
    }

    fn duplicate(&self) -> (r: String) {
        self.clone()
    }
}

/// Any cloneable value, paired with the identity under which the ring places it.
#[derive(Clone, Debug)]
pub struct Named<T> {
    pub identity: String,
    pub value: T,
}

impl<T> Named<T> {
    /// Pairs `value` with `identity`.
    pub fn new(identity: String, value: T) -> (r: Named<T>)
        ensures
            r.identity@ == identity@,
            r.value == value,
    {
        Named { identity, value }
    }
}

impl<T: Clone> Node for Named<T> {
    open spec fn identity_view(&self) -> Seq<char> {
        self.identity@
    }

    fn identity(&self) -> (r: String) {
        self.identity.clone()
    }

    fn duplicate(&self) -> (r: Named<T>) {
        Named { identity: self.identity.clone(), value: self.value.clone() }
    }
}

} // verus!
