//! Plain-value models of the protocol data that the relay core reads.
use vstd::prelude::*;

verus! {

/// The tenant that an event or a connection belongs to.
///
/// Two scopes are the same when both are `Default`, or both are `Named`
/// with equal names.
#[derive(Clone, Debug, PartialEq, Eq, Hash)]
pub enum Scope {
    Default,
    Named(String),
}

impl View for Scope {
    type V = Option<Seq<char>>;

    open spec fn view(&self) -> Option<Seq<char>> {
        match self {
            Scope::Default => None,
            Scope::Named(name) => Some(name@),
        }
    }
}

impl Scope {
    /// Builds a named scope.
    pub fn named(name: String) -> (r: Scope)
        ensures
            r@ == Some(name@),
    {
        Scope::Named(name)
    }

    /// Whether `self` and `other` denote the same tenant.
    pub fn same_as(&self, other: &Scope) -> (r: bool)
        ensures
            r == (self@ == other@),
    {
        match self {
            Scope::Default => {
                match other {
                    Scope::Default => true,
                    Scope::Named(_) => false,
                }
            },
            Scope::Named(a) => {
                match other {
                    Scope::Default => false,
                    Scope::Named(b) => a.eq(b),
                }
            },
        }
    }

    /// A copy of this scope.
    pub fn duplicate(&self) -> (r: Scope)
        ensures
            r@ == self@,
    {
        match self {
            Scope::Default => Scope::Default,
            Scope::Named(name) => Scope::Named(name.clone()),
        }
    }
}

/// A client-chosen subscription name, unique within one connection.
#[derive(Clone, Debug, PartialEq, Eq, Hash)]
pub struct SubscriptionId {
    pub name: String,
}

impl View for SubscriptionId {
    type V = Seq<char>;

    open spec fn view(&self) -> Seq<char> {
        self.name@
    }
}

impl SubscriptionId {
    pub fn new(name: String) -> (r: SubscriptionId)
        ensures
            r@ == name@,
    {
        SubscriptionId { name }
    }

    pub fn same_as(&self, other: &SubscriptionId) -> (r: bool)
        ensures
            r == (self@ == other@),
    {
        self.name == other.name
    }

    pub fn duplicate(&self) -> (r: SubscriptionId)
        ensures
            r@ == self@,
    {
        SubscriptionId { name: self.name.clone() }
    }
}

/// An event id, in its lowercase hexadecimal form.
#[derive(Clone, Debug, PartialEq, Eq, Hash)]
pub struct EventId {
    pub hex: String,
}

impl View for EventId {
    type V = Seq<char>;

    open spec fn view(&self) -> Seq<char> {
        self.hex@
    }
}

impl EventId {
    pub fn new(hex: String) -> (r: EventId)
        ensures
            r@ == hex@,
    {
        EventId { hex }
    }

    pub fn same_as(&self, other: &EventId) -> (r: bool)
        ensures
            r == (self@ == other@),
    {
        self.hex == other.hex
    }

    pub fn duplicate(&self) -> (r: EventId)
        ensures
            r@ == self@,
    {
        EventId { hex: self.hex.clone() }
    }
}

/// An author's public key, in its lowercase hexadecimal form.
#[derive(Clone, Debug, PartialEq, Eq, Hash)]
pub struct PublicKey {
    pub hex: String,
}

impl View for PublicKey {
    type V = Seq<char>;

    open spec fn view(&self) -> Seq<char> {
        self.hex@
    }
}

impl PublicKey {
    pub fn new(hex: String) -> (r: PublicKey)
        ensures
            r@ == hex@,
    {
        PublicKey { hex }
    }

    pub fn same_as(&self, other: &PublicKey) -> (r: bool)
        ensures
            r == (self@ == other@),
    {
        self.hex == other.hex
    }

    pub fn duplicate(&self) -> (r: PublicKey)
        ensures
            r@ == self@,
    {
        PublicKey { hex: self.hex.clone() }
    }
}

/// An event that has not been signed yet: no id and no signature.
#[derive(Clone, Debug)]
pub struct UnsignedEvent {
    pub pubkey: PublicKey,
    pub created_at: u64,
    pub kind: u16,
    pub tags: Vec<Vec<String>>,
    pub content: String,
}

/// A signed event.
#[derive(Clone, Debug)]
pub struct SignedEvent {
    pub id: EventId,
    pub pubkey: PublicKey,
    pub created_at: u64,
    pub kind: u16,
    pub tags: Vec<Vec<String>>,
    pub content: String,
    pub sig: String,
}

} // verus!
