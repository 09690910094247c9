use vstd::prelude::*;
use vstd::string::StringExecFns;

use crate::id::Id;

verus! {

/// A place, held inside the place that contains it (`outer`), up to a place with none.
#[derive(Debug)]
pub struct Location {
    pub id: Id,
    pub name: String,
    pub outer: Option<Box<Location>>,
}

/// The name of `l`, then `", "` and the name of every place that contains it, innermost first.
pub open spec fn chain_text(l: Location) -> Seq<char>
    decreases l,
{
    match l.outer {
        None => l.name@,
        Some(o) => l.name@ + ", "@ + chain_text(*o),
    }
}

impl Location {
    /// Renders the chain of places from this one outward, separated by `", "`.
    pub fn to_string(&self) -> (r: String)
        ensures
            r@ == chain_text(*self),
        decreases self,
    {
        let name = self.name.clone();
        match &self.outer {
            None => name,
            Some(o) => {
                let rest = o.to_string();
                proof {
                    reveal_strlit(", ");
                }
                let head = name.concat(", ");
                head.concat(rest.as_str())
            },
        }
    }
}

/// How a [`Contact`] can be reached.
#[derive(Debug)]
pub enum ContactKind {
    Address(Location),
    Email(String),
    Phone(String),
}

/// A labelled way to reach someone.
#[derive(Debug)]
pub struct Contact {
    pub kind: ContactKind,
    pub label: String,
}

/// The text of a contact kind: the chain of an address, or the bare email or phone number.
pub open spec fn kind_text(k: ContactKind) -> Seq<char> {
    match k {
        ContactKind::Address(l) => chain_text(l),
        ContactKind::Email(s) => s@,
        ContactKind::Phone(s) => s@,
    }
}

impl ContactKind {
    /// Renders the address chain, or the email address or phone number as it is.
    pub fn to_string(&self) -> (r: String)
        ensures
            r@ == kind_text(*self),
    {
        match self {
            ContactKind::Address(l) => l.to_string(),
            ContactKind::Email(s) => s.clone(),
            ContactKind::Phone(s) => s.clone(),
        }
    }
}

impl Contact {
    /// Renders `"<label>: <kind>"`.
    pub fn to_string(&self) -> (r: String)
        ensures
            r@ == self.label@ + ": "@ + kind_text(self.kind),
    {
        let kind = self.kind.to_string();
        proof {
            reveal_strlit(": ");
        }
        let head = self.label.clone().concat(": ");
        head.concat(kind.as_str())
    }
}

} // verus!
