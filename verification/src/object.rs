//! Graph nodes: one object of the dumped heap, identified by its
//! address. Address 0 is reserved for the synthetic root and never used
//! by a real object.
use vstd::prelude::*;

use crate::stats::Stats;
use crate::text::{dec_of, usize_to_string};
use vstd::string::StringExecFns;

verus! {

/// One heap object: its address, its self size in bytes, its kind
/// label, and an optional precomputed display label.
#[derive(Debug)]
pub struct Object {
    pub address: usize,
    pub bytes: usize,
    pub kind: String,
    pub label: Option<String>,
}

impl Clone for Object {
    /// An exact copy, field by field.
    fn clone(&self) -> (r: Object)
        ensures
            r == *self,
    {
        Object {
            address: self.address,
            bytes: self.bytes,
            kind: self.kind.clone(),
            label: match &self.label {
                Some(l) => Some(l.clone()),
                None => None,
            },
        }
    }
}

/// The text an object is displayed as: its label when it has one,
/// otherwise `"<kind>[<address>]"`.
pub open spec fn display_of(o: Object) -> Seq<char> {
    match o.label {
        Some(l) => l@,
        None => o.kind@ + "["@ + dec_of(o.address as nat) + "]"@,
    }
}

impl Object {
    /// This object's own contribution: one object, its self size.
    pub fn stats(&self) -> (r: Stats)
        ensures
            r.count == 1,
            r.bytes == self.bytes,
    {
        Stats { count: 1, bytes: self.bytes }
    }

    /// The synthetic process root: address 0, no self size.
    pub fn root() -> (r: Object)
        ensures
            r.address == 0,
            r.bytes == 0,
            r.kind@ == "ROOT"@,
            r.label matches Some(l) && l@ == "root"@,
    {
        Object {
            address: 0,
            bytes: 0,
            kind: String::from_str("ROOT"),
            label: Some(String::from_str("root")),
        }
    }

    /// Whether this is the synthetic root; identity is by address alone.
    pub fn is_root(&self) -> (r: bool)
        ensures
            r == (self.address == 0),
    {
        self.address == 0
    }

    /// Renders the display text of this object.
    pub fn display(&self) -> (r: String)
        ensures
            r@ == display_of(*self),
    {
        match &self.label {
            Some(l) => l.clone(),
            None => {
                let mut s = self.kind.clone();
                s.append("[");
                let num = usize_to_string(self.address);
                s.append(num.as_str());
                s.append("]");
                s
            },
        }
    }
}

} // verus!
