use vstd::prelude::*;
use vstd::string::StringExecFns;

use crate::text::{decimal, decimal_string};

verus! {

/// One step of a path into an input value: a field name or a list index.
#[derive(Debug, Copy, Clone)]
pub enum PathSegment<'a> {
    Name(&'a str),
    Index(usize),
}

/// A path into an input value, as a chain of steps back to its root.
#[derive(Debug, Copy, Clone)]
pub struct PathNode<'a> {
    pub parent: Option<&'a PathNode<'a>>,
    pub segment: PathSegment<'a>,
}

/// The text of one step.
pub open spec fn segment_text(s: PathSegment) -> Seq<char> {
    match s {
        PathSegment::Name(n) => n@,
        PathSegment::Index(i) => decimal(i as nat),
    }
}

/// The text of a path: its steps from the root, joined by dots.
pub open spec fn path_text(p: PathNode) -> Seq<char>
    decreases p,
{
    match p.parent {
        Some(parent) => path_text(*parent) + seq!['.'] + segment_text(p.segment),
        None => segment_text(p.segment),
    }
}

impl<'a> PathNode<'a> {
    /// The root of a path, named `name`.
    pub fn new(name: &'a str) -> (r: Self)
        ensures
            r.parent.is_none(),
            r.segment == PathSegment::Name(name),
            path_text(r) == name@,
    {
        PathNode { parent: None, segment: PathSegment::Name(name) }
    }

    /// The path to element `idx` of the list at this path.
    pub fn index(&'a self, idx: usize) -> (r: Self)
        ensures
            r.parent == Some(self),
            r.segment == PathSegment::Index(idx),
            path_text(r) == path_text(*self) + seq!['.'] + decimal(idx as nat),
    {
        PathNode { parent: Some(self), segment: PathSegment::Index(idx) }
    }

    /// The path to field `name` of the object at this path.
    pub fn name(&'a self, name: &'a str) -> (r: Self)
        ensures
            r.parent == Some(self),
            r.segment == PathSegment::Name(name),
            path_text(r) == path_text(*self) + seq!['.'] + name@,
    {
        PathNode { parent: Some(self), segment: PathSegment::Name(name) }
    }

    /// The text of this path (see `path_text`).
    pub fn to_path_string(&self) -> (r: String)
        ensures
            r@ == path_text(*self),
        decreases *self,
    {
        let mut s = match self.parent {
            Some(parent) => {
                let mut s = parent.to_path_string();
                proof {
                    reveal_strlit(".");
                }
                s.append(".");
                s
            },
            None => String::new(),
        };
        match self.segment {
            PathSegment::Name(n) => s.append(n),
            PathSegment::Index(i) => {
                let digits = decimal_string(i as u64);
                s.append(digits.as_str());
            },
        }
        proof {
            assert(s@ =~= path_text(*self));
        }
        s
    }
}

} // verus!
