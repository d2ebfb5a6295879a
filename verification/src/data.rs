//! Output and error types of the parser.

use vstd::prelude::*;

use crate::scalar::Scalar;

verus! {

/// A fatal parse failure.  Every variant carries the byte range of the
/// offending line, exclusive of its terminator.
#[derive(Clone, Copy, Debug, PartialEq, Eq, Structural)]
pub enum ParseError {
    /// A numeric token failed to parse as a decimal literal.
    MalformedNumber(usize, usize),
    /// A line has fewer whitespace-separated fields than its keyword requires.
    MissingToken(usize, usize),
    /// A face corner references an attribute index outside the materialized range.
    IndexOutOfRange(usize, usize),
}

/// Mathematical image of a `ParseError`, with unbounded offsets.
pub enum ErrView {
    MalformedNumber(int, int),
    MissingToken(int, int),
    IndexOutOfRange(int, int),
}

impl View for ParseError {
    type V = ErrView;

    open spec fn view(&self) -> ErrView {
        match *self {
            ParseError::MalformedNumber(s, e) => ErrView::MalformedNumber(s as int, e as int),
            ParseError::MissingToken(s, e) => ErrView::MissingToken(s as int, e as int),
            ParseError::IndexOutOfRange(s, e) => ErrView::IndexOutOfRange(s as int, e as int),
        }
    }
}

/// One drawable group: flat per-corner attribute streams.  Every third
/// entry of `position`/`normal` and every second entry of `texcoord`
/// starts the attributes of one face corner.
#[derive(Clone, Debug, PartialEq)]
pub struct VertexData {
    pub position: Vec<Scalar>,
    pub texcoord: Vec<Scalar>,
    pub normal: Vec<Scalar>,
}

/// Mathematical image of a group.
pub struct GroupView {
    pub position: Seq<Scalar>,
    pub texcoord: Seq<Scalar>,
    pub normal: Seq<Scalar>,
}

pub open spec fn empty_group() -> GroupView {
    GroupView { position: Seq::empty(), texcoord: Seq::empty(), normal: Seq::empty() }
}

/// The concatenation of two groups, field by field.
pub open spec fn merge_groups(a: GroupView, b: GroupView) -> GroupView {
    GroupView {
        position: a.position + b.position,
        texcoord: a.texcoord + b.texcoord,
        normal: a.normal + b.normal,
    }
}

impl View for VertexData {
    type V = GroupView;

    open spec fn view(&self) -> GroupView {
        GroupView { position: self.position@, texcoord: self.texcoord@, normal: self.normal@ }
    }
}

impl DeepView for VertexData {
    type V = GroupView;

    open spec fn deep_view(&self) -> GroupView {
        self@
    }
}

impl VertexData {
    pub fn new() -> (r: VertexData)
        ensures
            r@ == empty_group(),
    {
        VertexData { position: Vec::new(), texcoord: Vec::new(), normal: Vec::new() }
    }

    /// Appends all attributes of `data` to `self`, field by field.
    pub fn extend(&mut self, data: VertexData)
        ensures
            final(self)@ == merge_groups(old(self)@, data@),
    {
        let VertexData { mut position, mut texcoord, mut normal } = data;
        self.position.append(&mut position);
        self.texcoord.append(&mut texcoord);
        self.normal.append(&mut normal);
    }
}

/// One output group: a contiguous run of expanded face corners.
pub type Group = VertexData;

/// The final output: groups in order of first appearance in the document.
pub type Groups = Vec<Group>;

} // verus!
