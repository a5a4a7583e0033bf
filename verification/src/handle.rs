//! Value types of the public surface.
//!
//! [`Handle`] and [`Tag`] wrap the engine's raw ids so that the two cannot be
//! transposed. "No tag" is the absence of a [`Tag`], never the value 0.

use vstd::prelude::*;
use vstd::std_specs::cmp::PartialEqSpec;

use crate::text::{decimal, push_decimal};

verus! {

/// A stable, opaque chunk handle.
#[derive(Debug, Clone, Copy, PartialEq, Eq, Hash, PartialOrd, Ord, Structural)]
pub struct Handle(u64);

impl View for Handle {
    type V = u64;

    closed spec fn view(&self) -> u64 {
        self.0
    }
}

impl Handle {
    /// The handle with raw id `v`.
    pub closed spec fn of(v: u64) -> Handle {
        Handle(v)
    }

    pub broadcast proof fn lemma_of_view(v: u64)
        ensures
            #[trigger] Handle::of(v)@ == v,
    {
    }

    /// The raw id.
    #[must_use]
    pub fn get(self) -> (v: u64)
        ensures
            v == self@,
    {
        self.0
    }

    /// The raw id in decimal.
    pub fn to_string(&self) -> (text: String)
        ensures
            text@ == decimal(self@ as nat),
    {
        let mut out: String = String::new();
        push_decimal(&mut out, self.0);
        assert(out@ =~= decimal(self@ as nat));
        out
    }
}

impl From<u64> for Handle {
    fn from(v: u64) -> (h: Self) {
        Handle(v)
    }
}

impl vstd::std_specs::convert::FromSpecImpl<u64> for Handle {
    open spec fn obeys_from_spec() -> bool {
        true
    }

    open spec fn from_spec(v: u64) -> Self {
        Handle::of(v)
    }
}

impl From<Handle> for u64 {
    fn from(h: Handle) -> (v: Self) {
        h.0
    }
}

impl vstd::std_specs::convert::FromSpecImpl<Handle> for u64 {
    open spec fn obeys_from_spec() -> bool {
        true
    }

    open spec fn from_spec(h: Handle) -> Self {
        h@
    }
}

impl PartialEq<u64> for Handle {
    fn eq(&self, other: &u64) -> (equal: bool) {
        self.0 == *other
    }
}

impl vstd::std_specs::cmp::PartialEqSpecImpl<u64> for Handle {
    open spec fn obeys_eq_spec() -> bool {
        true
    }

    open spec fn eq_spec(&self, other: &u64) -> bool {
        self@ == *other
    }
}

impl PartialEq<Handle> for u64 {
    fn eq(&self, other: &Handle) -> (equal: bool) {
        *self == other.0
    }
}

impl vstd::std_specs::cmp::PartialEqSpecImpl<Handle> for u64 {
    open spec fn obeys_eq_spec() -> bool {
        true
    }

    open spec fn eq_spec(&self, other: &Handle) -> bool {
        *self == other@
    }
}

/// A non-zero chunk tag.
#[derive(Debug, Clone, Copy, PartialEq, Eq, Hash, PartialOrd, Ord, Structural)]
pub struct Tag(u32);

impl View for Tag {
    type V = u32;

    closed spec fn view(&self) -> u32 {
        self.0
    }
}

impl Tag {
    #[verifier::type_invariant]
    spec fn inv(self) -> bool {
        self.0 != 0
    }

    /// The tag with value `v`.
    pub closed spec fn of(v: u32) -> Tag {
        Tag(v)
    }

    pub broadcast proof fn lemma_of_view(v: u32)
        ensures
            #[trigger] Tag::of(v)@ == v,
    {
    }

    /// The tag with value `v`, or `None` if `v` is 0.
    #[must_use]
    pub fn new(v: u32) -> (tag: Option<Tag>)
        ensures
            match tag {
                Some(t) => v != 0 && t == Tag::of(v) && t@ == v,
                None => v == 0,
            },
    {
        if v == 0 {
            None
        } else {
            Some(Tag(v))
        }
    }

    /// The raw tag value, never 0.
    #[must_use]
    pub fn get(self) -> (v: u32)
        ensures
            v == self@,
            v != 0,
    {
        proof {
            use_type_invariant(&self);
        }
        self.0
    }

    /// The raw tag value in decimal.
    pub fn to_string(&self) -> (text: String)
        ensures
            text@ == decimal(self@ as nat),
    {
        let mut out: String = String::new();
        push_decimal(&mut out, self.0 as u64);
        assert(out@ =~= decimal(self@ as nat));
        out
    }
}

/// Error of making a [`Tag`] from 0.
#[derive(Debug, Clone, Copy, PartialEq, Eq, Structural)]
pub struct ZeroTagError;

impl ZeroTagError {
    /// The message of the error.
    pub fn to_string(&self) -> (text: String)
        ensures
            text@ == "tag must be non-zero (0 is the untagged sentinel)"@,
    {
        "tag must be non-zero (0 is the untagged sentinel)".to_owned()
    }
}

impl TryFrom<u32> for Tag {
    type Error = ZeroTagError;

    fn try_from(v: u32) -> (tag: Result<Tag, ZeroTagError>) {
        match Tag::new(v) {
            Some(tag) => Ok(tag),
            None => Err(ZeroTagError),
        }
    }
}

impl vstd::std_specs::convert::TryFromSpecImpl<u32> for Tag {
    open spec fn obeys_try_from_spec() -> bool {
        true
    }

    open spec fn try_from_spec(v: u32) -> Result<Tag, ZeroTagError> {
        if v == 0 {
            Err(ZeroTagError)
        } else {
            Ok(Tag::of(v))
        }
    }
}

impl From<Tag> for u32 {
    fn from(t: Tag) -> (v: Self) {
        t.0
    }
}

impl vstd::std_specs::convert::FromSpecImpl<Tag> for u32 {
    open spec fn obeys_from_spec() -> bool {
        true
    }

    open spec fn from_spec(t: Tag) -> Self {
        t@
    }
}

impl PartialEq<u32> for Tag {
    fn eq(&self, other: &u32) -> (equal: bool) {
        self.0 == *other
    }
}

impl vstd::std_specs::cmp::PartialEqSpecImpl<u32> for Tag {
    open spec fn obeys_eq_spec() -> bool {
        true
    }

    open spec fn eq_spec(&self, other: &u32) -> bool {
        self@ == *other
    }
}

impl PartialEq<Tag> for u32 {
    fn eq(&self, other: &Tag) -> (equal: bool) {
        *self == other.0
    }
}

impl vstd::std_specs::cmp::PartialEqSpecImpl<Tag> for u32 {
    open spec fn obeys_eq_spec() -> bool {
        true
    }

    open spec fn eq_spec(&self, other: &Tag) -> bool {
        *self == other@
    }
}

/// Progress of dropping a tag: the handles deleted in this pass, and whether
/// the tag has no members left.
#[must_use]
#[non_exhaustive]
#[derive(Debug, Clone)]
pub struct TagDropProgress {
    /// Handles deleted in this pass.
    pub deleted: Vec<Handle>,
    /// Whether the tag has no remaining members.
    pub complete: bool,
}

/// A handle is its number: it is made of it, gives it back and equals it, and no other.
pub proof fn law_handles_are_numbers(v: u64, h: Handle)
    ensures
        Handle::of(v)@ == v,
        <Handle as vstd::std_specs::convert::FromSpec<u64>>::from_spec(v)@ == v,
        <u64 as vstd::std_specs::convert::FromSpec<Handle>>::from_spec(h) == h@,
        Handle::of(h@) == h,
{
}

/// A handle equals a number exactly if that is its number.
pub proof fn law_handles_equal_their_numbers(v: u64, h: Handle)
    ensures
        h.eq_spec(&v) <==> h@ == v,
        v.eq_spec(&h) <==> h@ == v,
{
}

/// A tag is its number, which is not 0.
pub proof fn law_tags_are_numbers(v: u32, t: Tag)
    ensures
        Tag::of(v)@ == v,
        <u32 as vstd::std_specs::convert::FromSpec<Tag>>::from_spec(t) == t@,
        Tag::of(t@) == t,
        <Tag as vstd::std_specs::convert::TryFromSpec<u32>>::try_from_spec(v) is Err <==> v == 0,
        <Tag as vstd::std_specs::convert::TryFromSpec<u32>>::try_from_spec(v) matches Ok(tag) ==> tag@ == v,
{
}

/// A tag equals a number exactly if that is its number.
pub proof fn law_tags_equal_their_numbers(v: u32, t: Tag)
    ensures
        t.eq_spec(&v) <==> t@ == v,
        v.eq_spec(&t) <==> t@ == v,
{
}

} // verus!
