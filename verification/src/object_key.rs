//! Keys that are objects of a host language: the kind of an object packed into its
//! address, and how far two objects can be compared without the host.

use vstd::prelude::*;

verus! {

/// What is known of the type of an object.
#[derive(Clone, Copy, Debug, PartialEq, Eq, Structural)]
pub enum ObjectKind {
    /// Nothing.
    Other,
    /// A string.
    Str,
    /// An integer.
    Int,
}

/// The number of addresses between two objects, at least: the room for a kind.
pub const TAG_SPAN: usize = 4;

impl ObjectKind {
    /// The number of a kind.
    pub open spec fn code(self) -> usize {
        match self {
            ObjectKind::Other => 0,
            ObjectKind::Str => 1,
            ObjectKind::Int => 2,
        }
    }
}

/// Packs a kind into the address of an object, which is a multiple of [`TAG_SPAN`].
#[inline]
pub fn pack_kind(address: usize, kind: ObjectKind) -> (result: usize)
    requires
        address != 0,
        address % TAG_SPAN == 0,
    ensures
        result == address + kind.code(),
        result != 0,
{
    match kind {
        ObjectKind::Other => address,
        ObjectKind::Str => address + 1,
        ObjectKind::Int => address + 2,
    }
}

/// The address in a packed word.
#[inline]
pub fn packed_address(tagged: usize) -> (result: usize)
    ensures
        result == tagged - tagged % TAG_SPAN,
{
    tagged - tagged % TAG_SPAN
}

/// The kind in a packed word.
#[inline]
pub fn packed_kind(tagged: usize) -> (result: ObjectKind)
    requires
        tagged % TAG_SPAN != 3,
    ensures
        result.code() == tagged % TAG_SPAN,
{
    match tagged % TAG_SPAN {
        0 => ObjectKind::Other,
        1 => ObjectKind::Str,
        _ => ObjectKind::Int,
    }
}

/// A packed word gives back its address and its kind.
pub proof fn law_kind_packing_round_trip(address: usize, kind: ObjectKind)
    requires
        address % TAG_SPAN == 0,
    ensures
        (address + kind.code()) % TAG_SPAN as int == kind.code(),
        (address + kind.code()) - (address + kind.code()) % TAG_SPAN as int == address,
{
}

/// Decides whether two objects are equal from their hashes and their identity, if
/// that is enough: objects of unequal hashes are not, and an object equals itself.
#[inline]
pub fn equal_by_hash_or_identity(left_hash: isize, right_hash: isize, same_object: bool) -> (result:
    Option<bool>)
    ensures
        result == if left_hash != right_hash {
            Some(false)
        } else if same_object {
            Some(true)
        } else {
            None
        },
{
    if left_hash != right_hash {
        return Some(false);
    }
    if same_object {
        return Some(true);
    }
    None
}

/// Whether an integer reads as a word and an overflow: the word is the integer where
/// there is no overflow, else the sign of the overflow is that of the integer.
pub open spec fn reads_as(value: int, word: i64, overflow: i32) -> bool {
    if i64::MIN <= value <= i64::MAX {
        overflow == 0 && word == value
    } else if value > i64::MAX {
        overflow == 1
    } else {
        overflow == -1
    }
}

/// Decides whether two integers are equal from what they read as, if that is enough:
/// two that overflow the same way may or may not be.
#[inline]
pub fn equal_integers(
    left: i64,
    left_overflow: i32,
    right: i64,
    right_overflow: i32,
) -> (result: Option<bool>)
    ensures
        result == if left_overflow == 0 && right_overflow == 0 {
            Some(left == right)
        } else if left_overflow != right_overflow {
            Some(false)
        } else {
            None
        },
{
    if left_overflow == 0 && right_overflow == 0 {
        return Some(left == right);
    }
    if left_overflow != right_overflow {
        return Some(false);
    }
    None
}

/// Where integers are decided, it is by their values.
pub proof fn law_decided_integers_are_decided_rightly(
    left: int,
    left_word: i64,
    left_overflow: i32,
    right: int,
    right_word: i64,
    right_overflow: i32,
)
    requires
        reads_as(left, left_word, left_overflow),
        reads_as(right, right_word, right_overflow),
    ensures
        left_overflow == 0 && right_overflow == 0 ==> (left_word == right_word) == (left == right),
        left_overflow != right_overflow ==> left != right,
{
}

} // verus!
