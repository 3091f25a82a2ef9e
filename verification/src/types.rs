use vstd::prelude::*;

verus! {

/// The primitive JVM types that a descriptor or signature can name by a single letter.
#[derive(Debug, Clone, Copy, PartialEq, Eq, Structural, Hash)]
pub enum Type {
    Void,
    Boolean,
    Char,
    Byte,
    Short,
    Int,
    Float,
    Long,
    Double,
}

} // verus!
