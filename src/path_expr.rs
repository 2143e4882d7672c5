use vstd::prelude::*;

verus! {

/// Summary flags of a path expression, set by whoever builds it.
pub type PathExpressionFlag = u8;

/// The expression holds a single-level wildcard.
pub const PATH_EXPRESSION_CONTAINS_ASTERISK: PathExpressionFlag = 0x01;

/// The expression holds a recursive-descent leg.
pub const PATH_EXPRESSION_CONTAINS_DOUBLE_ASTERISK: PathExpressionFlag = 0x02;

/// The key that matches every key of an object.
pub const PATH_EXPR_ASTERISK: &'static str = "*";

/// The index that matches every element of an array.
pub const PATH_EXPR_ARRAY_INDEX_ASTERISK: i32 = -1;

/// One step of a path.
#[derive(Debug, PartialEq)]
pub enum PathLeg {
    /// An object key, or `*` for every key.
    Key(String),
    /// An array index, or `-1` for every element.
    Index(i32),
    /// The current value and every value below it.
    DoubleAsterisk,
}

/// An ordered list of legs, with informational flags.
#[derive(Debug, PartialEq)]
pub struct PathExpression {
    pub legs: Vec<PathLeg>,
    pub flags: PathExpressionFlag,
}

/// Whether a key leg is the wildcard.
pub open spec fn is_key_wildcard(key: Seq<char>) -> bool {
    key == seq!['*']
}

/// Whether `key` is the wildcard `*`.
pub fn key_is_wildcard(key: &str) -> (r: bool)
    ensures
        r == is_key_wildcard(key@),
{
    let n = key.unicode_len();
    if n != 1 {
        return false;
    }
    let c = key.get_char(0);
    if c == '*' {
        assert(key@ =~= seq!['*']);
        true
    } else {
        false
    }
}

} // verus!
