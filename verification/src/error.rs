//! The ways in which an operation on a Merkle tree can be refused.
use vstd::prelude::*;

verus! {

/// The failure of a leaf hash or of a path hash.
#[derive(Debug, PartialEq, Eq)]
pub struct HashError {
    pub message: String,
}

impl View for HashError {
    type V = Seq<char>;

    /// What the error says.
    open spec fn view(&self) -> Seq<char> {
        self.message@
    }
}

/// The reason for which an operation on a Merkle tree is refused.
#[derive(Debug, PartialEq, Eq)]
pub enum Error {
    /// The depth of a Merkle tree must be greater than 0.
    ZeroDepth,
    /// The depth of a Merkle tree must be less than or equal to 64.
    DepthTooLarge,
    /// The number of leaves, padded to a power of two, is not a `usize`.
    LeafCountOverflow,
    /// The number of nodes must be less than `2^52`.
    TreeTooLarge,
    /// The leaves need `depth` levels, where the tree has `maximum` levels.
    DepthExceeded { depth: u8, maximum: u8 },
    /// No leaves were asked to be removed.
    NoLeavesToRemove,
    /// `requested` leaves were to be removed, where the tree has `available` leaves.
    NotEnoughLeaves { requested: usize, available: usize },
    /// The leaf index is not that of a leaf of the tree.
    LeafIndexOutOfBounds,
    /// The leaf is not the one that the tree has at this index.
    LeafMismatch,
    /// The number of siblings of a path is not the depth of the tree.
    PathLengthMismatch,
    /// More nodes were to be copied from the left of a tree than it has.
    LeftPrecomputed,
    /// The nodes to be copied from the right of a tree begin before its first node.
    RightPrecomputed,
    /// A hash function failed.
    Hash(HashError),
}

/// The decimal digits of a number.
pub open spec fn decimal(n: nat) -> Seq<char>
    decreases n,
{
    if n < 10 {
        seq![('0' as nat + n) as char]
    } else {
        decimal(n / 10) + decimal(n % 10)
    }
}

/// Returns the decimal digits of a number.
fn to_decimal(n: u64) -> (digits: String)
    ensures
        digits@ == decimal(n as nat),
    decreases n,
{
    if n >= 10 {
        return to_decimal(n / 10).concat(to_decimal(n % 10).as_str());
    }
    let digit: &str = match n {
        0 => "0",
        1 => "1",
        2 => "2",
        3 => "3",
        4 => "4",
        5 => "5",
        6 => "6",
        7 => "7",
        8 => "8",
        _ => "9",
    };
    proof {
        reveal_strlit("0");
        reveal_strlit("1");
        reveal_strlit("2");
        reveal_strlit("3");
        reveal_strlit("4");
        reveal_strlit("5");
        reveal_strlit("6");
        reveal_strlit("7");
        reveal_strlit("8");
        reveal_strlit("9");
        assert(digit@ =~= decimal(n as nat));
    }
    digit.to_owned()
}

impl Error {
    /// What the error says.
    pub open spec fn text(&self) -> Seq<char> {
        match self {
            Error::ZeroDepth => "Merkle tree depth must be greater than 0"@,
            Error::DepthTooLarge => "Merkle tree depth must be less than or equal to 64"@,
            Error::LeafCountOverflow =>
                "Integer overflow when computing the maximum number of leaves in the Merkle tree"@,
            Error::TreeTooLarge => "Tree size must be less than 2^52"@,
            Error::DepthExceeded { depth, maximum } => "Merkle tree cannot exceed depth "@
                + decimal(*maximum as nat) + ": attempted to reach depth "@ + decimal(
                *depth as nat,
            ),
            Error::NoLeavesToRemove => "Cannot remove zero leaves from the Merkle tree"@,
            Error::NotEnoughLeaves { requested, available } => "Failed to remove '"@ + decimal(
                *requested as nat,
            ) + "' leaves from the Merkle tree, as it only contains "@ + decimal(
                *available as nat,
            ),
            Error::LeafIndexOutOfBounds => "The given Merkle leaf index is out of bounds"@,
            Error::LeafMismatch =>
                "The given Merkle leaf does not match the one in the Merkle tree"@,
            Error::PathLengthMismatch => "Incorrect Merkle path length"@,
            Error::LeftPrecomputed =>
                "Failed to process all left precomputed indices in the Merkle tree"@,
            Error::RightPrecomputed =>
                "Failed to process all right precomputed indices in the Merkle tree"@,
            Error::Hash(error) => error@,
        }
    }

    /// Returns what the error says.
    pub fn message(&self) -> (message: String)
        ensures
            message@ == self.text(),
    {
        match self {
            Error::ZeroDepth => "Merkle tree depth must be greater than 0".to_owned(),
            Error::DepthTooLarge =>
                "Merkle tree depth must be less than or equal to 64".to_owned(),
            Error::LeafCountOverflow =>
                "Integer overflow when computing the maximum number of leaves in the Merkle tree".to_owned(),
            Error::TreeTooLarge => "Tree size must be less than 2^52".to_owned(),
            Error::DepthExceeded { depth, maximum } => "Merkle tree cannot exceed depth ".to_owned().concat(
                to_decimal(*maximum as u64).as_str(),
            ).concat(": attempted to reach depth ").concat(to_decimal(*depth as u64).as_str()),
            Error::NoLeavesToRemove =>
                "Cannot remove zero leaves from the Merkle tree".to_owned(),
            Error::NotEnoughLeaves { requested, available } => "Failed to remove '".to_owned().concat(
                to_decimal(*requested as u64).as_str(),
            ).concat("' leaves from the Merkle tree, as it only contains ").concat(
                to_decimal(*available as u64).as_str(),
            ),
            Error::LeafIndexOutOfBounds =>
                "The given Merkle leaf index is out of bounds".to_owned(),
            Error::LeafMismatch =>
                "The given Merkle leaf does not match the one in the Merkle tree".to_owned(),
            Error::PathLengthMismatch => "Incorrect Merkle path length".to_owned(),
            Error::LeftPrecomputed =>
                "Failed to process all left precomputed indices in the Merkle tree".to_owned(),
            Error::RightPrecomputed =>
                "Failed to process all right precomputed indices in the Merkle tree".to_owned(),
            Error::Hash(error) => error.message.clone(),
        }
    }
}

} // verus!
