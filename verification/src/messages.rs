//! The messages that the error types print: each is stated as a sequence
//! of characters, with numbers written in decimal.

use crate::g_cotransfer_lattice::GCotransferSystemError;
use crate::g_lattice::{GLatticeError, GTransferSystemError};
use crate::lattice::LatticeError;
use crate::morphism::{LatticeMapError, PosetMapError};
use crate::order::PosetError;
use crate::tikz::syntax::{append_chars, chars_of, push_char};
use vstd::prelude::*;

verus! {

/// The decimal digit for `d < 10`.
pub open spec fn digit_char(d: nat) -> char {
    if d == 0 {
        '0'
    } else if d == 1 {
        '1'
    } else if d == 2 {
        '2'
    } else if d == 3 {
        '3'
    } else if d == 4 {
        '4'
    } else if d == 5 {
        '5'
    } else if d == 6 {
        '6'
    } else if d == 7 {
        '7'
    } else if d == 8 {
        '8'
    } else {
        '9'
    }
}

/// The decimal notation of `n`, without leading zeros.
pub open spec fn decimal(n: nat) -> Seq<char>
    decreases n,
{
    if n < 10 {
        seq![digit_char(n)]
    } else {
        decimal(n / 10).push(digit_char(n % 10))
    }
}

fn digit(d: usize) -> (r: char)
    requires
        d < 10,
    ensures
        r == digit_char(d as nat),
{
    if d == 0 {
        '0'
    } else if d == 1 {
        '1'
    } else if d == 2 {
        '2'
    } else if d == 3 {
        '3'
    } else if d == 4 {
        '4'
    } else if d == 5 {
        '5'
    } else if d == 6 {
        '6'
    } else if d == 7 {
        '7'
    } else if d == 8 {
        '8'
    } else {
        '9'
    }
}

/// Appends `n` in decimal.
fn push_decimal(out: &mut String, n: usize)
    ensures
        final(out)@ == old(out)@ + decimal(n as nat),
    decreases n,
{
    let ghost start = out@;
    if n >= 10 {
        push_decimal(out, n / 10);
    }
    push_char(out, digit(n % 10));
    assert(out@ =~= start + decimal(n as nat));
}

/// Appends the characters of `s`.
fn push_text(out: &mut String, s: &str)
    ensures
        final(out)@ == old(out)@ + s@,
{
    let chars = chars_of(s);
    append_chars(out, &chars, 0, chars.len());
    assert(chars@.subrange(0, chars@.len() as int) =~= s@);
}

/// The message of a poset error.
pub open spec fn poset_error_text(e: PosetError) -> Seq<char> {
    match e {
        PosetError::RelationHeight { expected, actual } => "relation has "@ + decimal(actual as nat) + " rows, expected "@
            + decimal(expected as nat),
        PosetError::RelationWidth { row, expected, actual } => "relation row "@ + decimal(row as nat) + " has width "@
            + decimal(actual as nat) + ", expected "@ + decimal(expected as nat),
        PosetError::MissingReflexiveEdge { element } => "relation is missing reflexive edge "@ + decimal(
            element as nat,
        ) + " <= "@ + decimal(element as nat),
        PosetError::NotAntisymmetric { left, right } => "relation contains both "@ + decimal(left as nat) + " <= "@
            + decimal(right as nat) + " and "@ + decimal(right as nat) + " <= "@ + decimal(left as nat),
        PosetError::NotTransitive { lower, middle, upper } => "relation contains "@ + decimal(lower as nat) + " <= "@
            + decimal(middle as nat) + " and "@ + decimal(middle as nat) + " <= "@ + decimal(upper as nat)
            + ", but not "@ + decimal(lower as nat) + " <= "@ + decimal(upper as nat),
        PosetError::EdgeOutOfBounds { edge, len } => "edge "@ + decimal(edge.from as nat) + " <= "@ + decimal(
            edge.to as nat,
        ) + " is out of bounds for a poset with "@ + decimal(len as nat) + " elements"@,
    }
}

/// The message of a lattice error.
pub open spec fn lattice_error_text(e: LatticeError) -> Seq<char> {
    match e {
        LatticeError::Poset(error) => poset_error_text(error),
        LatticeError::Empty => "a finite lattice must be nonempty"@,
        LatticeError::BooleanRankTooLarge { rank } => "cannot encode Boolean lattice of rank "@ + decimal(rank as nat)
            + " as usize bitmasks"@,
        LatticeError::MissingBottom => "poset has no bottom element"@,
        LatticeError::MissingTop => "poset has no top element"@,
        LatticeError::NotALattice { left, right } => "elements "@ + decimal(left as nat) + " and "@ + decimal(
            right as nat,
        ) + " do not have both meet and join"@,
    }
}

/// The message of an error of an order-preserving map.
pub open spec fn poset_map_error_text(e: PosetMapError) -> Seq<char> {
    match e {
        PosetMapError::WrongLength { expected, actual } => "map has length "@ + decimal(actual as nat) + ", expected "@
            + decimal(expected as nat),
        PosetMapError::ImageOutOfBounds { element, image, codomain_len } => "image of "@ + decimal(element as nat)
            + " is "@ + decimal(image as nat) + ", out of bounds for codomain with "@ + decimal(codomain_len as nat)
            + " elements"@,
        PosetMapError::NotMonotone { lower, upper, lower_image, upper_image } => "map is not monotone: "@ + decimal(
            lower as nat,
        ) + " <= "@ + decimal(upper as nat) + ", but "@ + decimal(lower_image as nat) + " is not <= "@ + decimal(
            upper_image as nat,
        ),
    }
}

/// The message of an error of a lattice map.
pub open spec fn lattice_map_error_text(e: LatticeMapError) -> Seq<char> {
    match e {
        LatticeMapError::Poset(error) => poset_map_error_text(error),
        LatticeMapError::DoesNotPreserveMeet { left, right } => "map does not preserve meet of "@ + decimal(left as nat)
            + " and "@ + decimal(right as nat),
        LatticeMapError::DoesNotPreserveJoin { left, right } => "map does not preserve join of "@ + decimal(left as nat)
            + " and "@ + decimal(right as nat),
        LatticeMapError::DoesNotPreserveBottom { expected, actual } => "map sends bottom to "@ + decimal(actual as nat)
            + ", expected "@ + decimal(expected as nat),
        LatticeMapError::DoesNotPreserveTop { expected, actual } => "map sends top to "@ + decimal(actual as nat)
            + ", expected "@ + decimal(expected as nat),
    }
}

/// The message of an error in building a G-lattice.
pub open spec fn g_lattice_error_text(e: GLatticeError) -> Seq<char> {
    match e {
        GLatticeError::Poset(error) => poset_error_text(error),
        GLatticeError::Lattice(error) => lattice_error_text(error),
        GLatticeError::WrongPermutationLength { generator, expected, actual } => "generator image "@ + decimal(
            generator as nat,
        ) + " has length "@ + decimal(actual as nat) + ", expected "@ + decimal(expected as nat),
        GLatticeError::PermutationImageOutOfBounds { generator, element, image, len } => "generator image "@
            + decimal(generator as nat) + " sends element "@ + decimal(element as nat) + " to "@ + decimal(
            image as nat,
        ) + ", out of bounds for "@ + decimal(len as nat) + " elements"@,
        GLatticeError::DuplicatePermutationImage { generator, first_element, second_element, image } =>
            "generator image "@ + decimal(generator as nat) + " sends both "@ + decimal(first_element as nat)
            + " and "@ + decimal(second_element as nat) + " to "@ + decimal(image as nat),
        GLatticeError::NotALatticeAutomorphism { generator, source } => "generator image "@ + decimal(
            generator as nat,
        ) + " is not a lattice automorphism: "@ + lattice_map_error_text(source),
    }
}

/// The message of an error in building a G-transfer system.
pub open spec fn g_transfer_system_error_text(e: GTransferSystemError) -> Seq<char> {
    match e {
        GTransferSystemError::EdgeOutOfBounds { edge, lattice_size } => "generator "@ + decimal(edge.from as nat) + " <= "@
            + decimal(edge.to as nat) + " is out of bounds for a lattice with "@ + decimal(lattice_size as nat)
            + " elements"@,
        GTransferSystemError::NotLatticeRelation { edge } => "generator "@ + decimal(edge.from as nat) + " <= "@ + decimal(
            edge.to as nat,
        ) + " is not a relation in the lattice order"@,
        GTransferSystemError::WrongOrbitCount { expected, actual } => "raw G-transfer system has "@ + decimal(
            actual as nat,
        ) + " relation-orbit bits, expected "@ + decimal(expected as nat),
        GTransferSystemError::RawNotClosed => "raw relation-orbit set is not closed under the G-transfer-system axioms"@,
    }
}

/// The message of an error in building a G-cotransfer system.
pub open spec fn g_cotransfer_system_error_text(e: GCotransferSystemError) -> Seq<char> {
    match e {
        GCotransferSystemError::EdgeOutOfBounds { edge, lattice_size } => "generator "@ + decimal(edge.from as nat)
            + " <= "@ + decimal(edge.to as nat) + " is out of bounds for a lattice with "@ + decimal(lattice_size as nat)
            + " elements"@,
        GCotransferSystemError::NotLatticeRelation { edge } => "generator "@ + decimal(edge.from as nat) + " <= "@
            + decimal(edge.to as nat) + " is not a relation in the lattice order"@,
        GCotransferSystemError::WrongOrbitCount { expected, actual } => "raw G-cotransfer system has "@ + decimal(
            actual as nat,
        ) + " relation-orbit bits, expected "@ + decimal(expected as nat),
        GCotransferSystemError::RawNotClosed => "raw relation-orbit set is not closed under the G-cotransfer-system axioms"@,
        GCotransferSystemError::UniverseMismatch => "the G-transfer and G-cotransfer systems use different ambient universes"@,
    }
}

fn write_g_transfer_system_error(out: &mut String, e: &GTransferSystemError)
    ensures
        final(out)@ == old(out)@ + g_transfer_system_error_text(*e),
{
    let ghost start = out@;
    match e {
        GTransferSystemError::EdgeOutOfBounds { edge, lattice_size } => {
            push_text(out, "generator ");
            push_decimal(out, edge.from);
            push_text(out, " <= ");
            push_decimal(out, edge.to);
            push_text(out, " is out of bounds for a lattice with ");
            push_decimal(out, *lattice_size);
            push_text(out, " elements");
        },
        GTransferSystemError::NotLatticeRelation { edge } => {
            push_text(out, "generator ");
            push_decimal(out, edge.from);
            push_text(out, " <= ");
            push_decimal(out, edge.to);
            push_text(out, " is not a relation in the lattice order");
        },
        GTransferSystemError::WrongOrbitCount { expected, actual } => {
            push_text(out, "raw G-transfer system has ");
            push_decimal(out, *actual);
            push_text(out, " relation-orbit bits, expected ");
            push_decimal(out, *expected);
        },
        GTransferSystemError::RawNotClosed => {
            push_text(out, "raw relation-orbit set is not closed under the G-transfer-system axioms");
        },
    }
    assert(out@ =~= start + g_transfer_system_error_text(*e));
}

fn write_g_cotransfer_system_error(out: &mut String, e: &GCotransferSystemError)
    ensures
        final(out)@ == old(out)@ + g_cotransfer_system_error_text(*e),
{
    let ghost start = out@;
    match e {
        GCotransferSystemError::EdgeOutOfBounds { edge, lattice_size } => {
            push_text(out, "generator ");
            push_decimal(out, edge.from);
            push_text(out, " <= ");
            push_decimal(out, edge.to);
            push_text(out, " is out of bounds for a lattice with ");
            push_decimal(out, *lattice_size);
            push_text(out, " elements");
        },
        GCotransferSystemError::NotLatticeRelation { edge } => {
            push_text(out, "generator ");
            push_decimal(out, edge.from);
            push_text(out, " <= ");
            push_decimal(out, edge.to);
            push_text(out, " is not a relation in the lattice order");
        },
        GCotransferSystemError::WrongOrbitCount { expected, actual } => {
            push_text(out, "raw G-cotransfer system has ");
            push_decimal(out, *actual);
            push_text(out, " relation-orbit bits, expected ");
            push_decimal(out, *expected);
        },
        GCotransferSystemError::RawNotClosed => {
            push_text(out, "raw relation-orbit set is not closed under the G-cotransfer-system axioms");
        },
        GCotransferSystemError::UniverseMismatch => {
            push_text(out, "the G-transfer and G-cotransfer systems use different ambient universes");
        },
    }
    assert(out@ =~= start + g_cotransfer_system_error_text(*e));
}

impl GTransferSystemError {
    /// The message describing the error.
    pub fn message(&self) -> (r: String)
        ensures
            r@ == g_transfer_system_error_text(*self),
    {
        let mut out = String::new();
        write_g_transfer_system_error(&mut out, self);
        assert(out@ =~= g_transfer_system_error_text(*self));
        out
    }
}

impl GCotransferSystemError {
    /// The message describing the error.
    pub fn message(&self) -> (r: String)
        ensures
            r@ == g_cotransfer_system_error_text(*self),
    {
        let mut out = String::new();
        write_g_cotransfer_system_error(&mut out, self);
        assert(out@ =~= g_cotransfer_system_error_text(*self));
        out
    }
}

fn write_poset_error(out: &mut String, e: &PosetError)
    ensures
        final(out)@ == old(out)@ + poset_error_text(*e),
{
    let ghost start = out@;
    match e {
        PosetError::RelationHeight { expected, actual } => {
            push_text(out, "relation has ");
            push_decimal(out, *actual);
            push_text(out, " rows, expected ");
            push_decimal(out, *expected);
        },
        PosetError::RelationWidth { row, expected, actual } => {
            push_text(out, "relation row ");
            push_decimal(out, *row);
            push_text(out, " has width ");
            push_decimal(out, *actual);
            push_text(out, ", expected ");
            push_decimal(out, *expected);
        },
        PosetError::MissingReflexiveEdge { element } => {
            push_text(out, "relation is missing reflexive edge ");
            push_decimal(out, *element);
            push_text(out, " <= ");
            push_decimal(out, *element);
        },
        PosetError::NotAntisymmetric { left, right } => {
            push_text(out, "relation contains both ");
            push_decimal(out, *left);
            push_text(out, " <= ");
            push_decimal(out, *right);
            push_text(out, " and ");
            push_decimal(out, *right);
            push_text(out, " <= ");
            push_decimal(out, *left);
        },
        PosetError::NotTransitive { lower, middle, upper } => {
            push_text(out, "relation contains ");
            push_decimal(out, *lower);
            push_text(out, " <= ");
            push_decimal(out, *middle);
            push_text(out, " and ");
            push_decimal(out, *middle);
            push_text(out, " <= ");
            push_decimal(out, *upper);
            push_text(out, ", but not ");
            push_decimal(out, *lower);
            push_text(out, " <= ");
            push_decimal(out, *upper);
        },
        PosetError::EdgeOutOfBounds { edge, len } => {
            push_text(out, "edge ");
            push_decimal(out, edge.from);
            push_text(out, " <= ");
            push_decimal(out, edge.to);
            push_text(out, " is out of bounds for a poset with ");
            push_decimal(out, *len);
            push_text(out, " elements");
        },
    }
    assert(out@ =~= start + poset_error_text(*e));
}

fn write_lattice_error(out: &mut String, e: &LatticeError)
    ensures
        final(out)@ == old(out)@ + lattice_error_text(*e),
{
    let ghost start = out@;
    match e {
        LatticeError::Poset(error) => write_poset_error(out, error),
        LatticeError::Empty => push_text(out, "a finite lattice must be nonempty"),
        LatticeError::BooleanRankTooLarge { rank } => {
            push_text(out, "cannot encode Boolean lattice of rank ");
            push_decimal(out, *rank);
            push_text(out, " as usize bitmasks");
        },
        LatticeError::MissingBottom => push_text(out, "poset has no bottom element"),
        LatticeError::MissingTop => push_text(out, "poset has no top element"),
        LatticeError::NotALattice { left, right } => {
            push_text(out, "elements ");
            push_decimal(out, *left);
            push_text(out, " and ");
            push_decimal(out, *right);
            push_text(out, " do not have both meet and join");
        },
    }
    assert(out@ =~= start + lattice_error_text(*e));
}

fn write_poset_map_error(out: &mut String, e: &PosetMapError)
    ensures
        final(out)@ == old(out)@ + poset_map_error_text(*e),
{
    let ghost start = out@;
    match e {
        PosetMapError::WrongLength { expected, actual } => {
            push_text(out, "map has length ");
            push_decimal(out, *actual);
            push_text(out, ", expected ");
            push_decimal(out, *expected);
        },
        PosetMapError::ImageOutOfBounds { element, image, codomain_len } => {
            push_text(out, "image of ");
            push_decimal(out, *element);
            push_text(out, " is ");
            push_decimal(out, *image);
            push_text(out, ", out of bounds for codomain with ");
            push_decimal(out, *codomain_len);
            push_text(out, " elements");
        },
        PosetMapError::NotMonotone { lower, upper, lower_image, upper_image } => {
            push_text(out, "map is not monotone: ");
            push_decimal(out, *lower);
            push_text(out, " <= ");
            push_decimal(out, *upper);
            push_text(out, ", but ");
            push_decimal(out, *lower_image);
            push_text(out, " is not <= ");
            push_decimal(out, *upper_image);
        },
    }
    assert(out@ =~= start + poset_map_error_text(*e));
}

fn write_lattice_map_error(out: &mut String, e: &LatticeMapError)
    ensures
        final(out)@ == old(out)@ + lattice_map_error_text(*e),
{
    let ghost start = out@;
    match e {
        LatticeMapError::Poset(error) => write_poset_map_error(out, error),
        LatticeMapError::DoesNotPreserveMeet { left, right } => {
            push_text(out, "map does not preserve meet of ");
            push_decimal(out, *left);
            push_text(out, " and ");
            push_decimal(out, *right);
        },
        LatticeMapError::DoesNotPreserveJoin { left, right } => {
            push_text(out, "map does not preserve join of ");
            push_decimal(out, *left);
            push_text(out, " and ");
            push_decimal(out, *right);
        },
        LatticeMapError::DoesNotPreserveBottom { expected, actual } => {
            push_text(out, "map sends bottom to ");
            push_decimal(out, *actual);
            push_text(out, ", expected ");
            push_decimal(out, *expected);
        },
        LatticeMapError::DoesNotPreserveTop { expected, actual } => {
            push_text(out, "map sends top to ");
            push_decimal(out, *actual);
            push_text(out, ", expected ");
            push_decimal(out, *expected);
        },
    }
    assert(out@ =~= start + lattice_map_error_text(*e));
}

fn write_g_lattice_error(out: &mut String, e: &GLatticeError)
    ensures
        final(out)@ == old(out)@ + g_lattice_error_text(*e),
{
    let ghost start = out@;
    match e {
        GLatticeError::Poset(error) => write_poset_error(out, error),
        GLatticeError::Lattice(error) => write_lattice_error(out, error),
        GLatticeError::WrongPermutationLength { generator, expected, actual } => {
            push_text(out, "generator image ");
            push_decimal(out, *generator);
            push_text(out, " has length ");
            push_decimal(out, *actual);
            push_text(out, ", expected ");
            push_decimal(out, *expected);
        },
        GLatticeError::PermutationImageOutOfBounds { generator, element, image, len } => {
            push_text(out, "generator image ");
            push_decimal(out, *generator);
            push_text(out, " sends element ");
            push_decimal(out, *element);
            push_text(out, " to ");
            push_decimal(out, *image);
            push_text(out, ", out of bounds for ");
            push_decimal(out, *len);
            push_text(out, " elements");
        },
        GLatticeError::DuplicatePermutationImage { generator, first_element, second_element, image } => {
            push_text(out, "generator image ");
            push_decimal(out, *generator);
            push_text(out, " sends both ");
            push_decimal(out, *first_element);
            push_text(out, " and ");
            push_decimal(out, *second_element);
            push_text(out, " to ");
            push_decimal(out, *image);
        },
        GLatticeError::NotALatticeAutomorphism { generator, source } => {
            push_text(out, "generator image ");
            push_decimal(out, *generator);
            push_text(out, " is not a lattice automorphism: ");
            write_lattice_map_error(out, source);
        },
    }
    assert(out@ =~= start + g_lattice_error_text(*e));
}

impl PosetError {
    /// The message describing the error.
    pub fn message(&self) -> (r: String)
        ensures
            r@ == poset_error_text(*self),
    {
        let mut out = String::new();
        write_poset_error(&mut out, self);
        assert(out@ =~= poset_error_text(*self));
        out
    }
}

impl LatticeError {
    /// The message describing the error.
    pub fn message(&self) -> (r: String)
        ensures
            r@ == lattice_error_text(*self),
    {
        let mut out = String::new();
        write_lattice_error(&mut out, self);
        assert(out@ =~= lattice_error_text(*self));
        out
    }
}

impl PosetMapError {
    /// The message describing the error.
    pub fn message(&self) -> (r: String)
        ensures
            r@ == poset_map_error_text(*self),
    {
        let mut out = String::new();
        write_poset_map_error(&mut out, self);
        assert(out@ =~= poset_map_error_text(*self));
        out
    }
}

impl LatticeMapError {
    /// The message describing the error.
    pub fn message(&self) -> (r: String)
        ensures
            r@ == lattice_map_error_text(*self),
    {
        let mut out = String::new();
        write_lattice_map_error(&mut out, self);
        assert(out@ =~= lattice_map_error_text(*self));
        out
    }
}

impl GLatticeError {
    /// The message describing the error.
    pub fn message(&self) -> (r: String)
        ensures
            r@ == g_lattice_error_text(*self),
    {
        let mut out = String::new();
        write_g_lattice_error(&mut out, self);
        assert(out@ =~= g_lattice_error_text(*self));
        out
    }
}

} // verus!
