//! Formal contexts from formal concept analysis, provided by the `fcars`
//! crate, restricted to what the transfer-system code uses.
//!
//! A context on relation-valued objects and attributes is modelled by its
//! incidence matrix, `context_incidence(c)[a][b]` meaning that object `a`
//! has attribute `b`, and by its number of attributes.

use crate::bits::{matrix_of, Bits};
use crate::edges::Edge;
use crate::transfer_theory::{extent_of, intent_of, is_closed};
use fcars::FormalContext;
use vstd::prelude::*;

verus! {

#[verifier::external_type_specification]
#[verifier::external_body]
#[verifier::reject_recursive_types(A)]
#[verifier::reject_recursive_types(B)]
pub struct ExFormalContext<A, B>(FormalContext<A, B>);

/// The incidence matrix of a context: one row per object, one entry per
/// attribute.
pub uninterp spec fn context_incidence(c: FormalContext<Edge, Edge>) -> Seq<Seq<bool>>;

/// The number of attributes of a context.
pub uninterp spec fn context_attribute_count(c: FormalContext<Edge, Edge>) -> nat;

/// The object labels of a context, in object order.
pub uninterp spec fn context_objects(c: FormalContext<Edge, Edge>) -> Seq<Edge>;

/// The attribute labels of a context, in attribute order.
pub uninterp spec fn context_attributes(c: FormalContext<Edge, Edge>) -> Seq<Edge>;

/// `FormalContext::new(objects, attributes, relation)`: the context whose
/// incidence matrix is `relation`, one row per object, and which keeps the
/// object and attribute labels as they are given.
#[verifier::external_body]
pub(crate) fn formal_context_new(objects: Vec<Edge>, attributes: Vec<Edge>, relation: Vec<Bits>) -> (r:
    FormalContext<Edge, Edge>)
    requires
        relation@.len() == objects@.len(),
        forall|i: int| 0 <= i < relation@.len() ==> (#[trigger] relation@[i])@.len() == attributes@.len(),
    ensures
        context_incidence(r) == matrix_of(relation@),
        context_attribute_count(r) == attributes@.len(),
        context_objects(r) == objects@,
        context_attributes(r) == attributes@,
{
    FormalContext::new(objects, attributes, relation.into_iter().map(|row| row.inner).collect())
}

/// `FormalContext::induce_r`: the attributes shared by every object of the
/// extent.
#[verifier::external_body]
pub(crate) fn formal_context_induce_r(c: &FormalContext<Edge, Edge>, extent: &Bits) -> (r: Bits)
    requires
        extent@.len() == context_incidence(*c).len(),
    ensures
        r@ == intent_of(context_incidence(*c), context_attribute_count(*c), extent@),
{
    Bits { inner: c.induce_r(&extent.inner) }
}

/// `FormalContext::induce_l`: the objects that have every attribute of the
/// intent.
#[verifier::external_body]
pub(crate) fn formal_context_induce_l(c: &FormalContext<Edge, Edge>, intent: &Bits) -> (r: Bits)
    requires
        intent@.len() == context_attribute_count(*c),
    ensures
        r@ == extent_of(context_incidence(*c), intent@),
{
    Bits { inner: c.induce_l(&intent.inner) }
}

/// `FormalContext::all_concepts_raw`, keeping the extents: every formal
/// concept of the context once, in an order the crate leaves open.  The
/// extents are the object sets equal to the extent of their intent.
#[verifier::external_body]
pub(crate) fn formal_context_concept_extents(c: &FormalContext<Edge, Edge>) -> (r: Vec<Bits>)
    ensures
        forall|i: int|
            0 <= i < r@.len() ==> (#[trigger] r@[i])@.len() == context_incidence(*c).len()
                && is_closed(context_incidence(*c), context_attribute_count(*c), r@[i]@),
        forall|i: int, j: int| 0 <= i < j < r@.len() ==> (#[trigger] r@[i])@ != (#[trigger] r@[j])@,
        forall|s: Seq<bool>|
            s.len() == context_incidence(*c).len() && #[trigger] is_closed(
                context_incidence(*c),
                context_attribute_count(*c),
                s,
            ) ==> exists|i: int| 0 <= i < r@.len() && (#[trigger] r@[i])@ == s,
{
    c.all_concepts_raw().into_iter().map(|concept| Bits { inner: concept.extent }).collect()
}

/// `FormalContext::num_concepts`: the number of formal concepts of the
/// context, that is, of object sets equal to the extent of their intent.
#[verifier::external_body]
pub(crate) fn formal_context_concept_count(c: &FormalContext<Edge, Edge>) -> (r: usize)
    ensures
        r == Set::new(
            |s: Seq<bool>| s.len() == context_incidence(*c).len() && is_closed(context_incidence(*c), context_attribute_count(*c), s),
        ).len(),
{
    c.num_concepts()
}

} // verus!
