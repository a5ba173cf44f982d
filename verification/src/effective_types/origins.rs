use vstd::prelude::*;

use crate::dataset_index::IndexedDataset;

verus! {

/// Why an instance has a class directly.
#[derive(Debug)]
pub enum DirectTypeOrigin {
    /// An asserted `rdf:type`.
    Asserted,
    /// The domain of a property the instance is the subject of.
    Domain { via_property_id: u32 },
    /// The range of a property the instance is the object of.
    Range { via_property_id: u32 },
    /// A type of an equal resource.
    SameAs { source_instance_id: u32, source_origin: Box<DirectTypeOrigin> },
}

/// Why an instance has a class.
#[derive(Debug)]
pub enum EffectiveTypeOrigin {
    /// A direct type.
    Direct(DirectTypeOrigin),
    /// A superclass of a direct type.
    Inherited { from_class_id: u32, from_origin: DirectTypeOrigin },
}

/// How direct an origin is: lower is more direct.
pub open spec fn direct_rank(o: DirectTypeOrigin) -> nat
    decreases o,
{
    match o {
        DirectTypeOrigin::Asserted => 0,
        DirectTypeOrigin::SameAs { source_origin, .. } => 1 + direct_rank(*source_origin),
        DirectTypeOrigin::Domain { .. } => 10,
        DirectTypeOrigin::Range { .. } => 20,
    }
}

/// How direct an effective origin is: lower is more direct.
pub open spec fn effective_rank(o: EffectiveTypeOrigin) -> nat {
    match o {
        EffectiveTypeOrigin::Direct(d) => direct_rank(d),
        EffectiveTypeOrigin::Inherited { from_origin, .. } => 10 + direct_rank(from_origin),
    }
}

/// The rank of a direct origin as the code compares it.
pub open spec fn drank(o: DirectTypeOrigin) -> u8 {
    rank_byte(direct_rank(o))
}

/// The rank of an effective origin as the code compares it.
pub open spec fn erank(o: EffectiveTypeOrigin) -> u8 {
    rank_byte(effective_rank(o))
}

/// `n` as a rank byte, saturating at 255.
pub open spec fn rank_byte(n: nat) -> u8 {
    if n > 255 {
        255
    } else {
        n as u8
    }
}

/// The rank of a direct origin, saturating at 255.
pub fn direct_origin_rank(origin: &DirectTypeOrigin) -> (r: u8)
    ensures
        r == rank_byte(direct_rank(*origin)),
    decreases origin,
{
    match origin {
        DirectTypeOrigin::Asserted => 0,
        DirectTypeOrigin::SameAs { source_origin, .. } => {
            let inner = direct_origin_rank(source_origin);
            inner.saturating_add(1)
        },
        DirectTypeOrigin::Domain { .. } => 10,
        DirectTypeOrigin::Range { .. } => 20,
    }
}

/// The rank of an effective origin, saturating at 255.
pub fn effective_origin_rank(origin: &EffectiveTypeOrigin) -> (r: u8)
    ensures
        r == rank_byte(effective_rank(*origin)),
{
    match origin {
        EffectiveTypeOrigin::Direct(direct) => direct_origin_rank(direct),
        EffectiveTypeOrigin::Inherited { from_origin, .. } => {
            let inner = direct_origin_rank(from_origin);
            inner.saturating_add(10)
        },
    }
}

/// A copy of a direct origin.
pub fn copy_direct(origin: &DirectTypeOrigin) -> (r: DirectTypeOrigin)
    ensures
        r == *origin,
    decreases origin,
{
    match origin {
        DirectTypeOrigin::Asserted => DirectTypeOrigin::Asserted,
        DirectTypeOrigin::Domain { via_property_id } => DirectTypeOrigin::Domain { via_property_id: *via_property_id },
        DirectTypeOrigin::Range { via_property_id } => DirectTypeOrigin::Range { via_property_id: *via_property_id },
        DirectTypeOrigin::SameAs { source_instance_id, source_origin } => {
            let inner = copy_direct(source_origin);
            DirectTypeOrigin::SameAs { source_instance_id: *source_instance_id, source_origin: Box::new(inner) }
        },
    }
}

/// A copy of an effective origin.
pub fn copy_effective(origin: &EffectiveTypeOrigin) -> (r: EffectiveTypeOrigin)
    ensures
        r == *origin,
{
    match origin {
        EffectiveTypeOrigin::Direct(direct) => EffectiveTypeOrigin::Direct(copy_direct(direct)),
        EffectiveTypeOrigin::Inherited { from_class_id, from_origin } => EffectiveTypeOrigin::Inherited {
            from_class_id: *from_class_id,
            from_origin: copy_direct(from_origin),
        },
    }
}

/// The text of a direct origin, or `None` when an id in it does not
/// resolve in `terms`.
pub open spec fn direct_text(terms: Seq<Seq<char>>, o: DirectTypeOrigin) -> Option<Seq<char>>
    decreases o,
{
    match o {
        DirectTypeOrigin::Asserted => Some("asserted"@),
        DirectTypeOrigin::Domain { via_property_id } => if via_property_id < terms.len() {
            Some("domain-derived via "@ + terms[via_property_id as int])
        } else {
            None
        },
        DirectTypeOrigin::Range { via_property_id } => if via_property_id < terms.len() {
            Some("range-derived via "@ + terms[via_property_id as int])
        } else {
            None
        },
        DirectTypeOrigin::SameAs { source_instance_id, source_origin } => if source_instance_id
            < terms.len() {
            match direct_text(terms, *source_origin) {
                Some(inner) => Some(
                    "equality-derived via "@ + terms[source_instance_id as int] + " ("@ + inner
                        + ")"@,
                ),
                None => None,
            }
        } else {
            None
        },
    }
}

/// The text of an effective origin, or `None` when an id in it does not
/// resolve in `terms`.
pub open spec fn origin_text(terms: Seq<Seq<char>>, o: EffectiveTypeOrigin) -> Option<Seq<char>> {
    match o {
        EffectiveTypeOrigin::Direct(d) => direct_text(terms, d),
        EffectiveTypeOrigin::Inherited { from_class_id, from_origin } => if from_class_id
            < terms.len() {
            match direct_text(terms, from_origin) {
                Some(inner) => Some(
                    "subclass-derived from "@ + terms[from_class_id as int] + " ("@ + inner + ")"@,
                ),
                None => None,
            }
        } else {
            None
        },
    }
}

/// Describes a direct origin.
fn describe_direct(index: &IndexedDataset, origin: &DirectTypeOrigin) -> (r: Option<String>)
    ensures
        r is Some <==> direct_text(index.terms(), *origin) is Some,
        r matches Some(t) ==> direct_text(index.terms(), *origin) == Some(t@),
    decreases origin,
{
    match origin {
        DirectTypeOrigin::Asserted => Some("asserted".to_owned()),
        DirectTypeOrigin::Domain { via_property_id } => match index.symbols().resolve(*via_property_id) {
            Some(p) => {
                let mut text = "domain-derived via ".to_owned();
                text.append(p);
                Some(text)
            },
            None => None,
        },
        DirectTypeOrigin::Range { via_property_id } => match index.symbols().resolve(*via_property_id) {
            Some(p) => {
                let mut text = "range-derived via ".to_owned();
                text.append(p);
                Some(text)
            },
            None => None,
        },
        DirectTypeOrigin::SameAs { source_instance_id, source_origin } => match index.symbols().resolve(
            *source_instance_id,
        ) {
            Some(source) => match describe_direct(index, source_origin) {
                Some(inner) => {
                    let mut text = "equality-derived via ".to_owned();
                    text.append(source);
                    text.append(" (");
                    text.append(inner.as_str());
                    text.append(")");
                    Some(text)
                },
                None => None,
            },
            None => None,
        },
    }
}

/// Describes an effective origin: how the instance came to have the class.
pub fn describe_origin(index: &IndexedDataset, origin: &EffectiveTypeOrigin) -> (r: Option<String>)
    ensures
        r is Some <==> origin_text(index.terms(), *origin) is Some,
        r matches Some(t) ==> origin_text(index.terms(), *origin) == Some(t@),
{
    match origin {
        EffectiveTypeOrigin::Direct(direct) => describe_direct(index, direct),
        EffectiveTypeOrigin::Inherited { from_class_id, from_origin } => match index.symbols().resolve(
            *from_class_id,
        ) {
            Some(class) => match describe_direct(index, from_origin) {
                Some(inner) => {
                    let mut text = "subclass-derived from ".to_owned();
                    text.append(class);
                    text.append(" (");
                    text.append(inner.as_str());
                    text.append(")");
                    Some(text)
                },
                None => None,
            },
            None => None,
        },
    }
}

} // verus!
