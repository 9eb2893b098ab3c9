//! Static classification of types into fixed-size and variable-size.
//!
//! A type is `Fixed(n)` when every value of it encodes to exactly `n` bytes,
//! and `Variable` when the encoded length depends on the value. The
//! classification is a fact about the type, never about a value: composite
//! rules combine element and field classifications once per type.
use vstd::prelude::*;

verus! {

/// How a type's encoded length behaves across its values.
#[derive(Debug, Clone, Copy, PartialEq, Eq, Structural)]
pub enum Classification {
    /// Every value encodes to exactly this many bytes.
    Fixed(usize),
    /// The encoded length depends on the value.
    Variable,
}

/// Width that one field of this classification occupies in the fixed region
/// of a container: its own size when fixed, the offset width when variable.
pub open spec fn spec_fixed_region_width(c: Classification) -> int {
    match c {
        Classification::Fixed(n) => n as int,
        Classification::Variable => 4,
    }
}

/// Total length of the fixed region of a container with these fields.
pub open spec fn spec_fixed_region_len(schema: Seq<Classification>) -> int
    decreases schema.len(),
{
    if schema.len() == 0 {
        0
    } else {
        spec_fixed_region_width(schema[0]) + spec_fixed_region_len(schema.drop_first())
    }
}

/// True when every field of the schema is fixed-size.
pub open spec fn spec_all_fixed(schema: Seq<Classification>) -> bool {
    forall|i: int| 0 <= i < schema.len() ==> schema[i] is Fixed
}

/// The classification of a container: fixed exactly when every field is
/// fixed, in which case its size is the sum of the field sizes.
pub open spec fn spec_container_classification(schema: Seq<Classification>) -> Classification {
    if spec_all_fixed(schema) {
        Classification::Fixed(spec_fixed_region_len(schema) as usize)
    } else {
        Classification::Variable
    }
}

/// The fixed region of a schema never shrinks as fields are appended.
pub proof fn lemma_fixed_region_len_nonneg(schema: Seq<Classification>)
    ensures
        spec_fixed_region_len(schema) >= 0,
    decreases schema.len(),
{
    if schema.len() > 0 {
        lemma_fixed_region_len_nonneg(schema.drop_first());
    }
}

/// Appending one field adds that field's width to the fixed region.
pub proof fn lemma_fixed_region_len_push(schema: Seq<Classification>, c: Classification)
    ensures
        spec_fixed_region_len(schema.push(c)) == spec_fixed_region_len(schema)
            + spec_fixed_region_width(c),
    decreases schema.len(),
{
    if schema.len() == 0 {
        assert(schema.push(c).drop_first() =~= schema);
    } else {
        assert(schema.push(c).drop_first() =~= schema.drop_first().push(c));
        lemma_fixed_region_len_push(schema.drop_first(), c);
    }
}

/// Classifies a container from the classifications of its fields, in
/// declared order.
pub fn container_classification(fields: &Vec<Classification>) -> (c: Classification)
    requires
        spec_fixed_region_len(fields@) <= usize::MAX,
    ensures
        c == spec_container_classification(fields@),
{
    proof {
        lemma_fixed_region_len_nonneg(fields@);
    }
    let mut sum: usize = 0;
    let mut all_fixed: bool = true;
    let mut i: usize = 0;
    while i < fields.len()
        invariant
            i <= fields@.len(),
            spec_fixed_region_len(fields@) <= usize::MAX,
            all_fixed <==> (forall|j: int| 0 <= j < i ==> fields@[j] is Fixed),
            all_fixed ==> sum == spec_fixed_region_len(fields@.subrange(0, i as int)),
        decreases fields@.len() - i,
    {
        proof {
            assert(fields@.subrange(0, i + 1) =~= fields@.subrange(0, i as int).push(
                fields@[i as int],
            ));
            lemma_fixed_region_len_push(fields@.subrange(0, i as int), fields@[i as int]);
            lemma_fixed_region_prefix_bound(fields@, i + 1);
        }
        match fields[i] {
            Classification::Fixed(n) => {
                if all_fixed {
                    sum = sum + n;
                }
            },
            Classification::Variable => {
                all_fixed = false;
            },
        }
        i = i + 1;
    }
    proof {
        assert(fields@.subrange(0, fields@.len() as int) =~= fields@);
        assert(all_fixed <==> spec_all_fixed(fields@));
    }
    if all_fixed {
        Classification::Fixed(sum)
    } else {
        Classification::Variable
    }
}

/// The fixed region of a prefix never exceeds that of the whole schema.
pub proof fn lemma_fixed_region_prefix_bound(schema: Seq<Classification>, i: int)
    requires
        0 <= i <= schema.len(),
    ensures
        spec_fixed_region_len(schema.subrange(0, i)) <= spec_fixed_region_len(schema),
    decreases schema.len() - i,
{
    if i < schema.len() {
        assert(schema.subrange(0, i + 1) =~= schema.subrange(0, i).push(schema[i]));
        lemma_fixed_region_len_push(schema.subrange(0, i), schema[i]);
        lemma_fixed_region_prefix_bound(schema, i + 1);
        assert(schema.subrange(0, schema.len() as int) =~= schema);
    } else {
        assert(schema.subrange(0, i) =~= schema);
    }
}

/// Classifies a fixed-arity vector from its element classification: a vector
/// of `arity` fixed elements is itself fixed, at `arity` times the element
/// size; a vector of variable elements is variable.
pub fn vector_classification(elem: Classification, arity: usize) -> (c: Classification)
    requires
        elem matches Classification::Fixed(n) ==> n * arity <= usize::MAX,
    ensures
        (elem matches Classification::Fixed(n) ==> c == Classification::Fixed(
            (n * arity) as usize,
        )),
        elem is Variable ==> c == Classification::Variable,
{
    match elem {
        Classification::Fixed(n) => Classification::Fixed(n * arity),
        Classification::Variable => Classification::Variable,
    }
}

/// Classifies a bounded list: always variable, whatever its element type,
/// because the encoded length depends on how many elements are present.
pub fn list_classification(elem: Classification) -> (c: Classification)
    ensures
        c == Classification::Variable,
{
    match elem {
        Classification::Fixed(_) => Classification::Variable,
        Classification::Variable => Classification::Variable,
    }
}

} // verus!
