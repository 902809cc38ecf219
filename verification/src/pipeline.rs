//! The outbound transform pipeline: send mappers.
//!
//! A send mapper is registered for exactly one message/key type pair. For an
//! outbound publish the pipeline offers the (key, payload) pair to every
//! registered mapper in registration order; a mapper whose type does not
//! match the pair reports [`MapperOutcome::NoMatch`]. The first mapper that
//! matches decides: it either vetoes the publish or replaces the payload, and
//! every mapper registered after it is ignored. If no mapper matches, the
//! payload passes through unchanged.
//!
//! Note the deliberate footgun this preserves: registering two mappers for
//! the same message type silently shadows the second one forever.

use vstd::prelude::*;

verus! {

/// What one registered send mapper decided for an outbound (key, payload)
/// pair.
#[derive(Debug, PartialEq, Eq)]
pub enum MapperOutcome {
    /// The mapper's message type does not match the pair; it abstains.
    NoMatch,
    /// The mapper matched and vetoes the publish.
    Veto,
    /// The mapper matched and replaces the payload.
    Mapped(String),
}

/// The ghost form of an outbound payload decision.
pub open spec fn opt_text(o: Option<String>) -> Option<Seq<char>> {
    match o {
        Option::Some(p) => Option::Some(p@),
        Option::None => Option::None,
    }
}

/// The pipeline's decision for an outbound payload, given the ordered
/// outcomes of all registered mappers: the first outcome that is not
/// `NoMatch` decides; with none, the payload passes through unchanged.
pub open spec fn spec_apply_outbound(outcomes: Seq<MapperOutcome>, payload: Seq<char>) -> Option<
    Seq<char>,
>
    decreases outcomes.len(),
{
    if outcomes.len() == 0 {
        Option::Some(payload)
    } else {
        match outcomes.first() {
            MapperOutcome::NoMatch => spec_apply_outbound(outcomes.drop_first(), payload),
            MapperOutcome::Veto => Option::None,
            MapperOutcome::Mapped(t) => Option::Some(t@),
        }
    }
}

/// Runs the matching mapper, if any: `None` vetoes the publish, `Some`
/// carries the (possibly rewritten) payload to the topic.
pub fn apply_outbound(outcomes: &Vec<MapperOutcome>, payload: String) -> (r: Option<String>)
    ensures
        opt_text(r) == spec_apply_outbound(outcomes@, payload@),
{
    let mut i: usize = 0;
    assert(outcomes@.skip(0) =~= outcomes@);
    while i < outcomes.len()
        invariant
            i <= outcomes@.len(),
            spec_apply_outbound(outcomes@.skip(i as int), payload@) == spec_apply_outbound(
                outcomes@,
                payload@,
            ),
        decreases outcomes@.len() - i,
    {
        assert(outcomes@.skip(i as int).first() == outcomes@[i as int]);
        assert(outcomes@.skip(i as int).drop_first() =~= outcomes@.skip(i + 1));
        match &outcomes[i] {
            MapperOutcome::NoMatch => {
                i = i + 1;
            },
            MapperOutcome::Veto => {
                return Option::None;
            },
            MapperOutcome::Mapped(t) => {
                return Option::Some(t.clone());
            },
        }
    }
    assert(outcomes@.skip(outcomes@.len() as int) =~= Seq::<MapperOutcome>::empty());
    Option::Some(payload)
}

/// Only the first registered mapper that matches a message type ever fires:
/// if every mapper before position `i` abstains and the mapper at `i`
/// matches, the pipeline's decision is exactly that mapper's, whatever the
/// mappers registered after it would have decided.
pub proof fn lemma_first_mapper_wins(outcomes: Seq<MapperOutcome>, i: int, payload: Seq<char>)
    requires
        0 <= i < outcomes.len(),
        forall|j: int| 0 <= j < i ==> outcomes[j] == MapperOutcome::NoMatch,
        !(outcomes[i] is NoMatch),
    ensures
        outcomes[i] is Veto ==> spec_apply_outbound(outcomes, payload) is None,
        outcomes[i] matches MapperOutcome::Mapped(t) ==> spec_apply_outbound(outcomes, payload)
            == Option::Some(t@),
    decreases i,
{
    if i > 0 {
        assert(outcomes.first() == outcomes[0]);
        assert(outcomes.drop_first()[i - 1] == outcomes[i]);
        assert(forall|j: int|
            0 <= j < i - 1 ==> #[trigger] outcomes.drop_first()[j] == outcomes[j + 1]);
        lemma_first_mapper_wins(outcomes.drop_first(), i - 1, payload);
    }
}

/// With no matching mapper registered, the payload passes through unchanged.
pub proof fn lemma_no_mapper_passes_through(outcomes: Seq<MapperOutcome>, payload: Seq<char>)
    requires
        forall|j: int| 0 <= j < outcomes.len() ==> outcomes[j] == MapperOutcome::NoMatch,
    ensures
        spec_apply_outbound(outcomes, payload) == Option::Some(payload),
    decreases outcomes.len(),
{
    if outcomes.len() > 0 {
        assert(outcomes.first() == outcomes[0]);
        assert(forall|j: int|
            0 <= j < outcomes.len() - 1 ==> #[trigger] outcomes.drop_first()[j] == outcomes[j
                + 1]);
        lemma_no_mapper_passes_through(outcomes.drop_first(), payload);
    }
}

} // verus!
