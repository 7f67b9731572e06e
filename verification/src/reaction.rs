use vstd::prelude::*;

verus! {

/// How much of the reaction energy a collision sets free.
#[derive(Clone, Copy, Debug, PartialEq, Eq, Structural)]
pub enum Release {
    /// Neither particle had reacted before: the whole energy.
    Full,
    /// Exactly one of the two had reacted before: half of the energy.
    Half,
}

/// What a pair with the given histories sets free when it collides fast
/// enough to react: nothing where both have reacted before.
pub open spec fn release_for(first_reacted: bool, second_reacted: bool) -> Option<Release> {
    if first_reacted && second_reacted {
        None
    } else if first_reacted || second_reacted {
        Some(Release::Half)
    } else {
        Some(Release::Full)
    }
}

/// Lets a pair react that has collided fast enough: says what the collision
/// sets free and marks both particles as reacted. A pair of which both had
/// reacted sets nothing free and stays as it is.
pub fn react(first_reacted: &mut bool, second_reacted: &mut bool) -> (release: Option<Release>)
    ensures
        release == release_for(*old(first_reacted), *old(second_reacted)),
        release is Some ==> *final(first_reacted) && *final(second_reacted),
        release is None ==> *final(first_reacted) == *old(first_reacted) && *final(second_reacted)
            == *old(second_reacted),
{
    let release = if !*first_reacted && !*second_reacted {
        Some(Release::Full)
    } else if !*first_reacted || !*second_reacted {
        Some(Release::Half)
    } else {
        None
    };
    if release.is_some() {
        *first_reacted = true;
        *second_reacted = true;
    }
    release
}

/// A fresh pair sets the whole energy free, and a pair is spent once it has
/// reacted: a reaction leaves both particles marked, and a pair of marked
/// particles sets nothing free. Nothing else is spent: where one of the two
/// is unmarked, something is set free.
pub proof fn lemma_reaction_happens_once(first_reacted: bool, second_reacted: bool)
    ensures
        release_for(false, false) == Some(Release::Full),
        release_for(true, true) is None,
        release_for(first_reacted, second_reacted) is None <==> first_reacted && second_reacted,
{
}

} // verus!
