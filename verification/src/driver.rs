//! The cross-target build driver's decision logic: interpreting what the
//! external build system reported for each requested ABI.
//!
//! The build system itself is an outside collaborator invoked per target
//! triple; this module receives its per-ABI outcomes together with the
//! artifact bytes read back from disk, and decides which artifacts enter
//! the package, which ABIs are dropped, and when the whole invocation
//! must fail instead.

use vstd::prelude::*;
use crate::config::{Abi, AndroidConfig};

verus! {

/// What the external build system reported for one requested ABI.
pub enum AbiOutcome {
    /// The build reported success; `lib` holds the shared library's
    /// bytes, or `None` if the reported artifact could not be read back.
    Success { lib: Option<Vec<u8>> },
    /// The build reported failure.
    Failure,
}

/// One compiled shared library, ready for packaging.
pub struct BuiltArtifact {
    pub abi: Abi,
    pub lib: Vec<u8>,
}

/// Why the build phase failed as a whole.
#[derive(Clone, Copy, PartialEq, Eq, Structural, Debug)]
pub enum BuildError {
    /// An ABI's build failed while atomic mode demanded that every
    /// requested ABI succeed.
    AbiFailed { abi: Abi },
    /// The build reported success but the artifact was missing or
    /// unreadable afterwards: a collaborator contract violation, fatal
    /// in every mode.
    Integrity { abi: Abi },
}

pub open spec fn outcome_ok(o: AbiOutcome) -> bool {
    o matches AbiOutcome::Success { lib: Some(_) }
}

pub open spec fn outcome_failed(o: AbiOutcome) -> bool {
    o is Failure
}

pub open spec fn outcome_integrity(o: AbiOutcome) -> bool {
    o matches AbiOutcome::Success { lib: None }
}

/// The first outcome, in requested order, that is fatal for the whole
/// invocation: an integrity violation in any mode, a plain failure only
/// in atomic mode.
pub open spec fn first_fatal(abis: Seq<Abi>, os: Seq<AbiOutcome>, atomic: bool) -> Option<
    BuildError,
>
    decreases abis.len(),
{
    if abis.len() == 0 || os.len() == 0 {
        None
    } else if outcome_integrity(os[0]) {
        Some(BuildError::Integrity { abi: abis[0] })
    } else if atomic && outcome_failed(os[0]) {
        Some(BuildError::AbiFailed { abi: abis[0] })
    } else {
        first_fatal(abis.skip(1), os.skip(1), atomic)
    }
}

/// The (ABI, library bytes) pairs of the outcomes that succeeded, in
/// requested order.
pub open spec fn artifacts_spec(abis: Seq<Abi>, os: Seq<AbiOutcome>) -> Seq<(Abi, Seq<u8>)>
    decreases abis.len(),
{
    if abis.len() == 0 || os.len() == 0 {
        Seq::empty()
    } else {
        let rest = artifacts_spec(abis.skip(1), os.skip(1));
        match os[0] {
            AbiOutcome::Success { lib: l } => match l {
                Some(b) => seq![(abis[0], b@)] + rest,
                None => rest,
            },
            AbiOutcome::Failure => rest,
        }
    }
}

/// The ABIs whose builds failed, in requested order.
pub open spec fn dropped_spec(abis: Seq<Abi>, os: Seq<AbiOutcome>) -> Seq<Abi>
    decreases abis.len(),
{
    if abis.len() == 0 || os.len() == 0 {
        Seq::empty()
    } else {
        let rest = dropped_spec(abis.skip(1), os.skip(1));
        if outcome_failed(os[0]) {
            seq![abis[0]] + rest
        } else {
            rest
        }
    }
}

/// The (ABI, library bytes) pairs an artifact list carries.
pub open spec fn art_views(a: Seq<BuiltArtifact>) -> Seq<(Abi, Seq<u8>)> {
    Seq::new(a.len(), |i: int| (a[i].abi, a[i].lib@))
}

/// The collected artifacts reflect exactly the outcomes that succeeded:
/// every artifact comes from a succeeded requested ABI, and every
/// succeeded requested ABI yields an artifact, so nothing is over- or
/// under-declared downstream.
pub proof fn lemma_artifacts_exact(abis: Seq<Abi>, os: Seq<AbiOutcome>)
    requires
        abis.len() == os.len(),
    ensures
        forall|j: int|
            0 <= j < artifacts_spec(abis, os).len() ==> exists|i: int|
                0 <= i < abis.len() && #[trigger] artifacts_spec(abis, os)[j].0 == abis[i]
                    && outcome_ok(os[i]),
        forall|i: int|
            0 <= i < abis.len() && outcome_ok(#[trigger] os[i]) ==> exists|j: int|
                0 <= j < artifacts_spec(abis, os).len() && artifacts_spec(abis, os)[j].0
                    == abis[i],
    decreases abis.len(),
{
    if abis.len() > 0 {
        lemma_artifacts_exact(abis.skip(1), os.skip(1));
        let rest = artifacts_spec(abis.skip(1), os.skip(1));
        let whole = artifacts_spec(abis, os);
        assert forall|j: int| 0 <= j < whole.len() implies exists|i: int|
            0 <= i < abis.len() && #[trigger] whole[j].0 == abis[i] && outcome_ok(os[i]) by {
            if outcome_ok(os[0]) && j == 0 {
                assert(whole[0].0 == abis[0] && outcome_ok(os[0]));
            } else {
                let jr = if outcome_ok(os[0]) {
                    j - 1
                } else {
                    j
                };
                assert(whole[j] == rest[jr]);
                let i = choose|i: int|
                    0 <= i < abis.skip(1).len() && rest[jr].0 == abis.skip(1)[i] && outcome_ok(
                        os.skip(1)[i]);
                assert(abis.skip(1)[i] == abis[i + 1]);
                assert(os.skip(1)[i] == os[i + 1]);
            }
        }
        assert forall|i: int| 0 <= i < abis.len() && outcome_ok(#[trigger] os[i]) implies exists|
            j: int,
        | 0 <= j < whole.len() && whole[j].0 == abis[i] by {
            if i == 0 {
                assert(whole[0].0 == abis[0]);
            } else {
                assert(os.skip(1)[i - 1] == os[i]);
                assert(outcome_ok(os.skip(1)[i - 1]));
                let j = choose|j: int|
                    0 <= j < rest.len() && rest[j].0 == abis.skip(1)[i - 1];
                let jw = if outcome_ok(os[0]) {
                    j + 1
                } else {
                    j
                };
                assert(whole[jw] == rest[j]);
                assert(abis.skip(1)[i - 1] == abis[i]);
            }
        }
    }
}

/// Interprets the per-ABI outcomes of the build phase.
///
/// The `i`-th outcome answers for the `i`-th requested ABI. In atomic
/// mode any failed ABI aborts the invocation before packaging; otherwise
/// failed ABIs are dropped and reported alongside the artifacts. An
/// artifact that vanished after a reported success is fatal in every
/// mode. The first fatal outcome, in requested order, names the error.
pub fn collect_artifacts(config: &AndroidConfig, outcomes: Vec<AbiOutcome>, atomic: bool) -> (r:
    Result<(Vec<BuiltArtifact>, Vec<Abi>), BuildError>)
    requires
        config.abis@.len() == outcomes@.len(),
    ensures
        match r {
            Ok(p) => {
                &&& first_fatal(config.abis@, outcomes@, atomic) is None
                &&& art_views(p.0@) == artifacts_spec(config.abis@, outcomes@)
                &&& p.1@ == dropped_spec(config.abis@, outcomes@)
            },
            Err(e) => first_fatal(config.abis@, outcomes@, atomic) == Some(e),
        },
{
    let ghost abis0 = config.abis@;
    let ghost os0 = outcomes@;
    let mut outcomes = outcomes;
    let mut arts: Vec<BuiltArtifact> = Vec::new();
    let mut dropped: Vec<Abi> = Vec::new();
    let mut fatal: Option<BuildError> = None;
    let mut i: usize = outcomes.len();
    proof {
        assert(abis0.skip(i as int).len() == 0);
    }
    while i > 0
        invariant
            i <= abis0.len(),
            abis0.len() == os0.len(),
            abis0 == config.abis@,
            outcomes@ == os0.take(i as int),
            fatal == first_fatal(abis0.skip(i as int), os0.skip(i as int), atomic),
            art_views(arts@) == artifacts_spec(abis0.skip(i as int), os0.skip(i as int)),
            dropped@ == dropped_spec(abis0.skip(i as int), os0.skip(i as int)),
        decreases i,
    {
        i = i - 1;
        let o = outcomes.pop().unwrap();
        proof {
            assert(o == os0[i as int]);
            assert(outcomes@ =~= os0.take(i as int));
            assert(abis0.skip(i as int)[0] == abis0[i as int]);
            assert(os0.skip(i as int)[0] == os0[i as int]);
            assert(abis0.skip(i as int).skip(1) =~= abis0.skip(i + 1));
            assert(os0.skip(i as int).skip(1) =~= os0.skip(i + 1));
        }
        let abi = config.abis[i];
        match o {
            AbiOutcome::Success { lib: Some(lib) } => {
                arts.insert(0, BuiltArtifact { abi, lib });
                proof {
                    assert(art_views(arts@) =~= seq![(abi, os0[i as int]->Success_lib->0@)]
                        + artifacts_spec(abis0.skip(i + 1), os0.skip(i + 1)));
                }
            },
            AbiOutcome::Success { lib: None } => {
                fatal = Some(BuildError::Integrity { abi });
            },
            AbiOutcome::Failure => {
                dropped.insert(0, abi);
                if atomic {
                    fatal = Some(BuildError::AbiFailed { abi });
                }
                proof {
                    assert(dropped@ =~= seq![abi] + dropped_spec(abis0.skip(i + 1), os0.skip(
                        i + 1)));
                }
            },
        }
    }
    proof {
        assert(abis0.skip(0) == abis0);
        assert(os0.skip(0) == os0);
    }
    match fatal {
        Some(e) => Err(e),
        None => Ok((arts, dropped)),
    }
}

} // verus!
