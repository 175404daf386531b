use vstd::prelude::*;

verus! {

/// Why a family could not be resolved.
#[derive(Clone, Copy, Debug, PartialEq, Eq, Structural)]
pub enum ResolveError {
    /// No installed font matches the family.
    NotFound,
    /// The font source, or a matched font file, could not be read or was malformed.
    Unavailable,
    /// The matched font is a variable font, which unchanged font-file bytes cannot represent.
    UnsupportedFont,
}

/// Why the system font source could not select a font for a family.
#[derive(Clone, Copy, Debug, PartialEq, Eq, Structural)]
pub enum SelectionFailure {
    /// No font matching the query was found.
    NotFound,
    /// The source was inaccessible because of an I/O or similar error.
    CannotAccessSource,
}

/// The error that a failed selection stands for.
pub open spec fn spec_classify_selection_error(failure: SelectionFailure) -> ResolveError {
    match failure {
        SelectionFailure::NotFound => ResolveError::NotFound,
        SelectionFailure::CannotAccessSource => ResolveError::Unavailable,
    }
}

/// A missed selection is `NotFound`; an inaccessible font source is `Unavailable`.
pub fn classify_selection_error(error: SelectionFailure) -> (r: ResolveError)
    ensures
        r == spec_classify_selection_error(error),
{
    match error {
        SelectionFailure::NotFound => ResolveError::NotFound,
        SelectionFailure::CannotAccessSource => ResolveError::Unavailable,
    }
}

/// What became of one candidate family while resolving a request.
#[derive(Clone, Copy, Debug, PartialEq, Eq, Structural)]
pub enum Attempt {
    /// The font source selected no font for the family.
    SelectionFailed(SelectionFailure),
    /// The selected font could not be loaded.
    LoadFailed,
    /// The selected font's bytes could not be turned into a standalone face.
    DataFailed(ResolveError),
    /// The selected font was loaded and its standalone face obtained.
    Resolved,
}

/// What to do after a candidate family.
#[derive(Clone, Copy, Debug, PartialEq, Eq, Structural)]
pub enum Decision {
    /// Go on with the next candidate family.
    TryNext,
    /// Answer with the font just obtained.
    Accept,
    /// Stop and answer with this error.
    Fail(ResolveError),
}

/// What the candidates tried so far have shown.
#[derive(Clone, Copy, Debug, PartialEq, Eq, Structural)]
pub struct ResolveState {
    /// A selected font could not be loaded or read.
    pub found_unavailable_font: bool,
    /// A selected font was a variable font.
    pub found_unsupported_font: bool,
}

/// The state and decision after `attempt`, from `state`.
pub open spec fn spec_record(state: ResolveState, attempt: Attempt) -> (ResolveState, Decision) {
    match attempt {
        Attempt::SelectionFailed(failure) => match spec_classify_selection_error(failure) {
            ResolveError::NotFound => (state, Decision::TryNext),
            error => (state, Decision::Fail(error)),
        },
        Attempt::LoadFailed => (
            ResolveState { found_unavailable_font: true, ..state },
            Decision::TryNext,
        ),
        Attempt::DataFailed(ResolveError::Unavailable) => (
            ResolveState { found_unavailable_font: true, ..state },
            Decision::TryNext,
        ),
        Attempt::DataFailed(ResolveError::UnsupportedFont) => (
            ResolveState { found_unsupported_font: true, ..state },
            Decision::TryNext,
        ),
        Attempt::DataFailed(ResolveError::NotFound) => (state, Decision::TryNext),
        Attempt::Resolved => (state, Decision::Accept),
    }
}

/// The error when every candidate has been tried without success: an unreadable font
/// outweighs a variable one, which outweighs finding nothing.
pub open spec fn spec_exhausted_error(state: ResolveState) -> ResolveError {
    if state.found_unavailable_font {
        ResolveError::Unavailable
    } else if state.found_unsupported_font {
        ResolveError::UnsupportedFont
    } else {
        ResolveError::NotFound
    }
}

impl ResolveState {
    /// The state before any candidate has been tried.
    pub open spec fn initial() -> ResolveState {
        ResolveState { found_unavailable_font: false, found_unsupported_font: false }
    }

    /// The state before any candidate has been tried.
    pub fn new() -> (state: ResolveState)
        ensures
            state == ResolveState::initial(),
    {
        ResolveState { found_unavailable_font: false, found_unsupported_font: false }
    }

    /// Takes note of what became of a candidate and says what to do next.
    pub fn record(&mut self, attempt: Attempt) -> (decision: Decision)
        ensures
            (*final(self), decision) == spec_record(*old(self), attempt),
    {
        match attempt {
            Attempt::SelectionFailed(failure) => match classify_selection_error(failure) {
                ResolveError::NotFound => Decision::TryNext,
                error => Decision::Fail(error),
            },
            Attempt::LoadFailed => {
                self.found_unavailable_font = true;
                Decision::TryNext
            },
            Attempt::DataFailed(ResolveError::Unavailable) => {
                self.found_unavailable_font = true;
                Decision::TryNext
            },
            Attempt::DataFailed(ResolveError::UnsupportedFont) => {
                self.found_unsupported_font = true;
                Decision::TryNext
            },
            Attempt::DataFailed(ResolveError::NotFound) => Decision::TryNext,
            Attempt::Resolved => Decision::Accept,
        }
    }

    /// The error to answer with once every candidate has been tried.
    pub fn exhausted_error(&self) -> (error: ResolveError)
        ensures
            error == spec_exhausted_error(*self),
    {
        if self.found_unavailable_font {
            ResolveError::Unavailable
        } else if self.found_unsupported_font {
            ResolveError::UnsupportedFont
        } else {
            ResolveError::NotFound
        }
    }
}

/// Where a run of the candidates' attempts, from `state`, ends: `Ok(k)` when the `k`-th
/// attempt is accepted, or the error answered.
pub open spec fn spec_resolve_run(state: ResolveState, attempts: Seq<Attempt>) -> Result<
    int,
    ResolveError,
>
    decreases attempts.len(),
{
    if attempts.len() == 0 {
        Err(spec_exhausted_error(state))
    } else {
        let (next, decision) = spec_record(state, attempts[0]);
        match decision {
            Decision::Accept => Ok(0),
            Decision::Fail(error) => Err(error),
            Decision::TryNext => match spec_resolve_run(next, attempts.drop_first()) {
                Ok(k) => Ok(k + 1),
                Err(error) => Err(error),
            },
        }
    }
}

/// Whether an attempt ends a run by itself: a resolved font, or an inaccessible font source.
pub open spec fn ends_run(attempt: Attempt) -> bool {
    attempt == Attempt::Resolved || attempt == Attempt::SelectionFailed(
        SelectionFailure::CannotAccessSource,
    )
}

/// Whether an attempt found a font that could not be loaded or read.
pub open spec fn shows_unavailable(attempt: Attempt) -> bool {
    attempt == Attempt::LoadFailed || attempt == Attempt::DataFailed(ResolveError::Unavailable)
}

/// The first candidate whose font is obtained is the answer, provided no earlier candidate
/// found the font source inaccessible.
pub proof fn lemma_first_resolved_is_accepted(
    state: ResolveState,
    attempts: Seq<Attempt>,
    k: int,
)
    requires
        0 <= k < attempts.len(),
        attempts[k] == Attempt::Resolved,
        forall|j: int| 0 <= j < k ==> !ends_run(#[trigger] attempts[j]),
    ensures
        spec_resolve_run(state, attempts) == Ok::<int, ResolveError>(k),
    decreases k,
{
    if k > 0 {
        let next = spec_record(state, attempts[0]).0;
        let rest = attempts.drop_first();
        assert forall|j: int| 0 <= j < k - 1 implies !ends_run(#[trigger] rest[j]) by {
            assert(rest[j] == attempts[j + 1]);
        }
        lemma_first_resolved_is_accepted(next, rest, k - 1);
    }
}

/// A font source found inaccessible ends the run as `Unavailable`, unless an earlier
/// candidate's font was already obtained.
pub proof fn lemma_inaccessible_source_is_unavailable(
    state: ResolveState,
    attempts: Seq<Attempt>,
    k: int,
)
    requires
        0 <= k < attempts.len(),
        attempts[k] == Attempt::SelectionFailed(SelectionFailure::CannotAccessSource),
        forall|j: int| 0 <= j < k ==> !ends_run(#[trigger] attempts[j]),
    ensures
        spec_resolve_run(state, attempts) == Err::<int, ResolveError>(ResolveError::Unavailable),
    decreases k,
{
    if k > 0 {
        let next = spec_record(state, attempts[0]).0;
        let rest = attempts.drop_first();
        assert forall|j: int| 0 <= j < k - 1 implies !ends_run(#[trigger] rest[j]) by {
            assert(rest[j] == attempts[j + 1]);
        }
        lemma_inaccessible_source_is_unavailable(next, rest, k - 1);
    }
}

/// When no candidate ends the run, the answer is `Unavailable` if a selected font could not be
/// loaded or read (or the run started knowing of one), else `UnsupportedFont` if a selected
/// font was a variable font (or the run started knowing of one), else `NotFound`.
pub proof fn lemma_exhausted_run_error(state: ResolveState, attempts: Seq<Attempt>)
    requires
        forall|j: int| 0 <= j < attempts.len() ==> !ends_run(#[trigger] attempts[j]),
    ensures
        spec_resolve_run(state, attempts) == Err::<int, ResolveError>(
            if state.found_unavailable_font || exists|j: int|
                0 <= j < attempts.len() && shows_unavailable(#[trigger] attempts[j]) {
                ResolveError::Unavailable
            } else if state.found_unsupported_font || exists|j: int|
                0 <= j < attempts.len() && #[trigger] attempts[j] == Attempt::DataFailed(
                    ResolveError::UnsupportedFont,
                ) {
                ResolveError::UnsupportedFont
            } else {
                ResolveError::NotFound
            },
        ),
    decreases attempts.len(),
{
    if attempts.len() > 0 {
        let next = spec_record(state, attempts[0]).0;
        let rest = attempts.drop_first();
        assert forall|j: int| 0 <= j < rest.len() implies !ends_run(#[trigger] rest[j]) by {
            assert(rest[j] == attempts[j + 1]);
            assert(!ends_run(attempts[j + 1]));
        }
        lemma_exhausted_run_error(next, rest);
        assert(!ends_run(attempts[0]));
        if exists|j: int| 0 <= j < rest.len() && shows_unavailable(#[trigger] rest[j]) {
            let j = choose|j: int| 0 <= j < rest.len() && shows_unavailable(#[trigger] rest[j]);
            assert(shows_unavailable(attempts[j + 1]));
        }
        if exists|j: int|
            0 <= j < rest.len() && #[trigger] rest[j] == Attempt::DataFailed(
                ResolveError::UnsupportedFont,
            ) {
            let j = choose|j: int|
                0 <= j < rest.len() && #[trigger] rest[j] == Attempt::DataFailed(
                    ResolveError::UnsupportedFont,
                );
            assert(attempts[j + 1] == Attempt::DataFailed(ResolveError::UnsupportedFont));
        }
        if exists|j: int| 0 <= j < attempts.len() && shows_unavailable(#[trigger] attempts[j]) {
            let j = choose|j: int|
                0 <= j < attempts.len() && shows_unavailable(#[trigger] attempts[j]);
            if j > 0 {
                assert(shows_unavailable(rest[j - 1]));
            }
        }
        if exists|j: int|
            0 <= j < attempts.len() && #[trigger] attempts[j] == Attempt::DataFailed(
                ResolveError::UnsupportedFont,
            ) {
            let j = choose|j: int|
                0 <= j < attempts.len() && #[trigger] attempts[j] == Attempt::DataFailed(
                    ResolveError::UnsupportedFont,
                );
            if j > 0 {
                assert(rest[j - 1] == Attempt::DataFailed(ResolveError::UnsupportedFont));
            }
        }
    }
}

/// A family that the font source misses under every candidate name is `NotFound`.
pub proof fn lemma_all_missed_is_not_found(attempts: Seq<Attempt>)
    requires
        forall|j: int|
            0 <= j < attempts.len() ==> #[trigger] attempts[j] == Attempt::SelectionFailed(
                SelectionFailure::NotFound,
            ),
    ensures
        spec_resolve_run(ResolveState::initial(), attempts) == Err::<int, ResolveError>(
            ResolveError::NotFound,
        ),
{
    assert forall|j: int| 0 <= j < attempts.len() implies !ends_run(#[trigger] attempts[j]) by {
        assert(attempts[j] == Attempt::SelectionFailed(SelectionFailure::NotFound));
    }
    lemma_exhausted_run_error(ResolveState::initial(), attempts);
    if exists|j: int| 0 <= j < attempts.len() && shows_unavailable(#[trigger] attempts[j]) {
        let j = choose|j: int| 0 <= j < attempts.len() && shows_unavailable(#[trigger] attempts[j]);
        assert(attempts[j] == Attempt::SelectionFailed(SelectionFailure::NotFound));
    }
    if exists|j: int|
        0 <= j < attempts.len() && #[trigger] attempts[j] == Attempt::DataFailed(
            ResolveError::UnsupportedFont,
        ) {
        let j = choose|j: int|
            0 <= j < attempts.len() && #[trigger] attempts[j] == Attempt::DataFailed(
                ResolveError::UnsupportedFont,
            );
        assert(attempts[j] == Attempt::SelectionFailed(SelectionFailure::NotFound));
    }
}

} // verus!

