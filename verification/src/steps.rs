//! The steps of a release, from the first look at the branch to the reminder
//! at the end.

use vstd::prelude::*;

use crate::release::{check_artifact, is_yes, Opts, OptsView};
use crate::text::trimmed;

verus! {

/// What is done at a point of a release.
#[derive(Clone, Copy, Debug, PartialEq, Eq, Structural)]
pub enum ReleaseStage {
    /// Look at the branch, the working tree and the remote.
    Preflight,
    /// Find the version, raised where that is asked for.
    Version,
    /// Look whether the tag is there already.
    Tag,
    /// Run the checks and tests.
    Gate,
    /// Build the artifact.
    Artifact,
    /// Ask the artifact for its version.
    Report,
    /// Try the artifact out.
    Smoke,
    /// Show what is to be released.
    Summary,
    /// Ask whether to go on.
    Ask,
    /// Tag and push.
    Publish,
    /// Remind of what is checked by hand.
    Remind,
    /// Nothing is left.
    Done,
}

/// What came of a stage.
#[derive(Debug)]
pub enum ReleaseEvent {
    Passed,
    /// The tag of the version, and whether it is there.
    Tagged { tag: String, found: bool },
    /// What the artifact says, and the version that it is of.
    Reported { got: String, version: String },
    Answered { answer: String },
}

#[verifier::ext_equal]
pub enum EventKind {
    Passed,
    Tagged(Seq<char>, bool),
    Reported(Seq<char>, Seq<char>),
    Answered(Seq<char>),
}

impl View for ReleaseEvent {
    type V = EventKind;

    open spec fn view(&self) -> EventKind {
        match self {
            ReleaseEvent::Passed => EventKind::Passed,
            ReleaseEvent::Tagged { tag, found } => EventKind::Tagged(tag@, *found),
            ReleaseEvent::Reported { got, version } => EventKind::Reported(got@, version@),
            ReleaseEvent::Answered { answer } => EventKind::Answered(answer@),
        }
    }
}

pub open spec fn agrees(answer: Seq<char>) -> bool {
    trimmed(answer) == "y"@ || trimmed(answer) == "Y"@
}

/// The stage after another, or why the release stops. What does not belong to a
/// stage leaves it as it is.
pub open spec fn stage_after(
    stage: ReleaseStage,
    opts: OptsView,
    event: EventKind,
) -> Result<ReleaseStage, Seq<char>> {
    match (stage, event) {
        (ReleaseStage::Preflight, EventKind::Passed) => Ok(ReleaseStage::Version),
        (ReleaseStage::Version, EventKind::Passed) => Ok(ReleaseStage::Tag),
        (ReleaseStage::Tag, EventKind::Tagged(tag, found)) => if found {
            Err("tag "@ + tag + " already exists — bump the version first (--bump patch)"@)
        } else if opts.skip_gate {
            Ok(ReleaseStage::Artifact)
        } else {
            Ok(ReleaseStage::Gate)
        },
        (ReleaseStage::Gate, EventKind::Passed) => Ok(ReleaseStage::Artifact),
        (ReleaseStage::Artifact, EventKind::Passed) => Ok(ReleaseStage::Report),
        (ReleaseStage::Report, EventKind::Reported(got, version)) => if got == "ayame "@
            + version {
            Ok(ReleaseStage::Smoke)
        } else {
            Err("artifact reports '"@ + got + "', expected 'ayame "@ + version + "'"@)
        },
        (ReleaseStage::Smoke, EventKind::Passed) => Ok(ReleaseStage::Summary),
        (ReleaseStage::Summary, EventKind::Passed) => if opts.dry_run {
            Ok(ReleaseStage::Done)
        } else if opts.yes {
            Ok(ReleaseStage::Publish)
        } else {
            Ok(ReleaseStage::Ask)
        },
        (ReleaseStage::Ask, EventKind::Answered(answer)) => if agrees(answer) {
            Ok(ReleaseStage::Publish)
        } else {
            Err("aborted"@)
        },
        (ReleaseStage::Publish, EventKind::Passed) => Ok(ReleaseStage::Remind),
        (ReleaseStage::Remind, EventKind::Passed) => Ok(ReleaseStage::Done),
        _ => Ok(stage),
    }
}

/// Finds the stage after another, or why the release stops.
pub fn release_step(stage: ReleaseStage, opts: &Opts, event: &ReleaseEvent) -> (r: Result<
    ReleaseStage,
    String,
>)
    ensures
        match r {
            Ok(s) => stage_after(stage, opts@, event@) == Ok::<ReleaseStage, Seq<char>>(s),
            Err(e) => stage_after(stage, opts@, event@) == Err::<ReleaseStage, Seq<char>>(e@),
        },
{
    match (stage, event) {
        (ReleaseStage::Preflight, ReleaseEvent::Passed) => Ok(ReleaseStage::Version),
        (ReleaseStage::Version, ReleaseEvent::Passed) => Ok(ReleaseStage::Tag),
        (ReleaseStage::Tag, ReleaseEvent::Tagged { tag, found }) => {
            if *found {
                Err(
                    "tag ".to_owned().concat(tag.as_str()).concat(
                        " already exists — bump the version first (--bump patch)",
                    ),
                )
            } else if opts.skip_gate {
                Ok(ReleaseStage::Artifact)
            } else {
                Ok(ReleaseStage::Gate)
            }
        },
        (ReleaseStage::Gate, ReleaseEvent::Passed) => Ok(ReleaseStage::Artifact),
        (ReleaseStage::Artifact, ReleaseEvent::Passed) => Ok(ReleaseStage::Report),
        (ReleaseStage::Report, ReleaseEvent::Reported { got, version }) => {
            match check_artifact(got.as_str(), version.as_str()) {
                Ok(()) => Ok(ReleaseStage::Smoke),
                Err(e) => Err(e),
            }
        },
        (ReleaseStage::Smoke, ReleaseEvent::Passed) => Ok(ReleaseStage::Summary),
        (ReleaseStage::Summary, ReleaseEvent::Passed) => {
            if opts.dry_run {
                Ok(ReleaseStage::Done)
            } else if opts.yes {
                Ok(ReleaseStage::Publish)
            } else {
                Ok(ReleaseStage::Ask)
            }
        },
        (ReleaseStage::Ask, ReleaseEvent::Answered { answer }) => {
            if is_yes(answer.as_str()) {
                Ok(ReleaseStage::Publish)
            } else {
                Err("aborted".to_owned())
            }
        },
        (ReleaseStage::Publish, ReleaseEvent::Passed) => Ok(ReleaseStage::Remind),
        (ReleaseStage::Remind, ReleaseEvent::Passed) => Ok(ReleaseStage::Done),
        _ => Ok(stage),
    }
}

/// Some event leads from one stage to another.
pub open spec fn follows(opts: OptsView, from: ReleaseStage, to: ReleaseStage) -> bool {
    exists|e: EventKind| #[trigger]
        stage_after(from, opts, e) == Ok::<ReleaseStage, Seq<char>>(to)
}

/// The stages of a release so far: it starts with the first, and each follows
/// from the one before it.
pub open spec fn went_through(opts: OptsView, trace: Seq<ReleaseStage>) -> bool {
    &&& trace.len() > 0
    &&& trace[0] == ReleaseStage::Preflight
    &&& forall|i: int|
        1 <= i < trace.len() ==> follows(opts, trace[i - 1], #[trigger] trace[i])
}

spec fn rank(stage: ReleaseStage) -> int {
    match stage {
        ReleaseStage::Preflight => 0,
        ReleaseStage::Version => 1,
        ReleaseStage::Tag => 2,
        ReleaseStage::Gate => 3,
        ReleaseStage::Artifact => 4,
        ReleaseStage::Report => 5,
        ReleaseStage::Smoke => 6,
        ReleaseStage::Summary => 7,
        ReleaseStage::Ask => 8,
        ReleaseStage::Publish => 9,
        ReleaseStage::Remind => 10,
        ReleaseStage::Done => 11,
    }
}

/// A stage that a release has gone through before it comes to `to`.
spec fn comes_before(opts: OptsView, s: ReleaseStage, to: ReleaseStage) -> bool {
    &&& rank(s) < rank(to)
    &&& s == ReleaseStage::Gate ==> !opts.skip_gate
    &&& s == ReleaseStage::Ask ==> !opts.yes
}

proof fn lemma_went_through(opts: OptsView, trace: Seq<ReleaseStage>, s: ReleaseStage)
    requires
        went_through(opts, trace),
        trace.last() != ReleaseStage::Done,
        comes_before(opts, s, trace.last()),
    ensures
        trace.contains(s),
        rank(trace.last()) >= 8 ==> !opts.dry_run,
    decreases trace.len(),
{
    let n = trace.len() - 1;
    assert(n > 0);
    let head = trace.drop_last();
    let from = trace[n - 1];
    assert(follows(opts, from, trace[n]));
    let e = choose|e: EventKind| #[trigger]
        stage_after(from, opts, e) == Ok::<ReleaseStage, Seq<char>>(trace[n]);
    assert(from == head.last());
    assert(went_through(opts, head)) by {
        assert forall|i: int| 1 <= i < head.len() implies follows(
            opts,
            head[i - 1],
            #[trigger] head[i],
        ) by {
            assert(head[i] == trace[i]);
        }
    }
    if s == from {
        if rank(from) >= 8 {
            lemma_went_through(opts, head, ReleaseStage::Smoke);
        }
    } else {
        assert(comes_before(opts, s, from));
        lemma_went_through(opts, head, s);
        let i = choose|i: int| 0 <= i < head.len() && head[i] == s;
        assert(trace[i] == s);
    }
}

/// Nothing is tagged or pushed in a dry run, nor before the branch was looked
/// at, the tag was found free, the checks were run unless they are skipped, the
/// artifact was built, told its version and was tried out, and someone agreed
/// unless that was said beforehand.
pub proof fn a_release_is_published_last(opts: OptsView, trace: Seq<ReleaseStage>)
    requires
        went_through(opts, trace),
        trace.last() == ReleaseStage::Publish,
    ensures
        !opts.dry_run,
        trace.contains(ReleaseStage::Preflight),
        trace.contains(ReleaseStage::Tag),
        opts.skip_gate || trace.contains(ReleaseStage::Gate),
        trace.contains(ReleaseStage::Artifact),
        trace.contains(ReleaseStage::Report),
        trace.contains(ReleaseStage::Smoke),
        opts.yes || trace.contains(ReleaseStage::Ask),
{
    lemma_went_through(opts, trace, ReleaseStage::Preflight);
    lemma_went_through(opts, trace, ReleaseStage::Tag);
    if !opts.skip_gate {
        lemma_went_through(opts, trace, ReleaseStage::Gate);
    }
    lemma_went_through(opts, trace, ReleaseStage::Artifact);
    lemma_went_through(opts, trace, ReleaseStage::Report);
    lemma_went_through(opts, trace, ReleaseStage::Smoke);
    if !opts.yes {
        lemma_went_through(opts, trace, ReleaseStage::Ask);
    }
}

} // verus!
