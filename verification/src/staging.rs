//! Putting a finished file in the place of another, so that at every step a
//! complete copy of the old or the new one is there.

use vstd::prelude::*;
use vstd::string::*;

verus! {

/// What is to be done next.
#[derive(Clone, Copy, Debug, PartialEq, Eq, Structural)]
pub enum ReplaceAction {
    /// Rename the staged file to the target.
    Promote,
    /// Tell whether the target exists.
    CheckTarget,
    /// Remove the file that was set aside, if there is one.
    RemoveAside,
    /// Rename the target to the name aside.
    SetAside,
    /// Tell whether there is a file aside.
    CheckAside,
    /// Rename the file aside to the target.
    Restore,
    /// The staged file is in place.
    Done,
    /// The first rename failed, and there was nothing to set aside.
    FailedFirst,
    /// The first rename failed, and so did the way round.
    FailedFallback,
}

/// Where a replacement stands.
#[derive(Clone, Copy, Debug, PartialEq, Eq, Structural)]
pub enum ReplaceState {
    /// The staged file is being renamed to the target.
    First,
    /// The rename failed: does the target exist?
    AskTarget,
    /// An old file aside is being removed.
    Clearing,
    /// The target is being set aside.
    SettingAside,
    /// The staged file is being renamed again.
    Second,
    /// The rename failed again: is there a file aside?
    AskAside,
    /// The file aside is being renamed back.
    Restoring,
    /// The file aside is no longer needed.
    Dropping,
    Finished,
    LostFirst,
    LostFallback,
}

impl ReplaceState {
    pub open spec fn wanted(self) -> ReplaceAction {
        match self {
            ReplaceState::First => ReplaceAction::Promote,
            ReplaceState::AskTarget => ReplaceAction::CheckTarget,
            ReplaceState::Clearing => ReplaceAction::RemoveAside,
            ReplaceState::SettingAside => ReplaceAction::SetAside,
            ReplaceState::Second => ReplaceAction::Promote,
            ReplaceState::AskAside => ReplaceAction::CheckAside,
            ReplaceState::Restoring => ReplaceAction::Restore,
            ReplaceState::Dropping => ReplaceAction::RemoveAside,
            ReplaceState::Finished => ReplaceAction::Done,
            ReplaceState::LostFirst => ReplaceAction::FailedFirst,
            ReplaceState::LostFallback => ReplaceAction::FailedFallback,
        }
    }

    /// What to do.
    pub fn action(self) -> (a: ReplaceAction)
        ensures
            a == self.wanted(),
    {
        match self {
            ReplaceState::First => ReplaceAction::Promote,
            ReplaceState::AskTarget => ReplaceAction::CheckTarget,
            ReplaceState::Clearing => ReplaceAction::RemoveAside,
            ReplaceState::SettingAside => ReplaceAction::SetAside,
            ReplaceState::Second => ReplaceAction::Promote,
            ReplaceState::AskAside => ReplaceAction::CheckAside,
            ReplaceState::Restoring => ReplaceAction::Restore,
            ReplaceState::Dropping => ReplaceAction::RemoveAside,
            ReplaceState::Finished => ReplaceAction::Done,
            ReplaceState::LostFirst => ReplaceAction::FailedFirst,
            ReplaceState::LostFallback => ReplaceAction::FailedFallback,
        }
    }

    /// Where a replacement stands after what was to be done succeeded or was
    /// the case, or not.
    pub open spec fn after(self, ok: bool) -> ReplaceState {
        match self {
            ReplaceState::First => if ok { ReplaceState::Finished } else { ReplaceState::AskTarget },
            ReplaceState::AskTarget => if ok { ReplaceState::Clearing } else { ReplaceState::LostFirst },
            ReplaceState::Clearing => ReplaceState::SettingAside,
            ReplaceState::SettingAside => if ok {
                ReplaceState::Second
            } else {
                ReplaceState::LostFallback
            },
            ReplaceState::Second => if ok { ReplaceState::Dropping } else { ReplaceState::AskAside },
            ReplaceState::AskAside => if ok {
                ReplaceState::Restoring
            } else {
                ReplaceState::LostFallback
            },
            ReplaceState::Restoring => ReplaceState::LostFallback,
            ReplaceState::Dropping => ReplaceState::Finished,
            _ => self,
        }
    }

    /// Goes on after what was to be done succeeded or was the case, or not.
    pub fn next(self, ok: bool) -> (s: ReplaceState)
        ensures
            s == self.after(ok),
    {
        match self {
            ReplaceState::First => if ok {
                ReplaceState::Finished
            } else {
                ReplaceState::AskTarget
            },
            ReplaceState::AskTarget => if ok {
                ReplaceState::Clearing
            } else {
                ReplaceState::LostFirst
            },
            ReplaceState::Clearing => ReplaceState::SettingAside,
            ReplaceState::SettingAside => if ok {
                ReplaceState::Second
            } else {
                ReplaceState::LostFallback
            },
            ReplaceState::Second => if ok {
                ReplaceState::Dropping
            } else {
                ReplaceState::AskAside
            },
            ReplaceState::AskAside => if ok {
                ReplaceState::Restoring
            } else {
                ReplaceState::LostFallback
            },
            ReplaceState::Restoring => ReplaceState::LostFallback,
            ReplaceState::Dropping => ReplaceState::Finished,
            ReplaceState::Finished => ReplaceState::Finished,
            ReplaceState::LostFirst => ReplaceState::LostFirst,
            ReplaceState::LostFallback => ReplaceState::LostFallback,
        }
    }
}

/// The name under which the file with a name is set aside.
pub fn replacement_aside_name(name: &str) -> (s: String)
    ensures
        s@ == "."@ + name@ + ".ayame-aside"@,
{
    ".".to_owned().concat(name).concat(".ayame-aside")
}

/// The name of a staged file, made of the name of its target, the number of the
/// process and a number that no other has.
pub fn stage_name(name: &str, process: u32, unique: u128) -> (s: String)
    ensures
        s@ == "."@ + name@ + ".ayame-tmp-"@ + crate::text::decimal_text(process as nat) + "-"@
            + crate::text::decimal_text(unique as nat),
{
    ".".to_owned().concat(name).concat(".ayame-tmp-").concat(
        crate::text::decimal(process as u128).as_str(),
    ).concat("-").concat(crate::text::decimal(unique).as_str())
}

// ---- what happens to the files -----------------------------------------------

/// What the three names hold.
#[verifier::ext_equal]
pub struct Files {
    pub stage: Option<Seq<u8>>,
    pub target: Option<Seq<u8>>,
    pub aside: Option<Seq<u8>>,
}

/// What an action does to the files if it succeeds; a rename that fails leaves
/// them as they are. A rename needs a file to rename.
pub open spec fn performed(f: Files, a: ReplaceAction, ok: bool, g: Files) -> bool {
    match a {
        ReplaceAction::Promote => if ok {
            f.stage is Some && g == (Files { stage: None, target: f.stage, aside: f.aside })
        } else {
            g == f
        },
        ReplaceAction::SetAside => if ok {
            f.target is Some && g == (Files { stage: f.stage, target: None, aside: f.target })
        } else {
            g == f
        },
        ReplaceAction::Restore => if ok {
            f.aside is Some && g == (Files { stage: f.stage, target: f.aside, aside: None })
        } else {
            g == f
        },
        ReplaceAction::RemoveAside => if ok {
            g == (Files { stage: f.stage, target: f.target, aside: None })
        } else {
            g == f
        },
        ReplaceAction::CheckTarget => g == f && ok == f.target is Some,
        ReplaceAction::CheckAside => g == f && ok == f.aside is Some,
        _ => g == f,
    }
}

/// Where a replacement stands, and what the files hold then.
pub open spec fn on_the_way(s: ReplaceState, f: Files, before: Files) -> bool {
    match s {
        ReplaceState::First | ReplaceState::AskTarget => f == before,
        ReplaceState::Clearing | ReplaceState::SettingAside => f.stage == before.stage && f.target
            == before.target && before.target is Some,
        ReplaceState::Second | ReplaceState::AskAside | ReplaceState::Restoring => f.stage
            == before.stage && f.target is None && f.aside == before.target && before.target is Some,
        ReplaceState::Dropping => f.target == before.stage,
        ReplaceState::Finished => f.target == before.stage,
        ReplaceState::LostFirst => f == before,
        ReplaceState::LostFallback => f.stage == before.stage && (f.target == before.target || (
        f.target is None && f.aside == before.target)),
    }
}

/// A replacement that begins with a staged file keeps a complete copy of what
/// the target held before, or of what was staged, at every step: at the target,
/// or aside.
pub proof fn a_complete_copy_is_always_there(
    s: ReplaceState,
    f: Files,
    before: Files,
    ok: bool,
    g: Files,
)
    requires
        before.stage is Some,
        on_the_way(s, f, before),
        performed(f, s.wanted(), ok, g),
    ensures
        on_the_way(s.after(ok), g, before),
        before.target is Some ==> g.target == before.target || g.target == before.stage || (
        g.target is None && g.aside == before.target),
{
}

/// If the promotion fails and the file aside can be renamed back, the target
/// holds what it held before, and the staged file is still there.
pub proof fn a_failed_promotion_is_taken_back(f: Files, before: Files, g: Files)
    requires
        on_the_way(ReplaceState::Restoring, f, before),
        performed(f, ReplaceAction::Restore, true, g),
    ensures
        ReplaceState::Restoring.after(true) == ReplaceState::LostFallback,
        g.target == before.target,
        g.stage == before.stage,
        g.aside is None,
{
}

} // verus!
