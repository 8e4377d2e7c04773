//! The plan that creates a folder group: a new directory under the user's
//! home that holds one symbolic link per chosen folder.

use vstd::prelude::*;
use crate::text::{copy_string, concat};
use crate::paths::{join_path, spec_join, is_component, is_child_of, normal_components};
use crate::names::{
    default_group_name,
    sanitize_name,
    spec_default_group_name,
    spec_sanitize_name,
    spec_unique_candidate,
    strings_of,
    copy_strings,
    unique_path,
    candidate_name,
    lemma_candidate_is_child,
    lemma_sanitized_name_is_component,
};
use crate::plan::{
    LinkPlan,
    LinkStage,
    LinkState,
    PlanEvent,
    PlanStep,
    StepView,
    failed_at,
    link_folders_into,
    link_next,
    link_pending,
    link_start,
    link_wf,
    lemma_link_next_keeps_wf,
    max_attempt,
    names_exhausted,
    taken_answers,
};
use crate::outside::home_dir;

verus! {

/// Where a folder-group plan stands.
#[derive(Debug, Clone, Copy, PartialEq, Eq, Structural)]
pub enum GroupStage {
    /// The directory that holds all groups is being created.
    MakeBase,
    /// A free path for the group directory is being looked for.
    ProbeGroup,
    /// The group directory is being created.
    MakeGroup,
    /// The folders are being linked into the group directory.
    Linking,
    /// Linking failed; the group directory is being removed.
    Cleanup,
    /// The plan is over.
    Finished,
}

/// The state of a folder-group plan.
pub struct GroupState {
    /// The folders of the group, in order.
    pub folders: Seq<Seq<char>>,
    pub stage: GroupStage,
    /// The directory that holds all groups.
    pub base: Seq<char>,
    /// The cleaned name of the group.
    pub group_name: Seq<char>,
    /// Which candidate path the group directory is being tried at.
    pub attempt: nat,
    /// The group directory, once a free path is found.
    pub group_dir: Seq<char>,
    /// The linking plan, once the group directory exists.
    pub links: Option<LinkState>,
    /// Whether the plan failed, and with which message.
    pub failed: bool,
    pub error: Seq<char>,
}

/// The result of a folder-group plan: the group directory, or the message
/// of the failure.
pub open spec fn group_outcome(s: GroupState) -> Result<Seq<char>, Seq<char>> {
    if s.failed {
        Err(s.error)
    } else {
        Ok(s.group_dir)
    }
}

/// An optional string as an optional character sequence.
pub open spec fn opt_view(o: Option<String>) -> Option<Seq<char>> {
    match o {
        Some(s) => Some(s@),
        None => None,
    }
}

/// The directory that holds all groups, under the home directory.
pub open spec fn group_base(home: Seq<char>) -> Seq<char> {
    spec_join(home, "sidex-groups"@)
}

/// The name of a group: the chosen name, or the default one derived from
/// the folders, cleaned (with the Windows rule when `windows`).
pub open spec fn spec_group_name(
    name: Option<Seq<char>>,
    folders: Seq<Seq<char>>,
    windows: bool,
) -> Seq<char> {
    spec_sanitize_name(
        match name {
            Some(n) => n,
            None => spec_default_group_name(folders),
        },
        windows,
    )
}

/// A plan that has ended with an error before doing anything.
pub open spec fn group_refused(folders: Seq<Seq<char>>, msg: Seq<char>) -> GroupState {
    GroupState {
        folders,
        stage: GroupStage::Finished,
        base: Seq::<char>::empty(),
        group_name: Seq::<char>::empty(),
        attempt: 0,
        group_dir: Seq::<char>::empty(),
        links: None,
        failed: true,
        error: msg,
    }
}

/// A folder-group plan before its first step, given the home directory:
/// refused when no folder is chosen or no home directory is known;
/// otherwise about to create the directory that holds all groups.
pub open spec fn group_start(
    name: Option<Seq<char>>,
    folders: Seq<Seq<char>>,
    home: Option<Seq<char>>,
    windows: bool,
) -> GroupState {
    if folders.len() == 0 {
        group_refused(folders, "no folders selected"@)
    } else {
        match home {
            None => group_refused(folders, "could not resolve home directory"@),
            Some(h) => GroupState {
                folders,
                stage: GroupStage::MakeBase,
                base: group_base(h),
                group_name: spec_group_name(name, folders, windows),
                attempt: 0,
                group_dir: Seq::<char>::empty(),
                links: None,
                failed: false,
                error: Seq::<char>::empty(),
            },
        }
    }
}

/// The path at which the group directory is tried.
pub open spec fn group_candidate(s: GroupState) -> Seq<char> {
    spec_unique_candidate(s.base, s.group_name, s.attempt)
}

/// The plan ends with an error.
pub open spec fn group_fail(s: GroupState, msg: Seq<char>) -> GroupState {
    GroupState { stage: GroupStage::Finished, failed: true, error: msg, ..s }
}

/// What a folder-group plan does with an answer.
pub open spec fn group_next(s: GroupState, e: PlanEvent) -> GroupState {
    match s.stage {
        GroupStage::MakeBase => match e {
            PlanEvent::Done(Err(m)) => group_fail(s, failed_at(s.base, m@)),
            PlanEvent::Done(Ok(_)) => GroupState { stage: GroupStage::ProbeGroup, attempt: 0, ..s },
            _ => s,
        },
        GroupStage::ProbeGroup => match e {
            PlanEvent::Taken(false) => GroupState {
                stage: GroupStage::MakeGroup,
                group_dir: group_candidate(s),
                ..s
            },
            PlanEvent::Taken(true) => if s.attempt >= max_attempt() {
                group_fail(s, names_exhausted(group_candidate(s)))
            } else {
                GroupState { attempt: s.attempt + 1, ..s }
            },
            _ => s,
        },
        GroupStage::MakeGroup => match e {
            PlanEvent::Done(Err(m)) => group_fail(s, failed_at(s.group_dir, m@)),
            PlanEvent::Done(Ok(_)) => GroupState {
                stage: GroupStage::Linking,
                links: Some(link_start(s.group_dir, s.folders, LinkStage::ResolveRoot)),
                ..s
            },
            _ => s,
        },
        GroupStage::Linking => match s.links {
            Some(l) => {
                let l2 = link_next(l, e);
                if l2.stage == LinkStage::Finished {
                    match l2.outcome {
                        Ok(_) => GroupState { stage: GroupStage::Finished, links: Some(l2), ..s },
                        Err(m) => GroupState {
                            stage: GroupStage::Cleanup,
                            links: Some(l2),
                            failed: true,
                            error: m,
                            ..s
                        },
                    }
                } else {
                    GroupState { links: Some(l2), ..s }
                }
            },
            None => s,
        },
        GroupStage::Cleanup => match e {
            PlanEvent::Done(_) => GroupState { stage: GroupStage::Finished, ..s },
            _ => s,
        },
        GroupStage::Finished => s,
    }
}

/// The operation a folder-group plan waits for.
pub open spec fn group_pending(s: GroupState) -> StepView {
    match s.stage {
        GroupStage::MakeBase => StepView::CreateDirAll(s.base),
        GroupStage::ProbeGroup => StepView::Probe(group_candidate(s)),
        GroupStage::MakeGroup => StepView::CreateDir(s.group_dir),
        GroupStage::Linking => match s.links {
            Some(l) => link_pending(l),
            None => StepView::Finish,
        },
        GroupStage::Cleanup => StepView::RemoveDirAll(s.group_dir),
        GroupStage::Finished => StepView::Finish,
    }
}

/// The consistency of a folder-group plan: the group directory is the
/// candidate path that was found free; while linking, the linking plan works
/// on the group's folders inside the group directory and is consistent; a
/// successful plan has linked every folder; a failure is final or being
/// cleaned up.
pub open spec fn group_wf(s: GroupState) -> bool {
    &&& s.attempt <= max_attempt()
    &&& (s.stage == GroupStage::MakeGroup || s.stage == GroupStage::Linking || s.stage
        == GroupStage::Cleanup || (s.stage == GroupStage::Finished && !s.failed)) ==> s.group_dir
        == group_candidate(s)
    &&& (s.stage == GroupStage::Linking || s.stage == GroupStage::Cleanup || (s.stage
        == GroupStage::Finished && !s.failed)) ==> {
        &&& s.links is Some
        &&& link_wf(s.links->0)
        &&& s.links->0.dest_root == s.group_dir
        &&& s.links->0.folders == s.folders
    }
    &&& s.stage == GroupStage::Linking ==> s.links->0.stage != LinkStage::Finished
    &&& (s.stage == GroupStage::Finished && !s.failed) ==> {
        &&& s.links->0.stage == LinkStage::Finished
        &&& s.links->0.outcome is Ok
        &&& s.links->0.created.len() == s.folders.len()
    }
    &&& (s.stage == GroupStage::MakeBase || s.stage == GroupStage::ProbeGroup || s.stage
        == GroupStage::MakeGroup || s.stage == GroupStage::Linking || s.stage == GroupStage::Cleanup
        || (s.stage == GroupStage::Finished && !s.failed)) ==> is_component(s.group_name)
    &&& s.failed ==> (s.stage == GroupStage::Finished || s.stage == GroupStage::Cleanup)
    &&& s.stage == GroupStage::Cleanup ==> s.failed
}

/// A plan for creating a folder group.
pub struct GroupPlan {
    folders: Vec<String>,
    stage: GroupStage,
    base: String,
    group_name: String,
    attempt: u32,
    group_dir: String,
    links: Option<LinkPlan>,
    failed: bool,
    error: String,
}

impl View for GroupPlan {
    type V = GroupState;

    closed spec fn view(&self) -> GroupState {
        GroupState {
            folders: strings_of(self.folders@),
            stage: self.stage,
            base: self.base@,
            group_name: self.group_name@,
            attempt: self.attempt as nat,
            group_dir: self.group_dir@,
            links: match self.links {
                Some(l) => Some(l@),
                None => None,
            },
            failed: self.failed,
            error: self.error@,
        }
    }
}

impl GroupPlan {
    /// The consistency of the plan's own fields.
    pub closed spec fn inv(&self) -> bool {
        &&& group_wf(self@)
        &&& self.links matches Some(l) ==> l.inv()
    }

    fn refused(folders: Vec<String>, msg: String) -> (r: GroupPlan)
        ensures
            r.inv(),
            r@ == group_refused(strings_of(folders@), msg@),
    {
        GroupPlan {
            folders,
            stage: GroupStage::Finished,
            base: String::new(),
            group_name: String::new(),
            attempt: 0,
            group_dir: String::new(),
            links: None,
            failed: true,
            error: msg,
        }
    }

    /// The operation the plan waits for.
    pub fn next_step(&self) -> (r: PlanStep)
        requires
            self.inv(),
        ensures
            r@ == group_pending(self@),
    {
        match self.stage {
            GroupStage::MakeBase => PlanStep::CreateDirAll(copy_string(&self.base)),
            GroupStage::ProbeGroup => PlanStep::Probe(
                unique_path(self.base.as_str(), self.group_name.as_str(), self.attempt),
            ),
            GroupStage::MakeGroup => PlanStep::CreateDir(copy_string(&self.group_dir)),
            GroupStage::Linking => match &self.links {
                Some(l) => l.next_step(),
                None => PlanStep::Finish,
            },
            GroupStage::Cleanup => PlanStep::RemoveDirAll(copy_string(&self.group_dir)),
            GroupStage::Finished => PlanStep::Finish,
        }
    }

    /// The result once the plan is over: the group directory, or the
    /// message of the failure.
    pub fn outcome(&self) -> (r: Option<Result<String, String>>)
        requires
            self.inv(),
        ensures
            match r {
                None => self@.stage != GroupStage::Finished,
                Some(Ok(dir)) => self@.stage == GroupStage::Finished && group_outcome(self@) == Ok::<
                    Seq<char>,
                    Seq<char>,
                >(dir@),
                Some(Err(m)) => self@.stage == GroupStage::Finished && group_outcome(self@) == Err::<
                    Seq<char>,
                    Seq<char>,
                >(m@),
            },
    {
        if self.stage != GroupStage::Finished {
            None
        } else if self.failed {
            Some(Err(copy_string(&self.error)))
        } else {
            Some(Ok(copy_string(&self.group_dir)))
        }
    }

    /// Takes the answer to the pending operation and returns the next one.
    pub fn step(&mut self, event: PlanEvent) -> (r: PlanStep)
        requires
            old(self).inv(),
        ensures
            final(self).inv(),
            final(self)@ == group_next(old(self)@, event),
            r@ == group_pending(final(self)@),
    {
        match self.stage {
            GroupStage::MakeBase => match event {
                PlanEvent::Done(Err(m)) => {
                    let head = concat(self.base.as_str(), ": ");
                    self.error = concat(head.as_str(), m.as_str());
                    self.failed = true;
                    self.stage = GroupStage::Finished;
                },
                PlanEvent::Done(Ok(_)) => {
                    self.attempt = 0;
                    self.stage = GroupStage::ProbeGroup;
                },
                _ => {},
            },
            GroupStage::ProbeGroup => match event {
                PlanEvent::Taken(false) => {
                    self.group_dir = unique_path(
                        self.base.as_str(),
                        self.group_name.as_str(),
                        self.attempt,
                    );
                    self.stage = GroupStage::MakeGroup;
                },
                PlanEvent::Taken(true) => {
                    if self.attempt == u32::MAX {
                        let cand = unique_path(
                            self.base.as_str(),
                            self.group_name.as_str(),
                            self.attempt,
                        );
                        self.error = concat(cand.as_str(), ": no unused name is left");
                        self.failed = true;
                        self.stage = GroupStage::Finished;
                    } else {
                        self.attempt = self.attempt + 1;
                    }
                },
                _ => {},
            },
            GroupStage::MakeGroup => match event {
                PlanEvent::Done(Err(m)) => {
                    let head = concat(self.group_dir.as_str(), ": ");
                    self.error = concat(head.as_str(), m.as_str());
                    self.failed = true;
                    self.stage = GroupStage::Finished;
                },
                PlanEvent::Done(Ok(_)) => {
                    let plan = link_folders_into(
                        copy_string(&self.group_dir),
                        copy_strings(&self.folders),
                    );
                    self.links = Some(plan);
                    self.stage = GroupStage::Linking;
                },
                _ => {},
            },
            GroupStage::Linking => {
                let taken = self.links.take();
                match taken {
                    Some(mut l) => {
                        l.step(event);
                        match l.outcome() {
                            Some(Ok(_)) => {
                                self.stage = GroupStage::Finished;
                            },
                            Some(Err(m)) => {
                                self.error = m;
                                self.failed = true;
                                self.stage = GroupStage::Cleanup;
                            },
                            None => {},
                        }
                        self.links = Some(l);
                        },
                    None => {},
                }
            },
            GroupStage::Cleanup => match event {
                PlanEvent::Done(_) => {
                    self.stage = GroupStage::Finished;
                },
                _ => {},
            },
            GroupStage::Finished => {},
        }
        self.next_step()
    }
}

/// A folder-group plan, given the home directory (see [`group_start`]). Once
/// started, the plan creates the directory `sidex-groups` under the home
/// directory, finds the first free path among `name`, `name-2`, ... in it,
/// creates the group directory there, and links every folder into it (see
/// [`crate::plan::link_folders_into`]). If linking fails, the group directory
/// is removed and the plan ends with the linking error; otherwise it ends
/// with the group directory.
pub fn create_folder_group_in(
    name: Option<String>,
    folders: Vec<String>,
    home: Option<String>,
    windows: bool,
) -> (r: GroupPlan)
    ensures
        r.inv(),
        r@ == group_start(opt_view(name), strings_of(folders@), opt_view(home), windows),
{
    if folders.len() == 0 {
        return GroupPlan::refused(folders, String::from_str("no folders selected"));
    }
    match home {
        None => GroupPlan::refused(folders, String::from_str("could not resolve home directory")),
        Some(h) => {
            let base = join_path(h.as_str(), "sidex-groups");
            let raw = match name {
                Some(n) => n,
                None => default_group_name(&folders),
            };
            let group_name = sanitize_name(raw.as_str(), windows);
            proof {
                lemma_sanitized_name_is_component(raw@, windows);
            }
            GroupPlan {
                folders,
                stage: GroupStage::MakeBase,
                base,
                group_name,
                attempt: 0,
                group_dir: String::new(),
                links: None,
                failed: false,
                error: String::new(),
            }
        },
    }
}

/// A folder-group plan for the current user: as
/// [`create_folder_group_in`] with the home directory that the environment
/// reports, which is looked up only when at least one folder is chosen.
pub fn create_folder_group(name: Option<String>, folders: Vec<String>, windows: bool) -> (r:
    GroupPlan)
    ensures
        r.inv(),
        exists|home: Option<Seq<char>>|
            r@ == #[trigger] group_start(opt_view(name), strings_of(folders@), home, windows),
        folders.len() == 0 ==> r@ == group_refused(strings_of(folders@), "no folders selected"@),
{
    let home = if folders.len() == 0 {
        None
    } else {
        home_dir()
    };
    create_folder_group_in(name, folders, home, windows)
}

/// A folder-group plan starts consistent.
pub proof fn lemma_group_start_wf(
    name: Option<Seq<char>>,
    folders: Seq<Seq<char>>,
    home: Option<Seq<char>>,
    windows: bool,
)
    ensures
        group_wf(group_start(name, folders, home, windows)),
{
    lemma_sanitized_name_is_component(
        match name {
            Some(n) => n,
            None => spec_default_group_name(folders),
        },
        windows,
    );
}

/// The group directory is an entry directly inside the directory that holds
/// all groups, named after the group (with `-2`, `-3`, ... when the name is
/// taken).
pub proof fn lemma_group_dir_is_child(s: GroupState)
    requires
        group_wf(s),
        s.stage == GroupStage::MakeGroup || s.stage == GroupStage::Linking || s.stage
            == GroupStage::Cleanup || (s.stage == GroupStage::Finished && !s.failed),
    ensures
        is_child_of(s.group_dir, s.base),
        normal_components(s.group_dir) == normal_components(s.base).push(
            candidate_name(s.group_name, s.attempt),
        ),
{
    lemma_candidate_is_child(s.base, s.group_name, s.attempt);
}

/// Every answer keeps a folder-group plan consistent; in particular a plan
/// that ends successfully has linked every folder into its group directory,
/// which is the first path found free.
pub proof fn lemma_group_next_keeps_wf(s: GroupState, e: PlanEvent)
    requires
        group_wf(s),
    ensures
        group_wf(group_next(s, e)),
{
    if s.stage == GroupStage::Linking {
        lemma_link_next_keeps_wf(s.links->0, e);
    }
}

/// When linking fails, the plan asks for the group directory to be removed,
/// and only once that is done ends with the linking failure, whatever the
/// removal answered.
pub proof fn lemma_failed_linking_removes_group(s: GroupState, e: PlanEvent)
    requires
        group_wf(s),
        s.stage == GroupStage::Linking,
        link_next(s.links->0, e).stage == LinkStage::Finished,
        link_next(s.links->0, e).outcome is Err,
    ensures
        group_next(s, e).stage == GroupStage::Cleanup,
        group_pending(group_next(s, e)) == StepView::RemoveDirAll(s.group_dir),
        forall|r: Result<(), String>|
            {
                let t = #[trigger] group_next(group_next(s, e), PlanEvent::Done(r));
                &&& t.stage == GroupStage::Finished
                &&& group_outcome(t) == Err::<Seq<char>, Seq<char>>(
                    link_next(s.links->0, e).outcome->Err_0,
                )
            },
{
}

/// A plan with no folders is refused at once.
pub proof fn lemma_no_folders_refused(
    name: Option<Seq<char>>,
    home: Option<Seq<char>>,
    windows: bool,
)
    ensures
        group_start(name, Seq::<Seq<char>>::empty(), home, windows).stage == GroupStage::Finished,
        group_outcome(group_start(name, Seq::<Seq<char>>::empty(), home, windows)) == Err::<
            Seq<char>,
            Seq<char>,
        >("no folders selected"@),
{
}

/// The state a folder-group plan reaches after a sequence of answers.
pub open spec fn group_run(s: GroupState, events: Seq<PlanEvent>) -> GroupState
    decreases events.len(),
{
    if events.len() == 0 {
        s
    } else {
        group_next(group_run(s, events.drop_last()), events.last())
    }
}

proof fn lemma_group_taken_run(s: GroupState, j: nat)
    requires
        s.stage == GroupStage::ProbeGroup,
        s.attempt == 0,
        j <= max_attempt(),
    ensures
        group_run(s, taken_answers(j)) == (GroupState { attempt: j, ..s }),
    decreases j,
{
    if j == 0 {
        assert(taken_answers(0).len() == 0);
        assert(s == (GroupState { attempt: 0, ..s }));
    } else {
        lemma_group_taken_run(s, (j - 1) as nat);
        assert(taken_answers(j).drop_last() =~= taken_answers((j - 1) as nat));
        assert(taken_answers(j).last() == PlanEvent::Taken(true));
    }
}

/// The search for the group directory probes the candidate paths in order
/// and creates the group at the first one reported free: after `j` answers
/// "taken" the plan probes candidate `j`, and an answer "free" then creates
/// the group directory at that very candidate.
pub proof fn lemma_group_first_free_candidate(s: GroupState, k: nat)
    requires
        s.stage == GroupStage::ProbeGroup,
        s.attempt == 0,
        k <= max_attempt(),
    ensures
        forall|j: nat|
            j <= k ==> group_pending(#[trigger] group_run(s, taken_answers(j))) == StepView::Probe(
                spec_unique_candidate(s.base, s.group_name, j),
            ),
        group_pending(group_next(group_run(s, taken_answers(k)), PlanEvent::Taken(false)))
            == StepView::CreateDir(spec_unique_candidate(s.base, s.group_name, k)),
{
    assert forall|j: nat| j <= k implies group_pending(#[trigger] group_run(s, taken_answers(j)))
        == StepView::Probe(spec_unique_candidate(s.base, s.group_name, j)) by {
        lemma_group_taken_run(s, j);
    }
    lemma_group_taken_run(s, k);
}

} // verus!
