//! Step-by-step plans for linking folders into a directory.
//!
//! A plan never touches the filesystem. It names the next operation
//! ([`PlanStep`]); the caller performs it and answers with what happened
//! ([`PlanEvent`]); the plan decides what comes next. An answer that does not
//! fit the pending operation changes nothing, so the same operation is asked
//! for again.

use vstd::prelude::*;
use crate::text::{copy_string, concat};
use crate::paths::{
    basename,
    path_starts_with,
    spec_basename,
    spec_starts_with,
    is_component,
    is_child_of,
    normal_components,
    lemma_basename_is_component,
};
use crate::names::{
    unique_path,
    spec_unique_candidate,
    strings_of,
    copy_strings,
    candidate_name,
    lemma_unique_candidates_distinct,
    lemma_candidate_is_child,
};
use crate::outside::{simplified, dunce_simplified};

verus! {

/// An operation the caller performs for a plan.
#[derive(Debug)]
pub enum PlanStep {
    /// Create the directory and its missing parents; answer with
    /// [`PlanEvent::Done`].
    CreateDirAll(String),
    /// Create the directory, whose parent exists; answer with
    /// [`PlanEvent::Done`].
    CreateDir(String),
    /// Resolve the path to its canonical absolute form; answer with
    /// [`PlanEvent::Canonical`].
    Canonicalize(String),
    /// Validate the path, tell whether it is a directory, and resolve it;
    /// answer with [`PlanEvent::Folder`].
    InspectFolder(String),
    /// Tell whether an entry exists at the path, without following links (a
    /// broken link exists); answer with [`PlanEvent::Taken`].
    Probe(String),
    /// Create a symbolic link at `link` pointing to `target`; answer with
    /// [`PlanEvent::Done`].
    MakeLink { target: String, link: String },
    /// Remove the directory and everything below it; answer with
    /// [`PlanEvent::Done`] (its result is not used).
    RemoveDirAll(String),
    /// The plan is over; its outcome is available.
    Finish,
}

/// What happened when the caller performed an operation. Errors carry the
/// text of the underlying error.
#[derive(Debug)]
pub enum PlanEvent {
    /// A directory was created, a link made, or a directory removed.
    Done(Result<(), String>),
    /// The canonical form of a path.
    Canonical(Result<String, String>),
    /// What was found about a folder: whether its path passed validation
    /// (with the validation message otherwise), whether it is a directory,
    /// and its canonical form.
    Folder { valid: Result<(), String>, is_dir: bool, canonical: Result<String, String> },
    /// Whether an entry exists at the probed path.
    Taken(bool),
}

/// [`PlanStep`] with its paths as character sequences.
pub enum StepView {
    CreateDirAll(Seq<char>),
    CreateDir(Seq<char>),
    Canonicalize(Seq<char>),
    InspectFolder(Seq<char>),
    Probe(Seq<char>),
    MakeLink(Seq<char>, Seq<char>),
    RemoveDirAll(Seq<char>),
    Finish,
}

impl View for PlanStep {
    type V = StepView;

    open spec fn view(&self) -> StepView {
        match self {
            PlanStep::CreateDirAll(p) => StepView::CreateDirAll(p@),
            PlanStep::CreateDir(p) => StepView::CreateDir(p@),
            PlanStep::Canonicalize(p) => StepView::Canonicalize(p@),
            PlanStep::InspectFolder(p) => StepView::InspectFolder(p@),
            PlanStep::Probe(p) => StepView::Probe(p@),
            PlanStep::MakeLink { target, link } => StepView::MakeLink(target@, link@),
            PlanStep::RemoveDirAll(p) => StepView::RemoveDirAll(p@),
            PlanStep::Finish => StepView::Finish,
        }
    }
}

/// Where a linking plan stands.
#[derive(Debug, Clone, Copy, PartialEq, Eq, Structural)]
pub enum LinkStage {
    /// The destination must be a valid path naming a directory.
    CheckRoot,
    /// The destination is being resolved.
    ResolveRoot,
    /// The current folder is being inspected.
    Inspect,
    /// A free name for the current folder's link is being looked for.
    Probe,
    /// The current folder's link is being made.
    Link,
    /// The plan is over.
    Finished,
}

/// The state of a linking plan.
pub struct LinkState {
    /// The directory that receives the links.
    pub dest_root: Seq<char>,
    /// The folders to link, in order.
    pub folders: Seq<Seq<char>>,
    pub stage: LinkStage,
    /// The canonical form of the destination, once resolved.
    pub canonical_dest: Seq<char>,
    /// How many folders have been linked.
    pub index: nat,
    /// The links made so far, in order.
    pub created: Seq<Seq<char>>,
    /// The name the current folder's link is based on.
    pub name: Seq<char>,
    /// What the current folder's link points to.
    pub target: Seq<char>,
    /// The canonical form of the current folder.
    pub source: Seq<char>,
    /// The canonical forms of the folders linked so far, in order.
    pub sources: Seq<Seq<char>>,
    /// The attempt at which each link made so far was placed.
    pub attempts: Seq<nat>,
    /// Which candidate path the current link is being tried at.
    pub attempt: nat,
    /// The result, once finished: the links made, or an error message.
    pub outcome: Result<Seq<Seq<char>>, Seq<char>>,
}

/// The message that ends a plan when a path is not a directory.
pub open spec fn not_a_directory(path: Seq<char>) -> Seq<char> {
    path + ": not a directory"@
}

/// The message that ends a plan when an operation on a path failed.
pub open spec fn failed_at(path: Seq<char>, err: Seq<char>) -> Seq<char> {
    path + ": "@ + err
}

/// The message that refuses to link a folder into itself or below itself.
pub open spec fn cycle_refused(folder: Seq<char>) -> Seq<char> {
    folder + ": linking a folder into itself or a descendant would create a cycle"@
}

/// The message that ends a plan when a link could not be made.
pub open spec fn link_failed(link: Seq<char>, target: Seq<char>, err: Seq<char>) -> Seq<char> {
    "failed to link "@ + link + " -> "@ + target + ": "@ + err
}

/// The message that ends a search for a free name once every attempt a
/// 32-bit counter can number has been taken.
pub open spec fn names_exhausted(path: Seq<char>) -> Seq<char> {
    path + ": no unused name is left"@
}

/// The largest attempt number of a search for a free name.
pub open spec fn max_attempt() -> nat {
    u32::MAX as nat
}

/// The plan ends with an error.
pub open spec fn link_fail(s: LinkState, msg: Seq<char>) -> LinkState {
    LinkState { stage: LinkStage::Finished, outcome: Err(msg), ..s }
}

/// The plan moves to the next folder, or ends with the links made when
/// every folder is linked.
pub open spec fn link_next_folder(s: LinkState) -> LinkState {
    if s.index >= s.folders.len() {
        LinkState { stage: LinkStage::Finished, outcome: Ok(s.created), ..s }
    } else {
        LinkState { stage: LinkStage::Inspect, ..s }
    }
}

/// The path at which the current folder's link is tried.
pub open spec fn link_candidate(s: LinkState) -> Seq<char> {
    spec_unique_candidate(s.dest_root, s.name, s.attempt)
}

/// What a linking plan does with an answer.
pub open spec fn link_next(s: LinkState, e: PlanEvent) -> LinkState {
    match (s.stage, e) {
        (LinkStage::CheckRoot, PlanEvent::Folder { valid, is_dir, canonical: _ }) => match valid {
            Err(m) => link_fail(s, m@),
            Ok(_) => if !is_dir {
                link_fail(s, not_a_directory(s.dest_root))
            } else {
                LinkState { stage: LinkStage::ResolveRoot, ..s }
            },
        },
        (LinkStage::ResolveRoot, PlanEvent::Canonical(r)) => match r {
            Err(m) => link_fail(s, failed_at(s.dest_root, m@)),
            Ok(c) => link_next_folder(LinkState { canonical_dest: c@, ..s }),
        },
        (LinkStage::Inspect, PlanEvent::Folder { valid, is_dir, canonical }) => {
            let f = s.folders[s.index as int];
            match valid {
                Err(m) => link_fail(s, m@),
                Ok(_) => if !is_dir {
                    link_fail(s, not_a_directory(f))
                } else {
                    match canonical {
                        Err(m) => link_fail(s, failed_at(f, m@)),
                        Ok(c) => if spec_starts_with(s.canonical_dest, c@) {
                            link_fail(s, cycle_refused(f))
                        } else {
                            LinkState {
                                stage: LinkStage::Probe,
                                name: spec_basename(c@),
                                target: dunce_simplified(c@),
                                source: c@,
                                attempt: 0,
                                ..s
                            }
                        },
                    }
                },
            }
        },
        (LinkStage::Probe, PlanEvent::Taken(taken)) => if !taken {
            LinkState { stage: LinkStage::Link, ..s }
        } else if s.attempt >= max_attempt() {
            link_fail(s, names_exhausted(link_candidate(s)))
        } else {
            LinkState { attempt: s.attempt + 1, ..s }
        },
        (LinkStage::Link, PlanEvent::Done(r)) => match r {
            Err(m) => link_fail(s, link_failed(link_candidate(s), s.target, m@)),
            Ok(_) => link_next_folder(
                LinkState {
                    created: s.created.push(link_candidate(s)),
                    sources: s.sources.push(s.source),
                    attempts: s.attempts.push(s.attempt),
                    index: s.index + 1,
                    outcome: Ok(s.created.push(link_candidate(s))),
                    ..s
                },
            ),
        },
        _ => s,
    }
}

/// The operation a linking plan waits for.
pub open spec fn link_pending(s: LinkState) -> StepView {
    match s.stage {
        LinkStage::CheckRoot => StepView::InspectFolder(s.dest_root),
        LinkStage::ResolveRoot => StepView::Canonicalize(s.dest_root),
        LinkStage::Inspect => StepView::InspectFolder(s.folders[s.index as int]),
        LinkStage::Probe => StepView::Probe(link_candidate(s)),
        LinkStage::Link => StepView::MakeLink(s.target, link_candidate(s)),
        LinkStage::Finished => StepView::Finish,
    }
}

/// A linking plan before its first step.
pub open spec fn link_start(dest_root: Seq<char>, folders: Seq<Seq<char>>, stage: LinkStage) -> LinkState {
    LinkState {
        dest_root,
        folders,
        stage,
        canonical_dest: Seq::<char>::empty(),
        index: 0,
        created: Seq::<Seq<char>>::empty(),
        name: Seq::<char>::empty(),
        target: Seq::<char>::empty(),
        source: Seq::<char>::empty(),
        sources: Seq::<Seq<char>>::empty(),
        attempts: Seq::<nat>::empty(),
        attempt: 0,
        outcome: Ok(Seq::<Seq<char>>::empty()),
    }
}

/// The consistency of a linking plan: one link per folder linked so far, and
/// a successful outcome holds one link per folder.
pub open spec fn link_wf(s: LinkState) -> bool {
    &&& s.index <= s.folders.len()
    &&& s.created.len() == s.index
    &&& s.attempt <= max_attempt()
    &&& (s.stage == LinkStage::Inspect || s.stage == LinkStage::Probe || s.stage == LinkStage::Link)
        ==> s.index < s.folders.len()
    &&& (s.stage == LinkStage::Finished && s.outcome is Ok) ==> (s.index == s.folders.len()
        && s.outcome == Ok::<Seq<Seq<char>>, Seq<char>>(s.created))
    &&& (s.stage == LinkStage::CheckRoot || s.stage == LinkStage::ResolveRoot) ==> s.index == 0
    &&& (s.stage == LinkStage::Probe || s.stage == LinkStage::Link) ==> {
        &&& is_component(s.name)
        &&& s.name == spec_basename(s.source)
        &&& s.target == dunce_simplified(s.source)
        &&& !spec_starts_with(s.canonical_dest, s.source)
    }
    &&& link_records_ok(s)
}

/// What the plan knows of the links made so far: each was placed at a
/// candidate path inside the destination named after its folder's canonical
/// form, and no linked folder contains the destination.
pub open spec fn link_records_ok(s: LinkState) -> bool {
    &&& s.sources.len() == s.created.len()
    &&& s.attempts.len() == s.created.len()
    &&& forall|i: int| 0 <= i < s.created.len() ==> is_child_of(#[trigger] s.created[i], s.dest_root)
    &&& forall|i: int|
        0 <= i < s.created.len() ==> #[trigger] s.created[i] == spec_unique_candidate(
            s.dest_root,
            spec_basename(s.sources[i]),
            s.attempts[i],
        ) && !spec_starts_with(s.canonical_dest, s.sources[i])
}

/// A plan for linking every folder into a directory.
pub struct LinkPlan {
    dest_root: String,
    folders: Vec<String>,
    stage: LinkStage,
    canonical_dest: String,
    index: usize,
    created: Vec<String>,
    name: String,
    target: String,
    source: String,
    sources: Ghost<Seq<Seq<char>>>,
    attempts: Ghost<Seq<nat>>,
    attempt: u32,
    failed: bool,
    error: String,
}

impl View for LinkPlan {
    type V = LinkState;

    closed spec fn view(&self) -> LinkState {
        LinkState {
            dest_root: self.dest_root@,
            folders: strings_of(self.folders@),
            stage: self.stage,
            canonical_dest: self.canonical_dest@,
            index: self.index as nat,
            created: strings_of(self.created@),
            name: self.name@,
            target: self.target@,
            source: self.source@,
            sources: self.sources@,
            attempts: self.attempts@,
            attempt: self.attempt as nat,
            outcome: if self.failed {
                Err(self.error@)
            } else {
                Ok(strings_of(self.created@))
            },
        }
    }
}

impl LinkPlan {
    /// The consistency of the plan's own fields.
    pub closed spec fn inv(&self) -> bool {
        &&& link_wf(self@)
        &&& !self.failed ==> self.stage != LinkStage::Finished || self.index == self.folders.len()
        &&& self.failed ==> self.stage == LinkStage::Finished
    }

    fn fresh(dest_root: String, folders: Vec<String>, stage: LinkStage) -> (r: LinkPlan)
        requires
            stage == LinkStage::CheckRoot || stage == LinkStage::ResolveRoot,
        ensures
            r.inv(),
            r@ == link_start(dest_root@, strings_of(folders@), stage),
    {
        let r = LinkPlan {
            dest_root,
            folders,
            stage,
            canonical_dest: String::new(),
            index: 0,
            created: Vec::new(),
            name: String::new(),
            target: String::new(),
            source: String::new(),
            sources: Ghost(Seq::<Seq<char>>::empty()),
            attempts: Ghost(Seq::<nat>::empty()),
            attempt: 0,
            failed: false,
            error: String::new(),
        };
        proof {
            assert(strings_of(r.created@) =~= Seq::<Seq<char>>::empty());
            assert(r.canonical_dest@ =~= Seq::<char>::empty());
        }
        r
    }

    /// The operation the plan waits for.
    pub fn next_step(&self) -> (r: PlanStep)
        requires
            self.inv(),
        ensures
            r@ == link_pending(self@),
    {
        match self.stage {
            LinkStage::CheckRoot => PlanStep::InspectFolder(copy_string(&self.dest_root)),
            LinkStage::ResolveRoot => PlanStep::Canonicalize(copy_string(&self.dest_root)),
            LinkStage::Inspect => {
                proof {
                    assert(strings_of(self.folders@)[self.index as int] == self.folders@[self.index as int]@);
                }
                PlanStep::InspectFolder(copy_string(&self.folders[self.index]))
            },
            LinkStage::Probe => PlanStep::Probe(
                unique_path(self.dest_root.as_str(), self.name.as_str(), self.attempt),
            ),
            LinkStage::Link => PlanStep::MakeLink {
                target: copy_string(&self.target),
                link: unique_path(self.dest_root.as_str(), self.name.as_str(), self.attempt),
            },
            LinkStage::Finished => PlanStep::Finish,
        }
    }

    /// The result once the plan is over: the links made, one per folder in
    /// order, or the message of the first failure.
    pub fn outcome(&self) -> (r: Option<Result<Vec<String>, String>>)
        requires
            self.inv(),
        ensures
            match r {
                None => self@.stage != LinkStage::Finished,
                Some(Ok(links)) => self@.stage == LinkStage::Finished && self@.outcome == Ok::<
                    Seq<Seq<char>>,
                    Seq<char>,
                >(strings_of(links@)),
                Some(Err(m)) => self@.stage == LinkStage::Finished && self@.outcome == Err::<
                    Seq<Seq<char>>,
                    Seq<char>,
                >(m@),
            },
    {
        if self.stage != LinkStage::Finished {
            return None;
        }
        if self.failed {
            return Some(Err(copy_string(&self.error)));
        }
        let links = copy_strings(&self.created);
        Some(Ok(links))
    }

    fn fail(&mut self, msg: String)
        requires
            old(self).inv(),
        ensures
            final(self).inv(),
            final(self)@ == link_fail(old(self)@, msg@),
    {
        self.stage = LinkStage::Finished;
        self.failed = true;
        self.error = msg;
    }

    fn next_folder(&mut self)
        requires
            !old(self).failed,
            old(self).index <= old(self).folders.len(),
            old(self).created.len() == old(self).index,
            link_records_ok(old(self)@),
        ensures
            final(self).inv(),
            final(self)@ == link_next_folder(old(self)@),
    {
        proof {
            assert(strings_of(self.folders@).len() == self.folders.len());
            assert(strings_of(self.created@).len() == self.created.len());
        }
        if self.index >= self.folders.len() {
            self.stage = LinkStage::Finished;
        } else {
            self.stage = LinkStage::Inspect;
        }
    }

    /// Takes the answer to the pending operation and returns the next one.
    pub fn step(&mut self, event: PlanEvent) -> (r: PlanStep)
        requires
            old(self).inv(),
        ensures
            final(self).inv(),
            link_wf(final(self)@),
            final(self)@ == link_next(old(self)@, event),
            r@ == link_pending(final(self)@),
    {
        proof {
            assert(strings_of(self.folders@).len() == self.folders.len());
            assert(strings_of(self.created@).len() == self.created.len());
        }
        match (self.stage, event) {
            (LinkStage::CheckRoot, PlanEvent::Folder { valid, is_dir, canonical: _ }) => {
                match valid {
                    Err(m) => self.fail(m),
                    Ok(_) => {
                        if !is_dir {
                            let m = concat(self.dest_root.as_str(), ": not a directory");
                            self.fail(m);
                        } else {
                            self.stage = LinkStage::ResolveRoot;
                        }
                    },
                }
            },
            (LinkStage::ResolveRoot, PlanEvent::Canonical(r)) => {
                match r {
                    Err(m) => {
                        let head = concat(self.dest_root.as_str(), ": ");
                        let msg = concat(head.as_str(), m.as_str());
                        self.fail(msg);
                    },
                    Ok(c) => {
                        self.canonical_dest = c;
                        self.next_folder();
                    },
                }
            },
            (LinkStage::Inspect, PlanEvent::Folder { valid, is_dir, canonical }) => {
                proof {
                    assert(strings_of(self.folders@)[self.index as int] == self.folders@[self.index as int]@);
                }
                match valid {
                    Err(m) => self.fail(m),
                    Ok(_) => {
                        if !is_dir {
                            let m = concat(self.folders[self.index].as_str(), ": not a directory");
                            self.fail(m);
                        } else {
                            match canonical {
                                Err(m) => {
                                    let head = concat(self.folders[self.index].as_str(), ": ");
                                    let msg = concat(head.as_str(), m.as_str());
                                    self.fail(msg);
                                },
                                Ok(c) => {
                                    if path_starts_with(self.canonical_dest.as_str(), c.as_str()) {
                                        let m = concat(
                                            self.folders[self.index].as_str(),
                                            ": linking a folder into itself or a descendant would create a cycle",
                                        );
                                        self.fail(m);
                                    } else {
                                        proof {
                                            lemma_basename_is_component(c@);
                                        }
                                        self.name = basename(c.as_str());
                                        self.target = simplified(c.as_str());
                                        self.source = c;
                                        self.attempt = 0;
                                        self.stage = LinkStage::Probe;
                                    }
                                },
                            }
                        }
                    },
                }
            },
            (LinkStage::Probe, PlanEvent::Taken(taken)) => {
                if !taken {
                    self.stage = LinkStage::Link;
                } else if self.attempt == u32::MAX {
                    let cand = unique_path(self.dest_root.as_str(), self.name.as_str(), self.attempt);
                    let m = concat(cand.as_str(), ": no unused name is left");
                    self.fail(m);
                } else {
                    self.attempt = self.attempt + 1;
                }
            },
            (LinkStage::Link, PlanEvent::Done(r)) => {
                let link = unique_path(self.dest_root.as_str(), self.name.as_str(), self.attempt);
                match r {
                    Err(m) => {
                        let a = concat("failed to link ", link.as_str());
                        let b = concat(a.as_str(), " -> ");
                        let c = concat(b.as_str(), self.target.as_str());
                        let d = concat(c.as_str(), ": ");
                        let msg = concat(d.as_str(), m.as_str());
                        self.fail(msg);
                    },
                    Ok(_) => {
                        let ghost before = strings_of(self.created@);
                        let ghost lv = link@;
                        proof {
                            lemma_link_candidate_is_child(self@);
                        }
                        self.created.push(link);
                        self.sources = Ghost(self.sources@.push(self.source@));
                        self.attempts = Ghost(self.attempts@.push(self.attempt as nat));
                        self.index = self.index + 1;
                        proof {
                            assert(strings_of(self.created@) =~= before.push(lv));
                        }
                        self.next_folder();
                    },
                }
            },
            _ => {},
        }
        self.next_step()
    }
}

/// A plan that links each folder into `dest_root`. It resolves `dest_root`,
/// then for each folder in turn: checks it, resolves it, refuses it when
/// `dest_root` lies inside it, looks for the first free path among
/// `dest_root/name`, `dest_root/name-2`, ... where `name` is the final name
/// of the resolved folder, and links that path to the resolved folder. The
/// first failure ends the plan with its message; otherwise the plan ends
/// with the links made, in order.
pub fn link_folders_into(dest_root: String, folders: Vec<String>) -> (r: LinkPlan)
    ensures
        r.inv(),
        link_wf(r@),
        r@ == link_start(dest_root@, strings_of(folders@), LinkStage::ResolveRoot),
{
    LinkPlan::fresh(dest_root, folders, LinkStage::ResolveRoot)
}

/// A plan that links each folder into the existing directory `dest_root`:
/// it first requires `dest_root` to pass validation and to be a directory,
/// then proceeds as [`link_folders_into`].
pub fn add_folder_links(dest_root: String, folders: Vec<String>) -> (r: LinkPlan)
    ensures
        r.inv(),
        link_wf(r@),
        r@ == link_start(dest_root@, strings_of(folders@), LinkStage::CheckRoot),
{
    LinkPlan::fresh(dest_root, folders, LinkStage::CheckRoot)
}

proof fn lemma_records_carry_over(s: LinkState, t: LinkState)
    requires
        link_records_ok(s),
        t.created == s.created,
        t.sources == s.sources,
        t.attempts == s.attempts,
        t.dest_root == s.dest_root,
        t.canonical_dest == s.canonical_dest,
    ensures
        link_records_ok(t),
{
}

/// Every answer keeps a linking plan consistent.
pub proof fn lemma_link_next_keeps_wf(s: LinkState, e: PlanEvent)
    requires
        link_wf(s),
    ensures
        link_wf(link_next(s, e)),
{
    match (s.stage, e) {
        (LinkStage::Inspect, PlanEvent::Folder { valid: _, is_dir: _, canonical: Ok(c) }) => {
            lemma_basename_is_component(c@);
            lemma_records_carry_over(s, link_next(s, e));
        },
        (LinkStage::Link, PlanEvent::Done(Ok(_))) => {
            lemma_link_candidate_is_child(s);
            let t = link_next(s, e);
            assert forall|i: int| 0 <= i < t.created.len() implies is_child_of(
                #[trigger] t.created[i],
                t.dest_root,
            ) by {
                if i < s.created.len() {
                    assert(t.created[i] == s.created[i]);
                }
            }
            assert forall|i: int| 0 <= i < t.created.len() implies #[trigger] t.created[i]
                == spec_unique_candidate(t.dest_root, spec_basename(t.sources[i]), t.attempts[i])
                && !spec_starts_with(t.canonical_dest, t.sources[i]) by {
                if i < s.created.len() {
                    assert(t.created[i] == s.created[i]);
                    assert(t.sources[i] == s.sources[i]);
                    assert(t.attempts[i] == s.attempts[i]);
                } else {
                    assert(t.sources[i] == s.source);
                    assert(t.attempts[i] == s.attempt);
                }
            }
            assert(link_records_ok(t));
        },
        (LinkStage::ResolveRoot, PlanEvent::Canonical(Ok(c))) => {
            let t = link_next(s, e);
            assert(t.created.len() == 0);
            assert(link_records_ok(t));
        },
        _ => {
            let t = link_next(s, e);
            assert(t.created == s.created);
            assert(t.sources == s.sources);
            assert(t.attempts == s.attempts);
            assert(t.dest_root == s.dest_root);
            assert(t.canonical_dest == s.canonical_dest);
            lemma_records_carry_over(s, t);
            assert(link_records_ok(t));
        },
    }
}

/// While a link is being placed, the path tried is an entry directly
/// inside the destination, named after the folder (with `-2`, `-3`, ... when
/// the name is taken).
pub proof fn lemma_link_candidate_is_child(s: LinkState)
    requires
        link_wf(s),
        s.stage == LinkStage::Probe || s.stage == LinkStage::Link,
    ensures
        normal_components(link_candidate(s)) == normal_components(s.dest_root).push(
            candidate_name(s.name, s.attempt),
        ),
        is_child_of(link_candidate(s), s.dest_root),
{
    lemma_candidate_is_child(s.dest_root, s.name, s.attempt);
}

/// A folder that contains the destination (or is the destination) is
/// refused with the cycle message, and nothing is linked for it.
pub proof fn lemma_cycle_refused(s: LinkState, canonical: String)
    requires
        s.stage == LinkStage::Inspect,
        spec_starts_with(s.canonical_dest, canonical@),
    ensures
        ({
            let t = link_next(
                s,
                PlanEvent::Folder { valid: Ok(()), is_dir: true, canonical: Ok(canonical) },
            );
            &&& t.stage == LinkStage::Finished
            &&& t.outcome == Err::<Seq<Seq<char>>, Seq<char>>(cycle_refused(s.folders[s.index as int]))
            &&& t.created == s.created
        }),
{
}

/// A link is made only at the path that was just reported free: the plan
/// enters its linking stage only from a probe answered "not taken", and
/// links the very path it probed.
pub proof fn lemma_link_only_at_free_path(s: LinkState, e: PlanEvent)
    requires
        s.stage != LinkStage::Link,
        link_next(s, e).stage == LinkStage::Link,
    ensures
        s.stage == LinkStage::Probe,
        e == PlanEvent::Taken(false),
        link_pending(link_next(s, e)) == StepView::MakeLink(s.target, link_candidate(s)),
        link_pending(s) == StepView::Probe(link_candidate(s)),
{
}

/// After a probe answered "taken", the next path probed differs from every
/// path probed before for the same link.
pub proof fn lemma_probe_moves_to_fresh_path(s: LinkState, earlier: nat)
    requires
        s.stage == LinkStage::Probe,
        s.attempt < max_attempt(),
        earlier <= s.attempt,
    ensures
        ({
            let t = link_next(s, PlanEvent::Taken(true));
            &&& t.stage == LinkStage::Probe
            &&& t.attempt == s.attempt + 1
            &&& link_candidate(t) != spec_unique_candidate(s.dest_root, s.name, earlier)
        }),
{
    lemma_unique_candidates_distinct(s.dest_root, s.name, s.attempt + 1, earlier);
}

/// A linking plan that ends successfully has made exactly one link per
/// folder, in order.
pub proof fn lemma_link_success_links_every_folder(s: LinkState)
    requires
        link_wf(s),
        s.stage == LinkStage::Finished,
        s.outcome is Ok,
    ensures
        s.outcome->Ok_0.len() == s.folders.len(),
        s.outcome->Ok_0 == s.created,
        forall|i: int|
            0 <= i < s.outcome->Ok_0.len() ==> is_child_of(#[trigger] s.outcome->Ok_0[i], s.dest_root),
{
}

/// The state a linking plan reaches after a sequence of answers.
pub open spec fn link_run(s: LinkState, events: Seq<PlanEvent>) -> LinkState
    decreases events.len(),
{
    if events.len() == 0 {
        s
    } else {
        link_next(link_run(s, events.drop_last()), events.last())
    }
}

/// `k` answers "taken".
pub open spec fn taken_answers(k: nat) -> Seq<PlanEvent> {
    Seq::new(k, |i: int| PlanEvent::Taken(true))
}

/// No answer changes the destination or the folders of a linking plan.
pub proof fn lemma_link_run_keeps_task(s: LinkState, events: Seq<PlanEvent>)
    ensures
        link_run(s, events).dest_root == s.dest_root,
        link_run(s, events).folders == s.folders,
    decreases events.len(),
{
    if events.len() > 0 {
        lemma_link_run_keeps_task(s, events.drop_last());
    }
}

/// Every sequence of answers keeps a linking plan consistent.
pub proof fn lemma_link_run_keeps_wf(s: LinkState, events: Seq<PlanEvent>)
    requires
        link_wf(s),
    ensures
        link_wf(link_run(s, events)),
    decreases events.len(),
{
    if events.len() > 0 {
        lemma_link_run_keeps_wf(s, events.drop_last());
        lemma_link_next_keeps_wf(link_run(s, events.drop_last()), events.last());
    }
}

/// Within the answers `events` given to a plan that started as `s0`, answer
/// number `k` was given while the plan asked to inspect `folder`, and it
/// reported that folder as valid, a directory, with canonical form `c`.
pub open spec fn answered_at(
    s0: LinkState,
    events: Seq<PlanEvent>,
    k: int,
    folder: Seq<char>,
    c: Seq<char>,
) -> bool {
    &&& 0 <= k < events.len()
    &&& link_pending(link_run(s0, events.take(k))) == StepView::InspectFolder(folder)
    &&& match events[k] {
        PlanEvent::Folder { valid: Ok(_), is_dir: true, canonical: Ok(c2) } => c2@ == c,
        _ => false,
    }
}

/// Some answer among `events` reported `c` as the canonical form of `folder`
/// (see [`answered_at`]).
pub open spec fn source_answered(
    s0: LinkState,
    events: Seq<PlanEvent>,
    folder: Seq<char>,
    c: Seq<char>,
) -> bool {
    exists|k: int| #[trigger] answered_at(s0, events, k, folder, c)
}

proof fn lemma_source_answered_lifts(
    s0: LinkState,
    events: Seq<PlanEvent>,
    e: PlanEvent,
    folder: Seq<char>,
    c: Seq<char>,
)
    requires
        source_answered(s0, events, folder, c),
    ensures
        source_answered(s0, events.push(e), folder, c),
{
    let k = choose|k: int| #[trigger] answered_at(s0, events, k, folder, c);
    assert(events.push(e).take(k) =~= events.take(k));
    assert(events.push(e)[k] == events[k]);
    assert(answered_at(s0, events.push(e), k, folder, c));
}

/// What one answer does to the record of linked folders: it is kept, or
/// (after a link is made) extended by the current folder; and a plan that
/// places a link keeps its current folder, unless it has just inspected it.
proof fn lemma_link_next_sources(s: LinkState, e: PlanEvent)
    requires
        link_wf(s),
    ensures
        ({
            let t = link_next(s, e);
            &&& t.folders == s.folders
            &&& (t.sources == s.sources || (s.stage == LinkStage::Link && t.sources == s.sources.push(
                s.source,
            ) && s.index == s.sources.len()))
            &&& (t.stage == LinkStage::Probe || t.stage == LinkStage::Link) ==> (t.index == s.index
                && ((s.stage == LinkStage::Probe || s.stage == LinkStage::Link) && t.source
                == s.source || s.stage == LinkStage::Inspect && match e {
                PlanEvent::Folder { valid: Ok(_), is_dir: true, canonical: Ok(c) } => c@
                    == t.source,
                _ => false,
            }))
        }),
{
}

/// Over a whole run of answers, every link made is for the folder in the
/// same position, and the canonical form it is named after is the one that
/// the caller reported when that folder was inspected.
pub proof fn lemma_link_run_sources(s0: LinkState, events: Seq<PlanEvent>)
    requires
        link_wf(s0),
        s0.created.len() == 0,
        s0.stage != LinkStage::Probe && s0.stage != LinkStage::Link,
    ensures
        ({
            let t = link_run(s0, events);
            &&& forall|i: int|
                0 <= i < t.sources.len() ==> source_answered(
                    s0,
                    events,
                    s0.folders[i],
                    #[trigger] t.sources[i],
                )
            &&& (t.stage == LinkStage::Probe || t.stage == LinkStage::Link) ==> source_answered(
                s0,
                events,
                s0.folders[t.index as int],
                t.source,
            )
        }),
    decreases events.len(),
{
    lemma_link_run_keeps_task(s0, events);
    if events.len() > 0 {
        let es = events.drop_last();
        let e = events.last();
        assert(es.push(e) =~= events);
        lemma_link_run_sources(s0, es);
        lemma_link_run_keeps_wf(s0, es);
        lemma_link_run_keeps_task(s0, es);
        let t = link_run(s0, es);
        let t2 = link_run(s0, events);
        assert(t2 == link_next(t, e));
        lemma_link_next_sources(t, e);
        assert forall|i: int| 0 <= i < t2.sources.len() implies source_answered(
            s0,
            events,
            s0.folders[i],
            #[trigger] t2.sources[i],
        ) by {
            if i < t.sources.len() {
                assert(t2.sources[i] == t.sources[i]);
                assert(source_answered(s0, es, s0.folders[i], t.sources[i]));
                lemma_source_answered_lifts(s0, es, e, s0.folders[i], t.sources[i]);
            } else {
                assert(t2.sources[i] == t.source);
                assert(i == t.index);
                lemma_source_answered_lifts(s0, es, e, s0.folders[i], t.source);
            }
        }
        if t2.stage == LinkStage::Probe || t2.stage == LinkStage::Link {
            if t.stage == LinkStage::Probe || t.stage == LinkStage::Link {
                lemma_link_run_keeps_wf(s0, es);
                lemma_source_answered_lifts(s0, es, e, s0.folders[t.index as int], t.source);
            } else {
                let k = es.len() as int;
                assert(events.take(k) =~= es);
                assert(events[k] == e);
                assert(answered_at(s0, events, k, s0.folders[t2.index as int], t2.source));
            }
        }
    } else {
        assert(link_run(s0, events) == s0);
    }
}

/// Whatever the caller answers, a linking plan that ends successfully has
/// made exactly one link per folder, in order. Link `i` lies directly inside
/// the destination, at the candidate path named after the canonical form
/// reported for folder `i` (`name`, `name-2`, ...) when the plan inspected
/// it, and that folder does not contain the destination.
pub proof fn lemma_link_run_success(
    dest_root: Seq<char>,
    folders: Seq<Seq<char>>,
    stage: LinkStage,
    events: Seq<PlanEvent>,
)
    requires
        stage == LinkStage::CheckRoot || stage == LinkStage::ResolveRoot,
    ensures
        ({
            let t = link_run(link_start(dest_root, folders, stage), events);
            (t.stage == LinkStage::Finished && t.outcome is Ok) ==> {
                &&& t.outcome->Ok_0.len() == folders.len()
                &&& forall|i: int|
                    0 <= i < folders.len() ==> #[trigger] t.outcome->Ok_0[i]
                        == spec_unique_candidate(dest_root, spec_basename(t.sources[i]), t.attempts[i])
                        && !spec_starts_with(t.canonical_dest, t.sources[i]) && is_child_of(
                        t.outcome->Ok_0[i],
                        dest_root,
                    ) && source_answered(
                        link_start(dest_root, folders, stage),
                        events,
                        folders[i],
                        t.sources[i],
                    )
            }
        }),
{
    let s0 = link_start(dest_root, folders, stage);
    assert(link_wf(s0));
    lemma_link_run_keeps_wf(s0, events);
    lemma_link_run_keeps_task(s0, events);
    lemma_link_run_sources(s0, events);
    let t = link_run(s0, events);
    if t.stage == LinkStage::Finished && t.outcome is Ok {
        assert forall|i: int| 0 <= i < folders.len() implies #[trigger] t.outcome->Ok_0[i]
            == spec_unique_candidate(dest_root, spec_basename(t.sources[i]), t.attempts[i])
            && !spec_starts_with(t.canonical_dest, t.sources[i]) && is_child_of(
            t.outcome->Ok_0[i],
            dest_root,
        ) && source_answered(s0, events, folders[i], t.sources[i]) by {
            assert(t.outcome->Ok_0[i] == t.created[i]);
            assert(source_answered(s0, events, s0.folders[i], t.sources[i]));
        }
    }
}

proof fn lemma_probe_taken_run(s: LinkState, j: nat)
    requires
        s.stage == LinkStage::Probe,
        s.attempt == 0,
        j <= max_attempt(),
    ensures
        link_run(s, taken_answers(j)) == (LinkState { attempt: j, ..s }),
    decreases j,
{
    if j == 0 {
        assert(taken_answers(0).len() == 0);
        assert(s == (LinkState { attempt: 0, ..s }));
    } else {
        lemma_probe_taken_run(s, (j - 1) as nat);
        assert(taken_answers(j).drop_last() =~= taken_answers((j - 1) as nat));
        assert(taken_answers(j).last() == PlanEvent::Taken(true));
    }
}

/// The search for a link's path probes the candidate paths in order and
/// links the first one reported free: from the start of a search, after `j`
/// answers "taken" the plan probes candidate `j`, and an answer "free" then
/// makes the link at that very candidate.
pub proof fn lemma_link_first_free_candidate(s: LinkState, k: nat)
    requires
        s.stage == LinkStage::Probe,
        s.attempt == 0,
        k <= max_attempt(),
    ensures
        forall|j: nat|
            j <= k ==> link_pending(#[trigger] link_run(s, taken_answers(j))) == StepView::Probe(
                spec_unique_candidate(s.dest_root, s.name, j),
            ),
        link_pending(link_next(link_run(s, taken_answers(k)), PlanEvent::Taken(false)))
            == StepView::MakeLink(s.target, spec_unique_candidate(s.dest_root, s.name, k)),
{
    assert forall|j: nat| j <= k implies link_pending(#[trigger] link_run(s, taken_answers(j)))
        == StepView::Probe(spec_unique_candidate(s.dest_root, s.name, j)) by {
        lemma_probe_taken_run(s, j);
    }
    lemma_probe_taken_run(s, k);
}

} // verus!
