//! Where session sockets live and whom to trust there, plus session listing and
//! liveness.
//!
//! Session state is encoded in the socket file's permission bits (an attached
//! session gets the owner-execute bit set), so listing can read the status from
//! the file's mode alone.  Liveness (is the server still there?) is confirmed by
//! connecting and reading the server's `Pid` packet.

use vstd::prelude::*;

use crate::path;
use crate::protocol;
use crate::protocol::{ByteReader, Packet, PacketView, Parsed};
use crate::text;

verus! {

/// The longest path that fits the address of a Unix-domain socket everywhere
/// (104 bytes including the terminating NUL).
pub const SUN_PATH_MAX: usize = 103;

/// Owner-execute bit, set to mark a session as attached.
pub const ATTACHED_BIT: u32 = 0o100;

/// Mode of a session's socket while nobody is attached.
pub const BASE_MODE: u32 = 0o600;

/// Mode of the socket while somebody is attached.
pub const ATTACHED_MODE: u32 = 0o700;

/// Mode of a session directory.
pub const PRIVATE_DIR_MODE: u32 = 0o700;

/// Mode of a directory shared by all users (like that of `/tmp`).
pub const SHARED_DIR_MODE: u32 = 0o1777;

/// The group and other bits of a mode.
pub const FOREIGN_BITS: u32 = 0o077;

/// The bits of a mode that tell the type of the file.
pub const TYPE_BITS: u32 = 0o170000;

/// What they are for a directory.
pub const DIRECTORY_TYPE: u32 = 0o040000;

// ---- the socket directory ---------------------------------------------------

/// What the environment says about where sockets may live.
#[derive(Debug)]
pub struct DirEnv {
    /// `$SM_SOCKET_DIR`
    pub socket_dir: Option<String>,
    /// `$HOME`
    pub home: Option<String>,
    /// `$TMPDIR`
    pub tmpdir: Option<String>,
    /// `$USER`
    pub user: Option<String>,
    /// The current user's id.
    pub uid: u32,
}

/// A directory that may serve.
#[derive(Debug)]
pub struct Candidate {
    pub dir: Vec<u8>,
    /// The directory shared with other users in which `dir` is created.
    pub shared_parent: Option<Vec<u8>>,
}

pub struct CandidateView {
    pub dir: Seq<u8>,
    pub shared_parent: Option<Seq<u8>>,
}

impl View for Candidate {
    type V = CandidateView;

    open spec fn view(&self) -> CandidateView {
        CandidateView {
            dir: self.dir@,
            shared_parent: match self.shared_parent {
                Some(parent) => Some(parent@),
                None => None,
            },
        }
    }
}

pub open spec fn candidates_view(cs: Seq<Candidate>) -> Seq<CandidateView> {
    Seq::new(cs.len(), |i: int| cs[i]@)
}

/// The value of a variable; an empty one counts as unset.
pub open spec fn set_value(var: Option<String>) -> Option<Seq<char>> {
    match var {
        Some(value) => if value@.len() > 0 {
            Some(value@)
        } else {
            None
        },
        None => None,
    }
}

/// `$USER`, or the numeric uid if that is unset.
pub open spec fn user_name(user: Option<String>, uid: u32) -> Seq<char> {
    match set_value(user) {
        Some(name) => name,
        None => text::decimal_digits(uid as nat),
    }
}

/// A text as the bytes of a path.
pub open spec fn path_bytes(chars: Seq<char>) -> Seq<u8> {
    vstd::utf8::encode_utf8(chars)
}

/// The user's own directory below `base/sm`, a directory shared by all users.
pub open spec fn shared_candidate(base: Seq<char>, user: Seq<char>) -> CandidateView {
    let parent = path::joined(path_bytes(base), path_bytes("sm"@));
    CandidateView { dir: path::joined(parent, path_bytes(user)), shared_parent: Some(parent) }
}

/// The directories to try, in order: `$SM_SOCKET_DIR`, `$HOME/.session_manager`,
/// `$TMPDIR/sm/$USER`, `/tmp/sm/$USER`; those whose variable is unset are left out.
pub open spec fn candidates(env: DirEnv) -> Seq<CandidateView> {
    let user = user_name(env.user, env.uid);
    let own = match set_value(env.socket_dir) {
        Some(dir) => seq![CandidateView { dir: path_bytes(dir), shared_parent: None }],
        None => Seq::empty(),
    };
    let home = match set_value(env.home) {
        Some(dir) => seq![
            CandidateView {
                dir: path::joined(path_bytes(dir), path_bytes(".session_manager"@)),
                shared_parent: None,
            },
        ],
        None => Seq::empty(),
    };
    let tmp = match set_value(env.tmpdir) {
        Some(dir) => seq![shared_candidate(dir, user)],
        None => Seq::empty(),
    };
    own + home + tmp + seq![shared_candidate("/tmp"@, user)]
}

/// The value of a variable; an empty one counts as unset.
fn nonempty(var: &Option<String>) -> (value: Option<&String>)
    ensures
        match value {
            Some(v) => set_value(*var) == Some(v@),
            None => set_value(*var) is None,
        },
{
    match var {
        Some(v) => {
            if v.as_str().is_empty() {
                None
            } else {
                Some(v)
            }
        },
        None => None,
    }
}

fn username(user: &Option<String>, uid: u32) -> (name: String)
    ensures
        name@ == user_name(*user, uid),
{
    match nonempty(user) {
        Some(name) => name.clone(),
        None => text::decimal(uid as u64),
    }
}

fn push_shared(cs: &mut Vec<Candidate>, base: &str, user: &String)
    ensures
        candidates_view(final(cs)@) == candidates_view(old(cs)@) + seq![
            shared_candidate(base@, user@),
        ],
{
    let parent = path::join(base.as_bytes(), "sm".as_bytes());
    let dir = path::join(parent.as_slice(), user.as_str().as_bytes());
    cs.push(Candidate { dir, shared_parent: Some(parent) });
    assert(candidates_view(cs@) == candidates_view(old(cs)@) + seq![
        shared_candidate(base@, user@),
    ]);
}

fn push_private(cs: &mut Vec<Candidate>, dir: Vec<u8>)
    ensures
        candidates_view(final(cs)@) == candidates_view(old(cs)@) + seq![
            CandidateView { dir: dir@, shared_parent: None },
        ],
{
    cs.push(Candidate { dir, shared_parent: None });
    assert(candidates_view(cs@) == candidates_view(old(cs)@) + seq![
        CandidateView { dir: dir@, shared_parent: None },
    ]);
}

fn list_candidates(env: &DirEnv) -> (cs: Vec<Candidate>)
    ensures
        candidates_view(cs@) == candidates(*env),
{
    let user = username(&env.user, env.uid);
    let mut cs: Vec<Candidate> = Vec::new();
    assert(candidates_view(cs@) == Seq::<CandidateView>::empty());
    if let Some(dir) = nonempty(&env.socket_dir) {
        push_private(&mut cs, dir.as_str().as_bytes_vec());
    }
    let ghost own = candidates_view(cs@);
    if let Some(home) = nonempty(&env.home) {
        push_private(&mut cs, path::join(home.as_str().as_bytes(), ".session_manager".as_bytes()));
    }
    if let Some(tmp) = nonempty(&env.tmpdir) {
        push_shared(&mut cs, tmp.as_str(), &user);
    }
    push_shared(&mut cs, "/tmp", &user);
    assert(candidates_view(cs@) == candidates(*env));
    cs
}

/// Why a directory cannot serve.
#[derive(Debug)]
pub enum DirError {
    /// A system call failed with this error number.
    Os(i32),
    /// The directory is not owned by the current user.
    NotOwned(Vec<u8>),
    /// The directory is accessible by group or other.
    Accessible(Vec<u8>),
    /// It is no directory.
    NotDirectory(Vec<u8>),
    /// The path contains a NUL byte.
    NulInPath,
    /// There was no directory to try.
    NoneUsable,
}

pub enum DirErrorView {
    Os(i32),
    NotOwned(Seq<u8>),
    Accessible(Seq<u8>),
    NotDirectory(Seq<u8>),
    NulInPath,
    NoneUsable,
}

impl View for DirError {
    type V = DirErrorView;

    open spec fn view(&self) -> DirErrorView {
        match self {
            DirError::Os(code) => DirErrorView::Os(*code),
            DirError::NotOwned(dir) => DirErrorView::NotOwned(dir@),
            DirError::Accessible(dir) => DirErrorView::Accessible(dir@),
            DirError::NotDirectory(dir) => DirErrorView::NotDirectory(dir@),
            DirError::NulInPath => DirErrorView::NulInPath,
            DirError::NoneUsable => DirErrorView::NoneUsable,
        }
    }
}

impl DirErrorView {
    /// The message for the user; `shown` is how the directory is displayed, or the
    /// system's words for a failed system call.
    pub open spec fn message(self, shown: Seq<char>) -> Seq<char> {
        match self {
            DirErrorView::Os(_) => shown,
            DirErrorView::NotOwned(_) => shown + " is not owned by the current user"@,
            DirErrorView::Accessible(_) => shown + " is accessible by group/other"@,
            DirErrorView::NotDirectory(_) => shown + " is not a directory"@,
            DirErrorView::NulInPath => "path contains NUL"@,
            DirErrorView::NoneUsable => "no usable socket directory"@,
        }
    }
}

impl DirError {
    pub fn message(&self, shown: &str) -> (message: String)
        ensures
            message@ == self@.message(shown@),
    {
        match self {
            DirError::Os(_) => shown.to_owned(),
            DirError::NotOwned(_) => shown.to_owned().concat(" is not owned by the current user"),
            DirError::Accessible(_) => shown.to_owned().concat(" is accessible by group/other"),
            DirError::NotDirectory(_) => shown.to_owned().concat(" is not a directory"),
            DirError::NulInPath => "path contains NUL".to_owned(),
            DirError::NoneUsable => "no usable socket directory".to_owned(),
        }
    }

    /// A copy of the error.
    fn copy(&self) -> (e: DirError)
        ensures
            e@ == self@,
    {
        match self {
            DirError::Os(code) => DirError::Os(*code),
            DirError::NotOwned(dir) => DirError::NotOwned(
                vstd::slice::slice_to_vec(dir.as_slice()),
            ),
            DirError::Accessible(dir) => DirError::Accessible(
                vstd::slice::slice_to_vec(dir.as_slice()),
            ),
            DirError::NotDirectory(dir) => DirError::NotDirectory(
                vstd::slice::slice_to_vec(dir.as_slice()),
            ),
            DirError::NulInPath => DirError::NulInPath,
            DirError::NoneUsable => DirError::NoneUsable,
        }
    }
}

/// `path` as a C string, with its terminating NUL.
pub fn cpath(path: &[u8]) -> (c: Result<Vec<u8>, DirError>)
    ensures
        match c {
            Ok(bytes) => !path@.contains(0u8) && bytes@ == path@.push(0),
            Err(e) => path@.contains(0u8) && e == DirError::NulInPath,
        },
{
    let mut i: usize = 0;
    while i < path.len()
        invariant
            i <= path@.len(),
            forall|k: int| 0 <= k < i ==> path@[k] != 0,
        decreases path@.len() - i,
    {
        if path[i] == 0 {
            return Err(DirError::NulInPath);
        }
        i += 1;
    }
    let mut bytes = vstd::slice::slice_to_vec(path);
    bytes.push(0);
    Ok(bytes)
}

/// Why what has this owner and mode is not trusted as a directory; `None` if it is.
pub open spec fn distrust(dir: Seq<u8>, owner: u32, mode: u32, uid: u32) -> Option<DirErrorView> {
    if owner != uid {
        Some(DirErrorView::NotOwned(dir))
    } else if mode & FOREIGN_BITS != 0 {
        Some(DirErrorView::Accessible(dir))
    } else if mode & TYPE_BITS != DIRECTORY_TYPE {
        Some(DirErrorView::NotDirectory(dir))
    } else {
        None
    }
}

/// Rejects what is not a directory that is owned by the current user and has no
/// group or other access.  This is what stops another user from planting a directory (or
/// socket) that would otherwise be trusted and connected to.
pub fn verify_owned_private(dir: &[u8], owner: u32, mode: u32, uid: u32) -> (r: Result<
    (),
    DirError,
>)
    ensures
        match r {
            Ok(()) => distrust(dir@, owner, mode, uid) is None,
            Err(e) => distrust(dir@, owner, mode, uid) == Some(e@),
        },
{
    if owner != uid {
        return Err(DirError::NotOwned(vstd::slice::slice_to_vec(dir)));
    }
    if mode & FOREIGN_BITS != 0 {
        return Err(DirError::Accessible(vstd::slice::slice_to_vec(dir)));
    }
    if mode & TYPE_BITS != DIRECTORY_TYPE {
        return Err(DirError::NotDirectory(vstd::slice::slice_to_vec(dir)));
    }
    Ok(())
}

/// How far the work on one candidate has come.
#[derive(Debug, Clone, Copy, PartialEq, Eq, Structural)]
pub enum Stage {
    /// The shared parent is to be created.
    Parent,
    /// The directory is to be created.
    Dir,
    /// The directory's owner and mode are to be checked.
    Check,
    /// The directory serves.
    Found,
}

/// What the driver of a search is asked to do.
#[derive(Debug)]
pub enum DirAction {
    /// Create a directory with exactly this mode.
    Mkdir { path: Vec<u8>, mode: u32 },
    /// Look up the directory's owner and mode, the bits of its type included.
    Stat { path: Vec<u8> },
    /// The search is over: this directory serves.
    Found(Vec<u8>),
    /// The search is over: none serves; this was the last error.
    Failed(DirError),
}

pub enum DirActionView {
    Mkdir { path: Seq<u8>, mode: u32 },
    Stat { path: Seq<u8> },
    Found(Seq<u8>),
    Failed(DirErrorView),
}

impl View for DirAction {
    type V = DirActionView;

    open spec fn view(&self) -> DirActionView {
        match self {
            DirAction::Mkdir { path, mode } => DirActionView::Mkdir { path: path@, mode: *mode },
            DirAction::Stat { path } => DirActionView::Stat { path: path@ },
            DirAction::Found(dir) => DirActionView::Found(dir@),
            DirAction::Failed(e) => DirActionView::Failed(e@),
        }
    }
}

/// What came of an action.
#[derive(Debug, Clone, Copy)]
pub enum DirEvent {
    /// The directory was created.
    Made,
    /// Something of that name existed already.
    Exists,
    /// The directory's owner and mode.
    Status { owner: u32, mode: u32 },
    /// The system call failed with this error number.
    Failed(i32),
    /// The path cannot be given to a system call.
    BadPath,
}

/// The search for a socket directory, between actions.
#[derive(Debug)]
pub struct DirSearch {
    candidates: Vec<Candidate>,
    at: usize,
    stage: Stage,
    last_err: Option<DirError>,
    uid: u32,
}

pub struct DirSearchView {
    pub candidates: Seq<CandidateView>,
    /// The candidate at work; all before it have failed.
    pub at: nat,
    pub stage: Stage,
    pub last_err: Option<DirErrorView>,
    pub uid: u32,
}

impl View for DirSearch {
    type V = DirSearchView;

    closed spec fn view(&self) -> DirSearchView {
        DirSearchView {
            candidates: candidates_view(self.candidates@),
            at: self.at as nat,
            stage: self.stage,
            last_err: match self.last_err {
                Some(e) => Some(e@),
                None => None,
            },
            uid: self.uid,
        }
    }
}

impl DirSearchView {
    /// Where the work on candidate `i` begins.
    pub open spec fn first_stage(self, i: nat) -> Stage {
        if i < self.candidates.len() && self.candidates[i as int].shared_parent is Some {
            Stage::Parent
        } else {
            Stage::Dir
        }
    }

    /// What is to be done now.  A shared parent is created world-writable and
    /// sticky, so that several users can each own a private directory in it; the
    /// directory itself is created private.
    pub open spec fn action(self) -> DirActionView {
        if self.at >= self.candidates.len() {
            DirActionView::Failed(
                match self.last_err {
                    Some(e) => e,
                    None => DirErrorView::NoneUsable,
                },
            )
        } else {
            let c = self.candidates[self.at as int];
            match (self.stage, c.shared_parent) {
                (Stage::Parent, Some(parent)) => DirActionView::Mkdir {
                    path: parent,
                    mode: SHARED_DIR_MODE,
                },
                (Stage::Check, _) => DirActionView::Stat { path: c.dir },
                (Stage::Found, _) => DirActionView::Found(c.dir),
                _ => DirActionView::Mkdir { path: c.dir, mode: PRIVATE_DIR_MODE },
            }
        }
    }

    /// The candidate at work has failed: on to the next.
    pub open spec fn next(self, e: DirErrorView) -> DirSearchView {
        DirSearchView {
            at: self.at + 1,
            stage: self.first_stage(self.at + 1),
            last_err: Some(e),
            ..self
        }
    }

    /// Whether the search goes on.
    pub open spec fn running(self) -> bool {
        self.at < self.candidates.len() && self.stage != Stage::Found
    }

    /// What an event makes of the search.  A directory that exists already is as
    /// good as one that was just made.  An event that does not answer the action
    /// that is due changes nothing.
    pub open spec fn on_event(self, event: DirEvent) -> DirSearchView {
        if !self.running() {
            self
        } else {
            match (self.stage, event) {
                (_, DirEvent::Failed(code)) => self.next(DirErrorView::Os(code)),
                (_, DirEvent::BadPath) => self.next(DirErrorView::NulInPath),
                (Stage::Check, DirEvent::Status { owner, mode }) => match distrust(
                    self.candidates[self.at as int].dir,
                    owner,
                    mode,
                    self.uid,
                ) {
                    Some(e) => self.next(e),
                    None => DirSearchView { stage: Stage::Found, ..self },
                },
                (Stage::Parent, DirEvent::Made) => DirSearchView { stage: Stage::Dir, ..self },
                (Stage::Parent, DirEvent::Exists) => DirSearchView { stage: Stage::Dir, ..self },
                (Stage::Dir, DirEvent::Made) => DirSearchView { stage: Stage::Check, ..self },
                (Stage::Dir, DirEvent::Exists) => DirSearchView { stage: Stage::Check, ..self },
                _ => self,
            }
        }
    }
}

/// Starts the search for the directory in which session sockets live.  It tries
/// the candidates in order and ends at the first that can be created and is
/// verified as owned by the user with no group or other access.
pub fn resolve_socket_dir(env: &DirEnv) -> (search: DirSearch)
    ensures
        search@ == (DirSearchView {
            candidates: candidates(*env),
            at: 0,
            stage: search@.first_stage(0),
            last_err: None,
            uid: env.uid,
        }),
{
    let cs = list_candidates(env);
    let stage = first_stage(&cs, 0);
    DirSearch { candidates: cs, at: 0, stage, last_err: None, uid: env.uid }
}

fn first_stage(cs: &Vec<Candidate>, i: usize) -> (stage: Stage)
    ensures
        stage == if i < cs@.len() && cs@[i as int]@.shared_parent is Some {
            Stage::Parent
        } else {
            Stage::Dir
        },
{
    if i < cs.len() && cs[i].shared_parent.is_some() {
        Stage::Parent
    } else {
        Stage::Dir
    }
}

impl DirSearch {
    #[verifier::type_invariant]
    closed spec fn inv(self) -> bool {
        self.at <= self.candidates@.len()
    }

    pub fn action(&self) -> (action: DirAction)
        ensures
            action@ == self@.action(),
    {
        proof {
            use_type_invariant(self);
        }
        if self.at >= self.candidates.len() {
            return match &self.last_err {
                Some(e) => DirAction::Failed(e.copy()),
                None => DirAction::Failed(DirError::NoneUsable),
            };
        }
        let c = &self.candidates[self.at];
        match self.stage {
            Stage::Parent => {
                match &c.shared_parent {
                    Some(parent) => DirAction::Mkdir {
                        path: vstd::slice::slice_to_vec(parent.as_slice()),
                        mode: SHARED_DIR_MODE,
                    },
                    None => DirAction::Mkdir {
                        path: vstd::slice::slice_to_vec(c.dir.as_slice()),
                        mode: PRIVATE_DIR_MODE,
                    },
                }
            },
            Stage::Dir => DirAction::Mkdir {
                path: vstd::slice::slice_to_vec(c.dir.as_slice()),
                mode: PRIVATE_DIR_MODE,
            },
            Stage::Check => DirAction::Stat { path: vstd::slice::slice_to_vec(c.dir.as_slice()) },
            Stage::Found => DirAction::Found(vstd::slice::slice_to_vec(c.dir.as_slice())),
        }
    }

    fn fail(&mut self, e: DirError)
        requires
            old(self).at < old(self).candidates@.len(),
        ensures
            final(self)@ == old(self)@.next(e@),
    {
        assert(self.at < self.candidates.len());
        self.at = self.at + 1;
        self.stage = first_stage(&self.candidates, self.at);
        self.last_err = Some(e);
    }

    pub fn on_event(&mut self, event: DirEvent)
        ensures
            final(self)@ == old(self)@.on_event(event),
    {
        proof {
            use_type_invariant(&*self);
        }
        if self.at >= self.candidates.len() || self.stage == Stage::Found {
            return;
        }
        match event {
            DirEvent::Failed(code) => {
                self.fail(DirError::Os(code));
            },
            DirEvent::BadPath => {
                self.fail(DirError::NulInPath);
            },
            DirEvent::Status { owner, mode } => {
                if self.stage == Stage::Check {
                    match verify_owned_private(
                        self.candidates[self.at].dir.as_slice(),
                        owner,
                        mode,
                        self.uid,
                    ) {
                        Ok(()) => {
                            self.stage = Stage::Found;
                        },
                        Err(e) => {
                            self.fail(e);
                        },
                    }
                }
            },
            DirEvent::Made | DirEvent::Exists => {
                if self.stage == Stage::Parent {
                    self.stage = Stage::Dir;
                } else if self.stage == Stage::Dir {
                    self.stage = Stage::Check;
                }
            },
        }
    }
}

/// What a search finds is a directory, owned by the user and closed to group and
/// other: the step that finds it is the check that says so.
pub proof fn law_found_directory_is_private(search: DirSearchView, event: DirEvent)
    requires
        search.running(),
        search.on_event(event).stage == Stage::Found,
    ensures
        search.stage == Stage::Check,
        event matches DirEvent::Status { owner, mode } && owner == search.uid && mode & FOREIGN_BITS
            == 0 && mode & TYPE_BITS == DIRECTORY_TYPE,
        search.on_event(event).at == search.at,
        search.on_event(event).action() == DirActionView::Found(
            search.candidates[search.at as int].dir,
        ),
{
}

/// Candidates are tried in order: the search goes on to the next one only when
/// the one at work met an error, and it goes back to none.
pub proof fn law_candidates_are_tried_in_order(search: DirSearchView, event: DirEvent)
    ensures
        search.on_event(event).candidates == search.candidates,
        search.on_event(event).at == search.at || (search.running() && search.on_event(event).at
            == search.at + 1 && search.on_event(event).last_err is Some),
{
}

/// What a run of events makes of a search.
pub open spec fn after_events(search: DirSearchView, events: Seq<DirEvent>) -> DirSearchView
    decreases events.len(),
{
    if events.len() == 0 {
        search
    } else {
        after_events(search, events.drop_last()).on_event(events.last())
    }
}

/// Whatever events come: a search that is past a candidate has noted an error, and
/// one that ends without a directory reports the error noted last.  There is always
/// a candidate to try.
pub proof fn law_failure_has_its_error(env: DirEnv, search: DirSearchView, events: Seq<DirEvent>)
    requires
        search.candidates == candidates(env),
        search.at == 0,
    ensures
        search.candidates.len() >= 1,
        ({
            let end = after_events(search, events);
            &&& end.candidates == search.candidates
            &&& end.at > 0 ==> end.last_err is Some
            &&& end.at >= end.candidates.len() ==> (end.action() matches DirActionView::Failed(e)
                && end.last_err == Some(e))
        }),
    decreases events.len(),
{
    if events.len() > 0 {
        law_failure_has_its_error(env, search, events.drop_last());
        law_candidates_are_tried_in_order(
            after_events(search, events.drop_last()),
            events.last(),
        );
    }
}

/// The error that creating a directory met, given what came of it.
pub open spec fn mkdir_error(event: DirEvent) -> Option<DirErrorView> {
    match event {
        DirEvent::Failed(code) => Some(DirErrorView::Os(code)),
        DirEvent::BadPath => Some(DirErrorView::NulInPath),
        _ => None,
    }
}

/// The error that checking a directory met, given what came of looking it up.
pub open spec fn check_error(dir: Seq<u8>, event: DirEvent, uid: u32) -> Option<DirErrorView> {
    match event {
        DirEvent::Failed(code) => Some(DirErrorView::Os(code)),
        DirEvent::BadPath => Some(DirErrorView::NulInPath),
        DirEvent::Status { owner, mode } => distrust(dir, owner, mode, uid),
        _ => None,
    }
}

/// Why candidate `i` does not serve, `None` if it does, where `answers` gives what
/// comes of the action of each stage of each candidate: its shared parent and then
/// the directory itself must be there or be created, and the directory be trusted.
pub open spec fn verdict(
    c: CandidateView,
    i: nat,
    answers: spec_fn(nat, Stage) -> DirEvent,
    uid: u32,
) -> Option<DirErrorView> {
    if c.shared_parent is Some && mkdir_error(answers(i, Stage::Parent)) is Some {
        mkdir_error(answers(i, Stage::Parent))
    } else if mkdir_error(answers(i, Stage::Dir)) is Some {
        mkdir_error(answers(i, Stage::Dir))
    } else {
        check_error(c.dir, answers(i, Stage::Check), uid)
    }
}

/// Whether each answer is one to the action that it belongs to.
pub open spec fn fitting(answers: spec_fn(nat, Stage) -> DirEvent) -> bool {
    &&& forall|i: nat| !(#[trigger] answers(i, Stage::Parent) is Status)
    &&& forall|i: nat| !(#[trigger] answers(i, Stage::Dir) is Status)
    &&& forall|i: nat|
        !(#[trigger] answers(i, Stage::Check) is Made || answers(i, Stage::Check) is Exists)
}

/// A bound on how many actions a search may still ask for.
pub open spec fn actions_left(search: DirSearchView) -> int {
    3 * (search.candidates.len() - search.at) + match search.stage {
        Stage::Parent => 3int,
        Stage::Dir => 2,
        Stage::Check => 1,
        Stage::Found => 0,
    }
}

/// Where a search ends when each of its actions is answered.
pub open spec fn driven(
    search: DirSearchView,
    answers: spec_fn(nat, Stage) -> DirEvent,
) -> DirSearchView
    decreases actions_left(search),
{
    let next = search.on_event(answers(search.at, search.stage));
    if search.running() && 0 <= actions_left(next) < actions_left(search) {
        driven(next, answers)
    } else {
        search
    }
}

proof fn lemma_driven(search: DirSearchView, answers: spec_fn(nat, Stage) -> DirEvent)
    requires
        fitting(answers),
        search.at < search.candidates.len(),
        search.stage == search.first_stage(search.at),
    ensures
        ({
            let c = search.candidates[search.at as int];
            match verdict(c, search.at, answers, search.uid) {
                Some(e) => driven(search, answers) == driven(search.next(e), answers),
                None => driven(search, answers) == (DirSearchView {
                    stage: Stage::Found,
                    ..search
                }),
            }
        }),
{
    reveal_with_fuel(driven, 5);
    let i = search.at;
    let c = search.candidates[i as int];
    assert(!(answers(i, Stage::Parent) is Status));
    assert(!(answers(i, Stage::Dir) is Status));
    assert(!(answers(i, Stage::Check) is Made || answers(i, Stage::Check) is Exists));
    let at_dir = DirSearchView { stage: Stage::Dir, ..search };
    let at_check = DirSearchView { stage: Stage::Check, ..search };
    if c.shared_parent is Some && mkdir_error(answers(i, Stage::Parent)) is None {
        assert(driven(search, answers) == driven(at_dir, answers));
    }
    if mkdir_error(answers(i, Stage::Dir)) is None {
        assert(driven(at_dir, answers) == driven(at_check, answers));
    }
}

/// The search as a whole: it finds the first candidate that serves, and if none does
/// it fails with the error of the last one.
pub proof fn law_first_usable_directory_is_found(
    search: DirSearchView,
    answers: spec_fn(nat, Stage) -> DirEvent,
    k: int,
)
    requires
        fitting(answers),
        search.at <= k < search.candidates.len(),
        search.stage == search.first_stage(search.at),
        forall|j: int|
            search.at <= j < k ==> verdict(
                #[trigger] search.candidates[j],
                j as nat,
                answers,
                search.uid,
            ) is Some,
    ensures
        ({
            let end = driven(search, answers);
            match verdict(search.candidates[k], k as nat, answers, search.uid) {
                None => end.action() == DirActionView::Found(search.candidates[k].dir),
                Some(e) => k == search.candidates.len() - 1 ==> end.action()
                    == DirActionView::Failed(e),
            }
        }),
    decreases k - search.at,
{
    let at = search.at as int;
    lemma_driven(search, answers);
    if at < k {
        assert(verdict(search.candidates[at], at as nat, answers, search.uid) is Some);
        let e = verdict(search.candidates[at], at as nat, answers, search.uid)->Some_0;
        law_first_usable_directory_is_found(search.next(e), answers, k);
    }
}

// ---- sockets ----------------------------------------------------------------

/// Why a session cannot have a socket.
#[derive(Debug, Clone, Copy, PartialEq, Eq, Structural)]
pub enum SocketPathError {
    /// The session name is empty, or contains a separator or a NUL.
    InvalidName,
    /// The path has this many bytes, more than a socket address holds.
    TooLong(usize),
}

impl SocketPathError {
    pub open spec fn spec_message(self) -> Seq<char> {
        match self {
            SocketPathError::InvalidName => "invalid session name"@,
            SocketPathError::TooLong(len) => "socket path too long ("@ + text::decimal_digits(
                len as nat,
            ) + " > "@ + text::decimal_digits(SUN_PATH_MAX as nat)
                + "); set SM_SOCKET_DIR to a shorter path"@,
        }
    }

    pub fn message(&self) -> (message: String)
        ensures
            message@ == self.spec_message(),
    {
        match self {
            SocketPathError::InvalidName => "invalid session name".to_owned(),
            SocketPathError::TooLong(len) => {
                let mut m = "socket path too long (".to_owned();
                m.append(text::decimal(*len as u64).as_str());
                m.append(" > ");
                m.append(text::decimal(SUN_PATH_MAX as u64).as_str());
                m.append("); set SM_SOCKET_DIR to a shorter path");
                m
            },
        }
    }
}

/// Whether a session may have this name.
pub open spec fn valid_name(name: Seq<char>) -> bool {
    name.len() > 0 && !name.contains('/') && !name.contains('\0')
}

pub fn is_valid_name(name: &str) -> (valid: bool)
    ensures
        valid == valid_name(name@),
{
    let chars = text::chars_of(name);
    !chars.is_empty() && !text::contains_char(&chars, '/') && !text::contains_char(&chars, '\0')
}

/// Full path of the socket for `name` inside `dir`, validating the session name
/// and the resulting path length (Unix socket paths are tightly bounded).
pub fn socket_path(dir: &[u8], name: &str) -> (r: Result<Vec<u8>, SocketPathError>)
    ensures
        ({
            let full = path::joined(dir@, path_bytes(name@));
            match r {
                Ok(p) => valid_name(name@) && full.len() <= SUN_PATH_MAX && p@ == full,
                Err(SocketPathError::InvalidName) => !valid_name(name@),
                Err(SocketPathError::TooLong(len)) => valid_name(name@) && full.len()
                    > SUN_PATH_MAX && len == full.len(),
            }
        }),
{
    if !is_valid_name(name) {
        return Err(SocketPathError::InvalidName);
    }
    let full = path::join(dir, name.as_bytes());
    if full.len() > SUN_PATH_MAX {
        return Err(SocketPathError::TooLong(full.len()));
    }
    Ok(full)
}

/// The socket of a session lies directly in the socket directory: its path is the
/// directory, a separator and the name's bytes, and these contain no separator
/// and no NUL.
pub proof fn law_socket_lies_in_its_directory(dir: Seq<u8>, name: Seq<char>)
    requires
        valid_name(name),
    ensures
        !path_bytes(name).contains(path::SLASH),
        !path_bytes(name).contains(0u8),
        path::joined(dir, path_bytes(name)) == if dir.len() == 0 || dir.last() == path::SLASH {
            dir + path_bytes(name)
        } else {
            dir + seq![path::SLASH] + path_bytes(name)
        },
{
    text::lemma_ascii_in_utf8(name, '/');
    text::lemma_ascii_in_utf8(name, '\0');
    let bytes = path_bytes(name);
    if bytes.len() > 0 && bytes[0] == path::SLASH {
        assert(bytes.contains(path::SLASH));
    }
}

/// The mode that marks a session's socket as attached or detached.
pub fn socket_mode(attached: bool) -> (mode: u32)
    ensures
        mode == if attached {
            ATTACHED_MODE
        } else {
            BASE_MODE
        },
{
    let mode: u32 = if attached {
        BASE_MODE | ATTACHED_BIT
    } else {
        BASE_MODE
    };
    assert(0o600u32 | 0o100 == 0o700) by (bit_vector);
    mode
}

// ---- listing ----------------------------------------------------------------

/// `std::time::SystemTime`, carried through and never looked into.
#[verifier::external_type_specification]
#[verifier::external_body]
pub struct ExSystemTime(std::time::SystemTime);

/// One entry of the socket directory.
#[derive(Debug)]
pub struct Entry {
    pub name: String,
    pub is_socket: bool,
    /// The permission bits.
    pub mode: u32,
    pub mtime: Option<std::time::SystemTime>,
    /// The pid that a live server on this socket announced.
    pub pid: Option<u32>,
}

/// One entry in the session listing.
#[derive(Debug)]
pub struct SessionInfo {
    pub name: String,
    /// `*` attached, `-` detached, `?` stale or unresponsive.
    pub status: char,
    pub mtime: Option<std::time::SystemTime>,
    pub pid: Option<u32>,
}

pub open spec fn status_of(mode: u32, pid: Option<u32>) -> char {
    if pid is None {
        '?'
    } else if mode & ATTACHED_BIT != 0 {
        '*'
    } else {
        '-'
    }
}

pub open spec fn info_of(entry: Entry) -> SessionInfo {
    SessionInfo {
        name: entry.name,
        status: status_of(entry.mode, entry.pid),
        mtime: entry.mtime,
        pid: entry.pid,
    }
}

/// Listing reads back from the mode what the server marked with it.
pub proof fn law_status_reads_the_mode(pid: u32)
    ensures
        status_of(ATTACHED_MODE, Some(pid)) == '*',
        status_of(BASE_MODE, Some(pid)) == '-',
{
    assert(0o700u32 & 0o100 != 0 && 0o600u32 & 0o100 == 0) by (bit_vector);
}

/// The sessions among the entries: those that are sockets.
pub open spec fn sessions_of(entries: Seq<Entry>) -> Seq<SessionInfo>
    decreases entries.len(),
{
    if entries.len() == 0 {
        Seq::empty()
    } else {
        let later = sessions_of(entries.drop_first());
        if entries[0].is_socket {
            seq![info_of(entries[0])] + later
        } else {
            later
        }
    }
}

/// The order of names: by their first difference (which for UTF-8 is the order of
/// the bytes).
pub open spec fn name_le(a: Seq<char>, b: Seq<char>) -> bool
    decreases a.len(),
{
    if a.len() == 0 {
        true
    } else if b.len() == 0 {
        false
    } else if a[0] == b[0] {
        name_le(a.drop_first(), b.drop_first())
    } else {
        a[0] < b[0]
    }
}

/// Whether the sessions stand in the order of their names.
pub open spec fn in_name_order(list: Seq<SessionInfo>) -> bool {
    forall|i: int, j: int|
        0 <= i <= j < list.len() ==> name_le(#[trigger] list[i].name@, #[trigger] list[j].name@)
}

/// The sessions of this name, in the order in which they stand.
pub open spec fn named(list: Seq<SessionInfo>, name: Seq<char>) -> Seq<SessionInfo> {
    list.filter(|s: SessionInfo| s.name@ == name)
}

proof fn lemma_name_le_total(a: Seq<char>, b: Seq<char>)
    ensures
        name_le(a, b) || name_le(b, a),
        name_le(a, b) && name_le(b, a) ==> a == b,
        name_le(a, a),
    decreases a.len(),
{
    if a.len() > 0 {
        lemma_name_le_total(a.drop_first(), a.drop_first());
    }
    if a.len() > 0 && b.len() > 0 && a[0] == b[0] {
        lemma_name_le_total(a.drop_first(), b.drop_first());
        if a.drop_first() == b.drop_first() {
            assert(a == seq![a[0]] + a.drop_first());
            assert(b == seq![b[0]] + b.drop_first());
        }
    } else if a.len() == 0 && b.len() == 0 {
        assert(a == b);
    }
}

proof fn lemma_name_le_trans(a: Seq<char>, b: Seq<char>, c: Seq<char>)
    requires
        name_le(a, b),
        name_le(b, c),
    ensures
        name_le(a, c),
    decreases a.len(),
{
    if a.len() > 0 && b.len() > 0 && c.len() > 0 && a[0] == b[0] && b[0] == c[0] {
        lemma_name_le_trans(a.drop_first(), b.drop_first(), c.drop_first());
    }
}

/// Whether name `a` comes before or with name `b`.
fn name_not_after(a: &String, b: &String) -> (le: bool)
    ensures
        le == name_le(a@, b@),
{
    let x = text::chars_of(a.as_str());
    let y = text::chars_of(b.as_str());
    let mut i: usize = 0;
    assert(x@.skip(0) == x@ && y@.skip(0) == y@);
    while i < x.len()
        invariant
            i <= x@.len(),
            i <= y@.len(),
            x@ == a@,
            y@ == b@,
            name_le(x@, y@) == name_le(x@.skip(i as int), y@.skip(i as int)),
        decreases x@.len() - i,
    {
        if i >= y.len() {
            return false;
        }
        let ghost p = x@.skip(i as int);
        let ghost q = y@.skip(i as int);
        assert(p[0] == x@[i as int] && q[0] == y@[i as int]);
        if x[i] != y[i] {
            return x[i] < y[i];
        }
        assert(p.drop_first() == x@.skip(i + 1) && q.drop_first() == y@.skip(i + 1));
        i += 1;
    }
    true
}

/// Puts a session in front of those that are not before it.
fn insert_by_name(list: &mut Vec<SessionInfo>, info: SessionInfo)
    requires
        in_name_order(old(list)@),
    ensures
        in_name_order(final(list)@),
        final(list)@.to_multiset() == old(list)@.to_multiset().insert(info),
        forall|name: Seq<char>|
            #![trigger named(final(list)@, name)]
            named(final(list)@, name) == if info.name@ == name {
                seq![info] + named(old(list)@, name)
            } else {
                named(old(list)@, name)
            },
{
    let ghost before = list@;
    let mut i: usize = 0;
    while i < list.len() && !name_not_after(&info.name, &list[i].name)
        invariant
            i <= list@.len(),
            list@ == before,
            in_name_order(before),
            forall|k: int| 0 <= k < i ==> !name_le(info.name@, #[trigger] before[k].name@),
        ensures
            i <= list@.len(),
            list@ == before,
            in_name_order(before),
            forall|k: int| 0 <= k < i ==> !name_le(info.name@, #[trigger] before[k].name@),
            i < list@.len() ==> name_le(info.name@, before[i as int].name@),
        decreases list@.len() - i,
    {
        i += 1;
    }
    proof {
        lemma_insert(before, i as int, info);
        vstd::seq_lib::to_multiset_insert(before, i as int, info);
    }
    list.insert(i, info);
}

proof fn lemma_insert(list: Seq<SessionInfo>, i: int, info: SessionInfo)
    requires
        in_name_order(list),
        0 <= i <= list.len(),
        forall|k: int| 0 <= k < i ==> !name_le(info.name@, #[trigger] list[k].name@),
        i < list.len() ==> name_le(info.name@, list[i].name@),
    ensures
        in_name_order(list.insert(i, info)),
        forall|name: Seq<char>|
            #![trigger named(list.insert(i, info), name)]
            named(list.insert(i, info), name) == if info.name@ == name {
                seq![info] + named(list, name)
            } else {
                named(list, name)
            },
{
    let out = list.insert(i, info);
    assert forall|a: int, b: int| 0 <= a <= b < out.len() implies name_le(
        #[trigger] out[a].name@,
        #[trigger] out[b].name@,
    ) by {
        lemma_name_le_total(out[a].name@, out[b].name@);
        if a < i && b < i {
            assert(out[a] == list[a] && out[b] == list[b]);
        } else if a < i && b == i {
            assert(out[a] == list[a]);
        } else if a < i {
            assert(out[a] == list[a] && out[b] == list[b - 1]);
            assert(name_le(list[a].name@, list[b - 1].name@));
        } else if a == i && b > i {
            assert(out[b] == list[b - 1]);
            assert(name_le(list[i].name@, list[b - 1].name@));
            lemma_name_le_trans(info.name@, list[i].name@, list[b - 1].name@);
        } else if a > i {
            assert(out[a] == list[a - 1] && out[b] == list[b - 1]);
            assert(name_le(list[a - 1].name@, list[b - 1].name@));
        }
    }
    let head = list.take(i);
    let tail = list.skip(i);
    assert(list == head + tail);
    assert(out == head + (seq![info] + tail));
    assert forall|name: Seq<char>| #[trigger] named(out, name) == if info.name@ == name {
        seq![info] + named(list, name)
    } else {
        named(list, name)
    } by {
        let p = |s: SessionInfo| s.name@ == name;
        Seq::filter_distributes_over_add(head, tail, p);
        Seq::filter_distributes_over_add(seq![info], tail, p);
        Seq::filter_distributes_over_add(head, seq![info] + tail, p);
        lemma_filter_one(info, p);
        if info.name@ == name {
            assert forall|k: int| 0 <= k < head.len() implies !p(#[trigger] head[k]) by {
                lemma_name_le_total(name, name);
                assert(head[k] == list[k]);
            }
            lemma_filter_none(head, p);
            let rest = tail.filter(p);
            assert(Seq::<SessionInfo>::empty() + (seq![info] + rest) == seq![info] + (
            Seq::<SessionInfo>::empty() + rest));
        } else {
            let rest = tail.filter(p);
            assert(Seq::<SessionInfo>::empty() + rest == rest);
        }
    }
}

proof fn lemma_filter_one(info: SessionInfo, p: spec_fn(SessionInfo) -> bool)
    ensures
        seq![info].filter(p) == if p(info) {
            seq![info]
        } else {
            Seq::empty()
        },
{
    reveal(Seq::filter);
    let one = seq![info];
    assert(one.drop_last() == Seq::<SessionInfo>::empty());
    assert(one.last() == info);
    reveal_with_fuel(Seq::filter, 2);
    assert(Seq::<SessionInfo>::empty().push(info) == one);
}

proof fn lemma_filter_none(list: Seq<SessionInfo>, p: spec_fn(SessionInfo) -> bool)
    requires
        forall|k: int| 0 <= k < list.len() ==> !p(#[trigger] list[k]),
    ensures
        list.filter(p) == Seq::<SessionInfo>::empty(),
    decreases list.len(),
{
    reveal(Seq::filter);
    if list.len() > 0 {
        lemma_filter_none(list.drop_last(), p);
    }
}

/// The sessions among the directory's entries, in the order of their names;
/// sessions of one name stay in the order of the entries.
pub fn list_sessions(entries: Vec<Entry>) -> (list: Vec<SessionInfo>)
    ensures
        in_name_order(list@),
        list@.to_multiset() == sessions_of(entries@).to_multiset(),
        forall|name: Seq<char>|
            #![trigger named(list@, name)]
            named(list@, name) == named(sessions_of(entries@), name),
{
    let ghost all = entries@;
    let mut left = entries;
    let mut list: Vec<SessionInfo> = Vec::new();
    assert(all.take(all.len() as int) == all);
    assert(all.skip(all.len() as int) == Seq::<Entry>::empty());
    while left.len() > 0
        invariant
            left@.len() <= all.len(),
            left@ == all.take(left@.len() as int),
            in_name_order(list@),
            list@.to_multiset() == sessions_of(all.skip(left@.len() as int)).to_multiset(),
            forall|name: Seq<char>|
                #![trigger named(list@, name)]
                named(list@, name) == named(sessions_of(all.skip(left@.len() as int)), name),
        decreases left@.len(),
    {
        let entry = left.pop().unwrap();
        let ghost n = left@.len() as int;
        let ghost rest = all.skip(n);
        proof {
            assert(rest[0] == entry);
            assert(rest.drop_first() == all.skip(n + 1));
            assert(left@ == all.take(n));
        }
        if entry.is_socket {
            let status: char = if entry.pid.is_none() {
                '?'
            } else if entry.mode & ATTACHED_BIT != 0 {
                '*'
            } else {
                '-'
            };
            let ghost before = list@;
            let info = SessionInfo { name: entry.name, status, mtime: entry.mtime, pid: entry.pid };
            insert_by_name(&mut list, info);
            proof {
                let later = sessions_of(all.skip(n + 1));
                vstd::seq_lib::to_multiset_insert(later, 0, info);
                assert(later.insert(0, info) == seq![info] + later);
                assert forall|name: Seq<char>| #[trigger] named(list@, name) == named(
                    sessions_of(rest),
                    name,
                ) by {
                    let p = |s: SessionInfo| s.name@ == name;
                    Seq::filter_distributes_over_add(seq![info], later, p);
                    lemma_filter_one(info, p);
                    assert(named(before, name) == named(later, name));
                    assert(Seq::<SessionInfo>::empty() + later.filter(p) == later.filter(p));
                }
            }
        }
    }
    assert(all.skip(0) == all);
    list
}

// ---- liveness ---------------------------------------------------------------

/// The pid that a server announces with the first packet of what it sends; `None`
/// if it sends no such packet.
pub open spec fn announced_pid(received: Seq<u8>) -> Option<u32> {
    match protocol::parse(received) {
        Parsed::Complete { packet: PacketView::Pid(pid), .. } => Some(pid),
        _ => None,
    }
}

/// Given what came from a socket after connecting to it (nothing, if the
/// connection failed): the server's pid, if the server is alive and responsive.
pub fn probe(received: Vec<u8>) -> (pid: Option<u32>)
    ensures
        pid == announced_pid(received@),
{
    let mut reader = ByteReader::new(received);
    match Packet::read_from(&mut reader) {
        Ok(Packet::Pid(pid)) => Some(pid),
        _ => None,
    }
}

/// True if a live server answered on the socket.
pub fn session_alive(received: Vec<u8>) -> (alive: bool)
    ensures
        alive == (announced_pid(received@) is Some),
{
    probe(received).is_some()
}

// ---- more laws --------------------------------------------------------------

/// Whether a variable is set to more than an empty text.
pub open spec fn is_set(var: Option<String>) -> bool {
    var is Some && var->Some_0@.len() > 0
}

/// An empty variable counts as unset, any other has its own value, all of it.
pub proof fn law_variables_have_their_values(var: Option<String>, uid: u32)
    ensures
        is_set(var) <==> var is Some && var->Some_0@.len() > 0,
        set_value(var) is Some <==> var is Some && var->Some_0@.len() > 0,
        is_set(var) ==> set_value(var) == Some(var->Some_0@),
        is_set(var) ==> user_name(var, uid) == var->Some_0@,
        !is_set(var) ==> user_name(var, uid) == text::decimal_digits(uid as nat),
{
}

/// Which directories are tried, and in which order: those of the variables that are
/// set, the socket directory first, then the one in the home directory, then the user's
/// own below the directory for temporary files, and last, always, the one below `/tmp`.
/// Only the last two lie in a directory that is shared.
pub proof fn law_directories_are_tried_in_this_order(env: DirEnv)
    ensures
        ({
            let cs = candidates(env);
            let a: int = if is_set(env.socket_dir) {
                1
            } else {
                0
            };
            let b: int = if is_set(env.home) {
                1
            } else {
                0
            };
            let c: int = if is_set(env.tmpdir) {
                1
            } else {
                0
            };
            let user = vstd::utf8::encode_utf8(
                if is_set(env.user) {
                    env.user->Some_0@
                } else {
                    text::decimal_digits(env.uid as nat)
                },
            );
            let app = vstd::utf8::encode_utf8("sm"@);
            &&& cs.len() == a + b + c + 1
            &&& is_set(env.socket_dir) ==> cs[0] == (CandidateView {
                dir: vstd::utf8::encode_utf8(env.socket_dir->Some_0@),
                shared_parent: None,
            })
            &&& is_set(env.home) ==> cs[a] == (CandidateView {
                dir: path::joined(
                    vstd::utf8::encode_utf8(env.home->Some_0@),
                    vstd::utf8::encode_utf8(".session_manager"@),
                ),
                shared_parent: None,
            })
            &&& is_set(env.tmpdir) ==> {
                let parent = path::joined(vstd::utf8::encode_utf8(env.tmpdir->Some_0@), app);
                cs[a + b] == (CandidateView {
                    dir: path::joined(parent, user),
                    shared_parent: Some(parent),
                })
            }
            &&& {
                let parent = path::joined(vstd::utf8::encode_utf8("/tmp"@), app);
                cs[a + b + c] == (CandidateView {
                    dir: path::joined(parent, user),
                    shared_parent: Some(parent),
                })
            }
        }),
{
}

/// Only a directory is trusted that is the user's own and closed to all others; the
/// owner is looked at first, then the bits for the others, then the type.
pub proof fn law_what_is_trusted(dir: Seq<u8>, owner: u32, mode: u32, uid: u32)
    ensures
        distrust(dir, owner, mode, uid) is None <==> owner == uid && mode & 0o077 == 0 && mode
            & 0o170000 == 0o040000,
        owner != uid ==> distrust(dir, owner, mode, uid) == Some(DirErrorView::NotOwned(dir)),
        owner == uid && mode & 0o077 != 0 ==> distrust(dir, owner, mode, uid) == Some(
            DirErrorView::Accessible(dir),
        ),
        owner == uid && mode & 0o077 == 0 && mode & 0o170000 != 0o040000 ==> distrust(
            dir,
            owner,
            mode,
            uid,
        ) == Some(DirErrorView::NotDirectory(dir)),
{
}

/// What is asked for at each stage: a shared parent is created open to all and sticky,
/// the directory itself open to its owner only, and it is then looked up.
pub proof fn law_what_is_asked_for(search: DirSearchView)
    requires
        search.at < search.candidates.len(),
    ensures
        ({
            let c = search.candidates[search.at as int];
            &&& search.stage == Stage::Parent && c.shared_parent is Some ==> search.action()
                == (DirActionView::Mkdir { path: c.shared_parent->Some_0, mode: 0o1777 })
            &&& search.stage == Stage::Dir ==> search.action() == (DirActionView::Mkdir {
                path: c.dir,
                mode: 0o700,
            })
            &&& search.stage == Stage::Check ==> search.action() == (DirActionView::Stat {
                path: c.dir,
            })
            &&& search.stage == Stage::Found ==> search.action() == DirActionView::Found(c.dir)
            &&& search.first_stage(search.at) == Stage::Parent <==> c.shared_parent is Some
            &&& search.first_stage(search.at) == Stage::Dir <==> c.shared_parent is None
        }),
{
}

/// What an event leads to: an error gives the candidate up and is noted; a directory
/// that was made or was there leads on; nothing else does, and what was found stays.
pub proof fn law_what_events_lead_to(search: DirSearchView, event: DirEvent)
    ensures
        ({
            let t = search.on_event(event);
            &&& t.candidates == search.candidates && t.uid == search.uid
            &&& !(search.at < search.candidates.len()) || search.stage == Stage::Found ==> t
                == search
            &&& search.at < search.candidates.len() && search.stage != Stage::Found ==> {
                &&& event matches DirEvent::Failed(code) ==> t.at == search.at + 1 && t.last_err
                    == Some(DirErrorView::Os(code)) && t.stage == search.first_stage(search.at + 1)
                &&& event is BadPath ==> t.at == search.at + 1 && t.last_err == Some(
                    DirErrorView::NulInPath,
                ) && t.stage == search.first_stage(search.at + 1)
                &&& event is Made || event is Exists ==> t == (DirSearchView {
                    stage: match search.stage {
                        Stage::Parent => Stage::Dir,
                        _ => Stage::Check,
                    },
                    ..search
                })
                &&& event is Status && search.stage != Stage::Check ==> t == search
            }
        }),
{
}

/// A name is valid unless it is empty or has a separator or a NUL in it.
pub proof fn law_valid_names(name: Seq<char>)
    ensures
        valid_name(name) <==> name.len() > 0 && forall|i: int|
            0 <= i < name.len() ==> #[trigger] name[i] != '/' && name[i] != '\0',
        path_bytes(name) == vstd::utf8::encode_utf8(name),
{
    if valid_name(name) {
        assert forall|i: int| 0 <= i < name.len() implies #[trigger] name[i] != '/' && name[i]
            != '\0' by {
            if name[i] == '/' {
                assert(name.contains('/'));
            }
            if name[i] == '\0' {
                assert(name.contains('\0'));
            }
        }
    }
}

/// What the user is told when a socket cannot be had, or a directory cannot serve.
pub proof fn law_refusals_say_why(len: usize, dir: Seq<u8>, code: i32, shown: Seq<char>)
    ensures
        SocketPathError::TooLong(len).spec_message() == "socket path too long ("@
            + text::decimal_digits(len as nat) + " > "@ + text::decimal_digits(103)
            + "); set SM_SOCKET_DIR to a shorter path"@,
        DirErrorView::Os(code).message(shown) == shown,
        DirErrorView::NotOwned(dir).message(shown) == shown
            + " is not owned by the current user"@,
        DirErrorView::Accessible(dir).message(shown) == shown + " is accessible by group/other"@,
        DirErrorView::NotDirectory(dir).message(shown) == shown + " is not a directory"@,
{
}

/// The status in a listing: stale without an answer, whatever the mode; with one,
/// attached exactly if the owner's execute bit is set.
pub proof fn law_what_a_status_says(mode: u32, pid: Option<u32>)
    ensures
        status_of(mode, pid) == '?' <==> pid is None,
        status_of(mode, pid) == '*' <==> pid is Some && mode & 0o100 != 0,
        status_of(mode, pid) == '-' <==> pid is Some && mode & 0o100 == 0,
{
}

/// An entry is listed under its name, with its time and its pid.
pub proof fn law_entries_keep_what_they_say(entry: Entry)
    ensures
        info_of(entry).name@ == entry.name@,
        info_of(entry).mtime == entry.mtime,
        info_of(entry).pid == entry.pid,
        info_of(entry).status == status_of(entry.mode, entry.pid),
{
}

/// Every socket is a session, once, in its place, and nothing else is one.
pub proof fn law_sockets_are_sessions(first: Seq<Entry>, entry: Entry, second: Seq<Entry>)
    ensures
        sessions_of(Seq::<Entry>::empty()).len() == 0,
        entry.is_socket ==> sessions_of(first + seq![entry] + second) == sessions_of(first).push(
            info_of(entry),
        ) + sessions_of(second),
        !entry.is_socket ==> sessions_of(first + seq![entry] + second) == sessions_of(first)
            + sessions_of(second),
    decreases first.len(),
{
    let all = first + seq![entry] + second;
    if first.len() == 0 {
        assert(all.drop_first() == second);
        assert(all[0] == entry);
        assert(Seq::<SessionInfo>::empty().push(info_of(entry)) == seq![info_of(entry)]);
        assert(Seq::<SessionInfo>::empty() + sessions_of(second) == sessions_of(second));
    } else {
        let tail = first.drop_first();
        law_sockets_are_sessions(tail, entry, second);
        assert(all.drop_first() == tail + seq![entry] + second);
        let later = sessions_of(tail);
        let rest = sessions_of(second);
        let head = seq![info_of(first[0])];
        assert((head + later).push(info_of(entry)) + rest == head + (later.push(info_of(entry))
            + rest));
        assert((head + later) + rest == head + (later + rest));
    }
}

/// How names are ordered: by the first character in which they differ; a name comes
/// before any longer one that starts with it.
pub proof fn law_how_names_are_ordered(a: Seq<char>, b: Seq<char>, k: int)
    requires
        0 <= k <= a.len(),
        k <= b.len(),
        forall|i: int| 0 <= i < k ==> #[trigger] a[i] == b[i],
    ensures
        k == a.len() ==> name_le(a, b),
        k == b.len() && k < a.len() ==> !name_le(a, b),
        k < a.len() && k < b.len() && a[k] != b[k] ==> (name_le(a, b) <==> a[k] < b[k]),
    decreases k,
{
    if k > 0 {
        let x = a.drop_first();
        let y = b.drop_first();
        assert(a[0] == b[0]);
        assert forall|i: int| 0 <= i < k - 1 implies #[trigger] x[i] == y[i] by {
            assert(a[i + 1] == b[i + 1]);
        }
        law_how_names_are_ordered(x, y, k - 1);
    }
}

/// The sessions of one name are all that have it, in the order in which they stand.
pub proof fn law_sessions_of_one_name(list: Seq<SessionInfo>, info: SessionInfo, name: Seq<char>)
    ensures
        named(Seq::empty(), name).len() == 0,
        named(list.push(info), name) == if info.name@ == name {
            named(list, name).push(info)
        } else {
            named(list, name)
        },
{
    let p = |s: SessionInfo| s.name@ == name;
    reveal(Seq::filter);
    assert(Seq::<SessionInfo>::empty().filter(p).len() == 0);
    assert(list.push(info).drop_last() == list);
}

/// A listing is in order when no session comes behind one of a later name.
pub proof fn law_listings_are_ordered(list: Seq<SessionInfo>)
    ensures
        in_name_order(list) <==> forall|i: int, j: int|
            0 <= i < j < list.len() ==> name_le(
                #[trigger] list[i].name@,
                #[trigger] list[j].name@,
            ),
{
    if forall|i: int, j: int|
        0 <= i < j < list.len() ==> name_le(#[trigger] list[i].name@, #[trigger] list[j].name@) {
        assert forall|i: int, j: int| 0 <= i <= j < list.len() implies name_le(
            #[trigger] list[i].name@,
            #[trigger] list[j].name@,
        ) by {
            lemma_name_le_total(list[i].name@, list[i].name@);
        }
    }
}

/// A server is alive exactly when the first whole packet that it sent is its pid, and
/// then that is the pid, whatever follows.
pub proof fn law_only_a_pid_proves_life(packet: PacketView, later: Seq<u8>, received: Seq<u8>)
    requires
        packet.fits(),
    ensures
        announced_pid(packet.encode() + later) == match packet {
            PacketView::Pid(pid) => Some(pid),
            _ => None,
        },
        !(protocol::parse(received) is Complete) ==> announced_pid(received) is None,
{
    protocol::law_read_gives_back_write(packet, later);
}

} // verus!
