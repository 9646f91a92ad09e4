use vstd::prelude::*;
use vstd::string::StrSliceExecFns;
use crate::LspError;

verus! {

/// Lifecycle of the server.
#[derive(Debug, Clone, Copy, PartialEq, Eq, Structural)]
pub enum ServerState {
    Uninitialized,
    Initializing,
    Running,
    ShuttingDown,
    Exited,
}

/// A decoded protocol message, by what it asks for.
#[derive(Debug, Clone, Copy, PartialEq, Eq, Structural)]
pub enum Event {
    /// The `initialize` request.
    Initialize,
    /// The `initialized` notification.
    Initialized,
    /// The `shutdown` request.
    Shutdown,
    /// The `exit` notification.
    Exit,
    /// A `textDocument/definition` request.
    Definition,
    /// The `workspace/didCreateFiles` notification.
    FilesCreated,
    /// The `workspace/didRenameFiles` notification.
    FilesRenamed,
    /// The `workspace/didDeleteFiles` notification.
    FilesDeleted,
    /// Any other request.
    OtherRequest,
    /// Any other notification, or a response.
    OtherNotification,
}

/// What the message loop does in answer to an event.
#[derive(Debug, Clone, Copy, PartialEq, Eq, Structural)]
pub enum Action {
    /// Resolve the workspace roots, build the index and reply with the capabilities.
    Initialize,
    /// Nothing to do but note that the client is ready.
    Ready,
    /// Answer the definition request from the index.
    ResolveDefinition,
    /// Index the created files.
    IndexCreated,
    /// Purge the old paths of the renamed files and index the new ones.
    IndexRenamed,
    /// Purge the deleted files.
    PurgeDeleted,
    /// Answer the shutdown request with an empty success.
    ReplyShutdown,
    /// Answer the request with a "method not found" error.
    MethodNotFound,
    /// Answer the request with an "invalid request" error: the server is not
    /// initialized, or is shutting down.
    RejectRequest,
    /// Stop the process with the given exit status.
    Terminate(i32),
    /// Log the message and go on.
    Ignore,
}

/// One step of the server: the next state and the action for an event.
pub open spec fn transition(s: ServerState, e: Event) -> (ServerState, Action) {
    match (s, e) {
        (ServerState::Exited, _) => (ServerState::Exited, Action::Ignore),
        (ServerState::ShuttingDown, Event::Exit) => (ServerState::Exited, Action::Terminate(0)),
        (_, Event::Exit) => (ServerState::Exited, Action::Terminate(1)),
        (ServerState::Uninitialized, Event::Initialize) => (
            ServerState::Initializing,
            Action::Initialize,
        ),
        (ServerState::Initializing, Event::Initialized) => (ServerState::Running, Action::Ready),
        (ServerState::Running, Event::Definition) => (
            ServerState::Running,
            Action::ResolveDefinition,
        ),
        (ServerState::Running, Event::FilesCreated) => (ServerState::Running, Action::IndexCreated),
        (ServerState::Running, Event::FilesRenamed) => (ServerState::Running, Action::IndexRenamed),
        (ServerState::Running, Event::FilesDeleted) => (ServerState::Running, Action::PurgeDeleted),
        (ServerState::Running, Event::Shutdown) => (
            ServerState::ShuttingDown,
            Action::ReplyShutdown,
        ),
        (ServerState::Running, Event::OtherRequest) => (
            ServerState::Running,
            Action::MethodNotFound,
        ),
        (
            _,
            Event::Initialize,
        ) | (_, Event::Shutdown) | (_, Event::Definition) | (_, Event::OtherRequest) => (
            s,
            Action::RejectRequest,
        ),
        _ => (s, Action::Ignore),
    }
}

/// Decides the next state and the action for one event.
pub fn step(s: ServerState, e: Event) -> (r: (ServerState, Action))
    ensures
        r == transition(s, e),
{
    match (s, e) {
        (ServerState::Exited, _) => (ServerState::Exited, Action::Ignore),
        (ServerState::ShuttingDown, Event::Exit) => (ServerState::Exited, Action::Terminate(0)),
        (_, Event::Exit) => (ServerState::Exited, Action::Terminate(1)),
        (ServerState::Uninitialized, Event::Initialize) => (
            ServerState::Initializing,
            Action::Initialize,
        ),
        (ServerState::Initializing, Event::Initialized) => (ServerState::Running, Action::Ready),
        (ServerState::Running, Event::Definition) => (
            ServerState::Running,
            Action::ResolveDefinition,
        ),
        (ServerState::Running, Event::FilesCreated) => (ServerState::Running, Action::IndexCreated),
        (ServerState::Running, Event::FilesRenamed) => (ServerState::Running, Action::IndexRenamed),
        (ServerState::Running, Event::FilesDeleted) => (ServerState::Running, Action::PurgeDeleted),
        (ServerState::Running, Event::Shutdown) => (
            ServerState::ShuttingDown,
            Action::ReplyShutdown,
        ),
        (ServerState::Running, Event::OtherRequest) => (
            ServerState::Running,
            Action::MethodNotFound,
        ),
        (
            _,
            Event::Initialize,
        ) | (_, Event::Shutdown) | (_, Event::Definition) | (_, Event::OtherRequest) => (
            s,
            Action::RejectRequest,
        ),
        _ => (s, Action::Ignore),
    }
}

/// The process ends with status 0 exactly when `exit` follows an accepted
/// `shutdown`; any other `exit` ends it with a non-zero status.
pub proof fn lemma_exit_status(s: ServerState)
    requires
        s != ServerState::Exited,
    ensures
        transition(s, Event::Exit).0 == ServerState::Exited,
        transition(s, Event::Exit).1 == Action::Terminate(0) <==> s == ServerState::ShuttingDown,
        s != ServerState::ShuttingDown ==> (exists|c: i32|
            c != 0 && transition(s, Event::Exit).1 == Action::Terminate(c)),
{
    if s != ServerState::ShuttingDown {
        assert(transition(s, Event::Exit).1 == Action::Terminate(1));
    }
}

/// A definition request while running is always answered from the index and
/// leaves the server running: a symbol that resolves to nothing gets an empty
/// answer, never an error, and later messages are handled as before.
pub proof fn lemma_definition_keeps_running()
    ensures
        transition(ServerState::Running, Event::Definition) == (
            ServerState::Running,
            Action::ResolveDefinition,
        ),
{
}

/// Once shutting down, no request starts new work: every request but `exit`
/// is rejected and the state stays.
pub proof fn lemma_no_work_after_shutdown(e: Event)
    requires
        e != Event::Exit,
    ensures
        transition(ServerState::ShuttingDown, e).0 == ServerState::ShuttingDown,
        transition(ServerState::ShuttingDown, e).1 == Action::RejectRequest || transition(
            ServerState::ShuttingDown,
            e,
        ).1 == Action::Ignore,
{
}

/// A workspace folder that the client offered: the scheme of its URI, and
/// the local path that the URI converts to, if any.
pub struct Folder {
    pub scheme: String,
    pub path: Option<String>,
}

pub open spec fn file_scheme() -> Seq<char> {
    seq!['f', 'i', 'l', 'e']
}

/// The local paths of the folders with the `file` scheme, in order.
pub open spec fn local_paths(fs: Seq<Folder>) -> Seq<Seq<char>>
    decreases fs.len(),
{
    if fs.len() == 0 {
        Seq::empty()
    } else {
        let rest = local_paths(fs.drop_last());
        let f = fs.last();
        if f.scheme@ == file_scheme() && f.path is Some {
            rest.push(f.path->Some_0@)
        } else {
            rest
        }
    }
}

fn is_file_scheme(s: &String) -> (r: bool)
    ensures
        r == (s@ == file_scheme()),
{
    let text = s.as_str();
    if text.unicode_len() != 4 {
        return false;
    }
    let r = text.get_char(0) == 'f' && text.get_char(1) == 'i' && text.get_char(2) == 'l'
        && text.get_char(3) == 'e';
    assert(r ==> s@ =~= file_scheme());
    r
}

/// The workspace roots: the local paths of the folders with the `file`
/// scheme, or, when there are none, the current directory; an error when
/// that is unknown too.
pub fn workspace_roots(folders: &Vec<Folder>, current_dir: Option<String>) -> (r: Result<
    Vec<String>,
    LspError,
>)
    ensures
        local_paths(folders@).len() > 0 ==> r is Ok && r->Ok_0@.map_values(|s: String| s@)
            == local_paths(folders@),
        local_paths(folders@).len() == 0 && current_dir is Some ==> r is Ok && r->Ok_0@.map_values(
            |s: String| s@,
        ) == seq![current_dir->Some_0@],
        local_paths(folders@).len() == 0 && current_dir is None ==> r == Err::<
            Vec<String>,
            LspError,
        >(LspError::WorkspaceError),
{
    let mut roots: Vec<String> = Vec::new();
    let mut i: usize = 0;
    while i < folders.len()
        invariant
            i <= folders@.len(),
            roots@.map_values(|s: String| s@) == local_paths(folders@.take(i as int)),
        decreases folders@.len() - i,
    {
        assert(folders@.take(i + 1).drop_last() =~= folders@.take(i as int));
        let f = &folders[i];
        if is_file_scheme(&f.scheme) {
            match &f.path {
                Some(p) => {
                    let ghost before = roots@;
                    roots.push(p.clone());
                    assert(roots@.map_values(|s: String| s@) =~= before.map_values(
                        |s: String| s@,
                    ).push(p@));
                },
                None => {},
            }
        }
        i = i + 1;
    }
    assert(folders@.take(folders@.len() as int) =~= folders@);
    if roots.len() > 0 {
        return Ok(roots);
    }
    match current_dir {
        Some(d) => {
            let mut r: Vec<String> = Vec::new();
            r.push(d);
            assert(r@.map_values(|s: String| s@) =~= seq![r@[0]@]);
            Ok(r)
        },
        None => Err(LspError::WorkspaceError),
    }
}

} // verus!
