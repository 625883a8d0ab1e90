//! The launch coordinator: decides whether a launch request spawns at once
//! or waits for user confirmation, and owns the single pending-confirmation
//! slot.
//!
//! The coordinator never spawns by itself: a decision to launch comes back
//! as a `SpawnCommand` value, which the surrounding application turns into
//! an OS process. A request whose executable is already running is deferred
//! instead — the raw command is parked in the pending slot, where a later
//! request overwrites it (latest wins) until `resolve_confirmation` clears
//! it.

use vstd::prelude::*;

use crate::command::decompose;
use crate::command::decompose_spec;
use crate::command::parent_dir;
use crate::command::parent_dir_spec;
use crate::command::program_name;
use crate::command::program_name_spec;
use crate::probe::is_process_running;
use crate::probe::name_in_procs;
use crate::probe::procs_of;
use crate::registry::ProgramDescriptor;
use crate::registry::Registry;
use crate::text::views;

verus! {

/// Why a launch by identifier could not start.
#[derive(Clone, Copy, PartialEq, Eq, Structural, Debug)]
pub enum LookupError {
    /// No descriptor carries the requested identifier. This can genuinely
    /// happen when a trigger fires after its descriptor was deleted.
    NotFound,
}

/// A fully resolved spawn request: what the surrounding application is
/// asked to start.
#[derive(Clone, Debug)]
pub struct SpawnCommand {
    /// The program to start: the resolved executable path, or the raw
    /// command itself when decomposition failed (launching is best effort).
    pub program: String,
    /// The argument list.
    pub args: Vec<String>,
    /// The working directory for the child: the executable's parent
    /// directory, when the path has one.
    pub working_dir: Option<String>,
}

/// A spawn request as specifications see it.
pub struct SpawnView {
    pub program: Seq<char>,
    pub args: Seq<Seq<char>>,
    pub working_dir: Option<Seq<char>>,
}

impl View for SpawnCommand {
    type V = SpawnView;

    open spec fn view(&self) -> SpawnView {
        SpawnView {
            program: self.program@,
            args: views(self.args@),
            working_dir: match self.working_dir {
                Some(d) => Some(d@),
                None => None,
            },
        }
    }
}

/// What force-launching a command starts: the decomposed executable with
/// its arguments and its parent directory as working directory; when
/// decomposition fails, the raw command as-is, best effort.
pub open spec fn spawn_spec(command: Seq<char>, marker_is_file: bool) -> SpawnView {
    match decompose_spec(command, marker_is_file) {
        Ok(pair) => SpawnView {
            program: pair.0,
            args: pair.1,
            working_dir: parent_dir_spec(pair.0),
        },
        Err(_) => SpawnView { program: command, args: Seq::empty(), working_dir: None },
    }
}

/// Resolves a raw command into a spawn request without any duplicate
/// check. `marker_is_file` reports whether the command's marker prefix
/// names a file (see `marker_candidate`).
pub fn force_launch(command: &str, marker_is_file: bool) -> (r: SpawnCommand)
    ensures
        r@ == spawn_spec(command@, marker_is_file),
{
    match decompose(command, marker_is_file) {
        Ok((exe, args)) => {
            let working_dir = parent_dir(exe.as_str());
            SpawnCommand { program: exe, args, working_dir }
        },
        Err(_) => {
            let empty: Vec<String> = Vec::new();
            assert(views(empty@) =~= Seq::<Seq<char>>::empty());
            SpawnCommand { program: command.to_owned(), args: empty, working_dir: None }
        },
    }
}

/// The launch coordinator's state: at most one outstanding confirmation,
/// holding the raw command of the deferred launch request.
#[derive(Debug)]
pub struct Coordinator {
    pub pending: Option<String>,
}

/// The pending slot after one request: a deferred request overwrites
/// whatever was pending — latest wins, no queue — while a request that
/// spawned leaves the slot as it was.
pub open spec fn pending_after(
    before: Option<Seq<char>>,
    command: Seq<char>,
    deferred: bool,
) -> Option<Seq<char>> {
    if deferred {
        Some(command)
    } else {
        before
    }
}

/// Confirmation overwrite: after two deferred requests, only the second
/// command is pending, whatever was pending before.
pub proof fn lemma_confirmation_overwrite(
    before: Option<Seq<char>>,
    first: Seq<char>,
    second: Seq<char>,
)
    ensures
        pending_after(pending_after(before, first, true), second, true) == Some(second),
{
}

impl Coordinator {
    /// The pending command as specifications see it.
    pub open spec fn pending_view(self) -> Option<Seq<char>> {
        match self.pending {
            Some(c) => Some(c@),
            None => None,
        }
    }

    /// A coordinator with nothing pending.
    pub fn new() -> (r: Coordinator)
        ensures
            r.pending_view() is None,
    {
        Coordinator { pending: None }
    }

    /// The launch protocol for one raw command: when the command's
    /// executable name resolves and a process with that name is running,
    /// the request is deferred — the command becomes the pending
    /// confirmation, overwriting any earlier one, and nothing is spawned.
    /// Otherwise the spawn request is returned and the pending slot is left
    /// alone. A command whose name cannot be resolved is spawned best
    /// effort rather than silently dropped.
    pub fn request_launch(
        &mut self,
        sys: &mut sysinfo::System,
        command: &str,
        marker_is_file: bool,
    ) -> (r: Option<SpawnCommand>)
        ensures
            ({
                let deferred = program_name_spec(command@, marker_is_file) matches Some(n)
                    && name_in_procs(procs_of(*final(sys)), n);
                &&& final(self).pending_view() == pending_after(
                    old(self).pending_view(),
                    command@,
                    deferred,
                )
                &&& deferred <==> r is None
                &&& (r matches Some(sc) ==> sc@ == spawn_spec(command@, marker_is_file))
            }),
    {
        match program_name(command, marker_is_file) {
            Some(name) => {
                if is_process_running(sys, name.as_str()) {
                    self.pending = Some(command.to_owned());
                    None
                } else {
                    Some(force_launch(command, marker_is_file))
                }
            },
            None => Some(force_launch(command, marker_is_file)),
        }
    }

    /// Consumes the pending confirmation: on accept, the spawn request for
    /// the pending command comes back; on decline, nothing. Either way the
    /// slot is cleared. `marker_is_file` refers to the pending command.
    pub fn resolve_confirmation(&mut self, accept: bool, marker_is_file: bool) -> (r: Option<
        SpawnCommand,
    >)
        ensures
            final(self).pending_view() is None,
            old(self).pending_view() matches Some(c) ==> accept ==> (r matches Some(sc) && sc@
                == spawn_spec(c, marker_is_file)),
            old(self).pending_view() is None || !accept ==> r is None,
    {
        let r = match &self.pending {
            Some(c) => {
                if accept {
                    Some(force_launch(c.as_str(), marker_is_file))
                } else {
                    None
                }
            },
            None => None,
        };
        self.pending = None;
        r
    }
}

/// The free-standing launch entry point: runs the launch protocol on one
/// raw command against the live process table.
pub fn launch_process(
    coord: &mut Coordinator,
    sys: &mut sysinfo::System,
    command: &str,
    marker_is_file: bool,
) -> (r: Option<SpawnCommand>)
    ensures
        ({
            let deferred = program_name_spec(command@, marker_is_file) matches Some(n)
                && name_in_procs(procs_of(*final(sys)), n);
            &&& final(coord).pending_view() == pending_after(
                old(coord).pending_view(),
                command@,
                deferred,
            )
            &&& deferred <==> r is None
            &&& (r matches Some(sc) ==> sc@ == spawn_spec(command@, marker_is_file))
        }),
{
    coord.request_launch(sys, command, marker_is_file)
}

/// Whether position `i` holds the first descriptor carrying `id`.
pub open spec fn first_match(progs: Seq<ProgramDescriptor>, id: Seq<char>, i: int) -> bool {
    &&& 0 <= i < progs.len()
    &&& progs[i].identifier@ == id
    &&& forall|j: int| 0 <= j < i ==> progs[j].identifier@ != id
}

/// Looks an identifier up in the registry and runs the launch protocol on
/// that descriptor's command. `marker_is_file` refers to that command. An
/// absent identifier is a non-fatal `NotFound`: a trigger may fire after
/// its descriptor was deleted.
pub fn launch_by_identifier(
    coord: &mut Coordinator,
    sys: &mut sysinfo::System,
    reg: &Registry,
    identifier: &str,
    marker_is_file: bool,
) -> (r: Result<Option<SpawnCommand>, LookupError>)
    ensures
        r matches Err(e) ==> e == LookupError::NotFound && final(coord).pending_view() == old(
            coord,
        ).pending_view() && forall|j: int|
            0 <= j < reg.programs@.len() ==> reg.programs@[j].identifier@ != identifier@,
        r matches Ok(action) ==> exists|i: int|
            #[trigger] first_match(reg.programs@, identifier@, i) && ({
                let command = reg.programs@[i].command@;
                let deferred = program_name_spec(command, marker_is_file) matches Some(n)
                    && name_in_procs(procs_of(*final(sys)), n);
                &&& final(coord).pending_view() == pending_after(
                    old(coord).pending_view(),
                    command,
                    deferred,
                )
                &&& deferred <==> action is None
                &&& (action matches Some(sc) ==> sc@ == spawn_spec(command, marker_is_file))
            }),
{
    match reg.find_by_identifier(identifier) {
        Some(i) => {
            let command = reg.programs[i].command.clone();
            let action = coord.request_launch(sys, command.as_str(), marker_is_file);
            assert(first_match(reg.programs@, identifier@, i as int));
            Ok(action)
        },
        None => Err(LookupError::NotFound),
    }
}

} // verus!
