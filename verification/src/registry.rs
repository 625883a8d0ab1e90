//! The program registry: the ordered collection of program descriptors and
//! the kill list, with the migration and repair passes that establish its
//! invariant — every descriptor carries a unique identifier.
//!
//! The registry itself does no file I/O. Deserialization of persisted state
//! happens outside; the legacy-schema values arrive here as
//! `LegacyDescriptor`s and are migrated by pure, verified code. Where a pass
//! depends on the file system (does a command's executable exist on disk?),
//! the caller probes the disk and hands the answers in as plain flags.

use vstd::prelude::*;

use crate::command::program_name;
use crate::command::program_name_spec;
use crate::ident::is_first_free;
use crate::ident::lemma_first_free_nonempty;
use crate::ident::lemma_first_free_not_used;
use crate::ident::lemma_no_dup_push;
use crate::ident::sanitize_identifier;
use crate::ident::sanitize_spec;
use crate::ident::uniquify;
use crate::text::views;

verus! {

/// When a descriptor's program launches: right when the registry is
/// activated, or only on an explicit external trigger.
#[derive(Clone, Copy, PartialEq, Eq, Structural, Debug)]
pub enum LaunchTrigger {
    OnLoad,
    OnDemand,
}

/// One managed external program.
#[derive(Clone, Debug)]
pub struct ProgramDescriptor {
    /// Short sanitized token, unique within a registry once migration or
    /// repair has run; trigger and cache names derive from it.
    pub identifier: String,
    /// Human-readable label; backfilled from the executable's file name
    /// when empty.
    pub display_name: String,
    /// The raw, unparsed launch string: path plus optional arguments.
    pub command: String,
    /// When the program launches.
    pub trigger: LaunchTrigger,
    /// Whether the process matching this descriptor's executable name joins
    /// the shutdown kill set.
    pub close_on_unload: bool,
    /// Whether an external quick-launch surface should expose this
    /// descriptor.
    pub visible_in_launcher: bool,
}

/// A descriptor as the legacy persisted schema wrote it: its `name` may
/// still carry an executable extension and spaces.
#[derive(Clone, Debug)]
pub struct LegacyDescriptor {
    pub name: String,
    pub display_name: String,
    pub command: String,
    pub trigger: LaunchTrigger,
    pub close_on_unload: bool,
    pub visible_in_launcher: bool,
}

/// The in-memory configuration: descriptors in display order, plus the
/// names of processes to terminate unconditionally at teardown.
#[derive(Clone, Debug)]
pub struct Registry {
    pub programs: Vec<ProgramDescriptor>,
    pub kill_list: Vec<String>,
}

/// A descriptor as specifications see it: each string as its character
/// sequence.
pub struct DescView {
    pub identifier: Seq<char>,
    pub display_name: Seq<char>,
    pub command: Seq<char>,
    pub trigger: LaunchTrigger,
    pub close_on_unload: bool,
    pub visible_in_launcher: bool,
}

impl View for ProgramDescriptor {
    type V = DescView;

    open spec fn view(&self) -> DescView {
        DescView {
            identifier: self.identifier@,
            display_name: self.display_name@,
            command: self.command@,
            trigger: self.trigger,
            close_on_unload: self.close_on_unload,
            visible_in_launcher: self.visible_in_launcher,
        }
    }
}

/// The views of a descriptor sequence.
pub open spec fn desc_views(progs: Seq<ProgramDescriptor>) -> Seq<DescView> {
    progs.map_values(|p: ProgramDescriptor| p@)
}

/// The identifiers of a descriptor sequence, in order.
pub open spec fn ids(progs: Seq<ProgramDescriptor>) -> Seq<Seq<char>> {
    progs.map_values(|p: ProgramDescriptor| p.identifier@)
}

impl Registry {
    /// The registry invariant: identifiers are pairwise distinct.
    pub open spec fn wf(self) -> bool {
        ids(self.programs@).no_duplicates()
    }

    /// An empty registry.
    pub fn new() -> (r: Registry)
        ensures
            r.programs@.len() == 0,
            r.kill_list@.len() == 0,
            r.wf(),
    {
        let r = Registry { programs: Vec::new(), kill_list: Vec::new() };
        assert(ids(r.programs@) =~= Seq::<Seq<char>>::empty());
        r
    }
}

/// The default for a descriptor's launcher visibility: shown.
pub fn default_true() -> (r: bool)
    ensures
        r,
{
    true
}

// --- migration from the legacy schema ---

/// Whether a legacy name still carries one of the executable extensions,
/// written exactly in lower case, at its end.
pub open spec fn ends_with_marker(name: Seq<char>) -> bool {
    name.len() >= 4 && {
        let tail = name.skip(name.len() - 4);
        tail == seq!['.', 'e', 'x', 'e'] || tail == seq!['.', 'c', 'o', 'm'] || tail == seq![
            '.',
            'b',
            'a',
            't',
        ]
    }
}

/// A legacy name with its trailing executable extension removed, when it
/// has one.
pub open spec fn stripped_name(name: Seq<char>) -> Seq<char> {
    if ends_with_marker(name) {
        name.take(name.len() - 4)
    } else {
        name
    }
}

/// The identifier a legacy descriptor migrates to, before uniquification:
/// its name without a trailing executable extension, sanitized.
pub open spec fn migrate_id_spec(legacy: LegacyDescriptor) -> Seq<char> {
    sanitize_spec(stripped_name(legacy.name@))
}

/// The display name a legacy descriptor migrates to: its own when set,
/// else the executable's file name, else the migrated identifier.
pub open spec fn migrate_display_spec(legacy: LegacyDescriptor, marker_is_file: bool) -> Seq<
    char,
> {
    if legacy.display_name@.len() > 0 {
        legacy.display_name@
    } else {
        match program_name_spec(legacy.command@, marker_is_file) {
            Some(n) => n,
            None => migrate_id_spec(legacy),
        }
    }
}

fn ends_with_marker_exec(name: &str) -> (r: bool)
    ensures
        r == ends_with_marker(name@),
{
    let len = name.unicode_len();
    if len < 4 {
        return false;
    }
    let c0 = name.get_char(len - 4);
    let c1 = name.get_char(len - 3);
    let c2 = name.get_char(len - 2);
    let c3 = name.get_char(len - 1);
    let r = (c0 == '.' && c1 == 'e' && c2 == 'x' && c3 == 'e') || (c0 == '.' && c1 == 'c' && c2
        == 'o' && c3 == 'm') || (c0 == '.' && c1 == 'b' && c2 == 'a' && c3 == 't');
    proof {
        let tail = name@.skip(name@.len() - 4);
        assert(tail.len() == 4);
        assert(tail[0] == c0 && tail[1] == c1 && tail[2] == c2 && tail[3] == c3);
        if r {
            assert(ends_with_marker(name@)) by {
                if c1 == 'e' {
                    assert(tail =~= seq!['.', 'e', 'x', 'e']);
                } else if c1 == 'c' {
                    assert(tail =~= seq!['.', 'c', 'o', 'm']);
                } else {
                    assert(tail =~= seq!['.', 'b', 'a', 't']);
                }
            }
        } else {
            assert(tail != seq!['.', 'e', 'x', 'e'] && tail != seq!['.', 'c', 'o', 'm'] && tail
                != seq!['.', 'b', 'a', 't']) by {
                assert(seq!['.', 'e', 'x', 'e'][0] == '.' && seq!['.', 'e', 'x', 'e'][1] == 'e'
                    && seq!['.', 'e', 'x', 'e'][2] == 'x' && seq!['.', 'e', 'x', 'e'][3] == 'e');
                assert(seq!['.', 'c', 'o', 'm'][0] == '.' && seq!['.', 'c', 'o', 'm'][1] == 'c'
                    && seq!['.', 'c', 'o', 'm'][2] == 'o' && seq!['.', 'c', 'o', 'm'][3] == 'm');
                assert(seq!['.', 'b', 'a', 't'][0] == '.' && seq!['.', 'b', 'a', 't'][1] == 'b'
                    && seq!['.', 'b', 'a', 't'][2] == 'a' && seq!['.', 'b', 'a', 't'][3] == 't');
            }
        }
    }
    r
}

/// Migrates one legacy descriptor: strips a trailing executable extension
/// from its name and sanitizes it, and backfills an empty display name from
/// the command's executable file name. The identifier is not yet unique;
/// `migrate_config` uniquifies across the whole set.
pub fn migrate_descriptor(legacy: &LegacyDescriptor, marker_is_file: bool) -> (r:
    ProgramDescriptor)
    ensures
        r.identifier@ == migrate_id_spec(*legacy),
        r.display_name@ == migrate_display_spec(*legacy, marker_is_file),
        r.command@ == legacy.command@,
        r.trigger == legacy.trigger,
        r.close_on_unload == legacy.close_on_unload,
        r.visible_in_launcher == legacy.visible_in_launcher,
{
    let name_len = legacy.name.as_str().unicode_len();
    let base = if ends_with_marker_exec(legacy.name.as_str()) {
        legacy.name.as_str().substring_char(0, name_len - 4)
    } else {
        legacy.name.as_str()
    };
    assert(base@ == stripped_name(legacy.name@)) by {
        if ends_with_marker(legacy.name@) {
            assert(legacy.name@.subrange(0, legacy.name@.len() - 4) =~= legacy.name@.take(
                legacy.name@.len() - 4,
            ));
        }
    }
    let identifier = sanitize_identifier(base);
    let display_name = if !legacy.display_name.as_str().is_empty() {
        legacy.display_name.clone()
    } else {
        match program_name(legacy.command.as_str(), marker_is_file) {
            Some(n) => n,
            None => identifier.clone(),
        }
    };
    ProgramDescriptor {
        identifier,
        display_name,
        command: legacy.command.clone(),
        trigger: legacy.trigger,
        close_on_unload: legacy.close_on_unload,
        visible_in_launcher: legacy.visible_in_launcher,
    }
}

/// Whether a migrated descriptor matches its legacy source except for the
/// final, uniquified identifier.
pub open spec fn migrated_from(
    d: ProgramDescriptor,
    legacy: LegacyDescriptor,
    marker_is_file: bool,
) -> bool {
    &&& d.display_name@ == migrate_display_spec(legacy, marker_is_file)
    &&& d.command@ == legacy.command@
    &&& d.trigger == legacy.trigger
    &&& d.close_on_unload == legacy.close_on_unload
    &&& d.visible_in_launcher == legacy.visible_in_launcher
}

/// Migrates a whole legacy configuration: each descriptor is migrated in
/// order and its identifier made unique against those already assigned, so
/// the result is deterministic for a given legacy input and satisfies the
/// registry invariant. `marker_flags[i]` reports whether descriptor `i`'s
/// marker prefix (see `marker_candidate`) names a file on disk.
pub fn migrate_config(
    legacy: &Vec<LegacyDescriptor>,
    kill_list: Vec<String>,
    marker_flags: &Vec<bool>,
) -> (r: Registry)
    requires
        marker_flags@.len() == legacy@.len(),
    ensures
        r.kill_list == kill_list,
        r.programs@.len() == legacy@.len(),
        forall|i: int|
            0 <= i < legacy@.len() ==> migrated_from(
                r.programs@[i],
                legacy@[i],
                marker_flags@[i],
            ),
        forall|i: int|
            0 <= i < legacy@.len() ==> is_first_free(
                migrate_id_spec(legacy@[i]),
                ids(r.programs@.take(i)),
                r.programs@[i].identifier@,
            ),
        r.wf(),
{
    let n = legacy.len();
    let mut programs: Vec<ProgramDescriptor> = Vec::new();
    let mut used: Vec<String> = Vec::new();
    let mut i: usize = 0;
    while i < n
        invariant
            i <= n,
            n == legacy@.len(),
            marker_flags@.len() == n,
            programs@.len() == i,
            used@.len() == i,
            forall|j: int| 0 <= j < i ==> used@[j]@ == programs@[j].identifier@,
            forall|j: int|
                0 <= j < i ==> migrated_from(programs@[j], legacy@[j], marker_flags@[j]),
            forall|j: int|
                0 <= j < i ==> is_first_free(
                    migrate_id_spec(legacy@[j]),
                    ids(programs@.take(j)),
                    programs@[j].identifier@,
                ),
            ids(programs@).no_duplicates(),
        decreases n - i,
    {
        let ghost old_programs = programs@;
        let mut d = migrate_descriptor(&legacy[i], marker_flags[i]);
        let unique_id = uniquify(d.identifier.as_str(), &used);
        proof {
            assert(views(used@) =~= ids(programs@));
        }
        d.identifier = unique_id;
        let ghost new_id = d.identifier@;
        used.push(d.identifier.clone());
        programs.push(d);
        proof {
            assert(ids(programs@) =~= ids(old_programs).push(new_id));
            lemma_first_free_not_used(migrate_id_spec(legacy@[i as int]), ids(old_programs), new_id);
            lemma_no_dup_push(ids(old_programs), new_id);
            assert(programs@.take(i as int) =~= old_programs);
            assert forall|j: int|
                0 <= j < i + 1 implies is_first_free(
                migrate_id_spec(legacy@[j]),
                ids(programs@.take(j)),
                programs@[j].identifier@,
            ) by {
                assert(programs@.take(j) =~= old_programs.take(j));
                if j < i {
                    assert(is_first_free(
                        migrate_id_spec(legacy@[j]),
                        ids(old_programs.take(j)),
                        old_programs[j].identifier@,
                    ));
                    assert(programs@[j] == old_programs[j]);
                } else {
                    assert(old_programs.take(j) =~= old_programs);
                }
            }
        }
        i += 1;
    }
    Registry { programs, kill_list }
}

// --- validation and repair ---

/// What the caller observed on disk for one descriptor: whether the marker
/// prefix of its command names a file (see `marker_candidate`), and whether
/// the executable that `decompose` then resolves exists.
#[derive(Clone, Copy, PartialEq, Eq, Structural, Debug)]
pub struct FsProbe {
    pub marker_is_file: bool,
    pub exe_exists: bool,
}

/// Whether repair keeps a descriptor: dropped exactly when its command
/// decomposes and the resolved executable does not exist on disk.
pub open spec fn repair_keeps(d: DescView, probe: FsProbe) -> bool {
    match crate::command::decompose_spec(d.command, probe.marker_is_file) {
        Ok(_) => probe.exe_exists,
        Err(_) => true,
    }
}

/// The display name after repair: unchanged when set, else the executable's
/// file name, else the descriptor's identifier as it stood.
pub open spec fn repaired_display(d: DescView, probe: FsProbe) -> Seq<char> {
    if d.display_name.len() > 0 {
        d.display_name
    } else {
        match program_name_spec(d.command, probe.marker_is_file) {
            Some(n) => n,
            None => d.identifier,
        }
    }
}

/// The identifier a repair falls back to when nothing non-empty can be
/// derived from the descriptor at all.
pub open spec fn fallback_identifier() -> Seq<char> {
    seq!['p', 'r', 'o', 'g', 'r', 'a', 'm']
}

/// The identifier after repair, before uniquification: unchanged when set,
/// else the sanitized executable file name, else the sanitized repaired
/// display name, else — when even that is empty — a fixed non-empty token,
/// so the registry invariant can hold of every descriptor.
pub open spec fn repaired_id_base(d: DescView, probe: FsProbe) -> Seq<char> {
    if d.identifier.len() > 0 {
        d.identifier
    } else {
        let derived = match program_name_spec(d.command, probe.marker_is_file) {
            Some(n) => sanitize_spec(n),
            None => sanitize_spec(repaired_display(d, probe)),
        };
        if derived.len() == 0 {
            fallback_identifier()
        } else {
            derived
        }
    }
}

/// Whether repair backfills one of the descriptor's empty fields.
pub open spec fn repair_backfills(d: DescView) -> bool {
    d.display_name.len() == 0 || d.identifier.len() == 0
}

/// One descriptor after repair, its identifier not yet uniquified.
pub open spec fn repaired_one(d: DescView, probe: FsProbe) -> DescView {
    DescView {
        identifier: repaired_id_base(d, probe),
        display_name: repaired_display(d, probe),
        command: d.command,
        trigger: d.trigger,
        close_on_unload: d.close_on_unload,
        visible_in_launcher: d.visible_in_launcher,
    }
}

/// The descriptor sequence after the keep/backfill pass, identifiers not
/// yet uniquified.
pub open spec fn repaired_seq(progs: Seq<DescView>, probes: Seq<FsProbe>) -> Seq<DescView>
    decreases progs.len(),
{
    if progs.len() == 0 {
        Seq::empty()
    } else {
        let init = repaired_seq(progs.drop_last(), probes.drop_last());
        if repair_keeps(progs.last(), probes.last()) {
            init.push(repaired_one(progs.last(), probes.last()))
        } else {
            init
        }
    }
}

/// Whether the keep/backfill pass changes anything: a descriptor dropped,
/// or an empty field backfilled.
pub open spec fn any_repair(progs: Seq<DescView>, probes: Seq<FsProbe>) -> bool
    decreases progs.len(),
{
    if progs.len() == 0 {
        false
    } else {
        any_repair(progs.drop_last(), probes.drop_last()) || !repair_keeps(
            progs.last(),
            probes.last(),
        ) || repair_backfills(progs.last())
    }
}

/// Repair always derives a non-empty identifier: the identifier as it
/// stood, the sanitized executable file name or display name, or the fixed
/// fallback token. Together with `lemma_first_free_nonempty`, the registry
/// invariant — identifiers non-empty and unique — holds after repair.
pub proof fn lemma_repaired_id_nonempty(d: DescView, probe: FsProbe)
    ensures
        repaired_id_base(d, probe).len() > 0,
{
    assert(fallback_identifier().len() == 7);
}

/// Whether two descriptor views agree on everything but the identifier.
pub open spec fn same_but_id(a: DescView, b: DescView) -> bool {
    &&& a.display_name == b.display_name
    &&& a.command == b.command
    &&& a.trigger == b.trigger
    &&& a.close_on_unload == b.close_on_unload
    &&& a.visible_in_launcher == b.visible_in_launcher
}

impl Registry {
    /// Drops descriptors whose resolved executable does not exist,
    /// backfills empty display names and identifiers from the command's
    /// executable file name, and re-uniquifies all identifiers. Reports
    /// whether anything changed, so the caller can decide to persist.
    /// `probes[i]` carries what the caller observed on disk for descriptor
    /// `i`.
    pub fn validate_and_repair(&mut self, probes: &Vec<FsProbe>) -> (changed: bool)
        requires
            probes@.len() == old(self).programs@.len(),
        ensures
            final(self).kill_list == old(self).kill_list,
            ({
                let fixed = repaired_seq(desc_views(old(self).programs@), probes@);
                &&& final(self).programs@.len() == fixed.len()
                &&& forall|i: int|
                    0 <= i < fixed.len() ==> same_but_id(final(self).programs@[i]@, fixed[i])
                &&& forall|i: int|
                    0 <= i < fixed.len() ==> is_first_free(
                        fixed[i].identifier,
                        ids(final(self).programs@.take(i)),
                        final(self).programs@[i].identifier@,
                    )
                &&& final(self).wf()
                &&& forall|i: int|
                    0 <= i < fixed.len() ==> final(self).programs@[i].identifier@.len() > 0
                &&& changed == (any_repair(desc_views(old(self).programs@), probes@)
                    || exists|i: int|
                    0 <= i < fixed.len() && final(self).programs@[i].identifier@ != fixed[
                        i
                    ].identifier)
            }),
    {
        let ghost gprogs = desc_views(self.programs@);
        let n = self.programs.len();
        let mut out: Vec<ProgramDescriptor> = Vec::new();
        let mut used: Vec<String> = Vec::new();
        let mut changed = false;
        let mut i: usize = 0;
        proof {
            assert(repaired_seq(gprogs.take(0), probes@.take(0)) =~= Seq::<DescView>::empty());
            assert(ids(out@) =~= Seq::<Seq<char>>::empty());
        }
        while i < n
            invariant
                i <= n,
                n == self.programs@.len(),
                self.programs@ == old(self).programs@,
                self.kill_list == old(self).kill_list,
                gprogs == desc_views(self.programs@),
                probes@.len() == n,
                used@.len() == out@.len(),
                out@.len() <= i,
                forall|j: int| 0 <= j < out@.len() ==> used@[j]@ == out@[j].identifier@,
                out@.len() == repaired_seq(gprogs.take(i as int), probes@.take(i as int)).len(),
                forall|j: int|
                    0 <= j < out@.len() ==> same_but_id(
                        out@[j]@,
                        repaired_seq(gprogs.take(i as int), probes@.take(i as int))[j],
                    ),
                forall|j: int|
                    0 <= j < out@.len() ==> is_first_free(
                        repaired_seq(gprogs.take(i as int), probes@.take(i as int))[j].identifier,
                        ids(out@.take(j)),
                        out@[j].identifier@,
                    ),
                ids(out@).no_duplicates(),
                forall|j: int| 0 <= j < out@.len() ==> (#[trigger] out@[j]).identifier@.len() > 0,
                changed == (any_repair(gprogs.take(i as int), probes@.take(i as int))
                    || exists|j: int|
                    0 <= j < out@.len() && out@[j].identifier@ != repaired_seq(
                        gprogs.take(i as int),
                        probes@.take(i as int),
                    )[j].identifier),
            decreases n - i,
        {
            let ghost prev_fixed = repaired_seq(gprogs.take(i as int), probes@.take(i as int));
            let ghost prev_out = out@;
            let ghost prev_changed = changed;
            proof {
                assert(gprogs.take(i + 1).drop_last() =~= gprogs.take(i as int));
                assert(probes@.take(i + 1).drop_last() =~= probes@.take(i as int));
                assert(gprogs.take(i + 1).last() == gprogs[i as int]);
                assert(probes@.take(i + 1).last() == probes@[i as int]);
                assert(gprogs[i as int] == self.programs@[i as int]@);
            }
            let probe = probes[i];
            let keep = match crate::command::decompose(
                self.programs[i].command.as_str(),
                probe.marker_is_file,
            ) {
                Ok(_) => probe.exe_exists,
                Err(_) => true,
            };
            assert(keep == repair_keeps(gprogs[i as int], probe));
            let ghost mut renamed_here = false;
            if !keep {
                changed = true;
            } else {
                let display_empty = self.programs[i].display_name.as_str().is_empty();
                let display = if !display_empty {
                    self.programs[i].display_name.clone()
                } else {
                    match crate::command::program_name(
                        self.programs[i].command.as_str(),
                        probe.marker_is_file,
                    ) {
                        Some(n) => n,
                        None => self.programs[i].identifier.clone(),
                    }
                };
                assert(display@ == repaired_display(gprogs[i as int], probe));
                let id_empty = self.programs[i].identifier.as_str().is_empty();
                let base = if !id_empty {
                    self.programs[i].identifier.clone()
                } else {
                    let derived = match crate::command::program_name(
                        self.programs[i].command.as_str(),
                        probe.marker_is_file,
                    ) {
                        Some(n) => sanitize_identifier(n.as_str()),
                        None => sanitize_identifier(display.as_str()),
                    };
                    if derived.as_str().is_empty() {
                        let fallback: String = "program".to_owned();
                        proof {
                            reveal_strlit("program");
                            assert("program"@ =~= fallback_identifier());
                        }
                        fallback
                    } else {
                        derived
                    }
                };
                assert(base@ == repaired_id_base(gprogs[i as int], probe));
                proof {
                    lemma_repaired_id_nonempty(gprogs[i as int], probe);
                }
                let unique_id = uniquify(base.as_str(), &used);
                proof {
                    assert(views(used@) =~= ids(out@));
                }
                let renamed = !crate::text::str_eq(unique_id.as_str(), base.as_str());
                proof {
                    renamed_here = renamed;
                }
                if display_empty || id_empty || renamed {
                    changed = true;
                }
                let ghost new_id = unique_id@;
                used.push(unique_id.clone());
                out.push(
                    ProgramDescriptor {
                        identifier: unique_id,
                        display_name: display,
                        command: self.programs[i].command.clone(),
                        trigger: self.programs[i].trigger,
                        close_on_unload: self.programs[i].close_on_unload,
                        visible_in_launcher: self.programs[i].visible_in_launcher,
                    },
                );
                proof {
                    assert(ids(out@) =~= ids(prev_out).push(new_id));
                    lemma_first_free_not_used(
                        repaired_id_base(gprogs[i as int], probe),
                        ids(prev_out),
                        new_id,
                    );
                    lemma_no_dup_push(ids(prev_out), new_id);
                    lemma_first_free_nonempty(
                        repaired_id_base(gprogs[i as int], probe),
                        ids(prev_out),
                        new_id,
                    );
                }
            }
            proof {
                let fixed = repaired_seq(gprogs.take(i + 1), probes@.take(i + 1));
                let dv = gprogs[i as int];
                let prev_any = any_repair(gprogs.take(i as int), probes@.take(i as int));
                let anyr = any_repair(gprogs.take(i + 1), probes@.take(i + 1));
                assert(anyr == (prev_any || !repair_keeps(dv, probe) || repair_backfills(dv)));
                let ex_prev = exists|j: int|
                    0 <= j < prev_out.len() && prev_out[j].identifier@ != prev_fixed[j].identifier;
                if keep {
                    assert(fixed == prev_fixed.push(repaired_one(gprogs[i as int], probe)));
                    assert(out@.take(out@.len() - 1) =~= prev_out);
                    let prev_len = prev_out.len() as int;
                    let ex_new = exists|j: int|
                        0 <= j < fixed.len() && out@[j].identifier@ != fixed[j].identifier;
                    assert(fixed[prev_len].identifier == repaired_id_base(dv, probe));
                    assert((out@[prev_len].identifier@ != fixed[prev_len].identifier)
                        == renamed_here);
                    assert(ex_new <==> (ex_prev || renamed_here)) by {
                        if ex_new {
                            let j = choose|j: int|
                                0 <= j < fixed.len() && out@[j].identifier@ != fixed[
                                    j
                                ].identifier;
                            if j < prev_len {
                                assert(prev_out[j].identifier@ != prev_fixed[j].identifier);
                            }
                        }
                        if ex_prev {
                            let j = choose|j: int|
                                0 <= j < prev_out.len() && prev_out[j].identifier@ != prev_fixed[
                                    j
                                ].identifier;
                            assert(0 <= j < fixed.len() && out@[j].identifier@ != fixed[
                                j
                            ].identifier);
                        }
                        if renamed_here {
                            assert(out@[prev_len].identifier@ != fixed[prev_len].identifier);
                        }
                    }
                    assert(changed == (anyr || ex_new));
                    assert forall|j: int|
                        0 <= j < fixed.len() implies is_first_free(
                        fixed[j].identifier,
                        ids(out@.take(j)),
                        out@[j].identifier@,
                    ) by {
                        assert(out@.take(j) =~= prev_out.take(j));
                        if j < fixed.len() - 1 {
                            assert(is_first_free(
                                prev_fixed[j].identifier,
                                ids(prev_out.take(j)),
                                prev_out[j].identifier@,
                            ));
                            assert(out@[j] == prev_out[j]);
                        } else {
                            assert(prev_out.take(j) =~= prev_out);
                        }
                    }
                } else {
                    assert(fixed == prev_fixed);
                    assert(out@ == prev_out);
                    assert(anyr);
                    assert(changed);
                }
            }
            i += 1;
        }
        proof {
            assert(gprogs.take(n as int) =~= gprogs);
            assert(probes@.take(n as int) =~= probes@);
        }
        self.programs = out;
        changed
    }
}

// --- registry edits ---

proof fn lemma_ids_remove(progs: Seq<ProgramDescriptor>, i: int)
    requires
        0 <= i < progs.len(),
    ensures
        ids(progs.remove(i)) =~= ids(progs).remove(i),
{
}

proof fn lemma_no_dup_remove<A>(s: Seq<A>, i: int)
    requires
        0 <= i < s.len(),
        s.no_duplicates(),
    ensures
        s.remove(i).no_duplicates(),
{
    let t = s.remove(i);
    assert forall|p: int, q: int|
        0 <= p < t.len() && 0 <= q < t.len() && p != q implies t[p] != t[q] by {
        let sp: int = if p < i {
            p
        } else {
            p + 1
        };
        let sq: int = if q < i {
            q
        } else {
            q + 1
        };
        assert(t[p] == s[sp]);
        assert(t[q] == s[sq]);
    }
}

impl Registry {
    /// The position of the first descriptor carrying the given identifier.
    pub fn find_by_identifier(&self, identifier: &str) -> (r: Option<usize>)
        ensures
            match r {
                Some(i) => i < self.programs@.len() && self.programs@[i as int].identifier@
                    == identifier@ && forall|j: int|
                    0 <= j < i ==> self.programs@[j].identifier@ != identifier@,
                None => forall|j: int|
                    0 <= j < self.programs@.len() ==> self.programs@[j].identifier@
                        != identifier@,
            },
    {
        let n = self.programs.len();
        let mut i: usize = 0;
        while i < n
            invariant
                i <= n,
                n == self.programs@.len(),
                forall|j: int| 0 <= j < i ==> self.programs@[j].identifier@ != identifier@,
            decreases n - i,
        {
            if crate::text::str_eq(self.programs[i].identifier.as_str(), identifier) {
                return Some(i);
            }
            i += 1;
        }
        None
    }

    /// Appends a new descriptor built from a raw command: the display name
    /// is the executable's file name, the identifier its sanitized form made
    /// unique against the registry, the trigger `OnLoad`, launcher
    /// visibility on. Returns false, changing nothing, when no file name
    /// can be derived from the command.
    pub fn add_program(&mut self, command: String, marker_is_file: bool) -> (r: bool)
        requires
            old(self).wf(),
            old(self).programs@.len() < usize::MAX,
        ensures
            final(self).kill_list == old(self).kill_list,
            final(self).wf(),
            match program_name_spec(command@, marker_is_file) {
                None => !r && final(self).programs@ == old(self).programs@,
                Some(base) => r && final(self).programs@.len() == old(self).programs@.len() + 1
                    && final(self).programs@.take(old(self).programs@.len() as int) == old(
                    self,
                ).programs@ && ({
                    let d = final(self).programs@.last();
                    &&& d.display_name@ == base
                    &&& d.command@ == command@
                    &&& d.trigger == LaunchTrigger::OnLoad
                    &&& !d.close_on_unload
                    &&& d.visible_in_launcher
                    &&& is_first_free(
                        sanitize_spec(base),
                        ids(old(self).programs@),
                        d.identifier@,
                    )
                }),
            },
    {
        let base_name = match program_name(command.as_str(), marker_is_file) {
            Some(n) => n,
            None => {
                return false;
            },
        };
        let sanitized = sanitize_identifier(base_name.as_str());
        let mut used: Vec<String> = Vec::new();
        let n = self.programs.len();
        let mut i: usize = 0;
        while i < n
            invariant
                i <= n,
                n == self.programs@.len(),
                self.programs@ == old(self).programs@,
                used@.len() == i,
                forall|j: int| 0 <= j < i ==> used@[j]@ == self.programs@[j].identifier@,
            decreases n - i,
        {
            used.push(self.programs[i].identifier.clone());
            i += 1;
        }
        let unique_id = uniquify(sanitized.as_str(), &used);
        proof {
            assert(views(used@) =~= ids(self.programs@));
        }
        let ghost old_programs = self.programs@;
        let ghost new_id = unique_id@;
        self.programs.push(
            ProgramDescriptor {
                identifier: unique_id,
                display_name: base_name,
                command,
                trigger: LaunchTrigger::OnLoad,
                close_on_unload: false,
                visible_in_launcher: default_true(),
            },
        );
        proof {
            assert(ids(self.programs@) =~= ids(old_programs).push(new_id));
            lemma_first_free_not_used(sanitize_spec(base_name@), ids(old_programs), new_id);
            lemma_no_dup_push(ids(old_programs), new_id);
            assert(self.programs@.take(old_programs.len() as int) =~= old_programs);
        }
        true
    }

    /// Adds a process name to the kill list unless it is already there
    /// (compared exactly). Returns whether the list changed.
    pub fn add_kill_target(&mut self, name: String) -> (r: bool)
        ensures
            final(self).programs == old(self).programs,
            r == !views(old(self).kill_list@).contains(name@),
            r ==> final(self).kill_list@ == old(self).kill_list@.push(name),
            !r ==> final(self).kill_list@ == old(self).kill_list@,
    {
        if crate::text::contains_str(&self.kill_list, name.as_str()) {
            false
        } else {
            self.kill_list.push(name);
            true
        }
    }

    /// Removes the kill-list entry at the given position.
    pub fn remove_kill_target(&mut self, index: usize) -> (r: String)
        requires
            index < old(self).kill_list@.len(),
        ensures
            final(self).programs == old(self).programs,
            final(self).kill_list@ == old(self).kill_list@.remove(index as int),
            r == old(self).kill_list@[index as int],
    {
        self.kill_list.remove(index)
    }

    /// Replaces the display name of the descriptor at `index`; everything
    /// else, the identifier above all, stays as it was.
    pub fn set_display_name(&mut self, index: usize, name: String)
        requires
            index < old(self).programs@.len(),
            old(self).wf(),
        ensures
            final(self).wf(),
            final(self).kill_list == old(self).kill_list,
            final(self).programs@.len() == old(self).programs@.len(),
            final(self).programs@[index as int].display_name@ == name@,
            final(self).programs@[index as int].identifier == old(self).programs@[
                index as int
            ].identifier,
            final(self).programs@[index as int].command == old(self).programs@[
                index as int
            ].command,
            final(self).programs@[index as int].trigger == old(self).programs@[
                index as int
            ].trigger,
            final(self).programs@[index as int].close_on_unload == old(self).programs@[
                index as int
            ].close_on_unload,
            final(self).programs@[index as int].visible_in_launcher == old(self).programs@[
                index as int
            ].visible_in_launcher,
            forall|j: int|
                0 <= j < old(self).programs@.len() && j != index ==> final(self).programs@[j]
                    == old(self).programs@[j],
    {
        self.programs[index].display_name = name;
        proof {
            assert(ids(self.programs@) =~= ids(old(self).programs@));
        }
    }

    /// Sets when the descriptor at `index` launches.
    pub fn set_trigger(&mut self, index: usize, trigger: LaunchTrigger)
        requires
            index < old(self).programs@.len(),
            old(self).wf(),
        ensures
            final(self).wf(),
            final(self).kill_list == old(self).kill_list,
            final(self).programs@.len() == old(self).programs@.len(),
            final(self).programs@[index as int].trigger == trigger,
            final(self).programs@[index as int].identifier == old(self).programs@[
                index as int
            ].identifier,
            final(self).programs@[index as int].display_name == old(self).programs@[
                index as int
            ].display_name,
            final(self).programs@[index as int].command == old(self).programs@[
                index as int
            ].command,
            final(self).programs@[index as int].close_on_unload == old(self).programs@[
                index as int
            ].close_on_unload,
            final(self).programs@[index as int].visible_in_launcher == old(self).programs@[
                index as int
            ].visible_in_launcher,
            forall|j: int|
                0 <= j < old(self).programs@.len() && j != index ==> final(self).programs@[j]
                    == old(self).programs@[j],
    {
        self.programs[index].trigger = trigger;
        proof {
            assert(ids(self.programs@) =~= ids(old(self).programs@));
        }
    }

    /// Sets whether the descriptor at `index` joins the shutdown kill set.
    pub fn set_close_on_unload(&mut self, index: usize, close: bool)
        requires
            index < old(self).programs@.len(),
            old(self).wf(),
        ensures
            final(self).wf(),
            final(self).kill_list == old(self).kill_list,
            final(self).programs@.len() == old(self).programs@.len(),
            final(self).programs@[index as int].close_on_unload == close,
            final(self).programs@[index as int].identifier == old(self).programs@[
                index as int
            ].identifier,
            final(self).programs@[index as int].display_name == old(self).programs@[
                index as int
            ].display_name,
            final(self).programs@[index as int].command == old(self).programs@[
                index as int
            ].command,
            final(self).programs@[index as int].trigger == old(self).programs@[
                index as int
            ].trigger,
            final(self).programs@[index as int].visible_in_launcher == old(self).programs@[
                index as int
            ].visible_in_launcher,
            forall|j: int|
                0 <= j < old(self).programs@.len() && j != index ==> final(self).programs@[j]
                    == old(self).programs@[j],
    {
        self.programs[index].close_on_unload = close;
        proof {
            assert(ids(self.programs@) =~= ids(old(self).programs@));
        }
    }

    /// Sets whether the descriptor at `index` is shown on the quick-launch
    /// surface.
    pub fn set_visible_in_launcher(&mut self, index: usize, visible: bool)
        requires
            index < old(self).programs@.len(),
            old(self).wf(),
        ensures
            final(self).wf(),
            final(self).kill_list == old(self).kill_list,
            final(self).programs@.len() == old(self).programs@.len(),
            final(self).programs@[index as int].visible_in_launcher == visible,
            final(self).programs@[index as int].identifier == old(self).programs@[
                index as int
            ].identifier,
            final(self).programs@[index as int].display_name == old(self).programs@[
                index as int
            ].display_name,
            final(self).programs@[index as int].command == old(self).programs@[
                index as int
            ].command,
            final(self).programs@[index as int].trigger == old(self).programs@[
                index as int
            ].trigger,
            final(self).programs@[index as int].close_on_unload == old(self).programs@[
                index as int
            ].close_on_unload,
            forall|j: int|
                0 <= j < old(self).programs@.len() && j != index ==> final(self).programs@[j]
                    == old(self).programs@[j],
    {
        self.programs[index].visible_in_launcher = visible;
        proof {
            assert(ids(self.programs@) =~= ids(old(self).programs@));
        }
    }

    /// Removes the first descriptor carrying the given identifier. Returns
    /// whether one was found.
    pub fn remove_program(&mut self, identifier: &str) -> (r: bool)
        requires
            old(self).wf(),
        ensures
            final(self).kill_list == old(self).kill_list,
            final(self).wf(),
            r ==> exists|i: int|
                0 <= i < old(self).programs@.len() && old(self).programs@[i].identifier@
                    == identifier@ && final(self).programs@ == old(self).programs@.remove(i),
            !r ==> final(self).programs@ == old(self).programs@ && forall|j: int|
                0 <= j < old(self).programs@.len() ==> old(self).programs@[j].identifier@
                    != identifier@,
    {
        match self.find_by_identifier(identifier) {
            Some(i) => {
                proof {
                    lemma_ids_remove(self.programs@, i as int);
                    lemma_no_dup_remove(ids(self.programs@), i as int);
                }
                self.programs.remove(i);
                true
            },
            None => false,
        }
    }
}

} // verus!
