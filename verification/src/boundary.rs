//! The activation and callback-boundary decisions: which descriptors to
//! launch and which trigger names to register when the registry activates,
//! and what a foreign trigger callback dispatches to.
//!
//! The host invokes a foreign callback for both press and release of a
//! registered trigger. The verified part decides what a callback means: a
//! release event or an identifier without the trigger prefix is a no-op,
//! anything else dispatches to the descriptor whose identifier follows the
//! prefix. The failure isolation itself — catching panics from foreign
//! input before they cross back into the host — lives in the surrounding
//! application, which must never let this path unwind.

use vstd::prelude::*;

use crate::registry::desc_views;
use crate::registry::DescView;
use crate::registry::LaunchTrigger;
use crate::registry::Registry;
use crate::text::views;

verus! {

/// The prefix of every registered trigger name.
pub open spec fn trigger_prefix() -> Seq<char> {
    seq!['L', 'A', 'U', 'N', 'C', 'H', '_']
}

/// The external trigger name registered for a descriptor identifier: the
/// trigger prefix followed by the identifier.
pub fn trigger_name(identifier: &str) -> (r: String)
    ensures
        r@ == trigger_prefix() + identifier@,
{
    let mut s: String = "LAUNCH_".to_owned();
    proof {
        reveal_strlit("LAUNCH_");
        assert("LAUNCH_"@ =~= trigger_prefix());
    }
    s.append(identifier);
    s
}

/// What a trigger callback dispatches to: nothing on a release event or
/// when the identifier does not start with the trigger prefix; otherwise
/// the descriptor identifier that follows the prefix.
pub open spec fn trigger_target_spec(id: Seq<char>, is_release: bool) -> Option<Seq<char>> {
    if is_release {
        None
    } else if id.len() >= 7 && id.take(7) == trigger_prefix() {
        Some(id.skip(7))
    } else {
        None
    }
}

/// Decides one trigger callback: the identifier to launch, or nothing.
pub fn trigger_target(id: &str, is_release: bool) -> (r: Option<String>)
    ensures
        match r {
            Some(t) => trigger_target_spec(id@, is_release) == Some(t@),
            None => trigger_target_spec(id@, is_release) is None,
        },
{
    if is_release {
        return None;
    }
    let len = id.unicode_len();
    if len < 7 {
        return None;
    }
    let has_prefix = id.get_char(0) == 'L' && id.get_char(1) == 'A' && id.get_char(2) == 'U'
        && id.get_char(3) == 'N' && id.get_char(4) == 'C' && id.get_char(5) == 'H' && id.get_char(
        6,
    ) == '_';
    proof {
        let head = id@.take(7);
        assert(head.len() == 7);
        assert(head[0] == id@[0] && head[1] == id@[1] && head[2] == id@[2] && head[3] == id@[3]
            && head[4] == id@[4] && head[5] == id@[5] && head[6] == id@[6]);
        assert(trigger_prefix()[0] == 'L' && trigger_prefix()[1] == 'A' && trigger_prefix()[2]
            == 'U' && trigger_prefix()[3] == 'N' && trigger_prefix()[4] == 'C' && trigger_prefix()[
            5
        ] == 'H' && trigger_prefix()[6] == '_');
        if has_prefix {
            assert(head =~= trigger_prefix());
        }
    }
    if has_prefix {
        let rest = id.substring_char(7, len);
        assert(rest@ =~= id@.skip(7));
        Some(rest.to_owned())
    } else {
        None
    }
}

/// The trigger names owed registration: one per on-demand descriptor, in
/// registry order.
pub open spec fn on_demand_names_spec(progs: Seq<DescView>) -> Seq<Seq<char>>
    decreases progs.len(),
{
    if progs.len() == 0 {
        Seq::empty()
    } else {
        let init = on_demand_names_spec(progs.drop_last());
        if progs.last().trigger == LaunchTrigger::OnDemand {
            init.push(trigger_prefix() + progs.last().identifier)
        } else {
            init
        }
    }
}

/// The external trigger names to register when the registry activates: one
/// per descriptor that launches on demand.
pub fn on_demand_trigger_names(reg: &Registry) -> (r: Vec<String>)
    ensures
        views(r@) == on_demand_names_spec(desc_views(reg.programs@)),
{
    let ghost gprogs = desc_views(reg.programs@);
    let n = reg.programs.len();
    let mut out: Vec<String> = Vec::new();
    let mut i: usize = 0;
    proof {
        assert(gprogs.take(0) =~= Seq::<DescView>::empty());
        assert(views(out@) =~= Seq::<Seq<char>>::empty());
    }
    while i < n
        invariant
            i <= n,
            n == reg.programs@.len(),
            gprogs == desc_views(reg.programs@),
            views(out@) == on_demand_names_spec(gprogs.take(i as int)),
        decreases n - i,
    {
        let ghost prev = out@;
        proof {
            assert(gprogs.take(i + 1).drop_last() =~= gprogs.take(i as int));
            assert(gprogs.take(i + 1).last() == gprogs[i as int]);
            assert(gprogs[i as int] == reg.programs@[i as int]@);
        }
        if matches!(reg.programs[i].trigger, LaunchTrigger::OnDemand) {
            let name = trigger_name(reg.programs[i].identifier.as_str());
            out.push(name);
            assert(views(out@) =~= views(prev).push(out@.last()@));
        }
        i += 1;
    }
    proof {
        assert(gprogs.take(n as int) =~= gprogs);
    }
    out
}

/// The commands launched at activation: one per descriptor whose trigger
/// is on-load, in registry order.
pub open spec fn on_load_commands_spec(progs: Seq<DescView>) -> Seq<Seq<char>>
    decreases progs.len(),
{
    if progs.len() == 0 {
        Seq::empty()
    } else {
        let init = on_load_commands_spec(progs.drop_last());
        if progs.last().trigger == LaunchTrigger::OnLoad {
            init.push(progs.last().command)
        } else {
            init
        }
    }
}

/// The commands to launch when the registry activates: one per descriptor
/// that launches on load.
pub fn on_load_commands(reg: &Registry) -> (r: Vec<String>)
    ensures
        views(r@) == on_load_commands_spec(desc_views(reg.programs@)),
{
    let ghost gprogs = desc_views(reg.programs@);
    let n = reg.programs.len();
    let mut out: Vec<String> = Vec::new();
    let mut i: usize = 0;
    proof {
        assert(gprogs.take(0) =~= Seq::<DescView>::empty());
        assert(views(out@) =~= Seq::<Seq<char>>::empty());
    }
    while i < n
        invariant
            i <= n,
            n == reg.programs@.len(),
            gprogs == desc_views(reg.programs@),
            views(out@) == on_load_commands_spec(gprogs.take(i as int)),
        decreases n - i,
    {
        let ghost prev = out@;
        proof {
            assert(gprogs.take(i + 1).drop_last() =~= gprogs.take(i as int));
            assert(gprogs.take(i + 1).last() == gprogs[i as int]);
            assert(gprogs[i as int] == reg.programs@[i as int]@);
        }
        if matches!(reg.programs[i].trigger, LaunchTrigger::OnLoad) {
            out.push(reg.programs[i].command.clone());
            assert(views(out@) =~= views(prev).push(out@.last()@));
        }
        i += 1;
    }
    proof {
        assert(gprogs.take(n as int) =~= gprogs);
    }
    out
}

/// Round trip: the trigger name registered for an identifier dispatches,
/// on a press event, back to exactly that identifier.
pub proof fn lemma_trigger_round_trip(identifier: Seq<char>)
    ensures
        trigger_target_spec(trigger_prefix() + identifier, false) == Some(identifier),
{
    let full = trigger_prefix() + identifier;
    assert(full.take(7) =~= trigger_prefix());
    assert(full.skip(7) =~= identifier);
}

} // verus!
