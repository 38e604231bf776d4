//! What the driver does with the slider values of one packet: which sliders moved
//! far enough to be passed on, and what each of them asks the sound server for.
use vstd::prelude::*;
use crate::audio::{AudioControl, CommandView, RAW_MAX};
use crate::config::Mapping;

verus! {

/// A slider has to move at least this far before its new value is passed on;
/// smaller moves are noise.
pub const STEP_SIZE: i32 = 64;

/// Whether a slider that reads `value`, and was last passed on at `prev`, is passed
/// on now: it moved by at least `STEP_SIZE`, or it reached either end of its range
/// (below 1 or above `RAW_MAX - 1`) with any change at all.
pub open spec fn should_update(value: u16, prev: u16) -> bool {
    let d = value as int - prev as int;
    ||| d >= STEP_SIZE as int
    ||| -d >= STEP_SIZE as int
    ||| (value < 1 || value > RAW_MAX as int - 1) && value != prev
}

/// The values the sliders are compared with: the last values passed on, or, when
/// their number differs from the number of sliders in the packet, the packet's own
/// values (so that a new set of sliders starts without passing anything on).
pub open spec fn baseline(sliders: Seq<u16>, previous: Seq<u16>) -> Seq<u16> {
    if previous.len() != sliders.len() {
        sliders
    } else {
        previous
    }
}

/// The last values passed on, after the packet `sliders`.
pub open spec fn refreshed(sliders: Seq<u16>, previous: Seq<u16>) -> Seq<u16> {
    let base = baseline(sliders, previous);
    Seq::new(
        sliders.len(),
        |i: int|
            if should_update(sliders[i], base[i]) {
                sliders[i]
            } else {
                base[i]
            },
    )
}

/// The volume command a slider with this mapping asks for when it is passed on at
/// `volume`; MIDI and unmapped sliders ask for none.
pub open spec fn mapping_command(mapping: Mapping, volume: u16) -> Option<CommandView> {
    match mapping {
        Mapping::Master { master, .. } => Some(
            CommandView::MasterVolume { device_index: master, volume },
        ),
        Mapping::Device { device, .. } => Some(
            CommandView::DeviceVolumeByName { name: device@, volume },
        ),
        Mapping::App { app, .. } => Some(CommandView::AppVolumeByName { name: app@, volume }),
        Mapping::Midi { .. } => None,
        Mapping::Unmapped { .. } => None,
    }
}

/// Whether slider `i` is passed on, for the packet `sliders` compared with `base`.
pub open spec fn moved(sliders: Seq<u16>, base: Seq<u16>, i: int) -> bool {
    0 <= i < sliders.len() && should_update(sliders[i], base[i])
}

/// The commands that the first `n` sliders ask for, in slider order.
pub open spec fn planned_commands(
    sliders: Seq<u16>,
    base: Seq<u16>,
    mappings: Seq<Mapping>,
    n: nat,
) -> Seq<CommandView>
    decreases n,
{
    if n == 0 {
        seq![]
    } else {
        let i = n - 1;
        let earlier = planned_commands(sliders, base, mappings, (n - 1) as nat);
        if moved(sliders, base, i) {
            match mapping_command(mappings[i], sliders[i]) {
                Some(c) => earlier.push(c),
                None => earlier,
            }
        } else {
            earlier
        }
    }
}

/// The first `n` sliders that were passed on but whose mapping asks for no command
/// (MIDI and unmapped sliders), in slider order.
pub open spec fn unsupported_sliders(
    sliders: Seq<u16>,
    base: Seq<u16>,
    mappings: Seq<Mapping>,
    n: nat,
) -> Seq<usize>
    decreases n,
{
    if n == 0 {
        seq![]
    } else {
        let i = n - 1;
        let earlier = unsupported_sliders(sliders, base, mappings, (n - 1) as nat);
        if moved(sliders, base, i) && mapping_command(mappings[i], sliders[i]) is None {
            earlier.push(i as usize)
        } else {
            earlier
        }
    }
}

/// Whether every slider that the packet passes on has a mapping.
pub open spec fn updates_mapped(sliders: Seq<u16>, previous: Seq<u16>, mappings_len: nat) -> bool {
    forall|i: int| #[trigger] moved(sliders, baseline(sliders, previous), i) ==> i < mappings_len
}

/// Passes on the sliders of one packet that moved: updates the last values passed
/// on, gives the controller the command of each such slider, in slider order, and
/// returns the sliders whose mapping has no command (MIDI and unmapped ones).
pub fn iter_sliders<C: AudioControl>(
    sliders: Vec<u16>,
    previous_values: &mut Vec<u16>,
    controller: &mut C,
    mappings: &[Mapping],
) -> (unsupported: Vec<usize>)
    requires
        updates_mapped(sliders@, old(previous_values)@, mappings@.len()),
    ensures
        final(previous_values)@ == refreshed(sliders@, old(previous_values)@),
        final(controller).commands() == old(controller).commands() + planned_commands(
            sliders@,
            baseline(sliders@, old(previous_values)@),
            mappings@,
            sliders@.len(),
        ),
        unsupported@ == unsupported_sliders(
            sliders@,
            baseline(sliders@, old(previous_values)@),
            mappings@,
            sliders@.len(),
        ),
{
    let ghost base = baseline(sliders@, previous_values@);
    if previous_values.len() != sliders.len() {
        *previous_values = copy_values(&sliders);
    }
    assert(previous_values@ == base);
    let n = sliders.len();
    let ghost start = controller.commands();
    let mut unsupported: Vec<usize> = Vec::new();
    let mut i: usize = 0;
    while i < n
        invariant
            n == sliders@.len(),
            i <= n,
            base.len() == n,
            previous_values@.len() == n,
            updates_mapped(sliders@, base, mappings@.len()),
            baseline(sliders@, base) == base,
            forall|j: int| 0 <= j < i ==> previous_values@[j] == refreshed(sliders@, base)[j],
            forall|j: int| i <= j < n ==> previous_values@[j] == base[j],
            controller.commands() == start + planned_commands(
                sliders@,
                base,
                mappings@,
                i as nat,
            ),
            unsupported@ == unsupported_sliders(sliders@, base, mappings@, i as nat),
        decreases n - i,
    {
        let value = sliders[i] as i32;
        let prev_value = previous_values[i] as i32;
        let diff = value - prev_value;
        let distance = if diff < 0 {
            -diff
        } else {
            diff
        };
        let ghost before = controller.commands();
        if distance >= STEP_SIZE || ((value < 1 || value > RAW_MAX as i32 - 1) && value
            != prev_value) {
            assert(moved(sliders@, base, i as int));
            previous_values.set(i, sliders[i]);
            match &mappings[i] {
                Mapping::Master { master, .. } => {
                    controller.set_master_volume(*master, sliders[i]);
                },
                Mapping::Device { device, .. } => {
                    controller.set_master_volume_by_name(device.as_str(), sliders[i]);
                },
                Mapping::App { app, .. } => {
                    controller.set_app_volume_by_name(app.as_str(), sliders[i]);
                },
                Mapping::Midi { .. } => {
                    unsupported.push(i);
                },
                Mapping::Unmapped { .. } => {
                    unsupported.push(i);
                },
            }
            assert(start + planned_commands(sliders@, base, mappings@, (i + 1) as nat)
                =~= controller.commands());
        } else {
            assert(!moved(sliders@, base, i as int));
        }
        i = i + 1;
    }
    assert(previous_values@ =~= refreshed(sliders@, base));
    unsupported
}

/// A copy of the slider values.
fn copy_values(values: &Vec<u16>) -> (copy: Vec<u16>)
    ensures
        copy@ == values@,
{
    let mut copy: Vec<u16> = Vec::new();
    let mut i: usize = 0;
    while i < values.len()
        invariant
            i <= values@.len(),
            copy@ == values@.take(i as int),
        decreases values@.len() - i,
    {
        copy.push(values[i]);
        assert(values@.take(i + 1) =~= values@.take(i as int).push(values@[i as int]));
        i = i + 1;
    }
    assert(values@.take(values@.len() as int) =~= values@);
    copy
}

/// Whether every slider that the packet passes on has one of the `mappings_len`
/// mappings, which `iter_sliders` needs.
pub fn updates_are_mapped(sliders: &[u16], previous_values: &[u16], mappings_len: usize) -> (ok: bool)
    ensures
        ok == updates_mapped(sliders@, previous_values@, mappings_len as nat),
{
    let n = sliders.len();
    let same_len = previous_values.len() == n;
    let ghost base = baseline(sliders@, previous_values@);
    let mut i: usize = mappings_len;
    if i >= n {
        assert forall|j: int| #[trigger] moved(sliders@, base, j) implies j < mappings_len by {}
        return true;
    }
    while i < n
        invariant
            n == sliders@.len(),
            mappings_len <= i <= n,
            same_len == (previous_values@.len() == n),
            base == baseline(sliders@, previous_values@),
            forall|j: int| mappings_len <= j < i ==> !#[trigger] moved(sliders@, base, j),
        decreases n - i,
    {
        if !same_len {
            assert(!moved(sliders@, base, i as int));
        } else {
            let value = sliders[i] as i32;
            let prev_value = previous_values[i] as i32;
            let diff = value - prev_value;
            let distance = if diff < 0 {
                -diff
            } else {
                diff
            };
            if distance >= STEP_SIZE || ((value < 1 || value > RAW_MAX as i32 - 1) && value
                != prev_value) {
                assert(moved(sliders@, base, i as int));
                return false;
            }
        }
        i = i + 1;
    }
    true
}

/// With no slider moved among the first `n`, they ask for nothing.
proof fn lemma_still_sliders_plan_nothing(
    sliders: Seq<u16>,
    base: Seq<u16>,
    mappings: Seq<Mapping>,
    n: nat,
)
    requires
        forall|i: int| 0 <= i < n ==> !#[trigger] moved(sliders, base, i),
    ensures
        planned_commands(sliders, base, mappings, n) == Seq::<CommandView>::empty(),
        unsupported_sliders(sliders, base, mappings, n) == Seq::<usize>::empty(),
    decreases n,
{
    if n > 0 {
        assert(!moved(sliders, base, n - 1));
        lemma_still_sliders_plan_nothing(sliders, base, mappings, (n - 1) as nat);
    }
}

/// When a packet brings a different number of sliders than were passed on before
/// (the first packet, or after the board changed), nothing is sent: the packet's
/// values become the values passed on.
pub proof fn law_new_slider_set_is_silent(
    sliders: Seq<u16>,
    previous: Seq<u16>,
    mappings: Seq<Mapping>,
)
    requires
        previous.len() != sliders.len(),
    ensures
        planned_commands(sliders, baseline(sliders, previous), mappings, sliders.len())
            == Seq::<CommandView>::empty(),
        unsupported_sliders(sliders, baseline(sliders, previous), mappings, sliders.len())
            == Seq::<usize>::empty(),
        refreshed(sliders, previous) == sliders,
{
    let base = baseline(sliders, previous);
    assert forall|i: int| 0 <= i < sliders.len() implies !#[trigger] moved(sliders, base, i) by {}
    lemma_still_sliders_plan_nothing(sliders, base, mappings, sliders.len());
    assert(refreshed(sliders, previous) =~= sliders);
}

/// The same packet twice in a row: the second one moves no slider, sends nothing,
/// and leaves the values passed on as they were.
pub proof fn law_repeated_packet_is_silent(
    sliders: Seq<u16>,
    previous: Seq<u16>,
    mappings: Seq<Mapping>,
)
    ensures
        ({
            let after = refreshed(sliders, previous);
            &&& planned_commands(sliders, baseline(sliders, after), mappings, sliders.len())
                == Seq::<CommandView>::empty()
            &&& unsupported_sliders(sliders, baseline(sliders, after), mappings, sliders.len())
                == Seq::<usize>::empty()
            &&& refreshed(sliders, after) == after
        }),
{
    let after = refreshed(sliders, previous);
    let base2 = baseline(sliders, after);
    assert(base2 == after);
    assert forall|i: int| 0 <= i < sliders.len() implies !#[trigger] moved(sliders, base2, i) by {}
    lemma_still_sliders_plan_nothing(sliders, base2, mappings, sliders.len());
    assert(refreshed(sliders, after) =~= after);
}

/// A slider that reaches either end of its range is passed on at once, however
/// small the move, so that the sound server always sees the real minimum and maximum.
pub proof fn law_range_ends_pass_on(value: u16, prev: u16)
    requires
        value == 0 || value == RAW_MAX,
        value != prev,
    ensures
        should_update(value, prev),
{
}


/// Which moves pass a slider on: every move of at least `STEP_SIZE` either way; any
/// change that ends at 0 or at `RAW_MAX` and above; no move smaller than `STEP_SIZE`
/// that ends strictly inside the range; and never a slider that did not change.
pub proof fn law_which_moves_pass_on(value: u16, prev: u16)
    ensures
        value as int - prev as int >= 64 ==> should_update(value, prev),
        prev as int - value as int >= 64 ==> should_update(value, prev),
        (value == 0 || value >= 2047) && value != prev ==> should_update(value, prev),
        (value as int - prev as int) < 64 && (prev as int - value as int) < 64 && 1 <= value
            <= 2046 ==> !should_update(value, prev),
        value == prev ==> !should_update(value, prev),
{
}

/// A slider that is passed on records its value and asks for its mapping's command;
/// one that is not keeps the value passed on before.
pub proof fn law_moved_slider_is_recorded(sliders: Seq<u16>, previous: Seq<u16>, i: int)
    requires
        0 <= i < sliders.len(),
    ensures
        moved(sliders, baseline(sliders, previous), i) ==> refreshed(sliders, previous)[i]
            == sliders[i],
        !moved(sliders, baseline(sliders, previous), i) ==> refreshed(sliders, previous)[i]
            == baseline(sliders, previous)[i],
{
}

} // verus!
