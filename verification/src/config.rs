//! The driver's profile: which slider controls what, how to reach the board, and
//! how the profile is taken over again when it changes on disk.
use vstd::prelude::*;

verus! {

/// The profile of the driver.
#[derive(Clone, Debug, PartialEq, Eq, PartialOrd, Ord)]
pub struct Config {
    /// What each slider controls, in the order of the sliders in a packet.
    pub mappings: Vec<Mapping>,
    /// The serial port the board is attached to.
    pub serial: String,
    pub baud_rate: u32,
    /// Read timeout of the serial port, in milliseconds.
    pub timeout: u64,
    pub quality: Quality,
}

/// How much noise reduction the hardware needs.
#[derive(Clone, Copy, Debug, PartialEq, Eq, PartialOrd, Ord)]
pub enum Quality {
    Low,
    Default,
    High,
}

impl Default for Quality {
    fn default() -> (q: Quality)
        ensures
            q == Quality::Default,
    {
        Quality::Default
    }
}

/// What one slider controls.
#[derive(Clone, Debug, PartialEq, Eq, PartialOrd, Ord)]
pub enum Mapping {
    /// The output device with this index.
    Master { pin: u32, inverted: bool, master: u32 },
    /// The output device with this name.
    Device { pin: u32, inverted: bool, device: String },
    /// Every application whose name contains this text.
    App { pin: u32, inverted: bool, app: String },
    /// A MIDI controller number.
    Midi { pin: u32, inverted: bool, midi: u32 },
    /// Nothing.
    Unmapped { pin: u32, inverted: bool },
}

/// Whether the serial connection must be opened again after the profile changed
/// from `old` to `new`: the port, its speed or its timeout differ.
pub open spec fn serial_changed_spec(old: Config, new: Config) -> bool {
    old.baud_rate != new.baud_rate || old.timeout != new.timeout || old.serial@ != new.serial@
}

/// The last profile that parsed among those read, if any.
pub open spec fn last_valid(reads: Seq<Option<Config>>) -> Option<Config>
    decreases reads.len(),
{
    if reads.len() == 0 {
        None
    } else {
        match reads.last() {
            Some(c) => Some(c),
            None => last_valid(reads.drop_last()),
        }
    }
}

impl Config {
    /// Whether the serial connection must be opened again now that the profile is
    /// `self` and was `old` before.
    pub fn serial_changed(&self, old: &Config) -> (changed: bool)
        ensures
            changed == serial_changed_spec(*old, *self),
    {
        old.baud_rate != self.baud_rate || old.timeout != self.timeout || old.serial != self.serial
    }

    /// Takes in the profile as read again after each change the watcher reported,
    /// in order (`None` where it did not parse). `valid` says whether the profile on
    /// disk parsed the last time it was read. The current profile becomes the last
    /// one that parsed; the result says whether the last read parsed (unchanged
    /// when nothing was read).
    pub fn update(&mut self, reads: Vec<Option<Config>>, valid: bool) -> (valid_now: bool)
        ensures
            *final(self) == match last_valid(reads@) {
                Some(c) => c,
                None => *old(self),
            },
            valid_now == if reads@.len() == 0 {
                valid
            } else {
                reads@.last() is Some
            },
    {
        let mut reads = reads;
        let n = reads.len();
        if n == 0 {
            return valid;
        }
        let valid_now = reads[n - 1].is_some();
        let mut i: usize = n;
        assert(reads@.take(n as int) =~= reads@);
        while i > 0 && reads[i - 1].is_none()
            invariant
                i <= n,
                n == reads@.len(),
                last_valid(reads@) == last_valid(reads@.take(i as int)),
            decreases i,
        {
            proof {
                assert(reads@.take(i as int).drop_last() =~= reads@.take(i - 1));
            }
            i = i - 1;
        }
        if i > 0 {
            proof {
                assert(reads@.take(i as int).last() == reads@[i - 1]);
            }
            match reads.remove(i - 1) {
                Some(c) => {
                    *self = c;
                },
                None => {},
            }
        } else {
            assert(reads@.take(0) =~= Seq::<Option<Config>>::empty());
        }
        valid_now
    }
}

/// While no profile has parsed yet: the profile after the reads that the watcher's
/// reports called for, in order. Each read replaces the previous result, whether it
/// parsed or not; with no read the result stays `current`.
pub fn latest_read(current: Option<Config>, reads: Vec<Option<Config>>) -> (latest: Option<Config>)
    ensures
        latest == if reads@.len() == 0 {
            current
        } else {
            reads@.last()
        },
{
    let mut reads = reads;
    match reads.pop() {
        Some(last) => last,
        None => current,
    }
}


/// The last read that parsed wins: a read that parsed becomes the result, whatever
/// came before; a read that did not parse leaves the result as it was; with no
/// reads there is none.
pub proof fn law_last_valid_read_wins(reads: Seq<Option<Config>>, c: Config)
    ensures
        last_valid(reads.push(Some(c))) == Some(c),
        last_valid(reads.push(None)) == last_valid(reads),
        last_valid(Seq::<Option<Config>>::empty()) == None::<Config>,
{
    assert(reads.push(None).drop_last() =~= reads);
}

/// The serial connection is opened again on any change of the port, of its speed
/// (up or down) or of its timeout, and only then; which profile is the old one does
/// not matter.
pub proof fn law_serial_change_detection(a: Config, b: Config)
    ensures
        a.baud_rate != b.baud_rate ==> serial_changed_spec(a, b),
        a.timeout != b.timeout ==> serial_changed_spec(a, b),
        a.serial@ != b.serial@ ==> serial_changed_spec(a, b),
        a.baud_rate == b.baud_rate && a.timeout == b.timeout && a.serial@ == b.serial@
            ==> !serial_changed_spec(a, b),
        serial_changed_spec(a, b) == serial_changed_spec(b, a),
{
}

} // verus!
