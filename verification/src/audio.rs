//! The audio side of the driver: the volume commands that slider moves turn into,
//! the controller that collects them for the platform's sound server, and the rule
//! by which an application is picked by name.
use vstd::prelude::*;
use vstd::utf8::encode_utf8;

verus! {

/// Highest raw value a slider reports.
pub const RAW_MAX: u16 = 2047;

/// A volume change, as the sound server is asked to make it.
pub enum VolumeCommand {
    /// Sets the volume of the output device with this index.
    MasterVolume { device_index: u32, volume: u16 },
    /// Sets the volume of the output device with this name.
    DeviceVolumeByName { name: String, volume: u16 },
    /// Sets the volume of the application stream with this index.
    AppVolumeByIndex { app_index: u32, volume: u16 },
    /// Sets the volume of every application whose name contains this text.
    AppVolumeByName { name: String, volume: u16 },
}

/// The abstract form of a volume command: names are taken by their characters.
pub enum CommandView {
    MasterVolume { device_index: u32, volume: u16 },
    DeviceVolumeByName { name: Seq<char>, volume: u16 },
    AppVolumeByIndex { app_index: u32, volume: u16 },
    AppVolumeByName { name: Seq<char>, volume: u16 },
}

impl View for VolumeCommand {
    type V = CommandView;

    open spec fn view(&self) -> CommandView {
        match self {
            VolumeCommand::MasterVolume { device_index, volume } => CommandView::MasterVolume {
                device_index: *device_index,
                volume: *volume,
            },
            VolumeCommand::DeviceVolumeByName { name, volume } => CommandView::DeviceVolumeByName {
                name: name@,
                volume: *volume,
            },
            VolumeCommand::AppVolumeByIndex { app_index, volume } => CommandView::AppVolumeByIndex {
                app_index: *app_index,
                volume: *volume,
            },
            VolumeCommand::AppVolumeByName { name, volume } => CommandView::AppVolumeByName {
                name: name@,
                volume: *volume,
            },
        }
    }
}

/// An audio controller: it takes the volume changes that slider moves call for.
/// `commands` is every change it has been asked for, oldest first.
pub trait AudioControl {
    spec fn commands(&self) -> Seq<CommandView>;

    /// The name of the sound system behind this controller.
    fn name(&self) -> &'static str;

    fn set_master_volume(&mut self, device_index: u32, volume: u16)
        ensures
            final(self).commands() == old(self).commands().push(
                CommandView::MasterVolume { device_index, volume },
            ),
    ;

    fn set_master_volume_by_name(&mut self, name: &str, volume: u16)
        ensures
            final(self).commands() == old(self).commands().push(
                CommandView::DeviceVolumeByName { name: name@, volume },
            ),
    ;

    fn set_app_volume_by_index(&mut self, app_index: u32, volume: u16)
        ensures
            final(self).commands() == old(self).commands().push(
                CommandView::AppVolumeByIndex { app_index, volume },
            ),
    ;

    fn set_app_volume_by_name(&mut self, name: &str, volume: u16)
        ensures
            final(self).commands() == old(self).commands().push(
                CommandView::AppVolumeByName { name: name@, volume },
            ),
    ;
}

/// The controller for Unix sound servers (PulseAudio and compatible ones): it queues
/// the volume changes, and the program hands them to libpulse.
pub struct UnixController {
    queue: Vec<VolumeCommand>,
}

impl UnixController {
    /// The changes queued and not yet taken, oldest first.
    pub closed spec fn pending(&self) -> Seq<CommandView> {
        self.queue@.map_values(|c: VolumeCommand| c@)
    }

    /// Takes every queued change, oldest first, and leaves the queue empty.
    pub fn take_commands(&mut self) -> (taken: Vec<VolumeCommand>)
        ensures
            taken@.map_values(|c: VolumeCommand| c@) == old(self).pending(),
            final(self).pending() == Seq::<CommandView>::empty(),
    {
        let mut taken: Vec<VolumeCommand> = Vec::new();
        std::mem::swap(&mut taken, &mut self.queue);
        assert(self.queue@.map_values(|c: VolumeCommand| c@) =~= Seq::<CommandView>::empty());
        taken
    }

    fn enqueue(&mut self, command: VolumeCommand)
        ensures
            final(self).pending() == old(self).pending().push(command@),
    {
        self.queue.push(command);
        assert(self.queue@.map_values(|c: VolumeCommand| c@) =~= old(self).queue@.map_values(
            |c: VolumeCommand| c@,
        ).push(command@));
    }
}

impl AudioControl for UnixController {
    open spec fn commands(&self) -> Seq<CommandView> {
        self.pending()
    }

    fn name(&self) -> (n: &'static str)
        ensures
            n@ == "libpulse"@,
    {
        "libpulse"
    }

    fn set_master_volume(&mut self, device_index: u32, volume: u16) {
        self.enqueue(VolumeCommand::MasterVolume { device_index, volume });
    }

    fn set_master_volume_by_name(&mut self, name: &str, volume: u16) {
        self.enqueue(VolumeCommand::DeviceVolumeByName { name: name.to_owned(), volume });
    }

    fn set_app_volume_by_index(&mut self, app_index: u32, volume: u16) {
        self.enqueue(VolumeCommand::AppVolumeByIndex { app_index, volume });
    }

    fn set_app_volume_by_name(&mut self, name: &str, volume: u16) {
        self.enqueue(VolumeCommand::AppVolumeByName { name: name.to_owned(), volume });
    }
}

/// The audio controller of this platform, with nothing queued yet.
pub fn get_controller() -> (controller: Box<UnixController>)
    ensures
        controller.commands() == Seq::<CommandView>::empty(),
{
    let controller = UnixController { queue: Vec::new() };
    assert(controller.queue@.map_values(|c: VolumeCommand| c@) =~= Seq::<CommandView>::empty());
    Box::new(controller)
}

/// What `str::to_lowercase` returns for a string with these characters.
pub uninterp spec fn lowercase(s: Seq<char>) -> Seq<char>;

/// `str::to_lowercase`: the result depends on the characters of its argument alone.
#[verifier::external_body]
fn to_lowercase(s: &str) -> (r: String)
    ensures
        r@ == lowercase(s@),
{
    s.to_lowercase()
}

/// Whether `needle` occurs as a contiguous run in `haystack`.
pub open spec fn contains_run(haystack: Seq<u8>, needle: Seq<u8>) -> bool {
    exists|k: int|
        0 <= k && k + needle.len() <= haystack.len() && #[trigger] haystack.subrange(
            k,
            k + needle.len(),
        ) == needle
}

/// Whether an application with this name is picked by the text `needle`: it has a
/// name, and the lowercased name contains `needle` (compared byte by byte, as
/// `str::contains` does).
pub open spec fn app_name_matches_spec(app_name: Option<Seq<char>>, needle: Seq<char>) -> bool {
    match app_name {
        Some(n) => contains_run(encode_utf8(lowercase(n)), encode_utf8(needle)),
        None => false,
    }
}

/// Decides whether the application named `app_name` (if it has a name) is one that a
/// slider mapped to `needle` controls.
pub fn app_name_matches(app_name: &Option<String>, needle: &str) -> (m: bool)
    ensures
        m == app_name_matches_spec(
            match app_name {
                Some(s) => Some(s@),
                None => None,
            },
            needle@,
        ),
{
    match app_name {
        Some(s) => {
            let lower = to_lowercase(s.as_str());
            bytes_contain(lower.as_str().as_bytes(), needle.as_bytes())
        },
        None => false,
    }
}

/// An empty text picks every application that has a name.
pub proof fn law_empty_name_picks_every_named_app(app_name: Seq<char>)
    ensures
        app_name_matches_spec(Some(app_name), Seq::<char>::empty()),
{
    let h = encode_utf8(lowercase(app_name));
    let e = encode_utf8(Seq::<char>::empty());
    assert(e =~= Seq::<u8>::empty());
    assert(h.subrange(0, 0int + e.len()) =~= e);
    assert(contains_run(h, e));
}

/// Whether `needle` occurs as a contiguous run in `haystack`.
fn bytes_contain(haystack: &[u8], needle: &[u8]) -> (found: bool)
    ensures
        found == contains_run(haystack@, needle@),
{
    let h = haystack.len();
    let n = needle.len();
    if n > h {
        assert(!contains_run(haystack@, needle@));
        return false;
    }
    let mut k: usize = 0;
    while k <= h - n
        invariant
            h == haystack@.len(),
            n == needle@.len(),
            n <= h,
            k <= h - n + 1,
            forall|j: int| 0 <= j < k ==> #[trigger] haystack@.subrange(j, j + n) != needle@,
        decreases h - k,
    {
        let mut i: usize = 0;
        let mut same = true;
        while i < n
            invariant
                h == haystack@.len(),
                n == needle@.len(),
                k + n <= h,
                i <= n,
                same <==> (forall|t: int| 0 <= t < i ==> haystack@[k + t] == needle@[t]),
            decreases n - i,
        {
            if haystack[k + i] != needle[i] {
                same = false;
            }
            i = i + 1;
        }
        if same {
            assert(haystack@.subrange(k as int, k + n) =~= needle@);
            return true;
        }
        assert(haystack@.subrange(k as int, k + n) != needle@) by {
            let t = choose|t: int| 0 <= t < n && haystack@[k + t] != needle@[t];
            assert(haystack@.subrange(k as int, k + n)[t] == haystack@[k + t]);
        }
        k = k + 1;
    }
    assert forall|j: int|
        0 <= j && j + n <= h implies #[trigger] haystack@.subrange(j, j + n) != needle@ by {}
    false
}


/// A text is found wherever it occurs in the name, at any offset.
pub proof fn law_contains_run_anywhere(a: Seq<u8>, n: Seq<u8>, b: Seq<u8>)
    ensures
        contains_run(a + n + b, n),
{
    let h = a + n + b;
    let k = a.len() as int;
    assert(h.subrange(k, k + n.len()) =~= n);
}

/// A text is found only where it occurs: finding it splits the name into the bytes
/// before it, the text itself, and the bytes after it.
pub proof fn law_contains_run_only_where_it_occurs(h: Seq<u8>, n: Seq<u8>)
    requires
        contains_run(h, n),
    ensures
        exists|a: Seq<u8>, b: Seq<u8>| h == a + n + b,
{
    let k = choose|k: int|
        0 <= k && k + n.len() <= h.len() && #[trigger] h.subrange(k, k + n.len()) == n;
    let a = h.subrange(0, k);
    let b = h.subrange(k + n.len(), h.len() as int);
    assert(h =~= a + n + b);
}

/// An application is picked exactly when its lowercased name holds the text
/// somewhere.
pub proof fn law_app_picked_where_text_occurs(name: Seq<char>, needle: Seq<char>, a: Seq<u8>, b: Seq<u8>)
    requires
        encode_utf8(lowercase(name)) == a + encode_utf8(needle) + b,
    ensures
        app_name_matches_spec(Some(name), needle),
{
    law_contains_run_anywhere(a, encode_utf8(needle), b);
}

} // verus!
