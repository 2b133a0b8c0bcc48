//! Player settings, game modes and the save-slot naming rules. Reading and
//! writing the JSON files happens at the program's edge.

use vstd::prelude::*;
use vstd::string::StringExecFns;
use crate::text::{decimal, decimal_padded, push_decimal, push_decimal_padded, push_str};

verus! {

pub const AUTOSAVE_SLOTS: usize = 3;
pub const SAVE_VERSION: u32 = 10;

#[derive(Clone, Copy, PartialEq, Eq, Debug, Structural)]
pub enum DisplayMode {
    Windowed,
    Borderless,
    Fullscreen,
}

impl DisplayMode {
    pub fn label(self) -> (r: &'static str)
        ensures
            r@ == match self {
                DisplayMode::Windowed => "Windowed"@,
                DisplayMode::Borderless => "Borderless"@,
                DisplayMode::Fullscreen => "Fullscreen"@,
            },
    {
        match self {
            DisplayMode::Windowed => "Windowed",
            DisplayMode::Borderless => "Borderless",
            DisplayMode::Fullscreen => "Fullscreen",
        }
    }

    /// Cycle Windowed → Borderless → Fullscreen → Windowed.
    pub fn next(self) -> (r: Self)
        ensures
            r == match self {
                DisplayMode::Windowed => DisplayMode::Borderless,
                DisplayMode::Borderless => DisplayMode::Fullscreen,
                DisplayMode::Fullscreen => DisplayMode::Windowed,
            },
    {
        match self {
            DisplayMode::Windowed => DisplayMode::Borderless,
            DisplayMode::Borderless => DisplayMode::Fullscreen,
            DisplayMode::Fullscreen => DisplayMode::Windowed,
        }
    }

    pub fn is_windowed(self) -> (r: bool)
        ensures
            r == (self == DisplayMode::Windowed),
    {
        match self {
            DisplayMode::Windowed => true,
            _ => false,
        }
    }
}

/// Storm / gas / lightning fidelity.
#[derive(Clone, Copy, PartialEq, Eq, Debug, Structural)]
pub enum EffectQuality {
    Low,
    Medium,
    High,
}

impl Default for EffectQuality {
    fn default() -> (r: Self)
        ensures
            r == EffectQuality::Medium,
    {
        EffectQuality::Medium
    }
}

impl EffectQuality {
    pub fn label(self) -> (r: &'static str)
        ensures
            r@ == match self {
                EffectQuality::Low => "Low"@,
                EffectQuality::Medium => "Medium"@,
                EffectQuality::High => "High"@,
            },
    {
        match self {
            EffectQuality::Low => "Low",
            EffectQuality::Medium => "Medium",
            EffectQuality::High => "High",
        }
    }

    /// Cycle Low → Medium → High → Low.
    pub fn next(self) -> (r: Self)
        ensures
            r == match self {
                EffectQuality::Low => EffectQuality::Medium,
                EffectQuality::Medium => EffectQuality::High,
                EffectQuality::High => EffectQuality::Low,
            },
    {
        match self {
            EffectQuality::Low => EffectQuality::Medium,
            EffectQuality::Medium => EffectQuality::High,
            EffectQuality::High => EffectQuality::Low,
        }
    }
}

/// Render FPS cap. The simulation stays at a fixed 60 updates per second.
#[derive(Clone, Copy, PartialEq, Eq, Debug, Structural)]
pub enum FpsLimit {
    Fps30,
    Fps60,
    Fps120,
    Fps144,
    Fps240,
    Unlimited,
}

impl Default for FpsLimit {
    fn default() -> (r: Self)
        ensures
            r == FpsLimit::Fps120,
    {
        FpsLimit::Fps120
    }
}

impl FpsLimit {
    /// Frames per second of the cap; `None` when uncapped. The frame budget
    /// is one second over this rate.
    pub fn frame_rate(self) -> (r: Option<u32>)
        ensures
            r == match self {
                FpsLimit::Fps30 => Some(30u32),
                FpsLimit::Fps60 => Some(60u32),
                FpsLimit::Fps120 => Some(120u32),
                FpsLimit::Fps144 => Some(144u32),
                FpsLimit::Fps240 => Some(240u32),
                FpsLimit::Unlimited => None,
            },
    {
        match self {
            FpsLimit::Fps30 => Some(30),
            FpsLimit::Fps60 => Some(60),
            FpsLimit::Fps120 => Some(120),
            FpsLimit::Fps144 => Some(144),
            FpsLimit::Fps240 => Some(240),
            FpsLimit::Unlimited => None,
        }
    }

    pub fn label(self) -> (r: &'static str)
        ensures
            r@ == match self {
                FpsLimit::Fps30 => "30"@,
                FpsLimit::Fps60 => "60"@,
                FpsLimit::Fps120 => "120"@,
                FpsLimit::Fps144 => "144"@,
                FpsLimit::Fps240 => "240"@,
                FpsLimit::Unlimited => "Unlimited"@,
            },
    {
        match self {
            FpsLimit::Fps30 => "30",
            FpsLimit::Fps60 => "60",
            FpsLimit::Fps120 => "120",
            FpsLimit::Fps144 => "144",
            FpsLimit::Fps240 => "240",
            FpsLimit::Unlimited => "Unlimited",
        }
    }

    /// Cycle 30 → 60 → 120 → 144 → 240 → Unlimited → 30.
    pub fn next(self) -> (r: Self)
        ensures
            r == match self {
                FpsLimit::Fps30 => FpsLimit::Fps60,
                FpsLimit::Fps60 => FpsLimit::Fps120,
                FpsLimit::Fps120 => FpsLimit::Fps144,
                FpsLimit::Fps144 => FpsLimit::Fps240,
                FpsLimit::Fps240 => FpsLimit::Unlimited,
                FpsLimit::Unlimited => FpsLimit::Fps30,
            },
    {
        match self {
            FpsLimit::Fps30 => FpsLimit::Fps60,
            FpsLimit::Fps60 => FpsLimit::Fps120,
            FpsLimit::Fps120 => FpsLimit::Fps144,
            FpsLimit::Fps144 => FpsLimit::Fps240,
            FpsLimit::Fps240 => FpsLimit::Unlimited,
            FpsLimit::Unlimited => FpsLimit::Fps30,
        }
    }
}

pub open spec fn spec_display_next(m: DisplayMode) -> DisplayMode {
    match m {
        DisplayMode::Windowed => DisplayMode::Borderless,
        DisplayMode::Borderless => DisplayMode::Fullscreen,
        DisplayMode::Fullscreen => DisplayMode::Windowed,
    }
}

pub open spec fn spec_quality_next(q: EffectQuality) -> EffectQuality {
    match q {
        EffectQuality::Low => EffectQuality::Medium,
        EffectQuality::Medium => EffectQuality::High,
        EffectQuality::High => EffectQuality::Low,
    }
}

pub open spec fn spec_fps_next(f: FpsLimit) -> FpsLimit {
    match f {
        FpsLimit::Fps30 => FpsLimit::Fps60,
        FpsLimit::Fps60 => FpsLimit::Fps120,
        FpsLimit::Fps120 => FpsLimit::Fps144,
        FpsLimit::Fps144 => FpsLimit::Fps240,
        FpsLimit::Fps240 => FpsLimit::Unlimited,
        FpsLimit::Unlimited => FpsLimit::Fps30,
    }
}

/// Each settings button cycles through every option and comes back: three
/// presses for display mode and effect quality, six for the FPS cap.
pub proof fn lemma_settings_cycles(m: DisplayMode, q: EffectQuality, f: FpsLimit)
    ensures
        spec_display_next(spec_display_next(spec_display_next(m))) == m,
        spec_display_next(m) != m,
        spec_quality_next(spec_quality_next(spec_quality_next(q))) == q,
        spec_quality_next(q) != q,
        spec_fps_next(spec_fps_next(spec_fps_next(spec_fps_next(spec_fps_next(spec_fps_next(f)))))) == f,
        spec_fps_next(f) != f,
{
}

#[derive(Clone, Debug)]
pub struct Settings {
    pub display_mode: DisplayMode,
    pub vsync: bool,
    pub window_w: i32,
    pub window_h: i32,
    pub show_fps: bool,
    pub effect_quality: EffectQuality,
    pub fps_limit: FpsLimit,
    /// Next autosave slot index (0..AUTOSAVE_SLOTS).
    pub autosave_next: usize,
}

impl Default for Settings {
    fn default() -> (r: Self)
        ensures
            r.display_mode == DisplayMode::Windowed,
            !r.vsync,
            r.window_w == 1400,
            r.window_h == 900,
            r.show_fps,
            r.effect_quality == EffectQuality::Medium,
            r.fps_limit == FpsLimit::Fps120,
            r.autosave_next == 0,
    {
        Settings {
            display_mode: DisplayMode::Windowed,
            vsync: false,
            window_w: 1400,
            window_h: 900,
            show_fps: true,
            effect_quality: EffectQuality::Medium,
            fps_limit: FpsLimit::Fps120,
            autosave_next: 0,
        }
    }
}

/// New-game / save mode: Creative skips costs and unlock gates.
#[derive(Clone, Copy, PartialEq, Eq, Debug, Structural)]
pub enum GameMode {
    Survival,
    Creative,
}

impl Default for GameMode {
    fn default() -> (r: Self)
        ensures
            r == GameMode::Survival,
    {
        GameMode::Survival
    }
}

impl GameMode {
    pub fn label(self) -> (r: &'static str)
        ensures
            r@ == match self {
                GameMode::Survival => "Survival"@,
                GameMode::Creative => "Creative"@,
            },
    {
        match self {
            GameMode::Survival => "Survival",
            GameMode::Creative => "Creative",
        }
    }

    pub fn blurb(self) -> (r: &'static str)
        ensures
            r@ == match self {
                GameMode::Survival => "Tech gates build menu · spend materials to place"@,
                GameMode::Creative => "Everything unlocked · free placement"@,
            },
    {
        match self {
            GameMode::Survival => "Tech gates build menu · spend materials to place",
            GameMode::Creative => "Everything unlocked · free placement",
        }
    }

    pub fn is_creative(self) -> (r: bool)
        ensures
            r == (self == GameMode::Creative),
    {
        match self {
            GameMode::Creative => true,
            _ => false,
        }
    }
}

/// Value of a save flag that older saves do not carry.
pub fn default_true() -> (r: bool)
    ensures
        r,
{
    true
}

/// Save versions that can still be loaded: every format from 1 up to the
/// current one.
pub open spec fn version_supported(v: u32) -> bool {
    1 <= v <= SAVE_VERSION
}

/// Gate applied before a save is loaded: an unsupported version is refused
/// with `Unsupported save version <v>`.
pub fn check_save_version(version: u32) -> (r: Result<(), String>)
    ensures
        r is Ok <==> version_supported(version),
        r matches Err(msg) ==> msg@ == "Unsupported save version "@ + decimal(version as nat),
{
    if 1 <= version && version <= SAVE_VERSION {
        Ok(())
    } else {
        let mut msg = String::from_str("Unsupported save version ");
        push_decimal(&mut msg, version as u64);
        Err(msg)
    }
}

/// File name of an autosave slot: `autosave_<slot>.json`.
pub open spec fn autosave_name(slot: nat) -> Seq<char> {
    "autosave_"@ + decimal(slot) + ".json"@
}

pub fn autosave_file_name(slot: usize) -> (r: String)
    ensures
        r@ == autosave_name(slot as nat),
{
    let mut s = String::from_str("autosave_");
    push_decimal(&mut s, slot as u64);
    push_str(&mut s, ".json");
    s
}

/// What the next autosave does: which slot it fills, the label it writes,
/// and which slot comes after it.
pub struct AutosavePlan {
    pub slot: usize,
    pub label: String,
    pub file_name: String,
    pub next: usize,
}

/// Autosaves rotate through `AUTOSAVE_SLOTS` slots labelled "Autosave 1",
/// "Autosave 2", … starting from the settings' next slot.
pub fn autosave_plan(autosave_next: usize) -> (r: AutosavePlan)
    ensures
        r.slot == autosave_next % AUTOSAVE_SLOTS,
        r.label@ == "Autosave "@ + decimal((r.slot + 1) as nat),
        r.file_name@ == autosave_name(r.slot as nat),
        r.next == (r.slot + 1) % (AUTOSAVE_SLOTS as int),
{
    let slot = autosave_next % AUTOSAVE_SLOTS;
    let mut label = String::from_str("Autosave ");
    push_decimal(&mut label, (slot + 1) as u64);
    AutosavePlan { slot, label, file_name: autosave_file_name(slot), next: (slot + 1) % AUTOSAVE_SLOTS }
}

/// Relative age of a save stamped `ts`, seen at `now` (seconds).
pub open spec fn age_text(now: u64, ts: u64) -> Seq<char> {
    let ago: nat = if now >= ts { (now - ts) as nat } else { 0 };
    if ago < 60 {
        "just now"@
    } else if ago < 3600 {
        decimal(ago / 60) + "m ago"@
    } else if ago < 86400 {
        decimal(ago / 3600) + "h ago"@
    } else {
        decimal(ago / 86400) + "d ago"@
    }
}

/// How long ago a save stamped `ts` was made, seen at clock reading `now`:
/// "just now", "<m>m ago", "<h>h ago" or "<d>d ago".
pub fn format_saved_at(ts: u64, now: u64) -> (r: String)
    ensures
        r@ == age_text(now, ts),
{
    let ago = now.saturating_sub(ts);
    if ago < 60 {
        String::from_str("just now")
    } else if ago < 3600 {
        let mut s = String::new();
        push_decimal(&mut s, ago / 60);
        push_str(&mut s, "m ago");
        s
    } else if ago < 86400 {
        let mut s = String::new();
        push_decimal(&mut s, ago / 3600);
        push_str(&mut s, "h ago");
        s
    } else {
        let mut s = String::new();
        push_decimal(&mut s, ago / 86400);
        push_str(&mut s, "d ago");
        s
    }
}

/// `hh:mm:ss` of a whole number of seconds (hours not capped).
pub open spec fn hms_text(total: u64) -> Seq<char> {
    decimal_padded((total / 3600) as nat, 2) + ":"@ + decimal_padded(((total % 3600) / 60) as nat, 2) + ":"@
        + decimal_padded((total % 60) as nat, 2)
}

pub fn format_hms(total: u64) -> (r: String)
    ensures
        r@ == hms_text(total),
{
    let mut s = String::new();
    push_decimal_padded(&mut s, total / 3600, 2);
    push_str(&mut s, ":");
    push_decimal_padded(&mut s, (total % 3600) / 60, 2);
    push_str(&mut s, ":");
    push_decimal_padded(&mut s, total % 60, 2);
    s
}


/// `r` lists positions `0..n` of the saves stamped `stamps`, newest first;
/// saves stamped the same keep the order they were found in.
pub open spec fn newest_first_order(stamps: Seq<u64>, r: Seq<usize>) -> bool {
    &&& r.len() == stamps.len()
    &&& forall|i: int| 0 <= i < r.len() ==> (#[trigger] r[i] as int) < stamps.len()
    &&& forall|i: int, j: int| 0 <= i < j < r.len() ==> r[i] != r[j]
    &&& forall|i: int, j: int|
        0 <= i < j < r.len() ==> stamps[r[i] as int] > stamps[r[j] as int] || (stamps[r[i] as int]
            == stamps[r[j] as int] && r[i] < r[j])
}

/// The order the save list shows: newest first, ties in the order found.
pub fn newest_first(stamps: &Vec<u64>) -> (r: Vec<usize>)
    ensures
        newest_first_order(stamps@, r@),
{
    let n = stamps.len();
    let mut r: Vec<usize> = Vec::new();
    let mut k: usize = 0;
    while k < n
        invariant
            n == stamps@.len(),
            k <= n,
            r@.len() == k,
            forall|i: int| 0 <= i < r@.len() ==> (#[trigger] r@[i] as int) < k,
            forall|i: int, j: int| 0 <= i < j < r@.len() ==> r@[i] != r@[j],
            forall|i: int, j: int|
                0 <= i < j < r@.len() ==> stamps@[r@[i] as int] > stamps@[r@[j] as int] || (stamps@[r@[i] as int]
                    == stamps@[r@[j] as int] && r@[i] < r@[j]),
        decreases n - k,
    {
        let s = stamps[k];
        let mut p: usize = 0;
        while p < r.len() && stamps[r[p]] >= s
            invariant
                n == stamps@.len(),
                k < n,
                s == stamps@[k as int],
                p <= r@.len(),
                r@.len() == k,
                forall|i: int| 0 <= i < r@.len() ==> (#[trigger] r@[i] as int) < k,
                forall|i: int| 0 <= i < p ==> stamps@[#[trigger] r@[i] as int] >= s,
            decreases r@.len() - p,
        {
            p += 1;
        }
        let ghost before = r@;
        proof {
            // everything from p on is strictly older
            assert forall|i: int| p <= i < before.len() implies stamps@[#[trigger] before[i] as int] < s by {
                if p < before.len() {
                    assert(stamps@[before[p as int] as int] < s);
                    if i > p {
                        assert(stamps@[before[p as int] as int] > stamps@[before[i] as int] || stamps@[before[p as int] as int] == stamps@[before[i] as int]);
                    }
                }
            }
        }
        r.insert(p, k);
        proof {
            let after = r@;
            assert(after == before.insert(p as int, k));
            assert forall|i: int| 0 <= i < after.len() implies (#[trigger] after[i] as int) < k + 1 by {
                if i < p {
                    assert(after[i] == before[i]);
                } else if i > p {
                    assert(after[i] == before[i - 1]);
                }
            }
            assert forall|i: int, j: int| 0 <= i < j < after.len() implies after[i] != after[j] by {
                if i < p && j < p {
                    assert(after[i] == before[i] && after[j] == before[j]);
                } else if i < p && j == p {
                    assert(after[i] == before[i]);
                } else if i < p && j > p {
                    assert(after[i] == before[i] && after[j] == before[j - 1]);
                } else if i == p {
                    assert(after[j] == before[j - 1]);
                } else {
                    assert(after[i] == before[i - 1] && after[j] == before[j - 1]);
                }
            }
            assert forall|i: int, j: int| 0 <= i < j < after.len() implies stamps@[after[i] as int] > stamps@[after[j] as int] || (stamps@[after[i] as int] == stamps@[after[j] as int] && after[i] < after[j]) by {
                if i < p && j < p {
                    assert(after[i] == before[i] && after[j] == before[j]);
                } else if i < p && j == p {
                    assert(after[i] == before[i]);
                    assert(stamps@[before[i] as int] >= s);
                } else if i < p && j > p {
                    assert(after[i] == before[i] && after[j] == before[j - 1]);
                } else if i == p {
                    assert(after[j] == before[j - 1]);
                    assert(stamps@[before[j - 1] as int] < s);
                } else {
                    assert(after[i] == before[i - 1] && after[j] == before[j - 1]);
                }
            }
        }
        k += 1;
    }
    r
}

} // verus!
