//! The in-memory replay record: every field of a replay file, held as plain
//! values.  The record is a faithful transport — no semantic validation
//! beyond the widths of its fields — so a decoded record re-encodes
//! byte-exactly.

use vstd::prelude::*;

use crate::mods::{Mod, ModSet};

verus! {

/// The gameplay mode a replay was recorded for.
#[derive(Clone, Copy, Debug, PartialEq, Eq, Structural)]
pub enum Mode {
    Osu,
    Taiko,
    Catch,
    Mania,
}

/// The byte that encodes a mode.
pub open spec fn spec_mode_byte(m: Mode) -> u8 {
    match m {
        Mode::Osu => 0,
        Mode::Taiko => 1,
        Mode::Catch => 2,
        Mode::Mania => 3,
    }
}

/// The byte that encodes a mode.
#[verifier::when_used_as_spec(spec_mode_byte)]
pub fn mode_byte(m: Mode) -> (b: u8)
    ensures
        b == spec_mode_byte(m),
{
    match m {
        Mode::Osu => 0,
        Mode::Taiko => 1,
        Mode::Catch => 2,
        Mode::Mania => 3,
    }
}

/// The mode a byte denotes, or `None` for a byte outside the enumeration.
pub open spec fn spec_mode_of_byte(b: u8) -> Option<Mode> {
    if b == 0 {
        Some(Mode::Osu)
    } else if b == 1 {
        Some(Mode::Taiko)
    } else if b == 2 {
        Some(Mode::Catch)
    } else if b == 3 {
        Some(Mode::Mania)
    } else {
        None
    }
}

/// The mode a byte denotes, or `None` for a byte outside the enumeration.
#[verifier::when_used_as_spec(spec_mode_of_byte)]
pub fn mode_of_byte(b: u8) -> (r: Option<Mode>)
    ensures
        r == spec_mode_of_byte(b),
{
    if b == 0 {
        Some(Mode::Osu)
    } else if b == 1 {
        Some(Mode::Taiko)
    } else if b == 2 {
        Some(Mode::Catch)
    } else if b == 3 {
        Some(Mode::Mania)
    } else {
        None
    }
}

/// One replay record.  String fields distinguish "absent" (`None`) from
/// "present but empty" (`Some` of an empty string), exactly as the on-disk
/// format does with its presence byte.
#[derive(Clone, Debug, PartialEq, Eq)]
pub struct Replay {
    /// The gameplay mode.
    pub mode: Mode,
    /// The client version the replay was recorded on.
    pub version: u32,
    /// Hash of the beatmap the replay plays.
    pub beatmap_hash: Option<String>,
    /// The player's name.
    pub player_username: Option<String>,
    /// Hash of the replay itself.
    pub replay_hash: Option<String>,
    /// Count of 300-point judgements.
    pub count_300: u16,
    /// Count of 100-point judgements.
    pub count_100: u16,
    /// Count of 50-point judgements.
    pub count_50: u16,
    /// Count of geki judgements.
    pub count_geki: u16,
    /// Count of katu judgements.
    pub count_katu: u16,
    /// Count of misses.
    pub count_miss: u16,
    /// Total score as shown on the score report.
    pub score: u32,
    /// Longest combo as shown on the score report.
    pub max_combo: u16,
    /// Whether the play was perfect.
    pub perfect: bool,
    /// The applied modifiers.
    pub mods: ModSet,
    /// The textual time/health curve, if present.
    pub life_graph: Option<String>,
    /// Ticks of 100 ns since the start of year 1.
    pub timestamp: u64,
    /// The compressed input-action stream, carried through untouched.
    pub action_data: Vec<u8>,
    /// Online identifier of the score; 0 for offline replays.
    pub score_id: u64,
    /// Bit pattern of the target-practice accuracy value, present exactly
    /// when the target-practice modifier is set.
    pub target_practice_accuracy: Option<u64>,
}

/// The mathematical image of a [`Replay`]: text as character sequences, the
/// action stream as a byte sequence.
pub struct ReplayView {
    pub mode: Mode,
    pub version: u32,
    pub beatmap_hash: Option<Seq<char>>,
    pub player_username: Option<Seq<char>>,
    pub replay_hash: Option<Seq<char>>,
    pub count_300: u16,
    pub count_100: u16,
    pub count_50: u16,
    pub count_geki: u16,
    pub count_katu: u16,
    pub count_miss: u16,
    pub score: u32,
    pub max_combo: u16,
    pub perfect: bool,
    pub mods: ModSet,
    pub life_graph: Option<Seq<char>>,
    pub timestamp: u64,
    pub action_data: Seq<u8>,
    pub score_id: u64,
    pub target_practice_accuracy: Option<u64>,
}

impl ReplayView {
    /// Structural validity: the mod set keeps its two halves apart, and the
    /// trailing accuracy field is present exactly when the target-practice
    /// modifier is set.
    pub open spec fn wf(self) -> bool {
        &&& self.mods.wf()
        &&& (self.target_practice_accuracy is Some <==> self.mods.spec_contains(
            Mod::TargetPractice,
        ))
    }
}

impl View for Replay {
    type V = ReplayView;

    open spec fn view(&self) -> ReplayView {
        ReplayView {
            mode: self.mode,
            version: self.version,
            beatmap_hash: self.beatmap_hash.deep_view(),
            player_username: self.player_username.deep_view(),
            replay_hash: self.replay_hash.deep_view(),
            count_300: self.count_300,
            count_100: self.count_100,
            count_50: self.count_50,
            count_geki: self.count_geki,
            count_katu: self.count_katu,
            count_miss: self.count_miss,
            score: self.score,
            max_combo: self.max_combo,
            perfect: self.perfect,
            mods: self.mods,
            life_graph: self.life_graph.deep_view(),
            timestamp: self.timestamp,
            action_data: self.action_data@,
            score_id: self.score_id,
            target_practice_accuracy: self.target_practice_accuracy,
        }
    }
}

impl Replay {
    /// Structural validity of the record; encoding is defined exactly on
    /// well-formed records.
    pub fn is_wf(&self) -> (b: bool)
        ensures
            b == self@.wf(),
    {
        self.mods.known & crate::mods::KNOWN_MODS_MASK == self.mods.known
            && self.mods.unknown & crate::mods::KNOWN_MODS_MASK == 0 && (match self
            .target_practice_accuracy {
            Some(_) => self.mods.contains(Mod::TargetPractice),
            None => !self.mods.contains(Mod::TargetPractice),
        })
    }
}

} // verus!
