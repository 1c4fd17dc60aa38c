//! The applied-modifier ("mods") bitfield: a set of named gameplay modifier
//! flags, each owning exactly one bit of an unsigned 32-bit bitmask, together
//! with any reserved bits the decoder chose to preserve.

use vstd::prelude::*;

use crate::Error;

verus! {

/// One gameplay modifier flag.  Each flag owns exactly one bit of the
/// bitmask; no two flags share a bit.
#[derive(Clone, Copy, Debug, PartialEq, Eq, Structural)]
pub enum Mod {
    NoFail,
    Easy,
    TouchDevice,
    Hidden,
    HardRock,
    SuddenDeath,
    DoubleTime,
    Relax,
    HalfTime,
    Nightcore,
    Flashlight,
    Autoplay,
    SpunOut,
    Autopilot,
    Perfect,
    Key4,
    Key5,
    Key6,
    Key7,
    Key8,
    FadeIn,
    Random,
    Cinema,
    TargetPractice,
    Key9,
    Key10,
    Key1,
    Key3,
    Key2,
}

/// Mask of every bit owned by a known flag: bits 0 through 28.
pub const KNOWN_MODS_MASK: u32 = 0x1fff_ffff;

/// The bit owned by a flag.
pub open spec fn spec_mod_bit(m: Mod) -> u32 {
    match m {
        Mod::NoFail => 0x1,
        Mod::Easy => 0x2,
        Mod::TouchDevice => 0x4,
        Mod::Hidden => 0x8,
        Mod::HardRock => 0x10,
        Mod::SuddenDeath => 0x20,
        Mod::DoubleTime => 0x40,
        Mod::Relax => 0x80,
        Mod::HalfTime => 0x100,
        Mod::Nightcore => 0x200,
        Mod::Flashlight => 0x400,
        Mod::Autoplay => 0x800,
        Mod::SpunOut => 0x1000,
        Mod::Autopilot => 0x2000,
        Mod::Perfect => 0x4000,
        Mod::Key4 => 0x8000,
        Mod::Key5 => 0x1_0000,
        Mod::Key6 => 0x2_0000,
        Mod::Key7 => 0x4_0000,
        Mod::Key8 => 0x8_0000,
        Mod::FadeIn => 0x10_0000,
        Mod::Random => 0x20_0000,
        Mod::Cinema => 0x40_0000,
        Mod::TargetPractice => 0x80_0000,
        Mod::Key9 => 0x100_0000,
        Mod::Key10 => 0x200_0000,
        Mod::Key1 => 0x400_0000,
        Mod::Key3 => 0x800_0000,
        Mod::Key2 => 0x1000_0000,
    }
}

/// Every flag's bit lies inside [`KNOWN_MODS_MASK`].
pub proof fn lemma_mod_bit_known(m: Mod)
    ensures
        spec_mod_bit(m) & KNOWN_MODS_MASK == spec_mod_bit(m),
{
    assert(forall|b: u32| b < 0x2000_0000 ==> #[trigger] (b & 0x1fff_ffffu32) == b)
        by (bit_vector);
}

/// The bit owned by a flag.
#[verifier::when_used_as_spec(spec_mod_bit)]
pub fn mod_bit(m: Mod) -> (b: u32)
    ensures
        b == spec_mod_bit(m),
{
    match m {
        Mod::NoFail => 0x1,
        Mod::Easy => 0x2,
        Mod::TouchDevice => 0x4,
        Mod::Hidden => 0x8,
        Mod::HardRock => 0x10,
        Mod::SuddenDeath => 0x20,
        Mod::DoubleTime => 0x40,
        Mod::Relax => 0x80,
        Mod::HalfTime => 0x100,
        Mod::Nightcore => 0x200,
        Mod::Flashlight => 0x400,
        Mod::Autoplay => 0x800,
        Mod::SpunOut => 0x1000,
        Mod::Autopilot => 0x2000,
        Mod::Perfect => 0x4000,
        Mod::Key4 => 0x8000,
        Mod::Key5 => 0x1_0000,
        Mod::Key6 => 0x2_0000,
        Mod::Key7 => 0x4_0000,
        Mod::Key8 => 0x8_0000,
        Mod::FadeIn => 0x10_0000,
        Mod::Random => 0x20_0000,
        Mod::Cinema => 0x40_0000,
        Mod::TargetPractice => 0x80_0000,
        Mod::Key9 => 0x100_0000,
        Mod::Key10 => 0x200_0000,
        Mod::Key1 => 0x400_0000,
        Mod::Key3 => 0x800_0000,
        Mod::Key2 => 0x1000_0000,
    }
}

/// A set of modifier flags plus an opaque remainder of reserved bits.
///
/// Keeping the reserved bits apart from the known flags means a bitmask
/// written by a newer client loses nothing when it passes through this
/// library: decoding and re-encoding returns the very same integer.
#[derive(Clone, Copy, Debug, PartialEq, Eq, Structural)]
pub struct ModSet {
    /// The union of the bits of every member flag.
    pub known: u32,
    /// Reserved bits the source bitmask carried; disjoint from every flag.
    pub unknown: u32,
}

impl ModSet {
    /// The two halves stay on their own sides of [`KNOWN_MODS_MASK`].
    pub open spec fn wf(self) -> bool {
        &&& self.known & KNOWN_MODS_MASK == self.known
        &&& self.unknown & KNOWN_MODS_MASK == 0
    }

    /// The bitmask this set renders back to.
    pub open spec fn spec_bits(self) -> u32 {
        self.known | self.unknown
    }

    /// The set a bitmask decomposes into.
    pub open spec fn spec_from_bitmask(value: u32) -> ModSet {
        ModSet { known: value & KNOWN_MODS_MASK, unknown: value & !KNOWN_MODS_MASK }
    }

    /// Membership of a flag.
    pub open spec fn spec_contains(self, m: Mod) -> bool {
        self.known & spec_mod_bit(m) != 0
    }

    /// Decomposes a bitmask into the known flags whose bit is set plus the
    /// reserved remainder.  Every 32-bit value is representable, so this
    /// cannot fail.
    pub fn from_bitmask(value: u32) -> (r: ModSet)
        ensures
            r == ModSet::spec_from_bitmask(value),
            r.wf(),
            r.spec_bits() == value,
    {
        let r = ModSet { known: value & KNOWN_MODS_MASK, unknown: value & !KNOWN_MODS_MASK };
        proof {
            ModSet::lemma_from_bitmask_bits(value);
        }
        r
    }

    /// ORs the member flags' bits back together with the reserved remainder.
    pub fn to_bitmask(self) -> (r: u32)
        ensures
            r == self.spec_bits(),
    {
        self.known | self.unknown
    }

    /// Membership of a flag.
    pub fn contains(&self, m: Mod) -> (r: bool)
        ensures
            r == self.spec_contains(m),
    {
        self.known & mod_bit(m) != 0
    }

    /// A decomposed bitmask is well formed and renders back to its source.
    pub proof fn lemma_from_bitmask_bits(value: u32)
        ensures
            ModSet::spec_from_bitmask(value).wf(),
            ModSet::spec_from_bitmask(value).spec_bits() == value,
    {
        assert((value & 0x1fff_ffffu32) & 0x1fff_ffffu32 == value & 0x1fff_ffffu32
            && (value & !0x1fff_ffffu32) & 0x1fff_ffffu32 == 0
            && ((value & 0x1fff_ffffu32) | (value & !0x1fff_ffffu32)) == value) by (bit_vector);
    }

    /// Law: rendering any bitmask through the mod set and back returns the
    /// same integer, reserved bits included.
    pub proof fn lemma_bitmask_round_trip(value: u32)
        ensures
            ModSet::spec_from_bitmask(value).spec_bits() == value,
    {
        ModSet::lemma_from_bitmask_bits(value);
    }

    /// Law: a well-formed mod set survives rendering to a bitmask and
    /// decomposing again unchanged.
    pub proof fn lemma_modset_round_trip(s: ModSet)
        requires
            s.wf(),
        ensures
            ModSet::spec_from_bitmask(s.spec_bits()) == s,
    {
        let k = s.known;
        let u = s.unknown;
        assert(k & 0x1fff_ffffu32 == k && u & 0x1fff_ffffu32 == 0 ==> ((k | u) & 0x1fff_ffffu32
            == k && (k | u) & !0x1fff_ffffu32 == u)) by (bit_vector);
    }
}

/// A character's code, with ASCII lower-case letters folded to upper case.
pub open spec fn spec_upper(c: char) -> u32 {
    if 'a' <= c && c <= 'z' {
        (c as u32 - 32) as u32
    } else {
        c as u32
    }
}

/// A character's code, with ASCII lower-case letters folded to upper case.
#[verifier::when_used_as_spec(spec_upper)]
pub fn upper(c: char) -> (r: u32)
    ensures
        r == spec_upper(c),
{
    if 'a' <= c && c <= 'z' {
        c as u32 - 32
    } else {
        c as u32
    }
}

/// The flag a two-character short name denotes, matched case-insensitively,
/// or `None` for an unrecognized token.
pub open spec fn spec_mod_of(c1: char, c2: char) -> Option<Mod> {
    let a = spec_upper(c1);
    let b = spec_upper(c2);
    if a == 'N' as u32 && b == 'F' as u32 {
        Some(Mod::NoFail)
    } else if a == 'E' as u32 && b == 'Z' as u32 {
        Some(Mod::Easy)
    } else if (a == 'T' as u32 && b == 'D' as u32) || (a == 'N' as u32 && b == 'V' as u32) {
        Some(Mod::TouchDevice)
    } else if a == 'H' as u32 && b == 'D' as u32 {
        Some(Mod::Hidden)
    } else if a == 'H' as u32 && b == 'R' as u32 {
        Some(Mod::HardRock)
    } else if a == 'S' as u32 && b == 'D' as u32 {
        Some(Mod::SuddenDeath)
    } else if a == 'D' as u32 && b == 'T' as u32 {
        Some(Mod::DoubleTime)
    } else if (a == 'R' as u32 && b == 'X' as u32) || (a == 'R' as u32 && b == 'L' as u32) {
        Some(Mod::Relax)
    } else if a == 'H' as u32 && b == 'T' as u32 {
        Some(Mod::HalfTime)
    } else if a == 'N' as u32 && b == 'C' as u32 {
        Some(Mod::Nightcore)
    } else if a == 'F' as u32 && b == 'L' as u32 {
        Some(Mod::Flashlight)
    } else if a == 'A' as u32 && b == 'U' as u32 {
        Some(Mod::Autoplay)
    } else if a == 'S' as u32 && b == 'O' as u32 {
        Some(Mod::SpunOut)
    } else if a == 'A' as u32 && b == 'P' as u32 {
        Some(Mod::Autopilot)
    } else if a == 'P' as u32 && b == 'F' as u32 {
        Some(Mod::Perfect)
    } else if a == '4' as u32 && b == 'K' as u32 {
        Some(Mod::Key4)
    } else if a == '5' as u32 && b == 'K' as u32 {
        Some(Mod::Key5)
    } else if a == '6' as u32 && b == 'K' as u32 {
        Some(Mod::Key6)
    } else if a == '7' as u32 && b == 'K' as u32 {
        Some(Mod::Key7)
    } else if a == '8' as u32 && b == 'K' as u32 {
        Some(Mod::Key8)
    } else if a == 'F' as u32 && b == 'I' as u32 {
        Some(Mod::FadeIn)
    } else if a == 'R' as u32 && b == 'D' as u32 {
        Some(Mod::Random)
    } else if a == 'C' as u32 && b == 'M' as u32 {
        Some(Mod::Cinema)
    } else if a == 'T' as u32 && b == 'P' as u32 {
        Some(Mod::TargetPractice)
    } else if a == '9' as u32 && b == 'K' as u32 {
        Some(Mod::Key9)
    } else if a == '1' as u32 && b == 'K' as u32 {
        Some(Mod::Key1)
    } else if a == '3' as u32 && b == 'K' as u32 {
        Some(Mod::Key3)
    } else if a == '2' as u32 && b == 'K' as u32 {
        Some(Mod::Key2)
    } else {
        None
    }
}

/// The flag a two-character short name denotes, matched case-insensitively.
pub fn mod_of(c1: char, c2: char) -> (r: Option<Mod>)
    ensures
        r == spec_mod_of(c1, c2),
{
    let a = upper(c1);
    let b = upper(c2);
    if a == 'N' as u32 && b == 'F' as u32 {
        Some(Mod::NoFail)
    } else if a == 'E' as u32 && b == 'Z' as u32 {
        Some(Mod::Easy)
    } else if (a == 'T' as u32 && b == 'D' as u32) || (a == 'N' as u32 && b == 'V' as u32) {
        Some(Mod::TouchDevice)
    } else if a == 'H' as u32 && b == 'D' as u32 {
        Some(Mod::Hidden)
    } else if a == 'H' as u32 && b == 'R' as u32 {
        Some(Mod::HardRock)
    } else if a == 'S' as u32 && b == 'D' as u32 {
        Some(Mod::SuddenDeath)
    } else if a == 'D' as u32 && b == 'T' as u32 {
        Some(Mod::DoubleTime)
    } else if (a == 'R' as u32 && b == 'X' as u32) || (a == 'R' as u32 && b == 'L' as u32) {
        Some(Mod::Relax)
    } else if a == 'H' as u32 && b == 'T' as u32 {
        Some(Mod::HalfTime)
    } else if a == 'N' as u32 && b == 'C' as u32 {
        Some(Mod::Nightcore)
    } else if a == 'F' as u32 && b == 'L' as u32 {
        Some(Mod::Flashlight)
    } else if a == 'A' as u32 && b == 'U' as u32 {
        Some(Mod::Autoplay)
    } else if a == 'S' as u32 && b == 'O' as u32 {
        Some(Mod::SpunOut)
    } else if a == 'A' as u32 && b == 'P' as u32 {
        Some(Mod::Autopilot)
    } else if a == 'P' as u32 && b == 'F' as u32 {
        Some(Mod::Perfect)
    } else if a == '4' as u32 && b == 'K' as u32 {
        Some(Mod::Key4)
    } else if a == '5' as u32 && b == 'K' as u32 {
        Some(Mod::Key5)
    } else if a == '6' as u32 && b == 'K' as u32 {
        Some(Mod::Key6)
    } else if a == '7' as u32 && b == 'K' as u32 {
        Some(Mod::Key7)
    } else if a == '8' as u32 && b == 'K' as u32 {
        Some(Mod::Key8)
    } else if a == 'F' as u32 && b == 'I' as u32 {
        Some(Mod::FadeIn)
    } else if a == 'R' as u32 && b == 'D' as u32 {
        Some(Mod::Random)
    } else if a == 'C' as u32 && b == 'M' as u32 {
        Some(Mod::Cinema)
    } else if a == 'T' as u32 && b == 'P' as u32 {
        Some(Mod::TargetPractice)
    } else if a == '9' as u32 && b == 'K' as u32 {
        Some(Mod::Key9)
    } else if a == '1' as u32 && b == 'K' as u32 {
        Some(Mod::Key1)
    } else if a == '3' as u32 && b == 'K' as u32 {
        Some(Mod::Key3)
    } else if a == '2' as u32 && b == 'K' as u32 {
        Some(Mod::Key2)
    } else {
        None
    }
}

/// The input with its leading `+` signs removed.
pub open spec fn spec_skip_plus(s: Seq<char>) -> Seq<char>
    decreases s.len(),
{
    if s.len() > 0 && s[0] == '+' {
        spec_skip_plus(s.skip(1))
    } else {
        s
    }
}

/// Parses a token list, two characters per token with the separator between
/// consecutive tokens, ORing each token's bit into `acc`.  An empty or
/// ill-delimited list and an unrecognized token are both reported as
/// [`Error::UnknownModName`].
pub open spec fn spec_parse_tokens(s: Seq<char>, sep: Seq<char>, acc: u32) -> Result<u32, Error>
    decreases s.len(),
{
    if s.len() < 2 {
        Err(Error::UnknownModName)
    } else {
        match spec_mod_of(s[0], s[1]) {
            None => Err(Error::UnknownModName),
            Some(m) => {
                let acc2 = acc | spec_mod_bit(m);
                let rest = s.skip(2);
                if rest.len() == 0 {
                    Ok(acc2)
                } else if rest.len() >= sep.len() && rest.take(sep.len() as int) == sep {
                    spec_parse_tokens(rest.skip(sep.len() as int), sep, acc2)
                } else {
                    Err(Error::UnknownModName)
                }
            },
        }
    }
}

/// What [`ModSet::parse_from_str`] returns: the leading `+` signs are
/// dropped, then the separated two-character tokens are folded into a set.
pub open spec fn spec_parse_mods(s: Seq<char>, sep: Seq<char>) -> Result<ModSet, Error> {
    match spec_parse_tokens(spec_skip_plus(s), sep, 0) {
        Ok(bits) => Ok(ModSet { known: bits, unknown: 0 }),
        Err(e) => Err(e),
    }
}

impl ModSet {
    /// Maps each separator-delimited token case-insensitively to its flag and
    /// returns their union; an empty separator means fixed-width
    /// two-character tokens.  Duplicate tokens are idempotent.  Fails with
    /// [`Error::UnknownModName`] if any token does not match a known short
    /// name.
    pub fn parse_from_str(tokens: &str, separator: &str) -> (r: Result<ModSet, Error>)
        ensures
            r == spec_parse_mods(tokens@, separator@),
            r matches Ok(ms) ==> ms.wf(),
    {
        let s = crate::chars_of(tokens);
        let sep = crate::chars_of(separator);
        let mut i: usize = 0;
        proof {
            assert(s@.skip(0) =~= s@);
        }
        while i < s.len() && s[i] == '+'
            invariant
                i <= s@.len(),
                s@ == tokens@,
                spec_skip_plus(tokens@) == spec_skip_plus(s@.skip(i as int)),
            decreases s@.len() - i,
        {
            proof {
                assert(s@.skip(i as int).skip(1) =~= s@.skip(i as int + 1));
            }
            i = i + 1;
        }
        proof {
            assert(spec_skip_plus(s@.skip(i as int)) == s@.skip(i as int));
        }
        let ghost trimmed = s@.skip(i as int);
        let mut acc: u32 = 0;
        proof {
            assert(0u32 & 0x1fff_ffffu32 == 0) by (bit_vector);
        }
        loop
            invariant
                i <= s@.len(),
                s@ == tokens@,
                sep@ == separator@,
                acc & KNOWN_MODS_MASK == acc,
                spec_parse_tokens(trimmed, sep@, 0) == spec_parse_tokens(
                    s@.skip(i as int),
                    sep@,
                    acc,
                ),
                spec_parse_mods(tokens@, separator@) == (match spec_parse_tokens(
                    trimmed,
                    sep@,
                    0,
                ) {
                    Ok(bits) => Ok::<ModSet, Error>(ModSet { known: bits, unknown: 0 }),
                    Err(e) => Err(e),
                }),
            decreases s@.len() - i,
        {
            if s.len() - i < 2 {
                return Err(Error::UnknownModName);
            }
            proof {
                let rest0 = s@.skip(i as int);
                assert(rest0[0] == s@[i as int]);
                assert(rest0[1] == s@[i as int + 1]);
            }
            let m = match mod_of(s[i], s[i + 1]) {
                None => {
                    return Err(Error::UnknownModName);
                },
                Some(m) => m,
            };
            let bit = mod_bit(m);
            proof {
                lemma_mod_bit_known(m);
                let a = acc;
                let b = bit;
                assert(a & 0x1fff_ffffu32 == a && b & 0x1fff_ffffu32 == b ==> (a | b)
                    & 0x1fff_ffffu32 == (a | b)) by (bit_vector);
            }
            acc = acc | bit;
            proof {
                assert(s@.skip(i as int).skip(2) =~= s@.skip(i as int + 2));
            }
            i = i + 2;
            if i == s.len() {
                proof {
                    assert(0u32 & 0x1fff_ffffu32 == 0) by (bit_vector);
                }
                return Ok(ModSet { known: acc, unknown: 0 });
            }
            if s.len() - i < sep.len() {
                proof {
                    assert(s@.skip(i as int).len() < sep@.len());
                }
                return Err(Error::UnknownModName);
            }
            let mut j: usize = 0;
            let slen = s.len();
            proof {
                assert(spec_parse_tokens(trimmed, sep@, 0) == (if s@.skip(i as int).take(
                    sep@.len() as int,
                ) == sep@ {
                    spec_parse_tokens(s@.skip(i as int).skip(sep@.len() as int), sep@, acc)
                } else {
                    Err::<u32, Error>(Error::UnknownModName)
                }));
            }
            while j < sep.len()
                invariant
                    j <= sep@.len(),
                    i + sep@.len() <= s@.len(),
                    s@.len() == slen,
                    s@ == tokens@,
                    sep@ == separator@,
                    acc & KNOWN_MODS_MASK == acc,
                    forall|k: int| 0 <= k < j ==> s@[i + k] == sep@[k],
                    spec_parse_mods(tokens@, separator@) == (match spec_parse_tokens(
                        trimmed,
                        sep@,
                        0,
                    ) {
                        Ok(bits) => Ok::<ModSet, Error>(ModSet { known: bits, unknown: 0 }),
                        Err(e) => Err(e),
                    }),
                    spec_parse_tokens(trimmed, sep@, 0) == (if s@.skip(i as int).take(
                        sep@.len() as int,
                    ) == sep@ {
                        spec_parse_tokens(s@.skip(i as int).skip(sep@.len() as int), sep@, acc)
                    } else {
                        Err::<u32, Error>(Error::UnknownModName)
                    }),
                decreases sep@.len() - j,
            {
                if s[i + j] != sep[j] {
                    proof {
                        let rest = s@.skip(i as int);
                        assert(rest.take(sep@.len() as int)[j as int] == s@[i + j]);
                        assert(rest.take(sep@.len() as int) != sep@);
                    }
                    return Err(Error::UnknownModName);
                }
                j = j + 1;
            }
            proof {
                let rest = s@.skip(i as int);
                assert(rest.take(sep@.len() as int) =~= sep@);
                assert(rest.skip(sep@.len() as int) =~= s@.skip(i as int + sep@.len() as int));
            }
            i = i + sep.len();
        }
    }
}

} // verus!
