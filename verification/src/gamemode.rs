use vstd::prelude::*;

verus! {

/// The error a game-mode name that is not recognised parses to.
#[derive(Debug, PartialEq, Eq, Structural)]
pub struct ParseGameModeError;

/// A player's game mode.
#[derive(Clone, Copy, Debug, PartialEq, Eq, Structural)]
pub enum GameMode {
    Survival,
    Creative,
    Adventure,
    Spectator,
}

/// A game mode that may also be left undefined, as the respawn screen allows.
#[derive(Clone, Copy, Debug, PartialEq, Eq, Structural)]
pub enum OptionalGameMode {
    Undefined,
    Survival,
    Creative,
    Adventure,
    Spectator,
}

impl GameMode {
    pub open spec fn to_optional_spec(self) -> OptionalGameMode {
        match self {
            GameMode::Survival => OptionalGameMode::Survival,
            GameMode::Creative => OptionalGameMode::Creative,
            GameMode::Adventure => OptionalGameMode::Adventure,
            GameMode::Spectator => OptionalGameMode::Spectator,
        }
    }

    pub fn to_optional(&self) -> (r: OptionalGameMode)
        ensures
            r == self.to_optional_spec(),
    {
        match self {
            Self::Survival => OptionalGameMode::Survival,
            Self::Creative => OptionalGameMode::Creative,
            Self::Adventure => OptionalGameMode::Adventure,
            Self::Spectator => OptionalGameMode::Spectator,
        }
    }
}

/// Whether two strings hold the same bytes.
fn str_eq(a: &str, b: &str) -> bool {
    let av = vstd::slice::slice_to_vec(a.as_bytes());
    let bv = vstd::slice::slice_to_vec(b.as_bytes());
    crate::byteops::bytes_eq(&av, &bv)
}

impl std::str::FromStr for GameMode {
    type Err = ParseGameModeError;

    /// Parses a lowercase game-mode name; any other word is rejected.
    fn from_str(s: &str) -> Result<GameMode, ParseGameModeError> {
        if str_eq(s, "survival") {
            Ok(GameMode::Survival)
        } else if str_eq(s, "creative") {
            Ok(GameMode::Creative)
        } else if str_eq(s, "adventure") {
            Ok(GameMode::Adventure)
        } else if str_eq(s, "spectator") {
            Ok(GameMode::Spectator)
        } else {
            Err(ParseGameModeError)
        }
    }
}

impl From<u8> for GameMode {
    /// Decodes the wire byte for a game mode; any byte past the known modes
    /// falls back to survival.
    fn from(value: u8) -> (r: Self) {
        match value {
            0 => Self::Survival,
            1 => Self::Creative,
            2 => Self::Adventure,
            3 => Self::Spectator,
            _ => Self::Survival,
        }
    }
}

impl vstd::std_specs::convert::FromSpecImpl<u8> for GameMode {
    open spec fn obeys_from_spec() -> bool {
        true
    }

    open spec fn from_spec(value: u8) -> Self {
        if value == 1 {
            GameMode::Creative
        } else if value == 2 {
            GameMode::Adventure
        } else if value == 3 {
            GameMode::Spectator
        } else {
            GameMode::Survival
        }
    }
}

impl From<i8> for OptionalGameMode {
    /// Decodes the wire byte for an optional game mode; `-1` means undefined,
    /// and any value past the known modes falls back to survival.
    fn from(value: i8) -> (r: Self) {
        match value {
            -1 => Self::Undefined,
            0 => Self::Survival,
            1 => Self::Creative,
            2 => Self::Adventure,
            3 => Self::Spectator,
            _ => Self::Survival,
        }
    }
}

impl vstd::std_specs::convert::FromSpecImpl<i8> for OptionalGameMode {
    open spec fn obeys_from_spec() -> bool {
        true
    }

    open spec fn from_spec(value: i8) -> Self {
        if value == -1 {
            OptionalGameMode::Undefined
        } else if value == 1 {
            OptionalGameMode::Creative
        } else if value == 2 {
            OptionalGameMode::Adventure
        } else if value == 3 {
            OptionalGameMode::Spectator
        } else {
            OptionalGameMode::Survival
        }
    }
}

} // verus!
