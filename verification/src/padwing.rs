//! The readout boards of the cathode pads, their chips and their channels.

use vstd::prelude::*;
use vstd::std_specs::convert::TryFromSpecImpl;
use vstd::string::StrSliceExecFns;

pub mod map;

verus! {

/// The number of readout boards.
pub const BOARD_COUNT: usize = 64;

/// The names of the readout boards: two decimal digits each.
pub const PADWING_BOARDS: [&'static str; 64] = [
    "12", "13", "14", "02", "11", "17", "18", "19",
    "20", "21", "22", "23", "24", "25", "26", "27",
    "46", "29", "08", "77", "10", "33", "34", "35",
    "36", "37", "01", "39", "76", "41", "42", "40",
    "44", "49", "07", "78", "03", "04", "45", "15",
    "52", "53", "54", "55", "56", "57", "58", "05",
    "60", "00", "06", "63", "64", "65", "66", "67",
    "68", "69", "70", "71", "72", "73", "74", "75",
];

/// The names of the readout boards, read as numbers, in the same order.
pub const BOARD_NUMBERS: [u8; 64] = [
    12, 13, 14, 2, 11, 17, 18, 19,
    20, 21, 22, 23, 24, 25, 26, 27,
    46, 29, 8, 77, 10, 33, 34, 35,
    36, 37, 1, 39, 76, 41, 42, 40,
    44, 49, 7, 78, 3, 4, 45, 15,
    52, 53, 54, 55, 56, 57, 58, 5,
    60, 0, 6, 63, 64, 65, 66, 67,
    68, 69, 70, 71, 72, 73, 74, 75,
];

/// Where in the list of boards `number` stands first, if it stands there.
pub open spec fn board_index(number: u8) -> Option<int> {
    if exists|i: int| 0 <= i < 64 && BOARD_NUMBERS[i] == number {
        Some(
            choose|i: int|
                0 <= i < 64 && BOARD_NUMBERS[i] == number && forall|j: int|
                    0 <= j < i ==> BOARD_NUMBERS[j] != number,
        )
    } else {
        None
    }
}

/// Looks `number` up in the list of boards.
pub fn find_board(number: u8) -> (found: Option<usize>)
    ensures
        found matches Some(i) ==> i < 64 && BOARD_NUMBERS[i as int] == number && forall|j: int|
            0 <= j < i ==> BOARD_NUMBERS[j] != number,
        found is None ==> forall|j: int| 0 <= j < 64 ==> BOARD_NUMBERS[j] != number,
        found == (match board_index(number) {
            Some(i) => Some(i as usize),
            None => None,
        }),
{
    let boards = BOARD_NUMBERS;
    let mut i: usize = 0;
    while i < 64
        invariant
            i <= 64,
            boards == BOARD_NUMBERS,
            forall|j: int| 0 <= j < i ==> BOARD_NUMBERS[j] != number,
        decreases 64 - i,
    {
        if boards[i] == number {
            proof {
                let chosen = choose|k: int|
                    0 <= k < 64 && BOARD_NUMBERS[k] == number && forall|j: int|
                        0 <= j < k ==> BOARD_NUMBERS[j] != number;
                assert(chosen == i);
            }
            return Some(i);
        }
        i = i + 1;
    }
    None
}

/// The error returned when a name is not the name of a readout board.
#[derive(Clone, Copy, Debug, PartialEq, Eq, Structural)]
pub struct ParseBoardIdError;

/// A readout board, known by its name.
#[derive(Clone, Copy, Debug, PartialEq, Eq, Structural)]
pub struct BoardId {
    number: u8,
}

/// Whether `c` is a decimal digit.
pub open spec fn is_digit(c: char) -> bool {
    '0' as u32 <= c as u32 <= '9' as u32
}

/// The number that two decimal digits spell.
pub open spec fn two_digits(high: char, low: char) -> int {
    (high as u32 - '0' as u32) * 10 + (low as u32 - '0' as u32)
}

/// What a name parses to: the board it names, if it consists of two decimal
/// digits and the list of boards holds it.
pub open spec fn parse_board(name: Seq<char>) -> Result<BoardId, ParseBoardIdError> {
    if name.len() == 2 && is_digit(name[0]) && is_digit(name[1]) && board_index(
        two_digits(name[0], name[1]) as u8,
    ) is Some {
        Ok(BoardId::of(two_digits(name[0], name[1]) as u8))
    } else {
        Err(ParseBoardIdError)
    }
}

impl BoardId {
    /// Every board stands in the list of boards.
    #[verifier::type_invariant]
    closed spec fn listed(self) -> bool {
        board_index(self.number) is Some
    }

    /// The board whose name spells `number`.
    pub closed spec fn of(number: u8) -> BoardId {
        BoardId { number }
    }

    /// The number that the name of the board spells.
    pub closed spec fn number(self) -> u8 {
        self.number
    }

    /// A board is told by its number.
    pub broadcast proof fn lemma_number(number: u8)
        ensures
            #[trigger] BoardId::of(number).number() == number,
    {
    }

    /// The number that the name of the board spells, and where the board
    /// stands in the list of boards.
    pub fn place(&self) -> (r: (u8, usize))
        ensures
            r.0 == self.number(),
            board_index(self.number()) == Some(r.1 as int),
            r.1 < 64,
    {
        proof {
            use_type_invariant(self);
        }
        match find_board(self.number) {
            Some(i) => (self.number, i),
            None => (self.number, 0),
        }
    }
}

impl TryFrom<&str> for BoardId {
    type Error = ParseBoardIdError;

    fn try_from(name: &str) -> (r: Result<BoardId, ParseBoardIdError>) {
        if name.unicode_len() != 2 {
            return Err(ParseBoardIdError);
        }
        let high = name.get_char(0) as u32;
        let low = name.get_char(1) as u32;
        let zero = '0' as u32;
        let nine = '9' as u32;
        if high < zero || high > nine || low < zero || low > nine {
            return Err(ParseBoardIdError);
        }
        let number = ((high - zero) * 10 + (low - zero)) as u8;
        match find_board(number) {
            Some(_) => Ok(BoardId { number }),
            None => Err(ParseBoardIdError),
        }
    }
}

impl TryFromSpecImpl<&str> for BoardId {
    open spec fn obeys_try_from_spec() -> bool {
        true
    }

    open spec fn try_from_spec(name: &str) -> Result<BoardId, ParseBoardIdError> {
        parse_board(name@)
    }
}

/// The error returned when a character names no readout chip.
#[derive(Clone, Copy, Debug, PartialEq, Eq, Structural)]
pub struct TryAfterIdFromCharError;

/// One of the four readout chips of a board.
#[derive(Clone, Copy, Debug, PartialEq, Eq, Structural)]
pub enum AfterId {
    A,
    B,
    C,
    D,
}

impl TryFrom<char> for AfterId {
    type Error = TryAfterIdFromCharError;

    fn try_from(letter: char) -> (r: Result<AfterId, TryAfterIdFromCharError>) {
        if letter == 'A' {
            Ok(AfterId::A)
        } else if letter == 'B' {
            Ok(AfterId::B)
        } else if letter == 'C' {
            Ok(AfterId::C)
        } else if letter == 'D' {
            Ok(AfterId::D)
        } else {
            Err(TryAfterIdFromCharError)
        }
    }
}

impl TryFromSpecImpl<char> for AfterId {
    open spec fn obeys_try_from_spec() -> bool {
        true
    }

    open spec fn try_from_spec(letter: char) -> Result<AfterId, TryAfterIdFromCharError> {
        if letter == 'A' {
            Ok(AfterId::A)
        } else if letter == 'B' {
            Ok(AfterId::B)
        } else if letter == 'C' {
            Ok(AfterId::C)
        } else if letter == 'D' {
            Ok(AfterId::D)
        } else {
            Err(TryAfterIdFromCharError)
        }
    }
}

/// The error returned when a number is not the number of a channel.
#[derive(Clone, Copy, Debug, PartialEq, Eq, Structural)]
pub struct TryChannelIdFromUnsignedError;

/// The number of channels of a chip that are wired to pads.
pub const PAD_CHANNELS: u16 = 72;

/// A channel of a readout chip that is wired to a pad: one of 72, counted
/// from 1.
#[derive(Clone, Copy, Debug, PartialEq, Eq, Structural)]
pub struct PadChannelId(u16);

impl PadChannelId {
    /// Every channel has a number from 1 to 72.
    #[verifier::type_invariant]
    closed spec fn in_range(self) -> bool {
        1 <= self.0 <= PAD_CHANNELS
    }

    /// The channel with the given number.
    pub closed spec fn of(number: u16) -> PadChannelId {
        PadChannelId(number)
    }

    /// The number of the channel.
    pub closed spec fn number(self) -> u16 {
        self.0
    }

    /// A channel is told by its number.
    pub broadcast proof fn lemma_number(number: u16)
        ensures
            #[trigger] PadChannelId::of(number).number() == number,
    {
    }

    /// The number of the channel.
    pub fn get(&self) -> (n: u16)
        ensures
            n == self.number(),
            1 <= n <= PAD_CHANNELS,
    {
        proof {
            use_type_invariant(self);
        }
        self.0
    }
}

impl TryFrom<u16> for PadChannelId {
    type Error = TryChannelIdFromUnsignedError;

    fn try_from(num: u16) -> (r: Result<PadChannelId, TryChannelIdFromUnsignedError>) {
        if 1 <= num && num <= PAD_CHANNELS {
            Ok(PadChannelId(num))
        } else {
            Err(TryChannelIdFromUnsignedError)
        }
    }
}

impl TryFromSpecImpl<u16> for PadChannelId {
    open spec fn obeys_try_from_spec() -> bool {
        true
    }

    open spec fn try_from_spec(num: u16) -> Result<PadChannelId, TryChannelIdFromUnsignedError> {
        if 1 <= num <= PAD_CHANNELS {
            Ok(PadChannelId::of(num))
        } else {
            Err(TryChannelIdFromUnsignedError)
        }
    }
}

} // verus!
