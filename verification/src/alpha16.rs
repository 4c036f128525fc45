//! The digitizer boards that read out the veto detector and the anode wires,
//! and their channels.

use vstd::prelude::*;
use vstd::std_specs::convert::TryFromSpecImpl;
use vstd::string::StrSliceExecFns;

verus! {

/// The error returned when a number is not the number of a channel.
#[derive(Clone, Copy, Debug, PartialEq, Eq, Structural)]
pub struct TryChannelIdFromUnsignedError;

/// The number of channels that read out the veto detector on one board.
pub const ADC16_CHANNELS: u8 = 16;

/// The number of channels that read out anode wires on one board.
pub const ADC32_CHANNELS: u8 = 32;

/// A channel that reads out the veto detector: one of 16 on a board.
#[derive(Clone, Copy, Debug, PartialEq, Eq, Structural)]
pub struct Adc16ChannelId(u8);

impl Adc16ChannelId {
    /// The channel with the given number.
    pub closed spec fn of(number: u8) -> Adc16ChannelId {
        Adc16ChannelId(number)
    }

    /// The number of the channel.
    pub closed spec fn number(self) -> u8 {
        self.0
    }

    /// A channel is told by its number.
    pub broadcast proof fn lemma_number(number: u8)
        ensures
            #[trigger] Adc16ChannelId::of(number).number() == number,
    {
    }

    /// The number of the channel.
    pub fn get(&self) -> (n: u8)
        ensures
            n == self.number(),
    {
        self.0
    }
}

impl TryFrom<u8> for Adc16ChannelId {
    type Error = TryChannelIdFromUnsignedError;

    fn try_from(num: u8) -> (r: Result<Adc16ChannelId, TryChannelIdFromUnsignedError>) {
        if num < ADC16_CHANNELS {
            Ok(Adc16ChannelId(num))
        } else {
            Err(TryChannelIdFromUnsignedError)
        }
    }
}

impl TryFromSpecImpl<u8> for Adc16ChannelId {
    open spec fn obeys_try_from_spec() -> bool {
        true
    }

    open spec fn try_from_spec(num: u8) -> Result<Adc16ChannelId, TryChannelIdFromUnsignedError> {
        if num < ADC16_CHANNELS {
            Ok(Adc16ChannelId::of(num))
        } else {
            Err(TryChannelIdFromUnsignedError)
        }
    }
}

/// A channel that reads out an anode wire: one of 32 on a board.
#[derive(Clone, Copy, Debug, PartialEq, Eq, Structural)]
pub struct Adc32ChannelId(u8);

impl Adc32ChannelId {
    /// The channel with the given number.
    pub closed spec fn of(number: u8) -> Adc32ChannelId {
        Adc32ChannelId(number)
    }

    /// The number of the channel.
    pub closed spec fn number(self) -> u8 {
        self.0
    }

    /// A channel is told by its number.
    pub broadcast proof fn lemma_number(number: u8)
        ensures
            #[trigger] Adc32ChannelId::of(number).number() == number,
    {
    }

    /// The number of the channel.
    pub fn get(&self) -> (n: u8)
        ensures
            n == self.number(),
    {
        self.0
    }
}

impl TryFrom<u8> for Adc32ChannelId {
    type Error = TryChannelIdFromUnsignedError;

    fn try_from(num: u8) -> (r: Result<Adc32ChannelId, TryChannelIdFromUnsignedError>) {
        if num < ADC32_CHANNELS {
            Ok(Adc32ChannelId(num))
        } else {
            Err(TryChannelIdFromUnsignedError)
        }
    }
}

impl TryFromSpecImpl<u8> for Adc32ChannelId {
    open spec fn obeys_try_from_spec() -> bool {
        true
    }

    open spec fn try_from_spec(num: u8) -> Result<Adc32ChannelId, TryChannelIdFromUnsignedError> {
        if num < ADC32_CHANNELS {
            Ok(Adc32ChannelId::of(num))
        } else {
            Err(TryChannelIdFromUnsignedError)
        }
    }
}

/// A channel of a digitizer board, of either kind.
#[derive(Clone, Copy, Debug, PartialEq, Eq, Structural)]
pub enum ChannelId {
    /// A channel that reads out the veto detector.
    A16(Adc16ChannelId),
    /// A channel that reads out an anode wire.
    A32(Adc32ChannelId),
}

/// The error returned when a name is not the name of a board.
#[derive(Clone, Copy, Debug, PartialEq, Eq, Structural)]
pub struct ParseBoardIdError;

/// Whether the two characters are the name of a board in use.
pub open spec fn known_board(high: char, low: char) -> bool {
    ||| (high == '0' && low == '9')
    ||| (high == '1' && low == '0')
    ||| (high == '1' && low == '1')
    ||| (high == '1' && low == '2')
    ||| (high == '1' && low == '3')
    ||| (high == '1' && low == '4')
    ||| (high == '1' && low == '6')
    ||| (high == '1' && low == '8')
}

/// A digitizer board, known by the two characters of its name.
#[derive(Clone, Copy, Debug, PartialEq, Eq, Structural)]
pub struct BoardId {
    high: char,
    low: char,
}

impl BoardId {
    /// The board with the given name.
    pub closed spec fn of(high: char, low: char) -> BoardId {
        BoardId { high, low }
    }

    /// The name of the board.
    pub closed spec fn name(self) -> Seq<char> {
        seq![self.high, self.low]
    }

    /// A board is told by its name.
    pub broadcast proof fn lemma_name(high: char, low: char)
        ensures
            #[trigger] BoardId::of(high, low).name() == seq![high, low],
    {
    }

    /// The two characters of the board's name.
    pub fn name_chars(&self) -> (n: (char, char))
        ensures
            seq![n.0, n.1] == self.name(),
    {
        (self.high, self.low)
    }

    /// The board named by two characters, if such a board is in use.
    pub fn from_chars(high: char, low: char) -> (r: Result<BoardId, ParseBoardIdError>)
        ensures
            r == (if known_board(high, low) {
                Ok::<BoardId, ParseBoardIdError>(BoardId::of(high, low))
            } else {
                Err::<BoardId, ParseBoardIdError>(ParseBoardIdError)
            }),
    {
        let known = (high == '0' && low == '9') || (high == '1' && (low == '0' || low == '1' || low
            == '2' || low == '3' || low == '4' || low == '6' || low == '8'));
        if known {
            Ok(BoardId { high, low })
        } else {
            Err(ParseBoardIdError)
        }
    }
}

/// What a name parses to: the board it names, if it has two characters and
/// such a board is in use.
pub open spec fn parse_board(name: Seq<char>) -> Result<BoardId, ParseBoardIdError> {
    if name.len() == 2 && known_board(name[0], name[1]) {
        Ok(BoardId::of(name[0], name[1]))
    } else {
        Err(ParseBoardIdError)
    }
}

impl TryFrom<&str> for BoardId {
    type Error = ParseBoardIdError;

    fn try_from(name: &str) -> (r: Result<BoardId, ParseBoardIdError>) {
        if name.unicode_len() != 2 {
            return Err(ParseBoardIdError);
        }
        BoardId::from_chars(name.get_char(0), name.get_char(1))
    }
}

impl TryFromSpecImpl<&str> for BoardId {
    open spec fn obeys_try_from_spec() -> bool {
        true
    }

    open spec fn try_from_spec(name: &str) -> Result<BoardId, ParseBoardIdError> {
        parse_board(name@)
    }
}

} // verus!
