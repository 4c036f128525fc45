//! Names of the data banks in an event file of the experiment.

use vstd::prelude::*;
use vstd::std_specs::convert::{FromSpecImpl, TryFromSpecImpl};
use vstd::string::StrSliceExecFns;
use crate::alpha16::{
    known_board, Adc16ChannelId, Adc32ChannelId, BoardId, ChannelId, ParseBoardIdError,
    TryChannelIdFromUnsignedError, ADC16_CHANNELS, ADC32_CHANNELS,
};

verus! {

/// The error returned when a number is not the identifier of any kind of
/// event.
#[derive(Clone, Copy, Debug, PartialEq, Eq, Structural)]
pub struct TryEventIdFromUnsignedError;

impl TryEventIdFromUnsignedError {
    /// What went wrong, in words.
    pub fn message(&self) -> (text: &'static str)
        ensures
            text@ == "conversion from unknown event id number attempted"@,
    {
        "conversion from unknown event id number attempted"
    }
}

/// The kinds of event in an event file.
#[derive(Clone, Copy, Debug, PartialEq, Eq, Structural)]
pub enum EventId {
    /// A main event, with data from the tracking chamber and the veto
    /// detector.
    Main,
}

impl TryFrom<u16> for EventId {
    type Error = TryEventIdFromUnsignedError;

    fn try_from(num: u16) -> (r: Result<EventId, TryEventIdFromUnsignedError>) {
        match num {
            1 => Ok(EventId::Main),
            _ => Err(TryEventIdFromUnsignedError),
        }
    }
}

impl TryFromSpecImpl<u16> for EventId {
    open spec fn obeys_try_from_spec() -> bool {
        true
    }

    /// Only the number 1 names a kind of event.
    open spec fn try_from_spec(num: u16) -> Result<EventId, TryEventIdFromUnsignedError> {
        if num == 1 {
            Ok(EventId::Main)
        } else {
            Err(TryEventIdFromUnsignedError)
        }
    }
}

/// The error returned when a name is not the name of a digitizer bank.
#[derive(Clone, Copy, Debug, PartialEq, Eq, Structural)]
pub enum ParseAlpha16BankNameError {
    /// The name does not have the shape of a bank name.
    PatternMismatch,
    /// The name has the right shape, but names no board in use.
    UnknownBoardId,
    /// The name has the right shape, but names no channel of its kind.
    UnknownChannelId,
}

impl ParseAlpha16BankNameError {
    /// What went wrong, in words.
    pub fn message(&self) -> (text: &'static str)
        ensures
            text@ == (match *self {
                ParseAlpha16BankNameError::PatternMismatch => "pattern mismatch"@,
                ParseAlpha16BankNameError::UnknownBoardId => "unknown board id"@,
                ParseAlpha16BankNameError::UnknownChannelId => "unknown channel id"@,
            }),
    {
        match self {
            ParseAlpha16BankNameError::PatternMismatch => "pattern mismatch",
            ParseAlpha16BankNameError::UnknownBoardId => "unknown board id",
            ParseAlpha16BankNameError::UnknownChannelId => "unknown channel id",
        }
    }
}

impl From<ParseBoardIdError> for ParseAlpha16BankNameError {
    fn from(error: ParseBoardIdError) -> (r: ParseAlpha16BankNameError) {
        ParseAlpha16BankNameError::UnknownBoardId
    }
}

impl FromSpecImpl<ParseBoardIdError> for ParseAlpha16BankNameError {
    open spec fn obeys_from_spec() -> bool {
        true
    }

    open spec fn from_spec(error: ParseBoardIdError) -> ParseAlpha16BankNameError {
        ParseAlpha16BankNameError::UnknownBoardId
    }
}

impl From<TryChannelIdFromUnsignedError> for ParseAlpha16BankNameError {
    fn from(error: TryChannelIdFromUnsignedError) -> (r: ParseAlpha16BankNameError) {
        ParseAlpha16BankNameError::UnknownChannelId
    }
}

impl FromSpecImpl<TryChannelIdFromUnsignedError> for ParseAlpha16BankNameError {
    open spec fn obeys_from_spec() -> bool {
        true
    }

    open spec fn from_spec(error: TryChannelIdFromUnsignedError) -> ParseAlpha16BankNameError {
        ParseAlpha16BankNameError::UnknownChannelId
    }
}

/// Whether `c` is a decimal digit.
pub open spec fn is_digit(c: char) -> bool {
    '0' as u32 <= c as u32 <= '9' as u32
}

/// Whether `c` is an upper-case letter of the Latin alphabet.
pub open spec fn is_upper(c: char) -> bool {
    'A' as u32 <= c as u32 <= 'Z' as u32
}

/// Whether `name` has the shape of a bank name that starts with `lead`: four
/// characters, the first of them `lead`, each a digit or an upper-case
/// letter.
pub open spec fn has_bank_shape(name: Seq<char>, lead: char) -> bool {
    &&& name.len() == 4
    &&& name[0] == lead
    &&& forall|i: int| 0 <= i < 4 ==> is_digit(#[trigger] name[i]) || is_upper(name[i])
}

/// The value of a digit or upper-case letter as a numeral: `0` to `9` count
/// as themselves, `A` as ten, `B` as eleven, and so on.
pub open spec fn numeral_value(c: char) -> int {
    if is_digit(c) {
        c as u32 - '0' as u32
    } else {
        c as u32 - 'A' as u32 + 10
    }
}

/// What a name parses to as the name of a bank that starts with `lead` and
/// has `channels` channels: the board named by its second and third
/// character, and the channel numbered by its fourth.
pub open spec fn parse_bank(name: Seq<char>, lead: char, channels: u8) -> Result<
    (BoardId, u8),
    ParseAlpha16BankNameError,
> {
    if !has_bank_shape(name, lead) {
        Err(ParseAlpha16BankNameError::PatternMismatch)
    } else if !known_board(name[1], name[2]) {
        Err(ParseAlpha16BankNameError::UnknownBoardId)
    } else if numeral_value(name[3]) >= channels {
        Err(ParseAlpha16BankNameError::UnknownChannelId)
    } else {
        Ok((BoardId::of(name[1], name[2]), numeral_value(name[3]) as u8))
    }
}

fn digit_or_upper(c: char) -> (r: bool)
    ensures
        r == (is_digit(c) || is_upper(c)),
{
    let code = c as u32;
    ('0' as u32 <= code && code <= '9' as u32) || ('A' as u32 <= code && code <= 'Z' as u32)
}

fn numeral(c: char) -> (v: u32)
    requires
        is_digit(c) || is_upper(c),
    ensures
        v == numeral_value(c),
{
    let code = c as u32;
    if '0' as u32 <= code && code <= '9' as u32 {
        code - '0' as u32
    } else {
        code - 'A' as u32 + 10
    }
}

fn read_bank(name: &str, lead: char, channels: u8) -> (r: Result<
    (BoardId, u8),
    ParseAlpha16BankNameError,
>)
    ensures
        r == parse_bank(name@, lead, channels),
{
    if name.unicode_len() != 4 {
        return Err(ParseAlpha16BankNameError::PatternMismatch);
    }
    let first = name.get_char(0);
    let high = name.get_char(1);
    let low = name.get_char(2);
    let last = name.get_char(3);
    if first != lead || !digit_or_upper(first) || !digit_or_upper(high) || !digit_or_upper(low)
        || !digit_or_upper(last) {
        return Err(ParseAlpha16BankNameError::PatternMismatch);
    }
    let board_id = match BoardId::from_chars(high, low) {
        Ok(board_id) => board_id,
        Err(error) => {
            return Err(ParseAlpha16BankNameError::from(error));
        },
    };
    let value = numeral(last);
    if value >= channels as u32 {
        return Err(ParseAlpha16BankNameError::UnknownChannelId);
    }
    Ok((board_id, value as u8))
}

/// The name of a bank with data from the veto detector: `B`, the name of the
/// board, and the channel as a hexadecimal digit.
#[derive(Clone, Copy, Debug, PartialEq, Eq, Structural)]
pub struct Adc16BankName {
    pub board_id: BoardId,
    pub channel_id: Adc16ChannelId,
}

/// What a name parses to as the name of a veto detector bank.
pub open spec fn parse_adc16(name: Seq<char>) -> Result<Adc16BankName, ParseAlpha16BankNameError> {
    match parse_bank(name, 'B', ADC16_CHANNELS) {
        Ok((board_id, channel)) => Ok(
            Adc16BankName { board_id, channel_id: Adc16ChannelId::of(channel) },
        ),
        Err(error) => Err(error),
    }
}

impl TryFrom<&str> for Adc16BankName {
    type Error = ParseAlpha16BankNameError;

    fn try_from(name: &str) -> (r: Result<Adc16BankName, ParseAlpha16BankNameError>) {
        let (board_id, channel) = match read_bank(name, 'B', ADC16_CHANNELS) {
            Ok(parts) => parts,
            Err(error) => {
                return Err(error);
            },
        };
        match Adc16ChannelId::try_from(channel) {
            Ok(channel_id) => Ok(Adc16BankName { board_id, channel_id }),
            Err(error) => Err(ParseAlpha16BankNameError::from(error)),
        }
    }
}

impl TryFromSpecImpl<&str> for Adc16BankName {
    open spec fn obeys_try_from_spec() -> bool {
        true
    }

    open spec fn try_from_spec(name: &str) -> Result<Adc16BankName, ParseAlpha16BankNameError> {
        parse_adc16(name@)
    }
}

/// The name of a bank with data from anode wires: `C`, the name of the board,
/// and the channel as a digit in base 32.
#[derive(Clone, Copy, Debug, PartialEq, Eq, Structural)]
pub struct Adc32BankName {
    pub board_id: BoardId,
    pub channel_id: Adc32ChannelId,
}

/// What a name parses to as the name of an anode wire bank.
pub open spec fn parse_adc32(name: Seq<char>) -> Result<Adc32BankName, ParseAlpha16BankNameError> {
    match parse_bank(name, 'C', ADC32_CHANNELS) {
        Ok((board_id, channel)) => Ok(
            Adc32BankName { board_id, channel_id: Adc32ChannelId::of(channel) },
        ),
        Err(error) => Err(error),
    }
}

impl TryFrom<&str> for Adc32BankName {
    type Error = ParseAlpha16BankNameError;

    fn try_from(name: &str) -> (r: Result<Adc32BankName, ParseAlpha16BankNameError>) {
        let (board_id, channel) = match read_bank(name, 'C', ADC32_CHANNELS) {
            Ok(parts) => parts,
            Err(error) => {
                return Err(error);
            },
        };
        match Adc32ChannelId::try_from(channel) {
            Ok(channel_id) => Ok(Adc32BankName { board_id, channel_id }),
            Err(error) => Err(ParseAlpha16BankNameError::from(error)),
        }
    }
}

impl TryFromSpecImpl<&str> for Adc32BankName {
    open spec fn obeys_try_from_spec() -> bool {
        true
    }

    open spec fn try_from_spec(name: &str) -> Result<Adc32BankName, ParseAlpha16BankNameError> {
        parse_adc32(name@)
    }
}

/// The name of a bank with data from a digitizer board.
#[derive(Clone, Copy, Debug, PartialEq, Eq, Structural)]
pub enum Alpha16BankName {
    /// The name of a veto detector bank.
    A16(Adc16BankName),
    /// The name of an anode wire bank.
    A32(Adc32BankName),
}

/// What a name parses to as the name of a digitizer bank: its first
/// character tells the kind.
pub open spec fn parse_alpha16(name: Seq<char>) -> Result<
    Alpha16BankName,
    ParseAlpha16BankNameError,
> {
    if name.len() > 0 && name[0] == 'C' {
        match parse_adc32(name) {
            Ok(bank) => Ok(Alpha16BankName::A32(bank)),
            Err(error) => Err(error),
        }
    } else if name.len() > 0 && name[0] == 'B' {
        match parse_adc16(name) {
            Ok(bank) => Ok(Alpha16BankName::A16(bank)),
            Err(error) => Err(error),
        }
    } else {
        Err(ParseAlpha16BankNameError::PatternMismatch)
    }
}

impl TryFrom<&str> for Alpha16BankName {
    type Error = ParseAlpha16BankNameError;

    fn try_from(name: &str) -> (r: Result<Alpha16BankName, ParseAlpha16BankNameError>) {
        if name.unicode_len() == 0 {
            return Err(ParseAlpha16BankNameError::PatternMismatch);
        }
        let first = name.get_char(0);
        if first == 'C' {
            match Adc32BankName::try_from(name) {
                Ok(bank) => Ok(Alpha16BankName::A32(bank)),
                Err(error) => Err(error),
            }
        } else if first == 'B' {
            match Adc16BankName::try_from(name) {
                Ok(bank) => Ok(Alpha16BankName::A16(bank)),
                Err(error) => Err(error),
            }
        } else {
            Err(ParseAlpha16BankNameError::PatternMismatch)
        }
    }
}

impl TryFromSpecImpl<&str> for Alpha16BankName {
    open spec fn obeys_try_from_spec() -> bool {
        true
    }

    open spec fn try_from_spec(name: &str) -> Result<Alpha16BankName, ParseAlpha16BankNameError> {
        parse_alpha16(name@)
    }
}

impl Alpha16BankName {
    /// The board that the bank comes from.
    pub fn board_id(&self) -> (board_id: BoardId)
        ensures
            board_id == (match *self {
                Alpha16BankName::A16(name) => name.board_id,
                Alpha16BankName::A32(name) => name.board_id,
            }),
    {
        match self {
            Alpha16BankName::A16(name) => name.board_id,
            Alpha16BankName::A32(name) => name.board_id,
        }
    }

    /// The channel that the bank comes from.
    pub fn channel_id(&self) -> (channel_id: ChannelId)
        ensures
            channel_id == (match *self {
                Alpha16BankName::A16(name) => ChannelId::A16(name.channel_id),
                Alpha16BankName::A32(name) => ChannelId::A32(name.channel_id),
            }),
    {
        match self {
            Alpha16BankName::A16(name) => ChannelId::A16(name.channel_id),
            Alpha16BankName::A32(name) => ChannelId::A32(name.channel_id),
        }
    }
}

/// How a bank name reads: when it names a bank of the veto detector, its
/// second and third character are the name of the board, and its fourth
/// character, read as a hexadecimal digit, is the number of the channel.
pub proof fn lemma_adc16_name_reads(name: Seq<char>)
    requires
        parse_adc16(name) is Ok,
    ensures
        name.len() == 4,
        name[0] == 'B',
        parse_adc16(name).unwrap().board_id.name() == seq![name[1], name[2]],
        parse_adc16(name).unwrap().channel_id.number() == numeral_value(name[3]),
        numeral_value(name[3]) < ADC16_CHANNELS,
{
    broadcast use BoardId::lemma_name, Adc16ChannelId::lemma_number;

}

/// How a bank name reads: when it names a bank of anode wires, its second
/// and third character are the name of the board, and its fourth character,
/// read as a digit in base 32, is the number of the channel.
pub proof fn lemma_adc32_name_reads(name: Seq<char>)
    requires
        parse_adc32(name) is Ok,
    ensures
        name.len() == 4,
        name[0] == 'C',
        parse_adc32(name).unwrap().board_id.name() == seq![name[1], name[2]],
        parse_adc32(name).unwrap().channel_id.number() == numeral_value(name[3]),
        numeral_value(name[3]) < ADC32_CHANNELS,
{
    broadcast use BoardId::lemma_name, Adc32ChannelId::lemma_number;

}

} // verus!
