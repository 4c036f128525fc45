//! Where the readout boards and their pads sit on the chamber.
//!
//! The boards cover the chamber in 8 columns of 8 rows; each board reads a
//! patch of 4 columns of 72 pads. A pad of the chamber is found by the board
//! it belongs to and its place on the board.

use vstd::prelude::*;
use vstd::std_specs::convert::TryFromSpecImpl;
use vstd::string::StrSliceExecFns;
use crate::padwing::{board_index, parse_board, AfterId, BoardId, PadChannelId};

verus! {

/// The number of columns of boards on the chamber.
pub const TPC_PWB_COLUMNS: usize = 8;

/// The number of rows of boards on the chamber.
pub const TPC_PWB_ROWS: usize = 8;

/// The number of columns of pads on a board.
pub const PWB_PAD_COLUMNS: usize = 4;

/// The number of rows of pads on a board.
pub const PWB_PAD_ROWS: usize = 72;

/// The number of columns of pads on the chamber.
pub const TPC_PAD_COLUMNS: usize = 32;

/// The number of rows of pads on the chamber.
pub const TPC_PAD_ROWS: usize = 576;

/// The first run for which the places of the boards are known.
pub const FIRST_MAPPED_RUN: u32 = 4418;

/// The error returned when an index lies outside the chamber or the board.
#[derive(Clone, Copy, Debug, PartialEq, Eq, Structural)]
pub struct TryPositionFromIndexError;

/// A column of boards on the chamber.
#[derive(Clone, Copy, Debug, PartialEq, Eq, Structural)]
pub struct TpcPwbColumn(pub usize);

impl TryFrom<usize> for TpcPwbColumn {
    type Error = TryPositionFromIndexError;

    fn try_from(index: usize) -> (r: Result<TpcPwbColumn, TryPositionFromIndexError>) {
        if index < TPC_PWB_COLUMNS {
            Ok(TpcPwbColumn(index))
        } else {
            Err(TryPositionFromIndexError)
        }
    }
}

impl TryFromSpecImpl<usize> for TpcPwbColumn {
    open spec fn obeys_try_from_spec() -> bool {
        true
    }

    open spec fn try_from_spec(index: usize) -> Result<TpcPwbColumn, TryPositionFromIndexError> {
        if index < TPC_PWB_COLUMNS {
            Ok(TpcPwbColumn(index))
        } else {
            Err(TryPositionFromIndexError)
        }
    }
}

/// A row of boards on the chamber.
#[derive(Clone, Copy, Debug, PartialEq, Eq, Structural)]
pub struct TpcPwbRow(pub usize);

impl TryFrom<usize> for TpcPwbRow {
    type Error = TryPositionFromIndexError;

    fn try_from(index: usize) -> (r: Result<TpcPwbRow, TryPositionFromIndexError>) {
        if index < TPC_PWB_ROWS {
            Ok(TpcPwbRow(index))
        } else {
            Err(TryPositionFromIndexError)
        }
    }
}

impl TryFromSpecImpl<usize> for TpcPwbRow {
    open spec fn obeys_try_from_spec() -> bool {
        true
    }

    open spec fn try_from_spec(index: usize) -> Result<TpcPwbRow, TryPositionFromIndexError> {
        if index < TPC_PWB_ROWS {
            Ok(TpcPwbRow(index))
        } else {
            Err(TryPositionFromIndexError)
        }
    }
}

/// The error returned when the place of a board cannot be told.
#[derive(Clone, Copy, Debug, PartialEq, Eq, Structural)]
pub enum MapTpcPwbPositionError {
    /// The places of the boards are not known for this run.
    MissingMap { run_number: u32 },
}

/// The place of a board on the chamber.
#[derive(Clone, Copy, Debug, PartialEq, Eq, Structural)]
pub struct TpcPwbPosition {
    pub column: TpcPwbColumn,
    pub row: TpcPwbRow,
}

/// The names of the boards by their place, from run 4418 on. The first index
/// is the column, the second the row.
pub const PADWING_BOARDS_4418: [[&'static str; 8]; 8] = [
    ["12", "13", "14", "02", "11", "17", "18", "19"],
    ["20", "21", "22", "23", "24", "25", "26", "27"],
    ["46", "29", "08", "77", "10", "33", "34", "35"],
    ["36", "37", "01", "39", "76", "41", "42", "40"],
    ["44", "49", "07", "78", "03", "04", "45", "15"],
    ["52", "53", "54", "55", "56", "57", "58", "05"],
    ["60", "00", "06", "63", "64", "65", "66", "67"],
    ["68", "69", "70", "71", "72", "73", "74", "75"],
];

/// The place of a board in the given run, if the places are known for it:
/// the list of boards runs through the chamber column by column.
pub open spec fn board_position(run_number: u32, board_id: BoardId) -> Result<
    TpcPwbPosition,
    MapTpcPwbPositionError,
> {
    if run_number < FIRST_MAPPED_RUN {
        Err(MapTpcPwbPositionError::MissingMap { run_number })
    } else {
        let index = board_index(board_id.number()).unwrap();
        Ok(
            TpcPwbPosition {
                column: TpcPwbColumn((index / 8) as usize),
                row: TpcPwbRow((index % 8) as usize),
            },
        )
    }
}

impl TpcPwbPosition {
    /// Whether the place lies on the chamber.
    pub open spec fn valid(self) -> bool {
        self.column.0 < TPC_PWB_COLUMNS && self.row.0 < TPC_PWB_ROWS
    }

    /// The place of a board in the given run. The places are known from run
    /// 4418 on.
    pub fn try_new(run_number: u32, board_id: BoardId) -> (r: Result<
        TpcPwbPosition,
        MapTpcPwbPositionError,
    >)
        ensures
            r == board_position(run_number, board_id),
            r matches Ok(position) ==> position.valid(),
    {
        if run_number < FIRST_MAPPED_RUN {
            return Err(MapTpcPwbPositionError::MissingMap { run_number });
        }
        let (_, index) = board_id.place();
        Ok(TpcPwbPosition { column: TpcPwbColumn(index / 8), row: TpcPwbRow(index % 8) })
    }

    /// The column of the board.
    pub fn column(&self) -> (column: TpcPwbColumn)
        ensures
            column == self.column,
    {
        self.column
    }

    /// The row of the board.
    pub fn row(&self) -> (row: TpcPwbRow)
        ensures
            row == self.row,
    {
        self.row
    }
}

/// A column of pads on a board.
#[derive(Clone, Copy, Debug, PartialEq, Eq, Structural)]
pub struct PwbPadColumn(pub usize);

impl TryFrom<usize> for PwbPadColumn {
    type Error = TryPositionFromIndexError;

    fn try_from(index: usize) -> (r: Result<PwbPadColumn, TryPositionFromIndexError>) {
        if index < PWB_PAD_COLUMNS {
            Ok(PwbPadColumn(index))
        } else {
            Err(TryPositionFromIndexError)
        }
    }
}

impl TryFromSpecImpl<usize> for PwbPadColumn {
    open spec fn obeys_try_from_spec() -> bool {
        true
    }

    open spec fn try_from_spec(index: usize) -> Result<PwbPadColumn, TryPositionFromIndexError> {
        if index < PWB_PAD_COLUMNS {
            Ok(PwbPadColumn(index))
        } else {
            Err(TryPositionFromIndexError)
        }
    }
}

/// A row of pads on a board.
#[derive(Clone, Copy, Debug, PartialEq, Eq, Structural)]
pub struct PwbPadRow(pub usize);

impl TryFrom<usize> for PwbPadRow {
    type Error = TryPositionFromIndexError;

    fn try_from(index: usize) -> (r: Result<PwbPadRow, TryPositionFromIndexError>) {
        if index < PWB_PAD_ROWS {
            Ok(PwbPadRow(index))
        } else {
            Err(TryPositionFromIndexError)
        }
    }
}

impl TryFromSpecImpl<usize> for PwbPadRow {
    open spec fn obeys_try_from_spec() -> bool {
        true
    }

    open spec fn try_from_spec(index: usize) -> Result<PwbPadRow, TryPositionFromIndexError> {
        if index < PWB_PAD_ROWS {
            Ok(PwbPadRow(index))
        } else {
            Err(TryPositionFromIndexError)
        }
    }
}

/// The error returned when the place of a pad on its board cannot be told.
#[derive(Clone, Copy, Debug, PartialEq, Eq, Structural)]
pub enum MapPwbPadPositionError {
    /// The wiring of the boards is not known for this run.
    MissingMap { run_number: u32 },
}

/// The place of a pad on its board.
#[derive(Clone, Copy, Debug, PartialEq, Eq, Structural)]
pub struct PwbPadPosition {
    pub column: PwbPadColumn,
    pub row: PwbPadRow,
}

/// Whether a channel is wired to one of the two inner columns of its chip's
/// side of the board.
pub open spec fn inner_channel(channel: int) -> bool {
    19 <= channel <= 54
}

/// The column of the pad that the channel of the chip is wired to. Chips A
/// and B share the two left columns, chips C and D the two right ones.
pub open spec fn pad_column(after_id: AfterId, channel: int) -> int {
    match after_id {
        AfterId::A | AfterId::B => if inner_channel(channel) { 0 } else { 1 },
        AfterId::C | AfterId::D => if inner_channel(channel) { 3 } else { 2 },
    }
}

/// The row of the pad within the half of the board that its chip reads. The
/// channels of a chip run along a column in four stretches of 18 pads.
pub open spec fn pad_row_in_half(after_id: AfterId, channel: int) -> int {
    match after_id {
        AfterId::A | AfterId::B => if 19 <= channel <= 36 {
            36 - channel
        } else if 37 <= channel <= 54 {
            18 + (54 - channel)
        } else if channel <= 18 {
            channel - 1
        } else {
            18 + (channel - 55)
        },
        AfterId::C | AfterId::D => if 55 <= channel {
            72 - channel
        } else if channel <= 18 {
            18 + (18 - channel)
        } else if 37 <= channel <= 54 {
            channel - 37
        } else {
            18 + (channel - 19)
        },
    }
}

/// The row of the pad that the channel of the chip is wired to. Chips A and
/// D read the lower half of the board, chips B and C the upper half.
pub open spec fn pad_row(after_id: AfterId, channel: int) -> int {
    match after_id {
        AfterId::A | AfterId::D => pad_row_in_half(after_id, channel),
        AfterId::B | AfterId::C => 36 + pad_row_in_half(after_id, channel),
    }
}

/// The place on the board of the pad that the channel of the chip is wired
/// to.
pub open spec fn pad_on_board(after_id: AfterId, pad_channel_id: PadChannelId) -> PwbPadPosition {
    PwbPadPosition {
        column: PwbPadColumn(pad_column(after_id, pad_channel_id.number() as int) as usize),
        row: PwbPadRow(pad_row(after_id, pad_channel_id.number() as int) as usize),
    }
}

impl PwbPadPosition {
    /// Whether the place lies on the board.
    pub open spec fn valid(self) -> bool {
        self.column.0 < PWB_PAD_COLUMNS && self.row.0 < PWB_PAD_ROWS
    }

    /// The place on the board of the pad that a channel of a chip is wired
    /// to. The wiring is the same in every run.
    pub fn try_new(run_number: u32, after_id: AfterId, pad_channel_id: PadChannelId) -> (r: Result<
        PwbPadPosition,
        MapPwbPadPositionError,
    >)
        ensures
            r == Ok::<PwbPadPosition, MapPwbPadPositionError>(
                pad_on_board(after_id, pad_channel_id),
            ),
            pad_on_board(after_id, pad_channel_id).valid(),
            pad_on_board(after_id, pad_channel_id).column.0 == pad_column(
                after_id,
                pad_channel_id.number() as int,
            ),
            pad_on_board(after_id, pad_channel_id).row.0 == pad_row(
                after_id,
                pad_channel_id.number() as int,
            ),
    {
        let channel: usize = pad_channel_id.get() as usize;
        let inner = 19 <= channel && channel <= 54;
        let left = match after_id {
            AfterId::A => true,
            AfterId::B => true,
            AfterId::C => false,
            AfterId::D => false,
        };
        let lower = match after_id {
            AfterId::A => true,
            AfterId::B => false,
            AfterId::C => false,
            AfterId::D => true,
        };
        let column: usize = if left {
            if inner { 0 } else { 1 }
        } else {
            if inner { 3 } else { 2 }
        };
        let in_half: usize = if left {
            if 19 <= channel && channel <= 36 {
                36 - channel
            } else if 37 <= channel && channel <= 54 {
                18 + (54 - channel)
            } else if channel <= 18 {
                channel - 1
            } else {
                18 + (channel - 55)
            }
        } else {
            if 55 <= channel {
                72 - channel
            } else if channel <= 18 {
                18 + (18 - channel)
            } else if 37 <= channel && channel <= 54 {
                channel - 37
            } else {
                18 + (channel - 19)
            }
        };
        let row: usize = if lower { in_half } else { 36 + in_half };
        Ok(PwbPadPosition { column: PwbPadColumn(column), row: PwbPadRow(row) })
    }

    /// The column of the pad.
    pub fn column(&self) -> (column: PwbPadColumn)
        ensures
            column == self.column,
    {
        self.column
    }

    /// The row of the pad.
    pub fn row(&self) -> (row: PwbPadRow)
        ensures
            row == self.row,
    {
        self.row
    }
}

/// A column of pads on the chamber.
#[derive(Clone, Copy, Debug, PartialEq, Eq, Structural)]
pub struct TpcPadColumn(pub usize);

impl TryFrom<usize> for TpcPadColumn {
    type Error = TryPositionFromIndexError;

    fn try_from(index: usize) -> (r: Result<TpcPadColumn, TryPositionFromIndexError>) {
        if index < TPC_PAD_COLUMNS {
            Ok(TpcPadColumn(index))
        } else {
            Err(TryPositionFromIndexError)
        }
    }
}

impl TryFromSpecImpl<usize> for TpcPadColumn {
    open spec fn obeys_try_from_spec() -> bool {
        true
    }

    open spec fn try_from_spec(index: usize) -> Result<TpcPadColumn, TryPositionFromIndexError> {
        if index < TPC_PAD_COLUMNS {
            Ok(TpcPadColumn(index))
        } else {
            Err(TryPositionFromIndexError)
        }
    }
}

/// A row of pads on the chamber.
#[derive(Clone, Copy, Debug, PartialEq, Eq, Structural)]
pub struct TpcPadRow(pub usize);

impl TryFrom<usize> for TpcPadRow {
    type Error = TryPositionFromIndexError;

    fn try_from(index: usize) -> (r: Result<TpcPadRow, TryPositionFromIndexError>) {
        if index < TPC_PAD_ROWS {
            Ok(TpcPadRow(index))
        } else {
            Err(TryPositionFromIndexError)
        }
    }
}

impl TryFromSpecImpl<usize> for TpcPadRow {
    open spec fn obeys_try_from_spec() -> bool {
        true
    }

    open spec fn try_from_spec(index: usize) -> Result<TpcPadRow, TryPositionFromIndexError> {
        if index < TPC_PAD_ROWS {
            Ok(TpcPadRow(index))
        } else {
            Err(TryPositionFromIndexError)
        }
    }
}

/// The error returned when the place of a pad on the chamber cannot be told.
#[derive(Clone, Copy, Debug, PartialEq, Eq, Structural)]
pub enum MapTpcPadPositionError {
    /// The place of the board cannot be told.
    BadTpcPwbPosition(MapTpcPwbPositionError),
    /// The place of the pad on its board cannot be told.
    BadPwbPadPosition(MapPwbPadPositionError),
}

/// The place of a pad on the chamber.
#[derive(Clone, Copy, Debug, PartialEq, Eq, Structural)]
pub struct TpcPadPosition {
    pub column: TpcPadColumn,
    pub row: TpcPadRow,
}

/// The place on the chamber of the pad that a channel of a chip of a board is
/// wired to, in the given run: the place of the board, then the place of the
/// pad on it. It cannot be told when the place of the board cannot.
pub open spec fn pad_position(
    run_number: u32,
    board_id: BoardId,
    after_id: AfterId,
    pad_channel_id: PadChannelId,
) -> Result<TpcPadPosition, MapTpcPadPositionError> {
    match board_position(run_number, board_id) {
        Ok(board) => Ok(
            TpcPadPosition {
                column: TpcPadColumn(
                    (board.column.0 * PWB_PAD_COLUMNS + pad_column(
                        after_id,
                        pad_channel_id.number() as int,
                    )) as usize,
                ),
                row: TpcPadRow(
                    (board.row.0 * PWB_PAD_ROWS + pad_row(after_id, pad_channel_id.number() as int))
                        as usize,
                ),
            },
        ),
        Err(error) => Err(MapTpcPadPositionError::BadTpcPwbPosition(error)),
    }
}

impl TpcPadPosition {
    /// Whether the place lies on the chamber.
    pub open spec fn valid(self) -> bool {
        self.column.0 < TPC_PAD_COLUMNS && self.row.0 < TPC_PAD_ROWS
    }

    /// The place on the chamber of the pad that sits at `pad` on the board at
    /// `board`: boards follow one another every 4 columns and every 72 rows.
    pub fn new(board: TpcPwbPosition, pad: PwbPadPosition) -> (position: TpcPadPosition)
        requires
            board.valid(),
            pad.valid(),
        ensures
            position.valid(),
            position.column.0 == board.column.0 * PWB_PAD_COLUMNS + pad.column.0,
            position.row.0 == board.row.0 * PWB_PAD_ROWS + pad.row.0,
    {
        TpcPadPosition {
            column: TpcPadColumn(board.column.0 * PWB_PAD_COLUMNS + pad.column.0),
            row: TpcPadRow(board.row.0 * PWB_PAD_ROWS + pad.row.0),
        }
    }

    /// The place on the chamber of the pad that a channel of a chip of a
    /// board is wired to, in the given run. It fails exactly when the place
    /// of the board is not known for the run.
    pub fn try_new(
        run_number: u32,
        board_id: BoardId,
        after_id: AfterId,
        pad_channel_id: PadChannelId,
    ) -> (r: Result<TpcPadPosition, MapTpcPadPositionError>)
        ensures
            r == pad_position(run_number, board_id, after_id, pad_channel_id),
            r matches Ok(position) ==> position.valid(),
    {
        let board = match TpcPwbPosition::try_new(run_number, board_id) {
            Ok(board) => board,
            Err(error) => {
                return Err(MapTpcPadPositionError::BadTpcPwbPosition(error));
            },
        };
        let pad = match PwbPadPosition::try_new(run_number, after_id, pad_channel_id) {
            Ok(pad) => pad,
            Err(error) => {
                return Err(MapTpcPadPositionError::BadPwbPadPosition(error));
            },
        };
        Ok(TpcPadPosition::new(board, pad))
    }

    /// The column of the pad.
    pub fn column(&self) -> (column: TpcPadColumn)
        ensures
            column == self.column,
    {
        self.column
    }

    /// The row of the pad.
    pub fn row(&self) -> (row: TpcPadRow)
        ensures
            row == self.row,
    {
        self.row
    }
}

fn same_text(a: &str, b: &str) -> (same: bool)
    ensures
        same == (a@ == b@),
{
    let n = a.unicode_len();
    if n != b.unicode_len() {
        return false;
    }
    let mut i: usize = 0;
    while i < n
        invariant
            n == a@.len(),
            n == b@.len(),
            i <= n,
            forall|k: int| 0 <= k < i ==> a@[k] == b@[k],
        decreases n - i,
    {
        if a.get_char(i) != b.get_char(i) {
            return false;
        }
        i = i + 1;
    }
    proof {
        assert(a@ =~= b@);
    }
    true
}

/// Whether no name stands at two places of the table.
pub open spec fn all_different(table: [[&'static str; 8]; 8]) -> bool {
    forall|i: int, j: int, k: int, l: int|
        0 <= i < 8 && 0 <= j < 8 && 0 <= k < 8 && 0 <= l < 8 && !(i == k && j == l) ==> (
        #[trigger] table[i][j])@ != (#[trigger] table[k][l])@
}

/// Whether no name stands at two places of the table of boards.
pub fn all_different_str(map: [[&'static str; 8]; 8]) -> (r: bool)
    ensures
        r == all_different(map),
{
    let mut i: usize = 0;
    while i < 8
        invariant
            i <= 8,
            forall|a: int, b: int, k: int, l: int|
                0 <= a < i && 0 <= b < 8 && 0 <= k < 8 && 0 <= l < 8 && !(a == k && b == l) ==> (
                #[trigger] map[a][b])@ != (#[trigger] map[k][l])@,
        decreases 8 - i,
    {
        let mut j: usize = 0;
        while j < 8
            invariant
                i < 8,
                j <= 8,
                forall|a: int, b: int, k: int, l: int|
                    0 <= a < i && 0 <= b < 8 && 0 <= k < 8 && 0 <= l < 8 && !(a == k && b == l)
                        ==> (#[trigger] map[a][b])@ != (#[trigger] map[k][l])@,
                forall|b: int, k: int, l: int|
                    0 <= b < j && 0 <= k < 8 && 0 <= l < 8 && !(i == k && b == l) ==> (
                    #[trigger] map[i as int][b])@ != (#[trigger] map[k][l])@,
            decreases 8 - j,
        {
            let mut k: usize = 0;
            while k < 8
                invariant
                    i < 8,
                    j < 8,
                    k <= 8,
                    forall|c: int, l: int|
                        0 <= c < k && 0 <= l < 8 && !(i == c && j == l) ==> map[i as int][j as int]@
                            != (#[trigger] map[c][l])@,
                decreases 8 - k,
            {
                let mut l: usize = 0;
                while l < 8
                    invariant
                        i < 8,
                        j < 8,
                        k < 8,
                        l <= 8,
                        forall|d: int|
                            0 <= d < l && !(i == k && j == d) ==> map[i as int][j as int]@ != (
                            #[trigger] map[k as int][d])@,
                    decreases 8 - l,
                {
                    if !(i == k && j == l) && same_text(map[i][j], map[k][l]) {
                        return false;
                    }
                    l = l + 1;
                }
                k = k + 1;
            }
            j = j + 1;
        }
        i = i + 1;
    }
    true
}

/// Whether every name of the table is the name of a board.
pub open spec fn all_valid(table: [[&'static str; 8]; 8]) -> bool {
    forall|i: int, j: int| 0 <= i < 8 && 0 <= j < 8 ==> parse_board((#[trigger] table[i][j])@) is Ok
}

/// Whether every name of the table of boards is the name of a board.
pub fn all_valid_str(map: [[&'static str; 8]; 8]) -> (r: bool)
    ensures
        r == all_valid(map),
{
    let mut i: usize = 0;
    while i < 8
        invariant
            i <= 8,
            forall|a: int, b: int| 0 <= a < i && 0 <= b < 8
                ==> parse_board((#[trigger] map[a][b])@) is Ok,
        decreases 8 - i,
    {
        let mut j: usize = 0;
        while j < 8
            invariant
                i < 8,
                j <= 8,
                forall|a: int, b: int| 0 <= a < i && 0 <= b < 8
                    ==> parse_board((#[trigger] map[a][b])@) is Ok,
                forall|b: int| 0 <= b < j ==> parse_board((#[trigger] map[i as int][b])@) is Ok,
            decreases 8 - j,
        {
            if BoardId::try_from(map[i][j]).is_err() {
                return false;
            }
            j = j + 1;
        }
        i = i + 1;
    }
    true
}

/// Where a pad sits, in plain numbers: from the first mapped run on, channel
/// `channel` of chip `after_id` on the board that stands at place `index` of
/// the list of boards reads the pad in column `4 * (index / 8)` plus its
/// column on the board, and in row `72 * (index % 8)` plus its row on the
/// board.
pub proof fn lemma_pad_position_in_numbers(
    run_number: u32,
    number: u8,
    index: int,
    after_id: AfterId,
    channel: u16,
)
    requires
        run_number >= FIRST_MAPPED_RUN,
        board_index(number) == Some(index),
        1 <= channel <= 72,
    ensures
        0 <= index < 64,
        0 <= pad_column(after_id, channel as int) < 4,
        0 <= pad_row(after_id, channel as int) < 72,
        pad_position(run_number, BoardId::of(number), after_id, PadChannelId::of(channel)) == Ok::<
            TpcPadPosition,
            MapTpcPadPositionError,
        >(
            TpcPadPosition {
                column: TpcPadColumn(
                    (4 * (index / 8) + pad_column(after_id, channel as int)) as usize,
                ),
                row: TpcPadRow((72 * (index % 8) + pad_row(after_id, channel as int)) as usize),
            },
        ),
{
    broadcast use BoardId::lemma_number, PadChannelId::lemma_number;

}

} // verus!
