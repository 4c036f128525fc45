use alpha_g::alpha16::{Adc16ChannelId, Adc32ChannelId, BoardId, ChannelId};
use alpha_g::midas::{
    Adc16BankName, Adc32BankName, Alpha16BankName, EventId, ParseAlpha16BankNameError,
    TryEventIdFromUnsignedError,
};

#[test]
fn event_id_from_number() {
    assert_eq!(EventId::try_from(1u16), Ok(EventId::Main));
    assert_eq!(EventId::try_from(0u16), Err(TryEventIdFromUnsignedError));
    for num in 2..=u16::MAX {
        assert!(EventId::try_from(num).is_err());
    }
    assert_eq!(
        TryEventIdFromUnsignedError.message(),
        "conversion from unknown event id number attempted"
    );
}

#[test]
fn alpha16_board_names() {
    for name in ["09", "10", "11", "12", "13", "14", "16", "18"] {
        let board = BoardId::try_from(name).unwrap();
        let (high, low) = board.name_chars();
        assert_eq!(format!("{high}{low}"), name);
    }
    for name in ["", "9", "00", "15", "17", "19", "090", "1a", "ab"] {
        assert!(BoardId::try_from(name).is_err());
    }
}

#[test]
fn alpha16_channel_numbers() {
    for num in 0..=15u8 {
        assert_eq!(Adc16ChannelId::try_from(num).unwrap().get(), num);
    }
    for num in 16..=255u8 {
        assert!(Adc16ChannelId::try_from(num).is_err());
    }
    for num in 0..=31u8 {
        assert_eq!(Adc32ChannelId::try_from(num).unwrap().get(), num);
    }
    for num in 32..=255u8 {
        assert!(Adc32ChannelId::try_from(num).is_err());
    }
}

#[test]
fn adc16_bank_name_parses() {
    let bank = Adc16BankName::try_from("B09F").unwrap();
    assert_eq!(bank.board_id, BoardId::try_from("09").unwrap());
    assert_eq!(bank.channel_id, Adc16ChannelId::try_from(15).unwrap());

    let bank = Adc16BankName::try_from("B180").unwrap();
    assert_eq!(bank.board_id, BoardId::try_from("18").unwrap());
    assert_eq!(bank.channel_id, Adc16ChannelId::try_from(0).unwrap());

    let bank = Adc16BankName::try_from("B12A").unwrap();
    assert_eq!(bank.channel_id.get(), 10);
}

#[test]
fn adc16_bank_name_errors() {
    for name in ["", "B", "B09", "B09FF", "C09F", "b09f", "B09f", "B0 F", "B09-", "Bé9", "A09F"] {
        assert_eq!(
            Adc16BankName::try_from(name),
            Err(ParseAlpha16BankNameError::PatternMismatch),
            "{name}"
        );
    }
    for name in ["B00F", "B15F", "B17F", "BAAF", "B99G"] {
        assert_eq!(
            Adc16BankName::try_from(name),
            Err(ParseAlpha16BankNameError::UnknownBoardId),
            "{name}"
        );
    }
    for name in ["B09G", "B09V", "B09Z"] {
        assert_eq!(
            Adc16BankName::try_from(name),
            Err(ParseAlpha16BankNameError::UnknownChannelId),
            "{name}"
        );
    }
}

#[test]
fn adc32_bank_name_parses() {
    let bank = Adc32BankName::try_from("C09V").unwrap();
    assert_eq!(bank.board_id, BoardId::try_from("09").unwrap());
    assert_eq!(bank.channel_id, Adc32ChannelId::try_from(31).unwrap());

    let bank = Adc32BankName::try_from("C16G").unwrap();
    assert_eq!(bank.board_id, BoardId::try_from("16").unwrap());
    assert_eq!(bank.channel_id.get(), 16);

    let bank = Adc32BankName::try_from("C109").unwrap();
    assert_eq!(bank.channel_id.get(), 9);
}

#[test]
fn adc32_bank_name_errors() {
    for name in ["", "C", "C09", "C09VV", "B09V", "c09v", "C09v"] {
        assert_eq!(
            Adc32BankName::try_from(name),
            Err(ParseAlpha16BankNameError::PatternMismatch),
            "{name}"
        );
    }
    assert_eq!(
        Adc32BankName::try_from("C15V"),
        Err(ParseAlpha16BankNameError::UnknownBoardId)
    );
    for name in ["C09W", "C09X", "C09Z"] {
        assert_eq!(
            Adc32BankName::try_from(name),
            Err(ParseAlpha16BankNameError::UnknownChannelId),
            "{name}"
        );
    }
}

#[test]
fn alpha16_bank_name_by_first_letter() {
    match Alpha16BankName::try_from("B09F").unwrap() {
        Alpha16BankName::A16(bank) => assert_eq!(bank, Adc16BankName::try_from("B09F").unwrap()),
        Alpha16BankName::A32(_) => panic!("a veto detector bank was read as an anode wire bank"),
    }
    match Alpha16BankName::try_from("C09F").unwrap() {
        Alpha16BankName::A32(bank) => assert_eq!(bank, Adc32BankName::try_from("C09F").unwrap()),
        Alpha16BankName::A16(_) => panic!("an anode wire bank was read as a veto detector bank"),
    }
    for name in ["", "A09F", "D09F", "09F", "x"] {
        assert_eq!(
            Alpha16BankName::try_from(name),
            Err(ParseAlpha16BankNameError::PatternMismatch),
            "{name}"
        );
    }
    assert_eq!(
        Alpha16BankName::try_from("B09G"),
        Err(ParseAlpha16BankNameError::UnknownChannelId)
    );
    assert_eq!(
        Alpha16BankName::try_from("C17A"),
        Err(ParseAlpha16BankNameError::UnknownBoardId)
    );
}

#[test]
fn alpha16_bank_name_board_id() {
    let bank_name = Alpha16BankName::try_from("B09F").unwrap();
    let board_id = BoardId::try_from("09").unwrap();
    assert_eq!(bank_name.board_id(), board_id);

    let bank_name = Alpha16BankName::try_from("C14V").unwrap();
    assert_eq!(bank_name.board_id(), BoardId::try_from("14").unwrap());
}

#[test]
fn alpha16_bank_name_channel_id() {
    let bank_name = Alpha16BankName::try_from("B09F").unwrap();
    assert_eq!(
        bank_name.channel_id(),
        ChannelId::A16(Adc16ChannelId::try_from(15).unwrap())
    );
    let bank_name = Alpha16BankName::try_from("C09F").unwrap();
    assert_eq!(
        bank_name.channel_id(),
        ChannelId::A32(Adc32ChannelId::try_from(15).unwrap())
    );
}

#[test]
fn bank_name_error_messages() {
    assert_eq!(ParseAlpha16BankNameError::PatternMismatch.message(), "pattern mismatch");
    assert_eq!(ParseAlpha16BankNameError::UnknownBoardId.message(), "unknown board id");
    assert_eq!(ParseAlpha16BankNameError::UnknownChannelId.message(), "unknown channel id");
}
