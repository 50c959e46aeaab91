use mpeg2::{mode_from_text, Flag, FrameMode};

fn words(list: &[&str]) -> Vec<Vec<u8>> {
    list.iter().map(|w| w.as_bytes().to_vec()).collect()
}

#[test]
fn classify_rff_and_tff_is_repeat_top_first() {
    assert_eq!(FrameMode::from_words(&words(&["RFF", "TFF"])), FrameMode::RFF_TFF);
    assert_eq!(FrameMode::from_words(&words(&["TFF", "RFF"])), FrameMode::RFF_TFF);
}

#[test]
fn classify_rff_alone_is_repeat_bottom_first() {
    assert_eq!(FrameMode::from_words(&words(&["RFF"])), FrameMode::RFF_BFF);
}

#[test]
fn classify_tff_alone_is_top_first() {
    assert_eq!(FrameMode::from_words(&words(&["TFF"])), FrameMode::TFF);
}

#[test]
fn classify_prog_is_progressive() {
    assert_eq!(FrameMode::from_words(&words(&["PROG"])), FrameMode::PROG);
}

#[test]
fn classify_nothing_is_bottom_first() {
    assert_eq!(FrameMode::from_words(&words(&[])), FrameMode::BFF);
}

#[test]
fn classify_ignores_unknown_words() {
    assert_eq!(FrameMode::from_words(&words(&["XYZ", "prog"])), FrameMode::BFF);
    assert_eq!(FrameMode::from_words(&words(&["XYZ", "PROG"])), FrameMode::PROG);
}

#[test]
fn classify_tff_wins_over_prog() {
    assert_eq!(FrameMode::from_words(&words(&["PROG", "TFF"])), FrameMode::TFF);
    assert_eq!(FrameMode::from_words(&words(&["PROG", "RFF"])), FrameMode::RFF_BFF);
}

#[test]
fn flag_words() {
    assert_eq!(Flag::from_word(b"PROG"), Flag::Progressive);
    assert_eq!(Flag::from_word(b"RFF"), Flag::RepeatFirstField);
    assert_eq!(Flag::from_word(b"TFF"), Flag::TopFieldFirst);
    assert_eq!(Flag::from_word(b"TF"), Flag::Unrecognised);
    assert_eq!(Flag::from_word(b"PROGR"), Flag::Unrecognised);
    assert_eq!(Flag::from_word(b""), Flag::Unrecognised);
}

#[test]
fn mode_from_text_splits_words() {
    assert_eq!(mode_from_text(b"  RFF\tTFF \n"), FrameMode::RFF_TFF);
    assert_eq!(mode_from_text(b"PROG"), FrameMode::PROG);
    assert_eq!(mode_from_text(b"RFFTFF"), FrameMode::BFF);
    assert_eq!(mode_from_text(b""), FrameMode::BFF);
}
