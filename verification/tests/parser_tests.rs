use rshyeong::{HangulStartType, HeartTree, Instruction, Operation, Parser, Token};

fn instr(c: char, hangul_count: usize, dots: usize, hearts: HeartTree) -> Instruction {
    Instruction::new(Operation::from_single_char(c, hangul_count), dots, hearts)
}

fn heart_idx(c: char) -> usize {
    match Token::from_char(c) {
        Some(Token::Heart(i)) => i,
        _ => panic!("not a heart"),
    }
}

#[test]
fn from_character() {
    assert_eq!(HangulStartType::from_char('\u{d600}'), Some(HangulStartType::Hyeo));
    assert_eq!(HangulStartType::from_char('\u{d558}'), Some(HangulStartType::Ha));
    assert_eq!(HangulStartType::from_char('\u{d750}'), Some(HangulStartType::Heu));
    assert_eq!(HangulStartType::from_char('\u{d615}'), Some(HangulStartType::Hyeong));
    assert_eq!(HangulStartType::from_char('\u{d56d}'), Some(HangulStartType::Hang));
    assert_eq!(HangulStartType::from_char('\u{d56b}'), Some(HangulStartType::Hat));
    assert_eq!(HangulStartType::from_char('\u{d763}'), Some(HangulStartType::Heut));
    assert_eq!(HangulStartType::from_char('\u{d761}'), Some(HangulStartType::Heup));
    assert_eq!(HangulStartType::from_char('\u{d751}'), Some(HangulStartType::Heuk));
    assert_eq!(HangulStartType::from_char('\u{c5c9}'), None);
    assert_eq!(HangulStartType::from_char('\u{c559}'), None);
    assert_eq!(HangulStartType::from_char('\u{c557}'), None);
    assert_eq!(HangulStartType::from_char('.'), None);
    assert_eq!(HangulStartType::from_char('?'), None);
    assert_eq!(HangulStartType::from_char('\u{2665}'), None);
}

#[test]
fn self_ending() {
    assert!(!HangulStartType::Hyeo.is_self_ending());
    assert!(!HangulStartType::Ha.is_self_ending());
    assert!(!HangulStartType::Heu.is_self_ending());
    assert!(HangulStartType::Hyeong.is_self_ending());
    assert!(HangulStartType::Hang.is_self_ending());
    assert!(HangulStartType::Hat.is_self_ending());
    assert!(HangulStartType::Heut.is_self_ending());
    assert!(HangulStartType::Heup.is_self_ending());
    assert!(HangulStartType::Heuk.is_self_ending());
}

#[test]
fn from_char() {
    assert_eq!(Token::from_char('.'), Some(Token::Dot));
    assert_eq!(Token::from_char('!'), Some(Token::ExclamationMark));
    assert_eq!(Token::from_char('?'), Some(Token::QuestionMark));
    assert_eq!(Token::from_char('\u{2026}'), Some(Token::ThreeDots));
    assert_eq!(Token::from_char('\u{22ee}'), Some(Token::ThreeDots));
    assert_eq!(Token::from_char('\u{22ef}'), Some(Token::ThreeDots));
    assert_eq!(Token::from_char('\u{2661}'), Some(Token::ReturnHeart));
}

#[test]
fn from_char_hearts() {
    let marks = [
        '\u{2665}', '\u{2764}', '\u{1f495}', '\u{1f496}', '\u{1f497}', '\u{1f498}', '\u{1f499}',
        '\u{1f49a}', '\u{1f49b}', '\u{1f49c}', '\u{1f49d}',
    ];
    for (i, c) in marks.iter().enumerate() {
        assert_eq!(Token::from_char(*c), Some(Token::Heart(i)));
    }
    assert_eq!(Token::from_char('\u{2661}'), Some(Token::ReturnHeart));
    assert_eq!(Token::from_char('\u{2765}'), None);
    assert_eq!(Token::from_char('\u{1f49e}'), None);
}

#[test]
fn simple() {
    let mut parser = Parser::new("\u{d600}\u{c5c9}...");
    assert_eq!(parser.next(), Some(instr('\u{d615}', 2, 3, HeartTree::Nil)));
    assert_eq!(parser.next(), None);
}

#[test]
fn parser_self_ending() {
    let mut parser = Parser::new(
        "\u{d615} \u{d56d}. \u{d56b}... \u{d761}.. \u{d751}. \u{d763}.....",
    );
    assert_eq!(parser.next(), Some(instr('\u{d615}', 1, 0, HeartTree::Nil)));
    assert_eq!(parser.next(), Some(instr('\u{d56d}', 1, 1, HeartTree::Nil)));
    assert_eq!(parser.next(), Some(instr('\u{d56b}', 1, 3, HeartTree::Nil)));
    assert_eq!(parser.next(), Some(instr('\u{d761}', 1, 2, HeartTree::Nil)));
    assert_eq!(parser.next(), Some(instr('\u{d751}', 1, 1, HeartTree::Nil)));
    assert_eq!(parser.next(), Some(instr('\u{d763}', 1, 5, HeartTree::Nil)));
    assert_eq!(parser.next(), None);
}

#[test]
fn noop() {
    let mut parser = Parser::new(
        "\u{d750}\u{c73c}\u{c751}... \u{b108}\u{bb34} \u{cee4}\u{c5c7}...",
    );
    assert_eq!(parser.next(), None);
}

#[test]
fn multiple() {
    let mut parser = Parser::new(
        "\u{d600}\u{c5c9}... \u{d751}. \u{d750}\u{c74f}..... \u{d558}\u{c544}\u{c544}\u{c559}...",
    );
    assert_eq!(parser.next(), Some(instr('\u{d615}', 2, 3, HeartTree::Nil)));
    assert_eq!(parser.next(), Some(instr('\u{d751}', 1, 1, HeartTree::Nil)));
    assert_eq!(parser.next(), Some(instr('\u{d763}', 2, 5, HeartTree::Nil)));
    assert_eq!(parser.next(), Some(instr('\u{d56d}', 4, 3, HeartTree::Nil)));
    assert_eq!(parser.next(), None);
}

#[test]
fn hangul_syllables() {
    let mut parser = Parser::new(
        "\u{d600}\u{b0b4} \u{c774}\u{b984}\u{c740} \u{ba54}\u{ad6c}\u{bc0d}!\u{c5c9}... \u{d750}\u{c544}\u{d06c} \u{c704}\u{c800}\u{b4dc}\u{b97c} \u{c0dd}\u{c5c5}\u{c73c}\u{b85c} \u{c0bc}\u{ace0} \u{c788}\u{c73c}\u{ba70}\u{c74d}..... \u{cd5c}\u{ac15}\u{c758} \u{acf5}\u{aca9}\u{b9c8}\u{bc95}, \u{d558}\u{d3ed}\u{b82c}\u{b9c8}\u{bc95}\u{c559}....\u{c744} \u{d750}\u{c73c}\u{c73c}... \u{d3bc}\u{ce58}\u{b294} \u{c790}\u{c544}\u{c74f}...!",
    );
    assert_eq!(parser.next(), Some(instr('\u{d615}', 9, 3, HeartTree::Nil)));
    assert_eq!(parser.next(), Some(instr('\u{d761}', 17, 5, HeartTree::Nil)));
    assert_eq!(parser.next(), Some(instr('\u{d56d}', 6, 4, HeartTree::Nil)));
    assert_eq!(
        parser.next(),
        Some(instr(
            '\u{d763}',
            9,
            3,
            HeartTree::Equals(Box::new(HeartTree::Nil), Box::new(HeartTree::Nil)),
        )),
    );
    assert_eq!(parser.next(), None);
}

#[test]
fn very_long_hangul() {
    let mut parser = Parser::new(
        "\u{d600}\u{d558}\u{c559}... \u{d750}\u{c73c}\u{c74f}.. \u{d761} \u{d750}\u{c73d}...... \u{d600}\u{c5b4}\u{c5b4}\u{c5c9}.......",
    );
    assert_eq!(parser.next(), Some(instr('\u{d615}', 13, 7, HeartTree::Nil)));
    assert_eq!(parser.next(), None);

    let mut parser = Parser::new(
        "\u{d600}\u{c77c}....\u{c774}\u{c0bc}\u{c0ac}\u{c624}\u{c721}\u{c559}\u{2665}\u{c557}?!\u{c74f}\u{2661}\u{c74d}...\u{c5c9}",
    );
    assert_eq!(parser.next(), Some(instr('\u{d615}', 12, 0, HeartTree::Nil)));
    assert_eq!(parser.next(), None);
}

#[test]
fn endless_hangul() {
    // The leading open syllable's closer never occurs, so the open
    // syllable and everything after it yield no instruction: the
    // stream ends there and the trailing text is discarded.
    let mut parser = Parser::new(
        "\u{d600}\u{d615}\u{d558}\u{c559}... \u{d750}\u{c73c}\u{c74f}.. \u{d761} \u{d750}\u{c73d}...... \u{d558}\u{c557}.",
    );
    assert_eq!(parser.next(), None);
}

#[test]
fn unclosed_open_syllable_truncates() {
    // An unclosed open syllable in the middle of a program ends the
    // stream after the instruction being finished; the tokens before
    // the open syllable still modify that instruction.
    let mut parser = Parser::new("\u{d615}\u{c5c9}... \u{d600}\u{d56d}.");
    assert_eq!(parser.next(), Some(instr('\u{d615}', 1, 3, HeartTree::Nil)));
    assert_eq!(parser.next(), None);
}

#[test]
fn triple_dots() {
    let mut parser = Parser::new("\u{d558}\u{c557}. \u{2026} \u{22ef} \u{22ee}");
    assert_eq!(parser.next(), Some(instr('\u{d56b}', 2, 10, HeartTree::Nil)));
    assert_eq!(parser.next(), None);
}

#[test]
fn hearts() {
    let black_heart_suit_idx = heart_idx('\u{2665}');
    let sparkling_heart_idx = heart_idx('\u{1f496}');

    let mut parser = Parser::new("\u{d558}\u{c557}....\u{2665}\u{2661}!");
    assert_eq!(
        parser.next(),
        Some(instr(
            '\u{d56b}',
            2,
            4,
            HeartTree::Equals(
                Box::new(HeartTree::Heart(black_heart_suit_idx)),
                Box::new(HeartTree::Nil),
            ),
        )),
    );
    assert_eq!(parser.next(), None);

    let mut parser = Parser::new("\u{d558}\u{c544}\u{c557}.. . ? \u{2665} ! \u{1f496}");
    assert_eq!(
        parser.next(),
        Some(instr(
            '\u{d56b}',
            3,
            3,
            HeartTree::LessThan(
                Box::new(HeartTree::Nil),
                Box::new(HeartTree::Equals(
                    Box::new(HeartTree::Heart(black_heart_suit_idx)),
                    Box::new(HeartTree::Heart(sparkling_heart_idx)),
                )),
            ),
        )),
    );
    assert_eq!(parser.next(), None);

    let mut parser = Parser::new("\u{d558}\u{c544}\u{c557}...! \u{2665} ? \u{1f496}");
    assert_eq!(
        parser.next(),
        Some(instr(
            '\u{d56b}',
            3,
            3,
            HeartTree::LessThan(
                Box::new(HeartTree::Equals(
                    Box::new(HeartTree::Nil),
                    Box::new(HeartTree::Heart(black_heart_suit_idx)),
                )),
                Box::new(HeartTree::Heart(sparkling_heart_idx)),
            ),
        )),
    );
    assert_eq!(parser.next(), None);

    let mut parser = Parser::new("\u{d750}\u{c74f}...!\u{2661}!");
    assert_eq!(
        parser.next(),
        Some(instr(
            '\u{d763}',
            2,
            3,
            HeartTree::Equals(
                Box::new(HeartTree::Nil),
                Box::new(HeartTree::Equals(
                    Box::new(HeartTree::Return),
                    Box::new(HeartTree::Nil),
                )),
            ),
        )),
    );
    assert_eq!(parser.next(), None);
}

#[test]
fn six_self_ending_syllables() {
    let mut parser = Parser::new(
        "\u{d615}\u{d56d}\u{d56b}\u{d763}\u{d761}\u{d751}",
    );
    assert_eq!(parser.next(), Some(instr('\u{d615}', 1, 0, HeartTree::Nil)));
    assert_eq!(parser.next(), Some(instr('\u{d56d}', 1, 0, HeartTree::Nil)));
    assert_eq!(parser.next(), Some(instr('\u{d56b}', 1, 0, HeartTree::Nil)));
    assert_eq!(parser.next(), Some(instr('\u{d763}', 1, 0, HeartTree::Nil)));
    assert_eq!(parser.next(), Some(instr('\u{d761}', 1, 0, HeartTree::Nil)));
    assert_eq!(parser.next(), Some(instr('\u{d751}', 1, 0, HeartTree::Nil)));
    assert_eq!(parser.next(), None);
}

#[test]
fn filler_between_operations() {
    let plain = "\u{d600}\u{c5c9}... \u{d751}.";
    let noisy = "\u{d600}\u{c5c9}abc... xy\u{d751}z.w";
    let mut p1 = Parser::new(plain);
    let mut p2 = Parser::new(noisy);
    loop {
        let a = p1.next();
        let b = p2.next();
        assert_eq!(a, b);
        if a.is_none() {
            break;
        }
    }
}

#[test]
fn hangul_filler_between_operations() {
    // Hangul-block characters that are not trigger syllables are inert
    // between operations (inside an open syllable's scan they would
    // count toward the repeat count).
    let plain = "\u{d615}.. \u{d56d}. \u{d751}";
    let noisy = "\u{d615}..\u{ac00}\u{b098} \u{d56d}.\u{b2e4} \u{d751}";
    let mut p1 = Parser::new(plain);
    let mut p2 = Parser::new(noisy);
    loop {
        let a = p1.next();
        let b = p2.next();
        assert_eq!(a, b);
        if a.is_none() {
            break;
        }
    }
}
