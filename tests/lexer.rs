use bf_core::instruction::Instruction::{
    Decrement, Increment, Input, JumpIfNonZero, JumpIfZero, MoveLeft, MoveRight, Output,
};
use bf_core::instruction::{LexError, LexResult};
use bf_core::lexer::BFLexer;

#[test]
fn lexes_every_symbol() {
    assert_eq!(
        BFLexer::parse("><+-.,"),
        LexResult::Success(vec![MoveRight, MoveLeft, Increment, Decrement, Output, Input])
    );
}

#[test]
fn skips_comment_characters() {
    assert_eq!(BFLexer::parse("add one: + done\n"), LexResult::Success(vec![Increment]));
    assert_eq!(BFLexer::parse(""), LexResult::Success(vec![]));
}

#[test]
fn resolves_loop_targets() {
    assert_eq!(
        BFLexer::parse("+[->+<]"),
        LexResult::Success(vec![
            Increment,
            JumpIfZero(7),
            Decrement,
            MoveRight,
            Increment,
            MoveLeft,
            JumpIfNonZero(2),
        ])
    );
}

#[test]
fn resolves_nested_loops() {
    assert_eq!(
        BFLexer::parse("[[]]"),
        LexResult::Success(vec![JumpIfZero(4), JumpIfZero(3), JumpIfNonZero(2), JumpIfNonZero(1)])
    );
    assert_eq!(
        BFLexer::parse("[][]"),
        LexResult::Success(vec![JumpIfZero(2), JumpIfNonZero(1), JumpIfZero(4), JumpIfNonZero(3)])
    );
}

#[test]
fn well_formed_sources_pair_their_jumps() {
    let src = "x[>[-]<[+[.]],]y";
    match BFLexer::parse(src) {
        LexResult::Success(v) => {
            for (i, ins) in v.iter().enumerate() {
                if let JumpIfZero(t) = ins {
                    let j = t - 1;
                    assert!(j > i);
                    assert_eq!(v[j], JumpIfNonZero(i + 1));
                }
                if let JumpIfNonZero(t) = ins {
                    let o = t - 1;
                    assert!(o < i);
                    assert_eq!(v[o], JumpIfZero(i + 1));
                }
            }
        }
        other => panic!("unexpected {:?}", other),
    }
}

#[test]
fn unmatched_open_fails() {
    assert_eq!(
        BFLexer::parse("["),
        LexResult::Failure(LexError::UnmatchedOpen { position: 0 })
    );
}

#[test]
fn reports_first_unclosed_open() {
    assert_eq!(
        BFLexer::parse("ab[[]"),
        LexResult::Failure(LexError::UnmatchedOpen { position: 2 })
    );
    assert_eq!(
        BFLexer::parse("[[[]"),
        LexResult::Failure(LexError::UnmatchedOpen { position: 0 })
    );
}

#[test]
fn unmatched_close_fails() {
    assert_eq!(
        BFLexer::parse("+]"),
        LexResult::Failure(LexError::UnmatchedClose { position: 1 })
    );
    assert_eq!(
        BFLexer::parse("]["),
        LexResult::Failure(LexError::UnmatchedClose { position: 0 })
    );
    assert_eq!(
        BFLexer::parse("[]]["),
        LexResult::Failure(LexError::UnmatchedClose { position: 2 })
    );
}

#[test]
fn positions_count_characters_not_bytes() {
    assert_eq!(
        BFLexer::parse("\u{e9}\u{e9}]"),
        LexResult::Failure(LexError::UnmatchedClose { position: 2 })
    );
}
