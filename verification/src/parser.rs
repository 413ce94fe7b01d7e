//! The lexical scanner: from source text to a stream of instructions.
//!
//! Nine trigger syllables start an operation.  Six are self-ending; the
//! other three are open and must be resolved by a later closing syllable,
//! counting every Hangul syllable scanned on the way (the closer
//! included) into the repeat count.  An open syllable whose closer
//! never comes ends the instruction stream, discarding the trailing
//! text.  Between operations, dot and heart glyphs are collected as
//! tokens; all other characters are inert filler.

use vstd::prelude::*;

use crate::structure::{
    instr_sized, op_for_closer, op_for_single, valid_pair, HeartTree, Instruction, Operation,
};

verus! {

/// The nine trigger syllables, by their leading character.
#[derive(Copy, Clone, Debug, PartialEq, Eq)]
pub enum HangulStartType {
    Hyeo,
    Ha,
    Heu,
    Hyeong,
    Hang,
    Hat,
    Heut,
    Heup,
    Heuk,
}

/// Classifies a character as a trigger syllable.
pub open spec fn start_of(c: char) -> Option<HangulStartType> {
    let u = c as u32;
    if u == 0xd600 {
        Some(HangulStartType::Hyeo)
    } else if u == 0xd558 {
        Some(HangulStartType::Ha)
    } else if u == 0xd750 {
        Some(HangulStartType::Heu)
    } else if u == 0xd615 {
        Some(HangulStartType::Hyeong)
    } else if u == 0xd56d {
        Some(HangulStartType::Hang)
    } else if u == 0xd56b {
        Some(HangulStartType::Hat)
    } else if u == 0xd763 {
        Some(HangulStartType::Heut)
    } else if u == 0xd761 {
        Some(HangulStartType::Heup)
    } else if u == 0xd751 {
        Some(HangulStartType::Heuk)
    } else {
        None
    }
}

/// Whether the trigger syllable alone completes an operation.
pub open spec fn spec_self_ending(h: HangulStartType) -> bool {
    !(h is Hyeo || h is Ha || h is Heu)
}

/// Whether `c` closes the open syllable `h`.
pub open spec fn closer_matches(h: HangulStartType, c: char) -> bool {
    let u = c as u32;
    match h {
        HangulStartType::Hyeo => u == 0xc5c9,
        HangulStartType::Ha => u == 0xc559 || u == 0xc557,
        HangulStartType::Heu => u == 0xc74f || u == 0xc74d || u == 0xc73d,
        _ => false,
    }
}

/// Whether `c` lies in the Hangul syllable block.
pub open spec fn is_hangul_syllable(c: char) -> bool {
    0xac00 <= c as u32 && c as u32 <= 0xd7a3
}

impl HangulStartType {
    pub fn from_char(c: char) -> (r: Option<Self>)
        ensures
            r == start_of(c),
    {
        let u = c as u32;
        if u == 0xd600 {
            Some(HangulStartType::Hyeo)
        } else if u == 0xd558 {
            Some(HangulStartType::Ha)
        } else if u == 0xd750 {
            Some(HangulStartType::Heu)
        } else if u == 0xd615 {
            Some(HangulStartType::Hyeong)
        } else if u == 0xd56d {
            Some(HangulStartType::Hang)
        } else if u == 0xd56b {
            Some(HangulStartType::Hat)
        } else if u == 0xd763 {
            Some(HangulStartType::Heut)
        } else if u == 0xd761 {
            Some(HangulStartType::Heup)
        } else if u == 0xd751 {
            Some(HangulStartType::Heuk)
        } else {
            None
        }
    }

    pub fn is_self_ending(&self) -> (r: bool)
        ensures
            r == spec_self_ending(*self),
    {
        match *self {
            HangulStartType::Hyeo | HangulStartType::Ha | HangulStartType::Heu => false,
            _ => true,
        }
    }
}

/// One token collected between operations: a dot, an ellipsis (worth
/// three dots), a heart glyph by table index, the return heart, `!` or
/// `?`.
#[derive(Copy, Clone, Debug, PartialEq, Eq)]
pub enum Token {
    Dot,
    ThreeDots,
    Heart(usize),
    ReturnHeart,
    ExclamationMark,
    QuestionMark,
}

/// Classifies a character as a token.  The eleven heart glyphs carry
/// their stable table index.
pub open spec fn token_of(c: char) -> Option<Token> {
    let u = c as u32;
    if u == 0x2e {
        Some(Token::Dot)
    } else if u == 0x2026 || u == 0x22ee || u == 0x22ef {
        Some(Token::ThreeDots)
    } else if u == 0x2661 {
        Some(Token::ReturnHeart)
    } else if u == 0x21 {
        Some(Token::ExclamationMark)
    } else if u == 0x3f {
        Some(Token::QuestionMark)
    } else if u == 0x2665 {
        Some(Token::Heart(0))
    } else if u == 0x2764 {
        Some(Token::Heart(1))
    } else if u == 0x1f495 {
        Some(Token::Heart(2))
    } else if u == 0x1f496 {
        Some(Token::Heart(3))
    } else if u == 0x1f497 {
        Some(Token::Heart(4))
    } else if u == 0x1f498 {
        Some(Token::Heart(5))
    } else if u == 0x1f499 {
        Some(Token::Heart(6))
    } else if u == 0x1f49a {
        Some(Token::Heart(7))
    } else if u == 0x1f49b {
        Some(Token::Heart(8))
    } else if u == 0x1f49c {
        Some(Token::Heart(9))
    } else if u == 0x1f49d {
        Some(Token::Heart(10))
    } else {
        None
    }
}

impl Token {
    pub fn from_char(c: char) -> (r: Option<Self>)
        ensures
            r == token_of(c),
    {
        let u = c as u32;
        if u == 0x2e {
            Some(Token::Dot)
        } else if u == 0x2026 || u == 0x22ee || u == 0x22ef {
            Some(Token::ThreeDots)
        } else if u == 0x2661 {
            Some(Token::ReturnHeart)
        } else if u == 0x21 {
            Some(Token::ExclamationMark)
        } else if u == 0x3f {
            Some(Token::QuestionMark)
        } else if u == 0x2665 {
            Some(Token::Heart(0))
        } else if u == 0x2764 {
            Some(Token::Heart(1))
        } else if u == 0x1f495 {
            Some(Token::Heart(2))
        } else if u == 0x1f496 {
            Some(Token::Heart(3))
        } else if u == 0x1f497 {
            Some(Token::Heart(4))
        } else if u == 0x1f498 {
            Some(Token::Heart(5))
        } else if u == 0x1f499 {
            Some(Token::Heart(6))
        } else if u == 0x1f49a {
            Some(Token::Heart(7))
        } else if u == 0x1f49b {
            Some(Token::Heart(8))
        } else if u == 0x1f49c {
            Some(Token::Heart(9))
        } else if u == 0x1f49d {
            Some(Token::Heart(10))
        } else {
            None
        }
    }
}

/// Scans up to the next trigger syllable, collecting the tokens on the
/// way.  Returns the tokens, and the trigger (with its character and the
/// text after it) if one was found.
pub open spec fn scan_to_trigger(s: Seq<char>) -> (Seq<Token>, Option<
    (HangulStartType, char, Seq<char>),
>)
    decreases s.len(),
{
    if s.len() == 0 {
        (Seq::<Token>::empty(), None)
    } else {
        let c = s[0];
        match start_of(c) {
            Some(h) => (Seq::<Token>::empty(), Some((h, c, s.drop_first()))),
            None => {
                let (toks, r) = scan_to_trigger(s.drop_first());
                match token_of(c) {
                    Some(t) => (seq![t] + toks, r),
                    None => (toks, r),
                }
            },
        }
    }
}

/// Scans for the closing syllable of open syllable `h`, counting every
/// Hangul-block character passed (the closer included).  Returns the
/// count, the closer, and the text after it.
pub open spec fn find_end(h: HangulStartType, s: Seq<char>) -> Option<(nat, char, Seq<char>)>
    decreases s.len(),
{
    if s.len() == 0 {
        None
    } else {
        let c = s[0];
        let inc: nat = if is_hangul_syllable(c) {
            1
        } else {
            0
        };
        if closer_matches(h, c) {
            Some((inc, c, s.drop_first()))
        } else {
            match find_end(h, s.drop_first()) {
                Some((k, cl, rest)) => Some(((k + inc) as nat, cl, rest)),
                None => None,
            }
        }
    }
}

proof fn lemma_scan_to_trigger_len(s: Seq<char>)
    ensures
        ({
            let (toks, r) = scan_to_trigger(s);
            match r {
                Some((h, c, rest)) => toks.len() + 1 + rest.len() <= s.len() && start_of(c)
                    == Some(h),
                None => toks.len() <= s.len(),
            }
        }),
    decreases s.len(),
{
    if s.len() > 0 {
        lemma_scan_to_trigger_len(s.drop_first());
    }
}

proof fn lemma_find_end_len(h: HangulStartType, s: Seq<char>)
    ensures
        ({
            let r = find_end(h, s);
            match r {
                Some((k, cl, rest)) => k + rest.len() < s.len() + 1 && rest.len() < s.len()
                    && closer_matches(h, cl),
                None => true,
            }
        }),
    decreases s.len(),
{
    if s.len() > 0 {
        lemma_find_end_len(h, s.drop_first());
    }
}

/// Resolves the next operation: scan to a trigger; a self-ending trigger
/// completes at once; an open trigger is resolved by its closing
/// syllable.  If the closer never comes before the text ends, the open
/// syllable and everything after it yield no operation: parsing ends
/// there and the remaining text is discarded.  Returns the tokens
/// collected before the operation (or before the truncating open
/// syllable), which modify the instruction being finished.
pub open spec fn parse_op(s: Seq<char>) -> (Seq<Token>, Option<(Operation, Seq<char>)>) {
    let (toks, r) = scan_to_trigger(s);
    match r {
        None => (toks, None),
        Some((h, c, rest)) => {
            if spec_self_ending(h) {
                (toks, Some((Operation { op_type: op_for_single(c), hangul_count: 1 }, rest)))
            } else {
                match find_end(h, rest) {
                    Some((cnt, closer, rest2)) => (
                        toks,
                        Some(
                            (
                                Operation {
                                    op_type: op_for_closer(closer),
                                    hangul_count: (cnt + 1) as usize,
                                },
                                rest2,
                            ),
                        ),
                    ),
                    None => (toks, None),
                }
            }
        },
    }
}

/// Bounds on what `parse_op` returns: tokens and repeat count never
/// exceed the scanned text's length.
proof fn lemma_parse_op_len(s: Seq<char>)
    requires
        s.len() <= 0x3fffffff,
    ensures
        ({
            let (toks, r) = parse_op(s);
            match r {
                Some((op, rest)) => toks.len() <= s.len() && rest.len() < s.len() && 1
                    <= op.hangul_count <= s.len(),
                None => toks.len() <= s.len(),
            }
        }),
{
    let (toks0, r0) = scan_to_trigger(s);
    lemma_scan_to_trigger_len(s);
    match r0 {
        None => {},
        Some((h, c, rest)) => {
            if !spec_self_ending(h) {
                lemma_find_end_len(h, rest);
            }
        },
    }
}

/// The magnitude of an instruction: the sum over the maximal leading run
/// of dot and ellipsis tokens, one per dot, three per ellipsis.  Tokens
/// after the first non-dot token never count.
pub open spec fn leading_dots(toks: Seq<Token>) -> nat
    decreases toks.len(),
{
    if toks.len() == 0 {
        0
    } else {
        match toks[0] {
            Token::Dot => 1 + leading_dots(toks.drop_first()),
            Token::ThreeDots => 3 + leading_dots(toks.drop_first()),
            _ => 0,
        }
    }
}

proof fn lemma_leading_dots_bound(toks: Seq<Token>)
    ensures
        leading_dots(toks) <= 3 * toks.len(),
    decreases toks.len(),
{
    if toks.len() > 0 {
        lemma_leading_dots_bound(toks.drop_first());
    }
}

/// Whether a token contributes to the magnitude.
pub open spec fn is_dot_token(t: Token) -> bool {
    t is Dot || t is ThreeDots
}

/// The sum of the dot values of all tokens in `s`: one per dot, three
/// per ellipsis.
pub open spec fn dots_sum(s: Seq<Token>) -> nat
    decreases s.len(),
{
    if s.len() == 0 {
        0
    } else {
        (match s[0] {
            Token::Dot => 1nat,
            Token::ThreeDots => 3nat,
            _ => 0nat,
        }) + dots_sum(s.drop_first())
    }
}

/// The magnitude law: an instruction's magnitude is the sum over the
/// maximal leading run of dot and ellipsis tokens, one per dot, three
/// per ellipsis; tokens after the first non-dot token never count,
/// even if they are dots.
pub proof fn lemma_magnitude_leading_run(pre: Seq<Token>, t: Token, suf: Seq<Token>)
    requires
        forall|i: int| 0 <= i < pre.len() ==> is_dot_token(#[trigger] pre[i]),
        !is_dot_token(t),
    ensures
        leading_dots(pre + seq![t] + suf) == dots_sum(pre),
    decreases pre.len(),
{
    if pre.len() == 0 {
        assert((pre + seq![t] + suf)[0] == t);
    } else {
        assert((pre + seq![t] + suf)[0] == pre[0]);
        assert((pre + seq![t] + suf).drop_first() =~= pre.drop_first() + seq![t] + suf);
        lemma_magnitude_leading_run(pre.drop_first(), t, suf);
    }
}

/// The magnitude law for a run of dot tokens only: the magnitude is
/// the sum over the whole run.
pub proof fn lemma_magnitude_all_dots(toks: Seq<Token>)
    requires
        forall|i: int| 0 <= i < toks.len() ==> is_dot_token(#[trigger] toks[i]),
    ensures
        leading_dots(toks) == dots_sum(toks),
    decreases toks.len(),
{
    if toks.len() > 0 {
        lemma_magnitude_all_dots(toks.drop_first());
    }
}

/// The state of the heart-tree builder: a pending leaf (first heart or
/// return glyph seen since the last `!` or `?`), the output stack, and
/// the number of outstanding equals requests.
pub struct HeartState {
    pub pending: Option<HeartTree>,
    pub stack: Seq<HeartTree>,
    pub pending_equals: nat,
}

pub open spec fn pending_leaf(p: Option<HeartTree>) -> HeartTree {
    match p {
        Some(t) => t,
        None => HeartTree::Nil,
    }
}

/// Pops two nodes and pushes their `Equals` combination, `cnt` times.
pub open spec fn fold_equals(stack: Seq<HeartTree>, cnt: nat) -> Seq<HeartTree>
    decreases cnt,
{
    if cnt == 0 || stack.len() < 2 {
        stack
    } else {
        let rhs = stack[stack.len() - 1];
        let lhs = stack[stack.len() - 2];
        fold_equals(
            stack.take(stack.len() - 2).push(HeartTree::Equals(Box::new(lhs), Box::new(rhs))),
            (cnt - 1) as nat,
        )
    }
}

/// One step of the heart-tree builder on a single token.  A heart or
/// return glyph fills the pending slot only if it is empty (first wins);
/// `!` pushes the pending leaf and records an equals request; `?` pushes
/// the pending leaf and folds all outstanding equals requests; dots are
/// ignored.
pub open spec fn hearts_step(st: HeartState, t: Token) -> HeartState {
    match t {
        Token::Heart(id) => if st.pending is None {
            HeartState {
                pending: Some(HeartTree::Heart(id)),
                stack: st.stack,
                pending_equals: st.pending_equals,
            }
        } else {
            st
        },
        Token::ReturnHeart => if st.pending is None {
            HeartState {
                pending: Some(HeartTree::Return),
                stack: st.stack,
                pending_equals: st.pending_equals,
            }
        } else {
            st
        },
        Token::ExclamationMark => HeartState {
            pending: None,
            stack: st.stack.push(pending_leaf(st.pending)),
            pending_equals: st.pending_equals + 1,
        },
        Token::QuestionMark => HeartState {
            pending: None,
            stack: fold_equals(st.stack.push(pending_leaf(st.pending)), st.pending_equals),
            pending_equals: 0,
        },
        _ => st,
    }
}

pub open spec fn hearts_run(st: HeartState, toks: Seq<Token>) -> HeartState
    decreases toks.len(),
{
    if toks.len() == 0 {
        st
    } else {
        hearts_run(hearts_step(st, toks[0]), toks.drop_first())
    }
}

pub open spec fn initial_heart_state() -> HeartState {
    HeartState { pending: None, stack: Seq::<HeartTree>::empty(), pending_equals: 0 }
}

/// Folds whatever nodes remain into nested `LessThan` comparisons, the
/// top of the stack becoming the right operand each time.
pub open spec fn fold_less(stack: Seq<HeartTree>) -> HeartTree
    decreases stack.len(),
{
    if stack.len() == 0 {
        HeartTree::Nil
    } else if stack.len() == 1 {
        stack[0]
    } else {
        let rhs = stack[stack.len() - 1];
        let lhs = stack[stack.len() - 2];
        fold_less(
            stack.take(stack.len() - 2).push(HeartTree::LessThan(Box::new(lhs), Box::new(rhs))),
        )
    }
}

/// The heart tree of an instruction, built from its whole token run:
/// run the builder over every token, push the final pending leaf, fold
/// the outstanding equals requests, then fold what remains into
/// `LessThan` nodes.
pub open spec fn hearts_of(toks: Seq<Token>) -> HeartTree {
    let st = hearts_run(initial_heart_state(), toks);
    fold_less(fold_equals(st.stack.push(pending_leaf(st.pending)), st.pending_equals))
}

/// The instruction made from an operation and the token run that
/// followed it.
pub open spec fn build_instruction(op: Operation, toks: Seq<Token>) -> Instruction {
    Instruction { op, dots: leading_dots(toks) as usize, hearts: hearts_of(toks) }
}

/// The parser state (cached operation and remaining text) after the
/// initial scan of a source text.
pub open spec fn parser_state_after(s: Seq<char>) -> (Option<Operation>, Seq<char>) {
    let (toks, r) = parse_op(s);
    match r {
        None => (None, Seq::<char>::empty()),
        Some((op, rest)) => (Some(op), rest),
    }
}

/// The whole instruction sequence that a parser state still yields.
pub open spec fn instrs_from(cache: Option<Operation>, rest: Seq<char>) -> Seq<Instruction>
    decreases rest.len(), (if cache is Some { 1int } else { 0int }),
    via instrs_from_decreases
{
    match cache {
        None => Seq::<Instruction>::empty(),
        Some(op) => {
            let (toks, r) = parse_op(rest);
            match r {
                None => seq![build_instruction(op, toks)],
                Some((op2, rest2)) => seq![build_instruction(op, toks)] + instrs_from(
                    Some(op2),
                    rest2,
                ),
            }
        },
    }
}

proof fn lemma_parse_op_shrinks(s: Seq<char>)
    ensures
        ({
            let (toks, r) = parse_op(s);
            r matches Some((op, rest)) ==> rest.len() < s.len()
        }),
{
    let (toks0, r0) = scan_to_trigger(s);
    lemma_scan_to_trigger_len(s);
    match r0 {
        None => {},
        Some((h, c, rest)) => {
            if !spec_self_ending(h) {
                lemma_find_end_len(h, rest);
            }
        },
    }
}

#[via_fn]
proof fn instrs_from_decreases(cache: Option<Operation>, rest: Seq<char>) {
    lemma_parse_op_shrinks(rest);
}

/// The instruction sequence of a whole source text.
pub open spec fn parse_program(s: Seq<char>) -> Seq<Instruction> {
    let (op, rest) = parser_state_after(s);
    instrs_from(op, rest)
}

/// Whether a character is inert filler for the scanner: not a trigger
/// syllable, not a token, and outside the Hangul syllable block.
pub open spec fn is_inert(c: char) -> bool {
    start_of(c) is None && token_of(c) is None && !is_hangul_syllable(c)
}

/// Witnesses that `a` is `b` with one `c` inserted at some position.
pub open spec fn is_insertion_at(a: Seq<char>, b: Seq<char>, c: char, x: Seq<char>, y: Seq<char>) -> bool {
    a == x + seq![c] + y && b == x + y
}

/// Whether `a` is `b` with one `c` inserted, or the same text.
pub open spec fn ins_rel(a: Seq<char>, b: Seq<char>, c: char) -> bool {
    a == b || exists|x: Seq<char>, y: Seq<char>| #[trigger] is_insertion_at(a, b, c, x, y)
}

proof fn lemma_scan_insert(s1: Seq<char>, s2: Seq<char>, c: char)
    requires
        is_inert(c),
    ensures
        ({
            let (ta, ra) = scan_to_trigger(s1 + seq![c] + s2);
            let (tb, rb) = scan_to_trigger(s1 + s2);
            ta == tb && match (ra, rb) {
                (None, None) => true,
                (Some((ha, ca, resta)), Some((hb, cb, restb))) => ha == hb && ca == cb && ins_rel(
                    resta,
                    restb,
                    c,
                ),
                _ => false,
            }
        }),
    decreases s1.len(),
{
    if s1.len() == 0 {
        assert(s1 + seq![c] + s2 =~= seq![c] + s2);
        assert(s1 + s2 =~= s2);
        assert((seq![c] + s2)[0] == c);
        assert((seq![c] + s2).drop_first() =~= s2);
        let (tb, rb) = scan_to_trigger(s2);
        assert(scan_to_trigger(seq![c] + s2) == (tb, rb));
        match rb {
            Some((hb, cb, restb)) => {
                assert(ins_rel(restb, restb, c));
            },
            None => {},
        }
    } else {
        let h = s1[0];
        assert((s1 + seq![c] + s2)[0] == h);
        assert((s1 + s2)[0] == h);
        assert((s1 + seq![c] + s2).drop_first() =~= s1.drop_first() + seq![c] + s2);
        assert((s1 + s2).drop_first() =~= s1.drop_first() + s2);
        match start_of(h) {
            Some(hh) => {
                let resta = s1.drop_first() + seq![c] + s2;
                let restb = s1.drop_first() + s2;
                assert(is_insertion_at(resta, restb, c, s1.drop_first(), s2));
                assert(ins_rel(resta, restb, c));
            },
            None => {
                lemma_scan_insert(s1.drop_first(), s2, c);
            },
        }
    }
}

proof fn lemma_find_end_insert(h: HangulStartType, x: Seq<char>, y: Seq<char>, c: char)
    requires
        is_inert(c),
    ensures
        ({
            let fa = find_end(h, x + seq![c] + y);
            let fb = find_end(h, x + y);
            match (fa, fb) {
                (None, None) => true,
                (Some((ka, cla, ra)), Some((kb, clb, rb))) => ka == kb && cla == clb && ins_rel(
                    ra,
                    rb,
                    c,
                ),
                _ => false,
            }
        }),
    decreases x.len(),
{
    if x.len() == 0 {
        assert(x + seq![c] + y =~= seq![c] + y);
        assert(x + y =~= y);
        assert((seq![c] + y)[0] == c);
        assert((seq![c] + y).drop_first() =~= y);
        assert(!closer_matches(h, c));
        assert(!is_hangul_syllable(c));
        match find_end(h, y) {
            Some((kb, clb, rb)) => {
                assert(ins_rel(rb, rb, c));
            },
            None => {},
        }
    } else {
        let hd = x[0];
        assert((x + seq![c] + y)[0] == hd);
        assert((x + y)[0] == hd);
        assert((x + seq![c] + y).drop_first() =~= x.drop_first() + seq![c] + y);
        assert((x + y).drop_first() =~= x.drop_first() + y);
        if closer_matches(h, hd) {
            let ra = x.drop_first() + seq![c] + y;
            let rb = x.drop_first() + y;
            assert(is_insertion_at(ra, rb, c, x.drop_first(), y));
            assert(ins_rel(ra, rb, c));
        } else {
            lemma_find_end_insert(h, x.drop_first(), y, c);
        }
    }
}

proof fn lemma_parse_op_insert(x: Seq<char>, y: Seq<char>, c: char)
    requires
        is_inert(c),
    ensures
        ({
            let (ta, ra) = parse_op(x + seq![c] + y);
            let (tb, rb) = parse_op(x + y);
            ta == tb && match (ra, rb) {
                (None, None) => true,
                (Some((opa, resta)), Some((opb, restb))) => opa == opb && ins_rel(
                    resta,
                    restb,
                    c,
                ),
                _ => false,
            }
        }),
{
    lemma_scan_insert(x, y, c);
    let (ta0, ra0) = scan_to_trigger(x + seq![c] + y);
    let (tb0, rb0) = scan_to_trigger(x + y);
    match (ra0, rb0) {
        (None, None) => {},
        (Some((ha, ca, resta)), Some((hb, cb, restb))) => {
            if !spec_self_ending(ha) && resta != restb {
                let (x1, y1) = choose|x1: Seq<char>, y1: Seq<char>|
                    #[trigger] is_insertion_at(resta, restb, c, x1, y1);
                lemma_find_end_insert(ha, x1, y1, c);
            }
        },
        _ => {},
    }
}

proof fn lemma_instrs_insert(cache: Option<Operation>, x: Seq<char>, y: Seq<char>, c: char)
    requires
        is_inert(c),
    ensures
        instrs_from(cache, x + seq![c] + y) == instrs_from(cache, x + y),
    decreases x.len() + y.len(),
{
    match cache {
        None => {},
        Some(op) => {
            lemma_parse_op_insert(x, y, c);
            let (ta, ra) = parse_op(x + seq![c] + y);
            let (tb, rb) = parse_op(x + y);
            match (ra, rb) {
                (None, None) => {},
                (Some((opa, resta)), Some((opb, restb))) => {
                    if resta == restb {
                    } else {
                        let (x1, y1) = choose|x1: Seq<char>, y1: Seq<char>|
                            #[trigger] is_insertion_at(resta, restb, c, x1, y1);
                        lemma_parse_op_shrinks(x + seq![c] + y);
                        assert(resta.len() < (x + seq![c] + y).len());
                        assert(x1.len() + y1.len() < x.len() + y.len());
                        lemma_instrs_insert(Some(opa), x1, y1, c);
                    }
                },
                _ => {},
            }
        },
    }
}

proof fn lemma_scan_skip_filler(x: Seq<char>, y: Seq<char>, c: char)
    requires
        start_of(c) is None,
        token_of(c) is None,
        forall|i: int| 0 <= i < x.len() ==> start_of(#[trigger] x[i]) is None,
    ensures
        scan_to_trigger(x + seq![c] + y) == scan_to_trigger(x + y),
    decreases x.len(),
{
    if x.len() == 0 {
        assert(x + seq![c] + y =~= seq![c] + y);
        assert(x + y =~= y);
        assert((seq![c] + y)[0] == c);
        assert((seq![c] + y).drop_first() =~= y);
    } else {
        assert((x + seq![c] + y)[0] == x[0]);
        assert((x + y)[0] == x[0]);
        assert(start_of(x[0]) is None);
        assert((x + seq![c] + y).drop_first() =~= x.drop_first() + seq![c] + y);
        assert((x + y).drop_first() =~= x.drop_first() + y);
        assert(forall|i: int|
            0 <= i < x.drop_first().len() ==> start_of(#[trigger] x.drop_first()[i]) is None);
        lemma_scan_skip_filler(x.drop_first(), y, c);
    }
}

/// The filler law between operations: a character that is neither a
/// trigger syllable nor a token -- a Hangul-block character included --
/// inserted anywhere before the next trigger syllable, leaves the
/// instruction sequence unchanged.  The cached operation and the text
/// stand for any parser state, so this covers every token run between
/// two operations.  (Inside an open syllable's scan a Hangul-block
/// character is counted, so there only `lemma_filler_idempotent`
/// applies, which excludes the block.)
pub proof fn lemma_filler_between_operations(
    cache: Option<Operation>,
    x: Seq<char>,
    y: Seq<char>,
    c: char,
)
    requires
        start_of(c) is None,
        token_of(c) is None,
        forall|i: int| 0 <= i < x.len() ==> start_of(#[trigger] x[i]) is None,
    ensures
        instrs_from(cache, x + seq![c] + y) == instrs_from(cache, x + y),
{
    lemma_scan_skip_filler(x, y, c);
    let sa = x + seq![c] + y;
    let sb = x + y;
    assert(parse_op(sa) == parse_op(sb));
    match cache {
        None => {},
        Some(op) => {
            let (toks, r) = parse_op(sb);
            match r {
                None => {},
                Some((op2, rest2)) => {
                    assert(instrs_from(cache, sa) == seq![build_instruction(op, toks)]
                        + instrs_from(Some(op2), rest2));
                    assert(instrs_from(cache, sb) == seq![build_instruction(op, toks)]
                        + instrs_from(Some(op2), rest2));
                },
            }
        },
    }
}

/// The filler law: inserting a character that is not a trigger
/// syllable, not a token, and outside the Hangul syllable block, at
/// any position in the source, leaves the instruction sequence
/// unchanged.  (A Hangul-block character is excluded because an open
/// syllable's scan counts every Hangul-block character it passes.)
pub proof fn lemma_filler_idempotent(s1: Seq<char>, s2: Seq<char>, c: char)
    requires
        is_inert(c),
    ensures
        parse_program(s1 + seq![c] + s2) == parse_program(s1 + s2),
{
    lemma_parse_op_insert(s1, s2, c);
    let (ta, ra) = parse_op(s1 + seq![c] + s2);
    let (tb, rb) = parse_op(s1 + s2);
    match (ra, rb) {
        (None, None) => {},
        (Some((opa, resta)), Some((opb, restb))) => {
            if resta == restb {
            } else {
                let (x1, y1) = choose|x1: Seq<char>, y1: Seq<char>|
                    #[trigger] is_insertion_at(resta, restb, c, x1, y1);
                lemma_instrs_insert(Some(opa), x1, y1, c);
            }
        },
        _ => {},
    }
}

/// Collects the characters of a string slice.
fn chars_vec(s: &str) -> (v: Vec<char>)
    ensures
        v@ == s@,
{
    let n = s.unicode_len();
    let mut v: Vec<char> = Vec::new();
    let mut i: usize = 0;
    while i < n
        invariant
            n == s@.len(),
            i <= n,
            v@ =~= s@.take(i as int),
        decreases n - i,
    {
        v.push(s.get_char(i));
        i = i + 1;
        assert(v@ =~= s@.take(i as int));
    }
    assert(v@ =~= s@);
    v
}

/// A lazy, restartable producer of instructions from source text.
///
/// The parser caches the next operation while finishing the current
/// instruction's token run, mirroring how an open syllable's scan must
/// look past the current instruction's trailing punctuation.
pub struct Parser {
    chars: Vec<char>,
    pos: usize,
    op_cache: Option<Operation>,
}

impl Parser {
    /// The text not yet consumed.
    pub closed spec fn rest(self) -> Seq<char> {
        self.chars@.skip(self.pos as int)
    }

    /// The operation recognised ahead of the instruction to be produced
    /// next.
    pub closed spec fn cached(self) -> Option<Operation> {
        self.op_cache
    }

    pub closed spec fn wf(self) -> bool {
        &&& self.pos <= self.chars.len()
        &&& self.chars@.len() <= 0x3fffffff
        &&& match self.op_cache {
            Some(op) => 1 <= op.hangul_count <= 0x4000_0000,
            None => true,
        }
    }

    /// Builds a parser over `code` and performs the first scan.
    pub fn new(code: &str) -> (r: Parser)
        requires
            code@.len() <= 0x3fffffff,
        ensures
            r.wf(),
            (r.cached(), r.rest()) == parser_state_after(code@),
    {
        let mut parser = Parser { chars: chars_vec(code), pos: 0, op_cache: None };
        assert(parser.rest() =~= code@);
        proof {
            lemma_parse_op_len(code@);
        }
        let (_, hangul) = parser.parse_hangul();
        parser.op_cache = hangul;
        proof {
            if parse_op(code@).1 is None {
                assert(parser.rest() =~= Seq::<char>::empty());
            }
        }
        parser
    }

    /// Scans up to the next trigger syllable, collecting tokens.
    fn scan_trigger(&mut self) -> (r: (Vec<Token>, Option<(HangulStartType, char)>))
        requires
            old(self).wf(),
        ensures
            final(self).wf(),
            final(self).chars == old(self).chars,
            final(self).op_cache == old(self).op_cache,
            ({
                let (toks, ropt) = scan_to_trigger(old(self).rest());
                r.0@ == toks && match ropt {
                    Some((h, c, rest)) => r.1 == Some((h, c)) && final(self).rest() == rest,
                    None => r.1 is None && final(self).rest().len() == 0,
                }
            }),
    {
        let mut toks: Vec<Token> = Vec::new();
        loop
            invariant
                self.wf(),
                self.chars == old(self).chars,
                self.op_cache == old(self).op_cache,
                ({
                    let (t0, r0) = scan_to_trigger(old(self).rest());
                    let (t1, r1) = scan_to_trigger(self.rest());
                    t0 == toks@ + t1 && r0 == r1
                }),
            decreases self.chars@.len() - self.pos,
        {
            if self.pos >= self.chars.len() {
                assert(self.rest() =~= Seq::<char>::empty());
                assert(scan_to_trigger(old(self).rest()).0 =~= toks@);
                return (toks, None);
            }
            let c = self.chars[self.pos];
            proof {
                assert(self.rest()[0] == c);
                assert(self.rest().drop_first() =~= self.chars@.skip(self.pos + 1int));
            }
            let ghost prev_rest = self.rest();
            self.pos = self.pos + 1;
            if let Some(h) = HangulStartType::from_char(c) {
                assert(scan_to_trigger(old(self).rest()).0 =~= toks@);
                return (toks, Some((h, c)));
            }
            if let Some(t) = Token::from_char(c) {
                toks.push(t);
            }
            proof {
                let (t1, r1) = scan_to_trigger(prev_rest);
                let (t2, r2) = scan_to_trigger(self.rest());
                if token_of(c) is Some {
                    assert(t1 =~= seq![token_of(c).unwrap()] + t2);
                    assert(old(self).rest().len() >= 0);
                }
                let (t0, r0) = scan_to_trigger(old(self).rest());
                assert(t0 =~= toks@ + t2);
            }
        }
    }

    /// Scans forward from `from` for the closing syllable of `h`,
    /// counting Hangul-block characters, without committing the cursor.
    fn find_matching_end(&self, h: HangulStartType, from: usize) -> (r: Option<
        (usize, char, usize),
    >)
        requires
            self.wf(),
            from <= self.chars.len(),
        ensures
            ({
                let f = find_end(h, self.chars@.skip(from as int));
                match f {
                    None => r is None,
                    Some((cnt, cl, rest)) => match r {
                        Some((rcnt, rcl, rpos)) => rcnt == cnt && rcl == cl && rpos
                            <= self.chars.len() && self.chars@.skip(rpos as int) == rest && cnt
                            <= self.chars@.len(),
                        None => false,
                    },
                }
            }),
    {
        proof {
            lemma_find_end_len(h, self.chars@.skip(from as int));
        }
        let mut i: usize = from;
        let mut cnt: usize = 0;
        loop
            invariant
                self.wf(),
                from <= i <= self.chars.len(),
                cnt <= i - from,
                ({
                    let f0 = find_end(h, self.chars@.skip(from as int));
                    let f1 = find_end(h, self.chars@.skip(i as int));
                    match f1 {
                        Some((k, cl, rest)) => f0 == Some(((k + cnt) as nat, cl, rest)),
                        None => f0 is None,
                    }
                }),
            decreases self.chars@.len() - i,
        {
            if i >= self.chars.len() {
                assert(self.chars@.skip(i as int) =~= Seq::<char>::empty());
                return None;
            }
            let c = self.chars[i];
            proof {
                assert(self.chars@.skip(i as int)[0] == c);
                assert(self.chars@.skip(i as int).drop_first() =~= self.chars@.skip(i + 1int));
                lemma_find_end_len(h, self.chars@.skip(i as int));
            }
            i = i + 1;
            let u = c as u32;
            if 0xac00 <= u && u <= 0xd7a3 {
                cnt = cnt + 1;
            }
            let end = match h {
                HangulStartType::Hyeo => u == 0xc5c9,
                HangulStartType::Ha => u == 0xc559 || u == 0xc557,
                HangulStartType::Heu => u == 0xc74f || u == 0xc74d || u == 0xc73d,
                _ => false,
            };
            if end {
                return Some((cnt, c, i));
            }
        }
    }

    /// Resolves the next operation, collecting the tokens scanned on
    /// the way.  An open syllable whose closer never comes truncates
    /// the stream: the remaining text is discarded.
    fn parse_hangul(&mut self) -> (r: (Vec<Token>, Option<Operation>))
        requires
            old(self).wf(),
        ensures
            final(self).wf(),
            final(self).chars == old(self).chars,
            ({
                let (toks, ropt) = parse_op(old(self).rest());
                r.0@ == toks && match ropt {
                    Some((op, rest)) => r.1 == Some(op) && final(self).rest() == rest,
                    None => r.1 is None && final(self).rest().len() == 0,
                }
            }),
    {
        let (toks, trigger) = self.scan_trigger();
        match trigger {
            None => (toks, None),
            Some((h, c)) => {
                proof {
                    lemma_scan_to_trigger_len(old(self).rest());
                }
                if h.is_self_ending() {
                    let op = Operation::from_chars(c, None, 1);
                    (toks, Some(op))
                } else {
                    match self.find_matching_end(h, self.pos) {
                        Some((cnt, closer, newpos)) => {
                            proof {
                                lemma_find_end_len(h, self.chars@.skip(self.pos as int));
                                assert(valid_pair(c, closer));
                            }
                            self.pos = newpos;
                            let op = Operation::from_chars(c, Some(closer), cnt + 1);
                            (toks, Some(op))
                        },
                        None => {
                            self.pos = self.chars.len();
                            proof {
                                assert(self.rest() =~= Seq::<char>::empty());
                            }
                            (toks, None)
                        },
                    }
                }
            },
        }
    }

    /// Produces the next instruction: the cached operation together with
    /// the magnitude and heart tree built from the tokens scanned while
    /// recognising the following operation, which becomes the new cache.
    pub fn next(&mut self) -> (r: Option<Instruction>)
        requires
            old(self).wf(),
        ensures
            final(self).wf(),
            match old(self).cached() {
                None => r is None && *final(self) == *old(self),
                Some(op) => {
                    let (toks, ropt) = parse_op(old(self).rest());
                    r == Some(build_instruction(op, toks)) && instr_sized(
                        build_instruction(op, toks),
                    ) && match ropt {
                        Some((op2, rest2)) => final(self).cached() == Some(op2)
                            && final(self).rest() == rest2,
                        None => final(self).cached() is None && final(self).rest().len() == 0,
                    }
                },
            },
    {
        let op = match self.op_cache {
            Some(op) => op,
            None => {
                return None;
            },
        };
        let ghost old_rest = self.rest();
        let (toks, next_op) = self.parse_hangul();
        self.op_cache = next_op;
        proof {
            lemma_parse_op_len(old_rest);
            lemma_leading_dots_bound(parse_op(old_rest).0);
        }
        let dots = Self::count_dots(&toks);
        let hearts = Self::build_hearts(&toks);
        let r = Instruction { op, dots, hearts };
        proof {
            assert(r.op.hangul_count * r.dots <= 0x3000_0000_0000_0000) by (nonlinear_arith)
                requires
                    1 <= r.op.hangul_count <= 0x4000_0000,
                    r.dots <= 0xc000_0000,
            ;
        }
        Some(r)
    }

    /// Sums the maximal leading run of dot and ellipsis tokens.
    fn count_dots(toks: &Vec<Token>) -> (d: usize)
        requires
            toks@.len() <= 0x3fffffff,
        ensures
            d == leading_dots(toks@),
    {
        proof {
            lemma_leading_dots_bound(toks@);
        }
        let mut d: usize = 0;
        let mut i: usize = 0;
        assert(toks@.skip(0) =~= toks@);
        loop
            invariant
                i <= toks@.len() <= 0x3fffffff,
                d <= 3 * i,
                leading_dots(toks@) == d + leading_dots(toks@.skip(i as int)),
            decreases toks@.len() - i,
        {
            proof {
                lemma_leading_dots_bound(toks@.skip(i as int));
            }
            if i >= toks.len() {
                assert(toks@.skip(i as int) =~= Seq::<Token>::empty());
                return d;
            }
            proof {
                assert(toks@.skip(i as int)[0] == toks@[i as int]);
                assert(toks@.skip(i as int).drop_first() =~= toks@.skip(i + 1int));
            }
            match toks[i] {
                Token::Dot => {
                    d = d + 1;
                },
                Token::ThreeDots => {
                    d = d + 3;
                },
                _ => {
                    return d;
                },
            }
            i = i + 1;
        }
    }

    /// Builds the heart tree from the whole token run.
    fn build_hearts(toks: &Vec<Token>) -> (t: HeartTree)
        ensures
            t == hearts_of(toks@),
    {
        let mut pending: Option<HeartTree> = None;
        let mut tree: Vec<HeartTree> = Vec::new();
        let mut op_count: usize = 0;
        let mut i: usize = 0;
        assert(toks@.skip(0) =~= toks@);
        while i < toks.len()
            invariant
                i <= toks@.len(),
                op_count <= tree@.len(),
                tree@.len() <= i,
                hearts_run(initial_heart_state(), toks@) == hearts_run(
                    HeartState {
                        pending: pending,
                        stack: tree@,
                        pending_equals: op_count as nat,
                    },
                    toks@.skip(i as int),
                ),
            decreases toks@.len() - i,
        {
            proof {
                assert(toks@.skip(i as int)[0] == toks@[i as int]);
                assert(toks@.skip(i as int).drop_first() =~= toks@.skip(i + 1int));
            }
            let ghost pre_state = HeartState {
                pending: pending,
                stack: tree@,
                pending_equals: op_count as nat,
            };
            match toks[i] {
                Token::Heart(id) => {
                    if pending.is_none() {
                        pending = Some(HeartTree::Heart(id));
                    }
                },
                Token::ReturnHeart => {
                    if pending.is_none() {
                        pending = Some(HeartTree::Return);
                    }
                },
                Token::ExclamationMark => {
                    let leaf = match pending {
                        Some(t) => t,
                        None => HeartTree::Nil,
                    };
                    pending = None;
                    tree.push(leaf);
                    op_count = op_count + 1;
                },
                Token::QuestionMark => {
                    let leaf = match pending {
                        Some(t) => t,
                        None => HeartTree::Nil,
                    };
                    pending = None;
                    tree.push(leaf);
                    Self::fold_equals_exec(&mut tree, op_count);
                    op_count = 0;
                },
                _ => {},
            }
            i = i + 1;
        }
        assert(toks@.skip(i as int) =~= Seq::<Token>::empty());
        let leaf = match pending {
            Some(t) => t,
            None => HeartTree::Nil,
        };
        tree.push(leaf);
        Self::fold_equals_exec(&mut tree, op_count);
        Self::fold_less_exec(&mut tree)
    }

    /// Performs `cnt` equals-folds on the output stack.
    fn fold_equals_exec(tree: &mut Vec<HeartTree>, cnt: usize)
        requires
            cnt < old(tree)@.len(),
        ensures
            final(tree)@ == fold_equals(old(tree)@, cnt as nat),
            final(tree)@.len() == old(tree)@.len() - cnt,
    {
        let mut remaining: usize = cnt;
        while remaining > 0
            invariant
                remaining <= cnt,
                cnt < old(tree)@.len(),
                tree@.len() == old(tree)@.len() - (cnt - remaining),
                fold_equals(old(tree)@, cnt as nat) == fold_equals(tree@, remaining as nat),
            decreases remaining,
        {
            let ghost t0 = tree@;
            let rhs = tree.pop().unwrap();
            let lhs = tree.pop().unwrap();
            proof {
                assert(t0 =~= tree@.push(lhs).push(rhs));
            }
            tree.push(HeartTree::Equals(Box::new(lhs), Box::new(rhs)));
            proof {
                assert(t0.take(t0.len() - 2) =~= tree@.take(tree@.len() - 1));
                assert(t0.take(t0.len() - 2).push(
                    HeartTree::Equals(Box::new(lhs), Box::new(rhs)),
                ) =~= tree@);
            }
            remaining = remaining - 1;
        }
    }

    /// Folds the remaining nodes into nested `LessThan` comparisons and
    /// returns the single remaining tree.
    fn fold_less_exec(tree: &mut Vec<HeartTree>) -> (t: HeartTree)
        requires
            old(tree)@.len() >= 1,
        ensures
            t == fold_less(old(tree)@),
    {
        while tree.len() > 1
            invariant
                tree@.len() >= 1,
                fold_less(old(tree)@) == fold_less(tree@),
            decreases tree@.len(),
        {
            let ghost t0 = tree@;
            let rhs = tree.pop().unwrap();
            let lhs = tree.pop().unwrap();
            proof {
                assert(t0 =~= tree@.push(lhs).push(rhs));
            }
            tree.push(HeartTree::LessThan(Box::new(lhs), Box::new(rhs)));
            proof {
                assert(t0.take(t0.len() - 2) =~= tree@.take(tree@.len() - 1));
                assert(t0.take(t0.len() - 2).push(
                    HeartTree::LessThan(Box::new(lhs), Box::new(rhs)),
                ) =~= tree@);
            }
        }
        let t = tree.pop().unwrap();
        t
    }
}

} // verus!
