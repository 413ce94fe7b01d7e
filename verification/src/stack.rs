//! The stack manager: a family of value stacks indexed by id, three of
//! which are bound to byte streams.
//!
//! Stack 0 buffers pushed values and falls back to decoding one scalar
//! from its input bytes when popped empty; stacks 1 and 2 render every
//! pushed value as text and always pop poison.  All other ids are plain
//! stacks, created lazily and popping poison when empty.  Selecting
//! stack 1 or 2 and then invoking an arithmetic operation decides the
//! program's exit code.

use vstd::prelude::*;

use crate::rational::{
    rv_add, rv_eq, rv_int, rv_lt, rv_mul, rv_neg, rv_recip, rv_render, HyeongRational, RatValue,
};
use crate::structure::HeartTree;
use crate::utf8::{decode_step, read_codepoint};

verus! {

/// The tagged outcome of evaluating a heart tree.
#[derive(Copy, Clone, Debug, PartialEq, Eq)]
pub enum HeartResult {
    Heart(usize),
    Return,
    Nil,
}

/// The models of the rationals a stack holds, bottom first.
pub open spec fn vals_of(s: Seq<HyeongRational>) -> Seq<RatValue> {
    s.map_values(|r: HyeongRational| r@)
}

/// A stack bound to an input byte stream: explicitly pushed values are
/// buffered; popping the empty buffer decodes one scalar value from the
/// input bytes.
pub struct HyeongReadStack {
    data: Vec<u8>,
    pos: usize,
    stack: Vec<HyeongRational>,
}

impl HyeongReadStack {
    /// The input bytes this stack reads from.
    pub closed spec fn input(self) -> Seq<u8> {
        self.data@
    }

    /// How many input bytes are already consumed.
    pub closed spec fn pos(self) -> int {
        self.pos as int
    }

    /// The buffered values.
    pub closed spec fn vals(self) -> Seq<RatValue> {
        vals_of(self.stack@)
    }

    /// The cursor never passes the end of the input.
    pub closed spec fn wf(self) -> bool {
        self.pos <= self.data@.len()
    }

    /// A fresh stack over the given input bytes.
    pub fn new(data: Vec<u8>) -> (r: Self)
        ensures
            r.wf(),
            r.input() == data@,
            r.pos() == 0,
            r.vals() =~= Seq::<RatValue>::empty(),
    {
        HyeongReadStack { data, pos: 0, stack: Vec::new() }
    }

    pub fn push_one(&mut self, value: HyeongRational)
        requires
            old(self).wf(),
        ensures
            final(self).wf(),
            final(self).input() == old(self).input(),
            final(self).pos() == old(self).pos(),
            final(self).vals() == old(self).vals().push(value@),
    {
        self.stack.push(value);
        proof {
            assert(self.vals() =~= old(self).vals().push(value@));
        }
    }

    /// Pops the top buffered value; on an empty buffer, decodes one
    /// scalar from the input (poison on a malformed or exhausted
    /// input).
    pub fn pop_one(&mut self) -> (r: HyeongRational)
        requires
            old(self).wf(),
        ensures
            final(self).wf(),
            final(self).input() == old(self).input(),
            if old(self).vals().len() > 0 {
                &&& r@ == old(self).vals().last()
                &&& final(self).vals() == old(self).vals().drop_last()
                &&& final(self).pos() == old(self).pos()
            } else {
                &&& final(self).vals() == old(self).vals()
                &&& ({
                    let (v, np) = decode_step(old(self).input(), old(self).pos());
                    &&& final(self).pos() == np
                    &&& r@ == match v {
                        Some(c) => rv_int(c as int),
                        None => RatValue::NaN,
                    }
                })
            },
    {
        if self.stack.len() > 0 {
            let v = self.stack.pop().unwrap();
            proof {
                assert(self.vals() =~= old(self).vals().drop_last());
                assert(v@ == old(self).vals().last());
            }
            v
        } else {
            let c = read_codepoint(self.data.as_slice(), &mut self.pos);
            proof {
                assert(self.vals() =~= old(self).vals());
            }
            match c {
                Some(c) => HyeongRational::from_u32(c),
                None => HyeongRational::NaN,
            }
        }
    }
}

/// A stack bound to an output byte stream: every pushed value is
/// rendered as text onto the stream's buffer; popping always yields
/// poison.
pub struct HyeongWriteStack {
    buf: String,
}

impl HyeongWriteStack {
    /// The text rendered so far.
    pub closed spec fn out(self) -> Seq<char> {
        self.buf@
    }

    /// A fresh stack with an empty output buffer.
    pub fn new() -> (r: Self)
        ensures
            r.out() == Seq::<char>::empty(),
    {
        let r = HyeongWriteStack { buf: String::new() };
        proof {
            assert(r.out() =~= Seq::<char>::empty());
        }
        r
    }

    /// Renders the pushed value onto the output buffer.
    pub fn push_one(&mut self, value: HyeongRational)
        ensures
            final(self).out() == old(self).out() + rv_render(value@),
    {
        let text = value.render();
        self.buf.append(text.as_str());
    }

    /// An output-bound stack has no values of its own: popping yields
    /// poison.
    pub fn pop_one(&mut self) -> (r: HyeongRational)
        ensures
            final(self).out() == old(self).out(),
            r@ == RatValue::NaN,
    {
        HyeongRational::NaN
    }

    /// The text rendered so far, as a string.
    pub fn contents(&self) -> (s: &String)
        ensures
            s@ == self.out(),
    {
        &self.buf
    }
}

/// The mathematical model of the stack manager: the input bytes and
/// cursor behind stack 0, stack 0's buffered values, the text rendered
/// to stacks 1 and 2, the plain stacks by id, the selected id, and the
/// decided exit code.
#[verifier::ext_equal]
pub struct SmModel {
    pub input: Seq<u8>,
    pub pos: int,
    pub s0: Seq<RatValue>,
    pub out: Seq<char>,
    pub err: Seq<char>,
    pub plain: Map<int, Seq<RatValue>>,
    pub selected: int,
    pub exit: Option<int>,
}

/// The plain stack at `id`, empty when not yet created.
pub open spec fn plain_at(m: SmModel, id: int) -> Seq<RatValue> {
    if m.plain.contains_key(id) {
        m.plain[id]
    } else {
        Seq::<RatValue>::empty()
    }
}

/// Popping one value from the selected stack.  Stack 0 falls back to
/// decoding one scalar from the input when its buffer is empty; stacks
/// 1 and 2 always yield poison; a plain stack yields poison when empty
/// and is created on first touch.
pub open spec fn sm_pop(m: SmModel) -> (RatValue, SmModel) {
    if m.selected == 0 {
        if m.s0.len() > 0 {
            (m.s0.last(), SmModel { s0: m.s0.drop_last(), ..m })
        } else {
            let (v, np) = decode_step(m.input, m.pos);
            (
                match v {
                    Some(c) => rv_int(c as int),
                    None => RatValue::NaN,
                },
                SmModel { pos: np, ..m },
            )
        }
    } else if m.selected == 1 || m.selected == 2 {
        (RatValue::NaN, m)
    } else {
        let s = plain_at(m, m.selected);
        if s.len() > 0 {
            (s.last(), SmModel { plain: m.plain.insert(m.selected, s.drop_last()), ..m })
        } else {
            (RatValue::NaN, SmModel { plain: m.plain.insert(m.selected, s), ..m })
        }
    }
}

/// Pushing one value onto the stack with the given id.  Stacks 1 and 2
/// render the value as text; a plain stack is created on first touch.
pub open spec fn sm_push(m: SmModel, id: int, v: RatValue) -> SmModel {
    if id == 0 {
        SmModel { s0: m.s0.push(v), ..m }
    } else if id == 1 {
        SmModel { out: m.out + rv_render(v), ..m }
    } else if id == 2 {
        SmModel { err: m.err + rv_render(v), ..m }
    } else {
        SmModel { plain: m.plain.insert(id, plain_at(m, id).push(v)), ..m }
    }
}

/// Popping `count` values in order from the selected stack.
pub open spec fn sm_pop_n(m: SmModel, count: nat) -> (Seq<RatValue>, SmModel)
    decreases count,
{
    if count == 0 {
        (Seq::<RatValue>::empty(), m)
    } else {
        let (v, m1) = sm_pop(m);
        let (rest, m2) = sm_pop_n(m1, (count - 1) as nat);
        (seq![v] + rest, m2)
    }
}

/// Pushing the values of `s` onto stack `id`, last first.
pub open spec fn sm_push_seq_rev(m: SmModel, id: int, s: Seq<RatValue>) -> SmModel
    decreases s.len(),
{
    if s.len() == 0 {
        m
    } else {
        sm_push_seq_rev(sm_push(m, id, s.last()), id, s.drop_last())
    }
}

/// Pushing `count` copies of `v` onto stack `id`.
pub open spec fn sm_push_copies(m: SmModel, id: int, v: RatValue, count: nat) -> SmModel
    decreases count,
{
    if count == 0 {
        m
    } else {
        sm_push_copies(sm_push(m, id, v), id, v, (count - 1) as nat)
    }
}

/// The left fold of addition over `s`, starting from `acc`.
pub open spec fn rv_sum_from(acc: RatValue, s: Seq<RatValue>) -> RatValue
    decreases s.len(),
{
    if s.len() == 0 {
        acc
    } else {
        rv_sum_from(rv_add(acc, s[0]), s.drop_first())
    }
}

/// The left fold of multiplication over `s`, starting from `acc`.
pub open spec fn rv_prod_from(acc: RatValue, s: Seq<RatValue>) -> RatValue
    decreases s.len(),
{
    if s.len() == 0 {
        acc
    } else {
        rv_prod_from(rv_mul(acc, s[0]), s.drop_first())
    }
}

/// The exit-trigger check before an arithmetic operation: if the
/// selected stack is 1 or 2, the exit code is decided (0 for stack 1,
/// 1 for stack 2) unless one was decided before, and the operation does
/// nothing else.
pub open spec fn sm_check_exit(m: SmModel) -> (bool, SmModel) {
    if m.selected == 1 {
        (true, SmModel { exit: if m.exit is None { Some(0int) } else { m.exit }, ..m })
    } else if m.selected == 2 {
        (true, SmModel { exit: if m.exit is None { Some(1int) } else { m.exit }, ..m })
    } else {
        (false, m)
    }
}

/// `push(repeat, magnitude)`: pushes `repeat * magnitude` as an exact
/// integer onto the selected stack.  Never triggers an exit.
pub open spec fn sm_push_op(m: SmModel, hangul: nat, dots: nat) -> SmModel {
    sm_push(m, m.selected, rv_int((hangul * dots) as int))
}

/// `add(count, to)`: pops `count` values from the selected stack, sums
/// them (poison propagating) and pushes the sum onto `to` -- unless the
/// exit trigger fires first.
pub open spec fn sm_add(m: SmModel, count: nat, to: int) -> SmModel {
    let (fired, m0) = sm_check_exit(m);
    if fired {
        m0
    } else {
        let (popped, m1) = sm_pop_n(m0, count);
        sm_push(m1, to, rv_sum_from(rv_int(0), popped))
    }
}

/// `mul(count, to)`: like `add`, with the product and identity one.
pub open spec fn sm_mul(m: SmModel, count: nat, to: int) -> SmModel {
    let (fired, m0) = sm_check_exit(m);
    if fired {
        m0
    } else {
        let (popped, m1) = sm_pop_n(m0, count);
        sm_push(m1, to, rv_prod_from(rv_int(1), popped))
    }
}

proof fn lemma_push_copies_exit(m: SmModel, id: int, v: RatValue, count: nat)
    ensures
        sm_push_copies(m, id, v, count).exit == m.exit,
    decreases count,
{
    if count > 0 {
        lemma_push_copies_exit(sm_push(m, id, v), id, v, (count - 1) as nat)
    }
}

/// The exit-trigger law for the arithmetic operations: with stack 1 or
/// 2 selected, `add`, `mul`, `neg` and `recip` decide the exit code (0
/// for stack 1, 1 for stack 2, never overwriting an earlier decision)
/// and perform no pop or push: nothing else of the state changes.
pub proof fn lemma_exit_trigger_arith(m: SmModel, count: nat, to: int)
    requires
        m.selected == 1 || m.selected == 2,
    ensures
        ({
            let code: int = if m.selected == 1 {
                0
            } else {
                1
            };
            let m1 = SmModel {
                exit: if m.exit is None {
                    Some(code)
                } else {
                    m.exit
                },
                ..m
            };
            &&& sm_add(m, count, to) == m1
            &&& sm_mul(m, count, to) == m1
            &&& sm_neg(m, count, to) == m1
            &&& sm_recip(m, count, to) == m1
        }),
{
}

/// The exit-trigger exemption law: `push` and `dup` never decide an
/// exit code, whatever stack is selected.
pub proof fn lemma_push_dup_no_exit(m: SmModel, hangul: nat, dots: nat, count: nat, into: int)
    ensures
        sm_push_op(m, hangul, dots).exit == m.exit,
        sm_dup(m, count, into).exit == m.exit,
{
    let (v, m1) = sm_pop(m);
    let m2 = sm_push(m1, m1.selected, v);
    let m3 = SmModel { selected: into, ..m2 };
    lemma_push_copies_exit(m3, into, v, count);
}

/// The negation of every value in `s`.
pub open spec fn rv_neg_all(s: Seq<RatValue>) -> Seq<RatValue> {
    s.map_values(|v: RatValue| rv_neg(v))
}

/// The reciprocal of every value in `s`.
pub open spec fn rv_recip_all(s: Seq<RatValue>) -> Seq<RatValue> {
    s.map_values(|v: RatValue| rv_recip(v))
}

proof fn lemma_vals_push(s: Seq<HyeongRational>, x: HyeongRational)
    ensures
        vals_of(s.push(x)) =~= vals_of(s).push(x@),
{
}

proof fn lemma_neg_all_push(s: Seq<RatValue>, v: RatValue)
    ensures
        rv_neg_all(s.push(v)) =~= rv_neg_all(s).push(rv_neg(v)),
{
}

proof fn lemma_recip_all_push(s: Seq<RatValue>, v: RatValue)
    ensures
        rv_recip_all(s.push(v)) =~= rv_recip_all(s).push(rv_recip(v)),
{
}

/// `neg(count, to)`: pops `count` values, negates each, pushes them
/// back onto the source stack in original order, and pushes their sum
/// onto `to` -- unless the exit trigger fires first.
pub open spec fn sm_neg(m: SmModel, count: nat, to: int) -> SmModel {
    let (fired, m0) = sm_check_exit(m);
    if fired {
        m0
    } else {
        let (popped, m1) = sm_pop_n(m0, count);
        let negs = rv_neg_all(popped);
        let m2 = sm_push_seq_rev(m1, m1.selected, negs);
        sm_push(m2, to, rv_sum_from(rv_int(0), negs))
    }
}

/// `recip(count, to)`: like `neg`, with reciprocals and their product.
pub open spec fn sm_recip(m: SmModel, count: nat, to: int) -> SmModel {
    let (fired, m0) = sm_check_exit(m);
    if fired {
        m0
    } else {
        let (popped, m1) = sm_pop_n(m0, count);
        let recips = rv_recip_all(popped);
        let m2 = sm_push_seq_rev(m1, m1.selected, recips);
        sm_push(m2, to, rv_prod_from(rv_int(1), recips))
    }
}

/// `dup(count, into)`: peeks the top of the selected stack (a peek on
/// stack 0 may consume input; on stacks 1 and 2 it renders poison),
/// selects `into`, and pushes `count` copies of the peeked value there.
/// Exempt from the exit trigger.
pub open spec fn sm_dup(m: SmModel, count: nat, into: int) -> SmModel {
    let (v, m1) = sm_pop(m);
    let m2 = sm_push(m1, m1.selected, v);
    let m3 = SmModel { selected: into, ..m2 };
    sm_push_copies(m3, into, v, count)
}

/// Evaluating a heart tree: an inner node pops one value from the
/// selected stack and compares it with `target`, recursing left when
/// the comparison holds; a leaf is the result.
pub open spec fn sm_hearts(m: SmModel, tree: HeartTree, target: int) -> (HeartResult, SmModel)
    decreases tree,
{
    match tree {
        HeartTree::Heart(id) => (HeartResult::Heart(id), m),
        HeartTree::Return => (HeartResult::Return, m),
        HeartTree::Nil => (HeartResult::Nil, m),
        HeartTree::LessThan(l, r) => {
            let (v, m1) = sm_pop(m);
            if rv_lt(v, rv_int(target)) {
                sm_hearts(m1, *l, target)
            } else {
                sm_hearts(m1, *r, target)
            }
        },
        HeartTree::Equals(l, r) => {
            let (v, m1) = sm_pop(m);
            if rv_eq(v, rv_int(target)) {
                sm_hearts(m1, *l, target)
            } else {
                sm_hearts(m1, *r, target)
            }
        },
    }
}

/// The plain stacks as a map from id to contents.
pub open spec fn assoc_map(s: Seq<(usize, Vec<HyeongRational>)>) -> Map<int, Seq<RatValue>>
    decreases s.len(),
{
    if s.len() == 0 {
        Map::<int, Seq<RatValue>>::empty()
    } else {
        assoc_map(s.drop_last()).insert(s.last().0 as int, vals_of(s.last().1@))
    }
}

/// No two entries share an id.
pub open spec fn uniq_keys(s: Seq<(usize, Vec<HyeongRational>)>) -> bool {
    forall|i: int, j: int|
        0 <= i < j < s.len() ==> (#[trigger] s[i]).0 != (#[trigger] s[j]).0
}

proof fn lemma_assoc_contains(s: Seq<(usize, Vec<HyeongRational>)>, k: int)
    ensures
        assoc_map(s).contains_key(k) <==> (exists|i: int|
            0 <= i < s.len() && (#[trigger] s[i]).0 == k),
    decreases s.len(),
{
    if s.len() > 0 {
        lemma_assoc_contains(s.drop_last(), k);
        if assoc_map(s).contains_key(k) {
            if s.last().0 == k {
                assert(s[s.len() - 1].0 == k);
            } else {
                let dl = s.drop_last();
                let i = choose|i: int| 0 <= i < dl.len() && (#[trigger] dl[i]).0 == k;
                assert(s[i].0 == k);
            }
        }
        if exists|i: int| 0 <= i < s.len() && (#[trigger] s[i]).0 == k {
            let i = choose|i: int| 0 <= i < s.len() && (#[trigger] s[i]).0 == k;
            if i < s.len() - 1 {
                assert(s.drop_last()[i].0 == k);
            }
        }
    }
}

proof fn lemma_assoc_get(s: Seq<(usize, Vec<HyeongRational>)>, i: int)
    requires
        uniq_keys(s),
        0 <= i < s.len(),
    ensures
        assoc_map(s).contains_key(s[i].0 as int),
        assoc_map(s)[s[i].0 as int] == vals_of(s[i].1@),
    decreases s.len(),
{
    if i == s.len() - 1 {
    } else {
        assert(s.drop_last()[i] == s[i]);
        lemma_assoc_get(s.drop_last(), i);
        assert(s[s.len() - 1].0 != s[i].0);
    }
}

proof fn lemma_assoc_remove(s: Seq<(usize, Vec<HyeongRational>)>, i: int)
    requires
        uniq_keys(s),
        0 <= i < s.len(),
    ensures
        assoc_map(s.remove(i)) == assoc_map(s).remove(s[i].0 as int),
    decreases s.len(),
{
    let k = s[i].0 as int;
    if i == s.len() - 1 {
        assert(s.remove(i) =~= s.drop_last());
        lemma_assoc_contains(s.drop_last(), k);
        assert(forall|j: int|
            0 <= j < s.drop_last().len() ==> (#[trigger] s.drop_last()[j]).0 == s[j].0);
        assert(!assoc_map(s.drop_last()).contains_key(k));
        assert(assoc_map(s.drop_last()).insert(k, vals_of(s.last().1@)).remove(k)
            =~= assoc_map(s.drop_last()));
    } else {
        assert(s.remove(i).last() == s.last());
        assert(s.remove(i).drop_last() =~= s.drop_last().remove(i));
        assert(forall|j: int|
            0 <= j < s.drop_last().len() ==> (#[trigger] s.drop_last()[j]).0 == s[j].0);
        lemma_assoc_remove(s.drop_last(), i);
        assert(s.last().0 as int != k);
        assert(assoc_map(s.drop_last()).remove(k).insert(s.last().0 as int, vals_of(s.last().1@))
            =~= assoc_map(s.drop_last()).insert(s.last().0 as int, vals_of(s.last().1@)).remove(
            k,
        ));
        assert(assoc_map(s.remove(i)) == assoc_map(s.drop_last().remove(i)).insert(
            s.last().0 as int,
            vals_of(s.last().1@),
        ));
    }
}

proof fn lemma_rv_sum_push(acc: RatValue, s: Seq<RatValue>, v: RatValue)
    ensures
        rv_sum_from(acc, s.push(v)) == rv_add(rv_sum_from(acc, s), v),
    decreases s.len(),
{
    if s.len() == 0 {
        assert(s.push(v)[0] == v);
        assert(s.push(v).drop_first() =~= Seq::<RatValue>::empty());
        assert(rv_sum_from(acc, s.push(v)) == rv_sum_from(
            rv_add(acc, v),
            Seq::<RatValue>::empty(),
        ));
        assert(rv_sum_from(acc, s) == acc);
    } else {
        assert(s.push(v)[0] == s[0]);
        assert(s.push(v).drop_first() =~= s.drop_first().push(v));
        assert(rv_sum_from(acc, s.push(v)) == rv_sum_from(
            rv_add(acc, s[0]),
            s.drop_first().push(v),
        ));
        lemma_rv_sum_push(rv_add(acc, s[0]), s.drop_first(), v);
        assert(rv_sum_from(acc, s) == rv_sum_from(rv_add(acc, s[0]), s.drop_first()));
    }
}

proof fn lemma_rv_prod_push(acc: RatValue, s: Seq<RatValue>, v: RatValue)
    ensures
        rv_prod_from(acc, s.push(v)) == rv_mul(rv_prod_from(acc, s), v),
    decreases s.len(),
{
    if s.len() == 0 {
        assert(s.push(v)[0] == v);
        assert(s.push(v).drop_first() =~= Seq::<RatValue>::empty());
        assert(rv_prod_from(acc, s.push(v)) == rv_prod_from(
            rv_mul(acc, v),
            Seq::<RatValue>::empty(),
        ));
        assert(rv_prod_from(acc, s) == acc);
    } else {
        assert(s.push(v)[0] == s[0]);
        assert(s.push(v).drop_first() =~= s.drop_first().push(v));
        assert(rv_prod_from(acc, s.push(v)) == rv_prod_from(
            rv_mul(acc, s[0]),
            s.drop_first().push(v),
        ));
        lemma_rv_prod_push(rv_mul(acc, s[0]), s.drop_first(), v);
        assert(rv_prod_from(acc, s) == rv_prod_from(rv_mul(acc, s[0]), s.drop_first()));
    }
}

/// The stack manager: stream-backed stacks 0 to 2, plain stacks by id
/// from 3 on (created lazily), the selected id, and the decided exit
/// code.
pub struct StackManager {
    stdin: HyeongReadStack,
    stdout: HyeongWriteStack,
    stderr: HyeongWriteStack,
    stacks: Vec<(usize, Vec<HyeongRational>)>,
    selected: usize,
    exit_code: Option<isize>,
}

impl StackManager {
    /// The mathematical model of this manager.
    pub closed spec fn model(self) -> SmModel {
        SmModel {
            input: self.stdin.input(),
            pos: self.stdin.pos(),
            s0: self.stdin.vals(),
            out: self.stdout.out(),
            err: self.stderr.out(),
            plain: assoc_map(self.stacks@),
            selected: self.selected as int,
            exit: match self.exit_code {
                Some(c) => Some(c as int),
                None => None,
            },
        }
    }

    pub closed spec fn wf(self) -> bool {
        &&& self.stdin.wf()
        &&& uniq_keys(self.stacks@)
        &&& forall|i: int| 0 <= i < self.stacks@.len() ==> (#[trigger] self.stacks@[i]).0 >= 3
    }

    /// Builds a manager over the three stream-backed stacks, with one
    /// plain stack (id 3) created and selected.
    pub fn from_stacks(stdin: HyeongReadStack, stdout: HyeongWriteStack, stderr: HyeongWriteStack) -> (r: Self)
        requires
            stdin.wf(),
        ensures
            r.wf(),
            r.model() == (SmModel {
                input: stdin.input(),
                pos: stdin.pos(),
                s0: stdin.vals(),
                out: stdout.out(),
                err: stderr.out(),
                plain: Map::<int, Seq<RatValue>>::empty().insert(3, Seq::<RatValue>::empty()),
                selected: 3,
                exit: None,
            }),
    {
        let mut stacks: Vec<(usize, Vec<HyeongRational>)> = Vec::new();
        stacks.push((3, Vec::new()));
        let r = StackManager { stdin, stdout, stderr, stacks, selected: 3, exit_code: None };
        proof {
            assert(r.stacks@.drop_last() =~= Seq::<(usize, Vec<HyeongRational>)>::empty());
            assert(vals_of(r.stacks@.last().1@) =~= Seq::<RatValue>::empty());
            assert(r.stacks@.last().0 == 3);
            assert(assoc_map(r.stacks@) == assoc_map(r.stacks@.drop_last()).insert(
                3,
                vals_of(r.stacks@.last().1@),
            ));
            assert(assoc_map(r.stacks@) =~= Map::<int, Seq<RatValue>>::empty().insert(
                3,
                Seq::<RatValue>::empty(),
            ));
            assert(r.model() =~~= (SmModel {
                input: r.stdin.input(),
                pos: r.stdin.pos(),
                s0: r.stdin.vals(),
                out: r.stdout.out(),
                err: r.stderr.out(),
                plain: Map::<int, Seq<RatValue>>::empty().insert(3, Seq::<RatValue>::empty()),
                selected: 3,
                exit: None,
            }));
        }
        r
    }

    /// The decided exit code, if any.
    pub fn exit_code(&self) -> (r: Option<isize>)
        ensures
            match r {
                Some(c) => self.model().exit == Some(c as int),
                None => self.model().exit is None,
            },
    {
        self.exit_code
    }

    /// The text rendered to the output stream so far.
    pub fn output(&self) -> (s: &String)
        ensures
            s@ == self.model().out,
    {
        self.stdout.contents()
    }

    /// The text rendered to the error stream so far.
    pub fn error_output(&self) -> (s: &String)
        ensures
            s@ == self.model().err,
    {
        self.stderr.contents()
    }

    /// The index of the plain stack `id` in the backing vector.
    fn find_stack(&self, id: usize) -> (r: Option<usize>)
        ensures
            match r {
                Some(i) => i < self.stacks@.len() && self.stacks@[i as int].0 == id,
                None => forall|i: int|
                    0 <= i < self.stacks@.len() ==> (#[trigger] self.stacks@[i]).0 != id,
            },
    {
        let mut i: usize = 0;
        while i < self.stacks.len()
            invariant
                i <= self.stacks@.len(),
                forall|j: int| 0 <= j < i ==> (#[trigger] self.stacks@[j]).0 != id,
            decreases self.stacks@.len() - i,
        {
            if self.stacks[i].0 == id {
                return Some(i);
            }
            i = i + 1;
        }
        None
    }

    /// Pops one value from the selected stack.
    fn pop_selected(&mut self) -> (r: HyeongRational)
        requires
            old(self).wf(),
        ensures
            final(self).wf(),
            ({
                let (v, m) = sm_pop(old(self).model());
                r@ == v && final(self).model() == m
            }),
    {
        let sel = self.selected;
        if sel == 0 {
            let r = self.stdin.pop_one();
            proof {
                assert(final(self).model() =~= sm_pop(old(self).model()).1);
            }
            r
        } else if sel == 1 {
            let r = self.stdout.pop_one();
            proof {
                assert(final(self).model() =~= sm_pop(old(self).model()).1);
            }
            r
        } else if sel == 2 {
            let r = self.stderr.pop_one();
            proof {
                assert(final(self).model() =~= sm_pop(old(self).model()).1);
            }
            r
        } else {
            match self.find_stack(sel) {
                Some(i) => {
                    let ghost s0 = self.stacks@;
                    proof {
                        lemma_assoc_get(s0, i as int);
                        lemma_assoc_remove(s0, i as int);
                    }
                    let (k, mut st) = self.stacks.remove(i);
                    let ghost st0 = st@;
                    let r = match st.pop() {
                        Some(x) => x,
                        None => HyeongRational::NaN,
                    };
                    proof {
                        if st0.len() > 0 {
                            assert(vals_of(st@) =~= vals_of(st0).drop_last());
                        }
                    }
                    self.stacks.push((k, st));
                    proof {
                        assert(self.stacks@.drop_last() =~= s0.remove(i as int));
                        assert(assoc_map(self.stacks@) == assoc_map(s0.remove(i as int)).insert(
                            k as int,
                            vals_of(st@),
                        ));
                        assert(assoc_map(self.stacks@) =~= assoc_map(s0).insert(
                            k as int,
                            vals_of(st@),
                        ));
                        assert(final(self).model() =~= sm_pop(old(self).model()).1);
                        assert(forall|a: int, b: int|
                            0 <= a < b < self.stacks@.len() ==> (#[trigger] self.stacks@[a]).0 != (
                            #[trigger] self.stacks@[b]).0) by {
                            assert(forall|a: int|
                                0 <= a < s0.remove(i as int).len() ==> (#[trigger] s0.remove(
                                    i as int,
                                )[a]).0 == (if a < i { s0[a] } else { s0[a + 1] }).0);
                        }
                    }
                    r
                },
                None => {
                    proof {
                        lemma_assoc_contains(self.stacks@, sel as int);
                    }
                    let ghost s0 = self.stacks@;
                    self.stacks.push((sel, Vec::new()));
                    proof {
                        assert(self.stacks@.drop_last() =~= s0);
                        assert(vals_of(self.stacks@.last().1@) =~= Seq::<RatValue>::empty());
                        assert(final(self).model() =~= sm_pop(old(self).model()).1);
                    }
                    HyeongRational::NaN
                },
            }
        }
    }

    /// Pushes one value onto the stack with the given id.
    fn push_to(&mut self, id: usize, value: HyeongRational)
        requires
            old(self).wf(),
        ensures
            final(self).wf(),
            final(self).model() == sm_push(old(self).model(), id as int, value@),
    {
        if id == 0 {
            self.stdin.push_one(value);
            proof {
                assert(final(self).model() =~= sm_push(old(self).model(), id as int, value@));
            }
        } else if id == 1 {
            self.stdout.push_one(value);
            proof {
                assert(final(self).model() =~= sm_push(old(self).model(), id as int, value@));
            }
        } else if id == 2 {
            self.stderr.push_one(value);
            proof {
                assert(final(self).model() =~= sm_push(old(self).model(), id as int, value@));
            }
        } else {
            match self.find_stack(id) {
                Some(i) => {
                    let ghost s0 = self.stacks@;
                    proof {
                        lemma_assoc_get(s0, i as int);
                        lemma_assoc_remove(s0, i as int);
                    }
                    let (k, mut st) = self.stacks.remove(i);
                    let ghost st0 = st@;
                    st.push(value);
                    proof {
                        assert(vals_of(st@) =~= vals_of(st0).push(value@));
                    }
                    self.stacks.push((k, st));
                    proof {
                        assert(self.stacks@.drop_last() =~= s0.remove(i as int));
                        assert(assoc_map(self.stacks@) == assoc_map(s0.remove(i as int)).insert(
                            k as int,
                            vals_of(st@),
                        ));
                        assert(assoc_map(self.stacks@) =~= assoc_map(s0).insert(
                            k as int,
                            vals_of(st@),
                        ));
                        assert(final(self).model() =~= sm_push(
                            old(self).model(),
                            id as int,
                            value@,
                        ));
                        assert(forall|a: int, b: int|
                            0 <= a < b < self.stacks@.len() ==> (#[trigger] self.stacks@[a]).0 != (
                            #[trigger] self.stacks@[b]).0) by {
                            assert(forall|a: int|
                                0 <= a < s0.remove(i as int).len() ==> (#[trigger] s0.remove(
                                    i as int,
                                )[a]).0 == (if a < i { s0[a] } else { s0[a + 1] }).0);
                        }
                    }
                },
                None => {
                    proof {
                        lemma_assoc_contains(self.stacks@, id as int);
                    }
                    let ghost s0 = self.stacks@;
                    let mut st: Vec<HyeongRational> = Vec::new();
                    st.push(value);
                    proof {
                        assert(vals_of(st@) =~= Seq::<RatValue>::empty().push(value@));
                    }
                    self.stacks.push((id, st));
                    proof {
                        assert(self.stacks@.drop_last() =~= s0);
                        assert(final(self).model() =~= sm_push(
                            old(self).model(),
                            id as int,
                            value@,
                        ));
                    }
                },
            }
        }
    }
}

impl StackManager {
    /// The exit trigger: decides the exit code if stack 1 or 2 is
    /// selected (without overwriting an earlier decision).
    fn check_exit(&mut self) -> (r: bool)
        requires
            old(self).wf(),
        ensures
            final(self).wf(),
            ({
                let (fired, m) = sm_check_exit(old(self).model());
                r == fired && final(self).model() == m
            }),
    {
        if self.selected == 1 {
            if self.exit_code.is_none() {
                self.exit_code = Some(0);
            }
            proof {
                assert(final(self).model() =~= sm_check_exit(old(self).model()).1);
            }
            true
        } else if self.selected == 2 {
            if self.exit_code.is_none() {
                self.exit_code = Some(1);
            }
            proof {
                assert(final(self).model() =~= sm_check_exit(old(self).model()).1);
            }
            true
        } else {
            false
        }
    }

    /// Pushes `hangul * dots` as an exact integer onto the selected
    /// stack.  Never triggers an exit.
    pub fn push(&mut self, hangul: usize, dots: usize)
        requires
            old(self).wf(),
            hangul * dots <= u64::MAX,
        ensures
            final(self).wf(),
            final(self).model() == sm_push_op(old(self).model(), hangul as nat, dots as nat),
    {
        let value = HyeongRational::from_u64((hangul as u64) * (dots as u64));
        let sel = self.selected;
        self.push_to(sel, value);
    }

    /// Pops `count` values from the selected stack, starting from
    /// `sum`, folding with `combine` (`true` for addition, `false` for
    /// multiplication).
    fn pop_fold(&mut self, count: usize, acc: HyeongRational, combine_add: bool) -> (r: (
        HyeongRational,
        Ghost<Seq<RatValue>>,
    ))
        requires
            old(self).wf(),
        ensures
            final(self).wf(),
            ({
                let (popped, m) = sm_pop_n(old(self).model(), count as nat);
                &&& final(self).model() == m
                &&& r.1@ == popped
                &&& r.0@ == if combine_add {
                    rv_sum_from(acc@, popped)
                } else {
                    rv_prod_from(acc@, popped)
                }
            }),
    {
        let ghost m0 = self.model();
        let mut sum = acc;
        let ghost acc0 = acc@;
        let ghost popped: Seq<RatValue> = Seq::<RatValue>::empty();
        let mut i: usize = 0;
        proof {
            assert(popped + sm_pop_n(self.model(), (count - i) as nat).0 =~= sm_pop_n(
                m0,
                count as nat,
            ).0);
        }
        while i < count
            invariant
                self.wf(),
                i <= count,
                sm_pop_n(m0, count as nat).1 == sm_pop_n(self.model(), (count - i) as nat).1,
                sm_pop_n(m0, count as nat).0 == popped + sm_pop_n(
                    self.model(),
                    (count - i) as nat,
                ).0,
                popped.len() == i,
                sum@ == if combine_add {
                    rv_sum_from(acc0, popped)
                } else {
                    rv_prod_from(acc0, popped)
                },
            decreases count - i,
        {
            let ghost m_here = self.model();
            let v = self.pop_selected();
            let ghost rest = sm_pop_n(self.model(), (count - i - 1) as nat).0;
            proof {
                lemma_rv_sum_push(acc0, popped, v@);
                lemma_rv_prod_push(acc0, popped, v@);
                assert(sm_pop_n(m_here, (count - i) as nat).0 == seq![v@] + rest);
                assert(popped + (seq![v@] + rest) =~= popped.push(v@) + rest);
                popped = popped.push(v@);
            }
            if combine_add {
                sum = sum.add(&v);
            } else {
                sum = sum.mul(&v);
            }
            i = i + 1;
        }
        proof {
            assert(sm_pop_n(self.model(), 0) == (Seq::<RatValue>::empty(), self.model()));
            assert(popped + Seq::<RatValue>::empty() =~= popped);
        }
        (sum, Ghost(popped))
    }

    /// Pops `count` values from the selected stack, folds them with
    /// addition, and pushes the sum onto `to` -- unless the exit
    /// trigger fires.
    pub fn add(&mut self, count: usize, to: usize)
        requires
            old(self).wf(),
        ensures
            final(self).wf(),
            final(self).model() == sm_add(old(self).model(), count as nat, to as int),
    {
        if self.check_exit() {
            return ;
        }
        let acc = HyeongRational::from_i64(0);
        let (sum, _popped) = self.pop_fold(count, acc, true);
        self.push_to(to, sum);
    }

    /// Pops `count` values from the selected stack, folds them with
    /// multiplication, and pushes the product onto `to` -- unless the
    /// exit trigger fires.
    pub fn mul(&mut self, count: usize, to: usize)
        requires
            old(self).wf(),
        ensures
            final(self).wf(),
            final(self).model() == sm_mul(old(self).model(), count as nat, to as int),
    {
        if self.check_exit() {
            return ;
        }
        let acc = HyeongRational::from_i64(1);
        let (prod, _popped) = self.pop_fold(count, acc, false);
        self.push_to(to, prod);
    }

    /// Pops `count` values, applies `op` (negate or reciprocate) to
    /// each, pushes the results back onto the source stack in original
    /// order, and returns them.
    fn pop_transform(&mut self, count: usize, negate: bool) -> (r: (
        Vec<HyeongRational>,
        Ghost<Seq<RatValue>>,
    ))
        requires
            old(self).wf(),
        ensures
            final(self).wf(),
            ({
                let (popped, m1) = sm_pop_n(old(self).model(), count as nat);
                let mapped = if negate {
                    rv_neg_all(popped)
                } else {
                    rv_recip_all(popped)
                };
                &&& r.1@ == mapped
                &&& vals_of(r.0@) == mapped
                &&& final(self).model() == sm_push_seq_rev(m1, m1.selected, mapped)
            }),
    {
        let ghost m0 = self.model();
        let mut temp: Vec<HyeongRational> = Vec::new();
        let ghost popped: Seq<RatValue> = Seq::<RatValue>::empty();
        let mut i: usize = 0;
        proof {
            assert(popped + sm_pop_n(self.model(), (count - i) as nat).0 =~= sm_pop_n(
                m0,
                count as nat,
            ).0);
            assert(vals_of(temp@) =~= if negate {
                rv_neg_all(popped)
            } else {
                rv_recip_all(popped)
            });
        }
        while i < count
            invariant
                self.wf(),
                i <= count,
                sm_pop_n(m0, count as nat).1 == sm_pop_n(self.model(), (count - i) as nat).1,
                sm_pop_n(m0, count as nat).0 == popped + sm_pop_n(
                    self.model(),
                    (count - i) as nat,
                ).0,
                popped.len() == i,
                temp@.len() == i,
                vals_of(temp@) == if negate {
                    rv_neg_all(popped)
                } else {
                    rv_recip_all(popped)
                },
            decreases count - i,
        {
            let ghost m_here = self.model();
            let v = self.pop_selected();
            let ghost rest = sm_pop_n(self.model(), (count - i - 1) as nat).0;
            let t = if negate {
                v.neg()
            } else {
                v.recip()
            };
            let ghost temp0 = temp@;
            temp.push(t);
            proof {
                assert(sm_pop_n(m_here, (count - i) as nat).0 == seq![v@] + rest);
                assert(popped + (seq![v@] + rest) =~= popped.push(v@) + rest);
                lemma_vals_push(temp0, t);
                if negate {
                    lemma_neg_all_push(popped, v@);
                    assert(vals_of(temp@) == rv_neg_all(popped.push(v@)));
                } else {
                    lemma_recip_all_push(popped, v@);
                    assert(vals_of(temp@) == rv_recip_all(popped.push(v@)));
                }
                popped = popped.push(v@);
            }
            i = i + 1;
        }
        proof {
            assert(sm_pop_n(self.model(), 0) == (Seq::<RatValue>::empty(), self.model()));
            assert(popped + Seq::<RatValue>::empty() =~= popped);
        }
        let ghost m1 = self.model();
        let ghost mapped = vals_of(temp@);
        let sel = self.selected;
        proof {
            assert(sel as int == m1.selected);
            assert(mapped.take(temp@.len() as int) =~= mapped);
        }
        let mut j: usize = temp.len();
        while j > 0
            invariant
                self.wf(),
                j <= temp@.len(),
                mapped == vals_of(temp@),
                sm_push_seq_rev(m1, sel as int, mapped) == sm_push_seq_rev(
                    self.model(),
                    sel as int,
                    mapped.take(j as int),
                ),
            decreases j,
        {
            j = j - 1;
            let v = temp[j].clone();
            proof {
                assert(mapped.take(j + 1int).last() == mapped[j as int]);
                assert(mapped.take(j + 1int).drop_last() =~= mapped.take(j as int));
                assert(v@ == mapped[j as int]);
            }
            self.push_to(sel, v);
        }
        proof {
            assert(mapped.take(0) =~= Seq::<RatValue>::empty());
        }
        (temp, Ghost(mapped))
    }

    /// Folds a vector of already-transformed values with addition or
    /// multiplication, starting from `acc`.
    fn fold_vec(temp: &Vec<HyeongRational>, acc: HyeongRational, combine_add: bool) -> (r:
        HyeongRational)
        ensures
            r@ == if combine_add {
                rv_sum_from(acc@, vals_of(temp@))
            } else {
                rv_prod_from(acc@, vals_of(temp@))
            },
    {
        let ghost acc0 = acc@;
        let ghost mapped = vals_of(temp@);
        let mut sum = acc;
        let mut i: usize = 0;
        proof {
            assert(mapped.take(0) =~= Seq::<RatValue>::empty());
        }
        while i < temp.len()
            invariant
                i <= temp@.len(),
                mapped == vals_of(temp@),
                sum@ == if combine_add {
                    rv_sum_from(acc0, mapped.take(i as int))
                } else {
                    rv_prod_from(acc0, mapped.take(i as int))
                },
            decreases temp@.len() - i,
        {
            let v = temp[i].clone();
            proof {
                assert(v@ == mapped[i as int]);
                assert(mapped.take(i + 1int) =~= mapped.take(i as int).push(v@));
                lemma_rv_sum_push(acc0, mapped.take(i as int), v@);
                lemma_rv_prod_push(acc0, mapped.take(i as int), v@);
            }
            if combine_add {
                sum = sum.add(&v);
            } else {
                sum = sum.mul(&v);
            }
            i = i + 1;
        }
        proof {
            assert(mapped.take(temp@.len() as int) =~= mapped);
        }
        sum
    }

    /// Pops `count` values, negates each, pushes them back in original
    /// order, and pushes their sum onto `to` -- unless the exit trigger
    /// fires.
    pub fn neg(&mut self, count: usize, to: usize)
        requires
            old(self).wf(),
        ensures
            final(self).wf(),
            final(self).model() == sm_neg(old(self).model(), count as nat, to as int),
    {
        if self.check_exit() {
            return ;
        }
        let (temp, _mapped) = self.pop_transform(count, true);
        let acc = HyeongRational::from_i64(0);
        let sum = Self::fold_vec(&temp, acc, true);
        self.push_to(to, sum);
    }

    /// Pops `count` values, reciprocates each, pushes them back in
    /// original order, and pushes their product onto `to` -- unless the
    /// exit trigger fires.
    pub fn recip(&mut self, count: usize, to: usize)
        requires
            old(self).wf(),
        ensures
            final(self).wf(),
            final(self).model() == sm_recip(old(self).model(), count as nat, to as int),
    {
        if self.check_exit() {
            return ;
        }
        let (temp, _mapped) = self.pop_transform(count, false);
        let acc = HyeongRational::from_i64(1);
        let prod = Self::fold_vec(&temp, acc, false);
        self.push_to(to, prod);
    }

    /// Peeks the top of the selected stack (the peek itself may consume
    /// input on stack 0 or render poison on stacks 1 and 2), selects
    /// `into`, and pushes `count` copies of the peeked value there.
    /// Exempt from the exit trigger.
    pub fn dup(&mut self, count: usize, into: usize)
        requires
            old(self).wf(),
        ensures
            final(self).wf(),
            final(self).model() == sm_dup(old(self).model(), count as nat, into as int),
    {
        let v = self.pop_selected();
        let sel = self.selected;
        self.push_to(sel, v.clone());
        self.selected = into;
        let ghost m3 = self.model();
        proof {
            let (v0, m1) = sm_pop(old(self).model());
            let m2 = sm_push(m1, m1.selected, v0);
            assert(m3 =~= (SmModel { selected: into as int, ..m2 }));
        }
        let mut i: usize = 0;
        while i < count
            invariant
                self.wf(),
                i <= count,
                sm_push_copies(m3, into as int, v@, count as nat) == sm_push_copies(
                    self.model(),
                    into as int,
                    v@,
                    (count - i) as nat,
                ),
            decreases count - i,
        {
            self.push_to(into, v.clone());
            i = i + 1;
        }
    }

    /// Pops one value from the selected stack and compares it with
    /// `target` for strict order.  Poison is unordered.
    fn stack_less_than(&mut self, target: u64) -> (r: bool)
        requires
            old(self).wf(),
        ensures
            final(self).wf(),
            ({
                let (v, m) = sm_pop(old(self).model());
                final(self).model() == m && r == rv_lt(v, rv_int(target as int))
            }),
    {
        let t = HyeongRational::from_u64(target);
        let v = self.pop_selected();
        v < t
    }

    /// Pops one value from the selected stack and compares it with
    /// `target` for equality.  Poison is never equal.
    fn stack_equals(&mut self, target: u64) -> (r: bool)
        requires
            old(self).wf(),
        ensures
            final(self).wf(),
            ({
                let (v, m) = sm_pop(old(self).model());
                final(self).model() == m && r == rv_eq(v, rv_int(target as int))
            }),
    {
        let t = HyeongRational::from_u64(target);
        let v = self.pop_selected();
        v == t
    }

    /// Recursively evaluates a heart tree against `target`: each inner
    /// node pops one value from the selected stack and compares it,
    /// recursing into the left child when the comparison holds.
    pub fn process_hearts(&mut self, heart: &HeartTree, target: u64) -> (r: HeartResult)
        requires
            old(self).wf(),
        ensures
            final(self).wf(),
            ({
                let (hr, m) = sm_hearts(old(self).model(), *heart, target as int);
                r == hr && final(self).model() == m
            }),
        decreases *heart,
    {
        match heart {
            HeartTree::Heart(id) => HeartResult::Heart(*id),
            HeartTree::Return => HeartResult::Return,
            HeartTree::Nil => HeartResult::Nil,
            HeartTree::LessThan(l, rt) => {
                if self.stack_less_than(target) {
                    self.process_hearts(l, target)
                } else {
                    self.process_hearts(rt, target)
                }
            },
            HeartTree::Equals(l, rt) => {
                if self.stack_equals(target) {
                    self.process_hearts(l, target)
                } else {
                    self.process_hearts(rt, target)
                }
            },
        }
    }
}

} // verus!
