//! The virtual machine: drives the parser's instructions through the
//! stack manager.
//!
//! Instructions are materialised on demand into an append-only cache;
//! when the parser is exhausted the program counter wraps to zero, so
//! the program loops until the stack manager decides an exit code.  A
//! memo table binds each `(magnitude, heart id)` pair to the position
//! where it was first observed, and a single slot remembers the
//! position active before the most recent jump.

use vstd::prelude::*;

use crate::parser::{parse_op, Parser};
use crate::stack::{
    sm_add, sm_dup, sm_hearts, sm_mul, sm_neg, sm_push_op, sm_recip, HeartResult, SmModel,
    StackManager,
};
use crate::structure::{instr_sized, Instruction, Operation, OperationType};

verus! {

/// The mathematical model of the processor: the parser state, the
/// instruction cache, the program counter, the stack manager's model,
/// the single remembered jump origin, and the label memo table.
#[verifier::ext_equal]
pub struct ProcModel {
    pub cached: Option<Operation>,
    pub rest: Seq<char>,
    pub instructions: Seq<Instruction>,
    pub position: int,
    pub sm: SmModel,
    pub last_jump: Option<int>,
    pub labels: Map<(int, int), int>,
}

/// What the parser yields next, and its state afterwards.
pub open spec fn parser_next(cached: Option<Operation>, rest: Seq<char>) -> (
    Option<Instruction>,
    Option<Operation>,
    Seq<char>,
) {
    match cached {
        None => (None, None, rest),
        Some(op) => {
            let (toks, r) = parse_op(rest);
            let i = crate::parser::build_instruction(op, toks);
            match r {
                Some((op2, rest2)) => (Some(i), Some(op2), rest2),
                None => (Some(i), None, Seq::<char>::empty()),
            }
        },
    }
}

/// Materialising the instruction at the current position: pull one more
/// instruction from the parser if the cache is too short; when the
/// parser is exhausted, wrap the counter to zero instead.
pub open spec fn proc_fetch(m: ProcModel) -> ProcModel {
    if m.instructions.len() <= m.position {
        let (io, c2, r2) = parser_next(m.cached, m.rest);
        match io {
            None => ProcModel { position: 0, ..m },
            Some(i) => ProcModel { instructions: m.instructions.push(i), cached: c2, rest: r2, ..m },
        }
    } else {
        m
    }
}

/// Dispatching one instruction to the stack manager: the repeat count
/// is the pop count, the magnitude names the target stack.
pub open spec fn proc_dispatch(sm: SmModel, i: Instruction) -> SmModel {
    let h = i.op.hangul_count as nat;
    let d = i.dots as nat;
    match i.op.op_type {
        OperationType::Push => sm_push_op(sm, h, d),
        OperationType::Add => sm_add(sm, h, d as int),
        OperationType::Multiply => sm_mul(sm, h, d as int),
        OperationType::Negate => sm_neg(sm, h, d as int),
        OperationType::Reciprocate => sm_recip(sm, h, d as int),
        OperationType::Duplicate => sm_dup(sm, h, d as int),
    }
}

/// The control step after heart evaluation.  A heart looks its
/// `(parameter, id)` pair up in the memo table, binding it to the
/// current position on first sight; a jump to a different position
/// records the origin.  A return jumps to the most recent origin, which
/// it does not clear.
pub open spec fn proc_control(m: ProcModel, hr: HeartResult, param: int) -> ProcModel {
    match hr {
        HeartResult::Heart(id) => {
            let key = (param, id as int);
            if m.labels.contains_key(key) {
                let next = m.labels[key];
                if next != m.position {
                    ProcModel { last_jump: Some(m.position), position: next, ..m }
                } else {
                    ProcModel { position: m.position + 1, ..m }
                }
            } else {
                ProcModel {
                    labels: m.labels.insert(key, m.position),
                    position: m.position + 1,
                    ..m
                }
            }
        },
        HeartResult::Return => match m.last_jump {
            Some(n) => ProcModel { position: n, ..m },
            None => ProcModel { position: m.position + 1, ..m },
        },
        HeartResult::Nil => ProcModel { position: m.position + 1, ..m },
    }
}

/// One full machine step: materialise the current instruction, run its
/// operation, evaluate its heart tree against repeat count times
/// magnitude, and move the program counter.
pub open spec fn proc_step(m: ProcModel) -> ProcModel {
    let m1 = proc_fetch(m);
    let i = m1.instructions[m1.position];
    let param = i.op.hangul_count * i.dots;
    let sm2 = proc_dispatch(m1.sm, i);
    let (hr, sm3) = sm_hearts(sm2, i.hearts, param as int);
    proc_control(ProcModel { sm: sm3, ..m1 }, hr, param as int)
}

/// `k` machine steps.
pub open spec fn proc_steps(m: ProcModel, k: nat) -> ProcModel
    decreases k,
{
    if k == 0 {
        m
    } else {
        proc_steps(proc_step(m), (k - 1) as nat)
    }
}

/// What a bounded run guarantees: the final state is the state after
/// exactly `k` machine steps for some `k` at most `fuel`; no state
/// before the `k`th had an exit code decided; and the fuel was spent
/// whole unless the run halted on a decided exit code.
pub open spec fn run_outcome(m0: ProcModel, m1: ProcModel, fuel: nat, halted: bool) -> bool {
    exists|k: nat|
        #![trigger proc_steps(m0, k)]
        k <= fuel && m1 == proc_steps(m0, k) && (!halted ==> k == fuel) && (forall|j: nat|
            j < k ==> (#[trigger] proc_steps(m0, j)).sm.exit is None)
}

proof fn lemma_proc_steps_snoc(m: ProcModel, k: nat)
    ensures
        proc_steps(m, k + 1) == proc_step(proc_steps(m, k)),
    decreases k,
{
    if k == 0 {
        assert(proc_steps(m, 1) == proc_steps(proc_step(m), 0));
        assert(proc_steps(proc_step(m), 0) == proc_step(m));
        assert(proc_steps(m, 0) == m);
    } else {
        lemma_proc_steps_snoc(proc_step(m), (k - 1) as nat);
        assert(proc_steps(m, k + 1) == proc_steps(proc_step(m), k));
        assert(proc_steps(m, k) == proc_steps(proc_step(m), (k - 1) as nat));
    }
}

/// The label memo law: once a `(parameter, heart id)` pair is bound in
/// the memo table, every later machine step keeps the first binding,
/// so each later occurrence of the pair jumps to the position first
/// observed for it.
pub proof fn lemma_label_first_binding(m: ProcModel, key: (int, int))
    requires
        m.labels.contains_key(key),
    ensures
        proc_step(m).labels.contains_key(key),
        proc_step(m).labels[key] == m.labels[key],
{
}

/// The return law: a `Return` outcome always lands on the position
/// recorded at the most recent jump, which it does not clear, so
/// repeated returns before any new jump all land on the same origin;
/// without a recorded origin it falls through to the next position.
pub proof fn lemma_return_lands_on_origin(m: ProcModel, param: int)
    ensures
        ({
            let m2 = proc_control(m, HeartResult::Return, param);
            match m.last_jump {
                Some(n) => m2.position == n && m2.last_jump == Some(n),
                None => m2.position == m.position + 1 && m2.last_jump is None,
            }
        }),
{
}

/// The label memo table as a map.
pub open spec fn labels_map(s: Seq<((u64, usize), usize)>) -> Map<(int, int), int>
    decreases s.len(),
{
    if s.len() == 0 {
        Map::<(int, int), int>::empty()
    } else {
        labels_map(s.drop_last()).insert(
            (s.last().0.0 as int, s.last().0.1 as int),
            s.last().1 as int,
        )
    }
}

pub open spec fn uniq_label_keys(s: Seq<((u64, usize), usize)>) -> bool {
    forall|i: int, j: int|
        0 <= i < j < s.len() ==> (#[trigger] s[i]).0 != (#[trigger] s[j]).0
}

proof fn lemma_labels_contains(s: Seq<((u64, usize), usize)>, k: (int, int))
    ensures
        labels_map(s).contains_key(k) <==> (exists|i: int|
            0 <= i < s.len() && ((#[trigger] s[i]).0.0 as int, s[i].0.1 as int) == k),
    decreases s.len(),
{
    if s.len() > 0 {
        lemma_labels_contains(s.drop_last(), k);
        if labels_map(s).contains_key(k) {
            if (s.last().0.0 as int, s.last().0.1 as int) == k {
                assert(((s[s.len() - 1]).0.0 as int, s[s.len() - 1].0.1 as int) == k);
            } else {
                let dl = s.drop_last();
                let i = choose|i: int|
                    0 <= i < dl.len() && ((#[trigger] dl[i]).0.0 as int, dl[i].0.1 as int) == k;
                assert(((s[i]).0.0 as int, s[i].0.1 as int) == k);
            }
        }
        if exists|i: int| 0 <= i < s.len() && ((#[trigger] s[i]).0.0 as int, s[i].0.1 as int)
            == k {
            let i = choose|i: int|
                0 <= i < s.len() && ((#[trigger] s[i]).0.0 as int, s[i].0.1 as int) == k;
            if i < s.len() - 1 {
                assert((s.drop_last()[i].0.0 as int, s.drop_last()[i].0.1 as int) == k);
            }
        }
    }
}

proof fn lemma_labels_get(s: Seq<((u64, usize), usize)>, i: int)
    requires
        uniq_label_keys(s),
        0 <= i < s.len(),
    ensures
        labels_map(s).contains_key((s[i].0.0 as int, s[i].0.1 as int)),
        labels_map(s)[(s[i].0.0 as int, s[i].0.1 as int)] == s[i].1 as int,
    decreases s.len(),
{
    if i == s.len() - 1 {
    } else {
        assert(s.drop_last()[i] == s[i]);
        lemma_labels_get(s.drop_last(), i);
        assert(s[s.len() - 1].0 != s[i].0);
    }
}

/// The processor: a parser, the instruction cache, the program counter,
/// the stack manager, the last jump origin, and the label memo table.
pub struct Processor {
    inner: Parser,
    instructions: Vec<Instruction>,
    position: usize,
    stacks: StackManager,
    last_jump: Option<usize>,
    labels: Vec<((u64, usize), usize)>,
}

impl Processor {
    /// The mathematical model of this processor.
    pub closed spec fn model(self) -> ProcModel {
        ProcModel {
            cached: self.inner.cached(),
            rest: self.inner.rest(),
            instructions: self.instructions@,
            position: self.position as int,
            sm: self.stacks.model(),
            last_jump: match self.last_jump {
                Some(n) => Some(n as int),
                None => None,
            },
            labels: labels_map(self.labels@),
        }
    }

    pub closed spec fn wf(self) -> bool {
        &&& self.inner.wf()
        &&& self.stacks.wf()
        &&& self.position <= self.instructions@.len()
        &&& forall|i: int|
            0 <= i < self.instructions@.len() ==> instr_sized(#[trigger] self.instructions@[i])
        &&& uniq_label_keys(self.labels@)
        &&& forall|i: int|
            0 <= i < self.labels@.len() ==> (#[trigger] self.labels@[i]).1
                < self.instructions@.len()
        &&& match self.last_jump {
            Some(n) => n < self.instructions@.len(),
            None => true,
        }
    }

    /// Whether the machine can take a step without running off the end
    /// of an empty program.
    pub open spec fn runnable(self) -> bool {
        self.model().instructions.len() > 0 || self.model().cached is Some
    }

    /// Builds a processor over a parser and a stack manager, with an
    /// empty instruction cache, the counter at zero, no remembered jump
    /// and an empty memo table.
    pub fn with_stack_manager(inner: Parser, stacks: StackManager) -> (r: Self)
        requires
            inner.wf(),
            stacks.wf(),
        ensures
            r.wf(),
            r.model() == (ProcModel {
                cached: inner.cached(),
                rest: inner.rest(),
                instructions: Seq::<Instruction>::empty(),
                position: 0,
                sm: stacks.model(),
                last_jump: None,
                labels: Map::<(int, int), int>::empty(),
            }),
    {
        let r = Processor {
            inner,
            instructions: Vec::new(),
            position: 0,
            stacks,
            last_jump: None,
            labels: Vec::new(),
        };
        proof {
            assert(r.model() =~~= (ProcModel {
                cached: r.inner.cached(),
                rest: r.inner.rest(),
                instructions: Seq::<Instruction>::empty(),
                position: 0,
                sm: r.stacks.model(),
                last_jump: None,
                labels: Map::<(int, int), int>::empty(),
            }));
        }
        r
    }

    /// The first position bound to `key`, if any.
    fn find_label(&self, key: (u64, usize)) -> (r: Option<usize>)
        ensures
            match r {
                Some(v) => exists|i: int|
                    0 <= i < self.labels@.len() && (#[trigger] self.labels@[i]) == (key, v),
                None => forall|i: int|
                    0 <= i < self.labels@.len() ==> (#[trigger] self.labels@[i]).0 != key,
            },
    {
        let mut i: usize = 0;
        while i < self.labels.len()
            invariant
                i <= self.labels@.len(),
                forall|j: int| 0 <= j < i ==> (#[trigger] self.labels@[j]).0 != key,
            decreases self.labels@.len() - i,
        {
            let (k, v) = self.labels[i];
            if k.0 == key.0 && k.1 == key.1 {
                assert(self.labels@[i as int] == (key, v));
                return Some(v);
            }
            i = i + 1;
        }
        None
    }

    /// One machine step.  Returns the exit code once the stack manager
    /// has decided one.
    pub fn advance(&mut self) -> (r: Option<isize>)
        requires
            old(self).wf(),
            old(self).runnable(),
        ensures
            final(self).wf(),
            final(self).model().instructions.len() > 0,
            final(self).model() == proc_step(old(self).model()),
            match r {
                Some(c) => final(self).model().sm.exit == Some(c as int),
                None => final(self).model().sm.exit is None,
            },
    {
        if self.instructions.len() <= self.position {
            let next = self.inner.next();
            match next {
                None => {
                    self.position = 0;
                },
                Some(instr) => {
                    self.instructions.push(instr);
                },
            }
        }
        proof {
            assert(self.model() =~~= proc_fetch(old(self).model()));
            assert(self.position < self.instructions@.len());
        }
        let cache_len = self.instructions.len();
        let ghost m1 = self.model();
        let pos = self.position;
        assert(pos < cache_len);
        proof {
            assert(instr_sized(self.instructions@[pos as int]));
        }
        let instr = &self.instructions[pos];
        let hangul = instr.hangul_count();
        let dots = instr.dots();
        match instr.operation_type() {
            OperationType::Push => {
                self.stacks.push(hangul, dots);
            },
            OperationType::Add => {
                self.stacks.add(hangul, dots);
            },
            OperationType::Multiply => {
                self.stacks.mul(hangul, dots);
            },
            OperationType::Negate => {
                self.stacks.neg(hangul, dots);
            },
            OperationType::Reciprocate => {
                self.stacks.recip(hangul, dots);
            },
            OperationType::Duplicate => {
                self.stacks.dup(hangul, dots);
            },
        }
        let instr = &self.instructions[pos];
        let param = instr.hangul_times_dots();
        let result = self.stacks.process_hearts(instr.heart_tree(), param);
        let ghost m2 = ProcModel { sm: sm_hearts(proc_dispatch(m1.sm, m1.instructions[m1.position]), m1.instructions[m1.position].hearts, param as int).1, ..m1 };
        proof {
            assert(self.model() =~~= m2);
        }
        match result {
            HeartResult::Heart(id) => {
                let key = (param, id);
                match self.find_label(key) {
                    Some(next) => {
                        proof {
                            let i = choose|i: int|
                                0 <= i < self.labels@.len() && (#[trigger] self.labels@[i]) == (
                                key,
                                next,
                                );
                            lemma_labels_get(self.labels@, i);
                        }
                        if next != self.position {
                            self.last_jump = Some(self.position);
                            self.position = next;
                        } else {
                            self.position = self.position + 1;
                        }
                    },
                    None => {
                        proof {
                            lemma_labels_contains(
                                self.labels@,
                                (param as int, id as int),
                            );
                        }
                        let ghost l0 = self.labels@;
                        self.labels.push((key, self.position));
                        proof {
                            assert(self.labels@.drop_last() =~= l0);
                        }
                        self.position = self.position + 1;
                    },
                }
            },
            HeartResult::Return => {
                match self.last_jump {
                    Some(n) => {
                        self.position = n;
                    },
                    None => {
                        self.position = self.position + 1;
                    },
                }
            },
            HeartResult::Nil => {
                self.position = self.position + 1;
            },
        }
        proof {
            assert(self.model() =~~= proc_step(old(self).model()));
        }
        self.stacks.exit_code()
    }

    /// Runs the machine for at most `fuel` steps, stopping as soon as
    /// an exit code is decided.  `None` means the fuel was spent whole
    /// with no exit code decided; the caller may simply call again.
    pub fn run(&mut self, fuel: usize) -> (r: Option<isize>)
        requires
            old(self).wf(),
            old(self).runnable(),
        ensures
            final(self).wf(),
            final(self).runnable(),
            run_outcome(old(self).model(), final(self).model(), fuel as nat, r is Some),
            match r {
                Some(c) => final(self).model().sm.exit == Some(c as int),
                None => final(self).model().sm.exit is None,
            },
    {
        let ghost m0 = self.model();
        if let Some(code) = self.stacks.exit_code() {
            proof {
                assert(run_outcome(m0, self.model(), fuel as nat, true)) by {
                    assert(proc_steps(m0, 0) == m0);
                }
            }
            return Some(code);
        }
        let mut i: usize = 0;
        proof {
            assert(proc_steps(m0, 0) == m0);
        }
        while i < fuel
            invariant
                m0 == old(self).model(),
                self.wf(),
                self.runnable(),
                i <= fuel,
                self.model() == proc_steps(m0, i as nat),
                self.model().sm.exit is None,
                forall|j: nat| j < i ==> (#[trigger] proc_steps(m0, j)).sm.exit is None,
            decreases fuel - i,
        {
            proof {
                lemma_proc_steps_snoc(m0, i as nat);
                assert(proc_steps(m0, i as nat).sm.exit is None);
            }
            let r = self.advance();
            i = i + 1;
            proof {
                assert(self.model() == proc_steps(m0, i as nat));
                assert(forall|j: nat| j < i ==> (#[trigger] proc_steps(m0, j)).sm.exit is None);
            }
            if let Some(code) = r {
                proof {
                    assert(run_outcome(m0, self.model(), fuel as nat, true)) by {
                        assert(self.model() == proc_steps(m0, i as nat));
                        assert(forall|j: nat|
                            j < i ==> (#[trigger] proc_steps(m0, j)).sm.exit is None);
                    }
                }
                return Some(code);
            }
        }
        proof {
            assert(run_outcome(m0, self.model(), fuel as nat, false)) by {
                assert(self.model() == proc_steps(m0, fuel as nat));
                assert(forall|j: nat| j < fuel ==> (#[trigger] proc_steps(m0, j)).sm.exit is None);
            }
        }
        None
    }

    /// The text rendered to the output stream so far.
    pub fn output(&self) -> (s: &String)
        ensures
            s@ == self.model().sm.out,
    {
        self.stacks.output()
    }

    /// The text rendered to the error stream so far.
    pub fn error_output(&self) -> (s: &String)
        ensures
            s@ == self.model().sm.err,
    {
        self.stacks.error_output()
    }
}

} // verus!
