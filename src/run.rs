use vstd::prelude::*;

use crate::config::Config;
use crate::parser::{Prog, Statement, Term, Value};
use crate::symbolizer::Operator;
use crate::text::same_text;

verus! {

/// How many times a loop body may run in one execution of the loop.
pub const MAX_ITERATIONS: usize = 131072;

/// The values of the variables assigned so far, by name.
pub struct VarStore {
    names: Vec<String>,
    values: Vec<u64>,
    map: Ghost<Map<Seq<char>, u64>>,
}

impl View for VarStore {
    type V = Map<Seq<char>, u64>;

    closed spec fn view(&self) -> Map<Seq<char>, u64> {
        self.map@
    }
}

impl VarStore {
    /// The names are distinct, and the map holds exactly the pairs of the two vectors.
    pub closed spec fn wf(&self) -> bool {
        &&& self.names.len() == self.values.len()
        &&& forall|i: int, j: int|
            0 <= i < j < self.names.len() ==> self.names@[i]@ != self.names@[j]@
        &&& forall|i: int|
            0 <= i < self.names.len() ==> #[trigger] self.map@.contains_key(self.names@[i]@)
                && self.map@[self.names@[i]@] == self.values@[i]
        &&& forall|k: Seq<char>|
            #[trigger] self.map@.contains_key(k) ==> exists|i: int|
                0 <= i < self.names.len() && self.names@[i]@ == k
    }

    /// A store with no variables.
    pub fn new() -> (r: VarStore)
        ensures
            r.wf(),
            r@ == Map::<Seq<char>, u64>::empty(),
    {
        VarStore { names: Vec::new(), values: Vec::new(), map: Ghost(Map::empty()) }
    }

    /// Where `name` stands among the names, if it does.
    fn find(&self, name: &str) -> (r: Option<usize>)
        requires
            self.wf(),
        ensures
            match r {
                Some(i) => i < self.names.len() && self.names@[i as int]@ == name@,
                None => !self@.contains_key(name@),
            },
    {
        let mut i: usize = 0;
        while i < self.names.len()
            invariant
                i <= self.names.len(),
                forall|j: int| 0 <= j < i ==> self.names@[j]@ != name@,
            decreases self.names.len() - i,
        {
            if same_text(self.names[i].as_str(), name) {
                return Some(i);
            }
            i = i + 1;
        }
        None
    }

    /// The value of the variable `name`, if it has one.
    pub fn get(&self, name: &str) -> (r: Option<u64>)
        requires
            self.wf(),
        ensures
            r == (if self@.contains_key(name@) {
                Some(self@[name@])
            } else {
                None::<u64>
            }),
    {
        match self.find(name) {
            Some(i) => Some(self.values[i]),
            None => None,
        }
    }

    /// Gives the variable `name` the value `v`.
    pub fn set(&mut self, name: &str, v: u64)
        requires
            old(self).wf(),
        ensures
            final(self).wf(),
            final(self)@ == old(self)@.insert(name@, v),
    {
        match self.find(name) {
            Some(i) => {
                self.values.set(i, v);
                self.map = Ghost(self.map@.insert(name@, v));
                proof {
                    assert forall|k: Seq<char>| #[trigger] self.map@.contains_key(k) implies exists|
                        j: int,
                    | 0 <= j < self.names.len() && self.names@[j]@ == k by {
                        if k != name@ {
                            assert(old(self).map@.contains_key(k));
                            let j = choose|j: int|
                                0 <= j < old(self).names.len() && old(self).names@[j]@ == k;
                            assert(self.names@[j]@ == k);
                        } else {
                            assert(self.names@[i as int]@ == k);
                        }
                    }
                    assert forall|a: int|
                        0 <= a < self.names.len() implies #[trigger] self.map@.contains_key(
                        self.names@[a]@,
                    ) && self.map@[self.names@[a]@] == self.values@[a] by {
                        assert(old(self).map@.contains_key(old(self).names@[a]@));
                        if a != i {
                            assert(self.names@[a]@ != self.names@[i as int]@);
                        }
                    }
                }
            },
            None => {
                let ghost n = self.names.len();
                self.names.push(String::from_str(name));
                self.values.push(v);
                self.map = Ghost(self.map@.insert(name@, v));
                proof {
                    assert forall|k: Seq<char>| #[trigger] self.map@.contains_key(k) implies exists|
                        j: int,
                    | 0 <= j < self.names.len() && self.names@[j]@ == k by {
                        if k != name@ {
                            assert(old(self).map@.contains_key(k));
                            let j = choose|j: int|
                                0 <= j < old(self).names.len() && old(self).names@[j]@ == k;
                            assert(self.names@[j] == old(self).names@[j]);
                        } else {
                            assert(self.names@[n as int]@ == k);
                        }
                    }
                    assert forall|a: int, b: int|
                        0 <= a < b < self.names.len() implies self.names@[a]@
                        != self.names@[b]@ by {
                        assert(old(self).map@.contains_key(old(self).names@[a]@));
                        if b < n {
                            assert(old(self).names@[b] == self.names@[b]);
                        }
                        assert(old(self).names@[a] == self.names@[a]);
                    }
                    assert forall|a: int|
                        0 <= a < self.names.len() implies #[trigger] self.map@.contains_key(
                        self.names@[a]@,
                    ) && self.map@[self.names@[a]@] == self.values@[a] by {
                        if a < n {
                            assert(self.names@[a] == old(self).names@[a]);
                            assert(old(self).map@.contains_key(old(self).names@[a]@));
                        }
                    }
                }
            },
        }
    }

    /// The variables and their values, each name once.
    pub fn entries(&self) -> (r: Vec<(String, u64)>)
        requires
            self.wf(),
        ensures
            forall|i: int|
                0 <= i < r.len() ==> #[trigger] self@.contains_key(r@[i].0@) && self@[r@[i].0@]
                    == r@[i].1,
            forall|k: Seq<char>|
                #[trigger] self@.contains_key(k) ==> exists|i: int| 0 <= i < r.len() && r@[i].0@ == k,
            forall|i: int, j: int| 0 <= i < j < r.len() ==> r@[i].0@ != r@[j].0@,
    {
        let mut out: Vec<(String, u64)> = Vec::new();
        let mut i: usize = 0;
        while i < self.names.len()
            invariant
                i <= self.names.len(),
                self.names.len() == self.values.len(),
                out.len() == i,
                forall|j: int|
                    0 <= j < i ==> #[trigger] out@[j].0@ == self.names@[j]@ && out@[j].1
                        == self.values@[j],
            decreases self.names.len() - i,
        {
            out.push((self.names[i].clone(), self.values[i]));
            i = i + 1;
        }
        proof {
            assert forall|k: Seq<char>| #[trigger] self@.contains_key(k) implies exists|i: int|
                0 <= i < out.len() && out@[i].0@ == k by {
                let i = choose|i: int| 0 <= i < self.names.len() && self.names@[i]@ == k;
                assert(out@[i].0@ == k);
            }
            assert forall|i: int|
                0 <= i < out.len() implies #[trigger] self@.contains_key(out@[i].0@)
                && self@[out@[i].0@] == out@[i].1 by {
                assert(out@[i].0@ == self.names@[i]@);
            }
            assert forall|i: int, j: int| 0 <= i < j < out.len() implies out@[i].0@
                != out@[j].0@ by {
                assert(out@[i].0@ == self.names@[i]@);
                assert(out@[j].0@ == self.names@[j]@);
            }
        }
        out
    }
}

/// A failure during evaluation.
#[derive(Debug)]
pub enum RuntimeError {
    /// A variable was read before anything was assigned to it.
    UnassignedVariable(String),
    /// The result for this target does not fit in `u64`.
    VariableOverflow(String),
    /// The result for this target is below zero.
    VariableUnderflow(String),
    /// A loop body ran the largest number of times allowed, and the loop
    /// still did not end.
    MaxLoopsReached,
}

/// What a runtime failure stands for.
pub enum Fault {
    Unassigned(Seq<char>),
    Overflow(Seq<char>),
    Underflow(Seq<char>),
    MaxLoops,
}

impl View for RuntimeError {
    type V = Fault;

    open spec fn view(&self) -> Fault {
        match self {
            RuntimeError::UnassignedVariable(v) => Fault::Unassigned(v@),
            RuntimeError::VariableOverflow(v) => Fault::Overflow(v@),
            RuntimeError::VariableUnderflow(v) => Fault::Underflow(v@),
            RuntimeError::MaxLoopsReached => Fault::MaxLoops,
        }
    }
}

impl RuntimeError {
    /// The error as text, naming the variable concerned.
    pub fn describe(&self) -> (r: String)
        ensures
            r@ == match self@ {
                Fault::Unassigned(v) => "UnassignedVariable "@ + v,
                Fault::Overflow(v) => "VariableOverflow "@ + v,
                Fault::Underflow(v) => "VariableUnderflow "@ + v
                    + " (you can try running it with 'allow_underflow' enabled)"@,
                Fault::MaxLoops => "MaxLoopsReached"@,
            },
    {
        match self {
            RuntimeError::UnassignedVariable(v) => {
                let mut out = String::from_str("UnassignedVariable ");
                out.append(v.as_str());
                out
            },
            RuntimeError::VariableOverflow(v) => {
                let mut out = String::from_str("VariableOverflow ");
                out.append(v.as_str());
                out
            },
            RuntimeError::VariableUnderflow(v) => {
                let mut out = String::from_str("VariableUnderflow ");
                out.append(v.as_str());
                out.append(" (you can try running it with 'allow_underflow' enabled)");
                out
            },
            RuntimeError::MaxLoopsReached => String::from_str("MaxLoopsReached"),
        }
    }
}

/// The value of an operand in store `st`, or the variable that has none.
pub open spec fn read(st: Map<Seq<char>, u64>, a: Term) -> Result<u64, Seq<char>> {
    match a {
        Term::Var(v) => if st.contains_key(v) {
            Ok(st[v])
        } else {
            Err(v)
        },
        Term::Const(c) => Ok(c),
    }
}

/// `x op y`, assigned to `target`: checked for `+` and `*`; for `-`, clamped
/// at zero where the configuration allows underflow.
pub open spec fn apply(c: Config, op: Operator, x: u64, y: u64, target: Seq<char>) -> Result<
    u64,
    Fault,
> {
    match op {
        Operator::Add => if x + y <= u64::MAX {
            Ok((x + y) as u64)
        } else {
            Err(Fault::Overflow(target))
        },
        Operator::Multiply => if x * y <= u64::MAX {
            Ok((x * y) as u64)
        } else {
            Err(Fault::Overflow(target))
        },
        Operator::Subtract => if x >= y {
            Ok((x - y) as u64)
        } else if c.allow_underflow {
            Ok(0)
        } else {
            Err(Fault::Underflow(target))
        },
    }
}

/// A store as a map from variable names to values.
pub type Vars = Map<Seq<char>, u64>;

/// The store after a run, or the failure together with the store as it was
/// when the failure came.
pub type Evaluated = Result<Vars, (Fault, Vars)>;

/// The store a run leaves, whether it succeeded or failed.
pub open spec fn store_after(r: Evaluated) -> Vars {
    match r {
        Ok(m) => m,
        Err((_, m)) => m,
    }
}

/// The result of running `p` from store `st`. An assignment that fails
/// leaves the store as it was; a sequence whose left part fails leaves the
/// store that the left part left.
pub open spec fn eval(c: Config, p: Prog, st: Vars) -> Evaluated
    decreases p, 1int, 0int,
{
    match p {
        Prog::Then(l, r) => match eval(c, *l, st) {
            Ok(st1) => eval(c, *r, st1),
            Err(e) => Err(e),
        },
        Prog::Assign(t, a) => match read(st, a) {
            Ok(x) => Ok(st.insert(t, x)),
            Err(v) => Err((Fault::Unassigned(v), st)),
        },
        Prog::Operate(t, a, op, b) => match read(st, a) {
            Err(v) => Err((Fault::Unassigned(v), st)),
            Ok(x) => match read(st, b) {
                Err(v) => Err((Fault::Unassigned(v), st)),
                Ok(y) => match apply(c, op, x, y, t) {
                    Ok(z) => Ok(st.insert(t, z)),
                    Err(f) => Err((f, st)),
                },
            },
        },
        Prog::Loop(_, _) => eval_loop(c, p, st, 0),
    }
}

/// The result of the loop `w` from store `st`, after its body has run `n`
/// times.
pub open spec fn eval_loop(c: Config, w: Prog, st: Vars, n: nat) -> Evaluated
    decreases w, 0int, MAX_ITERATIONS - n,
{
    match w {
        Prog::Loop(cv, body) => if !st.contains_key(cv) {
            Err((Fault::Unassigned(cv), st))
        } else if st[cv] == 0 {
            Ok(st)
        } else if n >= MAX_ITERATIONS {
            Err((Fault::MaxLoops, st))
        } else {
            match eval(c, *body, st) {
                Ok(st1) => eval_loop(c, w, st1, n + 1),
                Err(e) => Err(e),
            }
        },
        _ => Ok(st),
    }
}

/// The names that assignments in `p` write to.
pub open spec fn targets(p: Prog) -> Set<Seq<char>>
    decreases p,
{
    match p {
        Prog::Then(l, r) => targets(*l) + targets(*r),
        Prog::Operate(t, _, _, _) => set![t],
        Prog::Assign(t, _) => set![t],
        Prog::Loop(_, body) => targets(*body),
    }
}

/// `after` keeps every name of `before`, and agrees with it on every name
/// outside `ts`.
pub open spec fn framed(before: Vars, after: Vars, ts: Set<Seq<char>>) -> bool {
    forall|k: Seq<char>|
        #![trigger after.contains_key(k)]
        #![trigger before.contains_key(k)]
        (before.contains_key(k) ==> after.contains_key(k)) && (!ts.contains(k) ==> (
        after.contains_key(k) == before.contains_key(k) && (before.contains_key(k) ==> after[k]
            == before[k])))
}

proof fn lemma_framed_chain(a: Vars, b: Vars, m: Vars, ts: Set<Seq<char>>, us: Set<Seq<char>>)
    requires
        framed(a, b, ts),
        framed(b, m, us),
    ensures
        framed(a, m, ts + us),
{
    assert forall|k: Seq<char>| #[trigger] a.contains_key(k) implies m.contains_key(k) by {
        assert(b.contains_key(k));
    }
    assert forall|k: Seq<char>| !(ts + us).contains(k) implies (m.contains_key(k)
        == a.contains_key(k) && (a.contains_key(k) ==> m[k] == a[k])) by {
        assert(b.contains_key(k) == a.contains_key(k));
        assert(m.contains_key(k) == b.contains_key(k));
    }
}

/// A run, whether it succeeds or fails, removes no name from the store and
/// changes no name that no assignment in the program writes to.
pub proof fn lemma_eval_frame(c: Config, p: Prog, st: Vars)
    ensures
        framed(st, store_after(eval(c, p, st)), targets(p)),
    decreases p, 1int, 0int,
{
    match p {
        Prog::Then(l, r) => {
            lemma_eval_frame(c, *l, st);
            match eval(c, *l, st) {
                Ok(st1) => {
                    lemma_eval_frame(c, *r, st1);
                    lemma_framed_chain(st, st1, store_after(eval(c, *r, st1)), targets(*l), targets(*r));
                },
                Err(_) => {
                    lemma_framed_chain(st, store_after(eval(c, p, st)), store_after(eval(c, p, st)), targets(*l), targets(*r));
                },
            }
        },
        Prog::Loop(_, _) => {
            lemma_loop_frame(c, p, st, 0);
        },
        _ => {},
    }
}

proof fn lemma_loop_frame(c: Config, w: Prog, st: Vars, n: nat)
    ensures
        framed(st, store_after(eval_loop(c, w, st, n)), targets(w)),
    decreases w, 0int, MAX_ITERATIONS - n,
{
    if let Prog::Loop(cv, body) = w {
        if st.contains_key(cv) && st[cv] != 0 && n < MAX_ITERATIONS {
            lemma_eval_frame(c, *body, st);
            match eval(c, *body, st) {
                Ok(st1) => {
                    lemma_loop_frame(c, w, st1, n + 1);
                    lemma_framed_chain(st, st1, store_after(eval_loop(c, w, st1, n + 1)), targets(*body), targets(w));
                    assert(targets(*body) + targets(w) == targets(w));
                },
                Err(_) => {},
            }
        }
    }
}

/// The value of an operand in the store.
fn operand_value(a: &Value, state: &VarStore) -> (r: Result<u64, RuntimeError>)
    requires
        state.wf(),
    ensures
        match read(state@, a@) {
            Ok(x) => r == Ok::<u64, RuntimeError>(x),
            Err(v) => r matches Err(e) && e@ == Fault::Unassigned(v),
        },
{
    match a {
        Value::Variable(v) => match state.get(v.as_str()) {
            Some(x) => Ok(x),
            None => Err(RuntimeError::UnassignedVariable(v.clone())),
        },
        Value::Constant(c) => Ok(*c),
    }
}

/// Runs `prog` on `state`. On success `state` holds the store after it.
#[verifier::loop_isolation(false)]
pub fn run_with_state(config: &Config, prog: &Statement, state: &mut VarStore) -> (r: Result<
    (),
    RuntimeError,
>)
    requires
        old(state).wf(),
    ensures
        final(state).wf(),
        match eval(*config, prog@, old(state)@) {
            Ok(m) => r is Ok && final(state)@ == m,
            Err((f, m)) => r matches Err(e) && e@ == f && final(state)@ == m,
        },
        framed(old(state)@, final(state)@, targets(prog@)),
    decreases prog,
{
    proof {
        lemma_eval_frame(*config, prog@, old(state)@);
    }
    match prog {
        Statement::S(left, right) => {
            match run_with_state(config, left, state) {
                Ok(()) => {},
                Err(e) => {
                    return Err(e);
                },
            }
            run_with_state(config, right, state)
        },
        Statement::DeclareConst(target, a) => {
            let x = match operand_value(a, state) {
                Ok(x) => x,
                Err(e) => {
                    return Err(e);
                },
            };
            state.set(target.as_str(), x);
            Ok(())
        },
        Statement::DeclareOperation(target, a, op, b) => {
            let x = match operand_value(a, state) {
                Ok(x) => x,
                Err(e) => {
                    return Err(e);
                },
            };
            let y = match operand_value(b, state) {
                Ok(y) => y,
                Err(e) => {
                    return Err(e);
                },
            };
            let z = match op {
                Operator::Add => match x.checked_add(y) {
                    Some(z) => z,
                    None => {
                        return Err(RuntimeError::VariableOverflow(target.clone()));
                    },
                },
                Operator::Multiply => match x.checked_mul(y) {
                    Some(z) => z,
                    None => {
                        return Err(RuntimeError::VariableOverflow(target.clone()));
                    },
                },
                Operator::Subtract => match x.checked_sub(y) {
                    Some(z) => z,
                    None => {
                        if !config.allow_underflow {
                            return Err(RuntimeError::VariableUnderflow(target.clone()));
                        }
                        0
                    },
                },
            };
            state.set(target.as_str(), z);
            Ok(())
        },
        Statement::While(cv, body) => {
            let ghost start = state@;
            let mut i: usize = 0;
            while i <= MAX_ITERATIONS
                invariant
                    state.wf(),
                    i <= MAX_ITERATIONS,
                    start == old(state)@,
                    prog@ == Prog::Loop(cv@, Box::new((**body)@)),
                    eval(*config, prog@, start) == eval_loop(*config, prog@, state@, i as nat),
                decreases MAX_ITERATIONS + 1 - i,
            {
                match state.get(cv.as_str()) {
                    None => {
                        return Err(RuntimeError::UnassignedVariable(cv.clone()));
                    },
                    Some(0) => {
                        return Ok(());
                    },
                    Some(_) => {},
                }
                if i >= MAX_ITERATIONS {
                    return Err(RuntimeError::MaxLoopsReached);
                }
                match run_with_state(config, body, state) {
                    Ok(()) => {},
                    Err(e) => {
                        return Err(e);
                    },
                }
                i = i + 1;
            }
            Err(RuntimeError::MaxLoopsReached)
        },
    }
}

/// Runs `prog` from an empty store and returns the store after it.
pub fn run(config: &Config, prog: &Statement) -> (r: Result<VarStore, RuntimeError>)
    ensures
        match eval(*config, prog@, Map::empty()) {
            Ok(m) => r matches Ok(s) && s.wf() && s@ == m,
            Err((f, _)) => r matches Err(e) && e@ == f,
        },
{
    let mut state = VarStore::new();
    match run_with_state(config, prog, &mut state) {
        Ok(()) => Ok(state),
        Err(e) => Err(e),
    }
}

/// The store after running `body` `k` times in a row from `st`, with no test
/// between the runs.
pub open spec fn repeat(c: Config, body: Prog, st: Vars, k: nat) -> Evaluated
    decreases k,
{
    if k == 0 {
        Ok(st)
    } else {
        match repeat(c, body, st, (k - 1) as nat) {
            Ok(s1) => eval(c, body, s1),
            Err(e) => Err(e),
        }
    }
}

/// `k` runs of `body` from `st` succeed and leave `cv` assigned and not zero.
pub open spec fn keeps_going(
    c: Config,
    body: Prog,
    cv: Seq<char>,
    st: Map<Seq<char>, u64>,
    k: nat,
) -> bool {
    repeat(c, body, st, k) matches Ok(s) && s.contains_key(cv) && s[cv] != 0
}

proof fn lemma_loop_unrolls(c: Config, cv: Seq<char>, body: Prog, st: Map<Seq<char>, u64>, j: nat)
    requires
        j <= MAX_ITERATIONS,
        forall|k: nat| k < j ==> #[trigger] keeps_going(c, body, cv, st, k),
        repeat(c, body, st, j) is Ok,
    ensures
        eval(c, Prog::Loop(cv, Box::new(body)), st) == eval_loop(
            c,
            Prog::Loop(cv, Box::new(body)),
            repeat(c, body, st, j)->Ok_0,
            j,
        ),
    decreases j,
{
    let w = Prog::Loop(cv, Box::new(body));
    if j > 0 {
        let p = (j - 1) as nat;
        assert(keeps_going(c, body, cv, st, p));
        lemma_loop_unrolls(c, cv, body, st, p);
        let s = repeat(c, body, st, p)->Ok_0;
        assert(eval_loop(c, w, s, p) == eval_loop(c, w, repeat(c, body, st, j)->Ok_0, j));
    }
}

/// A loop whose body, run up to `MAX_ITERATIONS` times from the start store,
/// never brings its control variable to zero fails with `MaxLoops`: it has run
/// the body exactly `MAX_ITERATIONS` times, and fails on the next test of the
/// variable, leaving the store after those runs.
pub proof fn lemma_loop_ceiling(c: Config, cv: Seq<char>, body: Prog, st: Map<Seq<char>, u64>)
    requires
        forall|k: nat| k <= MAX_ITERATIONS ==> #[trigger] keeps_going(c, body, cv, st, k),
    ensures
        eval(c, Prog::Loop(cv, Box::new(body)), st) == Err::<Vars, (Fault, Vars)>(
            (Fault::MaxLoops, repeat(c, body, st, MAX_ITERATIONS as nat)->Ok_0),
        ),
{
    assert(keeps_going(c, body, cv, st, MAX_ITERATIONS as nat));
    lemma_loop_unrolls(c, cv, body, st, MAX_ITERATIONS as nat);
}

/// A loop whose control variable is zero for the first time after `n` runs of
/// the body, with `n` at most `MAX_ITERATIONS`, ends with the store after
/// those `n` runs.
pub proof fn lemma_loop_within_ceiling(
    c: Config,
    cv: Seq<char>,
    body: Prog,
    st: Map<Seq<char>, u64>,
    n: nat,
)
    requires
        n <= MAX_ITERATIONS,
        forall|k: nat| k < n ==> #[trigger] keeps_going(c, body, cv, st, k),
        repeat(c, body, st, n) matches Ok(s) && s.contains_key(cv) && s[cv] == 0,
    ensures
        eval(c, Prog::Loop(cv, Box::new(body)), st) == repeat(c, body, st, n),
{
    lemma_loop_unrolls(c, cv, body, st, n);
}

} // verus!
