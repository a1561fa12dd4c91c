//! The shift-reduce engine. Rules are (predicate, reducer) pairs supplied by
//! the client and tried in registration order: the first whose predicate
//! holds on the stack is applied; with none, one input value is shifted;
//! with no input either, the parse stops and the reduced values on the stack
//! are moved to `output`.
use vstd::prelude::*;

verus! {

/// An entry of the parser's input or stack: an input value not yet
/// reduced, or a value that a reduction produced.
#[derive(Debug)]
pub enum ParseValue<T, N> {
    Token(T),
    Reduced(N),
}

#[derive(Debug)]
pub enum ParseError {
    /// A shift with no input left, or a reduction that needed more of the stack.
    EOF,
    /// No action could be determined.
    NoActions,
    /// A rule index outside the registered rules.
    InvalidReduction(usize),
    /// A reducer found an entry that its own pattern does not accept.
    InvalidToken,
    /// Reserved for an action that is not implemented.
    NotImpl,
}

/// What the parser does next.
pub enum ParseAction {
    Reduce(usize),
    Shift,
    Stop,
}

/// The values of the `Reduced` entries of `s`, in stack order.
pub open spec fn reduced_of<T, N>(s: Seq<ParseValue<T, N>>) -> Seq<N>
    decreases s.len(),
{
    if s.len() == 0 {
        seq![]
    } else {
        let before = reduced_of(s.drop_last());
        match s.last() {
            ParseValue::Reduced(n) => before.push(n),
            ParseValue::Token(_) => before,
        }
    }
}

/// `a` is the action that the rules dictate on `stack` with `pending`
/// input values left: the first rule whose predicate answered `true`, all
/// earlier ones having answered `false`; otherwise a shift if there is input,
/// and a stop if there is none.
pub open spec fn chosen<T, N, C, R>(
    rules: Seq<(C, R)>,
    stack: Vec<ParseValue<T, N>>,
    pending: nat,
    a: ParseAction,
) -> bool where C: Fn(&Vec<ParseValue<T, N>>) -> bool {
    match a {
        ParseAction::Reduce(i) => {
            &&& i < rules.len()
            &&& call_ensures(rules[i as int].0, (&stack,), true)
            &&& forall|j: int| 0 <= j < i ==> call_ensures(#[trigger] rules[j].0, (&stack,), false)
        },
        ParseAction::Shift => {
            &&& forall|j: int|
                0 <= j < rules.len() ==> call_ensures(#[trigger] rules[j].0, (&stack,), false)
            &&& pending > 0
        },
        ParseAction::Stop => {
            &&& forall|j: int|
                0 <= j < rules.len() ==> call_ensures(#[trigger] rules[j].0, (&stack,), false)
            &&& pending == 0
        },
    }
}

/// Rule `k`'s predicate can only accept `stack`, and the predicate of every
/// rule before it can only refuse it.
pub open spec fn first_sure<T, N, C, R>(
    rules: Seq<(C, R)>,
    stack: Vec<ParseValue<T, N>>,
    k: int,
) -> bool where C: Fn(&Vec<ParseValue<T, N>>) -> bool {
    &&& 0 <= k < rules.len()
    &&& forall|b: bool| #[trigger] call_ensures(rules[k].0, (&stack,), b) ==> b
    &&& forall|j: int, b: bool|
        0 <= j < k && #[trigger] call_ensures(rules[j].0, (&stack,), b) ==> !b
}

/// After a reducer left the stack as `left` and returned `res`, the engine
/// has the stack `after` and reports `r`: the returned value is pushed, or
/// the reducer's error is passed on.
pub open spec fn pushed<T, N>(
    left: Vec<ParseValue<T, N>>,
    res: Result<ParseValue<T, N>, ParseError>,
    after: Vec<ParseValue<T, N>>,
    r: Result<(), ParseError>,
) -> bool {
    match res {
        Ok(v) => r is Ok && after@ == left@.push(v),
        Err(e) => r == Err::<(), ParseError>(e) && after == left,
    }
}

/// The shift-reduce engine.
pub struct Parser<T, N, C, R> {
    input: Vec<T>,
    pstack: Vec<ParseValue<T, N>>,
    pub output: Vec<N>,
    reductions: Vec<(C, R)>,
    stopped: bool,
}

impl<T, N, C, R> Parser<T, N, C, R> where
    C: Fn(&Vec<ParseValue<T, N>>) -> bool,
    R: Fn(&mut Vec<ParseValue<T, N>>) -> Result<ParseValue<T, N>, ParseError>,
 {
    /// The input values still to be shifted; the last is shifted first.
    pub closed spec fn input(&self) -> Seq<T> {
        self.input@
    }

    /// The stack, bottom entry first.
    pub closed spec fn stack(&self) -> Vec<ParseValue<T, N>> {
        self.pstack
    }

    /// The values produced so far.
    pub closed spec fn outputs(&self) -> Seq<N> {
        self.output@
    }

    /// Whether the last step stopped the parse, with no shift, reduction or
    /// new input since.
    pub closed spec fn stopped(&self) -> bool {
        self.stopped
    }

    /// The registered rules, in registration order.
    pub closed spec fn rules(&self) -> Seq<(C, R)> {
        self.reductions@
    }

    /// Every predicate and every reducer may be called on any stack.
    pub open spec fn callable(&self) -> bool {
        &&& forall|i: int, s: &Vec<ParseValue<T, N>>|
            0 <= i < self.rules().len() ==> #[trigger] call_requires(self.rules()[i].0, (s,))
        &&& forall|i: int, s: &mut Vec<ParseValue<T, N>>|
            0 <= i < self.rules().len() ==> #[trigger] call_requires(self.rules()[i].1, (s,))
    }

    /// A parser over `input`, whose last value is shifted first, with an
    /// empty stack, no output and no rules.
    pub fn new(input: Vec<T>) -> (p: Parser<T, N, C, R>)
        ensures
            p.input() == input@,
            p.stack()@ == Seq::<ParseValue<T, N>>::empty(),
            p.outputs() == Seq::<N>::empty(),
            p.rules() == Seq::<(C, R)>::empty(),
            !p.stopped(),
            p.callable(),
    {
        Parser {
            input,
            pstack: Vec::new(),
            output: Vec::new(),
            reductions: Vec::new(),
            stopped: false,
        }
    }

    /// Feeds more input. It is shifted after what is left of the earlier
    /// input, so `new_input` goes in front of the remaining values.
    pub fn push_input(&mut self, new_input: Vec<T>)
        ensures
            final(self).input() == new_input@ + old(self).input(),
            final(self).stack() == old(self).stack(),
            final(self).outputs() == old(self).outputs(),
            final(self).rules() == old(self).rules(),
            !final(self).stopped(),
    {
        let mut new_vec = new_input;
        new_vec.append(&mut self.input);
        self.input = new_vec;
        self.stopped = false;
    }

    /// Moves the last input value onto the stack as a `Token`; fails with
    /// `EOF`, changing nothing, when there is no input.
    fn shift(&mut self) -> (r: Result<(), ParseError>)
        ensures
            old(self).input().len() == 0 ==> {
                &&& r matches Err(ParseError::EOF)
                &&& final(self).input() == old(self).input()
                &&& final(self).stack() == old(self).stack()
                &&& final(self).stopped() == old(self).stopped()
            },
            final(self).outputs() == old(self).outputs(),
            final(self).rules() == old(self).rules(),
            old(self).input().len() > 0 ==> {
                &&& r is Ok
                &&& final(self).input() == old(self).input().drop_last()
                &&& final(self).stack()@ == old(self).stack()@.push(
                    ParseValue::Token(old(self).input().last()),
                )
                &&& !final(self).stopped()
            },
    {
        match self.input.pop() {
            Some(val) => {
                self.pstack.push(ParseValue::Token(val));
                self.stopped = false;
                Ok(())
            },
            None => Err(ParseError::EOF),
        }
    }

    /// The stack, bottom entry first.
    pub fn current_stack(&self) -> (s: &Vec<ParseValue<T, N>>)
        ensures
            *s == self.stack(),
    {
        &self.pstack
    }

    /// Registers a rule; it is tried after all rules registered before it.
    pub fn add_rule(&mut self, checker: C, reduction: R)
        requires
            old(self).callable(),
            forall|s: &Vec<ParseValue<T, N>>| call_requires(checker, (s,)),
            forall|s: &mut Vec<ParseValue<T, N>>| call_requires(reduction, (s,)),
        ensures
            final(self).rules() == old(self).rules().push((checker, reduction)),
            final(self).input() == old(self).input(),
            final(self).stack() == old(self).stack(),
            final(self).outputs() == old(self).outputs(),
            final(self).stopped() == old(self).stopped(),
            final(self).callable(),
    {
        self.reductions.push((checker, reduction));
        assert forall|i: int, s: &Vec<ParseValue<T, N>>|
            0 <= i < self.rules().len() implies #[trigger] call_requires(self.rules()[i].0, (s,)) by {
            if i < old(self).rules().len() {
                assert(self.rules()[i] == old(self).rules()[i]);
            }
        }
        assert forall|i: int, s: &mut Vec<ParseValue<T, N>>|
            0 <= i < self.rules().len() implies #[trigger] call_requires(
                self.rules()[i].1,
                (s,),
            ) by {
            if i < old(self).rules().len() {
                assert(self.rules()[i] == old(self).rules()[i]);
            }
        }
    }

    /// Runs the reducer of rule `idx` on the stack and pushes the value it
    /// returns; its error, or `InvalidReduction` for an index outside the
    /// rules, is passed on.
    fn reduce(&mut self, idx: usize) -> (r: Result<(), ParseError>)
        requires
            old(self).callable(),
        ensures
            idx >= old(self).rules().len() ==> (r matches Err(ParseError::InvalidReduction(i))
                && i == idx && final(self).stack() == old(self).stack()),
            idx < old(self).rules().len() ==> exists|m: &mut Vec<ParseValue<T, N>>, res|
                mut_ref_current(m) == old(self).stack() && #[trigger] call_ensures(
                    old(self).rules()[idx as int].1,
                    (m,),
                    res,
                ) && pushed(mut_ref_future(m), res, final(self).stack(), r),
            idx < old(self).rules().len() ==> !final(self).stopped(),
            final(self).input() == old(self).input(),
            final(self).outputs() == old(self).outputs(),
            final(self).rules() == old(self).rules(),
    {
        if idx >= self.reductions.len() {
            return Err(ParseError::InvalidReduction(idx));
        }
        self.stopped = false;
        let reduction = &self.reductions[idx].1;
        let ghost before = self.pstack;
        let res = reduction(&mut self.pstack);
        let ghost left = self.pstack;
        assert(exists|m: &mut Vec<ParseValue<T, N>>|
            mut_ref_current(m) == before && mut_ref_future(m) == left && #[trigger] call_ensures(
                *reduction,
                (m,),
                res,
            ));
        match res {
            Ok(v) => {
                self.pstack.push(v);
                Ok(())
            },
            Err(e) => Err(e),
        }
    }

    /// The rule to apply, or else a shift, or else a stop.
    fn determine_action(&self) -> (a: ParseAction)
        requires
            self.callable(),
        ensures
            chosen(self.rules(), self.stack(), self.input().len(), a),
            // the earliest rule whose predicate can only accept is applied
            // where every rule before it can only refuse
            forall|k: int|
                #[trigger] first_sure(self.rules(), self.stack(), k) ==> a == ParseAction::Reduce(
                    k as usize,
                ),
    {
        let mut i: usize = 0;
        while i < self.reductions.len()
            invariant
                i <= self.rules().len(),
                self.callable(),
                forall|j: int|
                    0 <= j < i ==> call_ensures(
                        #[trigger] self.rules()[j].0,
                        (&self.stack(),),
                        false,
                    ),
            decreases self.rules().len() - i,
        {
            let checker = &self.reductions[i].0;
            if checker(&self.pstack) {
                let a = ParseAction::Reduce(i);
                proof {
                    self.lemma_earliest_sure_rule(a);
                }
                return a;
            }
            i += 1;
        }
        let a = if self.input.len() > 0 {
            ParseAction::Shift
        } else {
            ParseAction::Stop
        };
        proof {
            self.lemma_earliest_sure_rule(a);
        }
        a
    }

    proof fn lemma_earliest_sure_rule(&self, a: ParseAction)
        requires
            chosen(self.rules(), self.stack(), self.input().len(), a),
        ensures
            forall|k: int|
                #[trigger] first_sure(self.rules(), self.stack(), k) ==> a == ParseAction::Reduce(
                    k as usize,
                ),
    {
        assert forall|k: int| #[trigger]
            first_sure(self.rules(), self.stack(), k) implies a == ParseAction::Reduce(
                k as usize,
            ) by {
            match a {
                ParseAction::Reduce(i) => {
                    assert(call_ensures(self.rules()[i as int].0, (&self.stack(),), true));
                    if i > k {
                        assert(call_ensures(self.rules()[k].0, (&self.stack(),), false));
                    }
                },
                _ => {
                    assert(call_ensures(self.rules()[k].0, (&self.stack(),), false));
                },
            }
        }
    }

    /// Empties the stack onto the end of `output`, keeping the `Reduced`
    /// values in stack order and dropping the `Token` entries.
    fn drain_stack(&mut self)
        ensures
            final(self).stack()@ == Seq::<ParseValue<T, N>>::empty(),
            final(self).outputs() == old(self).outputs() + reduced_of(old(self).stack()@),
            final(self).input() == old(self).input(),
            final(self).rules() == old(self).rules(),
            final(self).stopped() == old(self).stopped(),
    {
        let ghost entries = self.pstack@;
        let ghost before = self.output@;
        let mut remaining: Vec<ParseValue<T, N>> = Vec::new();
        std::mem::swap(&mut remaining, &mut self.pstack);
        let mut reversed: Vec<ParseValue<T, N>> = Vec::new();
        while remaining.len() > 0
            invariant
                remaining@ == entries.subrange(0, remaining@.len() as int),
                reversed@.len() + remaining@.len() == entries.len(),
                forall|j: int|
                    0 <= j < reversed@.len() ==> #[trigger] reversed@[j] == entries[entries.len()
                        - 1 - j],
            decreases remaining@.len(),
        {
            let v = remaining.pop().unwrap();
            reversed.push(v);
        }
        assert(reduced_of(entries.subrange(0, 0)) =~= Seq::<N>::empty());
        while reversed.len() > 0
            invariant
                reversed@.len() <= entries.len(),
                forall|j: int|
                    0 <= j < reversed@.len() ==> #[trigger] reversed@[j] == entries[entries.len()
                        - 1 - j],
                self.output@ == before + reduced_of(
                    entries.subrange(0, entries.len() - reversed@.len()),
                ),
                self.pstack@ == Seq::<ParseValue<T, N>>::empty(),
                self.input() == old(self).input(),
                self.rules() == old(self).rules(),
                self.stopped == old(self).stopped,
            decreases reversed@.len(),
        {
            let ghost done = entries.len() - reversed@.len();
            let v = reversed.pop().unwrap();
            assert(entries.subrange(0, done + 1).drop_last() =~= entries.subrange(0, done));
            match v {
                ParseValue::Reduced(n) => {
                    self.output.push(n);
                },
                ParseValue::Token(_) => {},
            }
            assert(self.output@ =~= before + reduced_of(entries.subrange(0, done + 1)));
        }
        assert(entries.subrange(0, entries.len() as int) =~= entries);
    }

    /// Takes one action: reduces by the first rule whose predicate holds,
    /// else shifts an input value, else stops. `Ok(true)` means progress
    /// was made, `Ok(false)` that the parse stopped and `output` received the
    /// reduced values of the stack in place of what it held before. A stop that
/// follows a stop, with no shift, reduction or new input between, leaves
/// `output` as it is.
    pub fn step(&mut self) -> (r: Result<bool, ParseError>)
        requires
            old(self).callable(),
        ensures
            steps_to(*old(self), *final(self), r),
            final(self).callable(),
            // where it reduces, the rule's reducer ran on the stack, and what
            // it returned was pushed onto what it left, or became the error
            exists|a: ParseAction|
                #[trigger] chosen(old(self).rules(), old(self).stack(), old(self).input().len(), a)
                    && performed(*old(self), a, *final(self), r) && (a matches ParseAction::Reduce(
                    i,
                ) ==> exists|m: &mut Vec<ParseValue<T, N>>, res|
                    mut_ref_current(m) == old(self).stack() && #[trigger] call_ensures(
                        old(self).rules()[i as int].1,
                        (m,),
                        res,
                    ) && pushed(
                        mut_ref_future(m),
                        res,
                        final(self).stack(),
                        match r {
                            Ok(_) => Ok(()),
                            Err(e) => Err(e),
                        },
                    )),
    {
        let action = self.determine_action();
        match action {
            ParseAction::Shift => match self.shift() {
                Ok(()) => Ok(true),
                Err(e) => Err(e),
            },
            ParseAction::Reduce(n) => match self.reduce(n) {
                Ok(()) => Ok(true),
                Err(e) => Err(e),
            },
            ParseAction::Stop => {
                if !self.stopped {
                    self.output = Vec::new();
                }
                self.drain_stack();
                self.stopped = true;
                Ok(false)
            },
        }
    }
}

/// The predicate of a wrap-through rule: the top of the stack is an input
/// value not yet reduced.
pub fn token_on_top<T, N>(stack: &Vec<ParseValue<T, N>>) -> (r: bool)
    ensures
        r == (stack@.len() > 0 && stack@.last() is Token),
{
    if stack.len() == 0 {
        false
    } else {
        match &stack[stack.len() - 1] {
            ParseValue::Token(_) => true,
            ParseValue::Reduced(_) => false,
        }
    }
}

/// The reducer of a wrap-through rule: pops the top entry and returns the
/// input value it holds converted into a node. Fails with `EOF` on an empty
/// stack, which it leaves alone, and with `InvalidToken` where the popped
/// entry was already reduced.
pub fn wrap_through<T, N: From<T>>(stack: &mut Vec<ParseValue<T, N>>) -> (r: Result<
    ParseValue<T, N>,
    ParseError,
>)
    ensures
        old(stack)@.len() == 0 ==> (r matches Err(ParseError::EOF) && final(stack)@ == old(
            stack,
        )@),
        old(stack)@.len() > 0 ==> final(stack)@ == old(stack)@.drop_last(),
        old(stack)@.len() > 0 ==> match old(stack)@.last() {
            ParseValue::Token(t) => r matches Ok(ParseValue::Reduced(n)) && call_ensures(
                N::from,
                (t,),
                n,
            ),
            ParseValue::Reduced(_) => r matches Err(ParseError::InvalidToken),
        },
{
    match stack.pop() {
        None => Err(ParseError::EOF),
        Some(ParseValue::Token(t)) => Ok(ParseValue::Reduced(N::from(t))),
        Some(ParseValue::Reduced(_)) => Err(ParseError::InvalidToken),
    }
}

/// What taking the action `a` from `p` does, giving `q` and the result `r`
/// of the step. A reduction leaves input and output alone; what it does to
/// the stack `step` states on its own, as it speaks of the reducer's call.
pub open spec fn performed<T, N, C, R>(
    p: Parser<T, N, C, R>,
    a: ParseAction,
    q: Parser<T, N, C, R>,
    r: Result<bool, ParseError>,
) -> bool where
    C: Fn(&Vec<ParseValue<T, N>>) -> bool,
    R: Fn(&mut Vec<ParseValue<T, N>>) -> Result<ParseValue<T, N>, ParseError>,
 {
    &&& q.rules() == p.rules()
    &&& match a {
        ParseAction::Shift => {
            &&& r == Ok::<bool, ParseError>(true)
            &&& q.input() == p.input().drop_last()
            &&& q.stack()@ == p.stack()@.push(ParseValue::Token(p.input().last()))
            &&& q.outputs() == p.outputs()
            &&& !q.stopped()
        },
        ParseAction::Reduce(i) => {
            &&& r is Ok ==> r == Ok::<bool, ParseError>(true)
            &&& q.input() == p.input()
            &&& q.outputs() == p.outputs()
            &&& !q.stopped()
        },
        ParseAction::Stop => {
            &&& r == Ok::<bool, ParseError>(false)
            &&& q.input() == p.input()
            &&& q.stack()@ == Seq::<ParseValue<T, N>>::empty()
            &&& q.outputs() == stop_output(p)
            &&& q.stopped()
        },
    }
}

/// What `output` holds after a stop from `p`: the reduced values of the
/// stack in stack order, following what `output` held only where `p` had
/// itself just stopped (its stack is then empty, so nothing changes).
pub open spec fn stop_output<T, N, C, R>(p: Parser<T, N, C, R>) -> Seq<N> where
    C: Fn(&Vec<ParseValue<T, N>>) -> bool,
    R: Fn(&mut Vec<ParseValue<T, N>>) -> Result<ParseValue<T, N>, ParseError>,
 {
    if p.stopped() {
        p.outputs() + reduced_of(p.stack()@)
    } else {
        reduced_of(p.stack()@)
    }
}

/// One call of `step` on `p` gives `q` and returns `r`: the action the rules
/// dictate is taken.
pub open spec fn steps_to<T, N, C, R>(
    p: Parser<T, N, C, R>,
    q: Parser<T, N, C, R>,
    r: Result<bool, ParseError>,
) -> bool where
    C: Fn(&Vec<ParseValue<T, N>>) -> bool,
    R: Fn(&mut Vec<ParseValue<T, N>>) -> Result<ParseValue<T, N>, ParseError>,
 {
    exists|a: ParseAction|
        #[trigger] chosen(p.rules(), p.stack(), p.input().len(), a) && performed(p, a, q, r)
}

/// Of two rules whose predicates both accept the stack, the later one is
/// never applied: the engine reduces by the earlier one, or by a rule
/// registered before both, and by the earlier one exactly when no rule
/// before it accepts.
pub proof fn lemma_first_rule_wins<T, N, C, R>(
    rules: Seq<(C, R)>,
    stack: Vec<ParseValue<T, N>>,
    pending: nat,
    a: ParseAction,
    i: int,
    j: int,
) where C: Fn(&Vec<ParseValue<T, N>>) -> bool
    requires
        chosen(rules, stack, pending, a),
        0 <= i < j < rules.len(),
        forall|b: bool| call_ensures(rules[i].0, (&stack,), b) ==> b,
        forall|b: bool| call_ensures(rules[j].0, (&stack,), b) ==> b,
    ensures
        a matches ParseAction::Reduce(k) && k <= i && k != j,
        (forall|m: int, b: bool|
            0 <= m < i && #[trigger] call_ensures(rules[m].0, (&stack,), b) ==> !b) ==> a
            == ParseAction::Reduce(i as usize),
{
    if let ParseAction::Reduce(k) = a {
        if k > i {
            assert(call_ensures(rules[i].0, (&stack,), false));
        }
    } else {
        assert(call_ensures(rules[i].0, (&stack,), false));
    }
}

/// Once a step stops a parse that had not just stopped, `output` holds
/// exactly the reduced values of the stack in stack order, and the next step
/// leaves it as it is. Where no rule accepts the emptied stack, that step
/// stops again and changes nothing.
pub proof fn lemma_output_stable_after_stop<T, N, C, R>(
    p0: Parser<T, N, C, R>,
    p1: Parser<T, N, C, R>,
    p2: Parser<T, N, C, R>,
    r2: Result<bool, ParseError>,
) where
    C: Fn(&Vec<ParseValue<T, N>>) -> bool,
    R: Fn(&mut Vec<ParseValue<T, N>>) -> Result<ParseValue<T, N>, ParseError>,

    requires
        steps_to(p0, p1, Ok(false)),
        steps_to(p1, p2, r2),
    ensures
        !p0.stopped() ==> p1.outputs() == reduced_of(p0.stack()@),
        p1.stopped(),
        p1.stack()@ == Seq::<ParseValue<T, N>>::empty(),
        p1.input().len() == 0,
        p2.outputs() == p1.outputs(),
        (forall|m: int, b: bool|
            0 <= m < p1.rules().len() && #[trigger] call_ensures(p1.rules()[m].0, (&p1.stack(),), b)
                ==> !b) ==> {
            &&& r2 == Ok::<bool, ParseError>(false)
            &&& p2.stack()@ == p1.stack()@
            &&& p2.input() == p1.input()
        },
{
    let a1 = choose|a: ParseAction|
        #[trigger] chosen(p0.rules(), p0.stack(), p0.input().len(), a) && performed(
            p0,
            a,
            p1,
            Ok(false),
        );
    assert(a1 == ParseAction::Stop);
    let a2 = choose|a: ParseAction|
        #[trigger] chosen(p1.rules(), p1.stack(), p1.input().len(), a) && performed(p1, a, p2, r2);
    assert(reduced_of(p1.stack()@) =~= Seq::<N>::empty());
    assert(p1.outputs() + Seq::<N>::empty() =~= p1.outputs());
    if forall|m: int, b: bool|
        0 <= m < p1.rules().len() && #[trigger] call_ensures(p1.rules()[m].0, (&p1.stack(),), b)
            ==> !b {
        if let ParseAction::Reduce(k) = a2 {
            assert(call_ensures(p1.rules()[k as int].0, (&p1.stack(),), true));
        }
    }
}

/// Where every predicate gives one definite answer on the stack (`answers`),
/// the action is the reduction by the earliest rule that answers `true`,
/// whatever input is left.
pub proof fn lemma_earliest_accepting_rule<T, N, C, R>(
    rules: Seq<(C, R)>,
    stack: Vec<ParseValue<T, N>>,
    pending: nat,
    a: ParseAction,
    answers: Seq<bool>,
    k: int,
) where C: Fn(&Vec<ParseValue<T, N>>) -> bool
    requires
        chosen(rules, stack, pending, a),
        answers.len() == rules.len(),
        forall|j: int, b: bool|
            0 <= j < rules.len() && #[trigger] call_ensures(rules[j].0, (&stack,), b) ==> b
                == answers[j],
        0 <= k < rules.len(),
        answers[k],
        forall|j: int| 0 <= j < k ==> !answers[j],
    ensures
        a == ParseAction::Reduce(k as usize),
{
    match a {
        ParseAction::Reduce(i) => {
            assert(call_ensures(rules[i as int].0, (&stack,), true));
            if i > k {
                assert(call_ensures(rules[k].0, (&stack,), false));
            }
        },
        _ => {
            assert(call_ensures(rules[k].0, (&stack,), false));
        },
    }
}

} // verus!
