//! Runtime state: sequence runners, macro runners and the keyboard state that
//! binds key presses to running macros and advances them as time is ticked.
use vstd::prelude::*;

use crate::profile::{
    Action, ActionEvent, Channel, DeviceKey, DeviceKeyLayer, KeyId, KeyboardProfile, LayerId,
    Macro, Sequence,
};
use crate::{tag_views, without_each, TagList};
use crate::profile::LayerTag;

verus! {

/// `x` capped at the largest `u32`.
pub open spec fn saturated(x: int) -> nat {
    if x > u32::MAX {
        u32::MAX as nat
    } else if x < 0 {
        0
    } else {
        x as nat
    }
}

/// Plays `actions` greedily from index `i` with `t` milliseconds at hand:
/// the index of the first action left unplayed, and the time left over.
pub open spec fn consume(actions: Seq<Action>, i: nat, t: nat) -> (nat, nat)
    decreases actions.len() - i,
{
    if i < actions.len() && actions[i as int].predelay_ms <= t {
        consume(actions, i + 1, (t - actions[i as int].predelay_ms) as nat)
    } else {
        (i, t)
    }
}

/// A tick of `d` milliseconds on a sequence runner at `cursor` with `elapsed`
/// built up: the new cursor, the new built-up time, and the time returned. A
/// finished runner is left as it is and returns `d`; otherwise the time is
/// added (capped at the largest `u32`) and actions are played greedily, and
/// the time left is returned once the sequence is done, 0 while an action
/// still waits.
pub open spec fn seq_tick(actions: Seq<Action>, cursor: nat, elapsed: nat, d: nat) -> (nat, nat, nat) {
    if cursor >= actions.len() {
        (cursor, elapsed, d)
    } else {
        let (j, rest) = consume(actions, cursor, saturated((elapsed + d) as int));
        (j, rest, if j >= actions.len() { rest } else { 0 })
    }
}

/// The events of `actions[i..j]`, in order.
pub open spec fn events_between(actions: Seq<Action>, i: int, j: int) -> Seq<ActionEvent> {
    actions.subrange(i, j).map_values(|a: Action| a.action_event)
}

/// The events that a buffer of references points to.
pub open spec fn event_values(v: Seq<&ActionEvent>) -> Seq<ActionEvent> {
    v.map_values(|e: &ActionEvent| *e)
}

proof fn lemma_events_between_push(actions: Seq<Action>, i: int, j: int)
    requires
        0 <= i <= j < actions.len(),
    ensures
        events_between(actions, i, j + 1) == events_between(actions, i, j).push(
            actions[j].action_event,
        ),
{
    let a = events_between(actions, i, j + 1);
    let b = events_between(actions, i, j).push(actions[j].action_event);
    assert forall|k: int| 0 <= k < a.len() implies a[k] == b[k] by {
        if k < j - i {
            assert(a[k] == actions[i + k].action_event);
        }
    }
    assert(a =~= b);
}

/// Sum of the pre-delays of `actions`.
pub open spec fn total_delay(actions: Seq<Action>) -> nat
    decreases actions.len(),
{
    if actions.len() == 0 {
        0
    } else {
        actions[0].predelay_ms as nat + total_delay(actions.drop_first())
    }
}

/// Playing from index `i` on never goes back, nor past the end.
pub proof fn lemma_consume_bounds(actions: Seq<Action>, i: nat, t: nat)
    requires
        i <= actions.len(),
    ensures
        i <= consume(actions, i, t).0 <= actions.len(),
        consume(actions, i, t).1 <= t,
    decreases actions.len() - i,
{
    if i < actions.len() && actions[i as int].predelay_ms <= t {
        lemma_consume_bounds(actions, i + 1, (t - actions[i as int].predelay_ms) as nat);
    }
}

/// A sequence given the sum of its remaining pre-delays, and `extra` more,
/// plays every remaining action and has `extra` left over.
pub proof fn lemma_total_delay_plays_rest(actions: Seq<Action>, i: nat, extra: nat)
    requires
        i <= actions.len(),
    ensures
        consume(actions, i, total_delay(actions.subrange(i as int, actions.len() as int)) + extra) == (
        actions.len(), extra),
    decreases actions.len() - i,
{
    if i < actions.len() {
        let rest = actions.subrange(i as int, actions.len() as int);
        assert(rest.drop_first() =~= actions.subrange(i + 1 as int, actions.len() as int));
        lemma_total_delay_plays_rest(actions, i + 1, extra);
    }
}

/// A sequence given exactly the sum of its pre-delays plays all its actions,
/// in order, and has no time left over.
pub proof fn lemma_total_delay_plays_all(actions: Seq<Action>)
    ensures
        consume(actions, 0, total_delay(actions)) == (actions.len(), 0nat),
        events_between(actions, 0, actions.len() as int) == actions.map_values(
            |a: Action| a.action_event,
        ),
{
    assert(actions.subrange(0, actions.len() as int) =~= actions);
    lemma_total_delay_plays_rest(actions, 0, 0);
    assert(events_between(actions, 0, actions.len() as int) =~= actions.map_values(
        |a: Action| a.action_event,
    ));
}

/// Splitting time in two: playing from `i` with `a` milliseconds, then adding
/// `b` to what is left and playing on, reaches the same action with the same
/// time left as playing with `a + b` at once, and plays the same events in
/// the same order.
pub proof fn lemma_split_tick(actions: Seq<Action>, i: nat, a: nat, b: nat)
    requires
        i <= actions.len(),
    ensures
        ({
            let (j1, r1) = consume(actions, i, a);
            let (j2, r2) = consume(actions, j1, r1 + b);
            &&& (j2, r2) == consume(actions, i, a + b)
            &&& events_between(actions, i as int, j1 as int) + events_between(actions, j1 as int, j2 as int)
                == events_between(actions, i as int, j2 as int)
        }),
    decreases actions.len() - i,
{
    let (j1, r1) = consume(actions, i, a);
    lemma_consume_bounds(actions, i, a);
    lemma_consume_bounds(actions, j1, r1 + b);
    let (j2, r2) = consume(actions, j1, r1 + b);
    if i < actions.len() && actions[i as int].predelay_ms <= a {
        let p = actions[i as int].predelay_ms as nat;
        lemma_split_tick(actions, i + 1, (a - p) as nat, b);
        assert((a + b - p) as nat == (a - p) as nat + b);
    }
    assert(events_between(actions, i as int, j1 as int) + events_between(actions, j1 as int, j2 as int)
        =~= events_between(actions, i as int, j2 as int));
}

/// A runner over one sequence: the next action to play, and the time that
/// has built up towards its pre-delay.
pub struct SequenceState<'a> {
    sequence: &'a Sequence,
    next: usize,
    elapsed_ms: u32,
}

impl<'a> SequenceState<'a> {
    pub closed spec fn actions(&self) -> Seq<Action> {
        self.sequence.actions@
    }

    /// Index of the next action to play.
    pub closed spec fn cursor(&self) -> nat {
        self.next as nat
    }

    /// Time built up towards the next pre-delay.
    pub closed spec fn elapsed(&self) -> nat {
        self.elapsed_ms as nat
    }

    pub closed spec fn wf(&self) -> bool {
        self.next <= self.sequence.actions@.len()
    }

    pub open spec fn finished(&self) -> bool {
        self.cursor() >= self.actions().len()
    }

    /// A runner at the first action of `sequence`, with `elapsed_ms` already
    /// built up.
    pub fn from(sequence: &'a Sequence, elapsed_ms: u32) -> (r: Self)
        ensures
            r.wf(),
            r.actions() == sequence.actions@,
            r.cursor() == 0,
            r.elapsed() == elapsed_ms,
    {
        SequenceState { sequence, next: 0, elapsed_ms }
    }

    /// Adds `elapsed_ms` to the built-up time (saturating at the largest
    /// `u32`), then plays, in order, every action whose pre-delay the time
    /// covers, taking each pre-delay off the time. Returns the time left when
    /// the sequence is done, and 0 while an action still waits. On a runner
    /// that was already finished it does nothing and returns `elapsed_ms`.
    pub fn tick(&mut self, elapsed_ms: u32, events: &mut Vec<&'a ActionEvent>) -> (r: u32)
        requires
            old(self).wf(),
        ensures
            final(self).wf(),
            final(self).actions() == old(self).actions(),
            old(self).finished() ==> *final(self) == *old(self) && r == elapsed_ms && final(events)@
                == old(events)@,
            ({
                let (j, rest, left) = seq_tick(
                    old(self).actions(),
                    old(self).cursor(),
                    old(self).elapsed(),
                    elapsed_ms as nat,
                );
                &&& final(self).cursor() == j
                &&& final(self).elapsed() == rest
                &&& r == left
                &&& event_values(final(events)@) == event_values(old(events)@)
                    + events_between(old(self).actions(), old(self).cursor() as int, j as int)
            }),
    {
        if self.next >= self.sequence.actions.len() {
            proof {
                assert(events_between(self.actions(), self.next as int, self.next as int) =~= Seq::<
                    ActionEvent,
                >::empty());
                assert(event_values(events@) =~= event_values(events@) + Seq::<ActionEvent>::empty());
            }
            return elapsed_ms;
        }
        self.elapsed_ms = self.elapsed_ms.saturating_add(elapsed_ms);
        let seq: &'a Sequence = self.sequence;
        let ghost acts = seq.actions@;
        let ghost start = self.next as int;
        let ghost goal = consume(acts, self.next as nat, self.elapsed_ms as nat);
        let ghost before = event_values(events@);
        assert(acts == old(self).actions());
        while self.next < seq.actions.len()
            invariant
                self.sequence == seq,
                acts == seq.actions@,
                acts == old(self).actions(),
                start == old(self).cursor(),
                goal == consume(acts, start as nat, saturated(old(self).elapsed() + elapsed_ms)),
                before == event_values(old(events)@),
                start <= self.next <= acts.len(),
                goal == consume(acts, self.next as nat, self.elapsed_ms as nat),
                event_values(events@) == before + events_between(acts, start, self.next as int),
            decreases acts.len() - self.next,
        {
            let action: &'a Action = &seq.actions[self.next];
            if action.predelay_ms <= self.elapsed_ms {
                let ghost prev = events@;
                events.push(&action.action_event);
                self.elapsed_ms = self.elapsed_ms - action.predelay_ms;
                proof {
                    let i = self.next as int;
                    assert(*action == acts[i]);
                    assert(events@ == prev.push(&action.action_event));
                    assert(event_values(events@) =~= event_values(prev).push(action.action_event));
                    lemma_events_between_push(acts, start, i);
                }
                self.next = self.next + 1;
            } else {
                return 0;
            }
        }
        self.elapsed_ms
    }

    /// Whether every action has been played; an empty sequence is born
    /// finished.
    pub fn is_finished(&self) -> (r: bool)
        requires
            self.wf(),
        ensures
            r == self.finished(),
    {
        self.next >= self.sequence.actions.len()
    }

    /// Number of actions not yet played.
    pub fn pending_len(&self) -> (r: usize)
        requires
            self.wf(),
        ensures
            r == self.actions().len() - self.cursor(),
    {
        self.sequence.actions.len() - self.next
    }

    /// Time built up towards the next pre-delay.
    pub fn elapsed_ms(&self) -> (r: u32)
        ensures
            r == self.elapsed(),
    {
        self.elapsed_ms
    }
}

/// The phase a macro runner is in.
#[derive(Debug, Clone, Copy, PartialEq, Eq, Structural)]
pub enum Phase {
    Start,
    Loop,
    End,
    Finished,
}

/// What a macro runner is, as far as its behaviour goes: its phase, the
/// cursor and built-up time of the phase's sequence runner, and whether it
/// has been told to stop.
pub ghost struct RunnerModel {
    pub phase: Phase,
    pub cursor: nat,
    pub elapsed: nat,
    pub stopping: bool,
}

/// The actions that a runner in phase `p` plays.
pub open spec fn phase_actions(m: Macro, p: Phase) -> Seq<Action> {
    match p {
        Phase::Start => m.start_sequence.actions@,
        Phase::Loop => m.loop_sequence.actions@,
        Phase::End => m.end_sequence.actions@,
        Phase::Finished => Seq::empty(),
    }
}

pub open spec fn phase_rank(p: Phase) -> nat {
    match p {
        Phase::Start => 3,
        Phase::Loop => 2,
        Phase::End => 1,
        Phase::Finished => 0,
    }
}

/// The runner's state once its phase's sequence is done: Start and Loop go
/// on to a fresh Loop, or to a fresh End once stopping; End goes to Finished.
/// A fresh phase has no time built up.
pub open spec fn advance(s: RunnerModel) -> RunnerModel {
    match s.phase {
        Phase::Start | Phase::Loop => RunnerModel {
            phase: if s.stopping { Phase::End } else { Phase::Loop },
            cursor: 0,
            elapsed: 0,
            stopping: s.stopping,
        },
        Phase::End => RunnerModel { phase: Phase::Finished, cursor: 0, elapsed: 0, stopping: s.stopping },
        Phase::Finished => s,
    }
}

/// A tick of `d` milliseconds on a runner of macro `m` in state `s`: the new
/// state, the time returned, and the events played. Each round lets the
/// phase's sequence runner take the time; when it is done the runner moves on
/// to a fresh phase and the time left is the time of the next round. The tick
/// ends when the time is used up, when the runner is finished, or when it has
/// just restarted a Loop that cannot make progress: an empty one, or one whose
/// pre-delays add up to 0, which hands on all the time it was given.
pub open spec fn macro_run(m: Macro, s: RunnerModel, d: nat) -> (RunnerModel, nat, Seq<ActionEvent>)
    decreases phase_rank(s.phase), d,
{
    if s.phase == Phase::Finished || d == 0 {
        (s, d, Seq::empty())
    } else {
        let acts = phase_actions(m, s.phase);
        let (j, rest, left) = seq_tick(acts, s.cursor, s.elapsed, d);
        let evs = events_between(acts, s.cursor as int, j as int);
        if j < acts.len() {
            (RunnerModel { phase: s.phase, cursor: j, elapsed: rest, stopping: s.stopping }, left, evs)
        } else {
            let n = advance(s);
            if n.phase == Phase::Loop && (m.loop_sequence.actions@.len() == 0 || (s.phase
                == Phase::Loop && left >= d)) {
                (n, left, evs)
            } else {
                let (s2, l2, e2) = macro_run(m, n, left);
                (s2, l2, evs + e2)
            }
        }
    }
}

/// A tick never changes whether a runner has been told to stop.
pub proof fn lemma_run_keeps_trigger(m: Macro, s: RunnerModel, d: nat)
    ensures
        macro_run(m, s, d).0.stopping == s.stopping,
    decreases phase_rank(s.phase), d,
{
    if s.phase != Phase::Finished && d != 0 {
        let acts = phase_actions(m, s.phase);
        let (j, rest, left) = seq_tick(acts, s.cursor, s.elapsed, d);
        let n = advance(s);
        if j >= acts.len() && !(n.phase == Phase::Loop && (m.loop_sequence.actions@.len() == 0 || (
        s.phase == Phase::Loop && left >= d))) {
            lemma_run_keeps_trigger(m, n, left);
        }
    }
}

/// A runner that has been told to stop stays stopping, and never goes
/// (back) to Loop: a tick leaves it in the phase it was in, or has taken it
/// to End or to Finished.
pub proof fn lemma_stopping_runner_winds_down(m: Macro, s: RunnerModel, d: nat)
    requires
        s.stopping,
    ensures
        macro_run(m, s, d).0.stopping,
        macro_run(m, s, d).0.phase == s.phase || macro_run(m, s, d).0.phase == Phase::End
            || macro_run(m, s, d).0.phase == Phase::Finished,
    decreases phase_rank(s.phase), d,
{
    if s.phase != Phase::Finished && d != 0 {
        let acts = phase_actions(m, s.phase);
        let (j, rest, left) = seq_tick(acts, s.cursor, s.elapsed, d);
        let n = advance(s);
        if j >= acts.len() && !(n.phase == Phase::Loop && (m.loop_sequence.actions@.len() == 0 || (
        s.phase == Phase::Loop && left >= d))) {
            lemma_stopping_runner_winds_down(m, n, left);
        }
    }
}

/// Playing greedily keeps time: what is left plus what is still to wait from
/// the start equals the time given plus what is still to wait from where it
/// stopped; and where it stopped, the time left falls short of the next
/// pre-delay.
pub proof fn lemma_consume_keeps_time(actions: Seq<Action>, i: nat, t: nat)
    requires
        i <= actions.len(),
    ensures
        ({
            let (j, r) = consume(actions, i, t);
            &&& r + total_delay(actions.subrange(i as int, actions.len() as int)) == t + total_delay(
                actions.subrange(j as int, actions.len() as int),
            )
            &&& j < actions.len() ==> r < actions[j as int].predelay_ms
        }),
    decreases actions.len() - i,
{
    if i < actions.len() {
        let rest = actions.subrange(i as int, actions.len() as int);
        assert(rest.drop_first() =~= actions.subrange(i + 1 as int, actions.len() as int));
        if actions[i as int].predelay_ms <= t {
            lemma_consume_keeps_time(actions, i + 1, (t - actions[i as int].predelay_ms) as nat);
        }
    }
}

/// The remaining pre-delays of `actions` from `i` cover the next one.
proof fn lemma_rest_covers_next(actions: Seq<Action>, i: nat)
    requires
        i < actions.len(),
    ensures
        actions[i as int].predelay_ms <= total_delay(actions.subrange(i as int, actions.len() as int)),
{
    let rest = actions.subrange(i as int, actions.len() as int);
    assert(rest[0] == actions[i as int]);
}

/// Whether macro `m`'s loop is empty or takes time: a loop whose pre-delays
/// add up to 0 plays one round per tick, however the time is split.
pub open spec fn loop_takes_time(m: Macro) -> bool {
    m.loop_sequence.actions@.len() == 0 || total_delay(m.loop_sequence.actions@) > 0
}

/// Whether runner state `s` of macro `m` is one a runner reaches: its cursor
/// lies within its sequence and, in a loop that takes time, before the end,
/// with less time built up than the loop still has to wait.
pub open spec fn settled(m: Macro, s: RunnerModel) -> bool {
    let acts = phase_actions(m, s.phase);
    &&& s.cursor <= acts.len()
    &&& s.phase == Phase::Loop && m.loop_sequence.actions@.len() > 0 && loop_takes_time(m) ==> {
        &&& s.cursor < acts.len()
        &&& s.elapsed < total_delay(acts.subrange(s.cursor as int, acts.len() as int))
    }
}

/// A fresh runner is settled.
pub proof fn lemma_fresh_settled(m: Macro, s: RunnerModel)
    requires
        s.cursor == 0,
        s.elapsed == 0,
        s.phase != Phase::Loop || loop_takes_time(m),
    ensures
        settled(m, s),
{
    assert(m.loop_sequence.actions@.subrange(0, m.loop_sequence.actions@.len() as int)
        =~= m.loop_sequence.actions@);
}

/// A tick leaves a settled runner settled.
pub proof fn lemma_run_settles(m: Macro, s: RunnerModel, d: nat)
    requires
        settled(m, s),
    ensures
        settled(m, macro_run(m, s, d).0),
    decreases phase_rank(s.phase), d,
{
    if s.phase == Phase::Finished || d == 0 {
        return;
    }
    let acts = phase_actions(m, s.phase);
    let (j, rest, left) = seq_tick(acts, s.cursor, s.elapsed, d);
    let n = advance(s);
    if s.cursor < acts.len() {
        let t = saturated((s.elapsed + d) as int);
        lemma_consume_bounds(acts, s.cursor, t);
        lemma_consume_keeps_time(acts, s.cursor, t);
        if j < acts.len() {
            lemma_rest_covers_next(acts, j);
            return;
        }
    }
    assert(m.loop_sequence.actions@.subrange(0, m.loop_sequence.actions@.len() as int)
        =~= m.loop_sequence.actions@);
    if !(n.phase == Phase::Loop && (m.loop_sequence.actions@.len() == 0 || (s.phase == Phase::Loop
        && left >= d))) {
        lemma_run_settles(m, n, left);
    }
}

/// Splitting a tick in two, on a settled runner of a macro whose loop takes
/// time, and with no time capped, leaves the runner in the same state and
/// plays the same events in the same order as one tick of the whole time.
pub proof fn lemma_macro_split_tick(m: Macro, s: RunnerModel, d1: nat, d2: nat)
    requires
        loop_takes_time(m),
        settled(m, s),
        s.elapsed + d1 + d2 <= u32::MAX,
    ensures
        macro_run(m, macro_run(m, s, d1).0, d2).0 == macro_run(m, s, d1 + d2).0,
        macro_run(m, s, d1).2 + macro_run(m, macro_run(m, s, d1).0, d2).2 == macro_run(
            m,
            s,
            d1 + d2,
        ).2,
    decreases phase_rank(s.phase), d1 + d2,
{
    let first = macro_run(m, s, d1);
    let whole = macro_run(m, s, d1 + d2);
    if s.phase == Phase::Finished || d1 == 0 {
        assert(first.2 =~= Seq::<ActionEvent>::empty());
        assert(first.2 + macro_run(m, first.0, d2).2 =~= macro_run(m, first.0, d2).2);
        return;
    }
    if d2 == 0 {
        assert(first.2 + macro_run(m, first.0, d2).2 =~= first.2);
        return;
    }
    let acts = phase_actions(m, s.phase);
    let n = advance(s);
    if s.cursor >= acts.len() {
        // a finished sequence runner: both move on at once
        if n.phase == Phase::Loop && (m.loop_sequence.actions@.len() == 0 || s.phase == Phase::Loop) {
            assert(first.2 + macro_run(m, first.0, d2).2 =~= whole.2);
        } else {
            lemma_fresh_settled(m, n);
            lemma_macro_split_tick(m, n, d1, d2);
            assert(first.2 + macro_run(m, first.0, d2).2 =~= whole.2);
        }
        return;
    }
    let e = s.elapsed;
    let (j1, r1) = consume(acts, s.cursor, e + d1);
    let (j, rest) = consume(acts, s.cursor, e + d1 + d2);
    lemma_split_tick(acts, s.cursor, e + d1, d2);
    lemma_consume_bounds(acts, s.cursor, e + d1);
    lemma_consume_bounds(acts, j1, r1 + d2);
    assert(saturated((e + d1) as int) == e + d1);
    assert(saturated((e + d1 + d2) as int) == e + d1 + d2);
    let rem = total_delay(acts.subrange(s.cursor as int, acts.len() as int));
    lemma_consume_keeps_time(acts, s.cursor, e + d1);
    lemma_consume_keeps_time(acts, s.cursor, e + d1 + d2);
    assert(acts.subrange(acts.len() as int, acts.len() as int).len() == 0);
    if j1 < acts.len() {
        // blocked after the first part: the second part carries on in the
        // same sequence, as the whole would
        let s1 = RunnerModel { phase: s.phase, cursor: j1, elapsed: r1, stopping: s.stopping };
        assert(first.0 == s1);
        lemma_consume_keeps_time(acts, j1, r1 + d2);
        lemma_rest_covers_next(acts, j1);
        assert(saturated((r1 + d2) as int) == r1 + d2);
        assert(first.2 + macro_run(m, first.0, d2).2 =~= whole.2) by {
            assert(events_between(acts, s.cursor as int, j1 as int) + events_between(
                acts,
                j1 as int,
                j as int,
            ) == events_between(acts, s.cursor as int, j as int));
        }
    } else {
        // done within the first part: the rest of it and the second part go
        // on to the fresh phase
        assert(j == acts.len() && rest == r1 + d2);
        if n.phase == Phase::Loop && m.loop_sequence.actions@.len() == 0 {
            assert(first.2 + macro_run(m, first.0, d2).2 =~= whole.2);
        } else {
            lemma_fresh_settled(m, n);
            lemma_macro_split_tick(m, n, r1, d2);
            assert(first.2 + macro_run(m, first.0, d2).2 =~= whole.2);
        }
    }
}

/// Whether a runner is being played or told to wind down.
#[derive(Debug, Clone, Copy, PartialEq, Eq, Structural)]
pub enum TriggerState {
    Running,
    Stopping,
}

/// The key and layer a runner was started under.
#[derive(Debug, Clone, Copy, PartialEq, Eq, Structural)]
pub struct MacroSource {
    key: KeyId,
    layer: LayerId,
}

impl MacroSource {
    pub closed spec fn spec_key(&self) -> KeyId {
        self.key
    }

    pub closed spec fn spec_layer(&self) -> LayerId {
        self.layer
    }

    pub fn key(&self) -> (r: KeyId)
        ensures
            r == self.spec_key(),
    {
        self.key
    }

    pub fn layer(&self) -> (r: LayerId)
        ensures
            r == self.spec_layer(),
    {
        self.layer
    }
}

/// The phase of a runner, with the sequence runner of that phase.
pub enum CurrentSequence<'a> {
    Start(SequenceState<'a>),
    Loop(SequenceState<'a>),
    End(SequenceState<'a>),
    Finished,
}

impl<'a> CurrentSequence<'a> {
    pub open spec fn spec_phase(&self) -> Phase {
        match self {
            CurrentSequence::Start(_) => Phase::Start,
            CurrentSequence::Loop(_) => Phase::Loop,
            CurrentSequence::End(_) => Phase::End,
            CurrentSequence::Finished => Phase::Finished,
        }
    }

    /// The name of the phase, without its runner.
    pub fn phase(&self) -> (r: Phase)
        ensures
            r == self.spec_phase(),
    {
        match self {
            CurrentSequence::Start(_) => Phase::Start,
            CurrentSequence::Loop(_) => Phase::Loop,
            CurrentSequence::End(_) => Phase::End,
            CurrentSequence::Finished => Phase::Finished,
        }
    }
}

/// A key of the profile, with the layer that is active on it.
pub struct KeyState<'a> {
    key: &'a DeviceKey,
    current_layer: &'a DeviceKeyLayer,
}

impl<'a> KeyState<'a> {
    pub closed spec fn device_key(&self) -> DeviceKey {
        *self.key
    }

    pub closed spec fn layer(&self) -> DeviceKeyLayer {
        *self.current_layer
    }

    /// A key on its default layer.
    pub fn from(key: &'a DeviceKey) -> (r: Self)
        ensures
            r.device_key() == *key,
            r.layer() == key.default_layer,
    {
        KeyState { key: key, current_layer: &key.default_layer }
    }
}

/// A running instance of a macro.
pub struct MacroState<'a> {
    macro_: &'a Macro,
    current_sequence: CurrentSequence<'a>,
    trigger: TriggerState,
    source: MacroSource,
}

impl<'a> MacroState<'a> {
    pub closed spec fn spec_macro(&self) -> Macro {
        *self.macro_
    }

    pub closed spec fn source_key(&self) -> KeyId {
        self.source.key
    }

    pub closed spec fn source_layer(&self) -> LayerId {
        self.source.layer
    }

    /// The runner's invariant: its sequence runner belongs to its phase, and
    /// its state is one a runner reaches.
    pub closed spec fn wf(&self) -> bool {
        self.shape_wf() && settled(*self.macro_, self.model())
    }

    pub closed spec fn shape_wf(&self) -> bool {
        match self.current_sequence {
            CurrentSequence::Start(q) => q.wf() && q.actions() == self.macro_.start_sequence.actions@,
            CurrentSequence::Loop(q) => q.wf() && q.actions() == self.macro_.loop_sequence.actions@,
            CurrentSequence::End(q) => q.wf() && q.actions() == self.macro_.end_sequence.actions@,
            CurrentSequence::Finished => true,
        }
    }

    pub closed spec fn model(&self) -> RunnerModel {
        let stopping = self.trigger == TriggerState::Stopping;
        match self.current_sequence {
            CurrentSequence::Start(q) => RunnerModel {
                phase: Phase::Start,
                cursor: q.cursor(),
                elapsed: q.elapsed(),
                stopping,
            },
            CurrentSequence::Loop(q) => RunnerModel {
                phase: Phase::Loop,
                cursor: q.cursor(),
                elapsed: q.elapsed(),
                stopping,
            },
            CurrentSequence::End(q) => RunnerModel {
                phase: Phase::End,
                cursor: q.cursor(),
                elapsed: q.elapsed(),
                stopping,
            },
            CurrentSequence::Finished => RunnerModel {
                phase: Phase::Finished,
                cursor: 0,
                elapsed: 0,
                stopping,
            },
        }
    }

    /// Whether `self` and `o` run the same macro from the same source.
    pub open spec fn same_runner(&self, o: &MacroState<'a>) -> bool {
        &&& self.spec_macro() == o.spec_macro()
        &&& self.source_key() == o.source_key()
        &&& self.source_layer() == o.source_layer()
    }

    /// A runner of `macro_` at the start of its start sequence, running,
    /// sourced at `source`'s key and its active layer.
    pub fn from(macro_: &'a Macro, source: &KeyState) -> (r: Self)
        ensures
            r.wf(),
            r.spec_macro() == *macro_,
            r.model() == (RunnerModel { phase: Phase::Start, cursor: 0, elapsed: 0, stopping: false }),
            r.source_key() == source.device_key().key_id,
            r.source_layer() == source.layer().id,
    {
        let r = MacroState {
            macro_,
            current_sequence: CurrentSequence::Start(SequenceState::from(&macro_.start_sequence, 0)),
            trigger: TriggerState::Running,
            source: MacroSource { key: source.key.key_id, layer: source.current_layer.id },
        };
        proof {
            lemma_fresh_settled(*macro_, r.model());
        }
        r
    }

    /// On a runner whose macro's loop takes time, two ticks of `d1` and `d2`
    /// milliseconds leave it in the same state, and play the same events in
    /// the same order, as one tick of `d1 + d2`, as long as no time is capped.
    pub proof fn lemma_split_tick(&self, d1: nat, d2: nat)
        requires
            self.wf(),
            loop_takes_time(self.spec_macro()),
            self.model().elapsed + d1 + d2 <= u32::MAX,
        ensures
            ({
                let first = macro_run(self.spec_macro(), self.model(), d1);
                let second = macro_run(self.spec_macro(), first.0, d2);
                let whole = macro_run(self.spec_macro(), self.model(), d1 + d2);
                &&& second.0 == whole.0
                &&& first.2 + second.2 == whole.2
            }),
    {
        lemma_macro_split_tick(self.spec_macro(), self.model(), d1, d2);
    }

    /// Advances the runner by `elapsed_ms`, appending the events it plays to
    /// `events`, and returns the time it did not use.
    pub fn tick(&mut self, elapsed_ms: u32, events: &mut Vec<&'a ActionEvent>) -> (r: u32)
        requires
            old(self).wf(),
        ensures
            final(self).wf(),
            final(self).same_runner(old(self)),
            ({
                let (s, left, evs) = macro_run(old(self).spec_macro(), old(self).model(), elapsed_ms as nat);
                &&& final(self).model() == s
                &&& r == left
                &&& event_values(final(events)@) == event_values(old(events)@) + evs
            }),
    {
        let ghost m = *self.macro_;
        let ghost goal = macro_run(m, self.model(), elapsed_ms as nat);
        let ghost before = event_values(events@);
        let ghost d_in = elapsed_ms;
        let mut elapsed_ms = elapsed_ms;
        while !self.is_finished() && elapsed_ms > 0
            invariant_except_break
                macro_run(m, self.model(), elapsed_ms as nat).0 == goal.0,
                macro_run(m, self.model(), elapsed_ms as nat).1 == goal.1,
                event_values(events@) + macro_run(m, self.model(), elapsed_ms as nat).2 == before + goal.2,
            invariant
                self.shape_wf(),
                self.same_runner(old(self)),
                m == old(self).spec_macro(),
                goal == macro_run(m, old(self).model(), d_in as nat),
                before == event_values(old(events)@),
            ensures
                self.model() == goal.0,
                elapsed_ms == goal.1,
                event_values(events@) == before + goal.2,
            decreases phase_rank(self.model().phase), elapsed_ms,
        {
            let ghost s0 = self.model();
            let given = elapsed_ms;
            let ghost ev0 = event_values(events@);
            let was_loop = matches!(self.current_sequence, CurrentSequence::Loop(_));
            let done = match &mut self.current_sequence {
                CurrentSequence::Start(seq) => {
                    elapsed_ms = seq.tick(elapsed_ms, events);
                    seq.is_finished()
                },
                CurrentSequence::Loop(seq) => {
                    elapsed_ms = seq.tick(elapsed_ms, events);
                    seq.is_finished()
                },
                CurrentSequence::End(seq) => {
                    elapsed_ms = seq.tick(elapsed_ms, events);
                    seq.is_finished()
                },
                CurrentSequence::Finished => true,
            };
            if done {
                self.move_to_next_seq();
                if let CurrentSequence::Loop(seq) = &self.current_sequence {
                    // A Loop that cannot make progress ends the tick: an empty
                    // one, or one whose pre-delays add up to 0 and so hands on
                    // all the time it was given, would restart without end.
                    if seq.is_finished() || (was_loop && elapsed_ms >= given) {
                        proof {
                            let run = macro_run(m, s0, given as nat);
                            assert(run.0 == self.model());
                            assert(run.1 == elapsed_ms);
                            assert(event_values(events@) =~= ev0 + run.2);
                            assert(before + goal.2 =~= ev0 + run.2);
                        }
                        break;
                    }
                }
            }
        }
        proof {
            lemma_run_settles(m, old(self).model(), d_in as nat);
        }
        elapsed_ms
    }

    /// The runner's phase, with its sequence runner.
    pub fn current_sequence(&self) -> (r: &CurrentSequence<'a>)
        ensures
            r.spec_phase() == self.model().phase,
    {
        &self.current_sequence
    }

    /// The macro the runner plays.
    pub fn macro_def(&self) -> (r: &'a Macro)
        ensures
            *r == self.spec_macro(),
    {
        self.macro_
    }

    pub fn trigger(&self) -> (r: TriggerState)
        ensures
            (r == TriggerState::Stopping) == self.model().stopping,
    {
        self.trigger
    }

    /// The key and layer the runner was started under.
    pub fn source(&self) -> (r: MacroSource)
        ensures
            r.spec_key() == self.source_key(),
            r.spec_layer() == self.source_layer(),
    {
        self.source
    }

    pub fn is_finished(&self) -> (r: bool)
        ensures
            r == (self.model().phase == Phase::Finished),
    {
        matches!(self.current_sequence, CurrentSequence::Finished)
    }

    /// Tells the runner to wind down: it goes to its end sequence at the next
    /// phase boundary.
    pub fn stop(&mut self)
        ensures
            final(self).wf() == old(self).wf(),
            final(self).same_runner(old(self)),
            final(self).model() == (RunnerModel { stopping: true, ..old(self).model() }),
    {
        self.trigger = TriggerState::Stopping;
    }

    /// Moves on from a phase whose sequence is done. The new phase starts
    /// with no time built up: what the old one left over is the caller's to
    /// hand on.
    fn move_to_next_seq(&mut self)
        requires
            old(self).shape_wf(),
        ensures
            final(self).shape_wf(),
            final(self).same_runner(old(self)),
            final(self).model() == advance(old(self).model()),
    {
        match self.current_sequence {
            CurrentSequence::Start(_) => match self.trigger {
                TriggerState::Running => self.move_to_loop(),
                TriggerState::Stopping => self.move_to_end(),
            },
            CurrentSequence::Loop(_) => match self.trigger {
                TriggerState::Running => self.move_to_loop(),
                TriggerState::Stopping => self.move_to_end(),
            },
            CurrentSequence::End(_) => {
                self.current_sequence = CurrentSequence::Finished;
            },
            CurrentSequence::Finished => {},
        }
    }

    fn move_to_loop(&mut self)
        ensures
            final(self).shape_wf(),
            final(self).same_runner(old(self)),
            final(self).model() == (RunnerModel {
                phase: Phase::Loop,
                cursor: 0,
                elapsed: 0,
                stopping: old(self).model().stopping,
            }),
    {
        self.current_sequence = CurrentSequence::Loop(
            SequenceState::from(&self.macro_.loop_sequence, 0),
        );
    }

    fn move_to_end(&mut self)
        ensures
            final(self).shape_wf(),
            final(self).same_runner(old(self)),
            final(self).model() == (RunnerModel {
                phase: Phase::End,
                cursor: 0,
                elapsed: 0,
                stopping: old(self).model().stopping,
            }),
    {
        self.current_sequence = CurrentSequence::End(
            SequenceState::from(&self.macro_.end_sequence, 0),
        );
    }
}

/// A tick of `d` milliseconds on runner `r`.
pub open spec fn run_of(r: MacroState, d: nat) -> (RunnerModel, nat, Seq<ActionEvent>) {
    macro_run(r.spec_macro(), r.model(), d)
}

/// The events that a tick of `d` milliseconds plays over runners `rs`: those
/// of each runner in turn.
pub open spec fn tick_events(rs: Seq<MacroState>, d: nat) -> Seq<ActionEvent>
    decreases rs.len(),
{
    if rs.len() == 0 {
        Seq::empty()
    } else {
        tick_events(rs.drop_last(), d) + run_of(rs.last(), d).2
    }
}

/// The positions, in order, of the runners of `rs` that a tick of `d`
/// milliseconds leaves unfinished.
pub open spec fn survivors(rs: Seq<MacroState>, d: nat) -> Seq<int>
    decreases rs.len(),
{
    if rs.len() == 0 {
        Seq::empty()
    } else if run_of(rs.last(), d).0.phase != Phase::Finished {
        survivors(rs.drop_last(), d).push(rs.len() - 1)
    } else {
        survivors(rs.drop_last(), d)
    }
}

/// The survivors of a tick are positions of `rs`, in increasing order, of
/// runners that the tick leaves unfinished; every such runner is among them.
pub proof fn lemma_survivors(rs: Seq<MacroState>, d: nat)
    ensures
        forall|k: int|
            0 <= k < survivors(rs, d).len() ==> {
                &&& 0 <= #[trigger] survivors(rs, d)[k] < rs.len()
                &&& run_of(rs[survivors(rs, d)[k]], d).0.phase != Phase::Finished
            },
        forall|k: int, l: int|
            0 <= k < l < survivors(rs, d).len() ==> survivors(rs, d)[k] < survivors(rs, d)[l],
        forall|i: int|
            0 <= i < rs.len() && run_of(#[trigger] rs[i], d).0.phase != Phase::Finished
                ==> survivors(rs, d).contains(i),
    decreases rs.len(),
{
    if rs.len() > 0 {
        let p = rs.drop_last();
        lemma_survivors(p, d);
        assert forall|i: int|
            0 <= i < rs.len() && run_of(#[trigger] rs[i], d).0.phase != Phase::Finished
                implies survivors(rs, d).contains(i) by {
            if i < rs.len() - 1 {
                assert(p[i] == rs[i]);
                let k = choose|k: int| 0 <= k < survivors(p, d).len() && survivors(p, d)[k] == i;
                assert(survivors(rs, d)[k] == i);
            } else {
                assert(survivors(rs, d).last() == i);
            }
        }
    }
}

/// `s`, told to stop.
pub open spec fn stopped(s: RunnerModel) -> RunnerModel {
    RunnerModel { stopping: true, ..s }
}

/// Whether some macro of `ms` lists `c` among the channels it cuts.
pub open spec fn cut_by(ms: Seq<Macro>, c: Channel) -> bool {
    exists|i: int, k: int|
        0 <= i < ms.len() && 0 <= k < ms[i].cut_channels@.len() && #[trigger] ms[i].cut_channels@[k]
            == c
}

/// Whether runner `r` plays on a channel that `cut` holds.
pub open spec fn plays_on(r: MacroState, cut: spec_fn(Channel) -> bool) -> bool {
    match r.spec_macro().play_channel {
        Some(c) => cut(c),
        None => false,
    }
}

/// The state of the engine: each key with its active layer, the tag set, and
/// the live macro runners in the order they were started.
pub struct KeyboardState<'a> {
    keys: Vec<KeyState<'a>>,
    tags: TagList,
    macros: Vec<MacroState<'a>>,
}

impl<'a> KeyboardState<'a> {
    pub closed spec fn key_states(&self) -> Seq<KeyState<'a>> {
        self.keys@
    }

    pub closed spec fn tag_list(&self) -> TagList {
        self.tags
    }

    pub closed spec fn runners(&self) -> Seq<MacroState<'a>> {
        self.macros@
    }

    /// The state's invariant: each runner is well formed, each key is on one
    /// of its own layers, and a runner whose key is now on another layer than
    /// the one it was started under has been told to stop.
    pub open spec fn wf(&self) -> bool {
        &&& forall|k: int| 0 <= k < self.runners().len() ==> (#[trigger] self.runners()[k]).wf()
        &&& Self::keys_own_layers(self.key_states())
        &&& Self::sources_stopped(self.key_states(), self.runners())
    }

    /// Whether each key of `ks` is on one of its own layers.
    pub open spec fn keys_own_layers(ks: Seq<KeyState<'a>>) -> bool {
        forall|i: int| 0 <= i < ks.len() ==> (#[trigger] ks[i]).device_key().owns_layer(ks[i].layer())
    }

    /// Whether every runner of `rs` whose key (the first of `ks` with its id)
    /// is on another layer than the one the runner was started under has been
    /// told to stop.
    pub open spec fn sources_stopped(ks: Seq<KeyState<'a>>, rs: Seq<MacroState<'a>>) -> bool {
        forall|k: int, i: int|
            0 <= k < rs.len() && #[trigger] Self::is_first_key(ks, rs[k].source_key(), i)
                && rs[k].source_layer() != ks[i].layer().id ==> rs[k].model().stopping
    }

    proof fn lemma_first_key_unique(ks: Seq<KeyState<'a>>, key_id: KeyId, i: int, j: int)
        requires
            Self::is_first_key(ks, key_id, i),
            Self::is_first_key(ks, key_id, j),
        ensures
            i == j,
    {
        if i < j {
            assert(ks[i].device_key().key_id != key_id);
        } else if j < i {
            assert(ks[j].device_key().key_id != key_id);
        }
    }

    /// Telling runners to stop, and nothing else, keeps the stopped sources.
    proof fn lemma_stops_keep_sources(
        ks: Seq<KeyState<'a>>,
        rs: Seq<MacroState<'a>>,
        rs2: Seq<MacroState<'a>>,
    )
        requires
            Self::sources_stopped(ks, rs),
            rs2.len() == rs.len(),
            forall|k: int|
                0 <= k < rs.len() ==> (#[trigger] rs2[k]).same_runner(&rs[k]) && (rs[k].model().stopping
                    ==> rs2[k].model().stopping),
        ensures
            Self::sources_stopped(ks, rs2),
    {
        assert forall|k: int, i: int|
            0 <= k < rs2.len() && #[trigger] Self::is_first_key(ks, rs2[k].source_key(), i)
                && rs2[k].source_layer() != ks[i].layer().id implies rs2[k].model().stopping by {
            assert(rs2[k].same_runner(&rs[k]));
            assert(Self::is_first_key(ks, rs[k].source_key(), i));
        }
    }

    /// A layer update keeps the invariant on keys and runners, and leaves
    /// each key on a layer with the id of its active layer.
    pub proof fn lemma_layers_updated_keeps_wf(
        ks: Seq<KeyState<'a>>,
        rs: Seq<MacroState<'a>>,
        post: KeyboardState<'a>,
    )
        requires
            Self::keys_own_layers(ks),
            Self::sources_stopped(ks, rs),
            Self::layers_updated(ks, rs, post),
        ensures
            Self::keys_own_layers(post.key_states()),
            Self::sources_stopped(post.key_states(), post.runners()),
            forall|i: int|
                0 <= i < ks.len() ==> (#[trigger] post.key_states()[i]).layer().id
                    == post.key_states()[i].device_key().active_layer(&post.tag_list()).id,
    {
        let tags = post.tag_list();
        let pk = post.key_states();
        let pr = post.runners();
        assert forall|i: int| 0 <= i < pk.len() implies (#[trigger] pk[i]).device_key().owns_layer(
            pk[i].layer(),
        ) by {
            assert(pk[i].device_key() == ks[i].device_key());
            ks[i].device_key().lemma_active_layer_owned(&tags);
            assert(ks[i].device_key().owns_layer(ks[i].layer()));
        }
        assert forall|i: int| 0 <= i < ks.len() implies (#[trigger] pk[i]).layer().id
            == pk[i].device_key().active_layer(&tags).id by {
            assert(pk[i].device_key() == ks[i].device_key());
        }
        assert forall|k: int, i: int|
            0 <= k < pr.len() && #[trigger] Self::is_first_key(pk, pr[k].source_key(), i)
                && pr[k].source_layer() != pk[i].layer().id implies pr[k].model().stopping by {
            assert(pr[k].same_runner(&rs[k]));
            let id = rs[k].source_key();
            assert(pk[i].device_key() == ks[i].device_key());
            assert forall|j: int| 0 <= j < i implies (#[trigger] ks[j]).device_key().key_id != id by {
                assert(pk[j].device_key() == ks[j].device_key());
            }
            assert(Self::is_first_key(ks, id, i));
            if Self::layer_changes(ks, tags, i) {
                assert(Self::stops_on_layers(ks, tags, rs[k]));
            } else {
                assert(rs[k].model().stopping);
            }
        }
    }

    /// The live runners, in the order they were started.
    pub fn macros(&self) -> (r: &Vec<MacroState<'a>>)
        ensures
            r@ == self.runners(),
    {
        &self.macros
    }

    /// Whether the keys of `ks` are those of `profile`, in order.
    pub open spec fn keys_of(ks: Seq<KeyState<'a>>, profile: KeyboardProfile) -> bool {
        &&& ks.len() == profile.keys@.len()
        &&& forall|i: int| 0 <= i < ks.len() ==> (#[trigger] ks[i]).device_key() == profile.keys@[i]
    }

    /// Whether key `i` of `ks` has a new active layer under `tags`.
    pub open spec fn layer_changes(ks: Seq<KeyState<'a>>, tags: TagList, i: int) -> bool {
        ks[i].layer().id != ks[i].device_key().active_layer(&tags).id
    }

    /// Whether a layer update of `ks` under `tags` stops runner `r`: some key
    /// it was started on has a new active layer, other than its own.
    pub open spec fn stops_on_layers(ks: Seq<KeyState<'a>>, tags: TagList, r: MacroState<'a>) -> bool {
        exists|i: int|
            0 <= i < ks.len() && #[trigger] Self::layer_changes(ks, tags, i)
                && ks[i].device_key().key_id == r.source_key() && r.source_layer()
                != ks[i].device_key().active_layer(&tags).id
    }

    /// Whether `post` is what a layer update makes of keys `ks` and runners
    /// `rs` under `post`'s tags: each key whose active layer changed takes the
    /// new one, and the runners it stops are told to stop.
    pub open spec fn layers_updated(
        ks: Seq<KeyState<'a>>,
        rs: Seq<MacroState<'a>>,
        post: KeyboardState<'a>,
    ) -> bool {
        let tags = post.tag_list();
        &&& post.key_states().len() == ks.len()
        &&& forall|i: int|
            0 <= i < ks.len() ==> {
                &&& (#[trigger] post.key_states()[i]).device_key() == ks[i].device_key()
                &&& post.key_states()[i].layer() == if Self::layer_changes(ks, tags, i) {
                    ks[i].device_key().active_layer(&tags)
                } else {
                    ks[i].layer()
                }
            }
        &&& post.runners().len() == rs.len()
        &&& forall|k: int|
            0 <= k < rs.len() ==> {
                &&& (#[trigger] post.runners()[k]).same_runner(&rs[k])
                &&& post.runners()[k].model() == if Self::stops_on_layers(ks, tags, rs[k]) {
                    stopped(rs[k].model())
                } else {
                    rs[k].model()
                }
            }
    }

    /// After a layer update, every runner started on a key whose active layer
    /// changed, under a layer other than the new one, has been told to stop.
    pub proof fn lemma_layer_change_stops(
        ks: Seq<KeyState<'a>>,
        rs: Seq<MacroState<'a>>,
        post: KeyboardState<'a>,
    )
        requires
            Self::layers_updated(ks, rs, post),
        ensures
            forall|i: int, k: int|
                0 <= i < ks.len() && 0 <= k < rs.len() && (#[trigger] post.key_states()[i]).layer().id
                    != ks[i].layer().id && rs[k].source_key() == ks[i].device_key().key_id
                    && rs[k].source_layer() != post.key_states()[i].layer().id
                    ==> (#[trigger] post.runners()[k]).model().stopping,
    {
        let tags = post.tag_list();
        assert forall|i: int, k: int|
            0 <= i < ks.len() && 0 <= k < rs.len() && (#[trigger] post.key_states()[i]).layer().id
                != ks[i].layer().id && rs[k].source_key() == ks[i].device_key().key_id
                && rs[k].source_layer() != post.key_states()[i].layer().id
                implies (#[trigger] post.runners()[k]).model().stopping by {
            assert(Self::layer_changes(ks, tags, i));
            assert(Self::stops_on_layers(ks, tags, rs[k]));
        }
    }

    /// A state over `profile`: every key on its default layer, no tags, no
    /// runners.
    pub fn from(profile: &'a KeyboardProfile) -> (r: Self)
        ensures
            r.wf(),
            Self::keys_of(r.key_states(), *profile),
            forall|i: int|
                0 <= i < r.key_states().len() ==> (#[trigger] r.key_states()[i]).layer()
                    == profile.keys@[i].default_layer,
            r.tag_list().internal_tags() == Seq::<Seq<char>>::empty(),
            r.tag_list().external_tags() == Seq::<Seq<char>>::empty(),
            r.runners() == Seq::<MacroState<'a>>::empty(),
    {
        let r = KeyboardState {
            keys: KeyboardState::map_keys_from_profile(profile),
            tags: TagList::new(),
            macros: Vec::new(),
        };
        assert(r.runners() =~= Seq::<MacroState<'a>>::empty());
        r
    }

    fn map_keys_from_profile(profile: &'a KeyboardProfile) -> (r: Vec<KeyState<'a>>)
        ensures
            Self::keys_of(r@, *profile),
            forall|i: int| 0 <= i < r@.len() ==> (#[trigger] r@[i]).layer() == profile.keys@[i].default_layer,
    {
        let mut keys: Vec<KeyState<'a>> = Vec::new();
        let mut i: usize = 0;
        while i < profile.keys.len()
            invariant
                i <= profile.keys@.len(),
                keys@.len() == i,
                forall|j: int|
                    0 <= j < i ==> (#[trigger] keys@[j]).device_key() == profile.keys@[j]
                        && keys@[j].layer() == profile.keys@[j].default_layer,
            decreases profile.keys@.len() - i,
        {
            keys.push(KeyState::from(&profile.keys[i]));
            i += 1;
        }
        keys
    }

    /// Gives each key the layer now active under the tags; where that changes
    /// a key's layer, the runners started on the key under another layer are
    /// told to stop.
    fn update_layers(&mut self)
        requires
            old(self).wf(),
        ensures
            final(self).wf(),
            final(self).tag_list() == old(self).tag_list(),
            Self::layers_updated(old(self).key_states(), old(self).runners(), *final(self)),
    {
        let ghost ks = self.keys@;
        let ghost rs = self.macros@;
        let ghost tags = self.tags;
        proof {
            assert forall|j: int| 0 <= j < self.macros@.len() implies (#[trigger] self.macros@[j]).wf() by {
                assert(self.runners()[j].wf());
            }
        }
        let mut i: usize = 0;
        while i < self.keys.len()
            invariant
                ks == old(self).key_states(),
                rs == old(self).runners(),
                tags == old(self).tag_list(),
                self.tags == tags,
                i <= self.keys@.len(),
                self.keys@.len() == ks.len(),
                self.macros@.len() == rs.len(),
                forall|j: int| 0 <= j < self.macros@.len() ==> (#[trigger] self.macros@[j]).wf(),
                forall|j: int|
                    0 <= j < ks.len() ==> {
                        &&& (#[trigger] self.keys@[j]).device_key() == ks[j].device_key()
                        &&& self.keys@[j].layer() == if j < i && Self::layer_changes(ks, tags, j) {
                            ks[j].device_key().active_layer(&tags)
                        } else {
                            ks[j].layer()
                        }
                    },
                forall|k: int|
                    0 <= k < rs.len() ==> {
                        &&& (#[trigger] self.macros@[k]).same_runner(&rs[k])
                        &&& self.macros@[k].model() == if Self::stops_on_layers(
                            ks.take(i as int),
                            tags,
                            rs[k],
                        ) {
                            stopped(rs[k].model())
                        } else {
                            rs[k].model()
                        }
                    },
            decreases ks.len() - i,
        {
            let key: &'a DeviceKey = self.keys[i].key;
            let new_layer: &'a DeviceKeyLayer = key.get_active_layer(&self.tags);
            if self.keys[i].current_layer.id != new_layer.id {
                // release runners that no longer have a valid source
                let mut k: usize = 0;
                while k < self.macros.len()
                    invariant
                        ks == old(self).key_states(),
                        rs == old(self).runners(),
                        tags == old(self).tag_list(),
                        self.tags == tags,
                        i < ks.len(),
                        *key == ks[i as int].device_key(),
                        *new_layer == key.active_layer(&tags),
                        Self::layer_changes(ks, tags, i as int),
                        self.keys@.len() == ks.len(),
                        k <= self.macros@.len(),
                        self.macros@.len() == rs.len(),
                        forall|j: int| 0 <= j < self.macros@.len() ==> (#[trigger] self.macros@[j]).wf(),
                        forall|j: int|
                            0 <= j < ks.len() ==> {
                                &&& (#[trigger] self.keys@[j]).device_key() == ks[j].device_key()
                                &&& self.keys@[j].layer() == if j < i && Self::layer_changes(ks, tags, j) {
                                    ks[j].device_key().active_layer(&tags)
                                } else {
                                    ks[j].layer()
                                }
                            },
                        forall|j: int|
                            0 <= j < rs.len() ==> {
                                &&& (#[trigger] self.macros@[j]).same_runner(&rs[j])
                                &&& self.macros@[j].model() == if Self::stops_on_layers(
                                    ks.take(i as int),
                                    tags,
                                    rs[j],
                                ) || (j < k && key.key_id == rs[j].source_key() && rs[j].source_layer()
                                    != new_layer.id) {
                                    stopped(rs[j].model())
                                } else {
                                    rs[j].model()
                                }
                            },
                    decreases rs.len() - k,
                {
                    if self.macros[k].source.key == key.key_id && self.macros[k].source.layer != new_layer.id {
                        self.macros[k].stop();
                    }
                    k += 1;
                }
                self.keys.set(i, KeyState { key, current_layer: new_layer });
            }
            proof {
                assert forall|k: int| 0 <= k < rs.len() implies Self::stops_on_layers(
                    ks.take(i + 1),
                    tags,
                    rs[k],
                ) == (Self::stops_on_layers(ks.take(i as int), tags, rs[k]) || (Self::layer_changes(
                    ks,
                    tags,
                    i as int,
                ) && ks[i as int].device_key().key_id == rs[k].source_key() && rs[k].source_layer()
                    != ks[i as int].device_key().active_layer(&tags).id)) by {
                    let a = ks.take(i as int);
                    let b = ks.take(i + 1);
                    if Self::stops_on_layers(b, tags, rs[k]) {
                        let w = choose|w: int|
                            0 <= w < b.len() && #[trigger] Self::layer_changes(b, tags, w)
                                && b[w].device_key().key_id == rs[k].source_key()
                                && rs[k].source_layer() != b[w].device_key().active_layer(&tags).id;
                        if w < i {
                            assert(Self::layer_changes(a, tags, w));
                        }
                    }
                    if Self::stops_on_layers(a, tags, rs[k]) {
                        let w = choose|w: int|
                            0 <= w < a.len() && #[trigger] Self::layer_changes(a, tags, w)
                                && a[w].device_key().key_id == rs[k].source_key()
                                && rs[k].source_layer() != a[w].device_key().active_layer(&tags).id;
                        assert(Self::layer_changes(b, tags, w));
                    }
                    if Self::layer_changes(ks, tags, i as int) && ks[i as int].device_key().key_id
                        == rs[k].source_key() && rs[k].source_layer() != ks[i as int].device_key().active_layer(&tags).id {
                        assert(Self::layer_changes(b, tags, i as int));
                    }
                }
            }
            i += 1;
        }
        assert(ks.take(ks.len() as int) =~= ks);
        assert forall|k: int| 0 <= k < self.runners().len() implies (#[trigger] self.runners()[k]).wf() by {
            assert(self.macros@[k].wf());
        }
        proof {
            Self::lemma_layers_updated_keeps_wf(ks, rs, *self);
        }
    }

    /// Whether each key is on its active layer under the state's tags: on a
    /// layer with the active one's id, and on that very layer where the key's
    /// layer ids are unique.
    pub open spec fn keys_on_active_layers(&self) -> bool {
        forall|i: int|
            0 <= i < self.key_states().len() ==> {
                let key = (#[trigger] self.key_states()[i]).device_key();
                &&& self.key_states()[i].layer().id == key.active_layer(&self.tag_list()).id
                &&& key.unique_layer_ids() ==> self.key_states()[i].layer() == key.active_layer(
                    &self.tag_list(),
                )
            }
    }

    proof fn lemma_keys_on_active_layers(&self)
        requires
            Self::keys_own_layers(self.key_states()),
            forall|i: int|
                0 <= i < self.key_states().len() ==> (#[trigger] self.key_states()[i]).layer().id
                    == self.key_states()[i].device_key().active_layer(&self.tag_list()).id,
        ensures
            self.keys_on_active_layers(),
    {
        assert forall|i: int| 0 <= i < self.key_states().len() implies {
            let key = (#[trigger] self.key_states()[i]).device_key();
            &&& self.key_states()[i].layer().id == key.active_layer(&self.tag_list()).id
            &&& key.unique_layer_ids() ==> self.key_states()[i].layer() == key.active_layer(
                &self.tag_list(),
            )
        } by {
            let key = self.key_states()[i].device_key();
            if key.unique_layer_ids() {
                key.lemma_owned_layer_by_id(&self.tag_list(), self.key_states()[i].layer());
            }
        }
    }

    /// Whether `i` is the first key of `ks` with id `key_id`.
    pub open spec fn is_first_key(ks: Seq<KeyState<'a>>, key_id: KeyId, i: int) -> bool {
        &&& 0 <= i < ks.len()
        &&& ks[i].device_key().key_id == key_id
        &&& forall|j: int| 0 <= j < i ==> (#[trigger] ks[j]).device_key().key_id != key_id
    }

    fn find_key(&self, key_id: KeyId) -> (r: Option<usize>)
        ensures
            match r {
                Some(i) => Self::is_first_key(self.key_states(), key_id, i as int),
                None => forall|i: int|
                    0 <= i < self.key_states().len() ==> (#[trigger] self.key_states()[i]).device_key().key_id
                        != key_id,
            },
    {
        let mut i: usize = 0;
        while i < self.keys.len()
            invariant
                i <= self.keys@.len(),
                forall|j: int| 0 <= j < i ==> (#[trigger] self.keys@[j]).device_key().key_id != key_id,
            decreases self.keys@.len() - i,
        {
            if self.keys[i].key.key_id == key_id {
                return Some(i);
            }
            i += 1;
        }
        None
    }

    /// Starts a runner for each macro of the key's active layer, in order,
    /// after telling the runners already live that play on a channel those
    /// macros cut to stop. An unknown key does nothing.
    pub fn press_key(&mut self, key_id: KeyId)
        requires
            old(self).wf(),
        ensures
            final(self).wf(),
            final(self).key_states() == old(self).key_states(),
            final(self).tag_list() == old(self).tag_list(),
            (forall|i: int|
                0 <= i < old(self).key_states().len() ==> (#[trigger] old(self).key_states()[i]).device_key().key_id
                    != key_id) ==> final(self).runners() == old(self).runners(),
            forall|i: int|
                #[trigger] Self::is_first_key(old(self).key_states(), key_id, i) ==> {
                    let layer = old(self).key_states()[i].layer();
                    let n = old(self).runners().len();
                    &&& final(self).runners().len() == n + layer.macros@.len()
                    &&& forall|k: int|
                        0 <= k < n ==> {
                            &&& (#[trigger] final(self).runners()[k]).same_runner(&old(self).runners()[k])
                            &&& final(self).runners()[k].model() == if plays_on(
                                old(self).runners()[k],
                                |c: Channel| cut_by(layer.macros@, c),
                            ) {
                                stopped(old(self).runners()[k].model())
                            } else {
                                old(self).runners()[k].model()
                            }
                        }
                    &&& forall|j: int|
                        0 <= j < layer.macros@.len() ==> {
                            let r = #[trigger] final(self).runners()[n + j];
                            &&& r.spec_macro() == layer.macros@[j]
                            &&& r.model() == (RunnerModel {
                                phase: Phase::Start,
                                cursor: 0,
                                elapsed: 0,
                                stopping: false,
                            })
                            &&& r.source_key() == key_id
                            &&& r.source_layer() == layer.id
                        }
                },
    {
        match self.find_key(key_id) {
            None => {},
            Some(i) => {
                let layer: &'a DeviceKeyLayer = self.keys[i].current_layer;
                let ghost ms = layer.macros@;
                let mut fresh: Vec<MacroState<'a>> = Vec::new();
                let mut cuts: Vec<Channel> = Vec::new();
                let mut j: usize = 0;
                while j < layer.macros.len()
                    invariant
                        ms == layer.macros@,
                        i < self.keys@.len(),
                        *layer == self.keys@[i as int].layer(),
                        self.keys@[i as int].device_key().key_id == key_id,
                        j <= ms.len(),
                        fresh@.len() == j,
                        forall|x: int|
                            0 <= x < j ==> {
                                let r = #[trigger] fresh@[x];
                                &&& r.wf()
                                &&& r.spec_macro() == ms[x]
                                &&& r.model() == (RunnerModel {
                                    phase: Phase::Start,
                                    cursor: 0,
                                    elapsed: 0,
                                    stopping: false,
                                })
                                &&& r.source_key() == key_id
                                &&& r.source_layer() == layer.id
                            },
                        forall|c: Channel| cuts@.contains(c) <==> cut_by(ms.take(j as int), c),
                    decreases ms.len() - j,
                {
                    let m: &'a Macro = &layer.macros[j];
                    fresh.push(MacroState::from(m, &self.keys[i]));
                    let ghost before = cuts@;
                    let mut b: usize = 0;
                    while b < m.cut_channels.len()
                        invariant
                            ms == layer.macros@,
                            j < ms.len(),
                            *m == ms[j as int],
                            b <= m.cut_channels@.len(),
                            cuts@ == before + m.cut_channels@.take(b as int),
                        decreases m.cut_channels@.len() - b,
                    {
                        cuts.push(m.cut_channels[b]);
                        assert(m.cut_channels@.take(b + 1) =~= m.cut_channels@.take(b as int).push(
                            m.cut_channels@[b as int],
                        ));
                        b += 1;
                    }
                    proof {
                        assert(m.cut_channels@.take(b as int) =~= m.cut_channels@);
                        let t0 = ms.take(j as int);
                        let t1 = ms.take(j + 1);
                        assert forall|c: Channel| cuts@.contains(c) <==> cut_by(t1, c) by {
                            if cuts@.contains(c) {
                                let x = choose|x: int| 0 <= x < cuts@.len() && cuts@[x] == c;
                                if x < before.len() {
                                    assert(before.contains(c));
                                    let (p, q) = choose|p: int, q: int|
                                        0 <= p < t0.len() && 0 <= q < t0[p].cut_channels@.len()
                                            && #[trigger] t0[p].cut_channels@[q] == c;
                                    assert(t1[p] == t0[p]);
                                } else {
                                    assert(t1[j as int].cut_channels@[x - before.len()] == c);
                                }
                            }
                            if cut_by(t1, c) {
                                let (p, q) = choose|p: int, q: int|
                                    0 <= p < t1.len() && 0 <= q < t1[p].cut_channels@.len()
                                        && #[trigger] t1[p].cut_channels@[q] == c;
                                if p < j {
                                    assert(t0[p] == t1[p]);
                                    assert(cut_by(t0, c));
                                    assert(before.contains(c));
                                    let x = choose|x: int| 0 <= x < before.len() && before[x] == c;
                                    assert(cuts@[x] == c);
                                } else {
                                    assert(cuts@[before.len() + q] == c);
                                }
                            }
                        }
                    }
                    j += 1;
                }
                proof {
                    assert(ms.take(j as int) =~= ms);
                }
                let ghost mid = self.macros@;
                self.cut_channels(cuts);
                let ghost fr = fresh@;
                self.macros.append(&mut fresh);
                proof {
                    assert forall|k: int| 0 <= k < self.runners().len() implies (#[trigger] self.runners()[k]).wf() by {
                        if k >= mid.len() {
                            assert(self.macros@[k] == fr[k - mid.len()]);
                        }
                    }
                    assert forall|x: int|
                        #[trigger] Self::is_first_key(old(self).key_states(), key_id, x) implies x == i by {
                        if x < i {
                            assert(!(old(self).key_states()[x].device_key().key_id == key_id));
                        } else if x > i {
                            assert(old(self).key_states()[i as int].device_key().key_id != key_id);
                        }
                    }
                }
            },
        }
    }

    /// Tells every runner started on `key_id` to stop.
    pub fn release_key(&mut self, key_id: KeyId)
        requires
            old(self).wf(),
        ensures
            final(self).wf(),
            final(self).key_states() == old(self).key_states(),
            final(self).tag_list() == old(self).tag_list(),
            final(self).runners().len() == old(self).runners().len(),
            forall|k: int|
                0 <= k < old(self).runners().len() ==> {
                    &&& (#[trigger] final(self).runners()[k]).same_runner(&old(self).runners()[k])
                    &&& final(self).runners()[k].model() == if old(self).runners()[k].source_key() == key_id {
                        stopped(old(self).runners()[k].model())
                    } else {
                        old(self).runners()[k].model()
                    }
                },
    {
        let mut k: usize = 0;
        while k < self.macros.len()
            invariant
                k <= self.macros@.len(),
                self.macros@.len() == old(self).runners().len(),
                self.keys@ == old(self).key_states(),
                self.tags == old(self).tag_list(),
                forall|j: int| 0 <= j < self.macros@.len() ==> (#[trigger] self.macros@[j]).wf(),
                forall|j: int|
                    0 <= j < self.macros@.len() ==> {
                        &&& (#[trigger] self.macros@[j]).same_runner(&old(self).runners()[j])
                        &&& self.macros@[j].model() == if j < k && old(self).runners()[j].source_key() == key_id {
                            stopped(old(self).runners()[j].model())
                        } else {
                            old(self).runners()[j].model()
                        }
                    },
            decreases old(self).runners().len() - k,
        {
            if self.macros[k].source.key == key_id {
                self.macros[k].stop();
            }
            k += 1;
        }
    }

    /// Advances every runner by `elapsed_ms`, in the order they were started,
    /// appending the events they play to `events`, then drops the runners that
    /// have finished, keeping the order of the others.
    pub fn tick(&mut self, elapsed_ms: u32, events: &mut Vec<&'a ActionEvent>)
        requires
            old(self).wf(),
        ensures
            final(self).wf(),
            final(self).key_states() == old(self).key_states(),
            final(self).tag_list() == old(self).tag_list(),
            event_values(final(events)@) == event_values(old(events)@) + tick_events(
                old(self).runners(),
                elapsed_ms as nat,
            ),
            final(self).runners().len() == survivors(old(self).runners(), elapsed_ms as nat).len(),
            forall|k: int|
                0 <= k < final(self).runners().len() ==> {
                    let i = survivors(old(self).runners(), elapsed_ms as nat)[k];
                    &&& (#[trigger] final(self).runners()[k]).same_runner(&old(self).runners()[i])
                    &&& final(self).runners()[k].model() == run_of(old(self).runners()[i], elapsed_ms as nat).0
                },
            forall|k: int|
                0 <= k < final(self).runners().len() ==> (#[trigger] final(self).runners()[k]).model().phase
                    != Phase::Finished,
    {
        let ghost rs = self.macros@;
        let ghost d = elapsed_ms as nat;
        let ghost before = event_values(events@);
        let mut i: usize = 0;
        while i < self.macros.len()
            invariant
                rs == old(self).runners(),
                d == elapsed_ms as nat,
                before == event_values(old(events)@),
                self.keys@ == old(self).key_states(),
                self.tags == old(self).tag_list(),
                i <= self.macros@.len(),
                self.macros@.len() == rs.len(),
                forall|j: int| 0 <= j < rs.len() ==> (#[trigger] self.macros@[j]).wf(),
                forall|j: int|
                    0 <= j < rs.len() ==> {
                        &&& (#[trigger] self.macros@[j]).same_runner(&rs[j])
                        &&& self.macros@[j].model() == if j < i {
                            run_of(rs[j], d).0
                        } else {
                            rs[j].model()
                        }
                    },
                event_values(events@) == before + tick_events(rs.take(i as int), d),
            decreases rs.len() - i,
        {
            self.macros[i].tick(elapsed_ms, events);
            proof {
                assert(rs.take(i + 1).drop_last() =~= rs.take(i as int));
                assert(event_values(events@) =~= before + tick_events(rs.take(i + 1), d));
            }
            i += 1;
        }
        assert(rs.take(rs.len() as int) =~= rs);
        let ghost t = self.macros@;
        // drop the finished runners, keeping the order of the others
        let mut w: usize = 0;
        let ghost mut r: int = 0;
        while w < self.macros.len()
            invariant
                rs == old(self).runners(),
                d == elapsed_ms as nat,
                self.keys@ == old(self).key_states(),
                self.tags == old(self).tag_list(),
                t.len() == rs.len(),
                forall|j: int| 0 <= j < rs.len() ==> (#[trigger] t[j]).wf(),
                forall|j: int|
                    0 <= j < rs.len() ==> (#[trigger] t[j]).same_runner(&rs[j]) && t[j].model()
                        == run_of(rs[j], d).0,
                0 <= r <= t.len(),
                w == survivors(rs.take(r), d).len(),
                self.macros@.len() == w + (t.len() - r),
                forall|k: int| 0 <= k < w ==> self.macros@[k] == t[#[trigger] survivors(rs.take(r), d)[k]],
                forall|k: int| r <= k < t.len() ==> self.macros@[w + k - r] == #[trigger] t[k],
            decreases self.macros@.len() - w,
        {
            proof {
                assert(rs.take(r + 1).drop_last() =~= rs.take(r));
                assert(rs.take(r + 1).last() == rs[r]);
                assert(self.macros@[w as int] == t[r]);
            }
            if self.macros[w].is_finished() {
                self.macros.remove(w);
            } else {
                w += 1;
            }
            proof {
                r = r + 1;
            }
        }
        proof {
            assert(rs.take(r) =~= rs);
            lemma_survivors(rs, d);
            assert forall|k: int| 0 <= k < self.runners().len() implies (#[trigger] self.runners()[k]).wf() by {
                assert(self.macros@[k] == t[survivors(rs, d)[k]]);
            }
            assert forall|k: int| 0 <= k < self.runners().len() implies (#[trigger] self.runners()[k]).model().phase
                != Phase::Finished by {
                assert(self.macros@[k] == t[survivors(rs, d)[k]]);
            }
            let ks = self.keys@;
            assert forall|k: int, i: int|
                0 <= k < self.runners().len() && #[trigger] Self::is_first_key(
                    ks,
                    self.runners()[k].source_key(),
                    i,
                ) && self.runners()[k].source_layer() != ks[i].layer().id implies self.runners()[k].model().stopping by {
                let x = survivors(rs, d)[k];
                assert(self.macros@[k] == t[x]);
                assert(t[x].same_runner(&rs[x]));
                lemma_run_keeps_trigger(rs[x].spec_macro(), rs[x].model(), d);
                assert(Self::is_first_key(ks, rs[x].source_key(), i));
            }
        }
    }

    /// Adds `tags` to the internal bucket, then updates the layers.
    pub fn add_internal_tags(&mut self, tags: Vec<LayerTag>)
        requires
            old(self).wf(),
        ensures
            final(self).wf(),
            final(self).tag_list().internal_tags() == old(self).tag_list().internal_tags() + tag_views(tags@),
            final(self).tag_list().external_tags() == old(self).tag_list().external_tags(),
            Self::layers_updated(old(self).key_states(), old(self).runners(), *final(self)),
            final(self).keys_on_active_layers(),
    {
        self.tags.add_many_internal(tags);
        self.update_layers();
        proof {
            Self::lemma_layers_updated_keeps_wf(old(self).key_states(), old(self).runners(), *self);
            self.lemma_keys_on_active_layers();
        }
    }

    /// Takes the first occurrence of each of `tags` out of the internal
    /// bucket, then updates the layers.
    pub fn remove_internal_tags(&mut self, tags: Vec<LayerTag>)
        requires
            old(self).wf(),
        ensures
            final(self).wf(),
            final(self).tag_list().internal_tags() == without_each(
                old(self).tag_list().internal_tags(),
                tag_views(tags@),
            ),
            final(self).tag_list().external_tags() == old(self).tag_list().external_tags(),
            Self::layers_updated(old(self).key_states(), old(self).runners(), *final(self)),
            final(self).keys_on_active_layers(),
    {
        self.tags.remove_many_internal(tags);
        self.update_layers();
        proof {
            Self::lemma_layers_updated_keeps_wf(old(self).key_states(), old(self).runners(), *self);
            self.lemma_keys_on_active_layers();
        }
    }

    /// Replaces the external bucket with `tags`, then updates the layers.
    pub fn set_external_tags(&mut self, tags: Vec<LayerTag>)
        requires
            old(self).wf(),
        ensures
            final(self).wf(),
            final(self).tag_list().internal_tags() == old(self).tag_list().internal_tags(),
            final(self).tag_list().external_tags() == tag_views(tags@),
            Self::layers_updated(old(self).key_states(), old(self).runners(), *final(self)),
            final(self).keys_on_active_layers(),
    {
        self.tags.set_external(tags);
        self.update_layers();
        proof {
            Self::lemma_layers_updated_keeps_wf(old(self).key_states(), old(self).runners(), *self);
            self.lemma_keys_on_active_layers();
        }
    }

    /// Switches to `profile`: the keys are rebuilt from it on their default
    /// layers, every live runner is told to stop, and the layers are updated.
    /// The runners keep playing their own macros as they wind down.
    pub fn update_key_profile(&mut self, profile: &'a KeyboardProfile)
        requires
            old(self).wf(),
        ensures
            final(self).wf(),
            final(self).tag_list() == old(self).tag_list(),
            Self::keys_of(final(self).key_states(), *profile),
            final(self).keys_on_active_layers(),
            forall|i: int|
                0 <= i < final(self).key_states().len() ==> {
                    let key = profile.keys@[i];
                    let active = key.active_layer(&old(self).tag_list());
                    (#[trigger] final(self).key_states()[i]).layer() == if key.default_layer.id != active.id {
                        active
                    } else {
                        key.default_layer
                    }
                },
            final(self).runners().len() == old(self).runners().len(),
            forall|k: int|
                0 <= k < old(self).runners().len() ==> {
                    &&& (#[trigger] final(self).runners()[k]).same_runner(&old(self).runners()[k])
                    &&& final(self).runners()[k].model() == stopped(old(self).runners()[k].model())
                },
    {
        self.keys = KeyboardState::map_keys_from_profile(profile);
        let ghost ks = self.keys@;
        // release all
        let mut k: usize = 0;
        while k < self.macros.len()
            invariant
                k <= self.macros@.len(),
                self.macros@.len() == old(self).runners().len(),
                self.keys@ == ks,
                self.tags == old(self).tag_list(),
                forall|j: int| 0 <= j < self.macros@.len() ==> (#[trigger] self.macros@[j]).wf(),
                forall|j: int|
                    0 <= j < self.macros@.len() ==> {
                        &&& (#[trigger] self.macros@[j]).same_runner(&old(self).runners()[j])
                        &&& self.macros@[j].model() == if j < k {
                            stopped(old(self).runners()[j].model())
                        } else {
                            old(self).runners()[j].model()
                        }
                    },
            decreases old(self).runners().len() - k,
        {
            self.macros[k].stop();
            k += 1;
        }
        let ghost rs = self.macros@;
        let ghost ks1 = self.keys@;
        self.update_layers();
        proof {
            Self::lemma_layers_updated_keeps_wf(ks1, rs, *self);
            self.lemma_keys_on_active_layers();
            assert forall|k: int| 0 <= k < old(self).runners().len() implies (#[trigger] self.runners()[k]).model()
                == stopped(old(self).runners()[k].model()) by {
                assert(self.runners()[k].model() == stopped(rs[k].model()) || self.runners()[k].model()
                    == rs[k].model());
            }
        }
    }

    /// Tells every runner that plays on one of `channels` to stop.
    fn cut_channels(&mut self, channels: Vec<Channel>)
        requires
            old(self).wf(),
        ensures
            final(self).wf(),
            final(self).key_states() == old(self).key_states(),
            final(self).tag_list() == old(self).tag_list(),
            final(self).runners().len() == old(self).runners().len(),
            forall|k: int|
                0 <= k < old(self).runners().len() ==> {
                    &&& (#[trigger] final(self).runners()[k]).same_runner(&old(self).runners()[k])
                    &&& final(self).runners()[k].model() == if plays_on(
                        old(self).runners()[k],
                        |c: Channel| channels@.contains(c),
                    ) {
                        stopped(old(self).runners()[k].model())
                    } else {
                        old(self).runners()[k].model()
                    }
                },
    {
        let mut k: usize = 0;
        while k < self.macros.len()
            invariant
                k <= self.macros@.len(),
                self.macros@.len() == old(self).runners().len(),
                self.keys@ == old(self).key_states(),
                self.tags == old(self).tag_list(),
                forall|j: int| 0 <= j < self.macros@.len() ==> (#[trigger] self.macros@[j]).wf(),
                forall|j: int|
                    0 <= j < self.macros@.len() ==> {
                        &&& (#[trigger] self.macros@[j]).same_runner(&old(self).runners()[j])
                        &&& self.macros@[j].model() == if j < k && plays_on(
                            old(self).runners()[j],
                            |c: Channel| channels@.contains(c),
                        ) {
                            stopped(old(self).runners()[j].model())
                        } else {
                            old(self).runners()[j].model()
                        }
                    },
            decreases old(self).runners().len() - k,
        {
            let cut = match self.macros[k].macro_.play_channel {
                Some(channel) => channel_listed(&channels, channel),
                None => false,
            };
            if cut {
                self.macros[k].stop();
            }
            k += 1;
        }
    }
}

fn channel_listed(channels: &Vec<Channel>, c: Channel) -> (r: bool)
    ensures
        r == channels@.contains(c),
{
    let mut i: usize = 0;
    while i < channels.len()
        invariant
            i <= channels@.len(),
            forall|j: int| 0 <= j < i ==> channels@[j] != c,
        decreases channels@.len() - i,
    {
        if channels[i] == c {
            return true;
        }
        i += 1;
    }
    false
}

} // verus!
