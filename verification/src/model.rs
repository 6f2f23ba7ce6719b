//! The mathematical model of the engine's state and of its transitions.
//!
//! The executable state caches every binding's contribution and every
//! action's aggregate value; this module gives the ground truth those caches
//! must equal: a binding contributes the product of its slots' raw values,
//! an action's value is the sum of its bindings' contributions, and one
//! event atomically rewrites every slot that carries the event's code and
//! then rederives the action's edge flags from the new value.

use vstd::prelude::*;

verus! {

use crate::input_code::InputCode;
use crate::MAX_INPUT_VALUE;

/// One slot of a binding: the input code it listens to and the last raw
/// value received for that code.
pub ghost struct SlotM {
    pub code: InputCode,
    pub value: int,
}

/// One action's state: its bindings (each an AND-group of slots), the
/// level flag recording whether the action was pressing after the last
/// event that touched it, and the two sticky this-tick edge flags.
#[verifier::ext_equal]
pub ghost struct ActionM {
    pub binds: Seq<Seq<SlotM>>,
    pub was_pressing: bool,
    pub pressed: bool,
    pub released: bool,
}

/// The whole engine state, abstractly.
#[verifier::ext_equal]
pub ghost struct MapM {
    pub actions: Seq<ActionM>,
    pub press_sensitivity: int,
    pub recently_pressed: Option<InputCode>,
    pub text_typed: Option<Seq<char>>,
    pub mouse_pos: (int, int),
    /// Every input code some slot listens to, in registration order.
    pub codes: Seq<InputCode>,
}

/// How one event changes the raw value of a slot it reaches: either
/// overwrite it, or add to it (saturating at [`MAX_INPUT_VALUE`], the way
/// relative deltas accumulate within a tick).
#[derive(Clone, Copy, PartialEq, Eq, Debug, Structural)]
pub enum SlotOp {
    Write(i64),
    Add(i64),
}

/// The new raw value of a slot holding `old_v` after `op`.
pub open spec fn op_apply(op: SlotOp, old_v: int) -> int {
    match op {
        SlotOp::Write(v) => v as int,
        SlotOp::Add(d) => if old_v + d <= MAX_INPUT_VALUE as int {
            old_v + d
        } else {
            MAX_INPUT_VALUE as int
        },
    }
}

/// Whether `op` carries an in-range magnitude.
pub open spec fn op_in_range(op: SlotOp) -> bool {
    match op {
        SlotOp::Write(v) => 0 <= v <= MAX_INPUT_VALUE,
        SlotOp::Add(d) => 0 <= d <= MAX_INPUT_VALUE,
    }
}

/// A binding's contribution: the product of its slots' raw values.  The
/// empty product is 1, so a binding with no slots contributes 1 forever.
pub open spec fn prod(s: Seq<SlotM>) -> int
    decreases s.len(),
{
    if s.len() == 0 {
        1
    } else {
        prod(s.drop_last()) * s.last().value
    }
}

/// An action's aggregate value: the sum of its bindings' contributions.
pub open spec fn sum_binds(binds: Seq<Seq<SlotM>>) -> int
    decreases binds.len(),
{
    if binds.len() == 0 {
        0
    } else {
        sum_binds(binds.drop_last()) + prod(binds.last())
    }
}

/// The aggregate value of action `a` in `m`; an action that was never
/// declared has value 0.
pub open spec fn map_value(m: MapM, a: int) -> int {
    if 0 <= a < m.actions.len() {
        sum_binds(m.actions[a].binds)
    } else {
        0
    }
}

/// Whether some slot of `am` listens to `c`.
pub open spec fn touches(am: ActionM, c: InputCode) -> bool {
    exists|i: int, j: int|
        0 <= i < am.binds.len() && 0 <= j < am.binds[i].len() && am.binds[i][j].code == c
}

/// `am` with every slot that listens to `c` stepped by `op`.
pub open spec fn upd_slots(am: ActionM, c: InputCode, op: SlotOp) -> ActionM {
    ActionM {
        binds: Seq::new(
            am.binds.len(),
            |i: int|
                Seq::new(
                    am.binds[i].len(),
                    |j: int|
                        if am.binds[i][j].code == c {
                            SlotM { code: c, value: op_apply(op, am.binds[i][j].value) }
                        } else {
                            am.binds[i][j]
                        },
                ),
        ),
        ..am
    }
}

/// Rederives the edge flags of `am` from its current aggregate value.
/// `pressed` and `released` are sticky within a tick: an event can set
/// them, and only the tick boundary clears them.
pub open spec fn step_flags(am: ActionM, sens: int) -> ActionM {
    let now = sum_binds(am.binds) >= sens;
    ActionM {
        was_pressing: now,
        pressed: am.pressed || (now && !am.was_pressing),
        released: am.released || (!now && am.was_pressing),
        ..am
    }
}

/// One event `(c, op)` as the engine sees it, atomically: every action with
/// a slot listening to `c` has those slots stepped and its flags rederived;
/// every other action is untouched.  If the event presses some affected
/// action and `c` is a concrete (non-wildcard) code, `c` is recorded as
/// most recently pressed; if no slot at all listens to `c`, the event is
/// only remembered there, when stepping an empty slot would have crossed
/// the threshold.
pub open spec fn apply_op_m(m: MapM, c: InputCode, op: SlotOp) -> MapM {
    let touched_any = exists|a: int| 0 <= a < m.actions.len() && touches(m.actions[a], c);
    let pressing_touched = exists|a: int|
        0 <= a < m.actions.len() && touches(m.actions[a], c) && sum_binds(
            upd_slots(m.actions[a], c, op).binds,
        ) >= m.press_sensitivity;
    let hit = if touched_any {
        pressing_touched
    } else {
        op_apply(op, 0) >= m.press_sensitivity
    };
    MapM {
        actions: Seq::new(
            m.actions.len(),
            |a: int|
                if touches(m.actions[a], c) {
                    step_flags(upd_slots(m.actions[a], c, op), m.press_sensitivity)
                } else {
                    m.actions[a]
                },
        ),
        recently_pressed: if !c.spec_is_any() && hit {
            Some(c)
        } else {
            m.recently_pressed
        },
        ..m
    }
}

/// One physical event, routed under both of its scopes: first the code as
/// given, then its wildcard form, so bindings declared against either scope
/// observe it.
pub open spec fn apply_dual_m(m: MapM, c: InputCode, op: SlotOp) -> MapM {
    apply_op_m(apply_op_m(m, c, op), c.spec_set_any(), op)
}


/// Well-formedness of the abstract state: raw values are in range, chord
/// arity and bindings per action are within the engine's capacity, and
/// `codes` lists exactly the codes some slot listens to, without repeats.
pub open spec fn model_wf(m: MapM) -> bool {
    &&& forall|a: int, i: int, j: int|
        0 <= a < m.actions.len() && 0 <= i < m.actions[a].binds.len() && 0 <= j
            < m.actions[a].binds[i].len() ==> 0 <= #[trigger] m.actions[a].binds[i][j].value
            <= MAX_INPUT_VALUE
    &&& forall|a: int, i: int|
        0 <= a < m.actions.len() && 0 <= i < m.actions[a].binds.len() ==> #[trigger] m.actions[a].binds[i].len()
            <= crate::MAX_BIND_ARITY
    &&& forall|a: int|
        0 <= a < m.actions.len() ==> #[trigger] m.actions[a].binds.len()
            <= crate::MAX_BINDS_PER_ACTION
    &&& forall|p: int, q: int| 0 <= p < q < m.codes.len() ==> m.codes[p] != m.codes[q]
    &&& forall|p: int|
        0 <= p < m.codes.len() ==> exists|a: int, i: int, j: int|
            0 <= a < m.actions.len() && 0 <= i < m.actions[a].binds.len() && 0 <= j
                < m.actions[a].binds[i].len() && m.actions[a].binds[i][j].code == #[trigger] m.codes[p]
    &&& forall|a: int, i: int, j: int|
        0 <= a < m.actions.len() && 0 <= i < m.actions[a].binds.len() && 0 <= j
            < m.actions[a].binds[i].len() ==> m.codes.contains(
            #[trigger] m.actions[a].binds[i][j].code,
        )
}

/// The state of a freshly built engine: no actions, no registered codes,
/// the default press sensitivity, and neutral transient state.
pub open spec fn empty_m() -> MapM {
    MapM {
        actions: Seq::empty(),
        press_sensitivity: crate::DEFAULT_PRESS_SENSITIVITY as int,
        recently_pressed: None,
        text_typed: None,
        mouse_pos: (0, 0),
        codes: Seq::empty(),
    }
}

/// An action that was declared but owns no bindings yet.
pub open spec fn empty_action() -> ActionM {
    ActionM { binds: Seq::empty(), was_pressing: false, pressed: false, released: false }
}

/// A fresh binding over `codes`: one slot per code, every raw value 0.
pub open spec fn new_bind(codes: Seq<InputCode>) -> Seq<SlotM> {
    Seq::new(codes.len(), |j: int| SlotM { code: codes[j], value: 0 })
}

/// The action list extended with empty actions until index `a` exists.
pub open spec fn grow_actions(actions: Seq<ActionM>, a: int) -> Seq<ActionM> {
    if a < actions.len() {
        actions
    } else {
        actions + Seq::new((a + 1 - actions.len()) as nat, |x: int| empty_action())
    }
}

/// `codes` with `c` appended unless already registered.
pub open spec fn register_code(codes: Seq<InputCode>, c: InputCode) -> Seq<InputCode> {
    if codes.contains(c) {
        codes
    } else {
        codes.push(c)
    }
}

/// `codes` with every code of `cs` registered, in order.
pub open spec fn register_codes(codes: Seq<InputCode>, cs: Seq<InputCode>) -> Seq<InputCode>
    decreases cs.len(),
{
    if cs.len() == 0 {
        codes
    } else {
        register_codes(register_code(codes, cs[0]), cs.drop_first())
    }
}

/// One declarative entry applied to the state: the action `a` is declared
/// if it was not yet, each bind list of `bls` becomes one fresh binding of
/// `a`, and the new slots' codes are registered in order.
pub open spec fn add_entry_m(m: MapM, a: int, bls: Seq<Seq<InputCode>>) -> MapM {
    let grown = grow_actions(m.actions, a);
    MapM {
        actions: grown.update(
            a,
            ActionM {
                binds: grown[a].binds + Seq::new(bls.len(), |i: int| new_bind(bls[i])),
                ..grown[a]
            },
        ),
        codes: register_bind_lists(m.codes, bls),
        ..m
    }
}

/// The codes of a list of bind lists registered, bind by bind, in order.
pub open spec fn register_bind_lists(codes: Seq<InputCode>, bls: Seq<Seq<InputCode>>) -> Seq<
    InputCode,
>
    decreases bls.len(),
{
    if bls.len() == 0 {
        codes
    } else {
        register_bind_lists(register_codes(codes, bls[0]), bls.drop_first())
    }
}

/// A whole declarative bind list applied entry by entry.
pub open spec fn add_binds_m(m: MapM, entries: Seq<(int, Seq<Seq<InputCode>>)>) -> MapM
    decreases entries.len(),
{
    if entries.len() == 0 {
        m
    } else {
        add_binds_m(add_entry_m(m, entries[0].0, entries[0].1), entries.drop_first())
    }
}

/// How many bindings action `a` owns in `m`; 0 if it was never declared.
pub open spec fn bind_count(m: MapM, a: int) -> int {
    if 0 <= a < m.actions.len() {
        m.actions[a].binds.len() as int
    } else {
        0
    }
}

/// How many bindings `entries` would append to action `a`.
pub open spec fn count_new_binds(entries: Seq<(int, Seq<Seq<InputCode>>)>, a: int) -> int
    decreases entries.len(),
{
    if entries.len() == 0 {
        0
    } else {
        (if entries[0].0 == a {
            entries[0].1.len() as int
        } else {
            0
        }) + count_new_binds(entries.drop_first(), a)
    }
}

/// Whether `entries` fits the engine's capacity when added to `m`: every
/// named action index leaves room to grow the list, every bind stays
/// within the chord arity limit, and no action ends up with more bindings
/// than the engine supports.
pub open spec fn addable(m: MapM, entries: Seq<(int, Seq<Seq<InputCode>>)>) -> bool {
    &&& forall|e: int| 0 <= e < entries.len() ==> 0 <= (#[trigger] entries[e]).0 < usize::MAX
    &&& forall|e: int, i: int|
        0 <= e < entries.len() && 0 <= i < entries[e].1.len() ==> (#[trigger] entries[e].1[i]).len()
            <= crate::MAX_BIND_ARITY
    &&& forall|a: int|
        0 <= a ==> bind_count(m, a) + #[trigger] count_new_binds(entries, a)
            <= crate::MAX_BINDS_PER_ACTION
}

/// `cap` multiplied by itself `n` times.
pub open spec fn cap_pow(cap: int, n: nat) -> int
    decreases n,
{
    if n == 0 {
        1
    } else {
        cap_pow(cap, (n - 1) as nat) * cap
    }
}

/// The largest contribution a binding within capacity can reach.
pub open spec fn max_contribution() -> int {
    cap_pow(MAX_INPUT_VALUE as int, crate::MAX_BIND_ARITY as nat)
}

/// The largest aggregate value an action within capacity can reach.
pub open spec fn max_action_value() -> int {
    crate::MAX_BINDS_PER_ACTION * max_contribution()
}

pub proof fn lemma_cap_pow_pos(cap: int, n: nat)
    requires
        1 <= cap,
    ensures
        1 <= cap_pow(cap, n),
    decreases n,
{
    if n > 0 {
        lemma_cap_pow_pos(cap, (n - 1) as nat);
        let p = cap_pow(cap, (n - 1) as nat);
        assert(1 <= p * cap) by (nonlinear_arith)
            requires
                1 <= p,
                1 <= cap,
        ;
    }
}

pub proof fn lemma_cap_pow_mono(cap: int, n1: nat, n2: nat)
    requires
        1 <= cap,
        n1 <= n2,
    ensures
        cap_pow(cap, n1) <= cap_pow(cap, n2),
    decreases n2,
{
    if n1 < n2 {
        lemma_cap_pow_mono(cap, n1, (n2 - 1) as nat);
        lemma_cap_pow_pos(cap, (n2 - 1) as nat);
        let p = cap_pow(cap, (n2 - 1) as nat);
        assert(p <= p * cap) by (nonlinear_arith)
            requires
                1 <= p,
                1 <= cap,
        ;
    }
}

/// A product of `s.len()` factors in `[0, cap]` lies in `[0, cap^len]`.
pub proof fn lemma_prod_le_cap_pow(s: Seq<SlotM>, cap: int)
    requires
        1 <= cap,
        forall|j: int| 0 <= j < s.len() ==> 0 <= (#[trigger] s[j]).value <= cap,
    ensures
        0 <= prod(s) <= cap_pow(cap, s.len() as nat),
    decreases s.len(),
{
    if s.len() > 0 {
        lemma_prod_le_cap_pow(s.drop_last(), cap);
        let p = prod(s.drop_last());
        let q = cap_pow(cap, (s.len() - 1) as nat);
        let v = s.last().value;
        assert(0 <= p * v <= q * cap) by (nonlinear_arith)
            requires
                0 <= p <= q,
                0 <= v <= cap,
        ;
    }
}

/// A binding within capacity contributes a value in `[0, max_contribution()]`.
pub proof fn lemma_prod_bounds(s: Seq<SlotM>)
    requires
        s.len() <= crate::MAX_BIND_ARITY,
        forall|j: int| 0 <= j < s.len() ==> 0 <= (#[trigger] s[j]).value <= MAX_INPUT_VALUE,
    ensures
        0 <= prod(s) <= max_contribution(),
{
    lemma_prod_le_cap_pow(s, MAX_INPUT_VALUE as int);
    lemma_cap_pow_mono(MAX_INPUT_VALUE as int, s.len() as nat, crate::MAX_BIND_ARITY as nat);
}

/// An action within capacity has an aggregate value in
/// `[0, binds.len() * max_contribution()]`.
pub proof fn lemma_sum_bounds(binds: Seq<Seq<SlotM>>)
    requires
        forall|i: int| 0 <= i < binds.len() ==> (#[trigger] binds[i]).len() <= crate::MAX_BIND_ARITY,
        forall|i: int, j: int|
            0 <= i < binds.len() && 0 <= j < binds[i].len() ==> 0 <= #[trigger] binds[i][j].value
                <= MAX_INPUT_VALUE,
    ensures
        0 <= sum_binds(binds) <= binds.len() * max_contribution(),
    decreases binds.len(),
{
    if binds.len() == 0 {
    } else {
        lemma_sum_bounds(binds.drop_last());
        lemma_prod_bounds(binds.last());
        let n = binds.len() as int;
        let s = sum_binds(binds.drop_last());
        let p = prod(binds.last());
        let mc = max_contribution();
        assert(0 <= s + p <= n * mc) by (nonlinear_arith)
            requires
                0 <= s <= (n - 1) * mc,
                0 <= p <= mc,
        ;
    }
}

/// The engine's capacity limits in figures: what one binding and one
/// action can at most contribute, comfortably within the machine range.
pub proof fn lemma_capacity_constants()
    ensures
        max_contribution() == 72040003462430721,
        max_action_value() == 1152640055398891536,
        max_action_value() < 0x2000_0000_0000_0000,
{
    let mi = MAX_INPUT_VALUE as int;
    assert(cap_pow(mi, 0) == 1);
    assert(cap_pow(mi, 1) == cap_pow(mi, 0) * mi);
    assert(cap_pow(mi, 2) == cap_pow(mi, 1) * mi);
    assert(cap_pow(mi, 3) == cap_pow(mi, 2) * mi);
    assert(cap_pow(mi, 4) == cap_pow(mi, 3) * mi);
}

/// Pulling one factor out of a binding's contribution.
pub proof fn lemma_prod_remove(s: Seq<SlotM>, j: int)
    requires
        0 <= j < s.len(),
    ensures
        prod(s) == s[j].value * prod(s.remove(j)),
    decreases s.len(),
{
    let v = s[j].value;
    if j == s.len() - 1 {
        assert(s.remove(j) =~= s.drop_last());
        assert(prod(s) == prod(s.drop_last()) * v);
    } else {
        let dl = s.drop_last();
        lemma_prod_remove(dl, j);
        assert(s.remove(j).drop_last() =~= dl.remove(j));
        assert(s.remove(j).last() == s.last());
        let p = prod(dl.remove(j));
        let l = s.last().value;
        assert((v * p) * l == v * (p * l)) by (nonlinear_arith);
    }
}

/// Overwriting one slot rescales the contribution to the new factor times
/// the product of the remaining slots.
pub proof fn lemma_prod_update(s: Seq<SlotM>, j: int, x: SlotM)
    requires
        0 <= j < s.len(),
    ensures
        prod(s.update(j, x)) == x.value * prod(s.remove(j)),
{
    lemma_prod_remove(s.update(j, x), j);
    assert(s.update(j, x).remove(j) =~= s.remove(j));
}

/// Replacing one binding changes the aggregate by the difference of the two
/// contributions.
pub proof fn lemma_sum_update(binds: Seq<Seq<SlotM>>, i: int, nb: Seq<SlotM>)
    requires
        0 <= i < binds.len(),
    ensures
        sum_binds(binds.update(i, nb)) == sum_binds(binds) - prod(binds[i]) + prod(nb),
    decreases binds.len(),
{
    if i == binds.len() - 1 {
        assert(binds.update(i, nb).drop_last() =~= binds.drop_last());
        assert(binds.update(i, nb).last() == nb);
    } else {
        let dl = binds.drop_last();
        lemma_sum_update(dl, i, nb);
        assert(binds.update(i, nb).drop_last() =~= dl.update(i, nb));
        assert(binds.update(i, nb).last() == binds.last());
    }
}



/// Appending one more declarative entry to a whole add.
pub proof fn lemma_add_binds_push(
    m: MapM,
    entries: Seq<(int, Seq<Seq<InputCode>>)>,
    e: (int, Seq<Seq<InputCode>>),
)
    ensures
        add_binds_m(m, entries.push(e)) == add_entry_m(add_binds_m(m, entries), e.0, e.1),
    decreases entries.len(),
{
    if entries.len() == 0 {
        assert(entries.push(e)[0] == e);
        assert(entries.push(e).drop_first() =~= Seq::<(int, Seq<Seq<InputCode>>)>::empty());
        let m1 = add_entry_m(m, e.0, e.1);
        assert(add_binds_m(m, entries.push(e)) == add_binds_m(m1, entries.push(e).drop_first()));
        assert(add_binds_m(m1, Seq::<(int, Seq<Seq<InputCode>>)>::empty()) == m1);
        assert(add_binds_m(m, entries) == m);
    } else {
        assert(entries.push(e)[0] == entries[0]);
        assert(entries.push(e).drop_first() =~= entries.drop_first().push(e));
        let m1 = add_entry_m(m, entries[0].0, entries[0].1);
        lemma_add_binds_push(m1, entries.drop_first(), e);
        assert(add_binds_m(m, entries.push(e)) == add_binds_m(m1, entries.drop_first().push(e)));
        assert(add_binds_m(m, entries) == add_binds_m(m1, entries.drop_first()));
    }
}

/// One entry grows exactly the named action's binding list.
pub proof fn lemma_bind_count_entry(m: MapM, a0: int, bls: Seq<Seq<InputCode>>, a: int)
    requires
        0 <= a0,
        0 <= a,
    ensures
        bind_count(add_entry_m(m, a0, bls), a) == bind_count(m, a) + if a == a0 {
            bls.len() as int
        } else {
            0
        },
{
    let grown = grow_actions(m.actions, a0);
}

/// A whole add grows each action by the number of bindings the entries
/// declare for it.
pub proof fn lemma_bind_count_add(m: MapM, entries: Seq<(int, Seq<Seq<InputCode>>)>, a: int)
    requires
        0 <= a,
        forall|e: int| 0 <= e < entries.len() ==> 0 <= (#[trigger] entries[e]).0,
    ensures
        bind_count(add_binds_m(m, entries), a) == bind_count(m, a) + count_new_binds(entries, a),
    decreases entries.len(),
{
    if entries.len() > 0 {
        let m1 = add_entry_m(m, entries[0].0, entries[0].1);
        lemma_bind_count_entry(m, entries[0].0, entries[0].1, a);
        lemma_bind_count_add(m1, entries.drop_first(), a);
    }
}

/// Declared bindings count across a concatenation.
pub proof fn lemma_count_concat(
    s1: Seq<(int, Seq<Seq<InputCode>>)>,
    s2: Seq<(int, Seq<Seq<InputCode>>)>,
    a: int,
)
    ensures
        count_new_binds(s1 + s2, a) == count_new_binds(s1, a) + count_new_binds(s2, a),
    decreases s1.len(),
{
    if s1.len() == 0 {
        assert(s1 + s2 =~= s2);
    } else {
        assert((s1 + s2)[0] == s1[0]);
        assert((s1 + s2).drop_first() =~= s1.drop_first() + s2);
        lemma_count_concat(s1.drop_first(), s2, a);
    }
}

/// No entry removes bindings.
pub proof fn lemma_count_nonneg(entries: Seq<(int, Seq<Seq<InputCode>>)>, a: int)
    ensures
        count_new_binds(entries, a) >= 0,
    decreases entries.len(),
{
    if entries.len() > 0 {
        lemma_count_nonneg(entries.drop_first(), a)
    }
}

/// A fresh binding contributes 1 when it has no slots (the empty AND-group
/// holds vacuously) and 0 otherwise (all of its raw values start at 0).
pub proof fn lemma_prod_new_bind(codes: Seq<InputCode>)
    ensures
        prod(new_bind(codes)) == if codes.len() == 0 {
            1int
        } else {
            0
        },
{
    if codes.len() == 0 {
        assert(new_bind(codes) =~= Seq::<SlotM>::empty());
    } else {
        assert(new_bind(codes).last().value == 0);
    }
}

/// Appending one more binding adds its contribution to the sum.
pub proof fn lemma_sum_push(binds: Seq<Seq<SlotM>>, b: Seq<SlotM>)
    ensures
        sum_binds(binds.push(b)) == sum_binds(binds) + prod(b),
{
    assert(binds.push(b).drop_last() =~= binds);
    assert(binds.push(b).last() == b);
}

/// Registering codes one at a time agrees with registering them all.
pub proof fn lemma_register_codes_push(codes: Seq<InputCode>, cs: Seq<InputCode>, c: InputCode)
    ensures
        register_codes(codes, cs.push(c)) == register_code(register_codes(codes, cs), c),
    decreases cs.len(),
{
    if cs.len() == 0 {
        assert(cs.push(c)[0] == c);
        assert(cs.push(c).drop_first() =~= Seq::<InputCode>::empty());
        assert(register_codes(register_code(codes, c), Seq::<InputCode>::empty())
            == register_code(codes, c));
        assert(register_codes(codes, cs) == codes);
    } else {
        assert(cs.push(c)[0] == cs[0]);
        assert(cs.push(c).drop_first() =~= cs.drop_first().push(c));
        lemma_register_codes_push(register_code(codes, cs[0]), cs.drop_first(), c);
    }
}



/// `m` with action `a` declared (empty) if it does not exist yet.
pub open spec fn grow_m(m: MapM, a: int) -> MapM {
    MapM { actions: grow_actions(m.actions, a), ..m }
}

/// One fresh binding over `cs` appended to the existing action `a`, its
/// slots' codes registered in order.
pub open spec fn add_bind_single_m(m: MapM, a: int, cs: Seq<InputCode>) -> MapM {
    MapM {
        actions: m.actions.update(
            a,
            ActionM { binds: m.actions[a].binds.push(new_bind(cs)), ..m.actions[a] },
        ),
        codes: register_codes(m.codes, cs),
        ..m
    }
}

/// Fresh bindings appended to action `a` one by one.
pub open spec fn binds_fold_m(m: MapM, a: int, bls: Seq<Seq<InputCode>>) -> MapM
    decreases bls.len(),
{
    if bls.len() == 0 {
        m
    } else {
        binds_fold_m(add_bind_single_m(m, a, bls[0]), a, bls.drop_first())
    }
}

/// Appending bindings one at a time agrees with appending them all.
pub proof fn lemma_binds_fold_push(m: MapM, a: int, bls: Seq<Seq<InputCode>>, b: Seq<InputCode>)
    ensures
        binds_fold_m(m, a, bls.push(b)) == add_bind_single_m(binds_fold_m(m, a, bls), a, b),
    decreases bls.len(),
{
    if bls.len() == 0 {
        assert(bls.push(b)[0] == b);
        assert(bls.push(b).drop_first() =~= Seq::<Seq<InputCode>>::empty());
        let m1 = add_bind_single_m(m, a, b);
        assert(binds_fold_m(m, a, bls.push(b)) == binds_fold_m(m1, a, bls.push(b).drop_first()));
        assert(binds_fold_m(m1, a, Seq::<Seq<InputCode>>::empty()) == m1);
        assert(binds_fold_m(m, a, bls) == m);
    } else {
        assert(bls.push(b)[0] == bls[0]);
        assert(bls.push(b).drop_first() =~= bls.drop_first().push(b));
        let m1 = add_bind_single_m(m, a, bls[0]);
        lemma_binds_fold_push(m1, a, bls.drop_first(), b);
        assert(binds_fold_m(m, a, bls.push(b)) == binds_fold_m(m1, a, bls.drop_first().push(b)));
        assert(binds_fold_m(m, a, bls) == binds_fold_m(m1, a, bls.drop_first()));
    }
}

/// One declarative entry is: declare the action, then append its bindings
/// one by one.
pub proof fn lemma_entry_is_fold(m: MapM, a: int, bls: Seq<Seq<InputCode>>)
    requires
        0 <= a < usize::MAX,
    ensures
        add_entry_m(m, a, bls) == binds_fold_m(grow_m(m, a), a, bls),
    decreases bls.len(),
{
    let grown = grow_m(m, a);
    if bls.len() == 0 {
        assert(grown.actions[a].binds + Seq::new(0, |i: int| new_bind(bls[i]))
            =~= grown.actions[a].binds);
        assert(grown.actions.update(a, grown.actions[a]) =~= grown.actions);
        assert(add_entry_m(m, a, bls).actions =~= grown.actions);
        assert(add_entry_m(m, a, bls) =~~= grown);
    } else {
        let m1 = add_bind_single_m(grown, a, bls[0]);
        assert(grow_m(m1, a) =~~= m1) by {
            assert(grow_actions(m1.actions, a) == m1.actions);
        }
        lemma_entry_is_fold(m1, a, bls.drop_first());
        assert(add_entry_m(m1, a, bls.drop_first()) == binds_fold_m(m1, a, bls.drop_first()));
        assert(binds_fold_m(grown, a, bls) == binds_fold_m(m1, a, bls.drop_first()));
        assert(add_entry_m(m, a, bls) =~~= add_entry_m(m1, a, bls.drop_first())) by {
            let lhs = add_entry_m(m, a, bls);
            let rhs = add_entry_m(m1, a, bls.drop_first());
            assert(grow_actions(m1.actions, a) == m1.actions);
            assert(rhs.actions == m1.actions.update(
                a,
                ActionM {
                    binds: m1.actions[a].binds + Seq::new(
                        bls.drop_first().len(),
                        |i: int| new_bind(bls.drop_first()[i]),
                    ),
                    ..m1.actions[a]
                },
            ));
            assert(m1.actions[a].binds =~= grown.actions[a].binds.push(new_bind(bls[0])));
            assert(m1.actions[a].binds + Seq::new(
                bls.drop_first().len(),
                |i: int| new_bind(bls.drop_first()[i]),
            ) =~= grown.actions[a].binds + Seq::new(bls.len(), |i: int| new_bind(bls[i])));
            assert(lhs.actions =~~= rhs.actions);
            assert(lhs.codes == rhs.codes) by {
                assert(register_bind_lists(m.codes, bls) == register_bind_lists(
                    register_codes(m.codes, bls[0]),
                    bls.drop_first(),
                ));
            }
        }
    }
}


/// Registration keeps codes distinct and registers exactly the given codes.
pub proof fn lemma_register_codes_facts(codes: Seq<InputCode>, cs: Seq<InputCode>)
    requires
        forall|p: int, q: int| 0 <= p < q < codes.len() ==> codes[p] != codes[q],
    ensures
        forall|p: int, q: int|
            0 <= p < q < register_codes(codes, cs).len() ==> register_codes(codes, cs)[p]
                != register_codes(codes, cs)[q],
        forall|c: InputCode|
            #[trigger] register_codes(codes, cs).contains(c) <==> codes.contains(c)
                || cs.contains(c),
    decreases cs.len(),
{
    if cs.len() == 0 {
        assert forall|c: InputCode| #[trigger]
            register_codes(codes, cs).contains(c) <==> codes.contains(c) || cs.contains(
                c,
            ) by {
            assert(!cs.contains(c));
        }
    } else {
        let c0 = cs[0];
        let codes1 = register_code(codes, c0);
        assert forall|p: int, q: int| 0 <= p < q < codes1.len() implies codes1[p] != codes1[q] by {
            if !codes.contains(c0) {
                if q == codes.len() as int {
                    assert(codes1[q] == c0);
                    if codes1[p] == c0 {
                        assert(codes[p] == c0);
                        assert(codes.contains(c0));
                    }
                }
            }
        }
        assert(forall|c: InputCode|
            codes1.contains(c) <==> codes.contains(c) || c == c0) by {
            assert forall|c: InputCode| codes1.contains(c) implies codes.contains(c) || c
                == c0 by {
                let i = choose|i: int| 0 <= i < codes1.len() && codes1[i] == c;
                if i < codes.len() {
                    assert(codes[i] == c);
                }
            }
            assert forall|c: InputCode| codes.contains(c) || c == c0 implies codes1.contains(
                c,
            ) by {
                if codes.contains(c) {
                    let i = choose|i: int| 0 <= i < codes.len() && codes[i] == c;
                    assert(codes1[i] == c);
                } else {
                    if codes.contains(c0) {
                        assert(codes1.contains(c0));
                    } else {
                        assert(codes1[codes.len() as int] == c0);
                    }
                }
            }
        }
        lemma_register_codes_facts(codes1, cs.drop_first());
        assert(register_codes(codes, cs) == register_codes(codes1, cs.drop_first()));
        assert forall|c: InputCode| #[trigger]
            register_codes(codes, cs).contains(c) <==> codes.contains(c) || cs.contains(
                c,
            ) by {
            if cs.contains(c) {
                let i = choose|i: int| 0 <= i < cs.len() && cs[i] == c;
                if i == 0 {
                    assert(codes1.contains(c));
                } else {
                    assert(cs.drop_first()[i - 1] == c);
                    assert(cs.drop_first().contains(c));
                }
            }
            if cs.drop_first().contains(c) {
                let i = choose|i: int| 0 <= i < cs.drop_first().len() && cs.drop_first()[i] == c;
                assert(cs[i + 1] == c);
                assert(cs.contains(c));
            }
            if c == c0 {
                assert(cs.contains(c));
            }
        }
    }
}


/// `m` with every action and every registered code removed; thresholds and
/// transient state stay.
pub open spec fn cleared_m(m: MapM) -> MapM {
    MapM { actions: Seq::empty(), codes: Seq::empty(), ..m }
}

/// Entries that never name `a` declare nothing for it.
pub proof fn lemma_count_zero(entries: Seq<(int, Seq<Seq<InputCode>>)>, a: int)
    requires
        forall|e: int| 0 <= e < entries.len() ==> (#[trigger] entries[e]).0 != a,
    ensures
        count_new_binds(entries, a) == 0,
    decreases entries.len(),
{
    if entries.len() > 0 {
        lemma_count_zero(entries.drop_first(), a);
    }
}


/// One more entry adds its declared bindings to the count.
pub proof fn lemma_count_push(
    entries: Seq<(int, Seq<Seq<InputCode>>)>,
    x: (int, Seq<Seq<InputCode>>),
    a: int,
)
    ensures
        count_new_binds(entries.push(x), a) == count_new_binds(entries, a) + if x.0 == a {
            x.1.len() as int
        } else {
            0
        },
    decreases entries.len(),
{
    if entries.len() == 0 {
        assert(entries.push(x)[0] == x);
        assert(entries.push(x).drop_first() =~= Seq::<(int, Seq<Seq<InputCode>>)>::empty());
        assert(count_new_binds(Seq::<(int, Seq<Seq<InputCode>>)>::empty(), a) == 0);
    } else {
        assert(entries.push(x)[0] == entries[0]);
        assert(entries.push(x).drop_first() =~= entries.drop_first().push(x));
        lemma_count_push(entries.drop_first(), x, a);
        assert(count_new_binds(entries.push(x), a) == (if entries[0].0 == a {
            entries[0].1.len() as int
        } else {
            0
        }) + count_new_binds(entries.drop_first().push(x), a));
        assert(count_new_binds(entries, a) == (if entries[0].0 == a {
            entries[0].1.len() as int
        } else {
            0
        }) + count_new_binds(entries.drop_first(), a));
    }
}


/// Zeroing events for `codes`, applied left to right through the same
/// atomic step a real event takes.
pub open spec fn zero_codes_m(m: MapM, codes: Seq<InputCode>) -> MapM
    decreases codes.len(),
{
    if codes.len() == 0 {
        m
    } else {
        zero_codes_m(apply_op_m(m, codes[0], SlotOp::Write(0)), codes.drop_first())
    }
}

/// Appending one more code to a zeroing sweep.
pub proof fn lemma_zero_codes_push(m: MapM, codes: Seq<InputCode>, c: InputCode)
    ensures
        zero_codes_m(m, codes.push(c)) == apply_op_m(zero_codes_m(m, codes), c, SlotOp::Write(0)),
    decreases codes.len(),
{
    if codes.len() == 0 {
        assert(codes.push(c)[0] == c);
        assert(codes.push(c).drop_first() =~= Seq::<InputCode>::empty());
        let m1 = apply_op_m(m, c, SlotOp::Write(0));
        assert(zero_codes_m(m, codes.push(c)) == zero_codes_m(m1, codes.push(c).drop_first()));
        assert(zero_codes_m(m1, Seq::<InputCode>::empty()) == m1);
        assert(zero_codes_m(m, codes) == m);
    } else {
        assert(codes.push(c)[0] == codes[0]);
        assert(codes.push(c).drop_first() =~= codes.drop_first().push(c));
        let m1 = apply_op_m(m, codes[0], SlotOp::Write(0));
        lemma_zero_codes_push(m1, codes.drop_first(), c);
        assert(zero_codes_m(m, codes.push(c)) == zero_codes_m(m1, codes.drop_first().push(c)));
        assert(zero_codes_m(m, codes) == zero_codes_m(m1, codes.drop_first()));
    }
}

/// Filtering distributes over appending one element.
pub proof fn lemma_filter_push(s: Seq<InputCode>, pred: spec_fn(InputCode) -> bool, c: InputCode)
    ensures
        s.push(c).filter(pred) == if pred(c) {
            s.filter(pred).push(c)
        } else {
            s.filter(pred)
        },
{
    reveal(Seq::filter);
    assert(s.push(c).drop_last() =~= s);
    assert(s.push(c).last() == c);
}

/// A filter that refuses nothing keeps the sequence.
pub proof fn lemma_filter_all(s: Seq<InputCode>, pred: spec_fn(InputCode) -> bool)
    requires
        forall|c: InputCode| #[trigger] pred(c),
    ensures
        s.filter(pred) == s,
    decreases s.len(),
{
    reveal(Seq::filter);
    if s.len() > 0 {
        lemma_filter_all(s.drop_last(), pred);
        assert(s.filter(pred) =~= s);
    } else {
        assert(s.filter(pred) =~= s);
    }
}

/// Every tick-transient field reset: the edge flags of every action, the
/// most recently pressed code, and the typed-text buffer.  Level state —
/// slot values, aggregates, the was-pressing flags, the mouse position —
/// persists.
pub open spec fn clear_transients_m(m: MapM) -> MapM {
    MapM {
        actions: Seq::new(
            m.actions.len(),
            |a: int| ActionM { pressed: false, released: false, ..m.actions[a] },
        ),
        recently_pressed: None,
        text_typed: None,
        ..m
    }
}

/// The tick boundary: every registered zero-centered relative-delta code
/// is driven back to zero through the normal update path, exactly as a
/// real event would be, and then the per-tick transients are cleared.
pub open spec fn tick_reset_m(m: MapM) -> MapM {
    clear_transients_m(
        zero_codes_m(m, m.codes.filter(|c: InputCode| crate::input_code::spec_is_relative(c))),
    )
}

/// A gamepad going away: every slot scoped to exactly that gamepad id is
/// zeroed through the normal update path — the wildcard scope is left
/// alone, so what another gamepad fed through it survives.  Release edges
/// fire as with real events.
pub open spec fn zero_gamepad_m(m: MapM, id: u64) -> MapM {
    zero_codes_m(
        m,
        m.codes.filter(
            |c: InputCode|
                c matches InputCode::Gamepad {
                    id: crate::input_code::SpecifyGamepad::Id(i),
                    ..
                } && i == id,
        ),
    )
}

/// A keyboard-and-mouse device going away, likewise.
pub open spec fn zero_device_m(m: MapM, id: u64) -> MapM {
    zero_codes_m(
        m,
        m.codes.filter(
            |c: InputCode|
                c matches InputCode::Device {
                    id: crate::input_code::SpecifyDevice::Id(i),
                    ..
                } && i == id,
        ),
    )
}

/// Every registered code zeroed through the normal update path: nothing is
/// left pressing, and each action that was pressing takes a release edge.
pub open spec fn release_all_m(m: MapM) -> MapM {
    zero_codes_m(m, m.codes)
}


/// The declarative reading of the whole table: each action index with the
/// code lists of its bindings, in declaration order.
pub open spec fn get_binds_m(m: MapM) -> Seq<(int, Seq<Seq<InputCode>>)> {
    Seq::new(
        m.actions.len(),
        |a: int|
            (
                a,
                Seq::new(
                    m.actions[a].binds.len(),
                    |i: int|
                        Seq::new(
                            m.actions[a].binds[i].len(),
                            |j: int| m.actions[a].binds[i][j].code,
                        ),
                ),
            ),
    )
}

} // verus!
