//! The input map: binding table, update engine and frame lifecycle.
//!
//! An [`InputMap`] owns a dense list of actions (the caller names an action
//! by its index) and a reverse index from input codes to the slots that
//! listen to them.  Every query contract and every transition contract is
//! stated over the abstract state in [`crate::model`]; the cached per-binding
//! contributions and per-action aggregates the engine maintains
//! incrementally are proved equal to that model at every step.

use vstd::prelude::*;

verus! {

use crate::input_code::{InputCode, SpecifyDevice, SpecifyGamepad, is_relative, spec_is_relative};
use crate::model::{
    ActionM,
    MapM,
    SlotM,
    SlotOp,
    map_value,
    model_wf,
    op_apply,
    op_in_range,
    prod,
    sum_binds,
    touches,
    upd_slots,
    step_flags,
    apply_op_m,
    apply_dual_m,
    empty_m,
    cap_pow,
    max_contribution,
    max_action_value,
    lemma_prod_bounds,
    lemma_prod_le_cap_pow,
    lemma_cap_pow_mono,
    lemma_sum_bounds,
    lemma_prod_remove,
    lemma_prod_update,
    lemma_sum_update,
    lemma_capacity_constants,
    zero_codes_m,
    lemma_zero_codes_push,
    lemma_filter_push,
    lemma_filter_all,
    clear_transients_m,
    tick_reset_m,
    zero_gamepad_m,
    zero_device_m,
    release_all_m,
    get_binds_m,
    add_bind_single_m,
    add_entry_m,
    add_binds_m,
    addable,
    bind_count,
    count_new_binds,
    grow_m,
    grow_actions,
    new_bind,
    register_codes,
    binds_fold_m,
    lemma_prod_new_bind,
    lemma_sum_push,
    lemma_register_codes_push,
    lemma_register_codes_facts,
    lemma_binds_fold_push,
    lemma_entry_is_fold,
    lemma_add_binds_push,
    lemma_bind_count_add,
    lemma_count_concat,
    lemma_count_nonneg,
    empty_action,
};
use crate::{MAX_BIND_ARITY, MAX_BINDS_PER_ACTION, MAX_INPUT_VALUE, DEFAULT_PRESS_SENSITIVITY};

/// One slot: an input code and the last raw value received for it.
struct Slot {
    code: InputCode,
    value: i64,
}

/// One binding: its slots and the cached product of their values.
struct Bind {
    value: i64,
    slots: Vec<Slot>,
}

/// One action: its bindings, the cached sum of their contributions, and
/// the pressing / edge flags.
struct ActionState {
    value: i64,
    was_pressing: bool,
    pressed: bool,
    released: bool,
    binds: Vec<Bind>,
}

/// One subscription of the reverse index: the action, binding and slot
/// that listen to a code.
#[derive(Clone, Copy, PartialEq, Eq, Debug, Structural)]
struct Sub {
    action: usize,
    bind: usize,
    slot: usize,
}

/// One entry of the reverse index: a code and every subscription on it.
struct IndexEntry {
    code: InputCode,
    subs: Vec<Sub>,
}

/// A declarative bind list: each entry names an action by index and gives
/// the bindings to append to it, each binding an AND-group of input codes.
pub type Binds = Vec<(usize, Vec<Vec<InputCode>>)>;

/// The input map.  Fields the caller may freely read and write — the press
/// threshold, the rebinding aid, the typed-text buffer and the absolute
/// mouse position — are public; the binding table and action states are
/// reachable only through the verified operations.
///
/// The reverse index is an association list over the registered codes:
/// one event costs a scan over the distinct codes bound plus work
/// proportional to the subscriptions actually affected, never a walk over
/// all actions or all bindings.
pub struct InputMap {
    actions: Vec<ActionState>,
    index: Vec<IndexEntry>,
    /// The least aggregate value that counts as pressing.
    pub press_sensitivity: i64,
    /// The concrete (non-wildcard) code of the last event that pressed
    /// something, bound or not; an aid for rebinding screens.
    pub recently_pressed: Option<InputCode>,
    /// Text typed since the last tick boundary, if any.
    pub text_typed: Option<String>,
    /// The absolute mouse position, as last reported by the caller.
    pub mouse_pos: (i64, i64),
}

spec fn slot_m(s: Slot) -> SlotM {
    SlotM { code: s.code, value: s.value as int }
}

spec fn slots_m(s: Seq<Slot>) -> Seq<SlotM> {
    Seq::new(s.len(), |j: int| slot_m(s[j]))
}

spec fn bind_m(b: Bind) -> Seq<SlotM> {
    slots_m(b.slots@)
}

spec fn action_m(a: ActionState) -> ActionM {
    ActionM {
        binds: Seq::new(a.binds@.len(), |i: int| bind_m(a.binds@[i])),
        was_pressing: a.was_pressing,
        pressed: a.pressed,
        released: a.released,
    }
}

spec fn acts_m(acts: Seq<ActionState>) -> Seq<ActionM> {
    Seq::new(acts.len(), |a: int| action_m(acts[a]))
}

/// The cached contributions and aggregates equal the model's products and
/// sums.
spec fn caches_ok_s(acts: Seq<ActionState>) -> bool {
    &&& forall|a: int, i: int|
        0 <= a < acts.len() && 0 <= i < acts[a].binds@.len() ==> (#[trigger] acts[a].binds@[i]).value
            as int == prod(bind_m(acts[a].binds@[i]))
    &&& forall|a: int|
        0 <= a < acts.len() ==> (#[trigger] acts[a]).value as int == sum_binds(
            action_m(acts[a]).binds,
        )
}

/// Every slot's raw value is in `[0, MAX_INPUT_VALUE]`.
spec fn slots_in_range_s(acts: Seq<ActionState>) -> bool {
    forall|a: int, i: int, j: int|
        0 <= a < acts.len() && 0 <= i < acts[a].binds@.len() && 0 <= j
            < acts[a].binds@[i].slots@.len() ==> 0 <= (#[trigger] acts[a].binds@[i].slots@[j]).value
            <= MAX_INPUT_VALUE
}

/// `acts` has the same actions, bindings, slot codes and flag values as
/// the abstract actions `ms`; only slot values may differ.
spec fn same_shape(acts: Seq<ActionState>, ms: Seq<ActionM>) -> bool {
    &&& acts.len() == ms.len()
    &&& forall|a: int| 0 <= a < acts.len() ==> (#[trigger] acts[a]).binds@.len() == ms[a].binds.len()
    &&& forall|a: int, i: int|
        0 <= a < acts.len() && 0 <= i < acts[a].binds@.len()
            ==> (#[trigger] acts[a].binds@[i]).slots@.len() == ms[a].binds[i].len()
    &&& forall|a: int, i: int, j: int|
        0 <= a < acts.len() && 0 <= i < acts[a].binds@.len() && 0 <= j
            < acts[a].binds@[i].slots@.len() ==> (#[trigger] acts[a].binds@[i].slots@[j]).code
            == ms[a].binds[i][j].code
}

/// The flags of every action of `acts` equal those of `ms`.
spec fn same_flags(acts: Seq<ActionState>, ms: Seq<ActionM>) -> bool {
    &&& acts.len() == ms.len()
    &&& forall|a: int|
        0 <= a < acts.len() ==> {
            let st = #[trigger] acts[a];
            &&& st.was_pressing == ms[a].was_pressing
            &&& st.pressed == ms[a].pressed
            &&& st.released == ms[a].released
        }
}

/// Whether `sub` names the slot `(a, i, j)`.
spec fn sub_is(sub: Sub, a: int, i: int, j: int) -> bool {
    sub.action == a && sub.bind == i && sub.slot == j
}

/// Whether the slot `(a, i, j)` occurs among the first `kk` subscriptions.
spec fn in_prefix(subs: Seq<Sub>, kk: int, a: int, i: int, j: int) -> bool {
    exists|n: int| 0 <= n < kk && sub_is(#[trigger] subs[n], a, i, j)
}

/// Whether some of the first `kk` subscriptions belongs to action `a`.
spec fn action_in_prefix(subs: Seq<Sub>, kk: int, a: int) -> bool {
    exists|n: int| 0 <= n < kk && (#[trigger] subs[n]).action == a
}

impl View for InputMap {
    type V = MapM;

    closed spec fn view(&self) -> MapM {
        MapM {
            actions: acts_m(self.actions@),
            press_sensitivity: self.press_sensitivity as int,
            recently_pressed: self.recently_pressed,
            text_typed: match self.text_typed {
                Some(s) => Some(s@),
                None => None,
            },
            mouse_pos: (self.mouse_pos.0 as int, self.mouse_pos.1 as int),
            codes: Seq::new(self.index@.len(), |p: int| self.index@[p].code),
        }
    }
}

impl InputMap {
    /// Every subscription points at an existing slot that listens to the
    /// entry's code.
    spec fn index_sound(&self) -> bool {
        forall|p: int, k: int|
            0 <= p < self.index@.len() && 0 <= k < self.index@[p].subs@.len() ==> {
                let sub = #[trigger] self.index@[p].subs@[k];
                &&& sub.action < self.actions@.len()
                &&& sub.bind < self.actions@[sub.action as int].binds@.len()
                &&& sub.slot < self.actions@[sub.action as int].binds@[sub.bind as int].slots@.len()
                &&& self.actions@[sub.action as int].binds@[sub.bind as int].slots@[sub.slot as int].code
                    == self.index@[p].code
            }
    }

    /// No entry lists the same slot twice.
    spec fn index_nodup(&self) -> bool {
        forall|p: int, k1: int, k2: int|
            0 <= p < self.index@.len() && 0 <= k1 < k2 < self.index@[p].subs@.len()
                ==> #[trigger] self.index@[p].subs@[k1] != #[trigger] self.index@[p].subs@[k2]
    }

    /// Every slot is listed under its code's entry.
    spec fn index_complete(&self) -> bool {
        forall|a: int, i: int, j: int|
            0 <= a < self.actions@.len() && 0 <= i < self.actions@[a].binds@.len() && 0 <= j
                < self.actions@[a].binds@[i].slots@.len() ==> exists|p: int, k: int|
                0 <= p < self.index@.len() && 0 <= k < self.index@[p].subs@.len()
                    && self.index@[p].code == (#[trigger] self.actions@[a].binds@[i].slots@[j]).code
                    && sub_is(self.index@[p].subs@[k], a, i, j)
    }

    /// No entry is empty.
    spec fn index_nonempty(&self) -> bool {
        forall|p: int| 0 <= p < self.index@.len() ==> (#[trigger] self.index@[p]).subs@.len() > 0
    }

    /// The engine's invariant: the abstract state is well formed and the
    /// caches and the reverse index agree with it.
    pub closed spec fn wf(&self) -> bool {
        &&& model_wf(self@)
        &&& caches_ok_s(self.actions@)
        &&& self.index_sound()
        &&& self.index_nodup()
        &&& self.index_complete()
        &&& self.index_nonempty()
    }

    /// An input map with no actions and no bindings.
    pub fn empty() -> (r: Self)
        ensures
            r.wf(),
            r@ == empty_m(),
    {
        let r = InputMap {
            actions: Vec::new(),
            index: Vec::new(),
            press_sensitivity: DEFAULT_PRESS_SENSITIVITY,
            recently_pressed: None,
            text_typed: None,
            mouse_pos: (0, 0),
        };
        proof {
            assert(r@ =~= empty_m());
        }
        r
    }

    /// How much `action` is pressed: the sum of its bindings'
    /// contributions, each the product of its slots' raw values.  An index
    /// that was never declared has value 0.
    pub fn value(&self, action: usize) -> (r: i64)
        requires
            self.wf(),
        ensures
            r as int == map_value(self@, action as int),
    {
        if action < self.actions.len() {
            self.actions[action].value
        } else {
            0
        }
    }

    /// Whether `action` is currently pressing: its value has reached
    /// `press_sensitivity`.
    pub fn pressing(&self, action: usize) -> (r: bool)
        requires
            self.wf(),
        ensures
            r == (map_value(self@, action as int) >= self@.press_sensitivity),
    {
        self.value(action) >= self.press_sensitivity
    }

    /// Whether `action` became pressing at some event since the last tick
    /// boundary.
    pub fn pressed(&self, action: usize) -> (r: bool)
        requires
            self.wf(),
        ensures
            r == if 0 <= action < self@.actions.len() {
                self@.actions[action as int].pressed
            } else {
                false
            },
    {
        if action < self.actions.len() {
            self.actions[action].pressed
        } else {
            false
        }
    }

    /// Whether `action` stopped pressing at some event since the last tick
    /// boundary.
    pub fn released(&self, action: usize) -> (r: bool)
        requires
            self.wf(),
        ensures
            r == if 0 <= action < self@.actions.len() {
                self@.actions[action as int].released
            } else {
                false
            },
    {
        if action < self.actions.len() {
            self.actions[action].released
        } else {
            false
        }
    }

    /// The signed balance of two opposed actions: `value(pos) - value(neg)`.
    pub fn axis(&self, pos: usize, neg: usize) -> (r: i64)
        requires
            self.wf(),
        ensures
            r as int == map_value(self@, pos as int) - map_value(self@, neg as int),
    {
        proof {
            self.lemma_value_in_range(pos as int);
            self.lemma_value_in_range(neg as int);
        }
        self.value(pos) - self.value(neg)
    }

    /// A two-component direction from two pairs of opposed actions.
    pub fn dir(&self, pos_x: usize, neg_x: usize, pos_y: usize, neg_y: usize) -> (r: (i64, i64))
        requires
            self.wf(),
        ensures
            r.0 as int == map_value(self@, pos_x as int) - map_value(self@, neg_x as int),
            r.1 as int == map_value(self@, pos_y as int) - map_value(self@, neg_y as int),
    {
        (self.axis(pos_x, neg_x), self.axis(pos_y, neg_y))
    }

    /// Every action's aggregate value fits well within the machine range.
    proof fn lemma_value_in_range(&self, a: int)
        requires
            self.wf(),
        ensures
            0 <= map_value(self@, a) <= max_action_value(),
            max_action_value() < 0x2000_0000_0000_0000,
    {
        lemma_capacity_constants();
        if 0 <= a < self@.actions.len() {
            let binds = self@.actions[a].binds;
            lemma_sum_bounds(binds);
            assert(binds.len() * max_contribution() <= MAX_BINDS_PER_ACTION * max_contribution())
                by (nonlinear_arith)
                requires
                    binds.len() <= MAX_BINDS_PER_ACTION,
                    max_contribution() >= 0,
            ;
        }
    }

    /// Finds the reverse-index entry of `code`, if any.
    fn find_entry(&self, code: InputCode) -> (r: Option<usize>)
        ensures
            match r {
                Some(p) => p < self.index@.len() && self.index@[p as int].code == code,
                None => forall|p: int| 0 <= p < self.index@.len() ==> self.index@[p].code != code,
            },
    {
        let mut p: usize = 0;
        while p < self.index.len()
            invariant
                p <= self.index@.len(),
                forall|q: int| 0 <= q < p ==> self.index@[q].code != code,
            decreases self.index@.len() - p,
        {
            if self.index[p].code == code {
                return Some(p);
            }
            p += 1;
        }
        None
    }


    /// Recomputes one binding's contribution from scratch: the product of
    /// its slots' raw values.  This is the mandatory fallback of the
    /// incremental update, taken when the overwritten slot held zero and
    /// the ratio between old and new contribution is undefined.
    #[verifier::loop_isolation(false)]
    fn recompute_bind(slots: &Vec<Slot>) -> (r: i64)
        requires
            slots@.len() <= MAX_BIND_ARITY,
            forall|j: int|
                0 <= j < slots@.len() ==> 0 <= (#[trigger] slots@[j]).value <= MAX_INPUT_VALUE,
        ensures
            r as int == prod(slots_m(slots@)),
            0 <= r as int <= max_contribution(),
    {
        proof {
            lemma_capacity_constants();
        }
        let ghost sm = slots_m(slots@);
        let mut acc: i64 = 1;
        let mut j: usize = 0;
        proof {
            assert(sm.take(0) =~= Seq::<SlotM>::empty());
        }
        while j < slots.len()
            invariant
                j <= slots@.len(),
                acc as int == prod(sm.take(j as int)),
                0 <= acc as int <= cap_pow(MAX_INPUT_VALUE as int, j as nat),
                cap_pow(MAX_INPUT_VALUE as int, j as nat) <= max_contribution(),
            decreases slots@.len() - j,
        {
            let v = slots[j].value;
            proof {
                let jj = j as int;
                assert(sm.take(jj + 1).drop_last() =~= sm.take(jj));
                assert(sm.take(jj + 1).last() == sm[jj]);
                let cp = cap_pow(MAX_INPUT_VALUE as int, j as nat);
                let cp1 = cap_pow(MAX_INPUT_VALUE as int, (j + 1) as nat);
                assert(cp1 == cp * MAX_INPUT_VALUE);
                assert(0 <= acc * v <= cp1) by (nonlinear_arith)
                    requires
                        0 <= acc as int <= cp,
                        0 <= v <= MAX_INPUT_VALUE,
                        cp1 == cp * MAX_INPUT_VALUE,
                ;
                lemma_cap_pow_mono(MAX_INPUT_VALUE as int, (j + 1) as nat, MAX_BIND_ARITY as nat);
            }
            acc = acc * v;
            j += 1;
        }
        proof {
            assert(sm.take(slots@.len() as int) =~= sm);
        }
        acc
    }

    /// First pass of one event: overwrite every slot that subscribes to
    /// the entry at `p` and rebalance the cached contributions and
    /// aggregates; flags and everything else stay untouched.
    #[verifier::loop_isolation(false)]
    #[verifier::rlimit(100)]
    fn pass_update_slots(&mut self, p: usize, code: InputCode, op: SlotOp)
        requires
            old(self).wf(),
            op_in_range(op),
            p < old(self).index@.len(),
            old(self).index@[p as int].code == code,
        ensures
            final(self).index@ == old(self).index@,
            final(self).press_sensitivity == old(self).press_sensitivity,
            final(self).recently_pressed == old(self).recently_pressed,
            final(self).text_typed == old(self).text_typed,
            final(self).mouse_pos == old(self).mouse_pos,
            same_shape(final(self).actions@, old(self)@.actions),
            same_flags(final(self).actions@, old(self)@.actions),
            slots_in_range_s(final(self).actions@),
            caches_ok_s(final(self).actions@),
            forall|a: int, i: int, j: int|
                0 <= a < old(self)@.actions.len() && 0 <= i < old(self)@.actions[a].binds.len()
                    && 0 <= j < old(self)@.actions[a].binds[i].len()
                    ==> (#[trigger] final(self).actions@[a].binds@[i].slots@[j]).value as int
                    == if old(self)@.actions[a].binds[i][j].code == code {
                    op_apply(op, old(self)@.actions[a].binds[i][j].value)
                } else {
                    old(self)@.actions[a].binds[i][j].value
                },
    {
        proof {
            lemma_capacity_constants();
        }
        let ghost m0 = self@;
        let ghost i0 = self.index@;
        let ghost subs = self.index@[p as int].subs@;
        let subs_len = self.index[p].subs.len();
        proof {
            assert(model_wf(m0));
            assert forall|a: int, i: int, j: int|
                0 <= a < m0.actions.len() && 0 <= i < m0.actions[a].binds.len() && 0 <= j
                    < m0.actions[a].binds[i].len() implies 0 <= (
            #[trigger] self.actions@[a].binds@[i].slots@[j]).value <= MAX_INPUT_VALUE by {
                assert(0 <= m0.actions[a].binds[i][j].value <= MAX_INPUT_VALUE);
                assert(m0.actions[a].binds[i][j] == slot_m(self.actions@[a].binds@[i].slots@[j]));
            }
        }
        let mut k: usize = 0;
        while k < subs_len
            invariant
                k <= subs_len,
                self.index@ == i0,
                self.press_sensitivity == old(self).press_sensitivity,
                self.recently_pressed == old(self).recently_pressed,
                self.text_typed == old(self).text_typed,
                self.mouse_pos == old(self).mouse_pos,
                same_shape(self.actions@, m0.actions),
                same_flags(self.actions@, m0.actions),
                slots_in_range_s(self.actions@),
                caches_ok_s(self.actions@),
                forall|a: int, i: int, j: int|
                    0 <= a < m0.actions.len() && 0 <= i < m0.actions[a].binds.len() && 0 <= j
                        < m0.actions[a].binds[i].len()
                        ==> (#[trigger] self.actions@[a].binds@[i].slots@[j]).value as int
                        == if in_prefix(subs, k as int, a, i, j) {
                        op_apply(op, m0.actions[a].binds[i][j].value)
                    } else {
                        m0.actions[a].binds[i][j].value
                    },
            decreases subs_len - k,
        {
            let sub = self.index[p].subs[k];
            let a = sub.action;
            let i = sub.bind;
            let j = sub.slot;
            proof {
                assert(i0[p as int].subs@[k as int] == sub);
                assert(!in_prefix(subs, k as int, a as int, i as int, j as int)) by {
                    if in_prefix(subs, k as int, a as int, i as int, j as int) {
                        let n = choose|n: int|
                            0 <= n < k && sub_is(#[trigger] subs[n], a as int, i as int, j as int);
                        assert(subs[n] == subs[k as int]);
                        assert(i0[p as int].subs@[n] != i0[p as int].subs@[k as int]);
                    }
                }
                assert(m0.actions[a as int].binds[i as int][j as int] == slot_m(
                    self.actions@[a as int].binds@[i as int].slots@[j as int],
                ));
            }
            let ghost sm0 = slots_m(self.actions@[a as int].binds@[i as int].slots@);
            let ghost binds0 = action_m(self.actions@[a as int]).binds;
            let old_slot = self.actions[a].binds[i].slots[j].value;
            let new_slot = match op {
                SlotOp::Write(v) => v,
                SlotOp::Add(d) => {
                    let s = old_slot + d;
                    if s > MAX_INPUT_VALUE {
                        MAX_INPUT_VALUE
                    } else {
                        s
                    }
                },
            };
            proof {
                assert(new_slot as int == op_apply(op, old_slot as int));
                assert(sm0[j as int].code == code);
            }
            self.actions[a].binds[i].slots[j].value = new_slot;
            proof {
                assert(slots_m(self.actions@[a as int].binds@[i as int].slots@) =~= sm0.update(
                    j as int,
                    SlotM { code: code, value: new_slot as int },
                ));
            }
            let ob = self.actions[a].binds[i].value;
            proof {
                assert(ob as int == prod(sm0));
                lemma_prod_bounds(sm0);
                lemma_prod_remove(sm0, j as int);
                lemma_prod_le_cap_pow(sm0.remove(j as int), MAX_INPUT_VALUE as int);
                let n = sm0.remove(j as int).len() as nat;
                assert(cap_pow(MAX_INPUT_VALUE as int, (n + 1) as nat) == cap_pow(
                    MAX_INPUT_VALUE as int,
                    n,
                ) * MAX_INPUT_VALUE);
                lemma_cap_pow_mono(MAX_INPUT_VALUE as int, (n + 1) as nat, MAX_BIND_ARITY as nat);
            }
            let nb: i64;
            if old_slot != 0 {
                let ghost rest = prod(sm0.remove(j as int));
                proof {
                    vstd::arithmetic::div_mod::lemma_div_multiples_vanish(rest, old_slot as int);
                    assert((old_slot as int) * rest == prod(sm0));
                    assert(prod(sm0) / (old_slot as int) == rest);
                }
                let q = ob / old_slot;
                proof {
                    let n = sm0.remove(j as int).len() as nat;
                    assert(q as int == rest);
                    assert(0 <= q as int * new_slot as int <= max_contribution())
                        by (nonlinear_arith)
                        requires
                            0 <= q as int <= cap_pow(MAX_INPUT_VALUE as int, n),
                            0 <= new_slot as int <= MAX_INPUT_VALUE,
                            cap_pow(MAX_INPUT_VALUE as int, n) * MAX_INPUT_VALUE <= max_contribution(),
                    ;
                    lemma_prod_update(sm0, j as int, SlotM { code: code, value: new_slot as int });
                }
                nb = q * new_slot;
                proof {
                    assert(nb as int == rest * (new_slot as int));
                    assert(rest * (new_slot as int) == (new_slot as int) * rest)
                        by (nonlinear_arith);
                    assert(prod(sm0.update(j as int, SlotM { code: code, value: new_slot as int }))
                        == (new_slot as int) * rest);
                    assert(slots_m(self.actions@[a as int].binds@[i as int].slots@) == sm0.update(
                        j as int,
                        SlotM { code: code, value: new_slot as int },
                    ));
                    assert(nb as int == prod(
                        slots_m(self.actions@[a as int].binds@[i as int].slots@),
                    ));
                }
            } else {
                nb = Self::recompute_bind(&self.actions[a].binds[i].slots);
                proof {
                    assert(nb as int == prod(
                        slots_m(self.actions@[a as int].binds@[i as int].slots@),
                    ));
                }
            }
            proof {
                assert(nb as int == prod(slots_m(self.actions@[a as int].binds@[i as int].slots@)));
            }
            self.actions[a].binds[i].value = nb;
            let av = self.actions[a].value;
            proof {
                assert(av as int == sum_binds(binds0));
                let nbind = slots_m(self.actions@[a as int].binds@[i as int].slots@);
                let nbinds = action_m(self.actions@[a as int]).binds;
                assert(nbinds =~= binds0.update(i as int, nbind));
                lemma_sum_update(binds0, i as int, nbind);
                lemma_sum_bounds(binds0);
                lemma_sum_bounds(nbinds);
                assert(binds0.len() * max_contribution() <= MAX_BINDS_PER_ACTION
                    * max_contribution()) by (nonlinear_arith)
                    requires
                        binds0.len() <= MAX_BINDS_PER_ACTION,
                        max_contribution() >= 0,
                ;
                assert(nbinds.len() * max_contribution() <= MAX_BINDS_PER_ACTION
                    * max_contribution()) by (nonlinear_arith)
                    requires
                        nbinds.len() <= MAX_BINDS_PER_ACTION,
                        max_contribution() >= 0,
                ;
            }
            self.actions[a].value = av + (nb - ob);
            k += 1;
            proof {
                assert forall|a2: int, i2: int, j2: int|
                    0 <= a2 < m0.actions.len() && 0 <= i2 < m0.actions[a2].binds.len() && 0 <= j2
                        < m0.actions[a2].binds[i2].len() implies (
                #[trigger] self.actions@[a2].binds@[i2].slots@[j2]).value as int
                    == if in_prefix(subs, k as int, a2, i2, j2) {
                    op_apply(op, m0.actions[a2].binds[i2][j2].value)
                } else {
                    m0.actions[a2].binds[i2][j2].value
                } by {
                    if a2 == a as int && i2 == i as int && j2 == j as int {
                        assert(sub_is(subs[k as int - 1], a2, i2, j2));
                        assert(in_prefix(subs, k as int, a2, i2, j2));
                    } else {
                        if in_prefix(subs, k as int, a2, i2, j2) {
                            let n = choose|n: int|
                                0 <= n < k && sub_is(#[trigger] subs[n], a2, i2, j2);
                            assert(sub_is(subs[k as int - 1], a as int, i as int, j as int));
                            assert(n != k - 1);
                            assert(in_prefix(subs, k as int - 1, a2, i2, j2));
                        }
                    }
                }
            }
        }
        // The prefix now covers every subscription; turn membership of the
        // subscription list into the code test the contract states.
        proof {
            assert forall|a: int, i: int, j: int|
                0 <= a < m0.actions.len() && 0 <= i < m0.actions[a].binds.len() && 0 <= j
                    < m0.actions[a].binds[i].len() implies (
            #[trigger] self.actions@[a].binds@[i].slots@[j]).value as int
                == if m0.actions[a].binds[i][j].code == code {
                op_apply(op, m0.actions[a].binds[i][j].value)
            } else {
                m0.actions[a].binds[i][j].value
            } by {
                if m0.actions[a].binds[i][j].code == code {
                    assert(old(self).index_complete());
                    assert(old(self).actions@[a].binds@[i].slots@[j].code == code);
                    let (p2, k2): (int, int) = choose|p2: int, k2: int|
                        0 <= p2 < i0.len() && 0 <= k2 < i0[p2].subs@.len() && i0[p2].code == old(
                            self,
                        ).actions@[a].binds@[i].slots@[j].code && sub_is(i0[p2].subs@[k2], a, i, j);
                    assert(m0.codes[p2] == code && m0.codes[p as int] == code);
                    assert(p2 == p as int);
                    assert(sub_is(subs[k2], a, i, j));
                    assert(in_prefix(subs, subs_len as int, a, i, j));
                } else {
                    if in_prefix(subs, subs_len as int, a, i, j) {
                        let n = choose|n: int|
                            0 <= n < subs_len && sub_is(#[trigger] subs[n], a, i, j);
                        assert(old(self).index_sound());
                        assert(i0[p as int].subs@[n] == subs[n]);
                    }
                }
            }
        }
    }
}

/// After the first pass, each action's bindings equal the model's update.
proof fn lemma_binds_match(acts: Seq<ActionState>, ms: Seq<ActionM>, code: InputCode, op: SlotOp)
    requires
        same_shape(acts, ms),
        forall|a: int, i: int, j: int|
            0 <= a < ms.len() && 0 <= i < ms[a].binds.len() && 0 <= j < ms[a].binds[i].len()
                ==> (#[trigger] acts[a].binds@[i].slots@[j]).value as int
                == if ms[a].binds[i][j].code == code {
                op_apply(op, ms[a].binds[i][j].value)
            } else {
                ms[a].binds[i][j].value
            },
    ensures
        forall|a: int|
            0 <= a < acts.len() ==> #[trigger] action_m(acts[a]).binds == upd_slots(
                ms[a],
                code,
                op,
            ).binds,
{
    assert forall|a: int| 0 <= a < acts.len() implies #[trigger] action_m(acts[a]).binds
        =~~= upd_slots(ms[a], code, op).binds by {
        assert forall|i: int| 0 <= i < ms[a].binds.len() implies action_m(acts[a]).binds[i]
            =~= upd_slots(ms[a], code, op).binds[i] by {
        }
    }
}

impl InputMap {
    /// Second pass of one event: with every affected slot already holding
    /// its new value, rederive each affected action's flags from its new
    /// aggregate value — atomically per action, so revisiting an action a
    /// second subscription points at changes nothing — and remember the
    /// code as most recently pressed if it is concrete and pressed
    /// something.
    #[verifier::loop_isolation(false)]
    #[verifier::rlimit(100)]
    fn pass_update_flags(&mut self, p: usize, code: InputCode, op: SlotOp, Ghost(m0): Ghost<MapM>)
        requires
            p < old(self).index@.len(),
            old(self).index@[p as int].code == code,
            old(self).index_sound(),
            old(self).index_nodup(),
            old(self).index_complete(),
            old(self).index_nonempty(),
            forall|q1: int, q2: int|
                0 <= q1 < q2 < old(self).index@.len() ==> (#[trigger] old(self).index@[q1]).code
                    != (#[trigger] old(self).index@[q2]).code,
            same_shape(old(self).actions@, m0.actions),
            same_flags(old(self).actions@, m0.actions),
            caches_ok_s(old(self).actions@),
            forall|a: int|
                0 <= a < m0.actions.len() ==> #[trigger] action_m(old(self).actions@[a]).binds
                    == upd_slots(m0.actions[a], code, op).binds,
            old(self).press_sensitivity as int == m0.press_sensitivity,
            old(self).recently_pressed == m0.recently_pressed,
        ensures
            final(self).index@ == old(self).index@,
            final(self).press_sensitivity == old(self).press_sensitivity,
            final(self).text_typed == old(self).text_typed,
            final(self).mouse_pos == old(self).mouse_pos,
            final(self).actions@.len() == old(self).actions@.len(),
            forall|a: int|
                0 <= a < old(self).actions@.len()
                    ==> (#[trigger] final(self).actions@[a]).binds@ == old(self).actions@[a].binds@
                        && final(self).actions@[a].value == old(self).actions@[a].value,
            forall|a: int|
                0 <= a < m0.actions.len() ==> {
                    let st = #[trigger] final(self).actions@[a];
                    let sm = if touches(m0.actions[a], code) {
                        step_flags(upd_slots(m0.actions[a], code, op), m0.press_sensitivity)
                    } else {
                        m0.actions[a]
                    };
                    &&& st.was_pressing == sm.was_pressing
                    &&& st.pressed == sm.pressed
                    &&& st.released == sm.released
                },
            final(self).recently_pressed == apply_op_m(m0, code, op).recently_pressed,
    {
        let ghost i0 = self.index@;
        let ghost acts1 = self.actions@;
        let ghost sens = m0.press_sensitivity;
        let ghost subs = self.index@[p as int].subs@;
        let subs_len = self.index[p].subs.len();
        let mut k: usize = 0;
        while k < subs_len
            invariant
                k <= subs_len,
                self.index@ == i0,
                self.press_sensitivity == old(self).press_sensitivity,
                self.text_typed == old(self).text_typed,
                self.mouse_pos == old(self).mouse_pos,
                self.actions@.len() == acts1.len(),
                forall|a: int|
                    0 <= a < acts1.len() ==> (#[trigger] self.actions@[a]).binds@
                        == acts1[a].binds@ && self.actions@[a].value == acts1[a].value,
                forall|a: int|
                    0 <= a < acts1.len() && !action_in_prefix(subs, k as int, a) ==> {
                        let st = #[trigger] self.actions@[a];
                        &&& st.was_pressing == m0.actions[a].was_pressing
                        &&& st.pressed == m0.actions[a].pressed
                        &&& st.released == m0.actions[a].released
                    },
                forall|a: int|
                    0 <= a < acts1.len() && action_in_prefix(subs, k as int, a) ==> {
                        let st = #[trigger] self.actions@[a];
                        let sm = step_flags(upd_slots(m0.actions[a], code, op), sens);
                        &&& st.was_pressing == sm.was_pressing
                        &&& st.pressed == sm.pressed
                        &&& st.released == sm.released
                    },
                self.recently_pressed == if !code.spec_is_any() && exists|n: int|
                    0 <= n < k && sum_binds(
                        upd_slots(m0.actions[(#[trigger] subs[n]).action as int], code, op).binds,
                    ) >= sens {
                    Some(code)
                } else {
                    m0.recently_pressed
                },
            decreases subs_len - k,
        {
            let sub = self.index[p].subs[k];
            let a = sub.action;
            proof {
                assert(i0[p as int].subs@[k as int] == sub);
                assert(action_m(acts1[a as int]).binds == upd_slots(
                    m0.actions[a as int],
                    code,
                    op,
                ).binds);
                assert(self.actions@[a as int].value as int == sum_binds(
                    action_m(self.actions@[a as int]).binds,
                ));
                assert(action_m(self.actions@[a as int]).binds == action_m(
                    acts1[a as int],
                ).binds);
            }
            let now = self.actions[a].value >= self.press_sensitivity;
            let was = self.actions[a].was_pressing;
            if now && !was {
                self.actions[a].pressed = true;
            }
            if !now && was {
                self.actions[a].released = true;
            }
            self.actions[a].was_pressing = now;
            if now && !code.is_any() {
                self.recently_pressed = Some(code);
            }
            k += 1;
            proof {
                assert forall|a2: int|
                    0 <= a2 < acts1.len() && action_in_prefix(subs, k as int, a2) implies {
                    let st = #[trigger] self.actions@[a2];
                    let sm = step_flags(upd_slots(m0.actions[a2], code, op), sens);
                    &&& st.was_pressing == sm.was_pressing
                    &&& st.pressed == sm.pressed
                    &&& st.released == sm.released
                } by {
                    if a2 != a as int {
                        let n = choose|n: int|
                            0 <= n < k && (#[trigger] subs[n]).action == a2 as usize;
                        assert(n != k - 1);
                        assert(action_in_prefix(subs, k as int - 1, a2));
                    }
                }
                assert forall|a2: int|
                    0 <= a2 < acts1.len() && !action_in_prefix(subs, k as int, a2) implies {
                    let st = #[trigger] self.actions@[a2];
                    &&& st.was_pressing == m0.actions[a2].was_pressing
                    &&& st.pressed == m0.actions[a2].pressed
                    &&& st.released == m0.actions[a2].released
                } by {
                    assert(subs[k as int - 1].action != a2);
                    assert(!action_in_prefix(subs, k as int - 1, a2));
                }
                if now {
                    assert(subs[k as int - 1].action == a);
                }
            }
        }
        // Relate "some subscription's action" to "some action that
        // listens to the code", both for the flags and for the record of
        // the most recently pressed code.
        proof {
            assert forall|a: int| 0 <= a < m0.actions.len() implies {
                let st = #[trigger] self.actions@[a];
                let sm = if touches(m0.actions[a], code) {
                    step_flags(upd_slots(m0.actions[a], code, op), m0.press_sensitivity)
                } else {
                    m0.actions[a]
                };
                &&& st.was_pressing == sm.was_pressing
                &&& st.pressed == sm.pressed
                &&& st.released == sm.released
            } by {
                if touches(m0.actions[a], code) {
                    let (i, j): (int, int) = choose|i: int, j: int|
                        0 <= i < m0.actions[a].binds.len() && 0 <= j < m0.actions[a].binds[i].len()
                            && m0.actions[a].binds[i][j].code == code;
                    assert(old(self).index_complete());
                    assert(old(self).actions@[a].binds@[i].slots@[j].code == code);
                    let (p2, k2): (int, int) = choose|p2: int, k2: int|
                        0 <= p2 < i0.len() && 0 <= k2 < i0[p2].subs@.len() && i0[p2].code == old(
                            self,
                        ).actions@[a].binds@[i].slots@[j].code && sub_is(i0[p2].subs@[k2], a, i, j);
                    assert(i0[p2].code == code && i0[p as int].code == code);
                    assert(p2 == p as int);
                    assert(subs[k2].action == a);
                    assert(action_in_prefix(subs, subs_len as int, a));
                } else {
                    if action_in_prefix(subs, subs_len as int, a) {
                        let n = choose|n: int|
                            0 <= n < subs_len && (#[trigger] subs[n]).action == a;
                        let s2 = subs[n];
                        assert(old(self).index_sound());
                        assert(i0[p as int].subs@[n] == s2);
                        assert(old(self).actions@[a].binds@[s2.bind as int].slots@[s2.slot as int].code
                            == code);
                        assert(m0.actions[a].binds[s2.bind as int][s2.slot as int].code == code);
                    }
                }
            }
            let target = apply_op_m(m0, code, op).recently_pressed;
            if !code.spec_is_any() {
                assert(exists|a: int| 0 <= a < m0.actions.len() && touches(m0.actions[a], code))
                    by {
                    assert(subs.len() > 0);
                    let s0 = subs[0];
                    assert(i0[p as int].subs@[0] == s0);
                    assert(old(self).actions@[s0.action as int].binds@[s0.bind as int].slots@[s0.slot as int].code
                        == code);
                    assert(m0.actions[s0.action as int].binds[s0.bind as int][s0.slot as int].code
                        == code);
                    assert(touches(m0.actions[s0.action as int], code));
                }
                if exists|n: int|
                    0 <= n < subs_len && sum_binds(
                        upd_slots(m0.actions[(#[trigger] subs[n]).action as int], code, op).binds,
                    ) >= sens {
                    let n = choose|n: int|
                        0 <= n < subs_len && sum_binds(
                            upd_slots(m0.actions[(#[trigger] subs[n]).action as int], code, op).binds,
                        ) >= sens;
                    let s2 = subs[n];
                    assert(i0[p as int].subs@[n] == s2);
                    assert(old(self).actions@[s2.action as int].binds@[s2.bind as int].slots@[s2.slot as int].code
                        == code);
                    assert(m0.actions[s2.action as int].binds[s2.bind as int][s2.slot as int].code
                        == code);
                    assert(touches(m0.actions[s2.action as int], code));
                    assert(self.recently_pressed == target);
                } else {
                    if exists|a: int|
                        0 <= a < m0.actions.len() && touches(m0.actions[a], code) && sum_binds(
                            upd_slots(m0.actions[a], code, op).binds,
                        ) >= m0.press_sensitivity {
                        let a = choose|a: int|
                            0 <= a < m0.actions.len() && touches(m0.actions[a], code) && sum_binds(
                                upd_slots(m0.actions[a], code, op).binds,
                            ) >= m0.press_sensitivity;
                        let (i, j): (int, int) = choose|i: int, j: int|
                            0 <= i < m0.actions[a].binds.len() && 0 <= j
                                < m0.actions[a].binds[i].len() && m0.actions[a].binds[i][j].code
                                == code;
                        assert(old(self).index_complete());
                        assert(old(self).actions@[a].binds@[i].slots@[j].code == code);
                        let (p2, k2): (int, int) = choose|p2: int, k2: int|
                            0 <= p2 < i0.len() && 0 <= k2 < i0[p2].subs@.len() && i0[p2].code
                                == old(self).actions@[a].binds@[i].slots@[j].code
                                && sub_is(i0[p2].subs@[k2], a, i, j);
                        assert(i0[p2].code == code && i0[p as int].code == code);
                        assert(p2 == p as int);
                        assert(subs[k2].action == a);
                        assert(sum_binds(
                            upd_slots(m0.actions[subs[k2].action as int], code, op).binds,
                        ) >= sens);
                    }
                    assert(self.recently_pressed == target);
                }
            } else {
                assert(self.recently_pressed == target);
            }
        }
    }

    /// Routes one already-decoded event `(code, op)` to every slot that
    /// listens to exactly `code` (wildcard routing is the caller's dual
    /// call): bindings' contributions are rebalanced incrementally — by
    /// ratio when the overwritten slot was nonzero, by full recomputation
    /// when it was zero — and the affected actions' flags are rederived
    /// from their new aggregate values.
    #[verifier::rlimit(60)]
    fn apply_single(&mut self, code: InputCode, op: SlotOp)
        requires
            old(self).wf(),
            op_in_range(op),
        ensures
            final(self).wf(),
            final(self)@ == apply_op_m(old(self)@, code, op),
    {
        let ghost m0 = self@;
        let found = self.find_entry(code);
        if found.is_none() {
            proof {
                assert forall|a: int| 0 <= a < m0.actions.len() implies !touches(
                    m0.actions[a],
                    code,
                ) by {
                    if touches(m0.actions[a], code) {
                        let (i, j): (int, int) = choose|i: int, j: int|
                            0 <= i < m0.actions[a].binds.len() && 0 <= j
                                < m0.actions[a].binds[i].len() && m0.actions[a].binds[i][j].code
                                == code;
                        assert(self.actions@[a].binds@[i].slots@[j].code == code);
                        assert(self.index_complete());
                    }
                }
            }
            let f0 = match op {
                SlotOp::Write(v) => v,
                SlotOp::Add(d) => d,
            };
            if f0 >= self.press_sensitivity && !code.is_any() {
                self.recently_pressed = Some(code);
            }
            proof {
                assert(self@.actions =~= apply_op_m(m0, code, op).actions);
                assert(self@ =~= apply_op_m(m0, code, op));
            }
            return ;
        }
        let p = found.unwrap();
        let ghost i0 = self.index@;
        self.pass_update_slots(p, code, op);
        proof {
            lemma_binds_match(self.actions@, m0.actions, code, op);
            // The first pass kept every shape and every slot code, so the
            // index invariants carry over to the updated state.
            assert forall|pp: int, k: int|
                0 <= pp < self.index@.len() && 0 <= k < self.index@[pp].subs@.len() implies {
                let sub = #[trigger] self.index@[pp].subs@[k];
                &&& sub.action < self.actions@.len()
                &&& sub.bind < self.actions@[sub.action as int].binds@.len()
                &&& sub.slot < self.actions@[sub.action as int].binds@[sub.bind as int].slots@.len()
                &&& self.actions@[sub.action as int].binds@[sub.bind as int].slots@[sub.slot as int].code
                    == self.index@[pp].code
            } by {
                assert(old(self).index_sound());
                assert(i0[pp].subs@[k] == self.index@[pp].subs@[k]);
                let sub = self.index@[pp].subs@[k];
                assert(m0.actions[sub.action as int].binds[sub.bind as int][sub.slot as int].code
                    == old(self).actions@[sub.action as int].binds@[sub.bind as int].slots@[sub.slot as int].code);
            }
            assert(self.index_sound());
            assert forall|pp: int, k1: int, k2: int|
                0 <= pp < self.index@.len() && 0 <= k1 < k2 < self.index@[pp].subs@.len() implies
                #[trigger] self.index@[pp].subs@[k1] != #[trigger] self.index@[pp].subs@[k2] by {
                assert(old(self).index_nodup());
                assert(i0[pp].subs@[k1] == self.index@[pp].subs@[k1]);
                assert(i0[pp].subs@[k2] == self.index@[pp].subs@[k2]);
            }
            assert(self.index_nodup());
            assert forall|a: int, i: int, j: int|
                0 <= a < self.actions@.len() && 0 <= i < self.actions@[a].binds@.len() && 0 <= j
                    < self.actions@[a].binds@[i].slots@.len() implies exists|pp: int, k: int|
                0 <= pp < self.index@.len() && 0 <= k < self.index@[pp].subs@.len()
                    && self.index@[pp].code == (#[trigger] self.actions@[a].binds@[i].slots@[j]).code
                    && sub_is(self.index@[pp].subs@[k], a, i, j) by {
                assert(old(self).index_complete());
                assert(self.actions@[a].binds@[i].slots@[j].code == m0.actions[a].binds[i][j].code);
                assert(old(self).actions@[a].binds@[i].slots@[j].code
                    == m0.actions[a].binds[i][j].code);
                let (p2, k2): (int, int) = choose|p2: int, k2: int|
                    0 <= p2 < i0.len() && 0 <= k2 < i0[p2].subs@.len() && i0[p2].code == old(
                        self,
                    ).actions@[a].binds@[i].slots@[j].code && sub_is(i0[p2].subs@[k2], a, i, j);
                assert(self.index@[p2].code == self.actions@[a].binds@[i].slots@[j].code);
                assert(sub_is(self.index@[p2].subs@[k2], a, i, j));
            }
            assert(self.index_complete());
            // Codes of distinct entries stay distinct: the index itself is
            // untouched.
            assert forall|q1: int, q2: int| 0 <= q1 < q2 < self.index@.len() implies (
            #[trigger] self.index@[q1]).code != (#[trigger] self.index@[q2]).code by {
                assert(m0.codes[q1] == i0[q1].code);
                assert(m0.codes[q2] == i0[q2].code);
            }
            assert forall|pp: int| 0 <= pp < self.index@.len() implies (
            #[trigger] self.index@[pp]).subs@.len() > 0 by {
                assert(old(self).index_nonempty());
                assert(i0[pp].subs@.len() > 0);
            }
            assert(self.index_nonempty());
        }
        self.pass_update_flags(p, code, op, Ghost(m0));
        proof {
            let target = apply_op_m(m0, code, op);
            assert forall|a: int| 0 <= a < m0.actions.len() implies self@.actions[a]
                =~~= target.actions[a] by {
                if !touches(m0.actions[a], code) {
                    assert(upd_slots(m0.actions[a], code, op).binds =~~= m0.actions[a].binds);
                }
            }
            assert(self@.actions =~~= target.actions);
            assert(self@.codes =~= target.codes);
            assert(self@ =~~= target);
            self.lemma_restore_wf(m0, code, op);
        }
    }

    /// The invariant survives one event: shapes, codes and the index are
    /// untouched, values stay in range, and the caches match.
    proof fn lemma_restore_wf(&self, m0: MapM, code: InputCode, op: SlotOp)
        requires
            model_wf(m0),
            op_in_range(op),
            self@ == apply_op_m(m0, code, op),
            caches_ok_s(self.actions@),
            same_shape(self.actions@, m0.actions),
            slots_in_range_s(self.actions@),
            self.index_sound(),
            self.index_nodup(),
            self.index_complete(),
            self.index_nonempty(),
            self@.codes == m0.codes,
        ensures
            self.wf(),
    {
        assert forall|a: int, i: int, j: int|
            0 <= a < self@.actions.len() && 0 <= i < self@.actions[a].binds.len() && 0 <= j
                < self@.actions[a].binds[i].len() implies 0 <= (
        #[trigger] self@.actions[a].binds[i][j]).value <= MAX_INPUT_VALUE
            && self@.actions[a].binds[i][j].code == m0.actions[a].binds[i][j].code by {
            assert(self@.actions[a].binds[i][j] == slot_m(self.actions@[a].binds@[i].slots@[j]));
        }
        assert forall|pp: int| 0 <= pp < m0.codes.len() implies exists|a: int, i: int, j: int|
            0 <= a < self@.actions.len() && 0 <= i < self@.actions[a].binds.len() && 0 <= j
                < self@.actions[a].binds[i].len() && self@.actions[a].binds[i][j].code
                == #[trigger] m0.codes[pp] by {
            let (a, i, j): (int, int, int) = choose|a: int, i: int, j: int|
                0 <= a < m0.actions.len() && 0 <= i < m0.actions[a].binds.len() && 0 <= j
                    < m0.actions[a].binds[i].len() && m0.actions[a].binds[i][j].code
                    == m0.codes[pp];
            assert(self@.actions[a].binds[i][j].code == m0.codes[pp]);
        }
        assert forall|a: int, i: int, j: int|
            0 <= a < self@.actions.len() && 0 <= i < self@.actions[a].binds.len() && 0 <= j
                < self@.actions[a].binds[i].len() implies m0.codes.contains(
            (#[trigger] self@.actions[a].binds[i][j]).code,
        ) by {
            assert(self@.actions[a].binds[i][j].code == m0.actions[a].binds[i][j].code);
        }
    }
}


impl InputMap {
    /// Applies one decoded physical event: the raw value of `code` becomes
    /// `value`, first under the code's own scope, then under its wildcard
    /// scope, so bindings declared against either scope observe it.
    pub fn apply(&mut self, code: InputCode, value: i64)
        requires
            old(self).wf(),
            0 <= value <= MAX_INPUT_VALUE,
        ensures
            final(self).wf(),
            final(self)@ == apply_dual_m(old(self)@, code, SlotOp::Write(value)),
    {
        self.apply_single(code, SlotOp::Write(value));
        self.apply_single(code.set_any(), SlotOp::Write(value));
    }

    /// Accumulates a nonnegative relative delta onto `code`: each slot
    /// listening to it (under either scope) grows by `delta`, saturating at
    /// [`MAX_INPUT_VALUE`].  This is how split mouse-motion and scroll
    /// components gather within one tick.
    pub fn accumulate(&mut self, code: InputCode, delta: i64)
        requires
            old(self).wf(),
            0 <= delta <= MAX_INPUT_VALUE,
        ensures
            final(self).wf(),
            final(self)@ == apply_dual_m(old(self)@, code, SlotOp::Add(delta)),
    {
        self.apply_single(code, SlotOp::Add(delta));
        self.apply_single(code.set_any(), SlotOp::Add(delta));
    }


    /// Subscribes the slot `(action, bi, j)` under `c` in the reverse
    /// index, creating the entry for `c` if no slot listened to it yet.
    fn register_sub(&mut self, c: InputCode, action: usize, bi: usize, j: usize) -> (r: usize)
        ensures
            final(self).actions@ == old(self).actions@,
            final(self).press_sensitivity == old(self).press_sensitivity,
            final(self).recently_pressed == old(self).recently_pressed,
            final(self).text_typed == old(self).text_typed,
            final(self).mouse_pos == old(self).mouse_pos,
            final(self)@.codes == crate::model::register_code(old(self)@.codes, c),
            (r as int) < final(self).index@.len(),
            final(self).index@[r as int].code == c,
            forall|pp: int|
                0 <= pp < final(self).index@.len() && pp != r as int ==> pp < old(
                    self,
                ).index@.len() && final(self).index@[pp] == old(self).index@[pp],
            old(self)@.codes.contains(c) ==> final(self).index@.len() == old(self).index@.len()
                && (r as int) < old(self).index@.len() && old(self).index@[r as int].code == c
                && final(self).index@[r as int].subs@ == old(self).index@[r as int].subs@.push(
                Sub { action: action, bind: bi, slot: j },
            ),
            !old(self)@.codes.contains(c) ==> final(self).index@.len() == old(self).index@.len()
                + 1 && r as int == old(self).index@.len() && final(self).index@[r as int].subs@
                == Seq::<Sub>::empty().push(Sub { action: action, bind: bi, slot: j }),
    {
        let ghost codes0 = self@.codes;
        let found = self.find_entry(c);
        match found {
            Some(p) => {
                proof {
                    assert(codes0[p as int] == c);
                    assert(codes0.contains(c));
                }
                self.index[p].subs.push(Sub { action: action, bind: bi, slot: j });
                proof {
                    assert(self@.codes =~= codes0);
                }
                p
            },
            None => {
                proof {
                    if codes0.contains(c) {
                        let pp = choose|pp: int| 0 <= pp < codes0.len() && codes0[pp] == c;
                        assert(self.index@[pp].code == c);
                    }
                }
                let mut v: Vec<Sub> = Vec::new();
                v.push(Sub { action: action, bind: bi, slot: j });
                let r = self.index.len();
                self.index.push(IndexEntry { code: c, subs: v });
                proof {
                    assert(self@.codes =~= codes0.push(c));
                    assert(v@ =~= Seq::<Sub>::empty().push(
                        Sub { action: action, bind: bi, slot: j },
                    ));
                }
                r
            },
        }
    }

    /// Appends one fresh binding (an AND-group over `codes`, all raw values
    /// 0) to the existing action `action`, and subscribes every slot in the
    /// reverse index.
    #[verifier::loop_isolation(false)]
    #[verifier::rlimit(100)]
    fn add_one_bind(&mut self, action: usize, codes: &Vec<InputCode>)
        requires
            old(self).wf(),
            (action as int) < old(self)@.actions.len(),
            codes@.len() <= MAX_BIND_ARITY,
            old(self)@.actions[action as int].binds.len() < MAX_BINDS_PER_ACTION,
        ensures
            final(self).wf(),
            final(self)@ == add_bind_single_m(old(self)@, action as int, codes@),
    {
        proof {
            lemma_capacity_constants();
        }
        let ghost m0 = self@;
        let bi = self.actions[action].binds.len();
        let mut slots: Vec<Slot> = Vec::new();
        let mut j: usize = 0;
        while j < codes.len()
            invariant
                j <= codes@.len(),
                slots@.len() == j,
                forall|q: int|
                    0 <= q < j ==> (#[trigger] slots@[q]).code == codes@[q] && slots@[q].value
                        == 0,
            decreases codes@.len() - j,
        {
            slots.push(Slot { code: codes[j], value: 0 });
            j += 1;
        }
        let nb: i64 = if slots.len() == 0 {
            1
        } else {
            0
        };
        proof {
            assert(slots_m(slots@) =~= new_bind(codes@));
            lemma_prod_new_bind(codes@);
        }
        self.actions[action].binds.push(Bind { value: nb, slots });
        let av = self.actions[action].value;
        proof {
            assert(av as int == sum_binds(m0.actions[action as int].binds));
            lemma_sum_bounds(m0.actions[action as int].binds);
            assert(m0.actions[action as int].binds.len() * max_contribution()
                <= MAX_BINDS_PER_ACTION * max_contribution()) by (nonlinear_arith)
                requires
                    m0.actions[action as int].binds.len() <= MAX_BINDS_PER_ACTION,
                    max_contribution() >= 0,
            ;
        }
        self.actions[action].value = av + nb;
        let ghost acts1 = self.actions@;
        let ghost target_actions = m0.actions.update(
            action as int,
            ActionM {
                binds: m0.actions[action as int].binds.push(new_bind(codes@)),
                ..m0.actions[action as int]
            },
        );
        proof {
            assert forall|a: int| 0 <= a < acts1.len() implies #[trigger] action_m(acts1[a])
                =~~= target_actions[a] by {
                if a == action as int {
                    assert(action_m(acts1[a]).binds =~~= target_actions[a].binds) by {
                        assert(acts1[a].binds@.len() == m0.actions[a].binds.len() + 1);
                        assert forall|i: int|
                            0 <= i < acts1[a].binds@.len() implies action_m(acts1[a]).binds[i]
                            =~= target_actions[a].binds[i] by {
                            if i < m0.actions[a].binds.len() {
                                assert(acts1[a].binds@[i] == old(self).actions@[a].binds@[i]);
                                assert(m0.actions[a].binds[i] == bind_m(
                                    old(self).actions@[a].binds@[i],
                                ));
                            } else {
                                assert(bind_m(acts1[a].binds@[i]) =~= new_bind(codes@));
                            }
                        }
                    }
                } else {
                    assert(acts1[a] == old(self).actions@[a]);
                    assert(target_actions[a] == m0.actions[a]);
                    assert(m0.actions[a] == action_m(old(self).actions@[a]));
                }
            }
            assert(acts_m(acts1) =~~= target_actions);
            // Caches still match: the new binding carries its own product,
            // and the action's sum grew by exactly that contribution.
            assert(caches_ok_s(acts1)) by {
                assert forall|a: int, i: int|
                    0 <= a < acts1.len() && 0 <= i < acts1[a].binds@.len() implies (
                #[trigger] acts1[a].binds@[i]).value as int == prod(bind_m(acts1[a].binds@[i])) by {
                    if a == action as int && i == bi as int {
                        assert(bind_m(acts1[a].binds@[i]) =~= new_bind(codes@));
                    } else {
                        assert(acts1[a].binds@[i] == old(self).actions@[a].binds@[i]);
                    }
                }
                assert forall|a: int| 0 <= a < acts1.len() implies (#[trigger] acts1[a]).value
                    as int == sum_binds(action_m(acts1[a]).binds) by {
                    if a == action as int {
                        lemma_sum_push(m0.actions[a].binds, new_bind(codes@));
                        assert(action_m(acts1[a]).binds =~= m0.actions[a].binds.push(
                            new_bind(codes@),
                        ));
                    } else {
                        assert(acts1[a] == old(self).actions@[a]);
                        assert(action_m(acts1[a]).binds == m0.actions[a].binds);
                    }
                }
            }
        }
        // Subscribe each new slot under its code, registering codes never
        // seen before.
        let mut j: usize = 0;
        while j < codes.len()
            invariant
                j <= codes@.len(),
                self.actions@ == acts1,
                self.press_sensitivity == old(self).press_sensitivity,
                self.recently_pressed == old(self).recently_pressed,
                self.text_typed == old(self).text_typed,
                self.mouse_pos == old(self).mouse_pos,
                self@.codes == register_codes(m0.codes, codes@.take(j as int)),
                self.index_sound(),
                self.index_nodup(),
                self.index_nonempty(),
                forall|p: int, k: int|
                    0 <= p < self.index@.len() && 0 <= k < self.index@[p].subs@.len() ==> !{
                        let sub = #[trigger] self.index@[p].subs@[k];
                        sub.action == action && sub.bind == bi && sub.slot >= j
                    },
                forall|a: int, i: int, jj: int|
                    0 <= a < self.actions@.len() && 0 <= i < self.actions@[a].binds@.len() && 0
                        <= jj < self.actions@[a].binds@[i].slots@.len() && !(a == action as int
                        && i == bi as int && jj >= j) ==> exists|p: int, k: int|
                        0 <= p < self.index@.len() && 0 <= k < self.index@[p].subs@.len()
                            && self.index@[p].code == (
                        #[trigger] self.actions@[a].binds@[i].slots@[jj]).code && sub_is(
                            self.index@[p].subs@[k],
                            a,
                            i,
                            jj,
                        ),
            decreases codes@.len() - j,
        {
            let c = codes[j];
            let ghost iprev = self.index@;
            proof {
                lemma_register_codes_push(m0.codes, codes@.take(j as int), codes@[j as int]);
                assert(codes@.take(j as int + 1) =~= codes@.take(j as int).push(
                    codes@[j as int],
                ));
            }
            let r = self.register_sub(c, action, bi, j);
            j += 1;
            proof {
                let jn = j as int;
                assert forall|p: int, k: int|
                    0 <= p < self.index@.len() && 0 <= k < self.index@[p].subs@.len() implies !{
                    let sub = #[trigger] self.index@[p].subs@[k];
                    sub.action == action && sub.bind == bi && sub.slot >= jn
                } by {
                    if p == r as int {
                        if k < self.index@[p].subs@.len() - 1 && p < iprev.len() {
                            assert(self.index@[p].subs@[k] == iprev[p].subs@[k]);
                        } else {
                            assert(self.index@[p].subs@[k] == (Sub {
                                action: action,
                                bind: bi,
                                slot: (jn - 1) as usize,
                            }));
                        }
                    } else {
                        assert(self.index@[p] == iprev[p]);
                    }
                }
                assert forall|a: int, i: int, jj: int|
                    0 <= a < self.actions@.len() && 0 <= i < self.actions@[a].binds@.len() && 0
                        <= jj < self.actions@[a].binds@[i].slots@.len() && !(a == action as int
                        && i == bi as int && jj >= jn) implies exists|p: int, k: int|
                    0 <= p < self.index@.len() && 0 <= k < self.index@[p].subs@.len()
                        && self.index@[p].code == (
                    #[trigger] self.actions@[a].binds@[i].slots@[jj]).code && sub_is(
                        self.index@[p].subs@[k],
                        a,
                        i,
                        jj,
                    ) by {
                    if a == action as int && i == bi as int && jj == jn - 1 {
                        assert(self.actions@[a].binds@[i].slots@[jj].code == codes@[jj]);
                        let kr = self.index@[r as int].subs@.len() - 1;
                        assert(self.index@[r as int].code == codes@[jj]);
                        assert(sub_is(self.index@[r as int].subs@[kr], a, i, jj));
                    } else {
                        let (p, k): (int, int) = choose|p: int, k: int|
                            0 <= p < iprev.len() && 0 <= k < iprev[p].subs@.len()
                                && iprev[p].code == self.actions@[a].binds@[i].slots@[jj].code
                                && sub_is(iprev[p].subs@[k], a, i, jj);
                        if p == r as int {
                            assert(self.index@[p].code == iprev[p].code);
                            assert(self.index@[p].subs@[k] == iprev[p].subs@[k]);
                        } else {
                            assert(self.index@[p] == iprev[p]);
                        }
                    }
                }
            }
        }
        proof {
            assert(codes@.take(codes@.len() as int) =~= codes@);
            let target = add_bind_single_m(m0, action as int, codes@);
            assert(self.actions@ == acts1);
            assert(self@.actions == acts_m(acts1));
            assert(acts_m(acts1) == target_actions);
            assert(self@.actions == target_actions);
            assert(self@.actions =~~= target.actions);
            assert(self@ =~~= target);
            // Full completeness: the exception set is empty now.
            assert forall|a: int, i: int, jj: int|
                0 <= a < self.actions@.len() && 0 <= i < self.actions@[a].binds@.len() && 0 <= jj
                    < self.actions@[a].binds@[i].slots@.len() implies exists|p: int, k: int|
                0 <= p < self.index@.len() && 0 <= k < self.index@[p].subs@.len()
                    && self.index@[p].code == (
                #[trigger] self.actions@[a].binds@[i].slots@[jj]).code && sub_is(
                    self.index@[p].subs@[k],
                    a,
                    i,
                    jj,
                ) by {
                assert(!(a == action as int && i == bi as int && jj >= codes@.len()));
            }
            // The abstract state stays well formed.
            assert(model_wf(self@)) by {
                lemma_register_codes_facts(m0.codes, codes@);
                assert forall|a: int, i: int, jj: int|
                    0 <= a < self@.actions.len() && 0 <= i < self@.actions[a].binds.len() && 0
                        <= jj < self@.actions[a].binds[i].len() implies 0 <= (
                #[trigger] self@.actions[a].binds[i][jj]).value <= MAX_INPUT_VALUE
                    && self@.codes.contains(self@.actions[a].binds[i][jj].code) by {
                    assert(self@.actions[a].binds[i][jj] == slot_m(
                        self.actions@[a].binds@[i].slots@[jj],
                    ));
                    assert(self@.actions[a] == target_actions[a]);
                    if a == action as int && i == bi as int {
                        assert(self@.actions[a].binds[i] =~= new_bind(codes@));
                        assert(self@.actions[a].binds[i][jj].code == codes@[jj]);
                        assert(codes@.contains(codes@[jj]));
                        assert(register_codes(m0.codes, codes@).contains(codes@[jj]));
                        assert(self@.codes == register_codes(m0.codes, codes@));
                    } else {
                        assert(m0.actions[a].binds[i][jj] == self@.actions[a].binds[i][jj]);
                        assert(m0.codes.contains(m0.actions[a].binds[i][jj].code));
                        assert(register_codes(m0.codes, codes@).contains(
                            m0.actions[a].binds[i][jj].code,
                        ));
                        assert(self@.codes == register_codes(m0.codes, codes@));
                    }
                }
                assert forall|pp: int| 0 <= pp < self@.codes.len() implies exists|
                    a: int,
                    i: int,
                    jj: int,
                |
                    0 <= a < self@.actions.len() && 0 <= i < self@.actions[a].binds.len() && 0
                        <= jj < self@.actions[a].binds[i].len() && self@.actions[a].binds[i][jj].code
                        == #[trigger] self@.codes[pp] by {
                    let c = self@.codes[pp];
                    assert(self@.codes.contains(c));
                    assert(self@.codes == register_codes(m0.codes, codes@));
                    assert(register_codes(m0.codes, codes@).contains(c));
                    if m0.codes.contains(c) {
                        let pp2 = choose|pp2: int| 0 <= pp2 < m0.codes.len() && m0.codes[pp2]
                            == c;
                        assert(exists|a: int, i: int, jj: int|
                            0 <= a < m0.actions.len() && 0 <= i < m0.actions[a].binds.len() && 0
                                <= jj < m0.actions[a].binds[i].len()
                                && m0.actions[a].binds[i][jj].code == m0.codes[pp2]);
                        let (a, i, jj): (int, int, int) = choose|a: int, i: int, jj: int|
                            0 <= a < m0.actions.len() && 0 <= i < m0.actions[a].binds.len() && 0
                                <= jj < m0.actions[a].binds[i].len()
                                && m0.actions[a].binds[i][jj].code == m0.codes[pp2];
                        assert(self@.actions[a] == target_actions[a]);
                        assert(self@.actions[a].binds[i][jj].code == c);
                    } else {
                        let jj = choose|jj: int| 0 <= jj < codes@.len() && codes@[jj] == c;
                        assert(bi as int == m0.actions[action as int].binds.len());
                        assert(self@.actions[action as int] == target_actions[action as int]);
                        assert(self@.actions[action as int].binds[bi as int] =~= new_bind(
                            codes@,
                        ));
                        assert(self@.actions[action as int].binds[bi as int][jj].code == c);
                    }
                }
            }
        }
    }
}


/// The declarative bind lists of one entry, abstractly.
pub open spec fn bind_lists_view(bls: Vec<Vec<InputCode>>) -> Seq<Seq<InputCode>> {
    Seq::new(bls@.len(), |i: int| bls@[i]@)
}

/// A whole declarative bind list, abstractly.
pub open spec fn binds_view(binds: Binds) -> Seq<(int, Seq<Seq<InputCode>>)> {
    Seq::new(binds@.len(), |e: int| (binds@[e].0 as int, bind_lists_view(binds@[e].1)))
}

impl InputMap {
    /// Adds one declarative entry: declares the action if needed, then
    /// appends its bindings one by one.
    #[verifier::loop_isolation(false)]
    #[verifier::rlimit(100)]
    fn add_entry(&mut self, action: usize, bls: &Vec<Vec<InputCode>>)
        requires
            old(self).wf(),
            action < usize::MAX,
            forall|i: int| 0 <= i < bls@.len() ==> (#[trigger] bls@[i])@.len() <= MAX_BIND_ARITY,
            bind_count(old(self)@, action as int) + bls@.len() <= MAX_BINDS_PER_ACTION,
        ensures
            final(self).wf(),
            final(self)@ == add_entry_m(old(self)@, action as int, bind_lists_view(*bls)),
    {
        let ghost m0 = self@;
        let ghost bviews = bind_lists_view(*bls);
        proof {
            lemma_entry_is_fold(m0, action as int, bviews);
        }
        while self.actions.len() <= action
            invariant
                self.wf(),
                m0.actions.len() <= self@.actions.len(),
                self@.actions.len() <= action as int + 1 || self@.actions.len()
                    == m0.actions.len(),
                forall|x: int| 0 <= x < m0.actions.len() ==> #[trigger] self@.actions[x]
                    == m0.actions[x],
                forall|x: int|
                    m0.actions.len() <= x < self@.actions.len() ==> #[trigger] self@.actions[x]
                        == empty_action(),
                self@.codes == m0.codes,
                self@.press_sensitivity == m0.press_sensitivity,
                self@.recently_pressed == m0.recently_pressed,
                self@.text_typed == m0.text_typed,
                self@.mouse_pos == m0.mouse_pos,
            decreases action as int + 1 - self@.actions.len(),
        {
            let ghost before = self@;
            self.actions.push(
                ActionState {
                    value: 0,
                    was_pressing: false,
                    pressed: false,
                    released: false,
                    binds: Vec::new(),
                },
            );
            proof {
                let fresh = self.actions@[self.actions@.len() - 1];
                assert(fresh.binds@.len() == 0);
                assert(action_m(fresh) =~~= empty_action());
                assert forall|x: int| 0 <= x < before.actions.len() implies #[trigger] self@.actions[x]
                    == before.actions[x] by {
                    assert(action_m(self.actions@[x]) == before.actions[x]);
                }
                // The new empty action disturbs nothing the invariant
                // watches: it has no bindings and no slots.
                assert(model_wf(self@)) by {
                    assert forall|a: int, i: int, j: int|
                        0 <= a < self@.actions.len() && 0 <= i < self@.actions[a].binds.len() && 0
                            <= j < self@.actions[a].binds[i].len() implies 0 <= (
                    #[trigger] self@.actions[a].binds[i][j]).value <= MAX_INPUT_VALUE
                        && self@.codes.contains(self@.actions[a].binds[i][j].code) by {
                        assert(a < before.actions.len());
                        assert(self@.actions[a] == before.actions[a]);
                    }
                    assert forall|a: int, i: int|
                        0 <= a < self@.actions.len() && 0 <= i
                            < self@.actions[a].binds.len() implies (
                    #[trigger] self@.actions[a].binds[i]).len() <= MAX_BIND_ARITY by {
                        assert(a < before.actions.len());
                        assert(self@.actions[a] == before.actions[a]);
                    }
                    assert forall|a: int|
                        0 <= a < self@.actions.len() implies (
                    #[trigger] self@.actions[a]).binds.len() <= MAX_BINDS_PER_ACTION by {
                        if a < before.actions.len() {
                            assert(self@.actions[a] == before.actions[a]);
                        } else {
                            assert(self@.actions[a] == empty_action());
                        }
                    }
                    assert forall|pp: int| 0 <= pp < self@.codes.len() implies exists|
                        a: int,
                        i: int,
                        j: int,
                    |
                        0 <= a < self@.actions.len() && 0 <= i < self@.actions[a].binds.len() && 0
                            <= j < self@.actions[a].binds[i].len()
                            && self@.actions[a].binds[i][j].code == #[trigger] self@.codes[pp] by {
                        let (a, i, j): (int, int, int) = choose|a: int, i: int, j: int|
                            0 <= a < before.actions.len() && 0 <= i < before.actions[a].binds.len()
                                && 0 <= j < before.actions[a].binds[i].len()
                                && before.actions[a].binds[i][j].code == before.codes[pp];
                        assert(self@.actions[a] == before.actions[a]);
                    }
                }
            }
        }
        proof {
            assert(self@ =~~= grow_m(m0, action as int)) by {
                if (action as int) < m0.actions.len() {
                    assert(self@.actions =~~= m0.actions);
                } else {
                    assert(self@.actions.len() == action as int + 1);
                    assert(self@.actions =~~= grow_actions(m0.actions, action as int));
                }
            }
        }
        let ghost g = grow_m(m0, action as int);
        let mut i: usize = 0;
        while i < bls.len()
            invariant
                i <= bls@.len(),
                self.wf(),
                self@ == binds_fold_m(g, action as int, bviews.take(i as int)),
                (action as int) < self@.actions.len(),
                self@.actions[action as int].binds.len() == bind_count(m0, action as int) + i,
            decreases bls@.len() - i,
        {
            self.add_one_bind(action, &bls[i]);
            i += 1;
            proof {
                lemma_binds_fold_push(g, action as int, bviews.take(i as int - 1), bviews[i as int - 1]);
                assert(bviews.take(i as int) =~= bviews.take(i as int - 1).push(
                    bviews[i as int - 1],
                ));
                assert(bls@[i as int - 1]@ == bviews[i as int - 1]);
            }
        }
        proof {
            assert(bviews.take(bls@.len() as int) =~= bviews);
        }
    }

    /// Adds declarative binds to the existing table: each entry declares an
    /// action (by index) and appends bindings to it.  Existing slot values,
    /// aggregates and flags are untouched; the fresh bindings start from
    /// raw value 0.  Beware a binding declared with an empty code list: the
    /// empty AND-group holds vacuously, so it contributes 1 from the start
    /// and keeps its action pressing permanently.
    ///
    /// The capacity limits the precondition asks for — magnitudes up to
    /// [`MAX_INPUT_VALUE`], at most [`MAX_BIND_ARITY`] codes per binding
    /// and [`MAX_BINDS_PER_ACTION`] bindings per action — are what keeps
    /// every product and sum of raw values inside the machine integers;
    /// [`Self::can_add_binds`] tests them at run time.
    #[verifier::loop_isolation(false)]
    #[verifier::rlimit(60)]
    pub fn add_binds(&mut self, binds: &Binds)
        requires
            old(self).wf(),
            addable(old(self)@, binds_view(*binds)),
        ensures
            final(self).wf(),
            final(self)@ == add_binds_m(old(self)@, binds_view(*binds)),
    {
        let ghost m0 = self@;
        let ghost entries = binds_view(*binds);
        let mut e: usize = 0;
        while e < binds.len()
            invariant
                e <= binds@.len(),
                self.wf(),
                self@ == add_binds_m(m0, entries.take(e as int)),
            decreases binds@.len() - e,
        {
            let ghost ee = e as int;
            proof {
                let a = entries[ee].0;
                lemma_bind_count_add(m0, entries.take(ee), a);
                assert(entries =~= entries.take(ee) + entries.skip(ee));
                lemma_count_concat(entries.take(ee), entries.skip(ee), a);
                assert(entries.skip(ee).len() > 0);
                assert(entries.skip(ee)[0] == entries[ee]);
                assert(entries.skip(ee).drop_first() =~= entries.skip(ee + 1));
                lemma_count_nonneg(entries.skip(ee + 1), a);
                assert(count_new_binds(entries.skip(ee), a) >= entries[ee].1.len());
                assert(bind_count(self@, a) + entries[ee].1.len() <= MAX_BINDS_PER_ACTION);
                assert(entries[ee].1 == bind_lists_view(binds@[ee].1));
                assert(entries[ee].0 == binds@[ee].0 as int);
                assert(0 <= entries[ee].0 < usize::MAX);
                assert forall|i: int| 0 <= i < binds@[ee].1@.len() implies (
                #[trigger] binds@[ee].1@[i])@.len() <= MAX_BIND_ARITY by {
                    assert(entries[ee].1[i].len() <= MAX_BIND_ARITY);
                    assert(entries[ee].1[i] == binds@[ee].1@[i]@);
                }
            }
            let action = binds[e].0;
            self.add_entry(action, &binds[e].1);
            e += 1;
            proof {
                lemma_add_binds_push(m0, entries.take(ee), entries[ee]);
                assert(entries.take(ee + 1) =~= entries.take(ee).push(entries[ee]));
            }
        }
        proof {
            assert(entries.take(binds@.len() as int) =~= entries);
        }
    }

    /// Builds an input map from a declarative bind list.
    pub fn new(binds: &Binds) -> (r: Self)
        requires
            addable(empty_m(), binds_view(*binds)),
        ensures
            r.wf(),
            r@ == add_binds_m(empty_m(), binds_view(*binds)),
    {
        let mut r = Self::empty();
        r.add_binds(binds);
        r
    }

    /// Replaces the whole table: every action and every registered code is
    /// dropped, then `binds` is added to the empty table.  The press
    /// threshold and the transient public fields carry over.
    pub fn set_binds(&mut self, binds: &Binds)
        requires
            old(self).wf(),
            addable(crate::model::cleared_m(old(self)@), binds_view(*binds)),
        ensures
            final(self).wf(),
            final(self)@ == add_binds_m(crate::model::cleared_m(old(self)@), binds_view(*binds)),
    {
        self.actions = Vec::new();
        self.index = Vec::new();
        proof {
            assert(self@ =~~= crate::model::cleared_m(old(self)@));
        }
        self.add_binds(binds);
    }

    /// Whether `binds` fits the engine's capacity when added to this map:
    /// the exact precondition of [`Self::add_binds`].
    #[verifier::loop_isolation(false)]
    #[verifier::rlimit(60)]
    pub fn can_add_binds(&self, binds: &Binds) -> (r: bool)
        requires
            self.wf(),
        ensures
            r == addable(self@, binds_view(*binds)),
    {
        let ghost entries = binds_view(*binds);
        let mut e: usize = 0;
        while e < binds.len()
            invariant
                e <= binds@.len(),
                forall|e2: int| 0 <= e2 < e ==> 0 <= (#[trigger] entries[e2]).0 < usize::MAX,
                forall|e2: int, i: int|
                    0 <= e2 < e && 0 <= i < entries[e2].1.len() ==> (
                #[trigger] entries[e2].1[i]).len() <= MAX_BIND_ARITY,
                forall|e2: int|
                    0 <= e2 < e ==> bind_count(self@, (#[trigger] entries[e2]).0)
                        + count_new_binds(entries, entries[e2].0) <= MAX_BINDS_PER_ACTION,
            decreases binds@.len() - e,
        {
            let a = binds[e].0;
            if a == usize::MAX {
                proof {
                    assert(!(0 <= entries[e as int].0 < usize::MAX));
                }
                return false;
            }
            let mut i: usize = 0;
            while i < binds[e].1.len()
                invariant
                    i <= binds@[e as int].1@.len(),
                    e < binds@.len(),
                    forall|i2: int|
                        0 <= i2 < i ==> (#[trigger] entries[e as int].1[i2]).len()
                            <= MAX_BIND_ARITY,
                decreases binds@[e as int].1@.len() - i,
            {
                if binds[e].1[i].len() > MAX_BIND_ARITY {
                    proof {
                        assert(entries[e as int].1[i as int].len() > MAX_BIND_ARITY);
                    }
                    return false;
                }
                i += 1;
            }
            // Count every binding the whole list declares for this action,
            // giving up as soon as the capacity is exceeded.
            let mut total: u64 = 0;
            let mut e2: usize = 0;
            while e2 < binds.len()
                invariant
                    e2 <= binds@.len(),
                    e < binds@.len(),
                    a as int == entries[e as int].0,
                    a < usize::MAX,
                    total as int == count_new_binds(entries.take(e2 as int), a as int),
                    total <= MAX_BINDS_PER_ACTION as u64,
                decreases binds@.len() - e2,
            {
                let ghost ee2 = e2 as int;
                proof {
                    assert(entries.take(ee2 + 1) =~= entries.take(ee2).push(entries[ee2]));
                    crate::model::lemma_count_push(entries.take(ee2), entries[ee2], a as int);
                }
                if binds[e2].0 == a {
                    let add_len = binds[e2].1.len();
                    if add_len > MAX_BINDS_PER_ACTION || total > (MAX_BINDS_PER_ACTION as u64)
                        - (add_len as u64) {
                        proof {
                            assert(count_new_binds(entries.take(ee2 + 1), a as int)
                                > MAX_BINDS_PER_ACTION);
                            assert(entries =~= entries.take(ee2 + 1) + entries.skip(ee2 + 1));
                            lemma_count_concat(
                                entries.take(ee2 + 1),
                                entries.skip(ee2 + 1),
                                a as int,
                            );
                            lemma_count_nonneg(entries.skip(ee2 + 1), a as int);
                            assert(count_new_binds(entries, a as int) > MAX_BINDS_PER_ACTION);
                            assert(bind_count(self@, a as int) >= 0);
                            assert(!addable(self@, entries));
                        }
                        return false;
                    }
                    total = total + add_len as u64;
                } else {
                    proof {
                        assert(entries[ee2].0 != a as int);
                    }
                }
                e2 += 1;
            }
            proof {
                assert(entries.take(binds@.len() as int) =~= entries);
            }
            let current = if a < self.actions.len() {
                self.actions[a].binds.len()
            } else {
                0
            };
            proof {
                assert(current as int == bind_count(self@, a as int));
                if (a as int) < self@.actions.len() {
                    assert(self@.actions[a as int].binds.len() <= MAX_BINDS_PER_ACTION);
                }
            }
            if current > MAX_BINDS_PER_ACTION - (total as usize) {
                proof {
                    assert(bind_count(self@, a as int) + count_new_binds(entries, a as int)
                        > MAX_BINDS_PER_ACTION);
                }
                return false;
            }
            e += 1;
        }
        proof {
            assert forall|a: int|
                0 <= a implies bind_count(self@, a) + #[trigger] count_new_binds(entries, a)
                <= MAX_BINDS_PER_ACTION by {
                if exists|e2: int| 0 <= e2 < entries.len() && (#[trigger] entries[e2]).0 == a {
                    let e2 = choose|e2: int|
                        0 <= e2 < entries.len() && (#[trigger] entries[e2]).0 == a;
                    assert(bind_count(self@, entries[e2].0) + count_new_binds(
                        entries,
                        entries[e2].0,
                    ) <= MAX_BINDS_PER_ACTION);
                } else {
                    crate::model::lemma_count_zero(entries, a);
                    if 0 <= a < self@.actions.len() {
                        assert(self@.actions[a].binds.len() <= MAX_BINDS_PER_ACTION);
                    }
                }
            }
        }
        true
    }
}


/// Which registered codes one zeroing sweep drives back to zero.
#[derive(Clone, Copy, PartialEq, Eq, Debug, Structural)]
enum CodeFilter {
    /// The zero-centered relative deltas (mouse motion and scrolling).
    Relative,
    /// Everything scoped to exactly this gamepad.
    GamepadScoped(u64),
    /// Everything scoped to exactly this keyboard-and-mouse device.
    DeviceScoped(u64),
    /// Every registered code.
    All,
}

/// Whether the sweep `f` zeroes the code `c`.
spec fn filter_matches(f: CodeFilter, c: InputCode) -> bool {
    match f {
        CodeFilter::Relative => spec_is_relative(c),
        CodeFilter::GamepadScoped(id) => c matches InputCode::Gamepad {
            id: SpecifyGamepad::Id(i),
            ..
        } && i == id,
        CodeFilter::DeviceScoped(id) => c matches InputCode::Device {
            id: SpecifyDevice::Id(i),
            ..
        } && i == id,
        CodeFilter::All => true,
    }
}

impl InputMap {
    /// Whether the sweep `f` zeroes the code `c`.
    fn code_matches(f: CodeFilter, c: InputCode) -> (r: bool)
        ensures
            r == filter_matches(f, c),
    {
        match f {
            CodeFilter::Relative => is_relative(c),
            CodeFilter::GamepadScoped(id) => match c {
                InputCode::Gamepad { id: SpecifyGamepad::Id(i), .. } => i == id,
                _ => false,
            },
            CodeFilter::DeviceScoped(id) => match c {
                InputCode::Device { id: SpecifyDevice::Id(i), .. } => i == id,
                _ => false,
            },
            CodeFilter::All => true,
        }
    }

    /// Collects, in registration order, every registered code the sweep
    /// selects.
    #[verifier::loop_isolation(false)]
    fn collect_matching(&self, f: CodeFilter) -> (r: Vec<InputCode>)
        ensures
            r@ == self@.codes.filter(|c: InputCode| filter_matches(f, c)),
    {
        let ghost pred = |c: InputCode| filter_matches(f, c);
        let mut targets: Vec<InputCode> = Vec::new();
        let mut p: usize = 0;
        proof {
            reveal(Seq::filter);
            assert(self@.codes.take(0) =~= Seq::<InputCode>::empty());
            assert(Seq::<InputCode>::empty().filter(pred) =~= Seq::<InputCode>::empty());
        }
        while p < self.index.len()
            invariant
                p <= self.index@.len(),
                targets@ == self@.codes.take(p as int).filter(pred),
            decreases self.index@.len() - p,
        {
            let c = self.index[p].code;
            proof {
                assert(self@.codes[p as int] == c);
                assert(self@.codes.take(p as int + 1) =~= self@.codes.take(p as int).push(
                    self@.codes[p as int],
                ));
                lemma_filter_push(self@.codes.take(p as int), pred, self@.codes[p as int]);
            }
            if Self::code_matches(f, c) {
                targets.push(c);
            }
            p += 1;
        }
        proof {
            assert(self@.codes.take(self.index@.len() as int) =~= self@.codes);
        }
        targets
    }

    /// Routes a zeroing event through the engine, exactly as a real event,
    /// for each of `targets` in order.
    #[verifier::loop_isolation(false)]
    #[verifier::rlimit(60)]
    fn zero_list(&mut self, targets: &Vec<InputCode>)
        requires
            old(self).wf(),
        ensures
            final(self).wf(),
            final(self)@ == zero_codes_m(old(self)@, targets@),
    {
        let ghost m0 = self@;
        let mut k: usize = 0;
        proof {
            assert(targets@.take(0) =~= Seq::<InputCode>::empty());
        }
        while k < targets.len()
            invariant
                k <= targets@.len(),
                self.wf(),
                self@ == zero_codes_m(m0, targets@.take(k as int)),
            decreases targets@.len() - k,
        {
            let c = targets[k];
            self.apply_single(c, SlotOp::Write(0));
            k += 1;
            proof {
                lemma_zero_codes_push(m0, targets@.take(k as int - 1), targets@[k as int - 1]);
                assert(targets@.take(k as int) =~= targets@.take(k as int - 1).push(
                    targets@[k as int - 1],
                ));
            }
        }
        proof {
            assert(targets@.take(targets@.len() as int) =~= targets@);
        }
    }

    /// One zeroing sweep: every registered code the sweep selects is
    /// driven to zero through the normal update path, in registration
    /// order.
    fn zero_matching(&mut self, f: CodeFilter)
        requires
            old(self).wf(),
        ensures
            final(self).wf(),
            final(self)@ == zero_codes_m(
                old(self)@,
                old(self)@.codes.filter(|c: InputCode| filter_matches(f, c)),
            ),
    {
        let targets = self.collect_matching(f);
        self.zero_list(&targets);
    }

    pub fn init(&mut self)
        requires
            old(self).wf(),
        ensures
            final(self).wf(),
            final(self)@ == tick_reset_m(old(self)@),
    {
        self.zero_matching(CodeFilter::Relative);
        proof {
            let p1 = |c: InputCode| filter_matches(CodeFilter::Relative, c);
            let p2 = |c: InputCode| spec_is_relative(c);
            assert(p1 =~= p2);
        }
        self.clear_transients();
    }

    /// Clears the per-tick transients: every action's `pressed` and
    /// `released` flag, the most recently pressed code, and the typed-text
    /// buffer.
    #[verifier::loop_isolation(false)]
    #[verifier::rlimit(100)]
    fn clear_transients(&mut self)
        requires
            old(self).wf(),
        ensures
            final(self).wf(),
            final(self)@ == clear_transients_m(old(self)@),
    {
        let ghost mid = self@;
        let ghost i1 = self.index@;
        let n = self.actions.len();
        let mut a: usize = 0;
        while a < n
            invariant
                a <= n,
                n == self.actions@.len(),
                self.actions@.len() == mid.actions.len(),
                self.index@ == i1,
                self.press_sensitivity as int == mid.press_sensitivity,
                self.recently_pressed == mid.recently_pressed,
                match self.text_typed {
                    Some(ref s) => mid.text_typed == Some(s@),
                    None => mid.text_typed is None,
                },
                (self.mouse_pos.0 as int, self.mouse_pos.1 as int) == mid.mouse_pos,
                forall|x: int|
                    0 <= x < a ==> #[trigger] action_m(self.actions@[x]) == (ActionM {
                        pressed: false,
                        released: false,
                        ..mid.actions[x]
                    }),
                forall|x: int|
                    a <= x < n ==> #[trigger] action_m(self.actions@[x]) == mid.actions[x],
                forall|x: int|
                    0 <= x < n ==> (#[trigger] self.actions@[x]).binds@
                        == self.actions@[x].binds@ && self.actions@[x].value
                        == self.actions@[x].value,
                self.wf(),
            decreases n - a,
        {
            let ghost before = self.actions@;
            self.actions[a].pressed = false;
            self.actions[a].released = false;
            a += 1;
            proof {
                assert(self.actions@[a as int - 1].binds@ == before[a as int - 1].binds@);
                assert forall|x: int| 0 <= x < a implies #[trigger] action_m(self.actions@[x])
                    == (ActionM { pressed: false, released: false, ..mid.actions[x] }) by {
                    if x < a - 1 {
                        assert(self.actions@[x] == before[x]);
                    }
                }
                assert forall|x: int| a <= x < n implies #[trigger] action_m(self.actions@[x])
                    == mid.actions[x] by {
                    assert(self.actions@[x] == before[x]);
                }
                assert(self.wf()) by {
                    assert(caches_ok_s(self.actions@)) by {
                        assert forall|x: int, i: int|
                            0 <= x < self.actions@.len() && 0 <= i
                                < self.actions@[x].binds@.len() implies (
                        #[trigger] self.actions@[x].binds@[i]).value as int == prod(
                            bind_m(self.actions@[x].binds@[i]),
                        ) by {
                            assert(self.actions@[x].binds@ == before[x].binds@);
                        }
                        assert forall|x: int|
                            0 <= x < self.actions@.len() implies (
                        #[trigger] self.actions@[x]).value as int == sum_binds(
                            action_m(self.actions@[x]).binds,
                        ) by {
                            assert(self.actions@[x].binds@ == before[x].binds@);
                            assert(action_m(self.actions@[x]).binds =~= action_m(
                                before[x],
                            ).binds);
                        }
                    }
                    assert(model_wf(self@)) by {
                        assert(self@.codes =~= mid.codes);
                        assert forall|x: int, i: int, j: int|
                            0 <= x < self@.actions.len() && 0 <= i < self@.actions[x].binds.len()
                                && 0 <= j < self@.actions[x].binds[i].len() implies {
                            &&& 0 <= (#[trigger] self@.actions[x].binds[i][j]).value
                                <= MAX_INPUT_VALUE
                            &&& self@.codes.contains(self@.actions[x].binds[i][j].code)
                        } by {
                            assert(self@.actions[x].binds == action_m(self.actions@[x]).binds);
                            assert(action_m(self.actions@[x]).binds == mid.actions[x].binds);
                            assert(mid.actions[x].binds[i][j].value == self@.actions[x].binds[i][j].value);
                            assert(mid.codes.contains(mid.actions[x].binds[i][j].code));
                        }
                        assert forall|pp: int| 0 <= pp < self@.codes.len() implies exists|
                            x: int,
                            i: int,
                            j: int,
                        |
                            0 <= x < self@.actions.len() && 0 <= i < self@.actions[x].binds.len()
                                && 0 <= j < self@.actions[x].binds[i].len()
                                && self@.actions[x].binds[i][j].code == #[trigger] self@.codes[pp] by {
                            let (x, i, j): (int, int, int) = choose|x: int, i: int, j: int|
                                0 <= x < mid.actions.len() && 0 <= i < mid.actions[x].binds.len()
                                    && 0 <= j < mid.actions[x].binds[i].len()
                                    && mid.actions[x].binds[i][j].code == mid.codes[pp];
                            assert(self@.actions[x].binds == mid.actions[x].binds);
                        }
                        assert forall|x: int, i: int|
                            0 <= x < self@.actions.len() && 0 <= i
                                < self@.actions[x].binds.len() implies (
                        #[trigger] self@.actions[x].binds[i]).len() <= MAX_BIND_ARITY by {
                            assert(self@.actions[x].binds == mid.actions[x].binds);
                        }
                        assert forall|x: int|
                            0 <= x < self@.actions.len() implies (
                        #[trigger] self@.actions[x]).binds.len() <= MAX_BINDS_PER_ACTION by {
                            assert(self@.actions[x].binds == mid.actions[x].binds);
                        }
                    }
                }
            }
        }
        self.recently_pressed = None;
        self.text_typed = None;
        proof {
            assert(self@.actions =~~= clear_transients_m(mid).actions);
            assert(self@ =~~= clear_transients_m(mid));
        }
    }

    /// A gamepad went away: zeroes every slot scoped to exactly that
    /// gamepad, through the normal update path, so nothing it pressed
    /// stays stuck — actions it was pressing take a release edge.  The
    /// wildcard scope is deliberately left alone: what another gamepad
    /// last fed through an any-gamepad binding survives.
    pub fn disconnect_gamepad(&mut self, id: u64)
        requires
            old(self).wf(),
        ensures
            final(self).wf(),
            final(self)@ == zero_gamepad_m(old(self)@, id),
    {
        self.zero_matching(CodeFilter::GamepadScoped(id));
        proof {
            let p1 = |c: InputCode| filter_matches(CodeFilter::GamepadScoped(id), c);
            let p2 = |c: InputCode|
                c matches InputCode::Gamepad { id: SpecifyGamepad::Id(i), .. } && i == id;
            assert(p1 =~= p2);
        }
    }

    /// A keyboard-and-mouse device went away, likewise.
    pub fn disconnect_device(&mut self, id: u64)
        requires
            old(self).wf(),
        ensures
            final(self).wf(),
            final(self)@ == zero_device_m(old(self)@, id),
    {
        self.zero_matching(CodeFilter::DeviceScoped(id));
        proof {
            let p1 = |c: InputCode| filter_matches(CodeFilter::DeviceScoped(id), c);
            let p2 = |c: InputCode|
                c matches InputCode::Device { id: SpecifyDevice::Id(i), .. } && i == id;
            assert(p1 =~= p2);
        }
    }

    /// Zeroes every registered code through the normal update path: no
    /// action stays pressing, and each that was takes a release edge.  For
    /// callers that stop listening for a while — a window losing focus —
    /// so no key held at that moment stays stuck.
    pub fn release_all(&mut self)
        requires
            old(self).wf(),
        ensures
            final(self).wf(),
            final(self)@ == release_all_m(old(self)@),
    {
        self.zero_matching(CodeFilter::All);
        proof {
            let p1 = |c: InputCode| filter_matches(CodeFilter::All, c);
            lemma_filter_all(old(self)@.codes, p1);
        }
    }
}


impl InputMap {
    /// Reads the current binds back in declarative form: every action
    /// index, in order, with the code lists of its bindings.  An action
    /// declared with no bindings appears with an empty list.  The result
    /// round-trips: building a fresh map from it reproduces the same
    /// table.
    #[verifier::loop_isolation(false)]
    #[verifier::rlimit(60)]
    pub fn get_binds(&self) -> (r: Binds)
        requires
            self.wf(),
        ensures
            binds_view(r) == get_binds_m(self@),
    {
        let mut r: Binds = Vec::new();
        let mut a: usize = 0;
        while a < self.actions.len()
            invariant
                a <= self.actions@.len(),
                r@.len() == a,
                forall|x: int| 0 <= x < a ==> (#[trigger] r@[x]).0 == x,
                forall|x: int|
                    0 <= x < a ==> (#[trigger] r@[x]).1@.len()
                        == self.actions@[x].binds@.len(),
                forall|x: int, i: int|
                    0 <= x < a && 0 <= i < r@[x].1@.len() ==> (#[trigger] r@[x].1@[i])@.len()
                        == self.actions@[x].binds@[i].slots@.len(),
                forall|x: int, i: int, j: int|
                    0 <= x < a && 0 <= i < r@[x].1@.len() && 0 <= j < r@[x].1@[i]@.len()
                        ==> (#[trigger] r@[x].1@[i]@[j])
                        == self.actions@[x].binds@[i].slots@[j].code,
            decreases self.actions@.len() - a,
        {
            let mut bl: Vec<Vec<InputCode>> = Vec::new();
            let mut i: usize = 0;
            while i < self.actions[a].binds.len()
                invariant
                    a < self.actions@.len(),
                    i <= self.actions@[a as int].binds@.len(),
                    bl@.len() == i,
                    forall|x: int|
                        0 <= x < i ==> (#[trigger] bl@[x])@.len()
                            == self.actions@[a as int].binds@[x].slots@.len(),
                    forall|x: int, j: int|
                        0 <= x < i && 0 <= j < bl@[x]@.len() ==> (#[trigger] bl@[x]@[j])
                            == self.actions@[a as int].binds@[x].slots@[j].code,
                decreases self.actions@[a as int].binds@.len() - i,
            {
                let mut codes: Vec<InputCode> = Vec::new();
                let mut j: usize = 0;
                while j < self.actions[a].binds[i].slots.len()
                    invariant
                        a < self.actions@.len(),
                        i < self.actions@[a as int].binds@.len(),
                        j <= self.actions@[a as int].binds@[i as int].slots@.len(),
                        codes@.len() == j,
                        forall|x: int|
                            0 <= x < j ==> (#[trigger] codes@[x])
                                == self.actions@[a as int].binds@[i as int].slots@[x].code,
                    decreases self.actions@[a as int].binds@[i as int].slots@.len() - j,
                {
                    codes.push(self.actions[a].binds[i].slots[j].code);
                    j += 1;
                }
                bl.push(codes);
                i += 1;
            }
            r.push((a, bl));
            a += 1;
        }
        proof {
            assert forall|x: int| 0 <= x < r@.len() implies binds_view(r)[x]
                =~~= get_binds_m(self@)[x] by {
                assert(binds_view(r)[x].0 == x);
                assert(bind_lists_view(r@[x].1).len() == self@.actions[x].binds.len());
                assert forall|i: int|
                    0 <= i < self@.actions[x].binds.len() implies bind_lists_view(r@[x].1)[i]
                    =~= get_binds_m(self@)[x].1[i] by {
                    assert(bind_lists_view(r@[x].1)[i] == r@[x].1@[i]@);
                }
            }
            assert(binds_view(r) =~~= get_binds_m(self@));
        }
        r
    }
}

} // verus!
