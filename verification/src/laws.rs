//! The engine's laws, stated and proved over the abstract model.
//!
//! Each public lemma here is one of the properties the engine promises
//! across operations: AND-semantics within a binding, OR-semantics across
//! bindings, edge flags firing only on transitions, and specific-scope
//! events sparing wildcard-scoped bookkeeping.

use vstd::prelude::*;

verus! {

use crate::input_code::InputCode;
use crate::input_code::SpecifyGamepad;
use crate::model::{
    MapM,
    SlotM,
    SlotOp,
    apply_dual_m,
    apply_op_m,
    op_apply,
    prod,
    step_flags,
    sum_binds,
    tick_reset_m,
    touches,
    upd_slots,
    zero_codes_m,
    zero_gamepad_m,
};

/// AND-semantics: a binding contributes zero exactly when one of its slots
/// holds zero, no matter what the other slots hold.
pub proof fn lemma_chord_gate(s: Seq<SlotM>)
    ensures
        prod(s) == 0 <==> exists|j: int| 0 <= j < s.len() && s[j].value == 0,
    decreases s.len(),
{
    if s.len() > 0 {
        let dl = s.drop_last();
        lemma_chord_gate(dl);
        let p = prod(dl);
        let v = s.last().value;
        assert(p * v == 0 <==> p == 0 || v == 0) by (nonlinear_arith);
        if p == 0 {
            let j = choose|j: int| 0 <= j < dl.len() && dl[j].value == 0;
            assert(s[j].value == 0);
        }
        if v == 0 {
            assert(s[s.len() - 1].value == 0);
        }
        if exists|j: int| 0 <= j < s.len() && s[j].value == 0 {
            let j = choose|j: int| 0 <= j < s.len() && s[j].value == 0;
            if j < s.len() - 1 {
                assert(dl[j].value == 0);
            }
        }
    }
}

/// Driving any chord member of a binding to zero drives that binding's
/// contribution to exactly zero.
pub proof fn lemma_zeroed_member_kills_bind(m: MapM, a: int, i: int, j: int, c: InputCode)
    requires
        0 <= a < m.actions.len(),
        0 <= i < m.actions[a].binds.len(),
        0 <= j < m.actions[a].binds[i].len(),
        m.actions[a].binds[i][j].code == c,
    ensures
        prod(apply_op_m(m, c, SlotOp::Write(0)).actions[a].binds[i]) == 0,
{
    assert(touches(m.actions[a], c));
    let nb = apply_op_m(m, c, SlotOp::Write(0)).actions[a].binds[i];
    assert(nb == upd_slots(m.actions[a], c, SlotOp::Write(0)).binds[i]);
    assert(nb[j].value == op_apply(SlotOp::Write(0), m.actions[a].binds[i][j].value));
    assert(nb[j].value == 0);
    lemma_chord_gate(nb);
}

/// OR-semantics: an action bound to two bindings is worth exactly the sum
/// of their contributions, which may exceed a single full press.
pub proof fn lemma_or_sum(binds: Seq<Seq<SlotM>>)
    requires
        binds.len() == 2,
    ensures
        sum_binds(binds) == prod(binds[0]) + prod(binds[1]),
{
    assert(binds.drop_last().drop_last() =~= Seq::<Seq<SlotM>>::empty());
    assert(binds.drop_last().last() == binds[0]);
    assert(binds.last() == binds[1]);
    assert(sum_binds(Seq::<Seq<SlotM>>::empty()) == 0);
    assert(sum_binds(binds.drop_last()) == sum_binds(binds.drop_last().drop_last()) + prod(
        binds.drop_last().last(),
    ));
}

/// Edge flags fire only on transitions: an event reaching an action that
/// was already pressing and stays pressing raises no new `pressed` edge,
/// and one that leaves a non-pressing action non-pressing raises no
/// `released` edge.
pub proof fn lemma_edge_only_on_transition(m: MapM, c: InputCode, op: SlotOp, a: int)
    requires
        0 <= a < m.actions.len(),
    ensures
        m.actions[a].was_pressing && !m.actions[a].pressed && sum_binds(
            upd_slots(m.actions[a], c, op).binds,
        ) >= m.press_sensitivity ==> !apply_op_m(m, c, op).actions[a].pressed,
        !m.actions[a].was_pressing && !m.actions[a].released && sum_binds(
            upd_slots(m.actions[a], c, op).binds,
        ) < m.press_sensitivity ==> !apply_op_m(m, c, op).actions[a].released,
{
    if touches(m.actions[a], c) {
        assert(apply_op_m(m, c, op).actions[a] == step_flags(
            upd_slots(m.actions[a], c, op),
            m.press_sensitivity,
        ));
    }
}

/// An event under a specific (non-wildcard) scope never changes a slot
/// declared under the wildcard scope: zeroing a disconnected device's own
/// codes spares everything bound through the wildcard.
pub proof fn lemma_specific_event_spares_wildcard(m: MapM, c: InputCode, op: SlotOp, a: int, i: int)
    requires
        0 <= a < m.actions.len(),
        0 <= i < m.actions[a].binds.len(),
        !c.spec_is_any(),
        forall|j: int|
            0 <= j < m.actions[a].binds[i].len() ==> (
            #[trigger] m.actions[a].binds[i][j]).code.spec_is_any(),
    ensures
        apply_op_m(m, c, op).actions[a].binds[i] == m.actions[a].binds[i],
        prod(apply_op_m(m, c, op).actions[a].binds[i]) == prod(m.actions[a].binds[i]),
{
    if touches(m.actions[a], c) {
        assert(apply_op_m(m, c, op).actions[a].binds[i] == upd_slots(
            m.actions[a],
            c,
            op,
        ).binds[i]);
    }
    assert(apply_op_m(m, c, op).actions[a].binds[i] =~= m.actions[a].binds[i]);
}


/// A binding of one slot contributes exactly that slot's raw value: the
/// magnitude an analog source feeds through a single-code binding reaches
/// the action's sum unchanged.
pub proof fn lemma_prod_single(s: Seq<SlotM>)
    requires
        s.len() == 1,
    ensures
        prod(s) == s[0].value,
{
    assert(s.drop_last() =~= Seq::<SlotM>::empty());
    assert(s.last() == s[0]);
    assert(prod(Seq::<SlotM>::empty()) == 1);
}

/// Dual routing reaches wildcard bindings: an event under a concrete
/// (non-wildcard) scope steps every slot declared under the wildcard form
/// of the same input, and leaves slots of every other input alone.  With
/// [`lemma_prod_single`] and [`lemma_or_sum`], an action with single-slot
/// wildcard bindings over two distinct inputs, each fed from a concrete
/// scope, is worth exactly the sum of the two magnitudes.
pub proof fn lemma_dual_reaches_wildcard(m: MapM, c: InputCode, op: SlotOp, a: int, i: int, j: int)
    requires
        0 <= a < m.actions.len(),
        0 <= i < m.actions[a].binds.len(),
        0 <= j < m.actions[a].binds[i].len(),
        !c.spec_is_any(),
    ensures
        m.actions[a].binds[i][j].code == c.spec_set_any()
            ==> apply_dual_m(m, c, op).actions[a].binds[i][j].value == op_apply(
            op,
            m.actions[a].binds[i][j].value,
        ),
        m.actions[a].binds[i][j].code != c.spec_set_any() && m.actions[a].binds[i][j].code != c
            ==> apply_dual_m(m, c, op).actions[a].binds[i][j] == m.actions[a].binds[i][j],
    decreases 0int,
{
    let m1 = apply_op_m(m, c, op);
    assert(c.spec_set_any() != c);
    assert(m1.actions[a].binds[i].len() == m.actions[a].binds[i].len());
    if m.actions[a].binds[i][j].code == c.spec_set_any() {
        assert(m1.actions[a].binds[i][j] == m.actions[a].binds[i][j]) by {
            if touches(m.actions[a], c) {
                assert(m1.actions[a].binds[i][j] == upd_slots(m.actions[a], c, op).binds[i][j]);
            }
        }
        assert(touches(m1.actions[a], c.spec_set_any()));
        assert(apply_dual_m(m, c, op).actions[a].binds[i][j] == upd_slots(
            m1.actions[a],
            c.spec_set_any(),
            op,
        ).binds[i][j]);
    } else {
        if m.actions[a].binds[i][j].code != c {
            assert(m1.actions[a].binds[i][j] == m.actions[a].binds[i][j]) by {
                if touches(m.actions[a], c) {
                    assert(m1.actions[a].binds[i][j] == upd_slots(
                        m.actions[a],
                        c,
                        op,
                    ).binds[i][j]);
                }
            }
            assert(apply_dual_m(m, c, op).actions[a].binds[i][j] == m1.actions[a].binds[i][j])
                by {
                if touches(m1.actions[a], c.spec_set_any()) {
                    assert(apply_dual_m(m, c, op).actions[a].binds[i][j] == upd_slots(
                        m1.actions[a],
                        c.spec_set_any(),
                        op,
                    ).binds[i][j]);
                }
            }
        }
    }
}


/// A whole sweep of concrete-scoped zeroing events leaves a binding whose
/// slots are all wildcard-scoped exactly as it was.
pub proof fn lemma_zero_sweep_spares_wildcard(m: MapM, codes: Seq<InputCode>, a: int, i: int)
    requires
        0 <= a < m.actions.len(),
        0 <= i < m.actions[a].binds.len(),
        forall|k: int| 0 <= k < codes.len() ==> !(#[trigger] codes[k]).spec_is_any(),
        forall|j: int|
            0 <= j < m.actions[a].binds[i].len() ==> (
            #[trigger] m.actions[a].binds[i][j]).code.spec_is_any(),
    ensures
        zero_codes_m(m, codes).actions.len() == m.actions.len(),
        zero_codes_m(m, codes).actions[a].binds.len() == m.actions[a].binds.len(),
        zero_codes_m(m, codes).actions[a].binds[i] == m.actions[a].binds[i],
    decreases codes.len(),
{
    if codes.len() > 0 {
        let m1 = apply_op_m(m, codes[0], SlotOp::Write(0));
        lemma_specific_event_spares_wildcard(m, codes[0], SlotOp::Write(0), a, i);
        assert(m1.actions[a].binds.len() == m.actions[a].binds.len()) by {
            if touches(m.actions[a], codes[0]) {
                assert(m1.actions[a] == step_flags(
                    upd_slots(m.actions[a], codes[0], SlotOp::Write(0)),
                    m.press_sensitivity,
                ));
            }
        }
        assert(forall|k: int|
            0 <= k < codes.drop_first().len() ==> !(
            #[trigger] codes.drop_first()[k]).spec_is_any());
        lemma_zero_sweep_spares_wildcard(m1, codes.drop_first(), a, i);
    }
}

/// The wildcard half of device duality: a disconnect zeroes only what is
/// scoped to the going gamepad, so a binding declared under the wildcard
/// scope — and with it, whatever another gamepad last fed through it —
/// survives unchanged.
pub proof fn lemma_disconnect_spares_wildcard(m: MapM, id: u64, a: int, i: int)
    requires
        0 <= a < m.actions.len(),
        0 <= i < m.actions[a].binds.len(),
        forall|j: int|
            0 <= j < m.actions[a].binds[i].len() ==> (
            #[trigger] m.actions[a].binds[i][j]).code.spec_is_any(),
    ensures
        zero_gamepad_m(m, id).actions[a].binds[i] == m.actions[a].binds[i],
        prod(zero_gamepad_m(m, id).actions[a].binds[i]) == prod(m.actions[a].binds[i]),
{
    let pred = |c: InputCode|
        c matches InputCode::Gamepad { id: SpecifyGamepad::Id(i2), .. } && i2 == id;
    let codes = m.codes.filter(pred);
    assert forall|k: int| 0 <= k < codes.len() implies !(#[trigger] codes[k]).spec_is_any() by {
        m.codes.lemma_filter_pred(pred, k);
    }
    lemma_zero_sweep_spares_wildcard(m, codes, a, i);
}


/// A zeroing sweep keeps the number of actions.
proof fn lemma_zero_codes_len(m: MapM, codes: Seq<InputCode>)
    ensures
        zero_codes_m(m, codes).actions.len() == m.actions.len(),
    decreases codes.len(),
{
    if codes.len() > 0 {
        lemma_zero_codes_len(apply_op_m(m, codes[0], SlotOp::Write(0)), codes.drop_first());
    }
}

/// The tick boundary ends every edge: after it, no action reads as just
/// pressed or just released, whatever the tick held — an edge is
/// observable only in the tick of its transition.
pub proof fn lemma_tick_reset_clears_edges(m: MapM, a: int)
    requires
        0 <= a < m.actions.len(),
    ensures
        !tick_reset_m(m).actions[a].pressed,
        !tick_reset_m(m).actions[a].released,
{
    lemma_zero_codes_len(
        m,
        m.codes.filter(|c: InputCode| crate::input_code::spec_is_relative(c)),
    );
}

} // verus!
