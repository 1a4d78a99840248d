//! Structural equality of circuit values, decided in verified code.
use vstd::prelude::*;
use crate::model::{
    Circuit, Component, LinkedComponent, SelectedProgram, Wire, component_views, linked_views,
    program_views, wire_views,
};

verus! {

fn eq_u64s(a: &[u64], b: &[u64]) -> (r: bool)
    ensures
        r == (a@ == b@),
{
    if a.len() != b.len() {
        return false;
    }
    let mut i: usize = 0;
    while i < a.len()
        invariant
            a@.len() == b@.len(),
            i <= a@.len(),
            forall|j: int| 0 <= j < i ==> a@[j] == b@[j],
        decreases a@.len() - i,
    {
        if a[i] != b[i] {
            return false;
        }
        i = i + 1;
    }
    assert(a@ =~= b@);
    true
}

fn eq_i64s(a: &[i64], b: &[i64]) -> (r: bool)
    ensures
        r == (a@ == b@),
{
    if a.len() != b.len() {
        return false;
    }
    let mut i: usize = 0;
    while i < a.len()
        invariant
            a@.len() == b@.len(),
            i <= a@.len(),
            forall|j: int| 0 <= j < i ==> a@[j] == b@[j],
        decreases a@.len() - i,
    {
        if a[i] != b[i] {
            return false;
        }
        i = i + 1;
    }
    assert(a@ =~= b@);
    true
}

fn eq_bytes(a: &[u8], b: &[u8]) -> (r: bool)
    ensures
        r == (a@ == b@),
{
    if a.len() != b.len() {
        return false;
    }
    let mut i: usize = 0;
    while i < a.len()
        invariant
            a@.len() == b@.len(),
            i <= a@.len(),
            forall|j: int| 0 <= j < i ==> a@[j] == b@[j],
        decreases a@.len() - i,
    {
        if a[i] != b[i] {
            return false;
        }
        i = i + 1;
    }
    assert(a@ =~= b@);
    true
}

fn eq_pairs(a: &[(i64, i64)], b: &[(i64, i64)]) -> (r: bool)
    ensures
        r == (a@ == b@),
{
    if a.len() != b.len() {
        return false;
    }
    let mut i: usize = 0;
    while i < a.len()
        invariant
            a@.len() == b@.len(),
            i <= a@.len(),
            forall|j: int| 0 <= j < i ==> a@[j] == b@[j],
        decreases a@.len() - i,
    {
        if a[i].0 != b[i].0 || a[i].1 != b[i].1 {
            return false;
        }
        i = i + 1;
    }
    assert(a@ =~= b@);
    true
}

fn eq_segments(a: &[(u8, u16)], b: &[(u8, u16)]) -> (r: bool)
    ensures
        r == (a@ == b@),
{
    if a.len() != b.len() {
        return false;
    }
    let mut i: usize = 0;
    while i < a.len()
        invariant
            a@.len() == b@.len(),
            i <= a@.len(),
            forall|j: int| 0 <= j < i ==> a@[j] == b@[j],
        decreases a@.len() - i,
    {
        if a[i].0 != b[i].0 || a[i].1 != b[i].1 {
            return false;
        }
        i = i + 1;
    }
    assert(a@ =~= b@);
    true
}

fn eq_linked(a: &Vec<LinkedComponent>, b: &Vec<LinkedComponent>) -> (r: bool)
    ensures
        r == (linked_views(a@) == linked_views(b@)),
{
    if a.len() != b.len() {
        assert(linked_views(a@).len() != linked_views(b@).len());
        return false;
    }
    let mut i: usize = 0;
    while i < a.len()
        invariant
            a@.len() == b@.len(),
            i <= a@.len(),
            forall|j: int| 0 <= j < i ==> linked_views(a@)[j] == linked_views(b@)[j],
        decreases a@.len() - i,
    {
        let x = &a[i];
        let y = &b[i];
        if x.0 != y.0 || x.1 != y.1 || x.2 != y.2 || x.3 != y.3 || x.4 != y.4 {
            assert(linked_views(a@)[i as int] != linked_views(b@)[i as int]);
            return false;
        }
        i = i + 1;
    }
    assert(linked_views(a@) =~= linked_views(b@));
    true
}

fn eq_programs(a: &Vec<SelectedProgram>, b: &Vec<SelectedProgram>) -> (r: bool)
    ensures
        r == (program_views(a@) == program_views(b@)),
{
    if a.len() != b.len() {
        assert(program_views(a@).len() != program_views(b@).len());
        return false;
    }
    let mut i: usize = 0;
    while i < a.len()
        invariant
            a@.len() == b@.len(),
            i <= a@.len(),
            forall|j: int| 0 <= j < i ==> program_views(a@)[j] == program_views(b@)[j],
        decreases a@.len() - i,
    {
        let x = &a[i];
        let y = &b[i];
        if x.0 != y.0 || x.1 != y.1 {
            assert(program_views(a@)[i as int] != program_views(b@)[i as int]);
            return false;
        }
        i = i + 1;
    }
    assert(program_views(a@) =~= program_views(b@));
    true
}

/// `a` and `b` hold the same component.
pub fn component_eq(a: &Component, b: &Component) -> (r: bool)
    ensures
        r == (a@ == b@),
{
    a.kind == b.kind && a.position.0 == b.position.0 && a.position.1 == b.position.1
        && a.rotation == b.rotation && a.permanent_id == b.permanent_id && a.user_label
        == b.user_label && a.custom_string == b.custom_string && eq_u64s(
        a.settings.as_slice(),
        b.settings.as_slice(),
    ) && a.buffer_size == b.buffer_size && a.ui_order == b.ui_order && a.word_size
        == b.word_size && a.immutable == b.immutable && a.cost_gate == b.cost_gate
        && a.cost_delay == b.cost_delay && a.little_endian == b.little_endian && a.init_data
        == b.init_data && eq_linked(&a.linked_components, &b.linked_components) && eq_programs(
        &a.selected_programs,
        &b.selected_programs,
    ) && a.custom_id == b.custom_id && eq_pairs(
        a.custom_word_sizes.as_slice(),
        b.custom_word_sizes.as_slice(),
    )
}

/// `a` and `b` hold the same wire.
pub fn wire_eq(a: &Wire, b: &Wire) -> (r: bool)
    ensures
        r == (a@ == b@),
{
    let same_end = match (a.teleport_end, b.teleport_end) {
        (None, None) => true,
        (Some(p), Some(q)) => p.0 == q.0 && p.1 == q.1,
        _ => false,
    };
    a.color == b.color && a.comment == b.comment && a.start.0 == b.start.0 && a.start.1
        == b.start.1 && eq_segments(a.segments.as_slice(), b.segments.as_slice()) && same_end
}

fn eq_components(a: &Vec<Component>, b: &Vec<Component>) -> (r: bool)
    ensures
        r == (component_views(a@) == component_views(b@)),
{
    if a.len() != b.len() {
        assert(component_views(a@).len() != component_views(b@).len());
        return false;
    }
    let mut i: usize = 0;
    while i < a.len()
        invariant
            a@.len() == b@.len(),
            i <= a@.len(),
            forall|j: int| 0 <= j < i ==> component_views(a@)[j] == component_views(b@)[j],
        decreases a@.len() - i,
    {
        if !component_eq(&a[i], &b[i]) {
            assert(component_views(a@)[i as int] != component_views(b@)[i as int]);
            return false;
        }
        i = i + 1;
    }
    assert(component_views(a@) =~= component_views(b@));
    true
}

fn eq_wires(a: &Vec<Wire>, b: &Vec<Wire>) -> (r: bool)
    ensures
        r == (wire_views(a@) == wire_views(b@)),
{
    if a.len() != b.len() {
        assert(wire_views(a@).len() != wire_views(b@).len());
        return false;
    }
    let mut i: usize = 0;
    while i < a.len()
        invariant
            a@.len() == b@.len(),
            i <= a@.len(),
            forall|j: int| 0 <= j < i ==> wire_views(a@)[j] == wire_views(b@)[j],
        decreases a@.len() - i,
    {
        if !wire_eq(&a[i], &b[i]) {
            assert(wire_views(a@)[i as int] != wire_views(b@)[i as int]);
            return false;
        }
        i = i + 1;
    }
    assert(wire_views(a@) =~= wire_views(b@));
    true
}

/// `a` and `b` hold the same circuit.
pub fn circuit_eq(a: &Circuit, b: &Circuit) -> (r: bool)
    ensures
        r == (a@ == b@),
{
    a.custom_id == b.custom_id && a.hub_id == b.hub_id && a.gate == b.gate && a.delay == b.delay
        && a.menu_visible == b.menu_visible && a.clock_speed == b.clock_speed && eq_i64s(
        a.dependencies.as_slice(),
        b.dependencies.as_slice(),
    ) && a.description == b.description && a.sync_state == b.sync_state && a.score == b.score
        && eq_bytes(a.player_data.as_slice(), b.player_data.as_slice()) && a.hub_description
        == b.hub_description && eq_bytes(a.design.as_slice(), b.design.as_slice())
        && eq_components(&a.components, &b.components) && eq_wires(&a.wires, &b.wires)
}

} // verus!
