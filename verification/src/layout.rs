//! Layered keymap engine with hold-tap disambiguation. Events mutate the
//! state; a periodic tick advances hold-tap timers and recomputes the set
//! of active keycodes from scratch, so the report self-corrects rather
//! than being patched incrementally.

use vstd::prelude::*;

use crate::Event;
use crate::KEY_COUNT;
use crate::MERGED_COLS;

verus! {

/// One keymap entry. `Transparent` falls through to the layer below;
/// a hold-tap key acts as its first branch when held past the timeout
/// and as its second when released before it.
pub enum Action {
    Transparent,
    NoOp,
    Keycode(u8),
    LayerShift(usize),
    ModChord(Vec<u8>),
    HoldTap(Box<Action>, Box<Action>, u16),
}

/// Actions allowed as hold-tap branches: anything but nesting another
/// hold-tap or a fall-through.
pub open spec fn action_simple(a: Action) -> bool {
    a is NoOp || a is Keycode || a is LayerShift || a is ModChord
}

/// Keymap entry validity: layer shifts target an existing non-base
/// layer; hold-tap branches are simple and its timeout is positive.
pub open spec fn action_wf(a: Action, n_layers: int) -> bool
    decreases a,
{
    match a {
        Action::LayerShift(l) => 1 <= l < n_layers,
        Action::HoldTap(h, t, to) => {
            &&& action_simple(*h)
            &&& action_simple(*t)
            &&& action_wf(*h, n_layers)
            &&& action_wf(*t, n_layers)
            &&& to >= 1
        },
        _ => true,
    }
}

/// The keycodes an action asserts while it is active.
pub open spec fn action_keys(a: Action) -> Seq<u8> {
    match a {
        Action::Keycode(k) => seq![k],
        Action::ModChord(ks) => ks@,
        _ => Seq::empty(),
    }
}

/// The layer an action holds while it is active, if any.
pub open spec fn action_layer(a: Action) -> Option<usize> {
    match a {
        Action::LayerShift(l) => Some(l),
        _ => None,
    }
}

/// The state of one merged coordinate, as a mathematical value.
#[verifier::ext_equal]
pub enum KeySpec {
    /// Not pressed.
    Released,
    /// Pressed, asserting these keycodes.
    HeldKeys { keys: Seq<u8> },
    /// Pressed, holding this layer on the stack.
    HeldLayer { layer: usize },
    /// A pressed hold-tap key: its branches' effects, when it was
    /// pressed, and whether the timeout has already resolved it as hold.
    Pending {
        hold_keys: Seq<u8>,
        hold_layer: Option<usize>,
        tap_keys: Seq<u8>,
        timeout: u16,
        start: u64,
        resolved: bool,
    },
}

/// The whole engine state as a mathematical value.
#[verifier::ext_equal]
pub struct LayoutModel {
    pub keymap: Seq<Seq<Action>>,
    pub stack: Seq<usize>,
    pub keys: Seq<KeySpec>,
    pub latch: Seq<u8>,
    pub tick: u64,
}

/// A valid keymap: at least the base layer, every layer covering every
/// merged coordinate, every entry valid.
pub open spec fn keymap_wf(km: Seq<Seq<Action>>) -> bool {
    &&& km.len() >= 1
    &&& forall|l: int| 0 <= l < km.len() ==> (#[trigger] km[l]).len() == KEY_COUNT
    &&& forall|l: int, i: int|
        0 <= l < km.len() && 0 <= i < KEY_COUNT ==> action_wf(#[trigger] km[l][i], km.len() as int)
}

/// Validity of one coordinate's state against the keymap and clock.
pub open spec fn key_spec_wf(ks: KeySpec, n_layers: int, now: u64) -> bool {
    match ks {
        KeySpec::HeldLayer { layer } => layer < n_layers,
        KeySpec::Pending { hold_layer, timeout, start, .. } => {
            &&& (hold_layer matches Some(l) ==> l < n_layers)
            &&& timeout >= 1
            &&& start <= now
        },
        _ => true,
    }
}

/// Engine state validity: valid keymap, the base layer pinned at the
/// bottom of the stack, every stack entry and key state valid.
pub open spec fn model_wf(m: LayoutModel) -> bool {
    &&& keymap_wf(m.keymap)
    &&& m.stack.len() >= 1
    &&& m.stack[0] == 0
    &&& forall|s: int| 0 <= s < m.stack.len() ==> #[trigger] m.stack[s] < m.keymap.len()
    &&& m.keys.len() == KEY_COUNT
    &&& forall|i: int|
        0 <= i < KEY_COUNT ==> key_spec_wf(#[trigger] m.keys[i], m.keymap.len() as int, m.tick)
}

/// The resolved action at a coordinate: walk the stack from the top, the
/// first non-transparent entry wins; all transparent means no action.
pub open spec fn spec_lookup_at(km: Seq<Seq<Action>>, stack: Seq<usize>, idx: int) -> Action
    decreases stack.len(),
{
    if stack.len() == 0 {
        Action::NoOp
    } else {
        let a = km[stack.last() as int][idx];
        if a is Transparent {
            spec_lookup_at(km, stack.drop_last(), idx)
        } else {
            a
        }
    }
}

/// The stack with the topmost occurrence of a held layer removed; the
/// base entry never leaves, and a stack without the layer is unchanged.
pub open spec fn remove_layer(stack: Seq<usize>, l: usize) -> Seq<usize>
    decreases stack.len(),
{
    if stack.len() <= 1 {
        stack
    } else if stack.last() == l {
        stack.drop_last()
    } else {
        remove_layer(stack.drop_last(), l).push(stack.last())
    }
}

/// A press at a coordinate. A coordinate already pressed ignores the
/// event; otherwise the resolved action takes effect immediately, except
/// that a hold-tap only records a pending decision.
pub open spec fn spec_press(m: LayoutModel, idx: int) -> LayoutModel {
    if !(m.keys[idx] is Released) {
        m
    } else {
        match spec_lookup_at(m.keymap, m.stack, idx) {
            Action::Keycode(k) => LayoutModel {
                keys: m.keys.update(idx, KeySpec::HeldKeys { keys: seq![k] }),
                ..m
            },
            Action::ModChord(ks) => LayoutModel {
                keys: m.keys.update(idx, KeySpec::HeldKeys { keys: ks@ }),
                ..m
            },
            Action::LayerShift(l) => LayoutModel {
                keys: m.keys.update(idx, KeySpec::HeldLayer { layer: l }),
                stack: m.stack.push(l),
                ..m
            },
            Action::HoldTap(h, t, to) => LayoutModel {
                keys: m.keys.update(
                    idx,
                    KeySpec::Pending {
                        hold_keys: action_keys(*h),
                        hold_layer: action_layer(*h),
                        tap_keys: action_keys(*t),
                        timeout: to,
                        start: m.tick,
                        resolved: false,
                    },
                ),
                ..m
            },
            _ => m,
        }
    }
}

/// A release at a coordinate: undo what the press put up. An unresolved
/// hold-tap resolves as tap, latching the tap keycodes for the remainder
/// of the current tick; a resolved one takes its hold effect down.
pub open spec fn spec_release(m: LayoutModel, idx: int) -> LayoutModel {
    match m.keys[idx] {
        KeySpec::Released => m,
        KeySpec::HeldKeys { .. } => LayoutModel {
            keys: m.keys.update(idx, KeySpec::Released),
            ..m
        },
        KeySpec::HeldLayer { layer } => LayoutModel {
            keys: m.keys.update(idx, KeySpec::Released),
            stack: remove_layer(m.stack, layer),
            ..m
        },
        KeySpec::Pending { hold_layer, tap_keys, resolved, .. } => {
            if !resolved {
                LayoutModel {
                    keys: m.keys.update(idx, KeySpec::Released),
                    latch: m.latch + tap_keys,
                    ..m
                }
            } else {
                LayoutModel {
                    keys: m.keys.update(idx, KeySpec::Released),
                    stack: match hold_layer {
                        Some(l) => remove_layer(m.stack, l),
                        None => m.stack,
                    },
                    ..m
                }
            }
        },
    }
}

/// The clock after one tick; it saturates rather than wrapping.
pub open spec fn next_tick(t: u64) -> u64 {
    if t < u64::MAX {
        (t + 1) as u64
    } else {
        t
    }
}

/// One coordinate's pending hold-tap, resolved as hold once its timeout
/// has elapsed on the (already advanced) clock.
pub open spec fn spec_resolve_upto(m: LayoutModel, n: int) -> LayoutModel
    decreases n,
{
    if n <= 0 {
        m
    } else {
        let prev = spec_resolve_upto(m, n - 1);
        match prev.keys[n - 1] {
            KeySpec::Pending { hold_keys, hold_layer, tap_keys, timeout, start, resolved } => {
                if !resolved && m.tick - start >= timeout {
                    LayoutModel {
                        keys: prev.keys.update(
                            n - 1,
                            KeySpec::Pending {
                                hold_keys,
                                hold_layer,
                                tap_keys,
                                timeout,
                                start,
                                resolved: true,
                            },
                        ),
                        stack: match hold_layer {
                            Some(l) => prev.stack.push(l),
                            None => prev.stack,
                        },
                        ..prev
                    }
                } else {
                    prev
                }
            },
            _ => prev,
        }
    }
}

/// The engine state after one tick: clock advanced, every due hold-tap
/// resolved as hold in row-major order, the tap latch cleared.
pub open spec fn spec_tick_state(m: LayoutModel) -> LayoutModel {
    let bumped = LayoutModel { tick: next_tick(m.tick), ..m };
    let resolved = spec_resolve_upto(bumped, KEY_COUNT as int);
    LayoutModel { latch: Seq::empty(), ..resolved }
}

/// The keycodes one coordinate's state asserts right now.
pub open spec fn state_keys(ks: KeySpec) -> Seq<u8> {
    match ks {
        KeySpec::HeldKeys { keys } => keys,
        KeySpec::Pending { hold_keys, resolved, .. } => {
            if resolved {
                hold_keys
            } else {
                Seq::empty()
            }
        },
        _ => Seq::empty(),
    }
}

/// The keycodes asserted by coordinates `[0, n)`.
pub open spec fn active_upto(m: LayoutModel, n: int) -> Set<u8>
    decreases n,
{
    if n <= 0 {
        Set::empty()
    } else {
        active_upto(m, n - 1).union(state_keys(m.keys[n - 1]).to_set())
    }
}

/// All keycodes the held keys assert.
pub open spec fn spec_active(m: LayoutModel) -> Set<u8> {
    active_upto(m, KEY_COUNT as int)
}

/// The report one tick hands to the host: everything the held keys
/// assert after due hold-taps resolved, together with any tap latched
/// during this tick's events. Sources asserting the same keycode appear
/// once: the report is a set.
pub open spec fn spec_tick_report(m: LayoutModel) -> Set<u8> {
    let bumped = LayoutModel { tick: next_tick(m.tick), ..m };
    let resolved = spec_resolve_upto(bumped, KEY_COUNT as int);
    spec_active(resolved).union(m.latch.to_set())
}

/// A keycode is asserted among `[0, n)` exactly when some coordinate
/// below `n` asserts it.
pub proof fn lemma_active_upto_iff(m: LayoutModel, n: int, k: u8)
    ensures
        active_upto(m, n).contains(k) <==> exists|i: int|
            0 <= i < n && (#[trigger] state_keys(m.keys[i])).contains(k),
    decreases n,
{
    if n > 0 {
        lemma_active_upto_iff(m, n - 1, k);
        if state_keys(m.keys[n - 1]).to_set().contains(k) {
            assert(state_keys(m.keys[n - 1]).contains(k));
        }
        if active_upto(m, n).contains(k) {
        } else {
            assert(!state_keys(m.keys[n - 1]).to_set().contains(k));
            if exists|i: int| 0 <= i < n && (#[trigger] state_keys(m.keys[i])).contains(k) {
                let i = choose|i: int|
                    0 <= i < n && (#[trigger] state_keys(m.keys[i])).contains(k);
                if i == n - 1 {
                    assert(state_keys(m.keys[n - 1]).to_set().contains(k));
                }
            }
        }
    }
}

/// The flat index of an event's coordinate in the merged space.
pub open spec fn event_index(e: Event) -> int {
    e.row() * MERGED_COLS + e.col()
}

/// The state of one merged coordinate.
pub enum KeyState {
    Released,
    HeldKeys { keys: Vec<u8> },
    HeldLayer { layer: usize },
    Pending {
        hold_keys: Vec<u8>,
        hold_layer: Option<usize>,
        tap_keys: Vec<u8>,
        timeout: u16,
        start: u64,
        resolved: bool,
    },
}

/// The mathematical value of one coordinate's state.
pub open spec fn key_state_view(ks: KeyState) -> KeySpec {
    match ks {
        KeyState::Released => KeySpec::Released,
        KeyState::HeldKeys { keys } => KeySpec::HeldKeys { keys: keys@ },
        KeyState::HeldLayer { layer } => KeySpec::HeldLayer { layer },
        KeyState::Pending { hold_keys, hold_layer, tap_keys, timeout, start, resolved } => {
            KeySpec::Pending {
                hold_keys: hold_keys@,
                hold_layer,
                tap_keys: tap_keys@,
                timeout,
                start,
                resolved,
            }
        },
    }
}

/// A fresh copy of a keycode list.
fn copy_keys(v: &Vec<u8>) -> (r: Vec<u8>)
    ensures
        r@ == v@,
{
    let mut r: Vec<u8> = Vec::new();
    let mut i: usize = 0;
    while i < v.len()
        invariant
            i <= v@.len(),
            r@ == v@.take(i as int),
        decreases v@.len() - i,
    {
        let b = v[i];
        r.push(b);
        proof {
            assert(r@ =~= v@.take(i + 1 as int));
        }
        i = i + 1;
    }
    proof {
        assert(v@.take(v@.len() as int) =~= v@);
    }
    r
}

/// The keycodes an action asserts, as a fresh list.
fn keys_of_action(a: &Action) -> (v: Vec<u8>)
    ensures
        v@ == action_keys(*a),
{
    match a {
        Action::Keycode(k) => {
            let mut v: Vec<u8> = Vec::new();
            v.push(*k);
            proof {
                assert(v@ =~= action_keys(*a));
            }
            v
        },
        Action::ModChord(ks) => copy_keys(ks),
        _ => {
            let v: Vec<u8> = Vec::new();
            proof {
                assert(v@ =~= action_keys(*a));
            }
            v
        },
    }
}

/// Appends a keycode list to an accumulator.
fn extend_keys(acc: &mut Vec<u8>, src: &Vec<u8>)
    ensures
        final(acc)@ == old(acc)@ + src@,
{
    let mut i: usize = 0;
    while i < src.len()
        invariant
            i <= src@.len(),
            acc@ == old(acc)@ + src@.take(i as int),
        decreases src@.len() - i,
    {
        let b = src[i];
        acc.push(b);
        proof {
            assert(old(acc)@ + src@.take(i + 1 as int) =~= (old(acc)@ + src@.take(i as int)).push(
                b,
            ));
        }
        i = i + 1;
    }
    proof {
        assert(src@.take(src@.len() as int) =~= src@);
    }
}

/// Resolving due hold-taps preserves the engine's validity invariant.
pub proof fn lemma_resolve_wf(m: LayoutModel, n: int)
    requires
        model_wf(m),
        n <= KEY_COUNT,
    ensures
        model_wf(spec_resolve_upto(m, n)),
        spec_resolve_upto(m, n).keymap == m.keymap,
        spec_resolve_upto(m, n).latch == m.latch,
        spec_resolve_upto(m, n).tick == m.tick,
        spec_resolve_upto(m, n).keys.len() == m.keys.len(),
    decreases n,
{
    if n > 0 {
        lemma_resolve_wf(m, n - 1);
        let prev = spec_resolve_upto(m, n - 1);
        let cur = spec_resolve_upto(m, n);
        match prev.keys[n - 1] {
            KeySpec::Pending { hold_layer, start, timeout, resolved, .. } => {
                if !resolved && m.tick - start >= timeout {
                    assert(key_spec_wf(prev.keys[n - 1], prev.keymap.len() as int, prev.tick));
                    assert(forall|i: int|
                        0 <= i < KEY_COUNT ==> key_spec_wf(
                            #[trigger] cur.keys[i],
                            cur.keymap.len() as int,
                            cur.tick,
                        ));
                }
            },
            _ => {},
        }
    }
}

/// The layer an action holds, if any.
fn layer_of_action(a: &Action) -> (o: Option<usize>)
    ensures
        o == action_layer(*a),
{
    match a {
        Action::LayerShift(l) => Some(*l),
        _ => None,
    }
}

/// Whether hold-tap branches stay within the simple actions.
fn action_is_simple(a: &Action) -> (ok: bool)
    ensures
        ok == action_simple(*a),
{
    match a {
        Action::NoOp => true,
        Action::Keycode(_) => true,
        Action::LayerShift(_) => true,
        Action::ModChord(_) => true,
        _ => false,
    }
}

/// Whether one keymap entry is valid for a keymap of `n_layers` layers.
fn action_ok(a: &Action, n_layers: usize) -> (ok: bool)
    ensures
        ok == action_wf(*a, n_layers as int),
    decreases *a,
{
    match a {
        Action::LayerShift(l) => 1 <= *l && *l < n_layers,
        Action::HoldTap(h, t, to) => {
            action_is_simple(&**h) && action_is_simple(&**t) && action_ok(&**h, n_layers)
                && action_ok(&**t, n_layers) && *to >= 1
        },
        _ => true,
    }
}

/// Whether a keymap is valid: callers that build a keymap at run time
/// can test it before handing it to the engine.
pub fn check_keymap(km: &Vec<Vec<Action>>) -> (ok: bool)
    ensures
        ok == keymap_wf(km@.map_values(|layer: Vec<Action>| layer@)),
{
    let ghost kmv = km@.map_values(|layer: Vec<Action>| layer@);
    if km.len() == 0 {
        return false;
    }
    let mut l: usize = 0;
    while l < km.len()
        invariant
            kmv == km@.map_values(|layer: Vec<Action>| layer@),
            kmv.len() == km@.len(),
            l <= km@.len(),
            km@.len() >= 1,
            forall|l2: int| 0 <= l2 < l ==> (#[trigger] kmv[l2]).len() == KEY_COUNT,
            forall|l2: int, i: int|
                0 <= l2 < l && 0 <= i < KEY_COUNT ==> action_wf(
                    #[trigger] kmv[l2][i],
                    kmv.len() as int,
                ),
        decreases km@.len() - l,
    {
        if km[l].len() != KEY_COUNT {
            proof {
                assert(kmv[l as int].len() != KEY_COUNT);
            }
            return false;
        }
        let mut i: usize = 0;
        while i < KEY_COUNT
            invariant
                kmv == km@.map_values(|layer: Vec<Action>| layer@),
                kmv.len() == km@.len(),
                l < km@.len(),
                km@[l as int]@.len() == KEY_COUNT,
                i <= KEY_COUNT,
                forall|i2: int|
                    0 <= i2 < i ==> action_wf(#[trigger] kmv[l as int][i2], kmv.len() as int),
            decreases KEY_COUNT - i,
        {
            if !action_ok(&km[l][i], km.len()) {
                proof {
                    assert(!action_wf(kmv[l as int][i as int], kmv.len() as int));
                }
                return false;
            }
            i = i + 1;
        }
        l = l + 1;
    }
    true
}

/// The layered hold-tap keymap engine.
pub struct Layout {
    keymap: Vec<Vec<Action>>,
    stack: Vec<usize>,
    keys: Vec<KeyState>,
    latch: Vec<u8>,
    tick: u64,
}

impl Layout {
    /// This engine's state as a mathematical value.
    pub closed spec fn model(&self) -> LayoutModel {
        LayoutModel {
            keymap: self.keymap@.map_values(|layer: Vec<Action>| layer@),
            stack: self.stack@,
            keys: self.keys@.map_values(|ks: KeyState| key_state_view(ks)),
            latch: self.latch@,
            tick: self.tick,
        }
    }

    pub open spec fn wf(&self) -> bool {
        model_wf(self.model())
    }

    /// An engine over the given keymap: base layer active, every key
    /// released, clock at zero.
    pub fn new(keymap: Vec<Vec<Action>>) -> (layout: Layout)
        requires
            keymap_wf(keymap@.map_values(|layer: Vec<Action>| layer@)),
        ensures
            layout.wf(),
            layout.model().keymap == keymap@.map_values(|layer: Vec<Action>| layer@),
            layout.model().stack == seq![0usize],
            layout.model().keys == Seq::new(KEY_COUNT as nat, |i: int| KeySpec::Released),
            layout.model().latch == Seq::<u8>::empty(),
            layout.model().tick == 0,
    {
        let mut stack: Vec<usize> = Vec::new();
        stack.push(0);
        let mut keys: Vec<KeyState> = Vec::new();
        let mut i: usize = 0;
        while i < KEY_COUNT
            invariant
                i <= KEY_COUNT,
                keys@.len() == i,
                forall|j: int| 0 <= j < i ==> #[trigger] key_state_view(keys@[j]) is Released,
            decreases KEY_COUNT - i,
        {
            keys.push(KeyState::Released);
            i = i + 1;
        }
        let layout = Layout { keymap, stack, keys, latch: Vec::new(), tick: 0 };
        proof {
            assert(layout.model().stack =~= seq![0usize]);
            assert(layout.model().keys =~= Seq::new(KEY_COUNT as nat, |i: int| KeySpec::Released));
        }
        layout
    }

    /// The topmost layer whose entry at `idx` is not transparent, if any:
    /// it carries the resolved action.
    fn top_layer(&self, idx: usize) -> (r: Option<usize>)
        requires
            self.wf(),
            idx < KEY_COUNT,
        ensures
            match r {
                Some(l) => {
                    &&& (l as int) < self.model().keymap.len()
                    &&& self.model().keymap[l as int][idx as int] == spec_lookup_at(
                        self.model().keymap,
                        self.model().stack,
                        idx as int,
                    )
                    &&& !(self.model().keymap[l as int][idx as int] is Transparent)
                },
                None => spec_lookup_at(self.model().keymap, self.model().stack, idx as int)
                    is NoOp,
            },
    {
        let ghost km = self.model().keymap;
        let ghost st = self.stack@;
        let mut j: usize = self.stack.len();
        proof {
            assert(st.take(st.len() as int) =~= st);
        }
        while j > 0
            invariant
                self.wf(),
                idx < KEY_COUNT,
                km == self.model().keymap,
                st == self.stack@,
                j <= st.len(),
                spec_lookup_at(km, st, idx as int) == spec_lookup_at(
                    km,
                    st.take(j as int),
                    idx as int,
                ),
            decreases j,
        {
            let l = self.stack[j - 1];
            proof {
                assert(st.take(j as int).last() == st[j - 1]);
            }
            if !matches!(&self.keymap[l][idx], Action::Transparent) {
                return Some(l);
            }
            proof {
                assert(st.take(j as int).drop_last() =~= st.take(j - 1 as int));
            }
            j = j - 1;
        }
        proof {
            assert(st.take(0) =~= Seq::<usize>::empty());
        }
        None
    }

    /// Removes the topmost occurrence of a held layer from the stack.
    fn unstack_layer(&mut self, l: usize)
        ensures
            final(self).stack@ == remove_layer(old(self).stack@, l),
            final(self).keymap == old(self).keymap,
            final(self).keys == old(self).keys,
            final(self).latch == old(self).latch,
            final(self).tick == old(self).tick,
    {
        let ghost st = self.stack@;
        let mut j: usize = self.stack.len();
        while j > 1
            invariant
                st == self.stack@,
                j <= st.len(),
                forall|q: int| j <= q < st.len() ==> st[q] != l,
                self.keymap == old(self).keymap,
                self.keys == old(self).keys,
                self.latch == old(self).latch,
                self.tick == old(self).tick,
                self.stack == old(self).stack,
            decreases j,
        {
            if self.stack[j - 1] == l {
                self.stack.remove(j - 1);
                proof {
                    lemma_remove_layer_at(st, l, (j - 1) as int);
                }
                return ;
            }
            j = j - 1;
        }
        proof {
            lemma_remove_layer_absent(st, l);
        }
    }

    /// Feeds one confirmed key event into the engine. A press takes the
    /// resolved action's effect up (or records a pending hold-tap); a
    /// release takes it down again (or resolves the hold-tap as tap).
    pub fn event(&mut self, e: Event)
        requires
            old(self).wf(),
            e.in_merged_space(),
        ensures
            final(self).wf(),
            final(self).model() == match e {
                Event::Press(_, _) => spec_press(old(self).model(), event_index(e)),
                Event::Release(_, _) => spec_release(old(self).model(), event_index(e)),
            },
    {
        match e {
            Event::Press(r, c) => {
                let idx = (r as usize) * MERGED_COLS + (c as usize);
                self.press(idx);
            },
            Event::Release(r, c) => {
                let idx = (r as usize) * MERGED_COLS + (c as usize);
                self.release(idx);
            },
        }
    }

    /// A press at a flat merged coordinate.
    fn press(&mut self, idx: usize)
        requires
            old(self).wf(),
            idx < KEY_COUNT,
        ensures
            final(self).wf(),
            final(self).model() == spec_press(old(self).model(), idx as int),
    {
        let ghost m0 = self.model();
        if !matches!(&self.keys[idx], KeyState::Released) {
            return ;
        }
        assert(m0.keys[idx as int] is Released);
        let top = self.top_layer(idx);
        match top {
            None => {},
            Some(l) => {
                let mut new_state: Option<KeyState> = None;
                let mut push_l: Option<usize> = None;
                match &self.keymap[l][idx] {
                    Action::Transparent => {},
                    Action::NoOp => {},
                    Action::Keycode(k) => {
                        let mut v: Vec<u8> = Vec::new();
                        v.push(*k);
                        new_state = Some(KeyState::HeldKeys { keys: v });
                    },
                    Action::ModChord(ks) => {
                        new_state = Some(KeyState::HeldKeys { keys: copy_keys(ks) });
                    },
                    Action::LayerShift(l2) => {
                        new_state = Some(KeyState::HeldLayer { layer: *l2 });
                        push_l = Some(*l2);
                    },
                    Action::HoldTap(h, t, to) => {
                        new_state = Some(
                            KeyState::Pending {
                                hold_keys: keys_of_action(&**h),
                                hold_layer: layer_of_action(&**h),
                                tap_keys: keys_of_action(&**t),
                                timeout: *to,
                                start: self.tick,
                                resolved: false,
                            },
                        );
                    },
                }
                match new_state {
                    Some(ns) => {
                        self.keys.set(idx, ns);
                    },
                    None => {},
                }
                match push_l {
                    Some(l2) => {
                        self.stack.push(l2);
                    },
                    None => {},
                }
                proof {
                    assert(self.model().keys =~= spec_press(m0, idx as int).keys);
                    assert(self.model() =~= spec_press(m0, idx as int));
                    lemma_press_wf(m0, idx as int);
                }
            },
        }
    }

    /// Advances the clock by one tick, resolves every pending hold-tap
    /// whose timeout has elapsed as hold, and returns the report for
    /// this tick: all asserted keycodes plus any tap latched since the
    /// last tick, as a strictly ascending (hence duplicate-free) list.
    pub fn tick(&mut self) -> (report: Vec<u8>)
        requires
            old(self).wf(),
        ensures
            final(self).wf(),
            final(self).model() == spec_tick_state(old(self).model()),
            report@.to_set() == spec_tick_report(old(self).model()),
            forall|a: int, b: int| 0 <= a < b < report@.len() ==> report@[a] < report@[b],
    {
        let ghost m0 = self.model();
        if self.tick < u64::MAX {
            self.tick = self.tick + 1;
        }
        let ghost bumped = LayoutModel { tick: next_tick(m0.tick), ..m0 };
        proof {
            assert(self.model() =~= bumped);
            assert(model_wf(bumped));
        }
        self.resolve_due();
        let report = self.current_report();
        self.latch = Vec::new();
        proof {
            assert(self.model() =~= spec_tick_state(m0));
            lemma_resolve_wf(bumped, KEY_COUNT as int);
        }
        report
    }

    /// Resolves as hold, in row-major order, every pending hold-tap whose
    /// timeout has elapsed on the current clock.
    fn resolve_due(&mut self)
        requires
            old(self).wf(),
        ensures
            final(self).model() == spec_resolve_upto(old(self).model(), KEY_COUNT as int),
            final(self).wf(),
    {
        let ghost mb = self.model();
        let now = self.tick;
        let mut i: usize = 0;
        while i < KEY_COUNT
            invariant
                model_wf(mb),
                i <= KEY_COUNT,
                now == mb.tick,
                self.tick == mb.tick,
                self.model() == spec_resolve_upto(mb, i as int),
            decreases KEY_COUNT - i,
        {
            proof {
                lemma_resolve_wf(mb, i as int);
                assert(model_wf(self.model()));
                assert(key_spec_wf(
                    self.model().keys[i as int],
                    self.model().keymap.len() as int,
                    self.model().tick,
                ));
                assert(self.model().keys[i as int] == key_state_view(self.keys@[i as int]));
            }
            let mut new_state: Option<KeyState> = None;
            let mut push_l: Option<usize> = None;
            match &self.keys[i] {
                KeyState::Pending { hold_keys, hold_layer, tap_keys, timeout, start, resolved } => {
                    if !*resolved && now - *start >= *timeout as u64 {
                        new_state = Some(
                            KeyState::Pending {
                                hold_keys: copy_keys(hold_keys),
                                hold_layer: *hold_layer,
                                tap_keys: copy_keys(tap_keys),
                                timeout: *timeout,
                                start: *start,
                                resolved: true,
                            },
                        );
                        push_l = *hold_layer;
                    }
                },
                _ => {},
            }
            match new_state {
                Some(ns) => {
                    self.keys.set(i, ns);
                },
                None => {},
            }
            match push_l {
                Some(l) => {
                    self.stack.push(l);
                },
                None => {},
            }
            proof {
                assert(self.model().keys =~= spec_resolve_upto(mb, i + 1 as int).keys);
                assert(self.model() =~= spec_resolve_upto(mb, i + 1 as int));
            }
            i = i + 1;
        }
        proof {
            lemma_resolve_wf(mb, KEY_COUNT as int);
        }
    }

    /// The keycodes currently asserted, together with the tap latch, as a
    /// strictly ascending list.
    fn current_report(&self) -> (report: Vec<u8>)
        requires
            self.wf(),
        ensures
            report@.to_set() == spec_active(self.model()).union(self.model().latch.to_set()),
            forall|a: int, b: int| 0 <= a < b < report@.len() ==> report@[a] < report@[b],
    {
        let ghost m = self.model();
        let mut acc: Vec<u8> = Vec::new();
        let mut i: usize = 0;
        proof {
            assert(acc@.to_set() =~= active_upto(m, 0));
        }
        while i < KEY_COUNT
            invariant
                self.wf(),
                m == self.model(),
                i <= KEY_COUNT,
                acc@.to_set() == active_upto(m, i as int),
            decreases KEY_COUNT - i,
        {
            let ghost acc0 = acc@;
            match &self.keys[i] {
                KeyState::HeldKeys { keys } => {
                    extend_keys(&mut acc, keys);
                },
                KeyState::Pending { hold_keys, resolved, .. } => {
                    if *resolved {
                        extend_keys(&mut acc, hold_keys);
                    }
                },
                _ => {},
            }
            proof {
                broadcast use vstd::seq_lib::lemma_seq_concat_contains_all_elements;

                assert(acc@.to_set() =~= active_upto(m, i + 1 as int));
            }
            i = i + 1;
        }
        extend_keys(&mut acc, &self.latch);
        proof {
            broadcast use vstd::seq_lib::lemma_seq_concat_contains_all_elements;

            assert(acc@.to_set() =~= spec_active(m).union(m.latch.to_set()));
        }
        // One slot per possible keycode, so membership checks are exact.
        let mut present: Vec<bool> = Vec::new();
        let mut k: usize = 0;
        while k < 256
            invariant
                k <= 256,
                present@.len() == k,
                forall|q: int| 0 <= q < k ==> !(#[trigger] present@[q]),
            decreases 256 - k,
        {
            present.push(false);
            k = k + 1;
        }
        let mut j: usize = 0;
        while j < acc.len()
            invariant
                j <= acc@.len(),
                present@.len() == 256,
                forall|q: int|
                    0 <= q < 256 ==> #[trigger] present@[q] == acc@.take(j as int).contains(
                        q as u8,
                    ),
            decreases acc@.len() - j,
        {
            let b = acc[j];
            present.set(b as usize, true);
            proof {
                assert forall|q: int| 0 <= q < 256 implies #[trigger] present@[q] == acc@.take(
                    j + 1 as int,
                ).contains(q as u8) by {
                    broadcast use vstd::seq_lib::lemma_seq_contains_after_push;

                    assert(acc@.take(j + 1 as int) =~= acc@.take(j as int).push(b));
                }
            }
            j = j + 1;
        }
        proof {
            assert(acc@.take(acc@.len() as int) =~= acc@);
        }
        let mut report: Vec<u8> = Vec::new();
        let mut k2: usize = 0;
        while k2 < 256
            invariant
                k2 <= 256,
                present@.len() == 256,
                forall|q: int| 0 <= q < 256 ==> #[trigger] present@[q] == acc@.contains(q as u8),
                forall|a: int, b: int| 0 <= a < b < report@.len() ==> report@[a] < report@[b],
                forall|a: int| 0 <= a < report@.len() ==> 0 <= #[trigger] report@[a] < k2,
                forall|b: u8| report@.contains(b) <==> ((b as int) < k2 && acc@.contains(b)),
            decreases 256 - k2,
        {
            if present[k2] {
                let b = k2 as u8;
                report.push(b);
                proof {
                    broadcast use vstd::seq_lib::lemma_seq_contains_after_push;

                }
            }
            k2 = k2 + 1;
        }
        proof {
            assert forall|b: u8| report@.contains(b) <==> acc@.contains(b) by {
                assert((b as int) < 256);
            }
            assert(report@.to_set() =~= acc@.to_set());
        }
        report
    }

    /// A release at a flat merged coordinate.
    fn release(&mut self, idx: usize)
        requires
            old(self).wf(),
            idx < KEY_COUNT,
        ensures
            final(self).wf(),
            final(self).model() == spec_release(old(self).model(), idx as int),
    {
        let ghost m0 = self.model();
        let mut clear: bool = false;
        let mut remove_l: Option<usize> = None;
        let mut latch_add: Option<Vec<u8>> = None;
        match &self.keys[idx] {
            KeyState::Released => {},
            KeyState::HeldKeys { .. } => {
                clear = true;
            },
            KeyState::HeldLayer { layer } => {
                clear = true;
                remove_l = Some(*layer);
            },
            KeyState::Pending { hold_layer, tap_keys, resolved, .. } => {
                clear = true;
                if !*resolved {
                    latch_add = Some(copy_keys(tap_keys));
                } else {
                    remove_l = *hold_layer;
                }
            },
        }
        if !clear {
            return ;
        }
        self.keys.set(idx, KeyState::Released);
        match latch_add {
            Some(mut v) => {
                self.latch.append(&mut v);
            },
            None => {},
        }
        match remove_l {
            Some(l) => {
                self.unstack_layer(l);
            },
            None => {},
        }
        proof {
            assert(self.model().keys =~= spec_release(m0, idx as int).keys);
            assert(self.model() =~= spec_release(m0, idx as int));
            lemma_release_wf(m0, idx as int);
        }
    }
}

/// Removing a layer that last occurs at `p` removes exactly index `p`.
proof fn lemma_remove_layer_at(st: Seq<usize>, l: usize, p: int)
    requires
        1 <= p < st.len(),
        st[p] == l,
        forall|q: int| p < q < st.len() ==> st[q] != l,
    ensures
        remove_layer(st, l) == st.remove(p),
    decreases st.len(),
{
    if p == st.len() - 1 {
        assert(st.remove(p) =~= st.drop_last());
    } else {
        assert(st.last() != l);
        assert(st.drop_last()[p] == l);
        lemma_remove_layer_at(st.drop_last(), l, p);
        assert(st.drop_last().remove(p).push(st.last()) =~= st.remove(p));
    }
}

/// Removing a layer that is not on the stack leaves it unchanged.
proof fn lemma_remove_layer_absent(st: Seq<usize>, l: usize)
    requires
        forall|q: int| 1 <= q < st.len() ==> st[q] != l,
    ensures
        remove_layer(st, l) == st,
    decreases st.len(),
{
    if st.len() > 1 {
        lemma_remove_layer_absent(st.drop_last(), l);
        assert(st.drop_last().push(st.last()) =~= st);
    }
}

/// Removing a layer keeps the base entry at the bottom and every entry
/// a valid layer index.
proof fn lemma_remove_layer_entries(st: Seq<usize>, l: usize, n: int)
    requires
        st.len() >= 1,
        forall|q: int| 0 <= q < st.len() ==> #[trigger] st[q] < n,
    ensures
        remove_layer(st, l).len() >= 1,
        remove_layer(st, l)[0] == st[0],
        forall|q: int| 0 <= q < remove_layer(st, l).len() ==> #[trigger] remove_layer(st, l)[q] < n,
    decreases st.len(),
{
    if st.len() <= 1 {
    } else if st.last() == l {
    } else {
        lemma_remove_layer_entries(st.drop_last(), l, n);
    }
}

/// The resolved action at a coordinate is a valid, non-transparent entry.
pub proof fn lemma_lookup_wf(km: Seq<Seq<Action>>, stack: Seq<usize>, idx: int)
    requires
        keymap_wf(km),
        forall|s: int| 0 <= s < stack.len() ==> #[trigger] stack[s] < km.len(),
        0 <= idx < KEY_COUNT,
    ensures
        action_wf(spec_lookup_at(km, stack, idx), km.len() as int),
        !(spec_lookup_at(km, stack, idx) is Transparent),
    decreases stack.len(),
{
    if stack.len() > 0 {
        let a = km[stack.last() as int][idx];
        if a is Transparent {
            lemma_lookup_wf(km, stack.drop_last(), idx);
        }
    }
}

/// Layer fall-through: a transparent entry on the topmost layer defers
/// to the rest of the stack.
pub proof fn lemma_transparent_falls_through(km: Seq<Seq<Action>>, stack: Seq<usize>, idx: int)
    requires
        stack.len() >= 1,
        km[stack.last() as int][idx] is Transparent,
    ensures
        spec_lookup_at(km, stack, idx) == spec_lookup_at(km, stack.drop_last(), idx),
{
}

/// Layer precedence: when the base layer maps a coordinate to a keycode
/// and a pushed layer maps it to transparent, the resolved action with
/// that layer active is still the base keycode.
pub proof fn lemma_layer_precedence(km: Seq<Seq<Action>>, idx: int, a: u8)
    requires
        km.len() >= 2,
        km[1][idx] is Transparent,
        km[0][idx] == Action::Keycode(a),
    ensures
        spec_lookup_at(km, seq![0usize, 1usize], idx) == Action::Keycode(a),
{
    let st: Seq<usize> = seq![0usize, 1usize];
    assert(st.last() == 1usize);
    assert(st.drop_last() =~= seq![0usize]);
    let base: Seq<usize> = seq![0usize];
    assert(base.last() == 0usize);
    assert(!(km[0][idx] is Transparent));
    assert(spec_lookup_at(km, base, idx) == Action::Keycode(a));
    assert(spec_lookup_at(km, st, idx) == spec_lookup_at(km, st.drop_last(), idx));
    assert(st.drop_last() == base);
}

/// The engine state after `k` consecutive ticks with no events.
pub open spec fn layout_tick_iter(m: LayoutModel, k: nat) -> LayoutModel
    decreases k,
{
    if k == 0 {
        m
    } else {
        spec_tick_state(layout_tick_iter(m, (k - 1) as nat))
    }
}

/// A board with every coordinate released and the base layer alone
/// active, between ticks.
pub open spec fn quiescent(m: LayoutModel) -> bool {
    &&& model_wf(m)
    &&& m.stack == seq![0usize]
    &&& m.latch == Seq::<u8>::empty()
    &&& forall|i: int| 0 <= i < KEY_COUNT ==> #[trigger] m.keys[i] is Released
}

/// With no pending hold-tap anywhere, the resolve pass changes nothing.
proof fn lemma_resolve_no_pending(m: LayoutModel, n: int)
    requires
        m.keys.len() == KEY_COUNT,
        n <= KEY_COUNT,
        forall|i: int| 0 <= i < KEY_COUNT ==> !((#[trigger] m.keys[i]) is Pending),
    ensures
        spec_resolve_upto(m, n) == m,
    decreases n,
{
    if n > 0 {
        lemma_resolve_no_pending(m, n - 1);
    }
}

/// With exactly one coordinate pending, the resolve pass touches at most
/// that coordinate: it resolves exactly when due, pushing its hold layer.
proof fn lemma_resolve_single(
    m: LayoutModel,
    idx: int,
    n: int,
    hk: Seq<u8>,
    hl: Option<usize>,
    tk: Seq<u8>,
    to: u16,
    st: u64,
    rs: bool,
)
    requires
        0 <= idx < KEY_COUNT,
        n <= KEY_COUNT,
        m.keys.len() == KEY_COUNT,
        forall|i: int| 0 <= i < KEY_COUNT && i != idx ==> !((#[trigger] m.keys[i]) is Pending),
        m.keys[idx] == (KeySpec::Pending {
            hold_keys: hk,
            hold_layer: hl,
            tap_keys: tk,
            timeout: to,
            start: st,
            resolved: rs,
        }),
    ensures
        (idx < n && !rs && m.tick - st >= to) ==> spec_resolve_upto(m, n) == (LayoutModel {
            keys: m.keys.update(
                idx,
                KeySpec::Pending {
                    hold_keys: hk,
                    hold_layer: hl,
                    tap_keys: tk,
                    timeout: to,
                    start: st,
                    resolved: true,
                },
            ),
            stack: match hl {
                Some(l) => m.stack.push(l),
                None => m.stack,
            },
            ..m
        }),
        !(idx < n && !rs && m.tick - st >= to) ==> spec_resolve_upto(m, n) == m,
    decreases n,
{
    if n > 0 {
        lemma_resolve_single(m, idx, n - 1, hk, hl, tk, to, st, rs);
    }
}

/// With every coordinate asserting nothing, nothing is active.
proof fn lemma_active_empty(m: LayoutModel, n: int)
    requires
        forall|i: int| 0 <= i < n ==> state_keys(#[trigger] m.keys[i]) == Seq::<u8>::empty(),
    ensures
        active_upto(m, n) == Set::<u8>::empty(),
    decreases n,
{
    if n > 0 {
        lemma_active_empty(m, n - 1);
        assert(Seq::<u8>::empty().to_set() =~= Set::<u8>::empty());
        assert(active_upto(m, n) =~= Set::<u8>::empty());
    }
}

/// With a single coordinate asserting keycodes, exactly those are active.
proof fn lemma_active_single(m: LayoutModel, idx: int, n: int)
    requires
        0 <= idx,
        forall|i: int|
            0 <= i < n && i != idx ==> state_keys(#[trigger] m.keys[i]) == Seq::<u8>::empty(),
    ensures
        active_upto(m, n) == if idx < n {
            state_keys(m.keys[idx]).to_set()
        } else {
            Set::<u8>::empty()
        },
    decreases n,
{
    if n > 0 {
        lemma_active_single(m, idx, n - 1);
        if idx < n - 1 {
            assert(active_upto(m, n) =~= state_keys(m.keys[idx]).to_set());
        } else if idx == n - 1 {
            assert(active_upto(m, n) =~= state_keys(m.keys[idx]).to_set());
        } else {
            assert(Seq::<u8>::empty().to_set() =~= Set::<u8>::empty());
            assert(active_upto(m, n) =~= Set::<u8>::empty());
        }
    }
}

/// The expected state of a quiescent board `n` ticks after pressing a
/// hold-tap key and holding it.
pub open spec fn holdtap_run_state(
    m: LayoutModel,
    idx: int,
    hk: Seq<u8>,
    hl: Option<usize>,
    tk: Seq<u8>,
    to: u16,
    n: nat,
) -> LayoutModel {
    LayoutModel {
        keymap: m.keymap,
        stack: if n >= to && (hl matches Some(l)) {
            m.stack.push(hl->0)
        } else {
            m.stack
        },
        keys: m.keys.update(
            idx,
            KeySpec::Pending {
                hold_keys: hk,
                hold_layer: hl,
                tap_keys: tk,
                timeout: to,
                start: m.tick,
                resolved: n >= to,
            },
        ),
        latch: Seq::empty(),
        tick: (m.tick + n) as u64,
    }
}

/// The hypotheses shared by the hold-tap timing laws: a quiescent board
/// whose resolved action at `idx` is a hold-tap with the given branch
/// effects and timeout.
pub open spec fn holdtap_setting(
    m: LayoutModel,
    idx: int,
    hk: Seq<u8>,
    hl: Option<usize>,
    tk: Seq<u8>,
    to: u16,
) -> bool {
    &&& quiescent(m)
    &&& 0 <= idx < KEY_COUNT
    &&& (spec_lookup_at(m.keymap, m.stack, idx) matches Action::HoldTap(bh, bt, bto)
        && action_keys(*bh) == hk && action_layer(*bh) == hl && action_keys(*bt) == tk && bto
        == to)
    &&& to >= 1
}

/// Holding a pressed hold-tap key: after `n` uneventful ticks the board
/// is exactly `holdtap_run_state`; it stays pending until the timeout
/// tick and is resolved as hold from then on.
pub proof fn lemma_holdtap_run(
    m: LayoutModel,
    idx: int,
    hk: Seq<u8>,
    hl: Option<usize>,
    tk: Seq<u8>,
    to: u16,
    n: nat,
)
    requires
        holdtap_setting(m, idx, hk, hl, tk, to),
        m.tick + n <= u64::MAX,
    ensures
        layout_tick_iter(spec_press(m, idx), n) == holdtap_run_state(m, idx, hk, hl, tk, to, n),
    decreases n,
{
    if n == 0 {
        assert(layout_tick_iter(spec_press(m, idx), 0) =~= holdtap_run_state(
            m,
            idx,
            hk,
            hl,
            tk,
            to,
            0,
        ));
    } else {
        lemma_holdtap_run(m, idx, hk, hl, tk, to, (n - 1) as nat);
        let prev = holdtap_run_state(m, idx, hk, hl, tk, to, (n - 1) as nat);
        let bumped = LayoutModel { tick: next_tick(prev.tick), ..prev };
        assert(bumped.tick == m.tick + n);
        lemma_resolve_single(
            bumped,
            idx,
            KEY_COUNT as int,
            hk,
            hl,
            tk,
            to,
            m.tick,
            (n - 1) >= to,
        );
        assert(layout_tick_iter(spec_press(m, idx), n) =~= holdtap_run_state(
            m,
            idx,
            hk,
            hl,
            tk,
            to,
            n,
        ));
    }
}

/// The report of the tick after `n` ticks of holding: empty until the
/// timeout tick, the hold keycodes from then on.
pub proof fn lemma_holdtap_run_report(
    m: LayoutModel,
    idx: int,
    hk: Seq<u8>,
    hl: Option<usize>,
    tk: Seq<u8>,
    to: u16,
    n: nat,
)
    requires
        holdtap_setting(m, idx, hk, hl, tk, to),
        m.tick + n + 1 <= u64::MAX,
    ensures
        spec_tick_report(layout_tick_iter(spec_press(m, idx), n)) == if n + 1 >= to {
            hk.to_set()
        } else {
            Set::<u8>::empty()
        },
{
    lemma_holdtap_run(m, idx, hk, hl, tk, to, n);
    let cur = holdtap_run_state(m, idx, hk, hl, tk, to, n);
    let bumped = LayoutModel { tick: next_tick(cur.tick), ..cur };
    lemma_resolve_single(bumped, idx, KEY_COUNT as int, hk, hl, tk, to, m.tick, n >= to);
    let resolved = spec_resolve_upto(bumped, KEY_COUNT as int);
    if n + 1 >= to {
        lemma_active_single(resolved, idx, KEY_COUNT as int);
        assert(state_keys(resolved.keys[idx]) == hk);
        assert(spec_active(resolved).union(cur.latch.to_set()) =~= hk.to_set());
    } else {
        lemma_active_empty(resolved, KEY_COUNT as int);
        assert(spec_active(resolved).union(cur.latch.to_set()) =~= Set::<u8>::empty());
    }
}

/// A board with every coordinate released reports exactly its latch and
/// only loses the latch over a tick.
proof fn lemma_quiet_tick(m: LayoutModel)
    requires
        m.keys.len() == KEY_COUNT,
        forall|i: int| 0 <= i < KEY_COUNT ==> #[trigger] m.keys[i] is Released,
    ensures
        spec_tick_report(m) == m.latch.to_set(),
        spec_tick_state(m) == (LayoutModel { latch: Seq::empty(), tick: next_tick(m.tick), ..m }),
{
    let bumped = LayoutModel { tick: next_tick(m.tick), ..m };
    lemma_resolve_no_pending(bumped, KEY_COUNT as int);
    lemma_active_empty(bumped, KEY_COUNT as int);
    assert(spec_active(bumped).union(m.latch.to_set()) =~= m.latch.to_set());
    assert(spec_tick_state(m) =~= LayoutModel {
        latch: Seq::empty(),
        tick: next_tick(m.tick),
        ..m
    });
}

/// Hold-tap timing, tap side: a press released strictly before `to`
/// ticks have elapsed never shows an effect while held, shows the tap
/// keycodes in the report of the tick containing the release, and shows
/// nothing afterwards.
pub proof fn lemma_holdtap_tap(
    m: LayoutModel,
    idx: int,
    hk: Seq<u8>,
    hl: Option<usize>,
    tk: Seq<u8>,
    to: u16,
    j: nat,
)
    requires
        holdtap_setting(m, idx, hk, hl, tk, to),
        j < to,
        m.tick + j + 2 <= u64::MAX,
    ensures
        forall|k: nat|
            k < j ==> spec_tick_report(layout_tick_iter(spec_press(m, idx), k)) == Set::<
                u8,
            >::empty(),
        spec_tick_report(spec_release(layout_tick_iter(spec_press(m, idx), j), idx)) == tk.to_set(),
        spec_tick_report(
            spec_tick_state(spec_release(layout_tick_iter(spec_press(m, idx), j), idx)),
        ) == Set::<u8>::empty(),
{
    assert forall|k: nat|
        k < j implies spec_tick_report(layout_tick_iter(spec_press(m, idx), k)) == Set::<
        u8,
    >::empty() by {
        lemma_holdtap_run_report(m, idx, hk, hl, tk, to, k);
    }
    lemma_holdtap_run(m, idx, hk, hl, tk, to, j);
    let mj = layout_tick_iter(spec_press(m, idx), j);
    let mr = spec_release(mj, idx);
    assert(mj.keys[idx] == (KeySpec::Pending {
        hold_keys: hk,
        hold_layer: hl,
        tap_keys: tk,
        timeout: to,
        start: m.tick,
        resolved: false,
    }));
    assert(forall|i: int| 0 <= i < KEY_COUNT ==> #[trigger] mr.keys[i] is Released);
    assert(mr.latch =~= tk);
    lemma_quiet_tick(mr);
    let mr2 = spec_tick_state(mr);
    assert(forall|i: int| 0 <= i < KEY_COUNT ==> #[trigger] mr2.keys[i] is Released);
    lemma_quiet_tick(mr2);
    assert(Seq::<u8>::empty().to_set() =~= Set::<u8>::empty());
}

/// Hold-tap timing, hold side: a press held for at least `to` ticks
/// shows no effect before the timeout tick, shows the hold keycodes (and
/// holds the hold layer) from the timeout tick until the release, and
/// the release takes the hold effect down again.
pub proof fn lemma_holdtap_hold(
    m: LayoutModel,
    idx: int,
    hk: Seq<u8>,
    hl: Option<usize>,
    tk: Seq<u8>,
    to: u16,
    j: nat,
)
    requires
        holdtap_setting(m, idx, hk, hl, tk, to),
        j >= to,
        m.tick + j + 2 <= u64::MAX,
    ensures
        forall|k: nat|
            k < j ==> spec_tick_report(layout_tick_iter(spec_press(m, idx), k)) == (if k + 1 >= to {
                hk.to_set()
            } else {
                Set::<u8>::empty()
            }),
        forall|k: nat|
            to <= k <= j ==> layout_tick_iter(spec_press(m, idx), k).stack == (match hl {
                Some(l) => m.stack.push(l),
                None => m.stack,
            }),
        spec_release(layout_tick_iter(spec_press(m, idx), j), idx).stack == m.stack,
        spec_tick_report(spec_release(layout_tick_iter(spec_press(m, idx), j), idx)) == Set::<
            u8,
        >::empty(),
{
    assert forall|k: nat|
        k < j implies spec_tick_report(layout_tick_iter(spec_press(m, idx), k)) == (if k + 1
        >= to {
        hk.to_set()
    } else {
        Set::<u8>::empty()
    }) by {
        lemma_holdtap_run_report(m, idx, hk, hl, tk, to, k);
    }
    assert forall|k: nat|
        to <= k <= j implies layout_tick_iter(spec_press(m, idx), k).stack == (match hl {
        Some(l) => m.stack.push(l),
        None => m.stack,
    }) by {
        lemma_holdtap_run(m, idx, hk, hl, tk, to, k);
    }
    lemma_holdtap_run(m, idx, hk, hl, tk, to, j);
    let mj = layout_tick_iter(spec_press(m, idx), j);
    let mr = spec_release(mj, idx);
    assert(mj.keys[idx] == (KeySpec::Pending {
        hold_keys: hk,
        hold_layer: hl,
        tap_keys: tk,
        timeout: to,
        start: m.tick,
        resolved: true,
    }));
    match hl {
        Some(l) => {
            assert(mj.stack == m.stack.push(l));
            assert(m.stack.push(l).drop_last() =~= m.stack);
            assert(remove_layer(m.stack.push(l), l) == m.stack);
        },
        None => {},
    }
    assert(forall|i: int| 0 <= i < KEY_COUNT ==> #[trigger] mr.keys[i] is Released);
    assert(mr.latch == Seq::<u8>::empty());
    lemma_quiet_tick(mr);
    assert(Seq::<u8>::empty().to_set() =~= Set::<u8>::empty());
}

/// A press preserves the engine's validity invariant.
pub proof fn lemma_press_wf(m: LayoutModel, idx: int)
    requires
        model_wf(m),
        0 <= idx < KEY_COUNT,
    ensures
        model_wf(spec_press(m, idx)),
{
    lemma_lookup_wf(m.keymap, m.stack, idx);
    let n = m.keymap.len() as int;
    let m2 = spec_press(m, idx);
    if m.keys[idx] is Released {
        let a = spec_lookup_at(m.keymap, m.stack, idx);
        assert(action_wf(a, n));
        match a {
            Action::Keycode(_) => {
                assert(key_spec_wf(m2.keys[idx], n, m2.tick));
            },
            Action::ModChord(_) => {
                assert(key_spec_wf(m2.keys[idx], n, m2.tick));
            },
            Action::LayerShift(_) => {
                assert(key_spec_wf(m2.keys[idx], n, m2.tick));
                assert(forall|s: int|
                    0 <= s < m2.stack.len() ==> #[trigger] m2.stack[s] < m2.keymap.len());
            },
            Action::HoldTap(h, _, _) => {
                assert(action_wf(*h, n));
                assert(key_spec_wf(m2.keys[idx], n, m2.tick));
            },
            _ => {},
        }
        assert(forall|i: int|
            0 <= i < KEY_COUNT ==> key_spec_wf(#[trigger] m2.keys[i], n, m2.tick));
    }
}

/// A release preserves the engine's validity invariant.
pub proof fn lemma_release_wf(m: LayoutModel, idx: int)
    requires
        model_wf(m),
        0 <= idx < KEY_COUNT,
    ensures
        model_wf(spec_release(m, idx)),
{
    match m.keys[idx] {
        KeySpec::HeldLayer { layer } => {
            lemma_remove_layer_entries(m.stack, layer, m.keymap.len() as int);
        },
        KeySpec::Pending { hold_layer, resolved, .. } => {
            if resolved {
                match hold_layer {
                    Some(l) => {
                        lemma_remove_layer_entries(m.stack, l, m.keymap.len() as int);
                    },
                    None => {},
                }
            }
        },
        _ => {},
    }
}

} // verus!
