//! Remote control: what the client holds down, and what a client's event means
//! for the virtual pointer and keyboard.

use crate::protocol::{evdev_button, InputEvent};
use crate::text::same_text;
use std::collections::BTreeSet;
use vstd::prelude::*;
use vstd::std_specs::cmp::OrdSpec;
use vstd::std_specs::iter::IteratorSpec;

verus! {

/// Modifier mask bits of a standard evdev keymap.
pub const MOD_SHIFT: u32 = 1;

pub const MOD_LOCK: u32 = 2;

pub const MOD_CTRL: u32 = 4;

pub const MOD_ALT: u32 = 8;

pub const MOD_NUM: u32 = 16;

pub const MOD_LOGO: u32 = 64;

pub const MOD_ALTGR: u32 = 128;

pub const KEY_CAPSLOCK: u16 = 58;

pub const KEY_NUMLOCK: u16 = 69;

/// The highest evdev code accepted from the network.
pub const KEY_MAX: u16 = 0x2ff;

/// The modifier a key stands for, or zero.
pub open spec fn modifier_of(code: u16) -> u32 {
    if code == 42 || code == 54 {
        MOD_SHIFT
    } else if code == 29 || code == 97 {
        MOD_CTRL
    } else if code == 56 {
        MOD_ALT
    } else if code == 100 {
        MOD_ALTGR
    } else if code == 125 || code == 126 {
        MOD_LOGO
    } else {
        0
    }
}

/// The modifier that a key stands for, or zero.
pub fn modifier_bit(code: u16) -> (bit: u32)
    ensures
        bit == modifier_of(code),
{
    match code {
        42 | 54 => MOD_SHIFT,
        29 | 97 => MOD_CTRL,
        56 => MOD_ALT,
        100 => MOD_ALTGR,
        125 | 126 => MOD_LOGO,
        _ => 0,
    }
}

/// `bit` where any key that stands for it is held, else zero.
pub open spec fn bit_if_held(keys: Set<u16>, bit: u32) -> int {
    if exists|k: u16| #[trigger] keys.contains(k) && modifier_of(k) == bit {
        bit as int
    } else {
        0
    }
}

/// The modifiers of the keys held: a bit is set while any key that stands for
/// it is held.
pub open spec fn modifiers_held(keys: Set<u16>) -> int {
    bit_if_held(keys, MOD_SHIFT) + bit_if_held(keys, MOD_CTRL) + bit_if_held(keys, MOD_ALT)
        + bit_if_held(keys, MOD_ALTGR) + bit_if_held(keys, MOD_LOGO)
}

/// What to do with a key event.
#[derive(Debug, PartialEq, Eq)]
pub enum KeyAction {
    /// An invalid code, an autorepeat, or the release of a key not held: send
    /// nothing.
    Drop,
    /// Forward the key; `Some((depressed, locked))` means that the modifiers
    /// changed and go along.
    Forward(Option<(u32, u32)>),
}

/// What the remote client is holding down.
pub struct HeldState {
    keys: BTreeSet<u16>,
    buttons: BTreeSet<u32>,
    locked: u32,
}

/// What is held, as a value.
#[verifier::ext_equal]
pub struct Held {
    pub keys: Set<u16>,
    pub buttons: Set<u32>,
    pub locked: u32,
}

impl View for HeldState {
    type V = Held;

    closed spec fn view(&self) -> Held {
        Held { keys: self.keys@, buttons: self.buttons@, locked: self.locked }
    }
}

impl Default for HeldState {
    fn default() -> (s: Self)
        ensures
            s@ == nothing_held(),
    {
        HeldState { keys: BTreeSet::new(), buttons: BTreeSet::new(), locked: 0 }
    }
}

/// Nothing held, nothing locked.
pub open spec fn nothing_held() -> Held {
    Held { keys: Set::empty(), buttons: Set::empty(), locked: 0 }
}

/// Whether a key event changes anything: the code is valid, and the key is not
/// already as the event says.
pub open spec fn key_counts(held: Held, code: u16, pressed: bool) -> bool {
    1 <= code <= KEY_MAX && held.keys.contains(code) != pressed
}

/// The locks after a key event that counts: a lock key toggles on its press.
pub open spec fn locks_after(locked: u32, code: u16, pressed: bool) -> u32 {
    if pressed && code == KEY_CAPSLOCK {
        locked ^ MOD_LOCK
    } else if pressed && code == KEY_NUMLOCK {
        locked ^ MOD_NUM
    } else {
        locked
    }
}

/// What is held after a key event.
pub open spec fn held_after_key(held: Held, code: u16, pressed: bool) -> Held {
    if !key_counts(held, code, pressed) {
        held
    } else {
        Held {
            keys: if pressed {
                held.keys.insert(code)
            } else {
                held.keys.remove(code)
            },
            locked: locks_after(held.locked, code, pressed),
            ..held
        }
    }
}

/// What to do with a key event.
pub open spec fn key_action(held: Held, code: u16, pressed: bool) -> KeyAction {
    let after = held_after_key(held, code, pressed);
    if !key_counts(held, code, pressed) {
        KeyAction::Drop
    } else if modifiers_held(after.keys) == modifiers_held(held.keys) && after.locked
        == held.locked {
        KeyAction::Forward(None)
    } else {
        KeyAction::Forward(Some((modifiers_held(after.keys) as u32, after.locked)))
    }
}

impl HeldState {
    /// Notes a key event and says what to do with it.
    pub fn key(&mut self, code: u16, pressed: bool) -> (action: KeyAction)
        ensures
            final(self)@ == held_after_key(old(self)@, code, pressed),
            action == key_action(old(self)@, code, pressed),
    {
        if code == 0 || code > KEY_MAX {
            return KeyAction::Drop;
        }
        let depressed_before: u32 = self.depressed();
        let locked_before: u32 = self.locked;
        let changed = if pressed {
            insert_key(&mut self.keys, code)
        } else {
            remove_key(&mut self.keys, code)
        };
        if !changed {
            assert(self@ =~= old(self)@);
            return KeyAction::Drop;
        }
        if pressed {
            if code == KEY_CAPSLOCK {
                self.locked = self.locked ^ MOD_LOCK;
            } else if code == KEY_NUMLOCK {
                self.locked = self.locked ^ MOD_NUM;
            }
        }
        assert(self@ =~= held_after_key(old(self)@, code, pressed));
        let depressed_after: u32 = self.depressed();
        if depressed_after != depressed_before || self.locked != locked_before {
            KeyAction::Forward(Some((depressed_after, self.locked)))
        } else {
            KeyAction::Forward(None)
        }
    }

    /// Notes a button event. False if it changes nothing: the press of a held
    /// button, the release of one not held.
    pub fn button(&mut self, code: u32, pressed: bool) -> (changed: bool)
        ensures
            changed == (old(self)@.buttons.contains(code) != pressed),
            final(self)@ == (Held {
                buttons: if pressed {
                    old(self)@.buttons.insert(code)
                } else {
                    old(self)@.buttons.remove(code)
                },
                ..old(self)@
            }),
    {
        if pressed {
            insert_button(&mut self.buttons, code)
        } else {
            remove_button(&mut self.buttons, code)
        }
    }

    /// Lets go of everything held and returns it, in ascending order. Locks are
    /// kept.
    pub fn release_all(&mut self) -> (held: (Vec<u16>, Vec<u32>))
        ensures
            final(self)@ == (Held { locked: old(self)@.locked, ..nothing_held() }),
            lists_keys(held.0@, old(self)@.keys),
            lists_buttons(held.1@, old(self)@.buttons),
    {
        let keys: Vec<u16> = list_keys(&self.keys);
        let buttons: Vec<u32> = list_buttons(&self.buttons);
        self.keys = BTreeSet::new();
        self.buttons = BTreeSet::new();
        (keys, buttons)
    }

    /// The modifiers held.
    pub fn depressed(&self) -> (mask: u32)
        ensures
            mask == modifiers_held(self@.keys),
    {
        let shift: u32 = if holds(&self.keys, 42) || holds(&self.keys, 54) {
            MOD_SHIFT
        } else {
            0
        };
        let ctrl: u32 = if holds(&self.keys, 29) || holds(&self.keys, 97) {
            MOD_CTRL
        } else {
            0
        };
        let alt: u32 = if holds(&self.keys, 56) {
            MOD_ALT
        } else {
            0
        };
        let altgr: u32 = if holds(&self.keys, 100) {
            MOD_ALTGR
        } else {
            0
        };
        let logo: u32 = if holds(&self.keys, 125) || holds(&self.keys, 126) {
            MOD_LOGO
        } else {
            0
        };
        proof {
            lemma_bits_held(self.keys@);
        }
        shift + ctrl + alt + altgr + logo
    }

    /// The locks in force.
    pub fn locked(&self) -> (mask: u32)
        ensures
            mask == self@.locked,
    {
        self.locked
    }
}

proof fn lemma_bits_held(keys: Set<u16>)
    ensures
        bit_if_held(keys, MOD_SHIFT) == (if keys.contains(42) || keys.contains(54) {
            MOD_SHIFT as int
        } else {
            0
        }),
        bit_if_held(keys, MOD_CTRL) == (if keys.contains(29) || keys.contains(97) {
            MOD_CTRL as int
        } else {
            0
        }),
        bit_if_held(keys, MOD_ALT) == (if keys.contains(56) {
            MOD_ALT as int
        } else {
            0
        }),
        bit_if_held(keys, MOD_ALTGR) == (if keys.contains(100) {
            MOD_ALTGR as int
        } else {
            0
        }),
        bit_if_held(keys, MOD_LOGO) == (if keys.contains(125) || keys.contains(126) {
            MOD_LOGO as int
        } else {
            0
        }),
{
}

/// Whether `list` holds exactly the keys of `keys`, in ascending order.
pub open spec fn lists_keys(list: Seq<u16>, keys: Set<u16>) -> bool {
    &&& forall|i: int, j: int| 0 <= i < j < list.len() ==> #[trigger] list[i] < #[trigger] list[j]
    &&& forall|k: u16| #[trigger] list.contains(k) <==> keys.contains(k)
}

/// Whether `list` holds exactly the buttons of `buttons`, in ascending order.
pub open spec fn lists_buttons(list: Seq<u32>, buttons: Set<u32>) -> bool {
    &&& forall|i: int, j: int| 0 <= i < j < list.len() ==> #[trigger] list[i] < #[trigger] list[j]
    &&& forall|k: u32| #[trigger] list.contains(k) <==> buttons.contains(k)
}

fn holds(keys: &BTreeSet<u16>, code: u16) -> (b: bool)
    ensures
        b == keys@.contains(code),
{
    broadcast use vstd::laws_cmp::group_laws_cmp;

    keys.contains(&code)
}

fn insert_key(keys: &mut BTreeSet<u16>, code: u16) -> (changed: bool)
    ensures
        final(keys)@ == old(keys)@.insert(code),
        changed == !old(keys)@.contains(code),
{
    broadcast use vstd::laws_cmp::group_laws_cmp;

    keys.insert(code)
}

fn remove_key(keys: &mut BTreeSet<u16>, code: u16) -> (changed: bool)
    ensures
        final(keys)@ == old(keys)@.remove(code),
        changed == old(keys)@.contains(code),
{
    broadcast use vstd::laws_cmp::group_laws_cmp;

    keys.remove(&code)
}

fn insert_button(buttons: &mut BTreeSet<u32>, code: u32) -> (changed: bool)
    ensures
        final(buttons)@ == old(buttons)@.insert(code),
        changed == !old(buttons)@.contains(code),
{
    broadcast use vstd::laws_cmp::group_laws_cmp;

    buttons.insert(code)
}

fn remove_button(buttons: &mut BTreeSet<u32>, code: u32) -> (changed: bool)
    ensures
        final(buttons)@ == old(buttons)@.remove(code),
        changed == old(buttons)@.contains(code),
{
    broadcast use vstd::laws_cmp::group_laws_cmp;

    buttons.remove(&code)
}

/// References to codes are ordered as the codes are.
proof fn lemma_code_order()
    ensures
        vstd::laws_cmp::obeys_cmp::<&u16>(),
        vstd::laws_cmp::obeys_cmp::<&u32>(),
{
    broadcast use vstd::laws_eq::group_laws_eq;
    broadcast use vstd::laws_cmp::group_laws_cmp;

    reveal(vstd::laws_eq::obeys_eq_spec_properties);
    reveal(vstd::laws_cmp::obeys_partial_cmp_spec_properties);
    reveal(vstd::laws_cmp::obeys_cmp_partial_ord);
    reveal(vstd::laws_cmp::obeys_cmp_ord);
}

spec fn precedes<K: Ord>(a: K, b: K) -> bool {
    a.cmp_spec(&b) is Less
}

proof fn lemma_increasing<K: Ord>(s: Seq<K>, i: int, j: int)
    requires
        vstd::laws_cmp::obeys_cmp::<K>(),
        vstd::std_specs::btree::increasing_seq(s),
        0 <= i < j < s.len(),
    ensures
        precedes(s[i], s[j]),
{
}

fn list_keys(keys: &BTreeSet<u16>) -> (list: Vec<u16>)
    ensures
        lists_keys(list@, keys@),
{
    broadcast use vstd::laws_cmp::group_laws_cmp;

    proof {
        lemma_code_order();
    }
    let mut list: Vec<u16> = Vec::new();
    let walk = keys.iter();
    let ghost refs = walk.remaining();
    let ghost all = refs.unref();
    for k in it: walk
        invariant
            it.seq() == refs,
            all == refs.unref(),
            list@ == all.take(it.index()),
    {
        list.push(*k);
        assert(list@ =~= all.take(it.index() + 1));
    }
    proof {
        assert(list@ =~= all);
        assert(vstd::std_specs::btree::increasing_seq(refs));
        assert forall|i: int, j: int| 0 <= i < j < list@.len() implies #[trigger] list@[i]
            < #[trigger] list@[j] by {
            lemma_increasing(refs, i, j);
        }
        assert forall|k: u16| #[trigger] list@.contains(k) <==> keys@.contains(k) by {
            assert(all.to_set().contains(k) <==> all.contains(k));
        }
    }
    list
}

fn list_buttons(buttons: &BTreeSet<u32>) -> (list: Vec<u32>)
    ensures
        lists_buttons(list@, buttons@),
{
    broadcast use vstd::laws_cmp::group_laws_cmp;

    proof {
        lemma_code_order();
    }
    let mut list: Vec<u32> = Vec::new();
    let walk = buttons.iter();
    let ghost refs = walk.remaining();
    let ghost all = refs.unref();
    for k in it: walk
        invariant
            it.seq() == refs,
            all == refs.unref(),
            list@ == all.take(it.index()),
    {
        list.push(*k);
        assert(list@ =~= all.take(it.index() + 1));
    }
    proof {
        assert(list@ =~= all);
        assert(vstd::std_specs::btree::increasing_seq(refs));
        assert forall|i: int, j: int| 0 <= i < j < list@.len() implies #[trigger] list@[i]
            < #[trigger] list@[j] by {
            lemma_increasing(refs, i, j);
        }
        assert forall|k: u32| #[trigger] list@.contains(k) <==> buttons@.contains(k) by {
            assert(all.to_set().contains(k) <==> all.contains(k));
        }
    }
    list
}

/// `v` over 100, rounded to the nearest whole number, halves away from zero.
pub open spec fn rounded_hundreds(v: int) -> int {
    if v < 0 {
        -((-v + 50) / 100)
    } else {
        (v + 50) / 100
    }
}

/// Browser wheel pixels as a pointer axis value in hundredths: one notch is
/// about 100 pixels in browsers and 15.0 for the compositor.
pub fn wheel_to_axis(px: i16) -> (hundredths: i32)
    ensures
        hundredths == px * 15,
{
    px as i32 * 15
}

/// Wheel steps of about 100 pixels each, at least one in the delta's direction
/// for any delta but zero.
pub open spec fn wheel_steps(px: i16) -> int {
    if rounded_hundreds(px as int) != 0 {
        rounded_hundreds(px as int)
    } else if px > 0 {
        1
    } else if px < 0 {
        -1
    } else {
        0
    }
}

pub fn wheel_to_discrete(px: i16) -> (steps: i32)
    ensures
        steps == wheel_steps(px),
{
    let v: i32 = px as i32;
    let steps: i32 = if v < 0 {
        -((-v + 50) / 100)
    } else {
        (v + 50) / 100
    };
    if steps != 0 {
        steps
    } else if v > 0 {
        1
    } else if v < 0 {
        -1
    } else {
        0
    }
}

/// A request to the virtual pointer or keyboard.
#[derive(Clone, Copy, Debug, PartialEq, Eq, Structural)]
pub enum Injection {
    /// Move to a position, of [`MOTION_EXTENT`] on either axis.
    Motion { x: u16, y: u16 },
    Button { code: u32, pressed: bool },
    /// What follows comes from a wheel.
    WheelSource,
    /// Scroll by an axis value in hundredths, and by whole steps.
    Scroll { vertical: bool, hundredths: i32, steps: i32 },
    /// What was requested of the pointer belongs together.
    Frame,
    Key { code: u16, pressed: bool },
    Modifiers { depressed: u32, locked: u32 },
}

/// The range of the positions in a pointer motion.
pub const MOTION_EXTENT: u32 = 65535;

/// Scrolling along one axis, or nothing for a delta of zero.
pub open spec fn scrolled(vertical: bool, delta: i16) -> Seq<Injection> {
    if delta == 0 {
        Seq::empty()
    } else {
        seq![
            Injection::Scroll {
                vertical,
                hundredths: (delta * 15) as i32,
                steps: wheel_steps(delta) as i32,
            },
        ]
    }
}

/// What a client's event asks of the virtual devices, given what is held and
/// whether there is a keyboard.
pub open spec fn injections(held: Held, event: InputEvent, keyboard: bool) -> Seq<Injection> {
    match event {
        InputEvent::PointerMotion { x, y } => seq![Injection::Motion { x, y }, Injection::Frame],
        InputEvent::PointerButton { button, pressed } => {
            let code = evdev_button(button);
            if held.buttons.contains(code) != pressed {
                seq![Injection::Button { code, pressed }, Injection::Frame]
            } else {
                Seq::empty()
            }
        },
        InputEvent::PointerAxis { dx, dy } => seq![Injection::WheelSource] + scrolled(true, dy)
            + scrolled(false, dx) + seq![Injection::Frame],
        InputEvent::Key { code, pressed } => if keyboard {
            match key_action(held, code, pressed) {
                KeyAction::Drop => Seq::empty(),
                KeyAction::Forward(None) => seq![Injection::Key { code, pressed }],
                KeyAction::Forward(Some((depressed, locked))) => seq![
                    Injection::Key { code, pressed },
                    Injection::Modifiers { depressed, locked },
                ],
            }
        } else {
            Seq::empty()
        },
    }
}

/// What is held after a client's event.
pub open spec fn held_after(held: Held, event: InputEvent, keyboard: bool) -> Held {
    match event {
        InputEvent::PointerButton { button, pressed } => Held {
            buttons: if pressed {
                held.buttons.insert(evdev_button(button))
            } else {
                held.buttons.remove(evdev_button(button))
            },
            ..held
        },
        InputEvent::Key { code, pressed } => if keyboard {
            held_after_key(held, code, pressed)
        } else {
            held
        },
        _ => held,
    }
}

fn push_scroll(out: &mut Vec<Injection>, vertical: bool, delta: i16)
    ensures
        final(out)@ == old(out)@ + scrolled(vertical, delta),
{
    if delta != 0 {
        out.push(
            Injection::Scroll {
                vertical,
                hundredths: wheel_to_axis(delta),
                steps: wheel_to_discrete(delta),
            },
        );
    }
    assert(out@ =~= old(out)@ + scrolled(vertical, delta));
}

/// Notes a client's event and says what it asks of the virtual devices.
pub fn inject(held: &mut HeldState, event: InputEvent, keyboard: bool) -> (requests: Vec<Injection>)
    ensures
        requests@ == injections(old(held)@, event, keyboard),
        final(held)@ == held_after(old(held)@, event, keyboard),
{
    let mut requests: Vec<Injection> = Vec::new();
    match event {
        InputEvent::PointerMotion { x, y } => {
            requests.push(Injection::Motion { x, y });
            requests.push(Injection::Frame);
        },
        InputEvent::PointerButton { button, pressed } => {
            let code: u32 = button.evdev_code();
            if held.button(code, pressed) {
                requests.push(Injection::Button { code, pressed });
                requests.push(Injection::Frame);
            }
        },
        InputEvent::PointerAxis { dx, dy } => {
            requests.push(Injection::WheelSource);
            push_scroll(&mut requests, true, dy);
            push_scroll(&mut requests, false, dx);
            requests.push(Injection::Frame);
        },
        InputEvent::Key { code, pressed } => {
            if keyboard {
                match held.key(code, pressed) {
                    KeyAction::Drop => {},
                    KeyAction::Forward(modifiers) => {
                        requests.push(Injection::Key { code, pressed });
                        if let Some((depressed, locked)) = modifiers {
                            requests.push(Injection::Modifiers { depressed, locked });
                        }
                    },
                }
            }
        },
    }
    assert(requests@ =~= injections(old(held)@, event, keyboard));
    requests
}

/// The releases of these keys.
pub open spec fn key_releases(keys: Seq<u16>) -> Seq<Injection> {
    keys.map_values(|code: u16| Injection::Key { code, pressed: false })
}

/// The releases of these buttons.
pub open spec fn button_releases(buttons: Seq<u32>) -> Seq<Injection> {
    buttons.map_values(|code: u32| Injection::Button { code, pressed: false })
}

/// What letting go of everything asks of the virtual devices.
pub open spec fn releases(keys: Seq<u16>, buttons: Seq<u32>, locked: u32, keyboard: bool) -> Seq<
    Injection,
> {
    (if keyboard && keys.len() > 0 {
        key_releases(keys).push(Injection::Modifiers { depressed: 0, locked })
    } else {
        Seq::empty()
    }) + (if buttons.len() > 0 {
        button_releases(buttons).push(Injection::Frame)
    } else {
        Seq::empty()
    })
}

/// Lets go of everything held and says what that asks of the virtual devices:
/// keys, then buttons, each in ascending order.
pub fn release_requests(held: &mut HeldState, keyboard: bool) -> (requests: Vec<Injection>)
    ensures
        final(held)@ == (Held { locked: old(held)@.locked, ..nothing_held() }),
        exists|keys: Seq<u16>, buttons: Seq<u32>| #[trigger]
            lists_keys(keys, old(held)@.keys) && #[trigger] lists_buttons(
                buttons,
                old(held)@.buttons,
            ) && requests@ == releases(keys, buttons, old(held)@.locked, keyboard),
{
    let (keys, buttons): (Vec<u16>, Vec<u32>) = held.release_all();
    let locked: u32 = held.locked();
    let mut requests: Vec<Injection> = Vec::new();
    if keyboard && keys.len() > 0 {
        let mut i: usize = 0;
        while i < keys.len()
            invariant
                i <= keys@.len(),
                requests@ == key_releases(keys@.take(i as int)),
            decreases keys@.len() - i,
        {
            requests.push(Injection::Key { code: keys[i], pressed: false });
            assert(requests@ =~= key_releases(keys@.take(i + 1)));
            i += 1;
        }
        assert(keys@.take(keys@.len() as int) =~= keys@);
        requests.push(Injection::Modifiers { depressed: 0, locked });
    }
    let ghost first = requests@;
    let mut j: usize = 0;
    assert(requests@ =~= first + button_releases(buttons@.take(0)));
    while j < buttons.len()
        invariant
            j <= buttons@.len(),
            requests@ == first + button_releases(buttons@.take(j as int)),
        decreases buttons@.len() - j,
    {
        requests.push(Injection::Button { code: buttons[j], pressed: false });
        assert(requests@ =~= first + button_releases(buttons@.take(j + 1)));
        j += 1;
    }
    assert(buttons@.take(buttons@.len() as int) =~= buttons@);
    if buttons.len() > 0 {
        requests.push(Injection::Frame);
    }
    assert(requests@ =~= releases(keys@, buttons@, locked, keyboard));
    requests
}

/// Whatever a client sends, nothing stays down that was not pressed: an event
/// sequence that presses a valid key and releases it again leaves the keys as
/// they were.
pub proof fn law_press_and_release_cancel(held: Held, code: u16)
    requires
        1 <= code <= KEY_MAX,
        !held.keys.contains(code),
    ensures
        held_after_key(held_after_key(held, code, true), code, false).keys == held.keys,
        held_after_key(held_after_key(held, code, true), code, false).buttons == held.buttons,
        key_action(held, code, true) is Forward,
        key_action(held_after_key(held, code, true), code, false) is Forward,
{
    assert(held.keys.insert(code).remove(code) =~= held.keys);
}

/// The modifiers sent with a key are those of the keys held after it, and they
/// are sent exactly when they or the locks differ from before.
pub proof fn law_modifiers_follow_the_keys(held: Held, code: u16, pressed: bool)
    ensures
        ({
            let after = held_after_key(held, code, pressed);
            match key_action(held, code, pressed) {
                KeyAction::Drop => after == held,
                KeyAction::Forward(None) => modifiers_held(after.keys) == modifiers_held(held.keys)
                    && after.locked == held.locked,
                KeyAction::Forward(Some((depressed, locked))) => {
                    &&& depressed == modifiers_held(after.keys)
                    &&& locked == after.locked
                    &&& (depressed != modifiers_held(held.keys) || locked != held.locked)
                },
            }
        }),
{
    lemma_bits_held(held.keys);
}

/// What the compositor offers for remote control.
#[derive(Clone, Copy, Debug, PartialEq, Eq, Structural)]
pub enum Interface {
    Seat,
    Output,
    PointerManager,
    KeyboardManager,
}

/// Which of the compositor's globals to bind, and at which version: the first
/// seat and the first output, and every manager of virtual devices.
pub fn global_to_bind(interface: &str, version: u32, has_seat: bool, has_output: bool) -> (bind:
    Option<(Interface, u32)>)
    ensures
        bind == (if interface@ == "wl_seat"@ {
            if has_seat {
                None
            } else {
                Some((Interface::Seat, at_most(version, 7)))
            }
        } else if interface@ == "wl_output"@ {
            if has_output {
                None
            } else {
                Some((Interface::Output, 1u32))
            }
        } else if interface@ == "zwlr_virtual_pointer_manager_v1"@ {
            Some((Interface::PointerManager, at_most(version, 2)))
        } else if interface@ == "zwp_virtual_keyboard_manager_v1"@ {
            Some((Interface::KeyboardManager, 1u32))
        } else {
            None
        }),
{
    if same_text(interface, "wl_seat") {
        if has_seat {
            None
        } else {
            Some(
                (
                    Interface::Seat,
                    if version < 7 {
                        version
                    } else {
                        7
                    },
                ),
            )
        }
    } else if same_text(interface, "wl_output") {
        if has_output {
            None
        } else {
            Some((Interface::Output, 1))
        }
    } else if same_text(interface, "zwlr_virtual_pointer_manager_v1") {
        Some(
            (
                Interface::PointerManager,
                if version < 2 {
                    version
                } else {
                    2
                },
            ),
        )
    } else if same_text(interface, "zwp_virtual_keyboard_manager_v1") {
        Some((Interface::KeyboardManager, 1))
    } else {
        None
    }
}

/// The smaller of two versions.
pub open spec fn at_most(version: u32, limit: u32) -> u32 {
    if version < limit {
        version
    } else {
        limit
    }
}

/// How the virtual devices are to be made.
#[derive(Clone, Copy, Debug, PartialEq, Eq, Structural)]
pub struct DevicePlan {
    /// Whether the pointer can be bound to the streamed output.
    pub bound_to_output: bool,
    /// Whether a keyboard is to be made, from the compositor's own keymap.
    pub keyboard: bool,
}

/// Why there is no remote control.
#[derive(Clone, Copy, Debug, PartialEq, Eq, Structural)]
pub enum NoControl {
    NoSeat,
    NoOutput,
    NoPointerManager,
}

/// How the virtual devices are made, or why they are not.
pub open spec fn devices_for(
    has_seat: bool,
    has_output: bool,
    pointer_manager: Option<u32>,
    has_keyboard_manager: bool,
    seat_has_keyboard: bool,
) -> Result<DevicePlan, NoControl> {
    match pointer_manager {
        _ if !has_seat => Err(NoControl::NoSeat),
        _ if !has_output => Err(NoControl::NoOutput),
        None => Err(NoControl::NoPointerManager),
        Some(version) => Ok(
            DevicePlan {
                bound_to_output: version >= 2,
                keyboard: has_keyboard_manager && seat_has_keyboard,
            },
        ),
    }
}

/// Decides how the virtual devices are made from what the compositor offers.
/// Without a seat, an output or a pointer manager there is no remote control;
/// without a keyboard manager, or a keyboard on the seat, the pointer alone is
/// controlled.
pub fn plan_devices(
    has_seat: bool,
    has_output: bool,
    pointer_manager: Option<u32>,
    has_keyboard_manager: bool,
    seat_has_keyboard: bool,
) -> (plan: Result<DevicePlan, NoControl>)
    ensures
        plan == devices_for(
            has_seat,
            has_output,
            pointer_manager,
            has_keyboard_manager,
            seat_has_keyboard,
        ),
        plan == (if !has_seat {
            Err(NoControl::NoSeat)
        } else if !has_output {
            Err(NoControl::NoOutput)
        } else if pointer_manager is None {
            Err(NoControl::NoPointerManager)
        } else {
            Ok(
                DevicePlan {
                    bound_to_output: pointer_manager->0 >= 2,
                    keyboard: has_keyboard_manager && seat_has_keyboard,
                },
            )
        }),
{
    if !has_seat {
        return Err(NoControl::NoSeat);
    }
    if !has_output {
        return Err(NoControl::NoOutput);
    }
    match pointer_manager {
        None => Err(NoControl::NoPointerManager),
        Some(version) => Ok(
            DevicePlan {
                bound_to_output: version >= 2,
                keyboard: has_keyboard_manager && seat_has_keyboard,
            },
        ),
    }
}

/// Whether a request scrolls along this axis.
pub open spec fn scrolls(request: Injection, along: bool) -> bool {
    request matches Injection::Scroll { vertical, .. } && vertical == along
}

/// Whether whole steps of about a hundred pixels go with a wheel delta: in its
/// direction, at least one, and no further from it than half a step.
pub open spec fn steps_fit(steps: int, delta: int) -> bool {
    &&& delta > 0 ==> steps >= 1
    &&& delta < 0 ==> steps <= -1
    &&& steps >= 2 || steps <= -2 ==> -50 <= steps * 100 - delta <= 50
    &&& steps == 1 ==> delta < 150
    &&& steps == -1 ==> delta > -150
}

/// A wheel turned by `dx` sideways and `dy` down scrolls sideways by `dx` and down
/// by `dy`: one request for an axis that moved, none for one that did not, at
/// fifteen hundredths to the pixel, and in whole steps too. The requests stand
/// between the mark of a wheel and the end of the frame, and nothing is held on
/// their account.
pub proof fn law_wheel_scrolls_its_own_axis(held: Held, dx: i16, dy: i16, keyboard: bool)
    ensures
        ({
            let event = InputEvent::PointerAxis { dx, dy };
            let r = injections(held, event, keyboard);
            &&& r.len() == 2 + (if dx != 0 {
                1int
            } else {
                0
            }) + (if dy != 0 {
                1int
            } else {
                0
            })
            &&& r[0] == Injection::WheelSource
            &&& r.last() == Injection::Frame
            &&& forall|k: int|
                0 < k < r.len() - 1 ==> (#[trigger] r[k] matches Injection::Scroll {
                    vertical,
                    hundredths,
                    steps,
                } && {
                    let delta: i16 = if vertical {
                        dy
                    } else {
                        dx
                    };
                    &&& delta != 0
                    &&& hundredths == delta * 15
                    &&& steps_fit(steps as int, delta as int)
                })
            &&& dy != 0 ==> exists|k: int| 0 <= k < r.len() && scrolls(#[trigger] r[k], true)
            &&& dx != 0 ==> exists|k: int| 0 <= k < r.len() && scrolls(#[trigger] r[k], false)
            &&& held_after(held, event, keyboard) == held
        }),
{
    let r = injections(held, InputEvent::PointerAxis { dx, dy }, keyboard);
    if dy != 0 {
        assert(scrolls(r[1], true));
        if dx != 0 {
            assert(scrolls(r[2], false));
        }
    } else if dx != 0 {
        assert(scrolls(r[1], false));
    }
}

/// Turning the wheel the other way scrolls the other way, by as much.
pub proof fn law_wheel_is_symmetric(delta: i16)
    requires
        delta > i16::MIN,
    ensures
        wheel_steps((-delta) as i16) == -wheel_steps(delta),
{
}

/// A further turn of the wheel never scrolls by fewer steps.
pub proof fn law_wheel_steps_grow(a: i16, b: i16)
    requires
        a <= b,
    ensures
        wheel_steps(a) <= wheel_steps(b),
{
}

/// The pointer goes where the client's pointer went: one motion, to that place,
/// and nothing else but the end of the frame.
pub proof fn law_motion_goes_where_the_client_points(held: Held, x: u16, y: u16, keyboard: bool)
    ensures
        ({
            let event = InputEvent::PointerMotion { x, y };
            let r = injections(held, event, keyboard);
            &&& r.contains(Injection::Motion { x, y })
            &&& r.last() == Injection::Frame
            &&& forall|k: int|
                0 <= k < r.len() - 1 ==> (#[trigger] r[k]) == (Injection::Motion { x, y })
            &&& r.len() == 2
            &&& held_after(held, event, keyboard) == held
        }),
{
    let r = injections(held, InputEvent::PointerMotion { x, y }, keyboard);
    assert(r[0] == Injection::Motion { x, y });
}

/// A button that is not yet as the client says is asked for once, and is then as
/// the client says; sent again, the same event asks for nothing. No other button
/// and no key is touched.
pub proof fn law_button_follows_the_client(
    held: Held,
    button: crate::protocol::MouseButton,
    pressed: bool,
    keyboard: bool,
)
    ensures
        ({
            let event = InputEvent::PointerButton { button, pressed };
            let code = evdev_button(button);
            let r = injections(held, event, keyboard);
            let after = held_after(held, event, keyboard);
            &&& after.buttons.contains(code) == pressed
            &&& forall|other: u32|
                other != code ==> (#[trigger] after.buttons.contains(other)
                    <==> held.buttons.contains(other))
            &&& after.keys == held.keys
            &&& after.locked == held.locked
            &&& injections(after, event, keyboard).len() == 0
            &&& held.buttons.contains(code) == pressed ==> r.len() == 0
            &&& held.buttons.contains(code) != pressed ==> {
                &&& r.len() == 2
                &&& r[0] == (Injection::Button { code, pressed })
                &&& r[1] == Injection::Frame
            }
        }),
{
}

/// A key that is not yet as the client says is forwarded first, and is then as the
/// client says; sent again, the same event asks for nothing, and neither does a
/// code that is no key or an event while there is no keyboard. No other key and no
/// button is touched.
pub proof fn law_key_follows_the_client(held: Held, code: u16, pressed: bool)
    ensures
        ({
            let event = InputEvent::Key { code, pressed };
            let r = injections(held, event, true);
            let after = held_after(held, event, true);
            &&& injections(held, event, false).len() == 0
            &&& held_after(held, event, false) == held
            &&& injections(after, event, true).len() == 0
            &&& after.buttons == held.buttons
            &&& forall|other: u16|
                other != code ==> (#[trigger] after.keys.contains(other) <==> held.keys.contains(
                    other,
                ))
            &&& if 1 <= code <= 0x2ff && held.keys.contains(code) != pressed {
                &&& after.keys.contains(code) == pressed
                &&& r.len() >= 1
                &&& r[0] == (Injection::Key { code, pressed })
                &&& r.len() <= 2
                &&& r.len() == 2 ==> r[1] is Modifiers
            } else {
                &&& r.len() == 0
                &&& after == held
            }
        }),
{
}

/// Each modifier is in force just while one of its keys is held, and no other bit
/// ever is: the shifts give 1, the controls 4, alt 8, the logo keys 64 and the
/// right alt 128.
pub proof fn law_modifiers_are_those_of_the_keys(keys: Set<u16>)
    ensures
        modifiers_held(keys) == (if keys.contains(42) || keys.contains(54) {
            1int
        } else {
            0
        }) + (if keys.contains(29) || keys.contains(97) {
            4int
        } else {
            0
        }) + (if keys.contains(56) {
            8int
        } else {
            0
        }) + (if keys.contains(125) || keys.contains(126) {
            64int
        } else {
            0
        }) + (if keys.contains(100) {
            128int
        } else {
            0
        }),
{
    lemma_bits_held(keys);
}

/// A lock key changes its own lock on every other press and on no release; every
/// other key leaves the locks alone.
pub proof fn law_locks_toggle_on_presses(locked: u32, code: u16)
    ensures
        locks_after(locked, code, false) == locked,
        locks_after(locks_after(locked, code, true), code, true) == locked,
        code == 58 ==> locks_after(locked, code, true) == locked ^ 2,
        code == 69 ==> locks_after(locked, code, true) == locked ^ 16,
        code != 58 && code != 69 ==> locks_after(locked, code, true) == locked,
        code == 58 || code == 69 ==> locks_after(locked, code, true) != locked,
{
    assert((locked ^ 2) ^ 2 == locked && (locked ^ 2) != locked) by (bit_vector);
    assert((locked ^ 16) ^ 16 == locked && (locked ^ 16) != locked) by (bit_vector);
}

/// Letting go of everything releases each key and each button that was held, once,
/// presses nothing, and clears the modifiers where a key was released. Without a
/// keyboard no key is mentioned.
pub proof fn law_everything_held_is_released(
    held: Held,
    keys: Seq<u16>,
    buttons: Seq<u32>,
    keyboard: bool,
)
    requires
        lists_keys(keys, held.keys),
        lists_buttons(buttons, held.buttons),
    ensures
        ({
            let r = releases(keys, buttons, held.locked, keyboard);
            &&& forall|code: u32|
                held.buttons.contains(code) <==> r.contains(
                    #[trigger] released_button(code),
                )
            &&& keyboard ==> forall|code: u16|
                held.keys.contains(code) <==> r.contains(#[trigger] released_key(code))
            &&& keyboard && keys.len() > 0 ==> r.contains(
                Injection::Modifiers { depressed: 0, locked: held.locked },
            )
            &&& forall|k: int|
                0 <= k < r.len() ==> match #[trigger] r[k] {
                    Injection::Button { pressed, .. } => !pressed,
                    Injection::Key { pressed, .. } => keyboard && !pressed,
                    Injection::Modifiers { depressed, locked } => keyboard && depressed == 0
                        && locked == held.locked,
                    Injection::Frame => true,
                    _ => false,
                }
            &&& forall|i: int, j: int|
                0 <= i < j < r.len() ==> #[trigger] r[i] != #[trigger] r[j]
        }),
{
    let r = releases(keys, buttons, held.locked, keyboard);
    let lead: nat = if keyboard && keys.len() > 0 {
        keys.len() + 1
    } else {
        0
    };
    assert forall|code: u32| held.buttons.contains(code) <==> r.contains(
        #[trigger] released_button(code),
    ) by {
        if held.buttons.contains(code) {
            assert(buttons.contains(code));
            let k = choose|k: int| 0 <= k < buttons.len() && buttons[k] == code;
            assert(r[lead + k] == released_button(code));
        }
        if r.contains(released_button(code)) {
            let k = choose|k: int| 0 <= k < r.len() && r[k] == released_button(code);
            assert(buttons[k - lead] == code);
            assert(buttons.contains(code));
        }
    }
    if keyboard {
        assert forall|code: u16| held.keys.contains(code) <==> r.contains(
            #[trigger] released_key(code),
        ) by {
            if held.keys.contains(code) {
                assert(keys.contains(code));
                let k = choose|k: int| 0 <= k < keys.len() && keys[k] == code;
                assert(r[k] == released_key(code));
            }
            if r.contains(released_key(code)) {
                let k = choose|k: int| 0 <= k < r.len() && r[k] == released_key(code);
                assert(keys[k] == code);
                assert(keys.contains(code));
            }
        }
        if keys.len() > 0 {
            assert(r[keys.len() as int] == Injection::Modifiers { depressed: 0, locked: held.locked });
        }
    }
}

/// The release of a button.
pub open spec fn released_button(code: u32) -> Injection {
    Injection::Button { code, pressed: false }
}

/// The release of a key.
pub open spec fn released_key(code: u16) -> Injection {
    Injection::Key { code, pressed: false }
}

/// Remote control needs a seat, an output and a pointer manager, and tells which of them is
/// missing; a keyboard needs a manager of its own and one on the seat, and the pointer
/// keeps to the streamed output from the manager's second version on.
pub proof fn law_control_needs_its_parts(
    has_seat: bool,
    has_output: bool,
    pointer_manager: Option<u32>,
    has_keyboard_manager: bool,
    seat_has_keyboard: bool,
)
    ensures
        ({
            let plan = devices_for(
                has_seat,
                has_output,
                pointer_manager,
                has_keyboard_manager,
                seat_has_keyboard,
            );
            &&& plan is Ok <==> has_seat && has_output && pointer_manager is Some
            &&& plan == Err::<DevicePlan, NoControl>(NoControl::NoSeat) <==> !has_seat
            &&& plan == Err::<DevicePlan, NoControl>(NoControl::NoOutput) ==> has_seat
                && !has_output
            &&& plan == Err::<DevicePlan, NoControl>(NoControl::NoPointerManager) ==> has_seat
                && has_output && pointer_manager is None
            &&& plan matches Ok(p) ==> {
                &&& p.keyboard <==> has_keyboard_manager && seat_has_keyboard
                &&& p.bound_to_output <==> pointer_manager->0 > 1
            }
        }),
{
}

/// No interface is bound at a higher version than is offered or known.
pub proof fn law_versions_are_offered_and_known(version: u32, limit: u32)
    ensures
        at_most(version, limit) <= version,
        at_most(version, limit) <= limit,
        at_most(version, limit) == version || at_most(version, limit) == limit,
{
}

/// With a key that changes the modifiers held or the locks, and with no other, goes what is
/// held and what is locked after it, each in its own place.
pub proof fn law_modifiers_are_sent_when_they_change(held: Held, code: u16, pressed: bool)
    requires
        1 <= code <= 0x2ff,
        held.keys.contains(code) != pressed,
    ensures
        ({
            let event = InputEvent::Key { code, pressed };
            let r = injections(held, event, true);
            let after = held_after(held, event, true);
            &&& after.locked == locks_after(held.locked, code, pressed)
            &&& r.len() == 2 <==> modifiers_held(after.keys) != modifiers_held(held.keys)
                || after.locked != held.locked
            &&& r.len() == 2 ==> (r[1] matches Injection::Modifiers { depressed, locked }
                && depressed == modifiers_held(after.keys) && locked == after.locked)
        }),
{
    let event = InputEvent::Key { code, pressed };
    law_key_follows_the_client(held, code, pressed);
    law_modifiers_follow_the_keys(held, code, pressed);
    law_modifiers_are_those_of_the_keys(held_after(held, event, true).keys);
}

/// Releases come keys first, then the modifiers, then the buttons, and a frame at the end
/// where there are buttons; nothing held gives nothing to do.
pub proof fn law_releases_are_in_order(keys: Seq<u16>, buttons: Seq<u32>, locked: u32, keyboard: bool)
    ensures
        ({
            let r = releases(keys, buttons, locked, keyboard);
            let n = if keyboard && keys.len() > 0 {
                keys.len() + 1
            } else {
                0
            };
            let m = if buttons.len() > 0 {
                buttons.len() + 1
            } else {
                0
            };
            &&& r.len() == n + m
            &&& buttons.len() > 0 ==> r.last() == Injection::Frame
            &&& n > 0 ==> r[n - 1] is Modifiers
            &&& forall|k: int| 0 <= k < n - 1 ==> (#[trigger] r[k]) is Key
            &&& forall|k: int| n <= k < n + m - 1 ==> (#[trigger] r[k]) is Button
        }),
{
}

} // verus!
