//! Keyboard state kept from frame to frame: the keys held down, and the keys
//! pressed and released since the last reset.

use vstd::prelude::*;

verus! {

/// Whether a keyboard event reports a key going down or coming up.
#[derive(Clone, Copy, Debug, PartialEq, Eq, Structural)]
pub enum KeyState {
    Pressed,
    Released,
}

/// One keyboard event: the code of the key it concerns, if the key has one,
/// and whether the key went down or came up.
#[derive(Clone, Copy, Debug, PartialEq, Eq, Structural)]
pub struct KeyInput {
    pub key: Option<u32>,
    pub state: KeyState,
}

/// The keys held down, and the keys pressed and released since the presses
/// were last reset, in the order in which the events came.
#[derive(Clone, Debug)]
pub struct KeyboardState {
    pub keys_down: Vec<u32>,
    pub keys_pressed: Vec<u32>,
    pub keys_released: Vec<u32>,
}

/// The contents of a keyboard state.
pub ghost struct KeyboardView {
    pub down: Seq<u32>,
    pub pressed: Seq<u32>,
    pub released: Seq<u32>,
}

impl View for KeyboardState {
    type V = KeyboardView;

    open spec fn view(&self) -> KeyboardView {
        KeyboardView { down: self.keys_down@, pressed: self.keys_pressed@, released: self.keys_released@ }
    }
}

/// Keeps every key but `key`.
pub open spec fn other_than(key: u32) -> spec_fn(u32) -> bool {
    |k: u32| k != key
}

/// The state after one keyboard event: a press of a key that is not held down
/// adds it to the held and pressed keys (a press of a held key changes nothing);
/// a release removes the key from the held keys and adds it to the released keys;
/// an event without a key code changes nothing.
pub open spec fn key_step(v: KeyboardView, input: KeyInput) -> KeyboardView {
    match input.key {
        None => v,
        Some(k) => match input.state {
            KeyState::Pressed => if v.down.contains(k) {
                v
            } else {
                KeyboardView { down: v.down.push(k), pressed: v.pressed.push(k), released: v.released }
            },
            KeyState::Released => KeyboardView {
                down: v.down.filter(other_than(k)),
                pressed: v.pressed,
                released: v.released.push(k),
            },
        },
    }
}

/// The state after the events, in order.
pub open spec fn key_steps(v: KeyboardView, events: Seq<KeyInput>) -> KeyboardView
    decreases events.len(),
{
    if events.len() == 0 {
        v
    } else {
        key_step(key_steps(v, events.drop_last()), events.last())
    }
}

/// The state with the presses and releases forgotten.
pub open spec fn reset_view(v: KeyboardView) -> KeyboardView {
    KeyboardView { down: v.down, pressed: Seq::empty(), released: Seq::empty() }
}

/// Whether `key` occurs in `keys`.
fn contains_key(keys: &Vec<u32>, key: u32) -> (res: bool)
    ensures
        res == keys@.contains(key),
{
    let mut i: usize = 0;
    while i < keys.len()
        invariant
            i <= keys@.len(),
            forall|j: int| 0 <= j < i ==> keys@[j] != key,
        decreases keys@.len() - i,
    {
        if keys[i] == key {
            assert(keys@[i as int] == key);
            return true;
        }
        i = i + 1;
    }
    false
}

/// `keys` without any occurrence of `key`, in order.
fn remove_key(keys: &Vec<u32>, key: u32) -> (res: Vec<u32>)
    ensures
        res@ == keys@.filter(other_than(key)),
{
    let mut out: Vec<u32> = Vec::new();
    let mut i: usize = 0;
    proof {
        reveal_with_fuel(Seq::filter, 1);
        assert(keys@.take(0) =~= Seq::<u32>::empty());
    }
    while i < keys.len()
        invariant
            i <= keys@.len(),
            out@ == keys@.take(i as int).filter(other_than(key)),
        decreases keys@.len() - i,
    {
        proof {
            reveal_with_fuel(Seq::filter, 1);
            assert(keys@.take(i + 1).drop_last() =~= keys@.take(i as int));
        }
        if keys[i] != key {
            out.push(keys[i]);
        }
        i = i + 1;
    }
    assert(keys@.take(keys@.len() as int) =~= keys@);
    out
}

/// The key state that the last event on `key` among `events` left it in, if any event concerns it.
pub open spec fn last_event_on(events: Seq<KeyInput>, key: u32) -> Option<KeyState>
    decreases events.len(),
{
    if events.len() == 0 {
        None
    } else if events.last().key == Some(key) {
        Some(events.last().state)
    } else {
        last_event_on(events.drop_last(), key)
    }
}

/// Removing every occurrence of one key keeps exactly the other keys.
pub proof fn lemma_filter_other_than(s: Seq<u32>, key: u32, k: u32)
    ensures
        s.filter(other_than(key)).contains(k) <==> s.contains(k) && k != key,
{
    broadcast use Seq::lemma_filter_contains_rev;
    if s.contains(k) && k != key {
        let i = choose|i: int| 0 <= i < s.len() && s[i] == k;
        s.lemma_filter_contains(other_than(key), i);
    }
    if s.filter(other_than(key)).contains(k) {
        let i = choose|i: int| 0 <= i < s.filter(other_than(key)).len() && s.filter(other_than(key))[i] == k;
        s.lemma_filter_pred(other_than(key), i);
    }
}

proof fn lemma_filter_no_duplicates(s: Seq<u32>, key: u32)
    requires
        s.no_duplicates(),
    ensures
        s.filter(other_than(key)).no_duplicates(),
    decreases s.len(),
{
    reveal_with_fuel(Seq::filter, 1);
    if s.len() > 0 {
        let rest = s.drop_last();
        assert(rest.no_duplicates());
        lemma_filter_no_duplicates(rest, key);
        lemma_filter_other_than(rest, key, s.last());
        assert(!rest.contains(s.last()));
    }
}

/// A key is held at most once: every keyboard event keeps the held keys free of
/// duplicates.
pub proof fn lemma_step_keeps_held_keys_distinct(v: KeyboardView, input: KeyInput)
    requires
        v.down.no_duplicates(),
    ensures
        key_step(v, input).down.no_duplicates(),
{
    if let Some(k) = input.key {
        if input.state == KeyState::Released {
            lemma_filter_no_duplicates(v.down, k);
        }
    }
}

/// After an event on `key`, the key is held exactly when the event is a press;
/// every other key is held exactly as before.
pub proof fn lemma_step_holds_pressed_key(v: KeyboardView, key: u32, state: KeyState, k: u32)
    ensures
        key_step(v, KeyInput { key: Some(key), state }).down.contains(k) == if k == key {
            state == KeyState::Pressed
        } else {
            v.down.contains(k)
        },
{
    lemma_filter_other_than(v.down, key, k);
    if state == KeyState::Pressed && !v.down.contains(key) {
        assert(v.down.push(key)[v.down.len() as int] == key);
        if k != key && v.down.push(key).contains(k) {
            let i = choose|i: int| 0 <= i < v.down.push(key).len() && v.down.push(key)[i] == k;
            assert(v.down[i] == k);
        }
        if k != key && v.down.contains(k) {
            let i = choose|i: int| 0 <= i < v.down.len() && v.down[i] == k;
            assert(v.down.push(key)[i] == k);
        }
    }
}

/// After a frame's events, a key is held exactly when the last event on it was a
/// press, or, where no event concerns it, when it was held before.
pub proof fn lemma_held_follows_last_event(v: KeyboardView, events: Seq<KeyInput>, k: u32)
    ensures
        key_steps(v, events).down.contains(k) == match last_event_on(events, k) {
            Some(state) => state == KeyState::Pressed,
            None => v.down.contains(k),
        },
    decreases events.len(),
{
    if events.len() > 0 {
        lemma_held_follows_last_event(v, events.drop_last(), k);
        let before = key_steps(v, events.drop_last());
        let e = events.last();
        if let Some(key) = e.key {
            lemma_step_holds_pressed_key(before, key, e.state, k);
        }
    }
}

/// After a frame's events, a key counts as released exactly when it did before or
/// some event released it.
pub proof fn lemma_released_iff_release_event(v: KeyboardView, events: Seq<KeyInput>, k: u32)
    ensures
        key_steps(v, events).released.contains(k) == (v.released.contains(k) || exists|i: int|
            0 <= i < events.len() && #[trigger] events[i] == (KeyInput { key: Some(k), state: KeyState::Released })),
    decreases events.len(),
{
    let rel = KeyInput { key: Some(k), state: KeyState::Released };
    if events.len() > 0 {
        let rest = events.drop_last();
        lemma_released_iff_release_event(v, rest, k);
        let before = key_steps(v, rest);
        let after = key_steps(v, events);
        let e = events.last();
        if after.released.contains(k) && !before.released.contains(k) {
            assert(after.released != before.released);
            assert(events[events.len() - 1] == rel);
        }
        if exists|i: int| 0 <= i < events.len() && #[trigger] events[i] == rel {
            let i = choose|i: int| 0 <= i < events.len() && #[trigger] events[i] == rel;
            if i < events.len() - 1 {
                assert(rest[i] == rel);
            } else {
                assert(after.released == before.released.push(k));
                assert(after.released[before.released.len() as int] == k);
            }
        }
        if before.released.contains(k) {
            let j = choose|j: int| 0 <= j < before.released.len() && before.released[j] == k;
            if after.released != before.released {
                assert(after.released[j] == k);
            }
        }
        if after.released.contains(k) && after.released != before.released {
            let j = choose|j: int| 0 <= j < after.released.len() && after.released[j] == k;
            if j < before.released.len() {
                assert(before.released[j] == k);
            }
        }
        if exists|i: int| 0 <= i < rest.len() && #[trigger] rest[i] == rel {
            let i = choose|i: int| 0 <= i < rest.len() && #[trigger] rest[i] == rel;
            assert(events[i] == rel);
        }
    }
}

proof fn lemma_push_contains(s: Seq<u32>, a: u32, k: u32)
    ensures
        s.push(a).contains(k) == (s.contains(k) || a == k),
{
    if s.push(a).contains(k) && a != k {
        let i = choose|i: int| 0 <= i < s.push(a).len() && s.push(a)[i] == k;
        assert(s[i] == k);
    }
    if s.contains(k) {
        let i = choose|i: int| 0 <= i < s.len() && s[i] == k;
        assert(s.push(a)[i] == k);
    }
    if a == k {
        assert(s.push(a)[s.len() as int] == k);
    }
}

/// After a frame's events, a key counts as pressed exactly when it did before or
/// some event pressed it while it was not held.
pub proof fn lemma_pressed_iff_fresh_press(v: KeyboardView, events: Seq<KeyInput>, k: u32)
    ensures
        key_steps(v, events).pressed.contains(k) == (v.pressed.contains(k) || exists|i: int|
            0 <= i < events.len() && #[trigger] events[i] == (KeyInput { key: Some(k), state: KeyState::Pressed })
                && !key_steps(v, events.take(i)).down.contains(k)),
    decreases events.len(),
{
    let pr = KeyInput { key: Some(k), state: KeyState::Pressed };
    if events.len() > 0 {
        let rest = events.drop_last();
        lemma_pressed_iff_fresh_press(v, rest, k);
        let before = key_steps(v, rest);
        let after = key_steps(v, events);
        let e = events.last();
        let last = events.len() - 1;
        assert(events.take(last) =~= rest);
        let fresh_last = e == pr && !before.down.contains(k);
        // the pressed keys grow by the last event's key exactly when it is a fresh press
        match e.key {
            Some(k2) => {
                if e.state == KeyState::Pressed && !before.down.contains(k2) {
                    lemma_push_contains(before.pressed, k2, k);
                    assert(after.pressed.contains(k) == (before.pressed.contains(k) || k2 == k));
                } else {
                    assert(after.pressed == before.pressed);
                }
            },
            None => {},
        }
        assert(after.pressed.contains(k) == (before.pressed.contains(k) || fresh_last));
        let cond = |i: int|
            0 <= i < events.len() && events[i] == pr && !key_steps(v, events.take(i)).down.contains(k);
        let cond_rest = |i: int|
            0 <= i < rest.len() && rest[i] == pr && !key_steps(v, rest.take(i)).down.contains(k);
        assert forall|i: int| 0 <= i < rest.len() implies #[trigger] cond(i) == cond_rest(i) by {
            assert(rest.take(i) =~= events.take(i));
        }
        if exists|i: int|
            0 <= i < events.len() && #[trigger] events[i] == pr && !key_steps(v, events.take(i)).down.contains(
                k,
            ) {
            let i = choose|i: int|
                0 <= i < events.len() && #[trigger] events[i] == pr && !key_steps(
                    v,
                    events.take(i),
                ).down.contains(k);
            if i < last {
                assert(cond(i));
                assert(cond_rest(i));
                assert(rest[i] == pr);
            }
        }
        if exists|i: int|
            0 <= i < rest.len() && #[trigger] rest[i] == pr && !key_steps(v, rest.take(i)).down.contains(k) {
            let i = choose|i: int|
                0 <= i < rest.len() && #[trigger] rest[i] == pr && !key_steps(v, rest.take(i)).down.contains(
                    k,
                );
            assert(cond(i));
            assert(events[i] == pr);
        }
        if fresh_last {
            assert(cond(last));
            assert(events[last] == pr);
        }
    }
}

/// Resetting the presses keeps the held keys and forgets only the presses and releases.
pub proof fn lemma_reset_keeps_held(v: KeyboardView)
    ensures
        reset_view(v).down == v.down,
        reset_view(v).pressed.len() == 0,
        reset_view(v).released.len() == 0,
{
}

/// A held key stays held through a frame in which no event concerns it, however
/// many frames it has been held: frames start from a reset, which keeps it.
pub proof fn lemma_held_through_quiet_frame(v: KeyboardView, events: Seq<KeyInput>, k: u32)
    requires
        v.down.contains(k),
        forall|i: int| 0 <= i < events.len() ==> (#[trigger] events[i]).key != Some(k),
    ensures
        key_steps(reset_view(v), events).down.contains(k),
    decreases events.len(),
{
    if events.len() > 0 {
        let rest = events.drop_last();
        assert forall|i: int| 0 <= i < rest.len() implies (#[trigger] rest[i]).key != Some(k) by {
            assert(rest[i] == events[i]);
        }
        lemma_held_through_quiet_frame(v, rest, k);
        let e = events.last();
        assert(e == events[events.len() - 1]);
        if let Some(key) = e.key {
            lemma_step_holds_pressed_key(key_steps(reset_view(v), rest), key, e.state, k);
        }
    }
}

impl Default for KeyboardState {
    /// A keyboard with no key held, pressed or released.
    fn default() -> (res: KeyboardState)
        ensures
            res@.down == Seq::<u32>::empty(),
            res@.pressed == Seq::<u32>::empty(),
            res@.released == Seq::<u32>::empty(),
    {
        KeyboardState::new()
    }
}

impl KeyboardState {
    /// A keyboard with no key held, pressed or released.
    pub fn new() -> (res: KeyboardState)
        ensures
            res@.down == Seq::<u32>::empty(),
            res@.pressed == Seq::<u32>::empty(),
            res@.released == Seq::<u32>::empty(),
    {
        KeyboardState { keys_down: Vec::new(), keys_pressed: Vec::new(), keys_released: Vec::new() }
    }

    /// Whether `key` is held down.
    pub fn is_pressed(&self, key: u32) -> (res: bool)
        ensures
            res == self@.down.contains(key),
    {
        contains_key(&self.keys_down, key)
    }

    /// Whether `key` was pressed since the last reset.
    pub fn was_pressed(&self, key: u32) -> (res: bool)
        ensures
            res == self@.pressed.contains(key),
    {
        contains_key(&self.keys_pressed, key)
    }

    /// Whether `key` was released since the last reset.
    pub fn was_released(&self, key: u32) -> (res: bool)
        ensures
            res == self@.released.contains(key),
    {
        contains_key(&self.keys_released, key)
    }

    /// Forgets the presses and releases; the held keys stay.
    pub fn reset_presses(&mut self)
        ensures
            final(self)@ == reset_view(old(self)@),
            final(self)@.down == old(self)@.down,
            final(self)@.pressed.len() == 0,
            final(self)@.released.len() == 0,
    {
        self.keys_pressed = Vec::new();
        self.keys_released = Vec::new();
    }

    /// Applies one keyboard event.
    pub fn process_keyboard_input(&mut self, input: KeyInput)
        ensures
            final(self)@ == key_step(old(self)@, input),
    {
        match input.key {
            None => {},
            Some(key) => match input.state {
                KeyState::Pressed => {
                    if !contains_key(&self.keys_down, key) {
                        self.keys_down.push(key);
                        self.keys_pressed.push(key);
                    }
                },
                KeyState::Released => {
                    self.keys_down = remove_key(&self.keys_down, key);
                    self.keys_released.push(key);
                },
            },
        }
    }

    /// Starts a new frame: forgets the presses and releases, then applies the
    /// frame's keyboard events in order.
    pub fn process_events(&mut self, events: &Vec<KeyInput>)
        ensures
            final(self)@ == key_steps(reset_view(old(self)@), events@),
    {
        self.reset_presses();
        let mut i: usize = 0;
        while i < events.len()
            invariant
                i <= events@.len(),
                self@ == key_steps(reset_view(old(self)@), events@.take(i as int)),
            decreases events@.len() - i,
        {
            assert(events@.take(i + 1).drop_last() =~= events@.take(i as int));
            self.process_keyboard_input(events[i]);
            i = i + 1;
        }
        assert(events@.take(events@.len() as int) =~= events@);
    }
}

} // verus!
