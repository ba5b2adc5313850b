//! Keyboard state tracking.

use vstd::prelude::*;
use vstd::std_specs::iter::IteratorSpec;

verus! {

/// The four observable states of a button or key across frames.
#[derive(Copy, Clone, Eq, PartialEq, Structural, Hash, Debug)]
pub enum ButtonState {
    JustPressed,
    Pressed,
    JustReleased,
    Released,
}

impl ButtonState {
    /// The state one frame later with no intervening event: freshly pressed
    /// keys are now held, freshly released ones are now idle.
    pub fn advance(&mut self)
        ensures
            *final(self) == spec_advance(*old(self)),
    {
        *self = match *self {
            ButtonState::JustPressed => ButtonState::Pressed,
            ButtonState::JustReleased => ButtonState::Released,
            ButtonState::Pressed => ButtonState::Pressed,
            ButtonState::Released => ButtonState::Released,
        }
    }

    /// Held down, whether freshly or not.
    pub fn is_pressed(self) -> (b: bool)
        ensures
            b == (self == ButtonState::JustPressed || self == ButtonState::Pressed),
    {
        match self {
            ButtonState::JustPressed => true,
            ButtonState::Pressed => true,
            _ => false,
        }
    }
}

/// The state one frame later with no intervening event.
pub open spec fn spec_advance(s: ButtonState) -> ButtonState {
    match s {
        ButtonState::JustPressed => ButtonState::Pressed,
        ButtonState::JustReleased => ButtonState::Released,
        ButtonState::Pressed => ButtonState::Pressed,
        ButtonState::Released => ButtonState::Released,
    }
}

impl Default for ButtonState {
    fn default() -> (r: ButtonState)
        ensures
            r == ButtonState::Released,
    {
        ButtonState::Released
    }
}

/// Per-frame keyboard state: which keys went down this frame, which are held,
/// which went up, and the text entered.
#[derive(Debug)]
pub struct Keyboard {
    just_pressed: Vec<Key>,
    pressed: Vec<Key>,
    just_released: Vec<Key>,
    input: Vec<char>,
}

pub open spec fn key_in(s: Seq<Key>, key: Key) -> bool {
    exists|i: int| 0 <= i < s.len() && s[i] == key
}

impl Keyboard {
    pub closed spec fn just_pressed_view(self) -> Seq<Key> {
        self.just_pressed@
    }

    pub closed spec fn pressed_view(self) -> Seq<Key> {
        self.pressed@
    }

    pub closed spec fn just_released_view(self) -> Seq<Key> {
        self.just_released@
    }

    pub closed spec fn input_view(self) -> Seq<char> {
        self.input@
    }

    /// The state that `key` is observed in this frame.
    pub open spec fn spec_key_state(self, key: Key) -> ButtonState {
        if key_in(self.pressed_view(), key) {
            ButtonState::Pressed
        } else if key_in(self.just_pressed_view(), key) {
            ButtonState::JustPressed
        } else if key_in(self.just_released_view(), key) {
            ButtonState::JustReleased
        } else {
            ButtonState::Released
        }
    }

    pub fn new() -> (r: Keyboard)
        ensures
            r.just_pressed_view().len() == 0,
            r.pressed_view().len() == 0,
            r.just_released_view().len() == 0,
            r.input_view().len() == 0,
    {
        Keyboard { just_pressed: Vec::new(), pressed: Vec::new(), just_released: Vec::new(),
            input: Vec::new() }
    }

    /// Rolls the frame over: freshly pressed keys become held, release and
    /// text buffers are cleared.
    pub fn advance(&mut self)
        ensures
            final(self).just_released_view().len() == 0,
            final(self).just_pressed_view().len() == 0,
            final(self).input_view().len() == 0,
            final(self).pressed_view() == old(self).pressed_view() + old(
                self,
            ).just_pressed_view(),
    {
        self.just_released.clear();
        let mut i: usize = 0;
        let ghost p0 = self.pressed@;
        while i < self.just_pressed.len()
            invariant
                i <= self.just_pressed@.len(),
                self.pressed@ == p0 + self.just_pressed@.subrange(0, i as int),
                p0 == old(self).pressed@,
                self.just_pressed@ == old(self).just_pressed@,
                self.just_released@.len() == 0,
            decreases self.just_pressed@.len() - i,
        {
            self.pressed.push(self.just_pressed[i]);
            proof {
                assert(self.pressed@ =~= p0 + self.just_pressed@.subrange(0, i + 1 as int));
            }
            i += 1;
        }
        proof {
            assert(self.pressed@ =~= p0 + self.just_pressed@);
        }
        self.just_pressed.clear();
        self.input.clear();
    }

    /// Records that `key` went down this frame.
    pub fn press(&mut self, key: Key)
        ensures
            final(self).just_pressed_view() == old(self).just_pressed_view().push(key),
            final(self).pressed_view() == old(self).pressed_view(),
            final(self).just_released_view() == old(self).just_released_view(),
            final(self).input_view() == old(self).input_view(),
    {
        self.just_pressed.push(key);
    }

    /// Records that `key` went up this frame: it leaves both pressed buffers.
    pub fn release(&mut self, key: Key)
        ensures
            final(self).just_released_view() == old(self).just_released_view().push(key),
            !key_in(final(self).pressed_view(), key),
            !key_in(final(self).just_pressed_view(), key),
            forall|k: Key|
                k != key ==> (key_in(final(self).pressed_view(), k) == key_in(
                    old(self).pressed_view(),
                    k,
                ) && key_in(final(self).just_pressed_view(), k) == key_in(
                    old(self).just_pressed_view(),
                    k,
                )),
            final(self).input_view() == old(self).input_view(),
    {
        self.just_released.push(key);
        let pressed2 = retain_without(&self.pressed, key);
        self.pressed = pressed2;
        let just2 = retain_without(&self.just_pressed, key);
        self.just_pressed = just2;
    }

    /// Appends one entered character to the frame's text.
    pub fn enter_char(&mut self, c: char)
        ensures
            final(self).input_view() == old(self).input_view().push(c),
            final(self).pressed_view() == old(self).pressed_view(),
            final(self).just_pressed_view() == old(self).just_pressed_view(),
            final(self).just_released_view() == old(self).just_released_view(),
    {
        self.input.push(c);
    }

    /// Appends entered text, character by character.
    pub fn enter_str(&mut self, text: &str)
        ensures
            final(self).input_view() == old(self).input_view() + text@,
            final(self).pressed_view() == old(self).pressed_view(),
            final(self).just_pressed_view() == old(self).just_pressed_view(),
            final(self).just_released_view() == old(self).just_released_view(),
    {
        proof {
            broadcast use vstd::string::axiom_spec_iter;
            broadcast use vstd::string::next_postcondition;
        }
        let ghost input0 = self.input@;
        let mut it = text.chars();
        let mut done = false;
        while !done
            invariant
                self.pressed@ == old(self).pressed@,
                self.just_pressed@ == old(self).just_pressed@,
                self.just_released@ == old(self).just_released@,
                it.obeys_prophetic_iter_laws(),
                !done ==> self.input@ + it.remaining() == input0 + text@,
                done ==> self.input@ == input0 + text@,
                input0.len() <= self.input@.len(),
                self.input@.len() - input0.len() <= text@.len(),
            decreases (if done {
                0int
            } else {
                text@.len() + 1 - (self.input@.len() - input0.len())
            }),
        {
            proof {
                broadcast use vstd::string::next_postcondition;
            }
            match it.next() {
                Some(c) => {
                    self.input.push(c);
                    proof {
                        assert(self.input@ + it.remaining() =~= input0 + text@);
                    }
                },
                None => {
                    done = true;
                    proof {
                        assert(self.input@ =~= input0 + text@);
                    }
                },
            }
        }
    }

    /// The state that `key` is observed in this frame.
    pub fn key_state(&self, key: Key) -> (r: ButtonState)
        ensures
            r == self.spec_key_state(key),
    {
        if contains_key(&self.pressed, key) {
            ButtonState::Pressed
        } else if contains_key(&self.just_pressed, key) {
            ButtonState::JustPressed
        } else if contains_key(&self.just_released, key) {
            ButtonState::JustReleased
        } else {
            ButtonState::Released
        }
    }

    /// Whether `key` is held down, freshly or not.
    pub fn is_pressed(&self, key: Key) -> (b: bool)
        ensures
            b == (self.spec_key_state(key) == ButtonState::Pressed || self.spec_key_state(key)
                == ButtonState::JustPressed),
    {
        let state = self.key_state(key);
        state.is_pressed()
    }

    /// The text entered this frame, in order.
    pub fn entered(&self) -> (r: &[char])
        ensures
            r@ == self.input_view(),
    {
        self.input.as_slice()
    }

    /// All keys held down from an earlier frame.
    pub fn all_pressed(&self) -> (r: &[Key])
        ensures
            r@ == self.pressed_view(),
    {
        self.pressed.as_slice()
    }

    /// All keys that went down this frame.
    pub fn all_just_pressed(&self) -> (r: &[Key])
        ensures
            r@ == self.just_pressed_view(),
    {
        self.just_pressed.as_slice()
    }

    /// All keys that went up this frame.
    pub fn all_just_released(&self) -> (r: &[Key])
        ensures
            r@ == self.just_released_view(),
    {
        self.just_released.as_slice()
    }
}

impl Default for Keyboard {
    fn default() -> (r: Keyboard)
        ensures
            r.just_pressed_view().len() == 0,
            r.pressed_view().len() == 0,
            r.just_released_view().len() == 0,
            r.input_view().len() == 0,
    {
        Keyboard::new()
    }
}

/// Whether `key` occurs in the vector.
fn contains_key(v: &Vec<Key>, key: Key) -> (b: bool)
    ensures
        b == key_in(v@, key),
{
    let mut i: usize = 0;
    while i < v.len()
        invariant
            i <= v@.len(),
            forall|j: int| 0 <= j < i ==> v@[j] != key,
        decreases v@.len() - i,
    {
        if v[i] == key {
            return true;
        }
        i += 1;
    }
    false
}

/// A fresh vector holding the entries other than `key`, in order.
fn retain_without(v: &Vec<Key>, key: Key) -> (r: Vec<Key>)
    ensures
        !key_in(r@, key),
        forall|k: Key| k != key ==> key_in(r@, k) == key_in(v@, k),
{
    let mut r: Vec<Key> = Vec::new();
    let mut i: usize = 0;
    while i < v.len()
        invariant
            i <= v@.len(),
            forall|j: int| 0 <= j < r@.len() ==> #[trigger] r@[j] != key,
            forall|k: Key| k != key ==> (key_in(r@, k) == key_in(v@.subrange(0, i as int), k)),
        decreases v@.len() - i,
    {
        let ghost rpre = r@;
        if v[i] != key {
            r.push(v[i]);
        }
        proof {
            assert forall|k: Key| k != key implies key_in(r@, k) == key_in(
                v@.subrange(0, i + 1 as int),
                k,
            ) by {
                let pre = v@.subrange(0, i as int);
                let cur = v@.subrange(0, i + 1 as int);
                assert(cur.drop_last() =~= pre);
                assert(cur.last() == v@[i as int]);
                if key_in(cur, k) {
                    let j = choose|j: int| 0 <= j < cur.len() && cur[j] == k;
                    if j < i {
                        assert(pre[j] == k);
                        assert(key_in(pre, k));
                    }
                }
                if key_in(pre, k) {
                    let j = choose|j: int| 0 <= j < pre.len() && pre[j] == k;
                    assert(cur[j] == k);
                }
                if v@[i as int] != key && v@[i as int] == k {
                    assert(r@[r@.len() - 1] == k);
                }
                if key_in(rpre, k) {
                    let j = choose|j: int| 0 <= j < rpre.len() && rpre[j] == k;
                    assert(r@[j] == k);
                }
                if key_in(r@, k) && !key_in(rpre, k) {
                    let j = choose|j: int| 0 <= j < r@.len() && r@[j] == k;
                    assert(j == r@.len() - 1 || rpre[j] == k);
                }
            }
        }
        i += 1;
    }
    proof {
        assert(v@.subrange(0, v@.len() as int) =~= v@);
    }
    r
}

/// A mouse button.
#[derive(Copy, Clone, Eq, PartialEq, Structural, Hash, Debug)]
pub enum MouseButton {
    Left,
    Right,
    Middle,
}

/// Where a touch stands in its lifecycle.
#[derive(Copy, Clone, Eq, PartialEq, Structural, Debug)]
pub enum TouchPhase {
    Started,
    Moved,
    Ended,
    Cancelled,
}

/// A physical key.
#[derive(Copy, Clone, Eq, PartialEq, Structural, Hash, Debug)]
pub enum Key {
    /// The '1' key over the letters.
    Key1,
    /// The '2' key over the letters.
    Key2,
    /// The '3' key over the letters.
    Key3,
    /// The '4' key over the letters.
    Key4,
    /// The '5' key over the letters.
    Key5,
    /// The '6' key over the letters.
    Key6,
    /// The '7' key over the letters.
    Key7,
    /// The '8' key over the letters.
    Key8,
    /// The '9' key over the letters.
    Key9,
    /// The '0' key over the 'O' and 'P' keys.
    Key0,
    A,
    B,
    C,
    D,
    E,
    F,
    G,
    H,
    I,
    J,
    K,
    L,
    M,
    N,
    O,
    P,
    Q,
    R,
    S,
    T,
    U,
    V,
    W,
    X,
    Y,
    Z,
    /// The Escape key, next to F1.
    Escape,
    F1,
    F2,
    F3,
    F4,
    F5,
    F6,
    F7,
    F8,
    F9,
    F10,
    F11,
    F12,
    F13,
    F14,
    F15,
    /// Print Screen/SysRq.
    Snapshot,
    /// Scroll Lock.
    Scroll,
    /// Pause/Break key, next to Scroll lock.
    Pause,
    /// `Insert`, next to Backspace.
    Insert,
    Home,
    Delete,
    End,
    PageDown,
    PageUp,
    Left,
    Up,
    Right,
    Down,
    /// The Backspace key, right over Enter.
    Backspace,
    /// The Enter key.
    Return,
    /// The space bar.
    Space,
    /// The "Compose" key on Linux.
    Compose,
    Numlock,
    Numpad0,
    Numpad1,
    Numpad2,
    Numpad3,
    Numpad4,
    Numpad5,
    Numpad6,
    Numpad7,
    Numpad8,
    Numpad9,
    AbntC1,
    AbntC2,
    Add,
    Apostrophe,
    Apps,
    At,
    Ax,
    Backslash,
    Calculator,
    Capital,
    Colon,
    Comma,
    Convert,
    Decimal,
    Divide,
    Equals,
    Grave,
    Kana,
    Kanji,
    LAlt,
    LBracket,
    LControl,
    LMenu,
    LShift,
    LWin,
    Mail,
    MediaSelect,
    MediaStop,
    Minus,
    Multiply,
    Mute,
    MyComputer,
    NavigateForward,
    NavigateBackward,
    NextTrack,
    NoConvert,
    NumpadComma,
    NumpadEnter,
    NumpadEquals,
    OEM102,
    Period,
    PlayPause,
    Power,
    PrevTrack,
    RAlt,
    RBracket,
    RControl,
    RMenu,
    RShift,
    RWin,
    Semicolon,
    Slash,
    Sleep,
    Stop,
    Subtract,
    Sysrq,
    Tab,
    Underline,
    Unlabeled,
    VolumeDown,
    VolumeUp,
    Wake,
    WebBack,
    WebFavorites,
    WebForward,
    WebHome,
    WebRefresh,
    WebSearch,
    WebStop,
    Yen,
}

} // verus!
