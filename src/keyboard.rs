//! The state of the keyboard in one frame.
use vstd::prelude::*;
use vstd::string::*;

verus! {

/// Which modifiers are held, and which keys are held, were pressed, were
/// released, or fired (pressed or repeating) this frame, by name.
pub struct Keyboard {
    pub shift_held: bool,
    pub lshift_held: bool,
    pub rshift_held: bool,
    pub ctrl_held: bool,
    pub lctrl_held: bool,
    pub rctrl_held: bool,
    pub alt_held: bool,
    pub lalt_held: bool,
    pub ralt_held: bool,
    pub capslock: bool,
    pub held_keys: Vec<String>,
    pub newly_pressed_keys: Vec<String>,
    pub released_keys: Vec<String>,
    pub triggered_keys: Vec<String>,
}

impl Keyboard {
    /// Nothing held, nothing pressed.
    pub fn new() -> (r: Self)
        ensures
            !r.shift_held && !r.lshift_held && !r.rshift_held,
            !r.ctrl_held && !r.lctrl_held && !r.rctrl_held,
            !r.alt_held && !r.lalt_held && !r.ralt_held,
            !r.capslock,
            r.held_keys@.len() == 0,
            r.newly_pressed_keys@.len() == 0,
            r.released_keys@.len() == 0,
            r.triggered_keys@.len() == 0,
    {
        Keyboard {
            shift_held: false,
            lshift_held: false,
            rshift_held: false,
            ctrl_held: false,
            lctrl_held: false,
            rctrl_held: false,
            alt_held: false,
            lalt_held: false,
            ralt_held: false,
            capslock: false,
            held_keys: Vec::new(),
            newly_pressed_keys: Vec::new(),
            released_keys: Vec::new(),
            triggered_keys: Vec::new(),
        }
    }
}

/// The keybindings the host found active this frame.
#[derive(Clone, Copy, Debug, PartialEq, Eq, Structural)]
pub struct Bindings {
    pub copy: bool,
    pub cut: bool,
    pub paste: bool,
    pub select_all: bool,
    /// Some binding matches the keys held, which then type nothing.
    pub any: bool,
}

/// Whether two texts are the same.
pub fn same_text(a: &str, b: &str) -> (r: bool)
    ensures
        r == (a@ == b@),
{
    let n = a.unicode_len();
    if n != b.unicode_len() {
        return false;
    }
    let mut i: usize = 0;
    while i < n
        invariant
            n == a@.len(),
            n == b@.len(),
            i <= n,
            a@.take(i as int) == b@.take(i as int),
        decreases n - i,
    {
        if a.get_char(i) != b.get_char(i) {
            assert(a@[i as int] != b@[i as int]);
            return false;
        }
        proof {
            assert(a@.take(i + 1) =~= a@.take(i as int).push(a@[i as int]));
            assert(b@.take(i + 1) =~= b@.take(i as int).push(b@[i as int]));
        }
        i = i + 1;
    }
    assert(a@ =~= a@.take(n as int));
    assert(b@ =~= b@.take(n as int));
    true
}

} // verus!
