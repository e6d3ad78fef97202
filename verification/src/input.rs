use vstd::prelude::*;
use std::collections::HashSet;

verus! {

broadcast use vstd::std_specs::hash::group_hash_axioms;

/// Logical keys the engine understands.
#[derive(Debug, Clone, Copy, PartialEq, Eq, Structural, Hash)]
pub enum Key {
    A, B, C, D, E, F, G, H, I, J, K, L, M,
    N, O, P, Q, R, S, T, U, V, W, X, Y, Z,
    Key0, Key1, Key2, Key3, Key4,
    Key5, Key6, Key7, Key8, Key9,
    Up, Down, Left, Right,
    Space, Enter, Escape, Backspace, Tab,
    LShift, RShift, LCtrl, RCtrl, LAlt, RAlt,
    F1, F2, F3, F4, F5, F6, F7, F8, F9, F10, F11, F12,
}

/// Mouse buttons.
#[derive(Debug, Clone, Copy, PartialEq, Eq, Structural, Hash)]
pub enum MouseButton {
    Left,
    Right,
    Middle,
}

/// Position of a button in the per-frame button arrays.
pub open spec fn button_index(b: MouseButton) -> int {
    match b {
        MouseButton::Left => 0,
        MouseButton::Right => 1,
        MouseButton::Middle => 2,
    }
}

/// A direction component from two opposing keys: +1, -1, or 0 when both or
/// neither are held.
pub open spec fn axis_value(neg: bool, pos: bool) -> int {
    (if pos { 1int } else { 0int }) - (if neg { 1int } else { 0int })
}

/// The number a key is stored under in the held-key sets.
pub open spec fn key_code(k: Key) -> u8 {
    match k {
        Key::A => 0,
        Key::B => 1,
        Key::C => 2,
        Key::D => 3,
        Key::E => 4,
        Key::F => 5,
        Key::G => 6,
        Key::H => 7,
        Key::I => 8,
        Key::J => 9,
        Key::K => 10,
        Key::L => 11,
        Key::M => 12,
        Key::N => 13,
        Key::O => 14,
        Key::P => 15,
        Key::Q => 16,
        Key::R => 17,
        Key::S => 18,
        Key::T => 19,
        Key::U => 20,
        Key::V => 21,
        Key::W => 22,
        Key::X => 23,
        Key::Y => 24,
        Key::Z => 25,
        Key::Key0 => 26,
        Key::Key1 => 27,
        Key::Key2 => 28,
        Key::Key3 => 29,
        Key::Key4 => 30,
        Key::Key5 => 31,
        Key::Key6 => 32,
        Key::Key7 => 33,
        Key::Key8 => 34,
        Key::Key9 => 35,
        Key::Up => 36,
        Key::Down => 37,
        Key::Left => 38,
        Key::Right => 39,
        Key::Space => 40,
        Key::Enter => 41,
        Key::Escape => 42,
        Key::Backspace => 43,
        Key::Tab => 44,
        Key::LShift => 45,
        Key::RShift => 46,
        Key::LCtrl => 47,
        Key::RCtrl => 48,
        Key::LAlt => 49,
        Key::RAlt => 50,
        Key::F1 => 51,
        Key::F2 => 52,
        Key::F3 => 53,
        Key::F4 => 54,
        Key::F5 => 55,
        Key::F6 => 56,
        Key::F7 => 57,
        Key::F8 => 58,
        Key::F9 => 59,
        Key::F10 => 60,
        Key::F11 => 61,
        Key::F12 => 62,
    }
}

/// The key stored under number `c` (the inverse of `key_code`).
spec fn key_of(c: u8) -> Key {
    match c {
        0 => Key::A,
        1 => Key::B,
        2 => Key::C,
        3 => Key::D,
        4 => Key::E,
        5 => Key::F,
        6 => Key::G,
        7 => Key::H,
        8 => Key::I,
        9 => Key::J,
        10 => Key::K,
        11 => Key::L,
        12 => Key::M,
        13 => Key::N,
        14 => Key::O,
        15 => Key::P,
        16 => Key::Q,
        17 => Key::R,
        18 => Key::S,
        19 => Key::T,
        20 => Key::U,
        21 => Key::V,
        22 => Key::W,
        23 => Key::X,
        24 => Key::Y,
        25 => Key::Z,
        26 => Key::Key0,
        27 => Key::Key1,
        28 => Key::Key2,
        29 => Key::Key3,
        30 => Key::Key4,
        31 => Key::Key5,
        32 => Key::Key6,
        33 => Key::Key7,
        34 => Key::Key8,
        35 => Key::Key9,
        36 => Key::Up,
        37 => Key::Down,
        38 => Key::Left,
        39 => Key::Right,
        40 => Key::Space,
        41 => Key::Enter,
        42 => Key::Escape,
        43 => Key::Backspace,
        44 => Key::Tab,
        45 => Key::LShift,
        46 => Key::RShift,
        47 => Key::LCtrl,
        48 => Key::RCtrl,
        49 => Key::LAlt,
        50 => Key::RAlt,
        51 => Key::F1,
        52 => Key::F2,
        53 => Key::F3,
        54 => Key::F4,
        55 => Key::F5,
        56 => Key::F6,
        57 => Key::F7,
        58 => Key::F8,
        59 => Key::F9,
        60 => Key::F10,
        61 => Key::F11,
        62 => Key::F12,
        _ => Key::A,
    }
}

proof fn lemma_key_code_inverse(k: Key)
    ensures
        key_of(key_code(k)) == k,
{
}

/// Two keys with the same code are the same key.
proof fn lemma_key_code_injective(a: Key, b: Key)
    ensures
        key_code(a) == key_code(b) ==> a == b,
{
    lemma_key_code_inverse(a);
    lemma_key_code_inverse(b);
}

fn code_of(k: Key) -> (c: u8)
    ensures
        c == key_code(k),
{
    match k {
        Key::A => 0,
        Key::B => 1,
        Key::C => 2,
        Key::D => 3,
        Key::E => 4,
        Key::F => 5,
        Key::G => 6,
        Key::H => 7,
        Key::I => 8,
        Key::J => 9,
        Key::K => 10,
        Key::L => 11,
        Key::M => 12,
        Key::N => 13,
        Key::O => 14,
        Key::P => 15,
        Key::Q => 16,
        Key::R => 17,
        Key::S => 18,
        Key::T => 19,
        Key::U => 20,
        Key::V => 21,
        Key::W => 22,
        Key::X => 23,
        Key::Y => 24,
        Key::Z => 25,
        Key::Key0 => 26,
        Key::Key1 => 27,
        Key::Key2 => 28,
        Key::Key3 => 29,
        Key::Key4 => 30,
        Key::Key5 => 31,
        Key::Key6 => 32,
        Key::Key7 => 33,
        Key::Key8 => 34,
        Key::Key9 => 35,
        Key::Up => 36,
        Key::Down => 37,
        Key::Left => 38,
        Key::Right => 39,
        Key::Space => 40,
        Key::Enter => 41,
        Key::Escape => 42,
        Key::Backspace => 43,
        Key::Tab => 44,
        Key::LShift => 45,
        Key::RShift => 46,
        Key::LCtrl => 47,
        Key::RCtrl => 48,
        Key::LAlt => 49,
        Key::RAlt => 50,
        Key::F1 => 51,
        Key::F2 => 52,
        Key::F3 => 53,
        Key::F4 => 54,
        Key::F5 => 55,
        Key::F6 => 56,
        Key::F7 => 57,
        Key::F8 => 58,
        Key::F9 => 59,
        Key::F10 => 60,
        Key::F11 => 61,
        Key::F12 => 62,
    }
}

/// Keyboard and mouse-button state for the current and the previous frame.
pub struct Input {
    current: HashSet<u8>,
    previous: HashSet<u8>,
    mouse_current: [bool; 3],
    mouse_previous: [bool; 3],
}

impl Input {
    /// Keys held this frame.
    pub closed spec fn held(&self) -> Set<Key> {
        Set::new(|k: Key| self.current@.contains(key_code(k)))
    }

    /// Keys held last frame.
    pub closed spec fn held_before(&self) -> Set<Key> {
        Set::new(|k: Key| self.previous@.contains(key_code(k)))
    }

    /// Mouse buttons held this frame (left, right, middle).
    pub closed spec fn buttons(&self) -> Seq<bool> {
        self.mouse_current@
    }

    /// Mouse buttons held last frame (left, right, middle).
    pub closed spec fn buttons_before(&self) -> Seq<bool> {
        self.mouse_previous@
    }

    pub fn new() -> (inp: Self)
        ensures
            inp.held() == Set::<Key>::empty(),
            inp.held_before() == Set::<Key>::empty(),
            inp.buttons() == seq![false, false, false],
            inp.buttons_before() == seq![false, false, false],
    {
        let inp = Input {
            current: HashSet::new(),
            previous: HashSet::new(),
            mouse_current: [false, false, false],
            mouse_previous: [false, false, false],
        };
        assert(inp.held() =~= Set::<Key>::empty());
        assert(inp.held_before() =~= Set::<Key>::empty());
        assert(inp.mouse_current@ =~= seq![false, false, false]);
        assert(inp.mouse_previous@ =~= seq![false, false, false]);
        inp
    }

    /// Start a new frame: this frame's state becomes last frame's, and
    /// `keys` (the keys held now, in any order, repeats allowed) and
    /// `buttons` (left, right, middle) become this frame's.
    pub fn update(&mut self, keys: &[Key], buttons: [bool; 3])
        ensures
            final(self).held_before() == old(self).held(),
            final(self).held() == keys@.to_set(),
            final(self).buttons_before() == old(self).buttons(),
            final(self).buttons() == buttons@,
    {
        let mut now: HashSet<u8> = HashSet::new();
        let mut i: usize = 0;
        while i < keys.len()
            invariant
                i <= keys@.len(),
                forall|c: u8| #[trigger] now@.contains(c) <==> exists|j: int|
                    0 <= j < i && key_code(#[trigger] keys@[j]) == c,
            decreases keys@.len() - i,
        {
            let ghost prev = now@;
            now.insert(code_of(keys[i]));
            assert forall|c: u8| #[trigger] now@.contains(c) <==> exists|j: int|
                0 <= j < i + 1 && key_code(#[trigger] keys@[j]) == c by {
                if now@.contains(c) && c != key_code(keys@[i as int]) {
                    assert(prev.contains(c));
                }
            }
            i = i + 1;
        }
        let ghost held_now = Set::new(|k: Key| now@.contains(key_code(k)));
        assert forall|k: Key| #[trigger] held_now.contains(k) <==> keys@.to_set().contains(k) by {
            if held_now.contains(k) {
                let j = choose|j: int| 0 <= j < keys@.len() && key_code(#[trigger] keys@[j]) == key_code(k);
                lemma_key_code_injective(keys@[j], k);
                assert(keys@.contains(k));
            }
            if keys@.to_set().contains(k) {
                let j = choose|j: int| 0 <= j < keys@.len() && keys@[j] == k;
                assert(key_code(keys@[j]) == key_code(k));
            }
        }
        assert(held_now =~= keys@.to_set());
        std::mem::swap(&mut self.previous, &mut self.current);
        self.current = now;
        self.mouse_previous = self.mouse_current;
        self.mouse_current = buttons;
    }

    /// The key is held this frame.
    pub fn down(&self, key: Key) -> (b: bool)
        ensures
            b == self.held().contains(key),
    {
        self.current.contains(&code_of(key))
    }

    /// The key went down this frame (held now, not last frame).
    pub fn pressed(&self, key: Key) -> (b: bool)
        ensures
            b == (self.held().contains(key) && !self.held_before().contains(key)),
    {
        self.current.contains(&code_of(key)) && !self.previous.contains(&code_of(key))
    }

    /// The key went up this frame (held last frame, not now).
    pub fn released(&self, key: Key) -> (b: bool)
        ensures
            b == (!self.held().contains(key) && self.held_before().contains(key)),
    {
        !self.current.contains(&code_of(key)) && self.previous.contains(&code_of(key))
    }

    /// The keys among `candidates` that went down this frame, in the order
    /// given.
    pub fn pressed_among(&self, candidates: &[Key]) -> (r: Vec<Key>)
        ensures
            r@ == candidates@.filter(
                |k: Key| self.held().contains(k) && !self.held_before().contains(k),
            ),
    {
        let ghost f = |k: Key| self.held().contains(k) && !self.held_before().contains(k);
        let mut r: Vec<Key> = Vec::new();
        let mut i: usize = 0;
        assert(candidates@.take(0).filter(f) =~= Seq::<Key>::empty()) by {
            reveal(Seq::filter);
        }
        while i < candidates.len()
            invariant
                i <= candidates@.len(),
                f == (|k: Key| self.held().contains(k) && !self.held_before().contains(k)),
                r@ == candidates@.take(i as int).filter(f),
            decreases candidates@.len() - i,
        {
            let k = candidates[i];
            if self.pressed(k) {
                r.push(k);
            }
            proof {
                let t = candidates@.take(i + 1);
                assert(t.drop_last() =~= candidates@.take(i as int));
                assert(t.last() == k);
                reveal(Seq::filter);
            }
            i = i + 1;
        }
        assert(candidates@.take(candidates@.len() as int) =~= candidates@);
        r
    }

    /// A direction from four keys, e.g. A/D for x and W/S for y: each
    /// component is +1, -1 or 0.
    pub fn axis(&self, neg_x: Key, pos_x: Key, neg_y: Key, pos_y: Key) -> (v: (i32, i32))
        ensures
            v.0 == axis_value(self.held().contains(neg_x), self.held().contains(pos_x)),
            v.1 == axis_value(self.held().contains(neg_y), self.held().contains(pos_y)),
    {
        let x = (if self.down(pos_x) { 1i32 } else { 0i32 }) - (if self.down(neg_x) { 1i32 } else { 0i32 });
        let y = (if self.down(pos_y) { 1i32 } else { 0i32 }) - (if self.down(neg_y) { 1i32 } else { 0i32 });
        (x, y)
    }

    fn btn_idx(b: MouseButton) -> (i: usize)
        ensures
            i == button_index(b),
    {
        match b {
            MouseButton::Left => 0,
            MouseButton::Right => 1,
            MouseButton::Middle => 2,
        }
    }

    pub fn mouse_down(&self, b: MouseButton) -> (r: bool)
        ensures
            r == self.buttons()[button_index(b)],
    {
        self.mouse_current[Self::btn_idx(b)]
    }

    pub fn mouse_pressed(&self, b: MouseButton) -> (r: bool)
        ensures
            r == (self.buttons()[button_index(b)] && !self.buttons_before()[button_index(b)]),
    {
        let i = Self::btn_idx(b);
        self.mouse_current[i] && !self.mouse_previous[i]
    }

    pub fn mouse_released(&self, b: MouseButton) -> (r: bool)
        ensures
            r == (!self.buttons()[button_index(b)] && self.buttons_before()[button_index(b)]),
    {
        let i = Self::btn_idx(b);
        !self.mouse_current[i] && self.mouse_previous[i]
    }
}

impl Default for Input {
    fn default() -> (inp: Self)
        ensures
            inp.held() == Set::<Key>::empty(),
            inp.held_before() == Set::<Key>::empty(),
            inp.buttons() == seq![false, false, false],
            inp.buttons_before() == seq![false, false, false],
    {
        Self::new()
    }
}

/// A key is never reported pressed and released in the same frame, and a
/// pressed key is a held one.
pub proof fn law_press_release_exclusive(inp: Input, key: Key)
    ensures
        !((inp.held().contains(key) && !inp.held_before().contains(key)) && (!inp.held().contains(
            key,
        ) && inp.held_before().contains(key))),
        (inp.held().contains(key) && !inp.held_before().contains(key)) ==> inp.held().contains(key),
{
}

/// Holding the same keys for two frames running reports no key as pressed
/// or released in the second frame.
pub proof fn law_held_keys_settle(first: Input, second: Input, key: Key)
    requires
        second.held_before() == first.held(),
        second.held() == first.held(),
    ensures
        !(second.held().contains(key) && !second.held_before().contains(key)),
        !(!second.held().contains(key) && second.held_before().contains(key)),
{
}

/// Each axis component is -1, 0 or +1, and holding both opposing keys
/// cancels out.
pub proof fn law_axis_range(neg: bool, pos: bool)
    ensures
        -1 <= axis_value(neg, pos) <= 1,
        neg && pos ==> axis_value(neg, pos) == 0,
        pos && !neg ==> axis_value(neg, pos) == 1,
        neg && !pos ==> axis_value(neg, pos) == -1,
{
}

} // verus!
