use vstd::prelude::*;

verus! {

/// A key, as far as the game tells keys apart.
#[derive(Clone, Copy, Debug, PartialEq, Eq, Structural)]
pub enum Key {
    Left,
    Right,
    Up,
    Down,
    Enter,
    Esc,
    Char(char),
    Other,
}

/// Whether a key went down, came up, or repeats while held.
#[derive(Clone, Copy, Debug, PartialEq, Eq, Structural)]
pub enum KeyKind {
    Press,
    Release,
    Repeat,
}

/// The index of the first `k` in `s`, or the length of `s` where there is none.
pub open spec fn key_index(s: Seq<Key>, k: Key) -> int
    decreases s.len(),
{
    if s.len() == 0 {
        0
    } else if s[0] == k {
        0
    } else {
        1 + key_index(s.drop_first(), k)
    }
}

proof fn lemma_key_index(s: Seq<Key>, k: Key, i: int)
    requires
        0 <= i <= s.len(),
        forall|j: int| 0 <= j < i ==> s[j] != k,
        i == s.len() || s[i] == k,
    ensures
        key_index(s, k) == i,
        s.contains(k) == (i < s.len()),
    decreases s.len(),
{
    if s.len() > 0 && i > 0 {
        lemma_key_index(s.drop_first(), k, i - 1);
    }
    if i < s.len() {
        assert(s[i] == k);
    }
}

/// The keys held down, and those pressed since the last capture, each in the order they
/// went down.
pub struct InputView {
    pub down: Seq<Key>,
    pub pressed: Seq<Key>,
}

impl InputView {
    /// After a press: a key not yet down joins both lists.
    pub open spec fn press(self, k: Key) -> InputView {
        if self.down.contains(k) {
            self
        } else {
            InputView { down: self.down.push(k), pressed: self.pressed.push(k) }
        }
    }

    /// After a release: the key leaves the list of keys held down.
    pub open spec fn release(self, k: Key) -> InputView {
        if self.down.contains(k) {
            InputView { down: self.down.remove(key_index(self.down, k)), ..self }
        } else {
            self
        }
    }

    pub open spec fn handle(self, k: Key, kind: KeyKind) -> InputView {
        match kind {
            KeyKind::Press => self.press(k),
            KeyKind::Release => self.release(k),
            KeyKind::Repeat => self,
        }
    }

    /// One capture: the pressed list starts afresh, then the event, if any, is handled.
    pub open spec fn capture(self, event: Option<(Key, KeyKind)>) -> InputView {
        let cleared = InputView { pressed: Seq::empty(), ..self };
        match event {
            Some(e) => cleared.handle(e.0, e.1),
            None => cleared,
        }
    }
}

/// Which keys are held and which were just pressed.
pub struct Input {
    down: Vec<Key>,
    pressed: Vec<Key>,
}

impl View for Input {
    type V = InputView;

    closed spec fn view(&self) -> InputView {
        InputView { down: self.down@, pressed: self.pressed@ }
    }
}

impl Input {
    pub fn new() -> (r: Input)
        ensures
            r@.down.len() == 0,
            r@.pressed.len() == 0,
    {
        Input { down: Vec::new(), pressed: Vec::new() }
    }

    /// Start a new cycle: forget what was pressed before, then take in `event`.
    ///
    /// Must run every cycle, or presses are not seen as expected.
    pub fn capture_input(&mut self, event: Option<(Key, KeyKind)>)
        ensures
            final(self)@ == old(self)@.capture(event),
    {
        self.pressed.clear();
        match event {
            Some((code, kind)) => self.handle_key_event(code, kind),
            None => {},
        }
    }

    pub fn key_down(&self, code: Key) -> (r: bool)
        ensures
            r == self@.down.contains(code),
    {
        self.get_down_index(code).is_ok()
    }

    pub fn key_pressed(&self, code: Key) -> (r: bool)
        ensures
            r == self@.pressed.contains(code),
    {
        self.get_pressed_index(code).is_ok()
    }

    fn handle_key_event(&mut self, code: Key, kind: KeyKind)
        ensures
            final(self)@ == old(self)@.handle(code, kind),
    {
        match kind {
            KeyKind::Release => self.handle_key_event_release(code),
            KeyKind::Press => self.handle_key_event_press(code),
            KeyKind::Repeat => {},
        }
    }

    fn handle_key_event_release(&mut self, code: Key)
        ensures
            final(self)@ == old(self)@.release(code),
    {
        let down_index_result = self.get_down_index(code);
        if let Ok(index) = down_index_result {
            self.down.remove(index);
        }
        assert(self@ =~= old(self)@.release(code));
    }

    fn handle_key_event_press(&mut self, code: Key)
        ensures
            final(self)@ == old(self)@.press(code),
    {
        if self.get_down_index(code).is_ok() {
            return;
        }
        self.pressed.push(code);
        self.down.push(code);
    }

    /// Index of the first `code` in `key_vec`; `Err(0)` where there is none.
    fn get_key_index(key_vec: &Vec<Key>, code: Key) -> (r: Result<usize, usize>)
        ensures
            key_vec@.contains(code) ==> r == Ok::<usize, usize>(key_index(key_vec@, code) as usize),
            key_vec@.contains(code) ==> 0 <= key_index(key_vec@, code) < key_vec@.len(),
            !key_vec@.contains(code) ==> r == Err::<usize, usize>(0),
    {
        let mut i: usize = 0;
        while i < key_vec.len()
            invariant
                i <= key_vec@.len(),
                forall|j: int| 0 <= j < i ==> key_vec@[j] != code,
            decreases key_vec@.len() - i,
        {
            if key_vec[i] == code {
                proof {
                    lemma_key_index(key_vec@, code, i as int);
                }
                return Ok(i);
            }
            i = i + 1;
        }
        proof {
            lemma_key_index(key_vec@, code, i as int);
        }
        Err(0)
    }

    fn get_down_index(&self, code: Key) -> (r: Result<usize, usize>)
        ensures
            self@.down.contains(code) ==> r == Ok::<usize, usize>(key_index(self@.down, code) as usize),
            self@.down.contains(code) ==> 0 <= key_index(self@.down, code) < self@.down.len(),
            !self@.down.contains(code) ==> r == Err::<usize, usize>(0),
    {
        Input::get_key_index(&self.down, code)
    }

    fn get_pressed_index(&self, code: Key) -> (r: Result<usize, usize>)
        ensures
            self@.pressed.contains(code) ==> r == Ok::<usize, usize>(
                key_index(self@.pressed, code) as usize,
            ),
            !self@.pressed.contains(code) ==> r == Err::<usize, usize>(0),
    {
        Input::get_key_index(&self.pressed, code)
    }
}

} // verus!
