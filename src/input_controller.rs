use vstd::prelude::*;

use crate::input::{Input, InputView, Key, KeyKind};
use crate::input_mem::{InputMem, InputMemView};

verus! {

/// The slot of a holdable key in the controller's memory: Left, Right and Down; -1 for
/// any other key.
pub open spec fn hold_slot(code: Key) -> int {
    match code {
        Key::Left => 0,
        Key::Right => 1,
        Key::Down => 2,
        _ => -1,
    }
}

pub struct InputControllerView {
    pub input: InputView,
    pub memory: Seq<InputMemView>,
}

/// Key state plus the hold memory of the keys that repeat while held.
pub struct InputController {
    input: Input,
    input_memory: Vec<InputMem>,
}

impl View for InputController {
    type V = InputControllerView;

    closed spec fn view(&self) -> InputControllerView {
        InputControllerView {
            input: self.input@,
            memory: self.input_memory@.map_values(|m: InputMem| m@),
        }
    }
}

impl InputController {
    /// One memory slot per holdable key, in slot order.
    pub open spec fn wf(&self) -> bool {
        &&& self@.memory.len() == 3
        &&& forall|i: int| 0 <= i < 3 ==> hold_slot(#[trigger] self@.memory[i].code) == i
    }

    pub fn new(now_ms: u64) -> (r: InputController)
        ensures
            r.wf(),
            r@.input.down.len() == 0,
            r@.input.pressed.len() == 0,
            forall|i: int| 0 <= i < 3 ==> (#[trigger] r@.memory[i]).released && r@.memory[i].time_ms == now_ms,
    {
        let mut input_memory: Vec<InputMem> = Vec::new();
        input_memory.push(InputMem::new(Key::Left, now_ms));
        input_memory.push(InputMem::new(Key::Right, now_ms));
        input_memory.push(InputMem::new(Key::Down, now_ms));
        InputController { input: Input::new(), input_memory }
    }

    /// Call at the start of every cycle with the event read in it, if any.
    pub fn update(&mut self, event: Option<(Key, KeyKind)>)
        requires
            old(self).wf(),
        ensures
            final(self).wf(),
            final(self)@ == (InputControllerView { input: old(self)@.input.capture(event), ..old(self)@ }),
    {
        self.input.capture_input(event);
        assert(self@.memory =~= old(self)@.memory);
    }

    /// Call at the end of every cycle: each holdable key notes whether it is up.
    pub fn end_update(&mut self)
        requires
            old(self).wf(),
        ensures
            final(self).wf(),
            final(self)@.input == old(self)@.input,
            forall|i: int|
                0 <= i < 3 ==> #[trigger] final(self)@.memory[i] == (InputMemView {
                    released: !old(self)@.input.down.contains(old(self)@.memory[i].code),
                    ..old(self)@.memory[i]
                }),
    {
        let mut i: usize = 0;
        while i < self.input_memory.len()
            invariant
                i <= 3,
                self.input_memory@.len() == 3,
                self.input@ == old(self)@.input,
                forall|j: int|
                    0 <= j < 3 ==> #[trigger] self.input_memory@[j]@ == if j < i {
                        InputMemView {
                            released: !old(self)@.input.down.contains(old(self)@.memory[j].code),
                            ..old(self)@.memory[j]
                        }
                    } else {
                        old(self)@.memory[j]
                    },
            decreases 3 - i,
        {
            let mut mem = self.input_memory[i];
            mem.set_released(&self.input);
            self.input_memory.set(i, mem);
            i = i + 1;
        }
        assert(forall|j: int| 0 <= j < 3 ==> #[trigger] self@.memory[j] == self.input_memory@[j]@);
    }

    /// Whether a holdable key counts now: it is down and allowed to repeat; if so its
    /// time is stamped. Keys other than Left, Right and Down never count.
    pub fn key_hold(&mut self, code: Key, now_ms: u64) -> (r: bool)
        requires
            old(self).wf(),
        ensures
            final(self).wf(),
            final(self)@.input == old(self)@.input,
            hold_slot(code) < 0 ==> !r && final(self)@ == old(self)@,
            hold_slot(code) >= 0 ==> r == (old(self)@.input.down.contains(code) && old(
                self,
            )@.memory[hold_slot(code)].allowed(now_ms as int)),
            hold_slot(code) >= 0 ==> final(self)@.memory == if r {
                old(self)@.memory.update(
                    hold_slot(code),
                    InputMemView { time_ms: now_ms as int, ..old(self)@.memory[hold_slot(code)] },
                )
            } else {
                old(self)@.memory
            },
    {
        let index: usize = match code {
            Key::Left => 0,
            Key::Right => 1,
            Key::Down => 2,
            _ => {
                return false;
            },
        };
        let down = self.input.key_down(code) && self.input_memory[index].allowed(now_ms);
        if down {
            let mut mem = self.input_memory[index];
            mem.set_time(now_ms);
            self.input_memory.set(index, mem);
            assert(self@.memory =~= old(self)@.memory.update(
                hold_slot(code),
                InputMemView { time_ms: now_ms as int, ..old(self)@.memory[hold_slot(code)] },
            ));
        }
        down
    }

    pub fn key_pressed(&self, code: Key) -> (r: bool)
        ensures
            r == self@.input.pressed.contains(code),
    {
        self.input.key_pressed(code)
    }
}

} // verus!
