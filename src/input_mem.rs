use vstd::prelude::*;

use crate::input::{Input, Key};

verus! {

/// How long a held key waits, in milliseconds, before it counts again.
pub const HOLD_REPEAT_MS: u64 = 100;

/// What is remembered of one holdable key.
pub struct InputMemView {
    pub code: Key,
    pub time_ms: int,
    pub released: bool,
}

impl InputMemView {
    /// A held key counts again once it was released, or once more than `HOLD_REPEAT_MS`
    /// have passed since it last counted.
    pub open spec fn allowed(self, now_ms: int) -> bool {
        self.released || now_ms - self.time_ms > HOLD_REPEAT_MS
    }
}

/// When a holdable key last counted, and whether it has been let go since.
#[derive(Clone, Copy)]
pub struct InputMem {
    code: Key,
    time_ms: u64,
    released: bool,
}

impl View for InputMem {
    type V = InputMemView;

    closed spec fn view(&self) -> InputMemView {
        InputMemView { code: self.code, time_ms: self.time_ms as int, released: self.released }
    }
}

impl InputMem {
    /// Memory of `code`, released, stamped at `now_ms`.
    pub fn new(code: Key, now_ms: u64) -> (r: InputMem)
        ensures
            r@ == (InputMemView { code, time_ms: now_ms as int, released: true }),
    {
        InputMem { code, time_ms: now_ms, released: true }
    }

    /// Whether the key may count again at `now_ms`.
    pub fn allowed(&self, now_ms: u64) -> (r: bool)
        ensures
            r == self@.allowed(now_ms as int),
    {
        self.released || (now_ms > self.time_ms && now_ms - self.time_ms > HOLD_REPEAT_MS)
    }

    /// Stamp the key as counted at `now_ms`.
    pub fn set_time(&mut self, now_ms: u64)
        ensures
            final(self)@ == (InputMemView { time_ms: now_ms as int, ..old(self)@ }),
    {
        self.time_ms = now_ms;
    }

    /// Note whether the key is up in `input`.
    pub fn set_released(&mut self, input: &Input)
        ensures
            final(self)@ == (InputMemView { released: !input@.down.contains(old(self)@.code), ..old(self)@ }),
    {
        self.released = !input.key_down(self.code);
    }
}

} // verus!
