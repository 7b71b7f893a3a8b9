use vstd::prelude::*;

verus! {

/// Which kind of window event the input helper consumed.
#[derive(Clone, Copy, Debug, PartialEq, Eq, Structural)]
pub enum InputResponse {
    Ignored,
    Keyboard,
    Mouse,
}

/// The keys the simulator reacts to.
#[derive(Clone, Copy, Debug, PartialEq, Eq, Structural)]
pub enum Key {
    Escape,
    Space,
    ArrowRight,
    KeyR,
    KeyC,
    KeyH,
    KeyP,
    Other,
}

/// What a key press asks for.
#[derive(Clone, Copy, Debug, PartialEq, Eq, Structural)]
pub enum Command {
    Exit,
    PlayPause,
    Step,
    Reset,
    TogglePanel,
    ToggleHelp,
    TogglePerf,
    Nothing,
}

pub open spec fn command_spec(key: Key) -> Command {
    match key {
        Key::Escape => Command::Exit,
        Key::Space => Command::PlayPause,
        Key::ArrowRight => Command::Step,
        Key::KeyR => Command::Reset,
        Key::KeyC => Command::TogglePanel,
        Key::KeyH => Command::ToggleHelp,
        Key::KeyP => Command::TogglePerf,
        Key::Other => Command::Nothing,
    }
}

/// The keyboard map: Escape exits, Space toggles pause, Right steps while paused, R resets,
/// C toggles the panel, H the help text, P the performance overlay.
pub fn command_for(key: Key) -> (r: Command)
    ensures
        r == command_spec(key),
{
    match key {
        Key::Escape => Command::Exit,
        Key::Space => Command::PlayPause,
        Key::ArrowRight => Command::Step,
        Key::KeyR => Command::Reset,
        Key::KeyC => Command::TogglePanel,
        Key::KeyH => Command::ToggleHelp,
        Key::KeyP => Command::TogglePerf,
        Key::Other => Command::Nothing,
    }
}

/// Mouse buttons as the input helper tells them apart.
#[derive(Clone, Copy, Debug, PartialEq, Eq, Structural)]
pub enum Button {
    Left,
    Right,
    Other,
}

/// A window event, reduced to what the simulator reads from it.
#[derive(Clone, Copy, Debug, PartialEq, Eq, Structural)]
pub enum InputEvent {
    KeyboardInput { key: Key, pressed: bool },
    ModifiersChanged,
    CursorMoved,
    MouseInput { button: Button, pressed: bool },
    Other,
}

/// Keys held down and mouse buttons held.
pub struct InputHelper {
    pub keys: Vec<Key>,
    pub lmb: bool,
    pub rmb: bool,
}

impl InputHelper {
    pub open spec fn wf(&self) -> bool {
        self.keys@.no_duplicates()
    }

    /// Nothing held.
    pub fn new() -> (r: Self)
        ensures
            r.wf(),
            r.keys@.len() == 0,
            !r.lmb,
            !r.rmb,
    {
        InputHelper { keys: Vec::new(), lmb: false, rmb: false }
    }

    /// Records `event`: a key press or release adds the key to, or takes it from, the keys held;
    /// a change of modifiers forgets every key held; a left or right button sets that button's
    /// state. Says which kind of event it was; other events change nothing.
    pub fn process(&mut self, event: InputEvent) -> (r: InputResponse)
        requires
            old(self).wf(),
        ensures
            final(self).wf(),
            r == (match event {
                InputEvent::KeyboardInput { .. } | InputEvent::ModifiersChanged => InputResponse::Keyboard,
                InputEvent::CursorMoved => InputResponse::Mouse,
                InputEvent::MouseInput { button, .. } => if button == Button::Other {
                    InputResponse::Ignored
                } else {
                    InputResponse::Mouse
                },
                InputEvent::Other => InputResponse::Ignored,
            }),
            final(self).keys@.to_set() == (match event {
                InputEvent::KeyboardInput { key, pressed } => if pressed {
                    old(self).keys@.to_set().insert(key)
                } else {
                    old(self).keys@.to_set().remove(key)
                },
                InputEvent::ModifiersChanged => Set::<Key>::empty(),
                _ => old(self).keys@.to_set(),
            }),
            final(self).lmb == (match event {
                InputEvent::MouseInput { button: Button::Left, pressed } => pressed,
                _ => old(self).lmb,
            }),
            final(self).rmb == (match event {
                InputEvent::MouseInput { button: Button::Right, pressed } => pressed,
                _ => old(self).rmb,
            }),
    {
        match event {
            InputEvent::KeyboardInput { key, pressed } => {
                if pressed {
                    self.press(key);
                } else {
                    self.release(key);
                }
                InputResponse::Keyboard
            },
            InputEvent::ModifiersChanged => {
                self.keys = Vec::new();
                proof {
                    assert(self.keys@.to_set() =~= Set::<Key>::empty());
                }
                InputResponse::Keyboard
            },
            InputEvent::CursorMoved => InputResponse::Mouse,
            InputEvent::MouseInput { button, pressed } => {
                match button {
                    Button::Left => self.lmb = pressed,
                    Button::Right => self.rmb = pressed,
                    Button::Other => {
                        return InputResponse::Ignored;
                    },
                }
                InputResponse::Mouse
            },
            InputEvent::Other => InputResponse::Ignored,
        }
    }

    fn press(&mut self, key: Key)
        requires
            old(self).wf(),
        ensures
            final(self).wf(),
            final(self).keys@.to_set() == old(self).keys@.to_set().insert(key),
            final(self).lmb == old(self).lmb,
            final(self).rmb == old(self).rmb,
    {
        let mut i: usize = 0;
        while i < self.keys.len()
            invariant
                i <= self.keys@.len(),
                self.keys@ == old(self).keys@,
                self.lmb == old(self).lmb,
                self.rmb == old(self).rmb,
                self.keys@.no_duplicates(),
                forall|p: int| 0 <= p < i ==> self.keys@[p] != key,
            decreases self.keys@.len() - i,
        {
            if self.keys[i] == key {
                proof {
                    assert(self.keys@.to_set().contains(key));
                    assert(self.keys@.to_set().insert(key) =~= self.keys@.to_set());
                }
                return;
            }
            i = i + 1;
        }
        let ghost before = self.keys@;
        self.keys.push(key);
        proof {
            assert(!before.contains(key));
            Seq::lemma_to_set_insert_commutes(before, key);
            assert(self.keys@ =~= before + seq![key]);
            assert forall|a: int, b: int| 0 <= a < b < self.keys@.len() implies self.keys@[a] != self.keys@[b] by {
                if b == before.len() {
                    assert(before[a] != key);
                }
            }
        }
    }

    fn release(&mut self, key: Key)
        requires
            old(self).wf(),
        ensures
            final(self).wf(),
            final(self).keys@.to_set() == old(self).keys@.to_set().remove(key),
            final(self).lmb == old(self).lmb,
            final(self).rmb == old(self).rmb,
    {
        let ghost before = self.keys@;
        let mut kept: Vec<Key> = Vec::new();
        let mut i: usize = 0;
        while i < self.keys.len()
            invariant
                i <= before.len(),
                self.keys@ == before,
                before.no_duplicates(),
                kept@.no_duplicates(),
                forall|v: Key| #[trigger] kept@.contains(v) <==> v != key && in_prefix(before, i as int, v),
            decreases before.len() - i,
        {
            let k = self.keys[i];
            proof {
                assert forall|v: Key| #[trigger] in_prefix(before, i + 1, v) <==> (in_prefix(before, i as int, v) || v == k) by {
                    if in_prefix(before, i + 1, v) {
                        let t = choose|t: int| 0 <= t < i + 1 && before[t] == v;
                        if t < i {
                            assert(in_prefix(before, i as int, v));
                        }
                    }
                    if in_prefix(before, i as int, v) {
                        let t = choose|t: int| 0 <= t < i && before[t] == v;
                        assert(0 <= t < i + 1 && before[t] == v);
                    }
                    if v == k {
                        assert(before[i as int] == v);
                    }
                }
            }
            if k != key {
                let ghost kb = kept@;
                proof {
                    assert(!in_prefix(before, i as int, k)) by {
                        if in_prefix(before, i as int, k) {
                            let t = choose|t: int| 0 <= t < i && before[t] == k;
                            assert(before[t] == before[i as int]);
                        }
                    }
                }
                kept.push(k);
                proof {
                    assert(kept@ == kb.push(k));
                    assert forall|v: Key| #[trigger] kept@.contains(v) <==> kb.contains(v) || v == k by {
                        if kept@.contains(v) {
                            let t = choose|t: int| 0 <= t < kept@.len() && kept@[t] == v;
                            if t < kb.len() {
                                assert(kb[t] == v);
                            }
                        }
                        if kb.contains(v) {
                            let t = choose|t: int| 0 <= t < kb.len() && kb[t] == v;
                            assert(kept@[t] == v);
                        }
                        if v == k {
                            assert(kept@[kb.len() as int] == v);
                        }
                    }
                    assert forall|a: int, b: int| 0 <= a < b < kept@.len() implies kept@[a] != kept@[b] by {
                        if b == kb.len() {
                            assert(kb.contains(kb[a]));
                        }
                    }
                }
            }
            i = i + 1;
        }
        proof {
            assert forall|v: Key| #[trigger] kept@.to_set().contains(v) <==> before.to_set().remove(key).contains(v) by {
                if before.contains(v) {
                    let t = choose|t: int| 0 <= t < before.len() && before[t] == v;
                    assert(in_prefix(before, before.len() as int, v));
                }
                if in_prefix(before, before.len() as int, v) {
                    let t = choose|t: int| 0 <= t < before.len() && before[t] == v;
                    assert(before.contains(v));
                }
            }
            assert(kept@.to_set() =~= before.to_set().remove(key));
        }
        self.keys = kept;
    }
}

/// Some position below `i` of `s` holds `v`.
pub open spec fn in_prefix(s: Seq<Key>, i: int, v: Key) -> bool {
    exists|t: int| 0 <= t < i && s[t] == v
}

} // verus!
