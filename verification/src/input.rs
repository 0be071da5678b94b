//! Keyboard, text, and pointer input the engine queues between evaluations.
use vstd::prelude::*;

use crate::drag::DragDrop;
use crate::primitive::{Key, TextEdit};

verus! {

/// Whether a key event queues a press: a press of a key that was not held.
pub open spec fn queues_press(held: Set<Key>, key: Key, pressed: bool) -> bool {
    pressed && !held.contains(key)
}

/// The keys held after `key` was pressed or released.
pub open spec fn held_after(held: Set<Key>, key: Key, pressed: bool) -> Set<Key> {
    if pressed {
        held.insert(key)
    } else {
        held.remove(key)
    }
}

/// The `InputQueue` struct collects the key presses and text edits of one frame, in the order they arrived, and
/// which keys are held.
pub struct InputQueue {
    /// The keys held down, each once.
    held: Vec<Key>,
    key_presses: Vec<Key>,
    text_edits: Vec<TextEdit>,
}

impl InputQueue {
    /// The keys held down.
    pub closed spec fn held_view(&self) -> Set<Key> {
        self.held@.to_set()
    }

    /// The queued key presses, oldest first.
    pub closed spec fn presses_view(&self) -> Seq<Key> {
        self.key_presses@
    }

    /// The queued text edits, oldest first.
    pub closed spec fn edits_view(&self) -> Seq<TextEdit> {
        self.text_edits@
    }

    /// Creates a queue with nothing held or queued.
    pub fn new() -> (r: Self)
        ensures
            r.held_view() == Set::<Key>::empty(),
            r.presses_view() == Seq::<Key>::empty(),
            r.edits_view() == Seq::<TextEdit>::empty(),
    {
        let r = InputQueue { held: Vec::new(), key_presses: Vec::new(), text_edits: Vec::new() };
        assert(r.held@.to_set() =~= Set::<Key>::empty());
        r
    }

    /// Records that `key` is now `pressed` or released. Only a press of a key that was not held queues a press, so a
    /// key held down, which the platform repeats, is pressed once.
    pub fn update_key_state(&mut self, key: Key, pressed: bool)
        ensures
            final(self).presses_view() == if queues_press(old(self).held_view(), key, pressed) {
                old(self).presses_view().push(key)
            } else {
                old(self).presses_view()
            },
            final(self).held_view() == held_after(old(self).held_view(), key, pressed),
            final(self).edits_view() == old(self).edits_view(),
    {
        let mut was_pressed = false;
        let mut kept: Vec<Key> = Vec::new();
        let mut i: usize = 0;
        while i < self.held.len()
            invariant
                i <= self.held@.len(),
                *self == *old(self),
                was_pressed == self.held@.take(i as int).contains(key),
                forall|k: Key| #[trigger] kept@.contains(k) == (self.held@.take(i as int).contains(k) && k != key),
            decreases self.held@.len() - i,
        {
            let current = self.held[i];
            let ghost old_kept = kept@;
            let ghost done = self.held@.take(i as int);
            proof {
                assert(self.held@.take(i + 1) =~= done.push(current));
            }
            if current == key {
                was_pressed = true;
            } else {
                kept.push(current);
            }
            proof {
                assert forall|k: Key| #[trigger] kept@.contains(k) == (self.held@.take(i + 1).contains(k) && k != key) by {
                    vstd::seq_lib::lemma_seq_contains_after_push(done, current, k);
                    if current != key {
                        vstd::seq_lib::lemma_seq_contains_after_push(old_kept, current, k);
                    }
                    assert(old_kept.contains(k) == (done.contains(k) && k != key));
                }
                vstd::seq_lib::lemma_seq_contains_after_push(done, current, key);
            }
            i = i + 1;
        }
        proof {
            assert(self.held@.take(self.held@.len() as int) =~= self.held@);
        }
        if pressed && !was_pressed {
            self.key_presses.push(key);
        }
        let ghost before_push = kept@;
        if pressed {
            kept.push(key);
        }
        self.held = kept;
        proof {
            assert forall|k: Key| #[trigger] self.held@.to_set().contains(k) == held_after(
                old(self).held_view(),
                key,
                pressed,
            ).contains(k) by {
                if pressed {
                    vstd::seq_lib::lemma_seq_contains_after_push(before_push, key, k);
                }
                assert(before_push.contains(k) == (old(self).held@.contains(k) && k != key));
            }
            assert(self.held@.to_set() =~= held_after(old(self).held_view(), key, pressed));
        }
    }

    /// Queues the insertion of a typed character. The NUL character types nothing.
    pub fn input_character(&mut self, character: char)
        ensures
            final(self).edits_view() == if character != '\0' {
                old(self).edits_view().push(TextEdit::Inserted(character))
            } else {
                old(self).edits_view()
            },
            final(self).presses_view() == old(self).presses_view(),
            final(self).held_view() == old(self).held_view(),
    {
        if character != '\0' {
            self.text_edits.push(TextEdit::Inserted(character));
        }
    }

    /// Queues the deletion of the last character of the focused text field, which the caller reads: `last` is that
    /// character, or `None` when no text field is focused or it is empty, in which case nothing is deleted.
    pub fn delete_text_backward(&mut self, last: Option<char>)
        ensures
            final(self).edits_view() == match last {
                Some(character) => old(self).edits_view().push(TextEdit::Deleted(character)),
                None => old(self).edits_view(),
            },
            final(self).presses_view() == old(self).presses_view(),
            final(self).held_view() == old(self).held_view(),
    {
        if let Some(character) = last {
            self.text_edits.push(TextEdit::Deleted(character));
        }
    }

    /// Takes the queued key presses, oldest first, and leaves none queued.
    pub fn take_key_presses(&mut self) -> (r: Vec<Key>)
        ensures
            r@ == old(self).presses_view(),
            final(self).presses_view() == Seq::<Key>::empty(),
            final(self).edits_view() == old(self).edits_view(),
            final(self).held_view() == old(self).held_view(),
    {
        let mut taken = Vec::new();
        std::mem::swap(&mut taken, &mut self.key_presses);
        taken
    }

    /// Takes the queued text edits, oldest first, and leaves none queued.
    pub fn take_text_edits(&mut self) -> (r: Vec<TextEdit>)
        ensures
            r@ == old(self).edits_view(),
            final(self).edits_view() == Seq::<TextEdit>::empty(),
            final(self).presses_view() == old(self).presses_view(),
            final(self).held_view() == old(self).held_view(),
    {
        let mut taken = Vec::new();
        std::mem::swap(&mut taken, &mut self.text_edits);
        taken
    }

    /// Discards queued presses and edits and releases every held key, as when the window loses focus.
    pub fn cancel(&mut self)
        ensures
            final(self).held_view() == Set::<Key>::empty(),
            final(self).presses_view() == Seq::<Key>::empty(),
            final(self).edits_view() == Seq::<TextEdit>::empty(),
    {
        self.held.clear();
        self.key_presses.clear();
        self.text_edits.clear();
        assert(self.held@.to_set() =~= Set::<Key>::empty());
    }
}

/// The `PointerQueue` struct collects the pointer input of one frame: the button state, each button change, each
/// scroll delta `V`, and each drop released at a position `P`, in the order they arrived.
pub struct PointerQueue<V, P> {
    /// Whether the button is held down.
    pub clicking: bool,
    /// Each button change, `true` for a press.
    pub clicks: Vec<bool>,
    pub scrolls: Vec<V>,
    /// The drops released since the last evaluation, delivered before components poll.
    pub drops: Vec<DragDrop<P>>,
}

impl<V, P> PointerQueue<V, P> {
    /// Creates a queue with the button up and nothing queued.
    pub fn new() -> (r: Self)
        ensures
            !r.clicking,
            r.clicks@.len() == 0,
            r.scrolls@.len() == 0,
            r.drops@.len() == 0,
    {
        PointerQueue { clicking: false, clicks: Vec::new(), scrolls: Vec::new(), drops: Vec::new() }
    }

    /// Records that the button is now `pressed` or released.
    pub fn update_click_state(&mut self, pressed: bool)
        ensures
            final(self).clicking == pressed,
            final(self).clicks@ == old(self).clicks@.push(pressed),
            final(self).scrolls@ == old(self).scrolls@,
            final(self).drops@ == old(self).drops@,
    {
        self.clicking = pressed;
        self.clicks.push(pressed);
    }

    /// Records one scroll by `delta`.
    pub fn update_scroll_state(&mut self, delta: V)
        ensures
            final(self).clicking == old(self).clicking,
            final(self).clicks@ == old(self).clicks@,
            final(self).scrolls@ == old(self).scrolls@.push(delta),
            final(self).drops@ == old(self).drops@,
    {
        self.scrolls.push(delta);
    }

    /// Discards queued clicks, scrolls, and drops and releases the button, as when the window loses focus.
    pub fn cancel(&mut self)
        ensures
            !final(self).clicking,
            final(self).clicks@.len() == 0,
            final(self).scrolls@.len() == 0,
            final(self).drops@.len() == 0,
    {
        self.clicking = false;
        self.clicks.clear();
        self.scrolls.clear();
        self.drops.clear();
    }
}

/// A key held down queues one press however often the platform repeats the press, and once released, the next press
/// counts again.
pub proof fn a_held_key_is_pressed_once(held: Set<Key>, key: Key)
    ensures
        queues_press(held, key, true) == !held.contains(key),
        !queues_press(held_after(held, key, true), key, true),
        queues_press(held_after(held_after(held, key, true), key, false), key, true),
{
}

} // verus!
