//! Input kinds, keys, text edits, and the small value types elements are described with.
use vstd::prelude::*;

use crate::element::Id;

verus! {

/// The interpolation curves an animation track can follow.
pub enum Curves {
    Linear,
}

/// How a point's winding number decides whether it lies inside a path.
#[derive(Debug, Clone, Copy, PartialEq, Eq, Hash)]
pub enum FillRule {
    /// Inside where the winding number is not zero.
    NonZero,
    /// Inside where the winding number is odd. Resolved when the path is packed by orienting nested contours against
    /// their parents, so it is exact for contours that do not cross themselves or each other.
    EvenOdd,
}

impl Default for FillRule {
    fn default() -> (r: Self)
        ensures
            r == FillRule::NonZero,
    {
        FillRule::NonZero
    }
}

/// The `CustomShape` trait names a shape an application draws itself.
pub trait CustomShape {
    fn name(&self) -> Option<&str>;
}

/// The events a container can wait for.
#[derive(Debug, Clone, Copy, PartialEq, Eq, Structural)]
pub enum Events {
    Actuated,
    Scrolled,
    /// The pointer was pressed on this element and the engine holds it until release or cancellation. Delivered to
    /// the surface under the press.
    Grabbed,
    /// The held element moved past the drag threshold. Delivered to the source once per evaluation while the pointer
    /// moves, with the event's delta set to the offset from the press point in layout units.
    Dragged,
    /// A source was released over this element or one of its descendants. Delivered to the target under the release
    /// point, then to each ancestor, with the event's source set. The source never receives its own drop.
    Dropped,
    /// A grab ended by release or cancellation. Delivered to the source after any drop the release produced, with the
    /// event's source set to the surface the drag was dropped on, if any.
    DragEnded,
    /// The pointer moved onto this surface or one of its descendants.
    PointerEntered,
    /// The pointer left this surface and all of its descendants.
    PointerExited,
}

/// The keys a focused element can wait for.
#[derive(Debug, Clone, Copy, PartialEq, Eq, Hash, Structural)]
pub enum Key {
    Escape,
    Backspace,
}

/// One edit of a focused text field's content.
#[derive(Debug, Clone, Copy, PartialEq, Eq, Structural)]
pub enum TextEdit {
    Inserted(char),
    Deleted(char),
}

/// The content `edit` leaves of `content`.
pub open spec fn edited(edit: TextEdit, content: Seq<char>) -> Seq<char> {
    match edit {
        TextEdit::Inserted(character) => content.push(character),
        TextEdit::Deleted(character) => if content.len() > 0 && content.last() == character {
            content.drop_last()
        } else {
            content
        },
    }
}

/// Appends one character to a string, as `String::push` documents.
pub assume_specification[ String::push ](string: &mut String, ch: char)
    ensures
        final(string)@ == old(string)@.push(ch),
;

/// Removes and returns the last character of a string, or `None` when it is empty, as `String::pop` documents.
pub assume_specification[ String::pop ](string: &mut String) -> (r: Option<char>)
    ensures
        old(string)@.len() == 0 ==> r is None && final(string)@ == old(string)@,
        old(string)@.len() > 0 ==> r == Some(old(string)@.last()) && final(string)@ == old(string)@.drop_last(),
;

impl TextEdit {
    /// Applies the edit to an application-owned string: an insertion appends its character, and a deletion removes
    /// the last character only when it is the deleted one.
    pub fn apply_to(self, content: &mut String)
        ensures
            final(content)@ == edited(self, old(content)@),
    {
        match self {
            TextEdit::Inserted(character) => content.push(character),
            TextEdit::Deleted(character) => {
                if let Some(last) = content.pop() {
                    if last != character {
                        content.push(last);
                        proof {
                            assert(old(content)@.drop_last().push(last) =~= old(content)@);
                        }
                    }
                }
            },
        }
    }
}

/// The `UiKeyEvent` struct is one key press delivered to a focused element.
#[derive(Debug, Clone, Copy, PartialEq, Eq, Structural)]
pub struct UiKeyEvent {
    pub target: Id,
    pub key: Key,
}

/// The `UiTextEditEvent` struct is one text edit delivered to a focused text field.
#[derive(Debug, Clone, Copy, PartialEq, Eq, Structural)]
pub struct UiTextEditEvent {
    pub target: Id,
    pub edit: TextEdit,
}

/// The `UiEvent` struct is one pointer event delivered to an element, with a pointer offset of type `V` where the
/// event carries one.
#[derive(Debug, Clone, Copy, PartialEq)]
pub struct UiEvent<V> {
    pub target: Id,
    pub kind: Events,
    /// The scroll delta of a scroll event, or the offset from the press point of a drag event.
    pub delta: Option<V>,
    /// The released drag source of a drop event, or the surface dropped on of a drag-end event.
    pub source: Option<Id>,
}

/// Builds an event addressed to a drag source without a payload.
pub fn drag_event<V>(source: Id, kind: Events) -> (r: UiEvent<V>)
    ensures
        r == (UiEvent::<V> { target: source, kind, delta: None, source: None }),
{
    UiEvent { target: source, kind, delta: None, source: None }
}

/// The `RenderRevision` struct identifies the content of one render.
///
/// Revisions are unique within one engine. Two renders from the same engine with equal revisions describe identical
/// visuals, so consumers keep the revision they last adopted and skip work while it repeats.
#[derive(Debug, Clone, Copy, PartialEq, Eq, Hash, Structural)]
pub struct RenderRevision(pub u64);

/// Deleting the character just inserted gives back the content as it was, and deleting another character changes
/// nothing.
pub proof fn deleting_an_insertion_restores_the_content(content: Seq<char>, inserted: char, other: char)
    requires
        other != inserted,
    ensures
        edited(TextEdit::Deleted(inserted), edited(TextEdit::Inserted(inserted), content)) == content,
        edited(TextEdit::Deleted(other), edited(TextEdit::Inserted(inserted), content)) == content.push(inserted),
{
    assert(content.push(inserted).drop_last() =~= content);
}

} // verus!
