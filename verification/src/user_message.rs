//! What the client tells the server: keys that were pressed and new terminal
//! sizes.

use vstd::prelude::*;
use vstd::slice::slice_to_vec;

use crate::messages::{ResizeMessage, MESSAGE_DEPTH};
use crate::wire::{self, get_field, Field};

verus! {

/// Keys that were pressed.
pub struct Keystroke {
    pub keys: Option<Vec<u8>>,
}

/// The content of a [`Keystroke`].
pub struct KeystrokeView {
    pub keys: Option<Seq<u8>>,
}

impl View for Keystroke {
    type V = KeystrokeView;

    open spec fn view(&self) -> KeystrokeView {
        KeystrokeView { keys: wire::bytes_view(self.keys) }
    }
}

impl KeystrokeView {
    /// The message with no field set.
    pub open spec fn empty() -> KeystrokeView {
        KeystrokeView { keys: None }
    }

    /// The bytes of the message.
    pub open spec fn bytes(self) -> Seq<u8> {
        wire::content_field(4, self.keys)
    }
}

impl wire::MessageView for KeystrokeView {
    open spec fn depth() -> nat {
        (MESSAGE_DEPTH - 2) as nat
    }

    open spec fn with_field(self, tag: nat, f: wire::FieldView) -> Option<KeystrokeView> {
        match f {
            wire::FieldView::Bytes(b) => if tag == 4 {
                Some(KeystrokeView { keys: Some(b) })
            } else {
                Some(self)
            },
            _ => if tag == 4 {
                None
            } else {
                Some(self)
            },
        }
    }
}

impl Keystroke {
    /// The message with the fields of `data` read.
    fn merge(self, data: &[u8]) -> (r: Option<Keystroke>)
        ensures
            r is Some == wire::merged(self@, data@) is Some,
            r matches Some(m) ==> wire::merged(self@, data@) == Some(m@),
    {
        let mut m = self;
        let mut left = data;
        while left.len() > 0
            invariant
                wire::merged(self@, data@) == wire::merged(m@, left@),
            decreases left@.len(),
        {
            match get_field(left, MESSAGE_DEPTH - 2) {
                Some((tag, field, rest)) => {
                    proof {
                        wire::lemma_merged_first(m@, left@, tag as nat, field@, rest@);
                    }
                    if tag == 4 {
                        match field {
                            Field::Bytes(b) => {
                                m.keys = Some(slice_to_vec(b));
                            },
                            _ => return None,
                        }
                    }
                    left = rest;
                },
                None => {
                    proof {
                        wire::lemma_merged_bad(m@, left@);
                    }
                    return None;
                },
            }
        }
        proof {
            wire::lemma_merged_nothing(m@);
            assert(left@ =~= Seq::empty());
        }
        Some(m)
    }
}

/// One thing that the client did.
pub struct UserInstruction {
    pub keystroke: Option<Keystroke>,
    pub resize: Option<ResizeMessage>,
}

/// The content of a [`UserInstruction`].
pub struct UserInstructionView {
    pub keystroke: Option<KeystrokeView>,
    pub resize: Option<ResizeMessage>,
}

impl View for UserInstruction {
    type V = UserInstructionView;

    open spec fn view(&self) -> UserInstructionView {
        UserInstructionView {
            keystroke: match self.keystroke {
                Some(k) => Some(k@),
                None => None,
            },
            resize: self.resize,
        }
    }
}

impl UserInstructionView {
    /// The message with no field set.
    pub open spec fn empty() -> UserInstructionView {
        UserInstructionView { keystroke: None, resize: None }
    }

    /// The keystroke read so far.
    pub open spec fn keystroke_or_empty(self) -> KeystrokeView {
        match self.keystroke {
            Some(k) => k,
            None => KeystrokeView::empty(),
        }
    }

    /// The size read so far.
    pub open spec fn resize_or_empty(self) -> ResizeMessage {
        match self.resize {
            Some(r) => r,
            None => ResizeMessage::nothing(),
        }
    }

    /// The bytes of the keystroke.
    pub open spec fn keystroke_bytes(self) -> Option<Seq<u8>> {
        match self.keystroke {
            Some(k) => Some(k.bytes()),
            None => None,
        }
    }

    /// The bytes of the size.
    pub open spec fn resize_bytes(self) -> Option<Seq<u8>> {
        match self.resize {
            Some(r) => Some(r.bytes()),
            None => None,
        }
    }

    /// The bytes of the message.
    pub open spec fn bytes(self) -> Seq<u8> {
        wire::content_field(2, self.keystroke_bytes()) + wire::content_field(
            3,
            self.resize_bytes(),
        )
    }
}

impl wire::MessageView for UserInstructionView {
    open spec fn depth() -> nat {
        (MESSAGE_DEPTH - 1) as nat
    }

    open spec fn with_field(self, tag: nat, f: wire::FieldView) -> Option<UserInstructionView> {
        match f {
            wire::FieldView::Bytes(b) => if tag == 2 {
                match wire::merged(self.keystroke_or_empty(), b) {
                    Some(k) => Some(UserInstructionView { keystroke: Some(k), ..self }),
                    None => None,
                }
            } else if tag == 3 {
                match wire::merged(self.resize_or_empty(), b) {
                    Some(r) => Some(UserInstructionView { resize: Some(r), ..self }),
                    None => None,
                }
            } else {
                Some(self)
            },
            _ => if tag == 2 || tag == 3 {
                None
            } else {
                Some(self)
            },
        }
    }
}

impl UserInstruction {
    /// The instruction that `data` holds.
    fn decode(data: &[u8]) -> (r: Option<UserInstruction>)
        ensures
            r is Some == wire::merged(UserInstructionView::empty(), data@) is Some,
            r matches Some(m) ==> wire::merged(UserInstructionView::empty(), data@) == Some(m@),
    {
        let mut m = UserInstruction { keystroke: None, resize: None };
        let mut left = data;
        while left.len() > 0
            invariant
                wire::merged(UserInstructionView::empty(), data@) == wire::merged(m@, left@),
            decreases left@.len(),
        {
            match get_field(left, MESSAGE_DEPTH - 1) {
                Some((tag, field, rest)) => {
                    proof {
                        wire::lemma_merged_first(m@, left@, tag as nat, field@, rest@);
                    }
                    if tag == 2 || tag == 3 {
                        let b = match field {
                            Field::Bytes(b) => b,
                            _ => return None,
                        };
                        if tag == 2 {
                            let before = match m.keystroke {
                                Some(k) => k,
                                None => Keystroke { keys: None },
                            };
                            let k = match before.merge(b) {
                                Some(k) => k,
                                None => return None,
                            };
                            m = UserInstruction { keystroke: Some(k), resize: m.resize };
                        } else {
                            let before = match m.resize {
                                Some(r) => r,
                                None => ResizeMessage::empty(),
                            };
                            let r = match before.merge(b) {
                                Some(r) => r,
                                None => return None,
                            };
                            m.resize = Some(r);
                        }
                    }
                    left = rest;
                },
                None => {
                    proof {
                        wire::lemma_merged_bad(m@, left@);
                    }
                    return None;
                },
            }
        }
        proof {
            wire::lemma_merged_nothing(m@);
            assert(left@ =~= Seq::empty());
        }
        Some(m)
    }
}

/// What the client did since the state that the server knows of.
pub struct UserMessage {
    pub instruction: Vec<UserInstruction>,
}

/// The content of a [`UserMessage`].
pub struct UserMessageView {
    pub instruction: Seq<UserInstructionView>,
}

impl View for UserMessage {
    type V = UserMessageView;

    open spec fn view(&self) -> UserMessageView {
        UserMessageView {
            instruction: Seq::new(self.instruction@.len(), |i: int| self.instruction@[i]@),
        }
    }
}

/// The bytes of some instructions, each a field of its message.
pub open spec fn user_instructions_bytes(s: Seq<UserInstructionView>) -> Seq<u8>
    decreases s.len(),
{
    if s.len() == 0 {
        Seq::empty()
    } else {
        wire::bytes_field(1, s[0].bytes()) + user_instructions_bytes(s.drop_first())
    }
}

impl UserMessageView {
    /// The message with no instruction.
    pub open spec fn empty() -> UserMessageView {
        UserMessageView { instruction: Seq::empty() }
    }

    /// The bytes of the message.
    pub open spec fn bytes(self) -> Seq<u8> {
        user_instructions_bytes(self.instruction)
    }
}

impl wire::MessageView for UserMessageView {
    open spec fn depth() -> nat {
        MESSAGE_DEPTH as nat
    }

    open spec fn with_field(self, tag: nat, f: wire::FieldView) -> Option<UserMessageView> {
        if tag != 1 {
            Some(self)
        } else {
            match f {
                wire::FieldView::Bytes(b) => match wire::merged(UserInstructionView::empty(), b) {
                    Some(inst) => Some(
                        UserMessageView { instruction: self.instruction.push(inst) },
                    ),
                    None => None,
                },
                _ => None,
            }
        }
    }
}

/// The message that some bytes hold, if they hold one.
pub open spec fn decoded_user_message(s: Seq<u8>) -> Option<UserMessageView> {
    wire::merged(UserMessageView::empty(), s)
}

impl UserMessage {
    /// The message that `data` holds, if it holds one.
    pub fn decode(data: &[u8]) -> (r: Option<UserMessage>)
        ensures
            r is Some == decoded_user_message(data@) is Some,
            r matches Some(m) ==> decoded_user_message(data@) == Some(m@),
    {
        let mut m = UserMessage { instruction: Vec::new() };
        assert(m@.instruction =~= UserMessageView::empty().instruction);
        let mut left = data;
        while left.len() > 0
            invariant
                decoded_user_message(data@) == wire::merged(m@, left@),
            decreases left@.len(),
        {
            match get_field(left, MESSAGE_DEPTH) {
                Some((tag, field, rest)) => {
                    let ghost before = m@;
                    proof {
                        wire::lemma_merged_first(before, left@, tag as nat, field@, rest@);
                    }
                    if tag == 1 {
                        let b = match field {
                            Field::Bytes(b) => b,
                            _ => return None,
                        };
                        let inst = match UserInstruction::decode(b) {
                            Some(inst) => inst,
                            None => return None,
                        };
                        let ghost added = inst@;
                        m.instruction.push(inst);
                        assert(m@.instruction =~= before.instruction.push(added));
                    }
                    left = rest;
                },
                None => {
                    proof {
                        wire::lemma_merged_bad(m@, left@);
                    }
                    return None;
                },
            }
        }
        proof {
            wire::lemma_merged_nothing(m@);
            assert(left@ =~= Seq::empty());
        }
        Some(m)
    }
}

/// Keys that were encoded are decoded again.
pub proof fn law_keystroke_decode_after_encode(m: KeystrokeView)
    requires
        m.keys matches Some(b) ==> b.len() <= u64::MAX,
    ensures
        wire::merged(KeystrokeView::empty(), m.bytes()) == Some(m),
{
    assert(m.bytes() =~= wire::content_field(4, m.keys) + Seq::<u8>::empty());
    wire::lemma_merged_content(KeystrokeView::empty(), 4, m.keys, Seq::empty());
    wire::lemma_merged_nothing(m);
}

/// An instruction that was encoded is decoded again.
pub proof fn law_user_instruction_decode_after_encode(m: UserInstructionView)
    requires
        m.bytes().len() <= u64::MAX,
    ensures
        wire::merged(UserInstructionView::empty(), m.bytes()) == Some(m),
{
    let m0 = UserInstructionView::empty();
    let m1 = UserInstructionView { keystroke: m.keystroke, ..m0 };
    let k = m.keystroke_bytes();
    let r = m.resize_bytes();
    let r2 = wire::content_field(3, r) + Seq::<u8>::empty();
    assert(m.bytes() =~= wire::content_field(2, k) + r2);
    if let Some(keystroke) = m.keystroke {
        assert(wire::content_field(2, k).len() >= keystroke.bytes().len());
        if let Some(keys) = keystroke.keys {
            assert(keystroke.bytes().len() >= keys.len());
        }
        law_keystroke_decode_after_encode(keystroke);
    }
    if let Some(resize) = m.resize {
        assert(wire::content_field(3, r).len() >= resize.bytes().len());
        crate::messages::law_resize_decode_after_encode(resize);
    }
    assert(wire::merged(m0, m.bytes()) == wire::merged(m1, r2)) by {
        wire::lemma_merged_content(m0, 2, k, r2);
    }
    assert(wire::merged(m1, r2) == wire::merged(m, Seq::empty())) by {
        wire::lemma_merged_content(m1, 3, r, Seq::empty());
    }
    wire::lemma_merged_nothing(m);
}

proof fn lemma_user_instructions(before: UserMessageView, s: Seq<UserInstructionView>)
    requires
        forall|i: int| 0 <= i < s.len() ==> (#[trigger] s[i]).bytes().len() <= u64::MAX,
    ensures
        wire::merged(before, user_instructions_bytes(s)) == Some(
            UserMessageView { instruction: before.instruction + s },
        ),
    decreases s.len(),
{
    if s.len() == 0 {
        wire::lemma_merged_nothing(before);
        assert(before.instruction + s =~= before.instruction);
    } else {
        let next = UserMessageView { instruction: before.instruction.push(s[0]) };
        let rest = user_instructions_bytes(s.drop_first());
        law_user_instruction_decode_after_encode(s[0]);
        wire::lemma_merged_content(before, 1, Some(s[0].bytes()), rest);
        assert forall|i: int| 0 <= i < s.drop_first().len() implies (
        #[trigger] s.drop_first()[i]).bytes().len() <= u64::MAX by {
            assert(s.drop_first()[i] == s[i + 1]);
        }
        lemma_user_instructions(next, s.drop_first());
        assert(next.instruction + s.drop_first() =~= before.instruction + s);
    }
}

/// A message that was encoded is decoded again, with all instructions in order.
pub proof fn law_user_message_decode_after_encode(m: UserMessageView)
    requires
        forall|i: int|
            0 <= i < m.instruction.len() ==> (#[trigger] m.instruction[i]).bytes().len()
                <= u64::MAX,
    ensures
        decoded_user_message(m.bytes()) == Some(m),
{
    lemma_user_instructions(UserMessageView::empty(), m.instruction);
    assert(UserMessageView::empty().instruction + m.instruction =~= m.instruction);
}

} // verus!
