//! What the server tells the client: output of the terminal, new terminal sizes
//! and which input has been echoed.

use vstd::prelude::*;

use crate::messages::{ResizeMessage, MESSAGE_DEPTH};
use crate::wire::{self, put_bytes_field, put_content, put_number};

verus! {

/// Output of the terminal.
pub struct HostBytes {
    pub hoststring: Option<Vec<u8>>,
}

/// The content of a [`HostBytes`].
pub struct HostBytesView {
    pub hoststring: Option<Seq<u8>>,
}

impl View for HostBytes {
    type V = HostBytesView;

    open spec fn view(&self) -> HostBytesView {
        HostBytesView { hoststring: wire::bytes_view(self.hoststring) }
    }
}

impl HostBytesView {
    /// The message with no field set.
    pub open spec fn empty() -> HostBytesView {
        HostBytesView { hoststring: None }
    }

    /// The bytes of the message.
    pub open spec fn bytes(self) -> Seq<u8> {
        wire::content_field(4, self.hoststring)
    }
}

impl wire::MessageView for HostBytesView {
    open spec fn depth() -> nat {
        (MESSAGE_DEPTH - 2) as nat
    }

    open spec fn with_field(self, tag: nat, f: wire::FieldView) -> Option<HostBytesView> {
        match f {
            wire::FieldView::Bytes(b) => if tag == 4 {
                Some(HostBytesView { hoststring: Some(b) })
            } else {
                Some(self)
            },
            _ => if tag == 4 {
                None
            } else {
                Some(self)
            },
        }
    }
}

/// The newest input state whose effects have had time to show.
#[derive(Clone, Copy)]
pub struct EchoAck {
    pub echo_ack_num: Option<u64>,
}

impl EchoAck {
    /// The message with no field set.
    pub open spec fn empty() -> EchoAck {
        EchoAck { echo_ack_num: None }
    }

    /// The bytes of the message.
    pub open spec fn bytes(self) -> Seq<u8> {
        wire::number_field(8, wire::wide(self.echo_ack_num))
    }
}

impl wire::MessageView for EchoAck {
    open spec fn depth() -> nat {
        (MESSAGE_DEPTH - 2) as nat
    }

    open spec fn with_field(self, tag: nat, f: wire::FieldView) -> Option<EchoAck> {
        match f {
            wire::FieldView::Varint(v) => if tag == 8 {
                Some(EchoAck { echo_ack_num: Some(v as u64) })
            } else {
                Some(self)
            },
            _ => if tag == 8 {
                None
            } else {
                Some(self)
            },
        }
    }
}

/// One thing that happened at the server.
pub struct HostInstruction {
    pub hostbytes: Option<HostBytes>,
    pub resize: Option<ResizeMessage>,
    pub echoack: Option<EchoAck>,
}

/// The content of a [`HostInstruction`].
pub struct HostInstructionView {
    pub hostbytes: Option<HostBytesView>,
    pub resize: Option<ResizeMessage>,
    pub echoack: Option<EchoAck>,
}

impl View for HostInstruction {
    type V = HostInstructionView;

    open spec fn view(&self) -> HostInstructionView {
        HostInstructionView {
            hostbytes: match self.hostbytes {
                Some(h) => Some(h@),
                None => None,
            },
            resize: self.resize,
            echoack: self.echoack,
        }
    }
}

impl HostInstructionView {
    /// The message with no field set.
    pub open spec fn empty() -> HostInstructionView {
        HostInstructionView { hostbytes: None, resize: None, echoack: None }
    }

    /// The bytes of the output.
    pub open spec fn hostbytes_bytes(self) -> Option<Seq<u8>> {
        match self.hostbytes {
            Some(h) => Some(h.bytes()),
            None => None,
        }
    }

    /// The bytes of the size.
    pub open spec fn resize_bytes(self) -> Option<Seq<u8>> {
        match self.resize {
            Some(r) => Some(r.bytes()),
            None => None,
        }
    }

    /// The bytes of the echo acknowledgment.
    pub open spec fn echoack_bytes(self) -> Option<Seq<u8>> {
        match self.echoack {
            Some(e) => Some(e.bytes()),
            None => None,
        }
    }

    /// The bytes of the message.
    pub open spec fn bytes(self) -> Seq<u8> {
        wire::content_field(2, self.hostbytes_bytes()) + wire::content_field(
            3,
            self.resize_bytes(),
        ) + wire::content_field(7, self.echoack_bytes())
    }
}

impl wire::MessageView for HostInstructionView {
    open spec fn depth() -> nat {
        (MESSAGE_DEPTH - 1) as nat
    }

    open spec fn with_field(self, tag: nat, f: wire::FieldView) -> Option<HostInstructionView> {
        match f {
            wire::FieldView::Bytes(b) => if tag == 2 {
                match wire::merged(
                    match self.hostbytes {
                        Some(h) => h,
                        None => HostBytesView::empty(),
                    },
                    b,
                ) {
                    Some(h) => Some(HostInstructionView { hostbytes: Some(h), ..self }),
                    None => None,
                }
            } else if tag == 3 {
                match wire::merged(
                    match self.resize {
                        Some(r) => r,
                        None => ResizeMessage::nothing(),
                    },
                    b,
                ) {
                    Some(r) => Some(HostInstructionView { resize: Some(r), ..self }),
                    None => None,
                }
            } else if tag == 7 {
                match wire::merged(
                    match self.echoack {
                        Some(e) => e,
                        None => EchoAck::empty(),
                    },
                    b,
                ) {
                    Some(e) => Some(HostInstructionView { echoack: Some(e), ..self }),
                    None => None,
                }
            } else {
                Some(self)
            },
            _ => if tag == 2 || tag == 3 || tag == 7 {
                None
            } else {
                Some(self)
            },
        }
    }
}

impl HostInstruction {
    /// The bytes of the instruction.
    fn encode_to_vec(&self) -> (out: Vec<u8>)
        ensures
            out@ == self@.bytes(),
    {
        let hostbytes: Option<Vec<u8>> = match &self.hostbytes {
            Some(h) => {
                let mut inner: Vec<u8> = Vec::new();
                put_content(4, &h.hoststring, &mut inner);
                assert(inner@ =~= h@.bytes());
                Some(inner)
            },
            None => None,
        };
        let resize: Option<Vec<u8>> = match self.resize {
            Some(r) => Some(r.encode_to_vec()),
            None => None,
        };
        let echoack: Option<Vec<u8>> = match self.echoack {
            Some(e) => {
                let mut inner: Vec<u8> = Vec::new();
                put_number(8, e.echo_ack_num, &mut inner);
                assert(inner@ =~= e.bytes());
                Some(inner)
            },
            None => None,
        };
        let mut out: Vec<u8> = Vec::new();
        put_content(2, &hostbytes, &mut out);
        put_content(3, &resize, &mut out);
        put_content(7, &echoack, &mut out);
        assert(out@ =~= self@.bytes());
        out
    }
}

/// What happened at the server since the state that the client knows of.
pub struct HostMessage {
    pub instruction: Vec<HostInstruction>,
}

/// The content of a [`HostMessage`].
pub struct HostMessageView {
    pub instruction: Seq<HostInstructionView>,
}

impl View for HostMessage {
    type V = HostMessageView;

    open spec fn view(&self) -> HostMessageView {
        HostMessageView {
            instruction: Seq::new(self.instruction@.len(), |i: int| self.instruction@[i]@),
        }
    }
}

/// The bytes of some instructions, each a field of its message.
pub open spec fn host_instructions_bytes(s: Seq<HostInstructionView>) -> Seq<u8>
    decreases s.len(),
{
    if s.len() == 0 {
        Seq::empty()
    } else {
        wire::bytes_field(1, s[0].bytes()) + host_instructions_bytes(s.drop_first())
    }
}

impl HostMessageView {
    /// The message with no instruction.
    pub open spec fn empty() -> HostMessageView {
        HostMessageView { instruction: Seq::empty() }
    }

    /// The bytes of the message.
    pub open spec fn bytes(self) -> Seq<u8> {
        host_instructions_bytes(self.instruction)
    }
}

impl wire::MessageView for HostMessageView {
    open spec fn depth() -> nat {
        MESSAGE_DEPTH as nat
    }

    open spec fn with_field(self, tag: nat, f: wire::FieldView) -> Option<HostMessageView> {
        if tag != 1 {
            Some(self)
        } else {
            match f {
                wire::FieldView::Bytes(b) => match wire::merged(HostInstructionView::empty(), b) {
                    Some(inst) => Some(
                        HostMessageView { instruction: self.instruction.push(inst) },
                    ),
                    None => None,
                },
                _ => None,
            }
        }
    }
}

/// The message that the client reads from some bytes, if they hold one.
pub open spec fn decoded_host_message(s: Seq<u8>) -> Option<HostMessageView> {
    wire::merged(HostMessageView::empty(), s)
}

impl HostMessage {
    /// The bytes of the message. The client decodes them to it again.
    pub fn encode_to_vec(&self) -> (out: Vec<u8>)
        ensures
            out@ == self@.bytes(),
            decoded_host_message(out@) == Some(self@),
    {
        let mut out: Vec<u8> = Vec::new();
        let mut i: usize = 0;
        assert(self@.instruction.skip(0) =~= self@.instruction);
        assert(out@ + self@.bytes() =~= self@.bytes());
        while i < self.instruction.len()
            invariant
                i <= self.instruction@.len(),
                self@.instruction.len() == self.instruction@.len(),
                out@ + host_instructions_bytes(self@.instruction.skip(i as int)) == self@.bytes(),
                forall|j: int|
                    0 <= j < i ==> (#[trigger] self@.instruction[j]).bytes().len() <= u64::MAX,
            decreases self.instruction@.len() - i,
        {
            let ghost rest = self@.instruction.skip(i as int);
            let ghost before = out@;
            let inner = self.instruction[i].encode_to_vec();
            assert(inner.len() == inner@.len());
            put_bytes_field(1, inner.as_slice(), &mut out);
            proof {
                assert(rest[0] == self@.instruction[i as int]);
                assert(rest.drop_first() =~= self@.instruction.skip(i + 1));
                assert(out@ + host_instructions_bytes(rest.drop_first()) =~= before
                    + host_instructions_bytes(rest));
            }
            i = i + 1;
        }
        proof {
            assert(self@.instruction.skip(i as int) =~= Seq::empty());
            assert(out@ + Seq::<u8>::empty() =~= out@);
            law_host_message_decode_after_encode(self@);
        }
        out
    }
}

/// An instruction that was encoded is decoded again.
pub proof fn law_host_instruction_decode_after_encode(m: HostInstructionView)
    requires
        m.bytes().len() <= u64::MAX,
    ensures
        wire::merged(HostInstructionView::empty(), m.bytes()) == Some(m),
{
    let m0 = HostInstructionView::empty();
    let m1 = HostInstructionView { hostbytes: m.hostbytes, ..m0 };
    let m2 = HostInstructionView { resize: m.resize, ..m1 };
    let h = m.hostbytes_bytes();
    let r = m.resize_bytes();
    let e = m.echoack_bytes();
    let r3 = wire::content_field(7, e) + Seq::<u8>::empty();
    let r2 = wire::content_field(3, r) + r3;
    assert(m.bytes() =~= wire::content_field(2, h) + r2);
    if let Some(hostbytes) = m.hostbytes {
        assert(wire::content_field(2, h).len() >= hostbytes.bytes().len());
        if let Some(s) = hostbytes.hoststring {
            assert(hostbytes.bytes().len() >= s.len());
        }
        assert(wire::merged(HostBytesView::empty(), hostbytes.bytes()) == Some(hostbytes)) by {
            assert(hostbytes.bytes() =~= hostbytes.bytes() + Seq::<u8>::empty());
            wire::lemma_merged_content(
                HostBytesView::empty(),
                4,
                hostbytes.hoststring,
                Seq::empty(),
            );
            wire::lemma_merged_nothing(hostbytes);
        }
    }
    if let Some(resize) = m.resize {
        assert(wire::content_field(3, r).len() >= resize.bytes().len());
        crate::messages::law_resize_decode_after_encode(resize);
    }
    if let Some(echoack) = m.echoack {
        assert(wire::content_field(7, e).len() >= echoack.bytes().len());
        assert(wire::merged(EchoAck::empty(), echoack.bytes()) == Some(echoack)) by {
            assert(echoack.bytes() =~= echoack.bytes() + Seq::<u8>::empty());
            wire::lemma_merged_number(
                EchoAck::empty(),
                8,
                wire::wide(echoack.echo_ack_num),
                Seq::empty(),
            );
            wire::lemma_merged_nothing(echoack);
        }
    }
    assert(wire::merged(m0, m.bytes()) == wire::merged(m1, r2)) by {
        wire::lemma_merged_content(m0, 2, h, r2);
    }
    assert(wire::merged(m1, r2) == wire::merged(m2, r3)) by {
        wire::lemma_merged_content(m1, 3, r, r3);
    }
    assert(wire::merged(m2, r3) == wire::merged(m, Seq::empty())) by {
        wire::lemma_merged_content(m2, 7, e, Seq::empty());
    }
    wire::lemma_merged_nothing(m);
}

proof fn lemma_host_instructions(before: HostMessageView, s: Seq<HostInstructionView>)
    requires
        forall|i: int| 0 <= i < s.len() ==> (#[trigger] s[i]).bytes().len() <= u64::MAX,
    ensures
        wire::merged(before, host_instructions_bytes(s)) == Some(
            HostMessageView { instruction: before.instruction + s },
        ),
    decreases s.len(),
{
    if s.len() == 0 {
        wire::lemma_merged_nothing(before);
        assert(before.instruction + s =~= before.instruction);
    } else {
        let next = HostMessageView { instruction: before.instruction.push(s[0]) };
        let rest = host_instructions_bytes(s.drop_first());
        law_host_instruction_decode_after_encode(s[0]);
        wire::lemma_merged_content(before, 1, Some(s[0].bytes()), rest);
        assert forall|i: int| 0 <= i < s.drop_first().len() implies (
        #[trigger] s.drop_first()[i]).bytes().len() <= u64::MAX by {
            assert(s.drop_first()[i] == s[i + 1]);
        }
        lemma_host_instructions(next, s.drop_first());
        assert(next.instruction + s.drop_first() =~= before.instruction + s);
    }
}

/// A message that was encoded is decoded again, with all instructions in order.
pub proof fn law_host_message_decode_after_encode(m: HostMessageView)
    requires
        forall|i: int|
            0 <= i < m.instruction.len() ==> (#[trigger] m.instruction[i]).bytes().len()
                <= u64::MAX,
    ensures
        decoded_host_message(m.bytes()) == Some(m),
{
    lemma_host_instructions(HostMessageView::empty(), m.instruction);
    assert(HostMessageView::empty().instruction + m.instruction =~= m.instruction);
}

} // verus!
