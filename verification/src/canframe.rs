use vstd::prelude::*;

verus! {

/// The mathematical content of a CAN frame: the fields of [`CanFrame`],
/// with the payload as a sequence of bytes.
pub struct FrameModel {
    pub id: u32,
    pub ext: bool,
    pub rtr: bool,
    pub length: usize,
    pub data: Seq<u8>,
}

/// A CAN frame: its identifier, whether the identifier is extended
/// (29 bits) or standard (11 bits), whether it is a remote transmission
/// request, how many payload bytes it carries and the payload itself.
#[derive(Clone, Copy, Debug)]
pub struct CanFrame {
    pub id: u32,
    pub ext: bool,
    pub rtr: bool,
    pub length: usize,
    pub data: [u8; 8],
}

impl View for CanFrame {
    type V = FrameModel;

    open spec fn view(&self) -> FrameModel {
        FrameModel {
            id: self.id,
            ext: self.ext,
            rtr: self.rtr,
            length: self.length,
            data: self.data@,
        }
    }
}

/// Eight zero bytes: the payload of a frame that carries nothing yet.
pub open spec fn zero_payload() -> Seq<u8> {
    Seq::new(8, |i: int| 0u8)
}

impl CanFrame {
    /// A standard data frame with identifier 0, no payload and all payload
    /// bytes zero.
    pub fn new() -> (frame: CanFrame)
        ensures
            frame@ == (FrameModel { id: 0, ext: false, rtr: false, length: 0, data: zero_payload() }),
    {
        let frame = CanFrame { id: 0, rtr: false, ext: false, length: 0, data: [0u8; 8] };
        assert(frame.data@ =~= zero_payload());
        frame
    }
}

} // verus!
