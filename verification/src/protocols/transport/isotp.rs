//! ISO-TP (ISO 15765-2) transport over CAN: the kinds of message and
//! address it knows, the outcomes of a transfer, and the packing of payload
//! bytes into one frame.

use vstd::prelude::*;

verus! {

/// The kinds of message that ISO-TP carries.
#[allow(dead_code)]
enum MessageType {
    Diagnostics,
    RemoteDiagnostics,
}

/// How a message is addressed: to one node or to all of them.
#[allow(dead_code)]
enum TargetAddressType {
    Physical,
    Functional,
}

/// How a transfer can fail.
#[allow(dead_code)]
enum ResultType {
    TimeoutA,
    TimeoutBs,
    TimeoutCr,
    WrongSequenceNumber,
    InvalidFlowStatus,
    UnexpectedPDU,
    WaitFrameTimeOverrun,
    BufferOverflow,
    Error,
}

#[allow(dead_code)]
struct Message {}

/// The state of one transfer: the identifiers that it sends and answers
/// on, the bytes to send, whether an answer is awaited and whether it is over.
#[allow(dead_code)]
struct IsoTpTransferState {
    tx_arbitration_id: u32,
    rx_arbitration_id: u32,
    data: Vec<u8>,
    expect_response: bool,
    done: bool,
}

/// The payload of one frame for `data`: its first eight bytes, or all of
/// them followed by zeros where there are fewer.
pub open spec fn frame_payload(data: Seq<u8>) -> Seq<u8> {
    Seq::new(8, |i: int| if i < data.len() { data[i] } else { 0u8 })
}

/// Copies at most eight bytes of `data` into a frame payload, zero-filled.
pub fn slice_to_frame_payload(data: &[u8]) -> (res: [u8; 8])
    ensures
        res@ == frame_payload(data@),
{
    let max: usize = if data.len() < 8 {
        data.len()
    } else {
        8
    };
    let mut res = [0u8; 8];
    let mut i: usize = 0;
    while i < max
        invariant
            max <= 8,
            max <= data@.len(),
            max == data@.len() || max == 8,
            0 <= i <= max,
            res@.len() == 8,
            forall|j: int| 0 <= j < i ==> res@[j] == data@[j],
            forall|j: int| i <= j < 8 ==> res@[j] == 0u8,
        decreases max - i,
    {
        res[i] = data[i];
        i = i + 1;
    }
    assert(res@ =~= frame_payload(data@));
    res
}


/// The payload of one frame holds, in order, the first bytes of the data,
/// as many as there are up to eight, and zeros after them.
pub proof fn law_frame_payload(data: Seq<u8>)
    ensures
        frame_payload(data).len() == 8,
        forall|i: int| 0 <= i < data.len() && i < 8 ==> #[trigger] frame_payload(data)[i] == data[i],
        forall|i: int| data.len() <= i < 8 ==> #[trigger] frame_payload(data)[i] == 0,
{
}

} // verus!
