//! The licensing exchange, which for this client is one PDU that says there is none.
//!
//! A Windows host answers the Client Info PDU with a licensing PDU before it will
//! start a share. Against a Remote Desktop Session Host with per-device licensing
//! that is the start of a real exchange (a licence request, a platform challenge, a
//! certificate), but against the hosts this client targets it is a single message
//! meaning *this client needs no licence*: an error alert whose error code is
//! `STATUS_VALID_CLIENT`.
//!
//! So there is nothing here to implement, only something to recognize, and one thing
//! to refuse clearly. A server that opens a real licensing exchange gets a sentence
//! naming what it asked for rather than a decoder walking into a certificate it was
//! never going to be able to answer.

use vstd::prelude::*;

use super::share;
use super::wire::{cursor, le16_at, le32_at, Malformed, Reader, Step};

verus! {

/// `ERROR_ALERT`. The other preamble types are all steps of an exchange this client
/// does not take part in, so they are named where they are refused rather than here.
pub const ERROR_ALERT: u8 = 0xFF;

/// `STATUS_VALID_CLIENT`: no licence is needed, carry on to the share.
pub const STATUS_VALID_CLIENT: u32 = 0x0000_0007;

pub const WHAT: &'static str = "a licensing PDU";

pub open spec fn accept_spec(payload: Seq<u8>) -> Result<(), Malformed> {
    match share::security_step(cursor(WHAT, payload)) {
        Step::Stop(e) => Err(e),
        Step::Got(flags, c) => if flags & share::LICENSE_PACKET == 0 {
            Err(c.refused("its security flags", flags as u64))
        } else {
            match c.u8() {
                Step::Stop(e) => Err(e),
                Step::Got(preamble, c) => if preamble != ERROR_ALERT {
                    Err(c.refused("its message type", preamble as u64))
                } else {
                    match c.skip(3) {
                        Step::Stop(e) => Err(e),
                        Step::Got(_, c) => match c.u32_le() {
                            Step::Stop(e) => Err(e),
                            Step::Got(error, c) => if error != STATUS_VALID_CLIENT {
                                Err(c.refused("its error code", error as u64))
                            } else {
                                Ok(())
                            },
                        },
                    }
                },
            }
        },
    }
}

/// Read the server's licensing PDU, and accept only the one that means the session
/// may continue.
pub fn accept(payload: &[u8]) -> (res: Result<(), Malformed>)
    ensures
        res == accept_spec(payload@),
{
    let mut r = Reader::new(WHAT, payload);
    let flags = share::read_security_header(&mut r)?;
    if flags & share::LICENSE_PACKET == 0 {
        return Err(r.refuse("its security flags", flags as u64));
    }

    let preamble = r.u8()?;
    if preamble != ERROR_ALERT {
        return Err(r.refuse("its message type", preamble as u64));
    }
    // The flags and version of the preamble, and the message size after it: nothing
    // here changes what the one message this client accepts means.
    r.skip(3)?;

    let error = r.u32_le()?;
    if error != STATUS_VALID_CLIENT {
        return Err(r.refuse("its error code", error as u64));
    }
    Ok(())
}

/// A server is taken to have no need of a licence where, behind the flag that says so, it sends
/// an error alert that is no error; and nowhere else.
pub proof fn a_licence_is_waived_by_one_alert(payload: Seq<u8>)
    ensures
        accept_spec(payload) is Ok <==> payload.len() >= 12 && le16_at(payload, 0) & 0x80 != 0 && payload[4] == 0xFF
            && le32_at(payload, 8) == 7,
{
}

} // verus!
