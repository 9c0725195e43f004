//! What the host decides around the USB HID device: which protocol a device speaks,
//! which frame it is sent, what a write outcome means, and what the daemon does next.

use vstd::prelude::*;
use crate::frame::{ReadingBits, TempDigits, LocalTime, build_refresh_frame, build_shutdown_frame,
    build_iunity_frame, refresh_frame, value_array, local_time_valid, shutdown_frame, iunity_frame,
    ANT_MONITOR_VID, ANT_MONITOR_PID, ANTEC_IUNITY_VID, ANTEC_IUNITY_PID};
use crate::text::{decimal, push_decimal, chars_of};

verus! {

/// hidapi's `HidError`, carried through unread.
#[verifier::external_type_specification]
#[verifier::external_body]
pub struct ExHidError(hidapi::HidError);

/// The wire protocol of a cooler.
#[derive(Clone, Copy, Debug, PartialEq, Eq, Structural)]
pub enum ProtocolType {
    /// 65-byte HID reports with the 33-byte value array (ANT Esports, Vevor, HT).
    Classic,
    /// 12-byte packets with temperature digits and a checksum (Antec).
    IUnity,
}

/// The protocol that a USB device speaks, by its vendor and product IDs.
pub open spec fn protocol_of(vid: u16, pid: u16) -> Option<ProtocolType> {
    if vid == ANT_MONITOR_VID && pid == ANT_MONITOR_PID {
        Some(ProtocolType::Classic)
    } else if vid == ANTEC_IUNITY_VID && pid == ANTEC_IUNITY_PID {
        Some(ProtocolType::IUnity)
    } else {
        None
    }
}

impl ProtocolType {
    /// The protocol that a USB device speaks, by its vendor and product IDs; `None` for
    /// a device that is not a supported cooler.
    pub fn of_device(vid: u16, pid: u16) -> (r: Option<ProtocolType>)
        ensures
            r == protocol_of(vid, pid),
    {
        if vid == ANT_MONITOR_VID && pid == ANT_MONITOR_PID {
            Some(ProtocolType::Classic)
        } else if vid == ANTEC_IUNITY_VID && pid == ANTEC_IUNITY_PID {
            Some(ProtocolType::IUnity)
        } else {
            None
        }
    }

    /// The vendor and product IDs of the coolers that speak this protocol.
    pub fn device_ids(self) -> (r: (u16, u16))
        ensures
            protocol_of(r.0, r.1) == Some(self),
            self == ProtocolType::Classic ==> r == (ANT_MONITOR_VID, ANT_MONITOR_PID),
            self == ProtocolType::IUnity ==> r == (ANTEC_IUNITY_VID, ANTEC_IUNITY_PID),
    {
        match self {
            ProtocolType::Classic => (ANT_MONITOR_VID, ANT_MONITOR_PID),
            ProtocolType::IUnity => (ANTEC_IUNITY_VID, ANTEC_IUNITY_PID),
        }
    }
}

/// The protocols in the order in which a cooler is looked for: classic first.
pub fn open_order() -> (r: Vec<ProtocolType>)
    ensures
        r@ == seq![ProtocolType::Classic, ProtocolType::IUnity],
{
    let mut r: Vec<ProtocolType> = Vec::new();
    r.push(ProtocolType::Classic);
    r.push(ProtocolType::IUnity);
    assert(r@ =~= seq![ProtocolType::Classic, ProtocolType::IUnity]);
    r
}

/// Errors of the USB communication.
#[derive(Debug)]
pub enum UsbError {
    /// The HID library reported an error.
    Hid(hidapi::HidError),
    /// No supported cooler is connected.
    DeviceNotFound,
    /// Only part of a frame was written; the text says how much.
    WriteFailed(String),
    /// The device accepted nothing (it is busy).
    Busy,
}

/// The message of a short write.
pub open spec fn short_write_message(written: nat, expected: nat) -> Seq<char> {
    "wrote "@ + decimal(written) + " of "@ + decimal(expected) + " bytes"@
}

/// Makes a `String` of some characters (`String: FromIterator<char>`); it holds those
/// characters in order.
#[verifier::external_body]
fn string_from_chars(chars: &Vec<char>) -> (s: String)
    ensures
        s@ == chars@,
{
    chars.iter().collect()
}

fn append_chars(out: &mut Vec<char>, s: &str)
    ensures
        final(out)@ == old(out)@ + s@,
{
    let c = chars_of(s);
    let mut i: usize = 0;
    let ghost start = out@;
    while i < c.len()
        invariant
            i <= c@.len(),
            c@ == s@,
            out@ == start + c@.take(i as int),
        decreases c@.len() - i,
    {
        out.push(c[i]);
        i = i + 1;
        assert(out@ =~= start + c@.take(i as int));
    }
    assert(c@.take(c@.len() as int) =~= c@);
}

/// The message of a short write: `wrote <written> of <expected> bytes`.
pub fn short_write_text(written: usize, expected: usize) -> (s: String)
    ensures
        s@ == short_write_message(written as nat, expected as nat),
{
    let mut c: Vec<char> = Vec::new();
    append_chars(&mut c, "wrote ");
    push_decimal(written as u64, &mut c);
    append_chars(&mut c, " of ");
    push_decimal(expected as u64, &mut c);
    append_chars(&mut c, " bytes");
    string_from_chars(&c)
}

/// What the write of a refresh frame of `frame_len` bytes came to: success when the
/// whole frame went out, `Busy` when nothing did, `WriteFailed` when part of it did,
/// the HID error when the write failed.
pub fn refresh_write_outcome(written: Result<usize, hidapi::HidError>, frame_len: usize) -> (r:
    Result<(), UsbError>)
    ensures
        match written {
            Ok(n) => if n == frame_len {
                r is Ok
            } else if n == 0 {
                r matches Err(UsbError::Busy)
            } else {
                r matches Err(UsbError::WriteFailed(m)) && m@ == short_write_message(
                    n as nat,
                    frame_len as nat,
                )
            },
            Err(e) => r matches Err(UsbError::Hid(h)) && h == e,
        },
{
    match written {
        Ok(n) => {
            if n == frame_len {
                Ok(())
            } else if n == 0 {
                Err(UsbError::Busy)
            } else {
                Err(UsbError::WriteFailed(short_write_text(n, frame_len)))
            }
        },
        Err(e) => Err(UsbError::Hid(e)),
    }
}

/// What the write of a shutdown frame came to: success however much went out, the HID
/// error when the write failed.
pub fn shutdown_write_outcome(written: Result<usize, hidapi::HidError>) -> (r: Result<(), UsbError>)
    ensures
        match written {
            Ok(_) => r is Ok,
            Err(e) => r matches Err(UsbError::Hid(h)) && h == e,
        },
{
    match written {
        Ok(_) => Ok(()),
        Err(e) => Err(UsbError::Hid(e)),
    }
}

/// The refresh frame for a cooler of the given protocol: the classic frame of the
/// readings (with the local time from the system clock), or the iUnity packet of the
/// CPU and GPU temperature digits.
pub fn refresh_frame_for(
    protocol: ProtocolType,
    readings: &ReadingBits,
    cpu: TempDigits,
    gpu: TempDigits,
    temp_unit: u8,
) -> (frame: Vec<u8>)
    ensures
        protocol == ProtocolType::Classic ==> exists|t: LocalTime|
            #![trigger value_array(*readings, temp_unit, t)]
            local_time_valid(t) && frame@ == refresh_frame(value_array(*readings, temp_unit, t)),
        protocol == ProtocolType::IUnity ==> frame@ == iunity_frame(cpu, gpu),
{
    match protocol {
        ProtocolType::Classic => build_refresh_frame(readings, temp_unit),
        ProtocolType::IUnity => build_iunity_frame(cpu, gpu),
    }
}

/// The frame that clears the LCD of a cooler of the given protocol: the classic
/// shutdown frame, or the iUnity packet of two zero temperatures.
pub fn shutdown_frame_for(protocol: ProtocolType) -> (frame: Vec<u8>)
    ensures
        protocol == ProtocolType::Classic ==> frame@ == shutdown_frame(),
        protocol == ProtocolType::IUnity ==> frame@ == iunity_frame(
            TempDigits { tens: 0, units: 0, tenths: 0 },
            TempDigits { tens: 0, units: 0, tenths: 0 },
        ),
{
    match protocol {
        ProtocolType::Classic => build_shutdown_frame(),
        ProtocolType::IUnity => build_iunity_frame(TempDigits::zero(), TempDigits::zero()),
    }
}

/// Pause between two refreshes of the LCD, in milliseconds.
pub const REFRESH_INTERVAL_MS: u64 = 200;
/// Pause before a new attempt after a USB error or a failed reconnection, in milliseconds.
pub const RECONNECT_DELAY_MS: u64 = 2000;
/// Pause before sending again to a busy device, in milliseconds.
pub const BUSY_RETRY_MS: u64 = 10;
/// How long the daemon waits for a cooler at start-up, in seconds.
pub const DEVICE_TIMEOUT_SECS: u64 = 10;
/// Refreshes sent back to back after (re)connecting, before the regular pace.
pub const STARTUP_BURST_COUNT: u32 = 5;

/// What the daemon does after sending a refresh.
#[derive(Clone, Copy, Debug, PartialEq, Eq, Structural)]
pub enum DaemonAction {
    /// Send the next refresh at once (start-up burst).
    SendNow,
    /// Log the readings, then pause for `millis` before the next refresh.
    LogAndPause { millis: u64 },
    /// Pause for `millis`, then send again (the device was busy).
    RetryAfter { millis: u64 },
    /// The device is gone: reconnect, then restart the burst.
    Reconnect,
    /// Report the USB error, then pause for `millis`.
    ReportAndPause { millis: u64 },
}

/// The daemon's decision after a refresh: the burst count left and the action.
pub open spec fn daemon_decision(burst_remaining: u32, sent: Result<(), UsbError>) -> (u32, DaemonAction) {
    match sent {
        Ok(()) => if burst_remaining > 0 {
            ((burst_remaining - 1) as u32, DaemonAction::SendNow)
        } else {
            (0, DaemonAction::LogAndPause { millis: REFRESH_INTERVAL_MS })
        },
        Err(UsbError::Busy) => (burst_remaining, DaemonAction::RetryAfter { millis: BUSY_RETRY_MS }),
        Err(UsbError::DeviceNotFound) => (STARTUP_BURST_COUNT, DaemonAction::Reconnect),
        Err(UsbError::WriteFailed(_)) => (STARTUP_BURST_COUNT, DaemonAction::Reconnect),
        Err(UsbError::Hid(_)) => (burst_remaining, DaemonAction::ReportAndPause {
            millis: RECONNECT_DELAY_MS,
        }),
    }
}

/// Decides what the daemon does after sending a refresh (see `daemon_decision`).
pub fn daemon_step(burst_remaining: u32, sent: &Result<(), UsbError>) -> (r: (u32, DaemonAction))
    ensures
        r == daemon_decision(burst_remaining, *sent),
{
    match sent {
        Ok(()) => if burst_remaining > 0 {
            (burst_remaining - 1, DaemonAction::SendNow)
        } else {
            (0, DaemonAction::LogAndPause { millis: REFRESH_INTERVAL_MS })
        },
        Err(UsbError::Busy) => (burst_remaining, DaemonAction::RetryAfter { millis: BUSY_RETRY_MS }),
        Err(UsbError::DeviceNotFound) => (STARTUP_BURST_COUNT, DaemonAction::Reconnect),
        Err(UsbError::WriteFailed(_)) => (STARTUP_BURST_COUNT, DaemonAction::Reconnect),
        Err(UsbError::Hid(_)) => (burst_remaining, DaemonAction::ReportAndPause {
            millis: RECONNECT_DELAY_MS,
        }),
    }
}

/// After a (re)connection the daemon sends exactly `STARTUP_BURST_COUNT` refreshes back
/// to back before it pauses between refreshes: from a full burst, `k` successful sends
/// leave `STARTUP_BURST_COUNT - k` to go and ask to send at once, and the next one
/// pauses.
pub proof fn lemma_startup_burst(k: u32)
    requires
        k <= STARTUP_BURST_COUNT,
    ensures
        burst_after(k) == STARTUP_BURST_COUNT - k,
        k < STARTUP_BURST_COUNT ==> daemon_decision(burst_after(k), Ok(())).1 == DaemonAction::SendNow,
        k == STARTUP_BURST_COUNT ==> daemon_decision(burst_after(k), Ok(())).1
            == (DaemonAction::LogAndPause { millis: REFRESH_INTERVAL_MS }),
    decreases k,
{
    if k > 0 {
        lemma_startup_burst((k - 1) as u32);
    }
}

/// The burst count left after `k` successful sends from a full burst.
pub open spec fn burst_after(k: u32) -> u32
    decreases k,
{
    if k == 0 {
        STARTUP_BURST_COUNT
    } else {
        daemon_decision(burst_after((k - 1) as u32), Ok(())).0
    }
}

} // verus!
