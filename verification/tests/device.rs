use ant_monitor::device::{daemon_step, open_order, refresh_frame_for, refresh_write_outcome,
    short_write_text, shutdown_frame_for, shutdown_write_outcome, DaemonAction, ProtocolType,
    UsbError, RECONNECT_DELAY_MS, REFRESH_INTERVAL_MS, STARTUP_BURST_COUNT};
use ant_monitor::frame::{build_shutdown_frame, ReadingBits, TempDigits, ANTEC_IUNITY_PID,
    ANTEC_IUNITY_VID, ANT_MONITOR_PID, ANT_MONITOR_VID};

fn zero_readings() -> ReadingBits {
    ReadingBits {
        cpu_temp: 0,
        cpu_temp_hundredths: 0,
        cpu_usage_pct: 0,
        cpu_power_w: 0,
        cpu_power_hundredths: 0,
        cpu_freq_mhz: 0,
        cpu_voltage_v: 0,
        gpu_temp: 0,
        gpu_temp_hundredths: 0,
        gpu_usage_pct: 0,
        gpu_power_w: 0,
        gpu_power_hundredths: 0,
        gpu_freq_mhz: 0,
        fan_rpm: 0,
        pump_rpm: 0,
        ram_usage_pct: 0,
    }
}

#[test]
fn devices_are_identified_by_their_ids() {
    assert_eq!(ProtocolType::of_device(0x5131, 0x2007), Some(ProtocolType::Classic));
    assert_eq!(ProtocolType::of_device(0x2022, 0x0522), Some(ProtocolType::IUnity));
    assert_eq!(ProtocolType::of_device(0x5131, 0x0522), None);
    assert_eq!(ProtocolType::Classic.device_ids(), (ANT_MONITOR_VID, ANT_MONITOR_PID));
    assert_eq!(ProtocolType::IUnity.device_ids(), (ANTEC_IUNITY_VID, ANTEC_IUNITY_PID));
    assert_eq!(open_order(), vec![ProtocolType::Classic, ProtocolType::IUnity]);
}

#[test]
fn write_outcomes() {
    assert!(refresh_write_outcome(Ok(65), 65).is_ok());
    assert!(matches!(refresh_write_outcome(Ok(0), 65), Err(UsbError::Busy)));
    match refresh_write_outcome(Ok(30), 65) {
        Err(UsbError::WriteFailed(m)) => assert_eq!(m, "wrote 30 of 65 bytes"),
        other => panic!("unexpected {other:?}"),
    }
    assert!(matches!(
        refresh_write_outcome(Err(hidapi::HidError::HidApiErrorEmpty), 12),
        Err(UsbError::Hid(hidapi::HidError::HidApiErrorEmpty))
    ));
    assert!(shutdown_write_outcome(Ok(3)).is_ok());
    assert!(matches!(
        shutdown_write_outcome(Err(hidapi::HidError::InitializationError)),
        Err(UsbError::Hid(hidapi::HidError::InitializationError))
    ));
    assert_eq!(short_write_text(0, 1234567), "wrote 0 of 1234567 bytes");
}

#[test]
fn frames_follow_the_protocol() {
    assert_eq!(shutdown_frame_for(ProtocolType::Classic), build_shutdown_frame());
    assert_eq!(
        shutdown_frame_for(ProtocolType::IUnity),
        vec![0x55, 0xAA, 0x01, 0x01, 0x06, 0, 0, 0, 0, 0, 0, 0x07]
    );
    let cpu = TempDigits { tens: 4, units: 5, tenths: 6 };
    let gpu = TempDigits { tens: 3, units: 8, tenths: 2 };
    let f = refresh_frame_for(ProtocolType::IUnity, &zero_readings(), cpu, gpu, 0);
    assert_eq!(f, vec![0x55, 0xAA, 0x01, 0x01, 0x06, 4, 5, 6, 3, 8, 2, 0x23]);
    let c = refresh_frame_for(ProtocolType::Classic, &zero_readings(), cpu, gpu, 0);
    assert_eq!(c.len(), 65);
    assert_eq!(c[1], 0);
}

#[test]
fn daemon_bursts_then_paces() {
    let mut burst = STARTUP_BURST_COUNT;
    for _ in 0..STARTUP_BURST_COUNT {
        let (next, action) = daemon_step(burst, &Ok(()));
        assert_eq!(action, DaemonAction::SendNow);
        burst = next;
    }
    assert_eq!(burst, 0);
    assert_eq!(daemon_step(burst, &Ok(())), (0, DaemonAction::LogAndPause { millis: REFRESH_INTERVAL_MS }));
    assert_eq!(daemon_step(2, &Err(UsbError::Busy)), (2, DaemonAction::RetryAfter { millis: 10 }));
    assert_eq!(daemon_step(0, &Err(UsbError::DeviceNotFound)), (STARTUP_BURST_COUNT, DaemonAction::Reconnect));
    assert_eq!(
        daemon_step(0, &Err(UsbError::WriteFailed("wrote 1 of 65 bytes".to_string()))),
        (STARTUP_BURST_COUNT, DaemonAction::Reconnect)
    );
    assert_eq!(
        daemon_step(3, &Err(UsbError::Hid(hidapi::HidError::HidApiErrorEmpty))),
        (3, DaemonAction::ReportAndPause { millis: RECONNECT_DELAY_MS })
    );
}
