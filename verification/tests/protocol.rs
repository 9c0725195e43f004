use ant_monitor::float_bits::{b, floor_hundreds_byte, floor_last_two_digits, floor_times_hundred_byte,
    floor_to_byte};
use ant_monitor::frame::{build_iunity_frame, build_refresh_frame, build_shutdown_frame,
    encode_value_array, refresh_frame_at, value_array_now, year_bytes, LocalTime, ReadingBits,
    TempDigits, HEADER, REPORT_ID, REPORT_LEN, SHUTDOWN_MARKER, TEMP_UNIT_CELSIUS,
    TEMP_UNIT_FAHRENHEIT};

/// Sensor readings as the kernel gives them.
struct SensorValues {
    cpu_temp_c: f32,
    cpu_usage_pct: f32,
    cpu_power_w: f32,
    cpu_freq_mhz: f32,
    cpu_voltage_v: f32,
    gpu_temp_c: f32,
    gpu_usage_pct: f32,
    gpu_power_w: f32,
    gpu_freq_mhz: f32,
    fan_rpm: f32,
    pump_rpm: f32,
    ram_usage_pct: u8,
}

/// The readings of one refresh, with the temperatures in the frame's unit.
fn readings(sv: &SensorValues, temp_unit: u8) -> ReadingBits {
    let cpu_t = if temp_unit == TEMP_UNIT_FAHRENHEIT {
        sv.cpu_temp_c * 9.0 / 5.0 + 32.0
    } else {
        sv.cpu_temp_c
    };
    let gpu_t = if temp_unit == TEMP_UNIT_FAHRENHEIT {
        sv.gpu_temp_c * 9.0 / 5.0 + 32.0
    } else {
        sv.gpu_temp_c
    };
    ReadingBits {
        cpu_temp: cpu_t.to_bits(),
        cpu_temp_hundredths: ((cpu_t - cpu_t.floor()) * 100.0).to_bits(),
        cpu_usage_pct: sv.cpu_usage_pct.to_bits(),
        cpu_power_w: sv.cpu_power_w.to_bits(),
        cpu_power_hundredths: ((sv.cpu_power_w - sv.cpu_power_w.floor()) * 100.0).to_bits(),
        cpu_freq_mhz: sv.cpu_freq_mhz.to_bits(),
        cpu_voltage_v: sv.cpu_voltage_v.to_bits(),
        gpu_temp: gpu_t.to_bits(),
        gpu_temp_hundredths: ((gpu_t - gpu_t.floor()) * 100.0).to_bits(),
        gpu_usage_pct: sv.gpu_usage_pct.to_bits(),
        gpu_power_w: sv.gpu_power_w.to_bits(),
        gpu_power_hundredths: ((sv.gpu_power_w - sv.gpu_power_w.floor()) * 100.0).to_bits(),
        gpu_freq_mhz: sv.gpu_freq_mhz.to_bits(),
        fan_rpm: sv.fan_rpm.to_bits(),
        pump_rpm: sv.pump_rpm.to_bits(),
        ram_usage_pct: sv.ram_usage_pct,
    }
}

fn to_value_array(sv: &SensorValues, temp_unit: u8) -> Vec<u8> {
    value_array_now(&readings(sv, temp_unit), temp_unit)
}

/// The digits of a temperature that an iUnity packet shows.
fn digits(temp: f32) -> TempDigits {
    let t = temp.clamp(0.0, 99.9);
    TempDigits {
        tens: (t / 10.0).trunc() as u8,
        units: (t % 10.0).trunc() as u8,
        tenths: ((t * 10.0) % 10.0).trunc() as u8,
    }
}

fn iunity(cpu: f32, gpu: f32) -> Vec<u8> {
    build_iunity_frame(digits(cpu), digits(gpu))
}

#[test]
fn test_b_truncates() {
    let vals: [(f32, u8); 6] = [
        (53.7, 53),
        (0.0, 0),
        (255.9, 255),
        (256.0, 255),
        (-1.0, 0),
        (42.999, 42),
    ];
    for (input, expected) in vals {
        assert_eq!(b(input.to_bits()), expected, "b({input}) should be {expected}");
    }
}

#[test]
fn test_to_value_array_structure() {
    let sv = SensorValues {
        cpu_temp_c: 53.75,
        cpu_usage_pct: 42.6,
        cpu_power_w: 75.8,
        cpu_freq_mhz: 2400.0,
        cpu_voltage_v: 1.2,
        gpu_temp_c: 45.3,
        gpu_usage_pct: 68.9,
        gpu_power_w: 150.5,
        gpu_freq_mhz: 1800.0,
        fan_rpm: 1234.6,
        pump_rpm: 2800.0,
        ram_usage_pct: 67,
    };

    let v = to_value_array(&sv, TEMP_UNIT_CELSIUS);

    assert_eq!(v.len(), 33, "value array must be exactly 33 bytes");

    assert_eq!(v[0], 53, "CPU temp int");
    assert_eq!(v[1], 75, "CPU temp frac*100");
    assert_eq!(v[2], 0, "CPU unit Celsius");

    assert_eq!(v[3], 42, "CPU usage (trunc, not round)");

    assert_eq!(v[4], 75, "CPU power % 100");
    assert_eq!(v[5], 80, "CPU power frac*100");
    assert_eq!(v[31], 0, "CPU power / 100 (hundreds)");

    assert_eq!(v[6], 24, "CPU freq / 100");
    assert_eq!(v[7], 0, "CPU freq % 100");

    assert_eq!(v[8], 1, "CPU voltage int");
    assert_eq!(v[9], 100, "CPU voltage int*100 (quirk)");

    assert_eq!(v[10], 45, "GPU temp int");
    assert_eq!(v[11], 29, "GPU temp frac*100 (45.3*100 = 29.999.. truncated to 29)");

    assert_eq!(v[13], 68, "GPU usage (trunc, not round)");

    assert_eq!(v[14], 50, "GPU power % 100");
    assert_eq!(v[15], 50, "GPU power frac*100");
    assert_eq!(v[32], 1, "GPU power / 100 (hundreds)");

    assert_eq!(v[16], 18, "GPU freq / 100");
    assert_eq!(v[17], 0, "GPU freq % 100");

    assert_eq!(v[18], 12, "Fan RPM / 100");
    assert_eq!(v[19], 34, "Fan RPM % 100 (trunc)");

    assert_eq!(v[20], 28, "Pump RPM / 100");
    assert_eq!(v[21], 0, "Pump RPM % 100");

    assert_eq!(v[30], 67, "RAM usage");
}

#[test]
fn test_refresh_frame_structure() {
    let sv = SensorValues {
        cpu_temp_c: 53.0,
        cpu_usage_pct: 10.0,
        cpu_power_w: 75.0,
        cpu_freq_mhz: 2400.0,
        cpu_voltage_v: 1.2,
        gpu_temp_c: 45.0,
        gpu_usage_pct: 50.0,
        gpu_power_w: 100.0,
        gpu_freq_mhz: 1800.0,
        fan_rpm: 800.0,
        pump_rpm: 0.0,
        ram_usage_pct: 42,
    };

    let frame = build_refresh_frame(&readings(&sv, TEMP_UNIT_CELSIUS), TEMP_UNIT_CELSIUS);

    assert_eq!(frame.len(), 65, "frame must be 65 bytes (report ID + 64-byte report)");

    assert_eq!(frame[0], REPORT_ID, "byte 0 = report ID");
    assert_eq!(frame[1], HEADER, "byte 1 = header 0x00");
    assert_eq!(frame[2], 53, "byte 2 = CPU temp int (values start here)");

    for i in 35..64 {
        assert_eq!(frame[i + 1], 0x00, "byte {} = padding 0x00", i + 1);
    }
}

#[test]
fn test_shutdown_frame_structure() {
    let frame = build_shutdown_frame();

    assert_eq!(frame.len(), 65, "shutdown frame must be 65 bytes");

    assert_eq!(frame[0], REPORT_ID, "byte 0 = report ID");
    assert_eq!(frame[1], SHUTDOWN_MARKER, "byte 1 = shutdown marker 0x0F");

    for i in 2..64 {
        assert_eq!(frame[i + 1], 0x00, "byte {} = padding 0x00", i + 1);
    }
}

#[test]
fn test_iunity_frame_known_values() {
    let frame = iunity(45.6, 38.2);
    assert_eq!(frame, vec![0x55, 0xAA, 0x01, 0x01, 0x06, 4, 5, 6, 3, 8, 2, 0x23]);
}

#[test]
fn test_iunity_frame_zero() {
    let frame = iunity(0.0, 0.0);
    assert_eq!(frame, vec![0x55, 0xAA, 0x01, 0x01, 0x06, 0, 0, 0, 0, 0, 0, 0x07]);
}

#[test]
fn test_iunity_frame_clamps() {
    let frame = iunity(100.0, -5.0);
    assert_eq!(frame, vec![0x55, 0xAA, 0x01, 0x01, 0x06, 9, 9, 9, 0, 0, 0, 0x22]);
}

#[test]
fn test_b_rounding_regression() {
    let sv = SensorValues {
        cpu_temp_c: 53.0,
        cpu_usage_pct: 42.6,
        cpu_power_w: 75.0,
        cpu_freq_mhz: 2400.0,
        cpu_voltage_v: 1.2,
        gpu_temp_c: 45.0,
        gpu_usage_pct: 68.9,
        gpu_power_w: 100.0,
        gpu_freq_mhz: 1800.0,
        fan_rpm: 800.0,
        pump_rpm: 2800.0,
        ram_usage_pct: 67,
    };
    let v = to_value_array(&sv, TEMP_UNIT_CELSIUS);

    assert_eq!(v[3], 42, "CPU usage 42.6 must truncate to 42, not round to 43");
    assert_eq!(v[13], 68, "GPU usage 68.9 must truncate to 68, not round to 69");
}

#[test]
fn b_of_special_values() {
    assert_eq!(b(f32::NAN.to_bits()), 0);
    assert_eq!(b(f32::INFINITY.to_bits()), 255);
    assert_eq!(b(f32::NEG_INFINITY.to_bits()), 0);
    assert_eq!(b((-0.0f32).to_bits()), 0);
    assert_eq!(b(f32::MAX.to_bits()), 255);
    assert_eq!(b(f32::MIN_POSITIVE.to_bits()), 0);
    assert_eq!(b(1.0e-45f32.to_bits()), 0);
    assert_eq!(b(254.99f32.to_bits()), 254);
    assert_eq!(b(1.0f32.to_bits()), 1);
    assert_eq!(b(0.999f32.to_bits()), 0);
}

#[test]
fn floor_encodings_of_whole_parts() {
    assert_eq!(floor_to_byte(53.75f32.to_bits()), 53);
    assert_eq!(floor_to_byte((-0.5f32).to_bits()), 0);
    assert_eq!(floor_last_two_digits(2437.9f32.to_bits()), 37);
    assert_eq!(floor_hundreds_byte(2437.9f32.to_bits()), 24);
    assert_eq!(floor_hundreds_byte(99999.0f32.to_bits()), 255);
    assert_eq!(floor_last_two_digits(99999.0f32.to_bits()), 99);
    assert_eq!(floor_last_two_digits(1.0e10f32.to_bits()), 0);
    assert_eq!(floor_last_two_digits(16777217.0f32.to_bits()), 16);
    assert_eq!(floor_last_two_digits(3.0e38f32.to_bits()), ((3.0e38f32 % 100.0) as u8));
    assert_eq!(floor_last_two_digits(f32::INFINITY.to_bits()), 0);
    assert_eq!(floor_last_two_digits((-150.0f32).to_bits()), 0);
    assert_eq!(floor_hundreds_byte(f32::INFINITY.to_bits()), 255);
    assert_eq!(floor_hundreds_byte(f32::NAN.to_bits()), 0);
    assert_eq!(floor_times_hundred_byte(1.2f32.to_bits()), 100);
    assert_eq!(floor_times_hundred_byte(2.9f32.to_bits()), 200);
    assert_eq!(floor_times_hundred_byte(3.0f32.to_bits()), 255);
    assert_eq!(floor_times_hundred_byte(0.7f32.to_bits()), 0);
    assert_eq!(floor_times_hundred_byte((-1.0f32).to_bits()), 0);
}

#[test]
fn encodings_agree_with_float_arithmetic() {
    let samples: [f32; 12] =
        [0.0, 0.5, 1.2, 42.6, 99.99, 150.5, 255.5, 1234.6, 2800.0, 25599.9, 123456.7, 7.5e9];
    for x in samples {
        let f = x.floor();
        assert_eq!(b(x.to_bits()), x.trunc().clamp(0.0, 255.0) as u8, "b({x})");
        assert_eq!(floor_to_byte(x.to_bits()), f.clamp(0.0, 255.0) as u8, "floor({x})");
        assert_eq!(floor_last_two_digits(x.to_bits()), (f % 100.0).trunc().clamp(0.0, 255.0) as u8, "rem({x})");
        assert_eq!(floor_hundreds_byte(x.to_bits()), (f / 100.0).trunc().clamp(0.0, 255.0) as u8, "div({x})");
        assert_eq!(floor_times_hundred_byte(x.to_bits()), (f * 100.0).trunc().clamp(0.0, 255.0) as u8, "mul({x})");
    }
}

#[test]
fn year_bytes_split_the_year() {
    assert_eq!(year_bytes(2025), (20, 25));
    assert_eq!(year_bytes(1999), (19, 99));
    assert_eq!(year_bytes(7), (0, 7));
    assert_eq!(year_bytes(0), (0, 0));
    assert_eq!(year_bytes(12345), (12, 25));
    assert_eq!(year_bytes(10200), (10, 200));
    assert_eq!(year_bytes(-5), (20, 5));
    assert_eq!(year_bytes(-1234), (20, 234));
}

#[test]
fn value_array_carries_the_local_time() {
    let sv = SensorValues {
        cpu_temp_c: 53.0,
        cpu_usage_pct: 42.6,
        cpu_power_w: 275.0,
        cpu_freq_mhz: 2400.0,
        cpu_voltage_v: 1.2,
        gpu_temp_c: 45.0,
        gpu_usage_pct: 68.9,
        gpu_power_w: 100.0,
        gpu_freq_mhz: 1800.0,
        fan_rpm: 800.0,
        pump_rpm: 2800.0,
        ram_usage_pct: 67,
    };
    let time = LocalTime {
        year: 2025,
        month: 7,
        day: 14,
        hour: 21,
        minute: 5,
        second: 59,
        weekday_from_monday: 7,
    };
    let v = encode_value_array(&readings(&sv, TEMP_UNIT_CELSIUS), TEMP_UNIT_CELSIUS, &time);
    assert_eq!(&v[22..30], &[20, 25, 7, 14, 21, 5, 59, 0]);
    assert_eq!(v[31] as u32 * 100 + v[4] as u32, 275);
    let frame = refresh_frame_at(&readings(&sv, TEMP_UNIT_CELSIUS), TEMP_UNIT_CELSIUS, &time);
    assert_eq!(frame.len(), REPORT_LEN + 1);
    assert_eq!(&frame[2..35], &v[..]);
}

#[test]
fn fahrenheit_frames_say_so() {
    let sv = SensorValues {
        cpu_temp_c: 50.0,
        cpu_usage_pct: 0.0,
        cpu_power_w: 0.0,
        cpu_freq_mhz: 0.0,
        cpu_voltage_v: 0.0,
        gpu_temp_c: 100.0,
        gpu_usage_pct: 0.0,
        gpu_power_w: 0.0,
        gpu_freq_mhz: 0.0,
        fan_rpm: 0.0,
        pump_rpm: 0.0,
        ram_usage_pct: 0,
    };
    let v = to_value_array(&sv, TEMP_UNIT_FAHRENHEIT);
    assert_eq!(v[0], 122);
    assert_eq!(v[2], 1);
    assert_eq!(v[10], 212);
    assert_eq!(v[12], 1);
}

#[test]
fn iunity_checksum_is_the_byte_sum() {
    let cpu = TempDigits { tens: 9, units: 9, tenths: 9 };
    let gpu = TempDigits { tens: 9, units: 9, tenths: 9 };
    let frame = build_iunity_frame(cpu, gpu);
    let sum: u32 = frame[..11].iter().map(|&x| x as u32).sum();
    assert_eq!(frame[11] as u32, sum % 256);
    assert_eq!(frame.len(), 12);
}
