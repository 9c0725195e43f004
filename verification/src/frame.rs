//! HID frame construction for the LCD coolers.

use vstd::prelude::*;
use chrono::{Datelike, Timelike};
use vstd::arithmetic::div_mod::{lemma_fundamental_div_mod_converse_div,
    lemma_fundamental_div_mod_converse_mod};
use crate::float_bits::{b, floor_to_byte, floor_last_two_digits, floor_hundreds_byte,
    floor_times_hundred_byte, byte_of, floor_byte, floor_low_digits, floor_hundreds,
    floor_times_hundred, f32_floor, f32_trunc, f32_is_nan, f32_is_infinite};
use crate::text::{decimal, push_decimal, parse_unsigned, parse_decimal, digits_nat, all_digits,
    pow10, lemma_digits_value_exact, lemma_digits_nat_append, lemma_digits_nat_zeros,
    lemma_decimal_value, lemma_digits_nat_bound};

verus! {

/// Vendor ID of the classic-protocol coolers (ANT Esports, Vevor, HT).
pub const ANT_MONITOR_VID: u16 = 0x5131;
/// Product ID of the classic-protocol coolers.
pub const ANT_MONITOR_PID: u16 = 0x2007;
/// Vendor ID of the Antec iUnity-protocol coolers.
pub const ANTEC_IUNITY_VID: u16 = 0x2022;
/// Product ID of the Antec iUnity-protocol coolers.
pub const ANTEC_IUNITY_PID: u16 = 0x0522;

/// HID report ID that starts every classic frame.
pub const REPORT_ID: u8 = 0x00;
/// Length of the classic HID output report, without the report ID.
pub const REPORT_LEN: usize = 64;
/// Header byte of a classic refresh frame.
pub const HEADER: u8 = 0x00;
/// Header byte of a classic shutdown frame; it tells the LCD to clear itself.
pub const SHUTDOWN_MARKER: u8 = 0x0F;

/// Temperature unit byte: Celsius.
pub const TEMP_UNIT_CELSIUS: u8 = 0;
/// Temperature unit byte: Fahrenheit.
pub const TEMP_UNIT_FAHRENHEIT: u8 = 1;

/// The classic shutdown frame: report ID, shutdown marker, then zero padding up to
/// `REPORT_LEN + 1` bytes.
pub open spec fn shutdown_frame() -> Seq<u8> {
    seq![REPORT_ID, SHUTDOWN_MARKER] + Seq::new((REPORT_LEN - 1) as nat, |i: int| 0u8)
}

/// Builds the classic shutdown frame.
pub fn build_shutdown_frame() -> (frame: Vec<u8>)
    ensures
        frame@ == shutdown_frame(),
        frame@.len() == REPORT_LEN + 1,
{
    let mut frame: Vec<u8> = Vec::new();
    frame.push(REPORT_ID);
    frame.push(SHUTDOWN_MARKER);
    while frame.len() < REPORT_LEN + 1
        invariant
            2 <= frame@.len() <= REPORT_LEN + 1,
            frame@.take(2) == seq![REPORT_ID, SHUTDOWN_MARKER],
            forall|i: int| 2 <= i < frame@.len() ==> frame@[i] == 0u8,
        decreases REPORT_LEN + 1 - frame@.len(),
    {
        frame.push(0u8);
    }
    assert(frame@ =~= shutdown_frame());
    frame
}


/// The readings of one LCD refresh. Each reading is the binary32 bit pattern
/// (`f32::to_bits`) of an `f32` value.
#[derive(Clone, Copy, Debug)]
pub struct ReadingBits {
    /// CPU temperature, in the unit that the frame announces.
    pub cpu_temp: u32,
    /// `(t - floor(t)) * 100` for the CPU temperature `t`.
    pub cpu_temp_hundredths: u32,
    /// CPU usage in percent.
    pub cpu_usage_pct: u32,
    /// CPU package power in watts.
    pub cpu_power_w: u32,
    /// `(p - floor(p)) * 100` for the CPU power `p`.
    pub cpu_power_hundredths: u32,
    /// CPU frequency in MHz.
    pub cpu_freq_mhz: u32,
    /// CPU core voltage in volts.
    pub cpu_voltage_v: u32,
    /// GPU temperature, in the unit that the frame announces.
    pub gpu_temp: u32,
    /// `(t - floor(t)) * 100` for the GPU temperature `t`.
    pub gpu_temp_hundredths: u32,
    /// GPU usage in percent.
    pub gpu_usage_pct: u32,
    /// GPU power in watts.
    pub gpu_power_w: u32,
    /// `(p - floor(p)) * 100` for the GPU power `p`.
    pub gpu_power_hundredths: u32,
    /// GPU frequency in MHz.
    pub gpu_freq_mhz: u32,
    /// Fan speed in RPM.
    pub fan_rpm: u32,
    /// Pump speed in RPM.
    pub pump_rpm: u32,
    /// RAM usage in percent.
    pub ram_usage_pct: u8,
}

/// A local calendar date and wall-clock time.
#[derive(Clone, Copy, Debug, PartialEq, Eq, Structural)]
pub struct LocalTime {
    pub year: i32,
    pub month: u32,
    pub day: u32,
    pub hour: u32,
    pub minute: u32,
    pub second: u32,
    /// ISO 8601 weekday number: Monday is 1, Sunday is 7.
    pub weekday_from_monday: u32,
}

/// The fields of a local time are within their calendar ranges.
pub open spec fn local_time_valid(t: LocalTime) -> bool {
    &&& 1 <= t.month <= 12
    &&& 1 <= t.day <= 31
    &&& t.hour <= 23
    &&& t.minute <= 59
    &&& t.second <= 59
    &&& 1 <= t.weekday_from_monday <= 7
}

/// Reads the local date and time from the system clock (`chrono::Local::now`).
/// The contract claims only the ranges that chrono documents for its fields
/// (month 1-12, day 1-31, hour 0-23, minute 0-59, second 0-59, ISO weekday 1-7);
/// which time is read depends on the clock and the time zone and is left unsaid.
#[verifier::external_body]
fn read_local_time() -> (t: LocalTime)
    ensures
        local_time_valid(t),
{
    let now = chrono::Local::now();
    LocalTime {
        year: now.year(),
        month: now.month(),
        day: now.day(),
        hour: now.hour(),
        minute: now.minute(),
        second: now.second(),
        weekday_from_monday: now.weekday().number_from_monday(),
    }
}

/// `digits` left-padded with `'0'` to at least `width` characters.
pub open spec fn zero_padded(digits: Seq<char>, width: nat) -> Seq<char> {
    if digits.len() >= width {
        digits
    } else {
        Seq::new((width - digits.len()) as nat, |i: int| '0') + digits
    }
}

/// The year as `format!("{:04}", year)` writes it.
pub open spec fn year_text(year: int) -> Seq<char> {
    if year >= 0 {
        zero_padded(decimal(year as nat), 4)
    } else {
        seq!['-'] + zero_padded(decimal((-year) as nat), 3)
    }
}

/// The first two characters of the year text, parsed as a byte (20 when they are not one).
pub open spec fn year_high_byte(year: int) -> u8 {
    match parse_unsigned(year_text(year).take(2), 255) {
        Ok(v) => v as u8,
        Err(_) => 20,
    }
}

/// The year text after its first two characters, parsed as a byte (25 when it is not one).
pub open spec fn year_low_byte(year: int) -> u8 {
    match parse_unsigned(year_text(year).skip(2), 255) {
        Ok(v) => v as u8,
        Err(_) => 25,
    }
}

fn pad_zeros(digits: &Vec<char>, width: usize, out: &mut Vec<char>)
    ensures
        final(out)@ == old(out)@ + zero_padded(digits@, width as nat),
{
    let ghost start = out@;
    let mut k: usize = digits.len();
    while k < width
        invariant
            digits@.len() <= k <= width || (k == digits@.len() && k >= width),
            out@ == start + Seq::new((k - digits@.len()) as nat, |i: int| '0'),
        decreases width - k,
    {
        out.push('0');
        k = k + 1;
        assert(out@ =~= start + Seq::new((k - digits@.len()) as nat, |i: int| '0'));
    }
    let mut j: usize = 0;
    let ghost zeros = out@;
    while j < digits.len()
        invariant
            j <= digits@.len(),
            out@ == zeros + digits@.take(j as int),
        decreases digits@.len() - j,
    {
        out.push(digits[j]);
        j = j + 1;
        assert(out@ =~= zeros + digits@.take(j as int));
    }
    assert(digits@.take(digits@.len() as int) =~= digits@);
    proof {
        if digits@.len() >= width as nat {
            assert(Seq::new((digits@.len() - digits@.len()) as nat, |i: int| '0') =~= Seq::<
                char,
            >::empty());
        }
    }
    assert(out@ =~= start + zero_padded(digits@, width as nat));
}

/// The year as `format!("{:04}", year)` writes it.
fn year_text_of(year: i32) -> (r: Vec<char>)
    ensures
        r@ == year_text(year as int),
{
    let mut digits: Vec<char> = Vec::new();
    let mut r: Vec<char> = Vec::new();
    if year >= 0 {
        push_decimal(year as u64, &mut digits);
        assert(digits@ =~= decimal(year as nat));
        pad_zeros(&digits, 4, &mut r);
        assert(r@ =~= year_text(year as int));
    } else {
        let magnitude: u32 = (-(year as i64)) as u32;
        push_decimal(magnitude as u64, &mut digits);
        assert(digits@ =~= decimal((-year) as nat));
        r.push('-');
        pad_zeros(&digits, 3, &mut r);
        assert(r@ =~= year_text(year as int));
    }
    r
}

fn sub_chars(s: &Vec<char>, from: usize, to: usize) -> (r: Vec<char>)
    requires
        from <= to <= s@.len(),
    ensures
        r@ == s@.subrange(from as int, to as int),
{
    let mut r: Vec<char> = Vec::new();
    let mut i: usize = from;
    while i < to
        invariant
            from <= i <= to <= s@.len(),
            r@ == s@.subrange(from as int, i as int),
        decreases to - i,
    {
        r.push(s[i]);
        i = i + 1;
    }
    r
}

/// The two year bytes of the value array: the year text split after its second
/// character, each part parsed as a byte.
pub fn year_bytes(year: i32) -> (r: (u8, u8))
    ensures
        r.0 == year_high_byte(year as int),
        r.1 == year_low_byte(year as int),
{
    let text = year_text_of(year);
    proof {
        lemma_decimal_value(if year >= 0 { year as nat } else { (-year) as nat });
    }
    assert(text@.len() >= 4);
    let high_text = sub_chars(&text, 0, 2);
    let low_text = sub_chars(&text, 2, text.len());
    assert(high_text@ =~= text@.take(2));
    assert(low_text@ =~= text@.skip(2));
    let high = match parse_decimal(high_text.as_slice(), 255) {
        Ok(v) => v as u8,
        Err(_) => 20,
    };
    let low = match parse_decimal(low_text.as_slice(), 255) {
        Ok(v) => v as u8,
        Err(_) => 25,
    };
    (high, low)
}

/// For the years 0 to 9999 the year bytes are the century and the year within it.
pub proof fn lemma_year_bytes_split_year(year: int)
    requires
        0 <= year <= 9999,
    ensures
        year_high_byte(year) == year / 100,
        year_low_byte(year) == year % 100,
{
    let d = decimal(year as nat);
    lemma_decimal_value(year as nat);
    lemma_decimal_len(year as nat);
    let k = (4 - d.len()) as nat;
    lemma_digits_nat_zeros(k, d);
    let t = year_text(year);
    if d.len() < 4 {
        assert(t == Seq::new(k, |i: int| '0') + d);
    } else {
        assert(Seq::new(k, |i: int| '0') + d =~= d);
    }
    assert(t.len() == 4);
    assert(all_digits(t));
    assert(digits_nat(t) == year);
    let hi = t.take(2);
    let lo = t.skip(2);
    assert(hi + lo =~= t);
    lemma_digits_nat_append(hi, lo);
    assert(pow10(2) == 100) by {
        assert(pow10(0) == 1);
        assert(pow10(1) == 10);
    }
    assert(all_digits(hi)) by {
        assert forall|i: int| 0 <= i < hi.len() implies crate::text::is_digit(#[trigger] hi[i]) by {
            assert(hi[i] == t[i]);
        }
    }
    assert(all_digits(lo)) by {
        assert forall|i: int| 0 <= i < lo.len() implies crate::text::is_digit(#[trigger] lo[i]) by {
            assert(lo[i] == t[i + 2]);
        }
    }
    lemma_digits_nat_bound(hi);
    lemma_digits_nat_bound(lo);
    assert(digits_nat(lo) < 100);
    assert(digits_nat(hi) < 100);
    lemma_digits_value_exact(hi, 255);
    lemma_digits_value_exact(lo, 255);
    assert(hi[0] != '+' && hi[0] != '-') by {
        assert(crate::text::is_digit(hi[0]));
    }
    assert(lo[0] != '+' && lo[0] != '-') by {
        assert(crate::text::is_digit(lo[0]));
    }
    assert(year == digits_nat(hi) * 100 + digits_nat(lo));
    lemma_fundamental_div_mod_converse_div(year, 100, digits_nat(hi) as int, digits_nat(lo) as int);
    lemma_fundamental_div_mod_converse_mod(year, 100, digits_nat(hi) as int, digits_nat(lo) as int);
}

proof fn lemma_decimal_len(n: nat)
    ensures
        n < 10000 ==> decimal(n).len() <= 4,
    decreases n,
{
    if n >= 10 {
        lemma_decimal_len(n / 10);
        if n < 10000 {
            assert(n / 10 < 1000);
            lemma_decimal_len_small(n / 10);
        }
    }
}

proof fn lemma_decimal_len_small(n: nat)
    requires
        n < 1000,
    ensures
        decimal(n).len() <= 3,
    decreases n,
{
    if n >= 10 {
        if n >= 100 {
            assert(decimal(n / 10).len() <= 2) by {
                let m = n / 10;
                assert(m < 100);
                assert(decimal(m / 10).len() == 1);
            }
        } else {
            assert(decimal(n / 10).len() == 1);
        }
    }
}

/// The 33-byte value array that the LCD firmware reads from bytes 2 to 34 of a
/// classic frame.
pub open spec fn value_array(r: ReadingBits, temp_unit: u8, t: LocalTime) -> Seq<u8> {
    seq![
        floor_byte(r.cpu_temp),
        byte_of(r.cpu_temp_hundredths),
        temp_unit,
        byte_of(r.cpu_usage_pct),
        floor_low_digits(r.cpu_power_w),
        byte_of(r.cpu_power_hundredths),
        floor_hundreds(r.cpu_freq_mhz),
        floor_low_digits(r.cpu_freq_mhz),
        floor_byte(r.cpu_voltage_v),
        floor_times_hundred(r.cpu_voltage_v),
        floor_byte(r.gpu_temp),
        byte_of(r.gpu_temp_hundredths),
        temp_unit,
        byte_of(r.gpu_usage_pct),
        floor_low_digits(r.gpu_power_w),
        byte_of(r.gpu_power_hundredths),
        floor_hundreds(r.gpu_freq_mhz),
        floor_low_digits(r.gpu_freq_mhz),
        floor_hundreds(r.fan_rpm),
        floor_low_digits(r.fan_rpm),
        floor_hundreds(r.pump_rpm),
        floor_low_digits(r.pump_rpm),
        year_high_byte(t.year as int),
        year_low_byte(t.year as int),
        t.month as u8,
        t.day as u8,
        t.hour as u8,
        t.minute as u8,
        t.second as u8,
        (t.weekday_from_monday % 7) as u8,
        r.ram_usage_pct,
        floor_hundreds(r.cpu_power_w),
        floor_hundreds(r.gpu_power_w),
    ]
}

/// Encodes the readings and the given local time into the 33-byte value array.
pub fn encode_value_array(readings: &ReadingBits, temp_unit: u8, time: &LocalTime) -> (v: Vec<u8>)
    ensures
        v@ == value_array(*readings, temp_unit, *time),
        v@.len() == 33,
        v@[1] == byte_of(readings.cpu_temp_hundredths),
        v@[5] == byte_of(readings.cpu_power_hundredths),
        v@[11] == byte_of(readings.gpu_temp_hundredths),
        v@[15] == byte_of(readings.gpu_power_hundredths),
{
    let r = readings;
    let (year_high, year_low) = year_bytes(time.year);
    let mut v: Vec<u8> = Vec::new();
    v.push(floor_to_byte(r.cpu_temp));
    v.push(b(r.cpu_temp_hundredths));
    v.push(temp_unit);
    v.push(b(r.cpu_usage_pct));
    v.push(floor_last_two_digits(r.cpu_power_w));
    v.push(b(r.cpu_power_hundredths));
    v.push(floor_hundreds_byte(r.cpu_freq_mhz));
    v.push(floor_last_two_digits(r.cpu_freq_mhz));
    v.push(floor_to_byte(r.cpu_voltage_v));
    v.push(floor_times_hundred_byte(r.cpu_voltage_v));
    v.push(floor_to_byte(r.gpu_temp));
    v.push(b(r.gpu_temp_hundredths));
    v.push(temp_unit);
    v.push(b(r.gpu_usage_pct));
    v.push(floor_last_two_digits(r.gpu_power_w));
    v.push(b(r.gpu_power_hundredths));
    v.push(floor_hundreds_byte(r.gpu_freq_mhz));
    v.push(floor_last_two_digits(r.gpu_freq_mhz));
    v.push(floor_hundreds_byte(r.fan_rpm));
    v.push(floor_last_two_digits(r.fan_rpm));
    v.push(floor_hundreds_byte(r.pump_rpm));
    v.push(floor_last_two_digits(r.pump_rpm));
    v.push(year_high);
    v.push(year_low);
    v.push(time.month as u8);
    v.push(time.day as u8);
    v.push(time.hour as u8);
    v.push(time.minute as u8);
    v.push(time.second as u8);
    v.push((time.weekday_from_monday % 7) as u8);
    v.push(r.ram_usage_pct);
    v.push(floor_hundreds_byte(r.cpu_power_w));
    v.push(floor_hundreds_byte(r.gpu_power_w));
    assert(v@ =~= value_array(*readings, temp_unit, *time));
    v
}

/// Encodes the readings into the 33-byte value array, with the local time read from the
/// system clock.
pub fn value_array_now(readings: &ReadingBits, temp_unit: u8) -> (v: Vec<u8>)
    ensures
        exists|t: LocalTime|
            #![trigger value_array(*readings, temp_unit, t)]
            local_time_valid(t) && v@ == value_array(*readings, temp_unit, t),
{
    let time = read_local_time();
    encode_value_array(readings, temp_unit, &time)
}

/// A classic refresh frame around a value array: report ID, header, the values, then
/// zero padding up to `REPORT_LEN + 1` bytes.
pub open spec fn refresh_frame(values: Seq<u8>) -> Seq<u8> {
    seq![REPORT_ID, HEADER] + values + Seq::new(
        (REPORT_LEN + 1 - 2 - values.len()) as nat,
        |i: int| 0u8,
    )
}

/// Builds the classic refresh frame around a 33-byte value array.
pub fn frame_value_array(values: &Vec<u8>) -> (frame: Vec<u8>)
    requires
        values@.len() == 33,
    ensures
        frame@ == refresh_frame(values@),
{
    let mut frame: Vec<u8> = Vec::new();
    frame.push(REPORT_ID);
    frame.push(HEADER);
    let mut i: usize = 0;
    while i < values.len()
        invariant
            i <= values@.len(),
            values@.len() == 33,
            frame@ == seq![REPORT_ID, HEADER] + values@.take(i as int),
        decreases values@.len() - i,
    {
        frame.push(values[i]);
        i = i + 1;
        assert(frame@ =~= seq![REPORT_ID, HEADER] + values@.take(i as int));
    }
    assert(values@.take(33) =~= values@);
    let ghost head = frame@;
    while frame.len() < REPORT_LEN + 1
        invariant
            35 <= frame@.len() <= REPORT_LEN + 1,
            frame@.take(35) == head,
            head == seq![REPORT_ID, HEADER] + values@,
            forall|k: int| 35 <= k < frame@.len() ==> frame@[k] == 0u8,
        decreases REPORT_LEN + 1 - frame@.len(),
    {
        frame.push(0u8);
        assert(frame@.take(35) =~= head);
    }
    assert(frame@ =~= refresh_frame(values@));
    frame
}

/// Builds the classic refresh frame for the readings and the given local time.
pub fn refresh_frame_at(readings: &ReadingBits, temp_unit: u8, time: &LocalTime) -> (frame: Vec<
    u8,
>)
    ensures
        frame@ == refresh_frame(value_array(*readings, temp_unit, *time)),
{
    let values = encode_value_array(readings, temp_unit, time);
    frame_value_array(&values)
}

/// Builds the classic refresh frame for the readings, with the local time read from the
/// system clock.
pub fn build_refresh_frame(readings: &ReadingBits, temp_unit: u8) -> (frame: Vec<u8>)
    ensures
        exists|t: LocalTime|
            #![trigger value_array(*readings, temp_unit, t)]
            local_time_valid(t) && frame@ == refresh_frame(value_array(*readings, temp_unit, t)),
{
    let values = value_array_now(readings, temp_unit);
    frame_value_array(&values)
}

/// Every classic frame is `REPORT_LEN + 1` bytes long and starts with the report ID; a
/// refresh frame carries its values from byte 2 on, a zero header and zero padding
/// from byte 35 on, and it never equals the shutdown frame.
pub proof fn lemma_classic_frame_layout(values: Seq<u8>)
    requires
        values.len() == 33,
    ensures
        refresh_frame(values).len() == REPORT_LEN + 1,
        shutdown_frame().len() == REPORT_LEN + 1,
        refresh_frame(values)[0] == REPORT_ID,
        shutdown_frame()[0] == REPORT_ID,
        refresh_frame(values)[1] == HEADER,
        shutdown_frame()[1] == SHUTDOWN_MARKER,
        forall|i: int| 0 <= i < 33 ==> #[trigger] refresh_frame(values)[2 + i] == values[i],
        forall|i: int| 35 <= i < REPORT_LEN + 1 ==> #[trigger] refresh_frame(values)[i] == 0u8,
        forall|i: int| 2 <= i < REPORT_LEN + 1 ==> #[trigger] shutdown_frame()[i] == 0u8,
        refresh_frame(values) != shutdown_frame(),
{
    let f = refresh_frame(values);
    assert(f[1] == HEADER);
    assert(shutdown_frame()[1] == SHUTDOWN_MARKER);
}

/// The firmware rebuilds a whole value `w` from its hundreds byte `h` and its two
/// low digits `l` as `h * 100 + l`: that gives back `floor(x)` whenever it lies in
/// `0..25600`, the range that a hundreds byte can carry.
pub proof fn lemma_hundreds_and_digits_rebuild(bits: u32)
    requires
        !f32_is_nan(bits),
        !f32_is_infinite(bits),
        0 <= f32_floor(bits) < 25600,
    ensures
        floor_hundreds(bits) as int * 100 + floor_low_digits(bits) as int == f32_floor(bits),
{
    let w = f32_floor(bits);
    assert(w / 100 <= 255);
    assert(w == (w / 100) * 100 + w % 100);
}

/// What each byte of the value array carries, in terms of the readings, the temperature
/// unit and the local time (the table of the classic protocol).
pub proof fn lemma_value_array_entries(r: ReadingBits, temp_unit: u8, t: LocalTime)
    ensures
        ({
            let v = value_array(r, temp_unit, t);
            &&& v.len() == 33
            &&& v[0] == floor_byte(r.cpu_temp)
            &&& v[1] == byte_of(r.cpu_temp_hundredths)
            &&& v[2] == temp_unit
            &&& v[3] == byte_of(r.cpu_usage_pct)
            &&& v[4] == floor_low_digits(r.cpu_power_w)
            &&& v[5] == byte_of(r.cpu_power_hundredths)
            &&& v[6] == floor_hundreds(r.cpu_freq_mhz)
            &&& v[7] == floor_low_digits(r.cpu_freq_mhz)
            &&& v[8] == floor_byte(r.cpu_voltage_v)
            &&& v[9] == floor_times_hundred(r.cpu_voltage_v)
            &&& v[10] == floor_byte(r.gpu_temp)
            &&& v[11] == byte_of(r.gpu_temp_hundredths)
            &&& v[12] == temp_unit
            &&& v[13] == byte_of(r.gpu_usage_pct)
            &&& v[14] == floor_low_digits(r.gpu_power_w)
            &&& v[15] == byte_of(r.gpu_power_hundredths)
            &&& v[16] == floor_hundreds(r.gpu_freq_mhz)
            &&& v[17] == floor_low_digits(r.gpu_freq_mhz)
            &&& v[18] == floor_hundreds(r.fan_rpm)
            &&& v[19] == floor_low_digits(r.fan_rpm)
            &&& v[20] == floor_hundreds(r.pump_rpm)
            &&& v[21] == floor_low_digits(r.pump_rpm)
            &&& v[22] == year_high_byte(t.year as int)
            &&& v[23] == year_low_byte(t.year as int)
            &&& v[24] == t.month as u8
            &&& v[25] == t.day as u8
            &&& v[26] == t.hour as u8
            &&& v[27] == t.minute as u8
            &&& v[28] == t.second as u8
            &&& v[29] == (t.weekday_from_monday % 7) as u8
            &&& v[30] == r.ram_usage_pct
            &&& v[31] == floor_hundreds(r.cpu_power_w)
            &&& v[32] == floor_hundreds(r.gpu_power_w)
        }),
{
}

/// The decimal bytes of the temperatures and powers (bytes 1, 5, 11, 15) carry the
/// fractional hundredths readings alone: two refreshes whose hundredths readings agree
/// have the same decimal bytes, whatever their other readings; and a hundredths reading
/// whose whole part lies in `0..256` is carried as that whole part.
pub proof fn lemma_value_array_decimals(r1: ReadingBits, r2: ReadingBits, temp_unit: u8, t: LocalTime)
    ensures
        r1.cpu_temp_hundredths == r2.cpu_temp_hundredths ==> value_array(r1, temp_unit, t)[1]
            == value_array(r2, temp_unit, t)[1],
        r1.cpu_power_hundredths == r2.cpu_power_hundredths ==> value_array(r1, temp_unit, t)[5]
            == value_array(r2, temp_unit, t)[5],
        r1.gpu_temp_hundredths == r2.gpu_temp_hundredths ==> value_array(r1, temp_unit, t)[11]
            == value_array(r2, temp_unit, t)[11],
        r1.gpu_power_hundredths == r2.gpu_power_hundredths ==> value_array(r1, temp_unit, t)[15]
            == value_array(r2, temp_unit, t)[15],
        whole_in_byte(r1.cpu_temp_hundredths) ==> value_array(r1, temp_unit, t)[1] as int
            == f32_trunc(r1.cpu_temp_hundredths),
        whole_in_byte(r1.cpu_power_hundredths) ==> value_array(r1, temp_unit, t)[5] as int
            == f32_trunc(r1.cpu_power_hundredths),
        whole_in_byte(r1.gpu_temp_hundredths) ==> value_array(r1, temp_unit, t)[11] as int
            == f32_trunc(r1.gpu_temp_hundredths),
        whole_in_byte(r1.gpu_power_hundredths) ==> value_array(r1, temp_unit, t)[15] as int
            == f32_trunc(r1.gpu_power_hundredths),
{
    lemma_value_array_entries(r1, temp_unit, t);
    lemma_value_array_entries(r2, temp_unit, t);
}

/// A reading is a finite number whose whole part lies in `0..256`.
pub open spec fn whole_in_byte(bits: u32) -> bool {
    !f32_is_nan(bits) && !f32_is_infinite(bits) && 0 <= f32_trunc(bits) < 256
}

/// The firmware's reconstruction of the value array (CPU and GPU power, CPU and GPU
/// frequency, fan and pump speed from their hundreds and low digits; the whole
/// temperatures; the year from its two bytes) gives back the whole parts of the
/// readings and the year, within the ranges that the bytes can carry.
pub proof fn lemma_value_array_reconstruction(r: ReadingBits, temp_unit: u8, t: LocalTime)
    ensures
        ({
            let v = value_array(r, temp_unit, t);
            &&& v.len() == 33
            &&& finite_in(r.cpu_power_w, 25600) ==> v[31] as int * 100 + v[4] as int == f32_floor(r.cpu_power_w)
            &&& finite_in(r.gpu_power_w, 25600) ==> v[32] as int * 100 + v[14] as int == f32_floor(r.gpu_power_w)
            &&& finite_in(r.cpu_freq_mhz, 25600) ==> v[6] as int * 100 + v[7] as int == f32_floor(r.cpu_freq_mhz)
            &&& finite_in(r.gpu_freq_mhz, 25600) ==> v[16] as int * 100 + v[17] as int == f32_floor(r.gpu_freq_mhz)
            &&& finite_in(r.fan_rpm, 25600) ==> v[18] as int * 100 + v[19] as int == f32_floor(r.fan_rpm)
            &&& finite_in(r.pump_rpm, 25600) ==> v[20] as int * 100 + v[21] as int == f32_floor(r.pump_rpm)
            &&& finite_in(r.cpu_temp, 256) ==> v[0] as int == f32_floor(r.cpu_temp)
            &&& finite_in(r.gpu_temp, 256) ==> v[10] as int == f32_floor(r.gpu_temp)
            &&& v[2] == temp_unit && v[12] == temp_unit
            &&& v[30] == r.ram_usage_pct
            &&& 0 <= t.year <= 9999 ==> v[22] as int * 100 + v[23] as int == t.year
        }),
{
    lemma_value_array_entries(r, temp_unit, t);
    if finite_in(r.cpu_power_w, 25600) { lemma_hundreds_and_digits_rebuild(r.cpu_power_w); }
    if finite_in(r.gpu_power_w, 25600) { lemma_hundreds_and_digits_rebuild(r.gpu_power_w); }
    if finite_in(r.cpu_freq_mhz, 25600) { lemma_hundreds_and_digits_rebuild(r.cpu_freq_mhz); }
    if finite_in(r.gpu_freq_mhz, 25600) { lemma_hundreds_and_digits_rebuild(r.gpu_freq_mhz); }
    if finite_in(r.fan_rpm, 25600) { lemma_hundreds_and_digits_rebuild(r.fan_rpm); }
    if finite_in(r.pump_rpm, 25600) { lemma_hundreds_and_digits_rebuild(r.pump_rpm); }
    if 0 <= t.year <= 9999 {
        lemma_year_bytes_split_year(t.year as int);
        assert(t.year == (t.year / 100) * 100 + t.year % 100);
    }
}

/// With a valid local time, the date bytes of the value array are the month, day,
/// hour, minute and second themselves, and the weekday counts from Sunday = 0 to
/// Saturday = 6.
pub proof fn lemma_value_array_date(r: ReadingBits, temp_unit: u8, t: LocalTime)
    requires
        local_time_valid(t),
    ensures
        ({
            let v = value_array(r, temp_unit, t);
            &&& v[24] as int == t.month
            &&& v[25] as int == t.day
            &&& v[26] as int == t.hour
            &&& v[27] as int == t.minute
            &&& v[28] as int == t.second
            &&& v[29] < 7
            &&& (t.weekday_from_monday == 7 <==> v[29] == 0)
            &&& (t.weekday_from_monday < 7 ==> v[29] as int == t.weekday_from_monday)
        }),
{
}

/// A reading is a finite number whose floor lies in `0..limit`.
pub open spec fn finite_in(bits: u32, limit: int) -> bool {
    !f32_is_nan(bits) && !f32_is_infinite(bits) && 0 <= f32_floor(bits) < limit
}

/// The three digits that the iUnity protocol shows for a temperature.
#[derive(Clone, Copy, Debug, PartialEq, Eq, Structural)]
pub struct TempDigits {
    pub tens: u8,
    pub units: u8,
    pub tenths: u8,
}

impl TempDigits {
    /// The digits of a temperature of zero.
    pub fn zero() -> (d: TempDigits)
        ensures
            d == (TempDigits { tens: 0, units: 0, tenths: 0 }),
    {
        TempDigits { tens: 0, units: 0, tenths: 0 }
    }
}

/// The first eleven bytes of an iUnity packet: magic, command, sub-command, payload
/// length, then the CPU and GPU temperature digits.
pub open spec fn iunity_payload(cpu: TempDigits, gpu: TempDigits) -> Seq<u8> {
    seq![0x55u8, 0xAAu8, 0x01u8, 0x01u8, 0x06u8, cpu.tens, cpu.units, cpu.tenths, gpu.tens, gpu.units, gpu.tenths]
}

/// The sum of some bytes.
pub open spec fn byte_sum(s: Seq<u8>) -> nat
    decreases s.len(),
{
    if s.len() == 0 {
        0
    } else {
        byte_sum(s.drop_last()) + s.last() as nat
    }
}

/// An iUnity packet: the payload followed by its checksum, the sum of the payload
/// bytes modulo 256.
pub open spec fn iunity_frame(cpu: TempDigits, gpu: TempDigits) -> Seq<u8> {
    iunity_payload(cpu, gpu).push((byte_sum(iunity_payload(cpu, gpu)) % 256) as u8)
}

/// Builds the 12-byte iUnity packet for the CPU and GPU temperature digits.
pub fn build_iunity_frame(cpu: TempDigits, gpu: TempDigits) -> (frame: Vec<u8>)
    ensures
        frame@ == iunity_frame(cpu, gpu),
        frame@.len() == 12,
        frame@[11] as nat == byte_sum(frame@.take(11)) % 256,
{
    let mut payload: Vec<u8> = Vec::new();
    payload.push(0x55);
    payload.push(0xAA);
    payload.push(0x01);
    payload.push(0x01);
    payload.push(0x06);
    payload.push(cpu.tens);
    payload.push(cpu.units);
    payload.push(cpu.tenths);
    payload.push(gpu.tens);
    payload.push(gpu.units);
    payload.push(gpu.tenths);
    assert(payload@ =~= iunity_payload(cpu, gpu));
    let mut checksum: u8 = payload[0];
    let mut i: usize = 1;
    assert(payload@.take(1).drop_last() =~= Seq::<u8>::empty());
    assert(byte_sum(Seq::<u8>::empty()) == 0);
    assert(byte_sum(payload@.take(1)) == payload@[0] as nat);
    while i < payload.len()
        invariant
            1 <= i <= payload@.len(),
            checksum as nat == byte_sum(payload@.take(i as int)) % 256,
        decreases payload@.len() - i,
    {
        let ghost before = checksum;
        checksum = checksum.wrapping_add(payload[i]);
        assert(payload@.take(i + 1).drop_last() =~= payload@.take(i as int));
        assert(checksum as nat == (before as nat + payload[i as int]) % 256);
        assert((byte_sum(payload@.take(i as int)) % 256 + payload@[i as int]) % 256
            == (byte_sum(payload@.take(i as int)) + payload@[i as int]) % 256) by (nonlinear_arith);
        i = i + 1;
    }
    assert(payload@.take(11) =~= payload@);
    let ghost p = payload@;
    payload.push(checksum);
    assert(payload@.take(11) =~= p);
    payload
}

} // verus!
