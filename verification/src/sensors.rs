//! Sensor discovery and the arithmetic of the Linux kernel readings.
//!
//! The caller reads `/sys` and `/proc` and hands over what it found; this module
//! decides which sensor files to use, parses the kernel's numbers and keeps the
//! counters that turn cumulative readings into rates.

use std::path::PathBuf;
use std::time::Instant;
use vstd::prelude::*;
use vstd::string::StringExecFns;
use crate::text::{chars_of, trimmed, trim, words, words_of, lines, lines_of, views, starts_with,
    ends_with, has_prefix, has_suffix, has_char, same_chars, parse_unsigned, parse_decimal,
    IntParseError};

verus! {

/// The standard library's `PathBuf`, carried through unread.
#[verifier::external_type_specification]
#[verifier::external_body]
pub struct ExPathBuf(std::path::PathBuf);

/// The standard library's `Instant`, carried through unread.
#[verifier::external_type_specification]
#[verifier::external_body]
pub struct ExInstant(std::time::Instant);

/// The standard library's `io::Error`, carried through unread.
#[verifier::external_type_specification]
#[verifier::external_body]
pub struct ExIoError(std::io::Error);

/// Copies a path (`PathBuf::clone`); the copy is the same path.
#[verifier::external_body]
fn copy_path(p: &PathBuf) -> (r: PathBuf)
    ensures
        r == *p,
{
    p.clone()
}

/// Errors of the sensor readings.
#[derive(Debug)]
pub enum SensorError {
    /// A kernel file could not be read.
    Io(std::io::Error),
    /// A kernel file did not hold a number; the text says which file and why.
    Parse(String),
    /// No sensor was found.
    NoSensors,
}

/// The message of a failed integer parse, as `ParseIntError` displays it.
pub open spec fn parse_error_message(e: IntParseError) -> Seq<char> {
    match e {
        IntParseError::Empty => "cannot parse integer from empty string"@,
        IntParseError::InvalidDigit => "invalid digit found in string"@,
        IntParseError::PosOverflow => "number too large to fit in target type"@,
    }
}

/// The number that a kernel file holds: its text, trimmed, as an unsigned 64-bit
/// decimal number.
pub open spec fn file_number(text: Seq<char>) -> Result<nat, IntParseError> {
    parse_unsigned(trim(text), u64::MAX as nat)
}

fn parse_message(e: IntParseError) -> (m: &'static str)
    ensures
        m@ == parse_error_message(e),
{
    match e {
        IntParseError::Empty => "cannot parse integer from empty string",
        IntParseError::InvalidDigit => "invalid digit found in string",
        IntParseError::PosOverflow => "number too large to fit in target type",
    }
}

/// Parses the contents of a kernel file that holds one unsigned number. On failure the
/// error names the file (`path`, as displayed) and the reason.
pub fn read_u64_text(text: &str, path: &str) -> (r: Result<u64, SensorError>)
    ensures
        match file_number(text@) {
            Ok(v) => r matches Ok(x) && x == v,
            Err(e) => r matches Err(SensorError::Parse(m)) && m@ == path@ + ": "@
                + parse_error_message(e),
        },
{
    let chars = chars_of(text);
    let t = trimmed(chars.as_slice());
    match parse_decimal(t.as_slice(), u64::MAX) {
        Ok(v) => Ok(v),
        Err(e) => {
            let mut m = path.to_owned();
            m.append(": ");
            m.append(parse_message(e));
            Err(SensorError::Parse(m))
        },
    }
}

/// A file of a directory listing: its name (empty when it is not UTF-8) and its path.
pub struct DirFile {
    pub name: String,
    pub path: PathBuf,
}

/// A device under `/sys/class/hwmon`.
pub struct HwmonDevice {
    /// The device directory.
    pub path: PathBuf,
    /// The contents of its `name` file (empty when it cannot be read).
    pub name: String,
    /// The files of the device directory, in listing order (none when it cannot be
    /// listed).
    pub files: Vec<DirFile>,
}

/// A zone under `/sys/class/powercap`.
pub struct PowercapZone {
    /// The contents of its `name` file, or `None` when it cannot be read.
    pub name: Option<String>,
    /// The path of its `energy_uj` file.
    pub energy_path: PathBuf,
    /// Whether that file exists.
    pub energy_exists: bool,
    /// The contents of that file, or `None` when it cannot be read.
    pub energy_text: Option<String>,
}

/// What a scan of the kernel's sensor directories found.
pub struct SensorScan {
    /// Whether `/sys/class/hwmon` exists.
    pub hwmon_present: bool,
    /// The devices under `/sys/class/hwmon`, in listing order.
    pub hwmon: Vec<HwmonDevice>,
    /// The zones under `/sys/class/powercap`, in listing order.
    pub powercap: Vec<PowercapZone>,
}

/// A hwmon driver that reports the CPU temperature.
pub open spec fn is_cpu_sensor_name(n: Seq<char>) -> bool {
    n == "coretemp"@ || n == "k10temp"@ || n == "zenpower"@
}

/// A mainboard hwmon driver whose voltage inputs include the CPU voltage.
pub open spec fn is_board_sensor_name(n: Seq<char>) -> bool {
    n == "nct6775"@ || n == "nct6687"@ || n == "it8628"@
}

/// A temperature input file (`temp*_input`).
pub open spec fn is_temp_input(f: Seq<char>) -> bool {
    starts_with(f, "temp"@) && ends_with(f, "_input"@)
}

/// A voltage input file (`in*_input`).
pub open spec fn is_voltage_input(f: Seq<char>) -> bool {
    starts_with(f, "in"@) && ends_with(f, "_input"@)
}

/// A fan input file (`fan*_input`).
pub open spec fn is_fan_input(f: Seq<char>) -> bool {
    starts_with(f, "fan"@) && ends_with(f, "_input"@)
}

/// The path of the last temperature input of a listing.
pub open spec fn last_temp_input(files: Seq<DirFile>) -> Option<PathBuf>
    decreases files.len(),
{
    if files.len() == 0 {
        None
    } else if is_temp_input(files.last().name@) {
        Some(files.last().path)
    } else {
        last_temp_input(files.drop_last())
    }
}

/// The path of the first voltage input of a listing.
pub open spec fn first_voltage_input(files: Seq<DirFile>) -> Option<PathBuf>
    decreases files.len(),
{
    if files.len() == 0 {
        None
    } else if is_voltage_input(files[0].name@) {
        Some(files[0].path)
    } else {
        first_voltage_input(files.drop_first())
    }
}

/// The hwmon choice after going through some devices in order:
/// `(hwmon_base, cpu_temp_path, cpu_volt_path)`. A CPU sensor device becomes the
/// base and gives its last temperature input; the first voltage input of a CPU
/// sensor or mainboard device becomes the CPU voltage.
pub open spec fn hwmon_selection(devs: Seq<HwmonDevice>) -> (
    Option<PathBuf>,
    Option<PathBuf>,
    Option<PathBuf>,
)
    decreases devs.len(),
{
    if devs.len() == 0 {
        (None, None, None)
    } else {
        let prev = hwmon_selection(devs.drop_last());
        let d = devs.last();
        let name = trim(d.name@);
        if is_cpu_sensor_name(name) {
            let temp = match last_temp_input(d.files@) {
                Some(p) => Some(p),
                None => prev.1,
            };
            let volt = if prev.2 is None {
                first_voltage_input(d.files@)
            } else {
                prev.2
            };
            (Some(d.path), temp, volt)
        } else if is_board_sensor_name(name) && prev.2 is None {
            (prev.0, prev.1, first_voltage_input(d.files@))
        } else {
            prev
        }
    }
}

/// A powercap zone that measures the CPU package (or the platform) and has an energy
/// counter.
pub open spec fn is_rapl_zone(z: PowercapZone) -> bool {
    &&& z.name matches Some(n)
    &&& (trim(n@) == "package-0"@ || trim(n@) == "psys"@)
    &&& z.energy_exists
}

/// The energy that a counter file holds, 0 when it cannot be read or parsed.
pub open spec fn energy_of(text: Option<String>) -> u64 {
    match text {
        Some(t) => match file_number(t@) {
            Ok(v) => v as u64,
            Err(_) => 0,
        },
        None => 0,
    }
}

/// The last RAPL zone among some zones, with its counter reading.
pub open spec fn rapl_selection(zones: Seq<PowercapZone>) -> Option<(PathBuf, u64)>
    decreases zones.len(),
{
    if zones.len() == 0 {
        None
    } else if is_rapl_zone(zones.last()) {
        Some((zones.last().energy_path, energy_of(zones.last().energy_text)))
    } else {
        rapl_selection(zones.drop_last())
    }
}

/// Where the sensor readings come from, and the state of the energy counter.
pub struct SensorReader {
    pub cpu_temp_path: Option<PathBuf>,
    pub hwmon_base: Option<PathBuf>,
    pub rapl_path: Option<PathBuf>,
    pub pump_rpm_path: Option<PathBuf>,
    pub cpu_volt_path: Option<PathBuf>,
    /// The last reading of the energy counter, in microjoules.
    pub rapl_energy: u64,
    /// When the energy counter was last read.
    pub rapl_time: Instant,
}

impl SensorReader {
    /// Chooses the sensor files from a scan of the kernel's sensor directories, made at
    /// time `now`. Without `/sys/class/hwmon` nothing is chosen.
    pub fn new(scan: &SensorScan, now: Instant) -> (r: SensorReader)
        ensures
            r.pump_rpm_path is None,
            r.rapl_time == now,
            scan.hwmon_present ==> (r.hwmon_base, r.cpu_temp_path, r.cpu_volt_path)
                == hwmon_selection(scan.hwmon@),
            scan.hwmon_present ==> match rapl_selection(scan.powercap@) {
                Some((p, e)) => r.rapl_path == Some(p) && r.rapl_energy == e,
                None => r.rapl_path is None && r.rapl_energy == 0,
            },
            !scan.hwmon_present ==> r.hwmon_base is None && r.cpu_temp_path is None
                && r.cpu_volt_path is None && r.rapl_path is None && r.rapl_energy == 0,
    {
        let mut reader = SensorReader {
            cpu_temp_path: None,
            hwmon_base: None,
            rapl_path: None,
            pump_rpm_path: None,
            cpu_volt_path: None,
            rapl_energy: 0,
            rapl_time: now,
        };
        if !scan.hwmon_present {
            return reader;
        }
        let (base, temp, volt) = select_hwmon(&scan.hwmon);
        reader.hwmon_base = base;
        reader.cpu_temp_path = temp;
        reader.cpu_volt_path = volt;
        match select_rapl(&scan.powercap) {
            Some((p, e)) => {
                reader.rapl_path = Some(p);
                reader.rapl_energy = e;
            },
            None => {},
        }
        reader
    }

    /// Takes a new reading of the energy counter (`text`: the counter file's contents,
    /// `None` when it could not be read) at time `now`. Without a RAPL counter nothing
    /// changes and nothing is returned; otherwise the result is the energy counted since
    /// the previous reading (0 if the counter went back) and the time of that reading.
    /// A reading that cannot be parsed counts as the previous one.
    pub fn take_energy_sample(&mut self, text: Option<&str>, now: Instant) -> (r: Option<
        (u64, Instant),
    >)
        ensures
            old(self).rapl_path is None ==> r is None && *final(self) == *old(self),
            old(self).rapl_path is Some ==> {
                let e_now = match text {
                    Some(t) => match file_number(t@) {
                        Ok(v) => v as u64,
                        Err(_) => old(self).rapl_energy,
                    },
                    None => old(self).rapl_energy,
                };
                &&& r == Some((
                    if e_now >= old(self).rapl_energy { (e_now - old(self).rapl_energy) as u64 } else { 0 },
                    old(self).rapl_time,
                ))
                &&& final(self).rapl_energy == e_now
                &&& final(self).rapl_time == now
                &&& final(self).cpu_temp_path == old(self).cpu_temp_path
                &&& final(self).hwmon_base == old(self).hwmon_base
                &&& final(self).rapl_path == old(self).rapl_path
                &&& final(self).pump_rpm_path == old(self).pump_rpm_path
                &&& final(self).cpu_volt_path == old(self).cpu_volt_path
            },
    {
        if self.rapl_path.is_none() {
            return None;
        }
        let e_now = match text {
            Some(t) => match read_u64_text(t, "") {
                Ok(v) => v,
                Err(_) => self.rapl_energy,
            },
            None => self.rapl_energy,
        };
        let delta = e_now.saturating_sub(self.rapl_energy);
        let since = self.rapl_time;
        self.rapl_energy = e_now;
        self.rapl_time = now;
        Some((delta, since))
    }
}

fn is_named(name: &Vec<char>, lit: &str) -> (r: bool)
    ensures
        r == (name@ == lit@),
{
    let l = chars_of(lit);
    same_chars(name.as_slice(), l.as_slice())
}

fn file_matches(name: &String, prefix: &str) -> (r: bool)
    ensures
        r == (starts_with(name@, prefix@) && ends_with(name@, "_input"@)),
{
    let n = chars_of(name.as_str());
    let p = chars_of(prefix);
    let s = chars_of("_input");
    has_prefix(n.as_slice(), p.as_slice()) && has_suffix(n.as_slice(), s.as_slice())
}

proof fn lemma_last_temp_input_step(files: Seq<DirFile>, j: int)
    requires
        0 <= j < files.len(),
    ensures
        last_temp_input(files.take(j + 1)) == if is_temp_input(files[j].name@) {
            Some(files[j].path)
        } else {
            last_temp_input(files.take(j))
        },
{
    assert(files.take(j + 1).drop_last() =~= files.take(j));
}

fn last_temp_of(files: &Vec<DirFile>) -> (r: Option<PathBuf>)
    ensures
        r == last_temp_input(files@),
{
    let mut found: Option<PathBuf> = None;
    let mut j: usize = 0;
    while j < files.len()
        invariant
            j <= files@.len(),
            found == last_temp_input(files@.take(j as int)),
        decreases files@.len() - j,
    {
        proof {
            lemma_last_temp_input_step(files@, j as int);
        }
        if file_matches(&files[j].name, "temp") {
            found = Some(copy_path(&files[j].path));
        }
        j = j + 1;
    }
    assert(files@.take(files@.len() as int) =~= files@);
    found
}

proof fn lemma_first_voltage_skip(files: Seq<DirFile>, j: int)
    requires
        0 <= j < files.len(),
    ensures
        first_voltage_input(files.skip(j)) == if is_voltage_input(files[j].name@) {
            Some(files[j].path)
        } else {
            first_voltage_input(files.skip(j + 1))
        },
{
    assert(files.skip(j).drop_first() =~= files.skip(j + 1));
}

fn first_voltage_of(files: &Vec<DirFile>) -> (r: Option<PathBuf>)
    ensures
        r == first_voltage_input(files@),
{
    let mut j: usize = 0;
    assert(files@.skip(0) =~= files@);
    while j < files.len()
        invariant
            j <= files@.len(),
            first_voltage_input(files@) == first_voltage_input(files@.skip(j as int)),
        decreases files@.len() - j,
    {
        proof {
            lemma_first_voltage_skip(files@, j as int);
        }
        if file_matches(&files[j].name, "in") {
            return Some(copy_path(&files[j].path));
        }
        j = j + 1;
    }
    None
}

fn select_hwmon(devs: &Vec<HwmonDevice>) -> (r: (Option<PathBuf>, Option<PathBuf>, Option<PathBuf>))
    ensures
        r == hwmon_selection(devs@),
{
    let mut base: Option<PathBuf> = None;
    let mut temp: Option<PathBuf> = None;
    let mut volt: Option<PathBuf> = None;
    let mut i: usize = 0;
    while i < devs.len()
        invariant
            i <= devs@.len(),
            (base, temp, volt) == hwmon_selection(devs@.take(i as int)),
        decreases devs@.len() - i,
    {
        let d = &devs[i];
        proof {
            assert(devs@.take(i + 1).drop_last() =~= devs@.take(i as int));
        }
        let raw = chars_of(d.name.as_str());
        let name = trimmed(raw.as_slice());
        if is_named(&name, "coretemp") || is_named(&name, "k10temp") || is_named(&name, "zenpower") {
            base = Some(copy_path(&d.path));
            match last_temp_of(&d.files) {
                Some(p) => {
                    temp = Some(p);
                },
                None => {},
            }
            if volt.is_none() {
                volt = first_voltage_of(&d.files);
            }
        } else if (is_named(&name, "nct6775") || is_named(&name, "nct6687") || is_named(
            &name,
            "it8628",
        )) && volt.is_none() {
            volt = first_voltage_of(&d.files);
        }
        i = i + 1;
    }
    assert(devs@.take(devs@.len() as int) =~= devs@);
    (base, temp, volt)
}

fn energy_reading(text: &Option<String>) -> (e: u64)
    ensures
        e == energy_of(*text),
{
    match text {
        Some(t) => match read_u64_text(t.as_str(), "") {
            Ok(v) => v,
            Err(_) => 0,
        },
        None => 0,
    }
}

fn select_rapl(zones: &Vec<PowercapZone>) -> (r: Option<(PathBuf, u64)>)
    ensures
        r == rapl_selection(zones@),
{
    let mut found: Option<(PathBuf, u64)> = None;
    let mut i: usize = 0;
    while i < zones.len()
        invariant
            i <= zones@.len(),
            found == rapl_selection(zones@.take(i as int)),
        decreases zones@.len() - i,
    {
        let z = &zones[i];
        proof {
            assert(zones@.take(i + 1).drop_last() =~= zones@.take(i as int));
        }
        let selected = match &z.name {
            Some(n) => {
                let raw = chars_of(n.as_str());
                let name = trimmed(raw.as_slice());
                (is_named(&name, "package-0") || is_named(&name, "psys")) && z.energy_exists
            },
            None => false,
        };
        if selected {
            found = Some((copy_path(&z.energy_path), energy_reading(&z.energy_text)));
        }
        i = i + 1;
    }
    assert(zones@.take(zones@.len() as int) =~= zones@);
    found
}

/// The first fan input over some directory listings, taken in order.
pub open spec fn first_fan_input(dirs: Seq<Vec<DirFile>>) -> Option<PathBuf>
    decreases dirs.len(),
{
    if dirs.len() == 0 {
        None
    } else {
        match first_fan_in(dirs[0]@) {
            Some(p) => Some(p),
            None => first_fan_input(dirs.drop_first()),
        }
    }
}

/// The first fan input of one directory listing.
pub open spec fn first_fan_in(files: Seq<DirFile>) -> Option<PathBuf>
    decreases files.len(),
{
    if files.len() == 0 {
        None
    } else if is_fan_input(files[0].name@) {
        Some(files[0].path)
    } else {
        first_fan_in(files.drop_first())
    }
}

fn first_fan_of(files: &Vec<DirFile>) -> (r: Option<PathBuf>)
    ensures
        r == first_fan_in(files@),
{
    let mut j: usize = 0;
    assert(files@.skip(0) =~= files@);
    while j < files.len()
        invariant
            j <= files@.len(),
            first_fan_in(files@) == first_fan_in(files@.skip(j as int)),
        decreases files@.len() - j,
    {
        proof {
            assert(files@.skip(j as int).drop_first() =~= files@.skip(j + 1));
        }
        if file_matches(&files[j].name, "fan") {
            return Some(copy_path(&files[j].path));
        }
        j = j + 1;
    }
    None
}

/// The fan speed input to read: the first `fan*_input` file over the hwmon device
/// listings, in order (a listing that could not be read is empty).
pub fn find_fan_input(dirs: &Vec<Vec<DirFile>>) -> (r: Option<PathBuf>)
    ensures
        r == first_fan_input(dirs@),
{
    let mut i: usize = 0;
    assert(dirs@.skip(0) =~= dirs@);
    while i < dirs.len()
        invariant
            i <= dirs@.len(),
            first_fan_input(dirs@) == first_fan_input(dirs@.skip(i as int)),
        decreases dirs@.len() - i,
    {
        proof {
            assert(dirs@.skip(i as int).drop_first() =~= dirs@.skip(i + 1));
            assert(dirs@.skip(i as int)[0] == dirs@[i as int]);
        }
        match first_fan_of(&dirs[i]) {
            Some(p) => {
                return Some(p);
            },
            None => {},
        }
        i = i + 1;
    }
    None
}

/// A path that may or may not exist.
pub struct Candidate {
    pub path: PathBuf,
    pub exists: bool,
}

/// An entry of `/sys/class/drm`: its name (empty when it is not UTF-8) and, for each
/// directory under its `device/hwmon`, that directory's `temp1_input` file.
pub struct DrmEntry {
    pub name: String,
    pub temp_inputs: Vec<Candidate>,
}

/// A DRM entry that is a graphics card itself, not one of its connectors.
pub open spec fn is_gpu_card(name: Seq<char>) -> bool {
    starts_with(name, "card"@) && !name.contains('-')
}

/// The first existing candidate of a list.
pub open spec fn first_existing(c: Seq<Candidate>) -> Option<PathBuf>
    decreases c.len(),
{
    if c.len() == 0 {
        None
    } else if c[0].exists {
        Some(c[0].path)
    } else {
        first_existing(c.drop_first())
    }
}

/// The GPU temperature input to read: over the cards, in order, the first existing
/// `temp1_input` of their hwmon directories.
pub open spec fn gpu_temp_choice(entries: Seq<DrmEntry>) -> Option<PathBuf>
    decreases entries.len(),
{
    if entries.len() == 0 {
        None
    } else {
        let e = entries[0];
        if is_gpu_card(e.name@) && first_existing(e.temp_inputs@) is Some {
            first_existing(e.temp_inputs@)
        } else {
            gpu_temp_choice(entries.drop_first())
        }
    }
}

fn first_existing_of(c: &Vec<Candidate>) -> (r: Option<PathBuf>)
    ensures
        r == first_existing(c@),
{
    let mut j: usize = 0;
    assert(c@.skip(0) =~= c@);
    while j < c.len()
        invariant
            j <= c@.len(),
            first_existing(c@) == first_existing(c@.skip(j as int)),
        decreases c@.len() - j,
    {
        proof {
            assert(c@.skip(j as int).drop_first() =~= c@.skip(j + 1));
        }
        if c[j].exists {
            return Some(copy_path(&c[j].path));
        }
        j = j + 1;
    }
    None
}

/// Chooses the GPU temperature input among the DRM entries (see `gpu_temp_choice`).
pub fn find_gpu_temp_input(entries: &Vec<DrmEntry>) -> (r: Option<PathBuf>)
    ensures
        r == gpu_temp_choice(entries@),
{
    let mut i: usize = 0;
    assert(entries@.skip(0) =~= entries@);
    while i < entries.len()
        invariant
            i <= entries@.len(),
            gpu_temp_choice(entries@) == gpu_temp_choice(entries@.skip(i as int)),
        decreases entries@.len() - i,
    {
        proof {
            assert(entries@.skip(i as int).drop_first() =~= entries@.skip(i + 1));
            assert(entries@.skip(i as int)[0] == entries@[i as int]);
        }
        let e = &entries[i];
        let name = chars_of(e.name.as_str());
        let card = chars_of("card");
        if has_prefix(name.as_slice(), card.as_slice()) && !has_char(name.as_slice(), '-') {
            match first_existing_of(&e.temp_inputs) {
                Some(p) => {
                    return Some(p);
                },
                None => {},
            }
        }
        i = i + 1;
    }
    None
}


/// The numbers among some words, in order; the words that are not unsigned 64-bit
/// numbers are left out.
pub open spec fn numbers_of(ws: Seq<Seq<char>>) -> Seq<u64>
    decreases ws.len(),
{
    if ws.len() == 0 {
        seq![]
    } else {
        match parse_unsigned(ws[0], u64::MAX as nat) {
            Ok(v) => seq![v as u64] + numbers_of(ws.drop_first()),
            Err(_) => numbers_of(ws.drop_first()),
        }
    }
}

/// The words of a line after the first one.
pub open spec fn after_first_word(line: Seq<char>) -> Seq<Seq<char>> {
    if words(line).len() == 0 {
        seq![]
    } else {
        words(line).drop_first()
    }
}

/// The sum of some counters.
pub open spec fn counter_sum(s: Seq<u64>) -> nat
    decreases s.len(),
{
    if s.len() == 0 {
        0
    } else {
        counter_sum(s.drop_last()) + s.last() as nat
    }
}

/// What the first line of `/proc/stat` tells about the CPU time counters.
#[derive(Clone, Copy, Debug, PartialEq, Eq, Structural)]
pub enum StatSample {
    /// The file holds no line.
    NoLine,
    /// Fewer than three counters follow the label.
    TooFew,
    /// The counters add up beyond `u64::MAX`.
    SumOverflow,
    /// Exactly three counters follow the label: the idle counter (the fourth) is missing.
    NoIdle,
    /// The sum of all counters and the idle counter.
    Times { total: u64, idle: u64 },
}

/// What the contents of `/proc/stat` give: the counters on its first line after the
/// label, summed, with the fourth (idle) counter.
pub open spec fn stat_sample(text: Seq<char>) -> StatSample {
    if lines(text).len() == 0 {
        StatSample::NoLine
    } else {
        let parts = numbers_of(after_first_word(lines(text)[0]));
        if parts.len() < 3 {
            StatSample::TooFew
        } else if counter_sum(parts) > u64::MAX {
            StatSample::SumOverflow
        } else if parts.len() == 3 {
            StatSample::NoIdle
        } else {
            StatSample::Times { total: counter_sum(parts) as u64, idle: parts[3] }
        }
    }
}

proof fn lemma_numbers_of_skip(ws: Seq<Seq<char>>, i: int)
    requires
        0 <= i < ws.len(),
    ensures
        numbers_of(ws.skip(i)) == match parse_unsigned(ws[i], u64::MAX as nat) {
            Ok(v) => seq![v as u64] + numbers_of(ws.skip(i + 1)),
            Err(_) => numbers_of(ws.skip(i + 1)),
        },
{
    assert(ws.skip(i).drop_first() =~= ws.skip(i + 1));
}

proof fn lemma_counter_sum_push(s: Seq<u64>, x: u64)
    ensures
        counter_sum(s.push(x)) == counter_sum(s) + x,
{
    assert(s.push(x).drop_last() =~= s);
}

/// Reads the CPU time counters from the contents of `/proc/stat` (see `stat_sample`).
pub fn sample_cpu_times(text: &str) -> (r: StatSample)
    ensures
        r == stat_sample(text@),
{
    let chars = chars_of(text);
    let ls = lines_of(chars.as_slice());
    if ls.len() == 0 {
        return StatSample::NoLine;
    }
    let ws = words_of(ls[0].as_slice());
    let ghost wsv = views(ws@);
    assert(wsv == words(lines(text@)[0]));
    let ghost rest = after_first_word(lines(text@)[0]);
    let mut parts: Vec<u64> = Vec::new();
    let mut i: usize = 1;
    if ws.len() == 0 {
        i = 0;
    }
    proof {
        if ws@.len() == 0 {
            assert(rest =~= wsv.skip(0));
        } else {
            assert(rest =~= wsv.skip(1));
        }
    }
    let ghost start = i;
    while i < ws.len()
        invariant
            start <= i <= ws@.len(),
            wsv == views(ws@),
            rest == wsv.skip(start as int),
            numbers_of(rest) == parts@ + numbers_of(wsv.skip(i as int)),
        decreases ws@.len() - i,
    {
        proof {
            lemma_numbers_of_skip(wsv, i as int);
            assert(wsv[i as int] == ws@[i as int]@);
        }
        match parse_decimal(ws[i].as_slice(), u64::MAX) {
            Ok(v) => {
                parts.push(v);
                assert(numbers_of(rest) =~= parts@ + numbers_of(wsv.skip(i + 1)));
            },
            Err(_) => {},
        }
        i = i + 1;
    }
    assert(wsv.skip(ws@.len() as int) =~= Seq::<Seq<char>>::empty());
    assert(parts@ =~= numbers_of(rest));
    if parts.len() < 3 {
        return StatSample::TooFew;
    }
    let mut total: u64 = 0;
    let mut k: usize = 0;
    assert(parts@.take(0) =~= Seq::<u64>::empty());
    while k < parts.len()
        invariant
            k <= parts@.len(),
            total as nat == counter_sum(parts@.take(k as int)),
            parts@.len() >= 3,
            lines(text@).len() > 0,
            parts@ == numbers_of(after_first_word(lines(text@)[0])),
        decreases parts@.len() - k,
    {
        proof {
            assert(parts@.take(k + 1) =~= parts@.take(k as int).push(parts@[k as int]));
            lemma_counter_sum_push(parts@.take(k as int), parts@[k as int]);
        }
        match total.checked_add(parts[k]) {
            Some(t) => {
                total = t;
            },
            None => {
                proof {
                    assert(total + parts@[k as int] > u64::MAX);
                    assert(counter_sum(parts@.take(k + 1)) > u64::MAX);
                    lemma_counter_sum_prefix(parts@, (k + 1) as int);
                    assert(counter_sum(parts@) > u64::MAX);
                }
                return StatSample::SumOverflow;
            },
        }
        k = k + 1;
    }
    assert(parts@.take(parts@.len() as int) =~= parts@);
    if parts.len() == 3 {
        return StatSample::NoIdle;
    }
    StatSample::Times { total, idle: parts[3] }
}

/// A prefix of some counters sums to no more than all of them.
proof fn lemma_counter_sum_prefix(s: Seq<u64>, k: int)
    requires
        0 <= k <= s.len(),
    ensures
        counter_sum(s.take(k)) <= counter_sum(s),
    decreases s.len() - k,
{
    if k < s.len() {
        assert(s.drop_last().take(k) =~= s.take(k));
        lemma_counter_sum_prefix(s.drop_last(), k);
    } else {
        assert(s.take(k) =~= s);
    }
}

/// What one CPU usage sample gives.
#[derive(Clone, Copy, Debug, PartialEq, Eq, Structural)]
pub enum UsageStep {
    /// This is the first sample: it becomes the baseline and the usage is 0.
    Baseline,
    /// No time passed since the previous sample: the usage is 0.
    NoTime,
    /// Over the time since the previous sample, `busy` of `total` ticks were not idle.
    Ticks { busy: u64, total: u64 },
    /// A counter went back (or idle time outgrew the total): the difference is negative.
    CounterWentBack,
}

/// The CPU time counters kept between two usage samples.
#[derive(Clone, Copy, Debug, PartialEq, Eq, Structural)]
pub struct CpuCounters {
    /// The sum of all counters (0 before the first sample).
    pub total: u64,
    /// The idle counter.
    pub idle: u64,
}

/// The counters kept between CPU usage samples, and what the new sample gives.
#[derive(Clone, Copy, Debug, PartialEq, Eq, Structural)]
pub struct UsageUpdate {
    /// The counters kept for the next sample.
    pub state: CpuCounters,
    pub step: UsageStep,
}

/// CPU usage from two samples of the `/proc/stat` counters: the previous counters
/// (a total of 0 before the first sample) and the new ones. When a counter went back,
/// the previous counters are kept; when only the idle share went back, the new ones.
pub open spec fn usage_update(prev: CpuCounters, total: u64, idle: u64) -> UsageUpdate {
    let now = CpuCounters { total, idle };
    if prev.total == 0 {
        UsageUpdate { state: now, step: UsageStep::Baseline }
    } else if total < prev.total || idle < prev.idle {
        UsageUpdate { state: prev, step: UsageStep::CounterWentBack }
    } else if total - prev.total == 0 {
        UsageUpdate { state: now, step: UsageStep::NoTime }
    } else if idle - prev.idle > total - prev.total {
        UsageUpdate { state: now, step: UsageStep::CounterWentBack }
    } else {
        UsageUpdate {
            state: now,
            step: UsageStep::Ticks {
                busy: ((total - prev.total) - (idle - prev.idle)) as u64,
                total: (total - prev.total) as u64,
            },
        }
    }
}

/// A usage figure always compares a non-empty span of ticks with no more busy ticks
/// than there are ticks in it, so the usage lies between 0 and 100 percent; and the
/// counters kept are the new ones unless a counter went back.
pub proof fn lemma_usage_is_a_share(prev: CpuCounters, total: u64, idle: u64)
    ensures
        usage_update(prev, total, idle).step matches UsageStep::Ticks { busy, total: span } ==> 0
            < span && busy <= span,
        !(usage_update(prev, total, idle).step matches UsageStep::CounterWentBack) ==> usage_update(
            prev,
            total,
            idle,
        ).state == (CpuCounters { total, idle }),
{
}

/// Takes a CPU usage sample (see `usage_update`).
pub fn cpu_usage_step(prev: CpuCounters, total: u64, idle: u64) -> (r: UsageUpdate)
    ensures
        r == usage_update(prev, total, idle),
        r.step matches UsageStep::Ticks { busy, total: span } ==> span == total - prev.total
            && busy + (idle - prev.idle) == span,
{
    let now = CpuCounters { total, idle };
    if prev.total == 0 {
        return UsageUpdate { state: now, step: UsageStep::Baseline };
    }
    if total < prev.total || idle < prev.idle {
        return UsageUpdate { state: prev, step: UsageStep::CounterWentBack };
    }
    let d_total = total - prev.total;
    let d_idle = idle - prev.idle;
    if d_total == 0 {
        return UsageUpdate { state: now, step: UsageStep::NoTime };
    }
    if d_idle > d_total {
        return UsageUpdate { state: now, step: UsageStep::CounterWentBack };
    }
    UsageUpdate { state: now, step: UsageStep::Ticks { busy: d_total - d_idle, total: d_total } }
}

/// The memory figures of `/proc/meminfo`, in KiB.
#[derive(Clone, Copy, Debug, PartialEq, Eq, Structural)]
pub struct MemInfo {
    pub total_kib: u64,
    pub available_kib: u64,
}

/// The number in the second word of a line: `None` without a second word, 0 when that
/// word is not a number.
pub open spec fn second_word_number(line: Seq<char>) -> Option<u64> {
    if words(line).len() > 1 {
        match parse_unsigned(words(line)[1], u64::MAX as nat) {
            Ok(v) => Some(v as u64),
            Err(_) => Some(0),
        }
    } else {
        None
    }
}

/// The memory figures after going through some lines of `/proc/meminfo` in order:
/// the last `MemTotal:` and `MemAvailable:` lines with a second word count.
pub open spec fn meminfo_of(ls: Seq<Seq<char>>) -> MemInfo
    decreases ls.len(),
{
    if ls.len() == 0 {
        MemInfo { total_kib: 0, available_kib: 0 }
    } else {
        let m = meminfo_of(ls.drop_last());
        let l = ls.last();
        if starts_with(l, "MemTotal:"@) {
            match second_word_number(l) {
                Some(v) => MemInfo { total_kib: v, available_kib: m.available_kib },
                None => m,
            }
        } else if starts_with(l, "MemAvailable:"@) {
            match second_word_number(l) {
                Some(v) => MemInfo { total_kib: m.total_kib, available_kib: v },
                None => m,
            }
        } else {
            m
        }
    }
}

fn second_word_of(line: &Vec<char>) -> (r: Option<u64>)
    ensures
        r == second_word_number(line@),
{
    let ws = words_of(line.as_slice());
    if ws.len() > 1 {
        assert(views(ws@)[1] == ws@[1]@);
        match parse_decimal(ws[1].as_slice(), u64::MAX) {
            Ok(v) => Some(v),
            Err(_) => Some(0),
        }
    } else {
        None
    }
}

/// Reads the memory figures from the contents of `/proc/meminfo`.
pub fn parse_meminfo(text: &str) -> (m: MemInfo)
    ensures
        m == meminfo_of(lines(text@)),
{
    let chars = chars_of(text);
    let ls = lines_of(chars.as_slice());
    let ghost lv = views(ls@);
    let total_label = chars_of("MemTotal:");
    let avail_label = chars_of("MemAvailable:");
    let mut m = MemInfo { total_kib: 0, available_kib: 0 };
    let mut i: usize = 0;
    assert(lv.take(0) =~= Seq::<Seq<char>>::empty());
    while i < ls.len()
        invariant
            i <= ls@.len(),
            lv == views(ls@),
            total_label@ == "MemTotal:"@,
            avail_label@ == "MemAvailable:"@,
            m == meminfo_of(lv.take(i as int)),
        decreases ls@.len() - i,
    {
        proof {
            assert(lv.take(i + 1).drop_last() =~= lv.take(i as int));
            assert(lv.take(i + 1).last() == ls@[i as int]@);
        }
        let line = &ls[i];
        if has_prefix(line.as_slice(), total_label.as_slice()) {
            match second_word_of(line) {
                Some(v) => {
                    m = MemInfo { total_kib: v, available_kib: m.available_kib };
                },
                None => {},
            }
        } else if has_prefix(line.as_slice(), avail_label.as_slice()) {
            match second_word_of(line) {
                Some(v) => {
                    m = MemInfo { total_kib: m.total_kib, available_kib: v };
                },
                None => {},
            }
        }
        i = i + 1;
    }
    assert(lv.take(ls@.len() as int) =~= lv);
    m
}

/// How much of the memory is in use.
#[derive(Clone, Copy, Debug, PartialEq, Eq, Structural)]
pub enum RamUsage {
    /// No total memory is known: the usage is 0.
    NoTotal,
    /// `used_kib` of `total_kib` are not available.
    Used { used_kib: u64, total_kib: u64 },
    /// More memory is available than there is in total.
    AvailableAboveTotal,
}

/// The memory in use, from the memory figures.
pub fn ram_usage(m: MemInfo) -> (r: RamUsage)
    ensures
        m.total_kib == 0 ==> r == RamUsage::NoTotal,
        m.total_kib != 0 && m.available_kib > m.total_kib ==> r == RamUsage::AvailableAboveTotal,
        m.total_kib != 0 && m.available_kib <= m.total_kib ==> r == (RamUsage::Used {
            used_kib: (m.total_kib - m.available_kib) as u64,
            total_kib: m.total_kib,
        }),
{
    if m.total_kib == 0 {
        return RamUsage::NoTotal;
    }
    if m.available_kib > m.total_kib {
        return RamUsage::AvailableAboveTotal;
    }
    RamUsage::Used { used_kib: m.total_kib - m.available_kib, total_kib: m.total_kib }
}


/// The busy ticks of a usage figure are the ticks that elapsed between the two samples
/// and were not idle: `busy + idle ticks == elapsed ticks`. A figure is given exactly
/// when there is a previous sample, no counter went back, time passed and the idle
/// ticks do not exceed the elapsed ones.
pub proof fn lemma_usage_busy_ticks(prev: CpuCounters, total: u64, idle: u64)
    ensures
        usage_update(prev, total, idle).step matches UsageStep::Ticks { busy, total: span } ==> {
            &&& span == total - prev.total
            &&& busy + (idle - prev.idle) == total - prev.total
        },
        (prev.total != 0 && total > prev.total && idle >= prev.idle && idle - prev.idle <= total
            - prev.total) <==> usage_update(prev, total, idle).step is Ticks,
{
}

/// Only a `MemTotal:` line sets the total memory, and only a `MemAvailable:` line the
/// available memory: any other line leaves a figure as it was; a `MemTotal:`
/// (`MemAvailable:`) line with a number in its second word sets the total (available)
/// memory to that number.
pub proof fn lemma_meminfo_labels(ls: Seq<Seq<char>>, l: Seq<char>)
    ensures
        !starts_with(l, "MemTotal:"@) ==> meminfo_of(ls.push(l)).total_kib == meminfo_of(ls).total_kib,
        !starts_with(l, "MemAvailable:"@) && !starts_with(l, "MemTotal:"@) ==> meminfo_of(
            ls.push(l),
        ).available_kib == meminfo_of(ls).available_kib,
        starts_with(l, "MemTotal:"@) && words(l).len() > 1 ==> meminfo_of(ls.push(l)).total_kib
            == match parse_unsigned(words(l)[1], u64::MAX as nat) {
            Ok(v) => v,
            Err(_) => 0,
        },
        starts_with(l, "MemAvailable:"@) && !starts_with(l, "MemTotal:"@) && words(l).len() > 1
            ==> meminfo_of(ls.push(l)).available_kib == match parse_unsigned(
            words(l)[1],
            u64::MAX as nat,
        ) {
            Ok(v) => v,
            Err(_) => 0,
        },
{
    assert(ls.push(l).drop_last() =~= ls);
    assert(ls.push(l).last() == l);
}

/// Without a `MemTotal:` line the total memory is 0.
pub proof fn lemma_meminfo_total_needs_memtotal(ls: Seq<Seq<char>>)
    ensures
        (forall|i: int| 0 <= i < ls.len() ==> !starts_with(#[trigger] ls[i], "MemTotal:"@))
            ==> meminfo_of(ls).total_kib == 0,
    decreases ls.len(),
{
    if ls.len() > 0 && (forall|i: int| 0 <= i < ls.len() ==> !starts_with(#[trigger] ls[i], "MemTotal:"@)) {
        let init = ls.drop_last();
        assert(forall|i: int| 0 <= i < init.len() ==> init[i] == ls[i]);
        lemma_meminfo_total_needs_memtotal(init);
        assert(ls[ls.len() - 1] == ls.last());
        lemma_meminfo_labels(init, ls.last());
        assert(init.push(ls.last()) =~= ls);
    }
}

/// The last temperature input of a listing is the path of the last file whose name is
/// `temp*_input`; there is none without such a file.
pub proof fn lemma_last_temp_input_is_last(files: Seq<DirFile>)
    ensures
        (forall|k: int| 0 <= k < files.len() ==> !is_temp_input(#[trigger] files[k].name@))
            ==> last_temp_input(files) is None,
        (exists|k: int| 0 <= k < files.len() && is_temp_input(#[trigger] files[k].name@)) ==> exists|k: int|
            0 <= k < files.len() && is_temp_input(#[trigger] files[k].name@) && last_temp_input(files)
                == Some(files[k].path) && forall|j: int| k < j < files.len() ==> !is_temp_input(
                #[trigger] files[j].name@),
    decreases files.len(),
{
    if files.len() > 0 {
        let init = files.drop_last();
        lemma_last_temp_input_is_last(init);
        assert(forall|i: int| 0 <= i < init.len() ==> init[i] == files[i]);
        let n = files.len() - 1;
        if is_temp_input(files[n].name@) {
            assert(files.last() == files[n]);
        } else {
            assert(files.last() == files[n]);
            if exists|k: int| 0 <= k < files.len() && is_temp_input(#[trigger] files[k].name@) {
                let k = choose|k: int| 0 <= k < files.len() && is_temp_input(#[trigger] files[k].name@);
                assert(k < n);
                assert(is_temp_input(init[k].name@));
            }
        }
    }
}

/// The first voltage input of a listing is the path of the first file whose name is
/// `in*_input`; there is none without such a file.
pub proof fn lemma_first_voltage_input_is_first(files: Seq<DirFile>)
    ensures
        (forall|k: int| 0 <= k < files.len() ==> !is_voltage_input(#[trigger] files[k].name@))
            ==> first_voltage_input(files) is None,
        (exists|k: int| 0 <= k < files.len() && is_voltage_input(#[trigger] files[k].name@)) ==> exists|k: int|
            0 <= k < files.len() && is_voltage_input(#[trigger] files[k].name@) && first_voltage_input(files)
                == Some(files[k].path) && forall|j: int| 0 <= j < k ==> !is_voltage_input(
                #[trigger] files[j].name@),
    decreases files.len(),
{
    if files.len() > 0 {
        let rest = files.drop_first();
        lemma_first_voltage_input_is_first(rest);
        assert(forall|i: int| 0 <= i < rest.len() ==> rest[i] == files[i + 1]);
        if !is_voltage_input(files[0].name@) {
            if exists|k: int| 0 <= k < files.len() && is_voltage_input(#[trigger] files[k].name@) {
                let k = choose|k: int| 0 <= k < files.len() && is_voltage_input(#[trigger] files[k].name@);
                assert(k > 0);
                assert(is_voltage_input(rest[k - 1].name@));
                let k2 = choose|k2: int| 0 <= k2 < rest.len() && is_voltage_input(#[trigger] rest[k2].name@)
                    && first_voltage_input(rest) == Some(rest[k2].path) && forall|j: int| 0 <= j < k2
                    ==> !is_voltage_input(#[trigger] rest[j].name@);
                assert(is_voltage_input(files[k2 + 1].name@));
                assert forall|j: int| 0 <= j < k2 + 1 implies !is_voltage_input(#[trigger] files[j].name@) by {
                    if j > 0 {
                        assert(files[j] == rest[j - 1]);
                    }
                }
            }
        }
    }
}

/// A hwmon device named (after trimming) `coretemp`, `k10temp` or `zenpower` is a CPU
/// sensor: it becomes the hwmon base, its last `temp*_input` (if any) becomes the CPU
/// temperature input, and its first `in*_input` becomes the CPU voltage input when none
/// was chosen before.
pub proof fn lemma_cpu_sensor_device(devs: Seq<HwmonDevice>, d: HwmonDevice)
    requires
        trim(d.name@) == "coretemp"@ || trim(d.name@) == "k10temp"@ || trim(d.name@) == "zenpower"@,
    ensures
        ({
            let prev = hwmon_selection(devs);
            let next = hwmon_selection(devs.push(d));
            &&& next.0 == Some(d.path)
            &&& (exists|k: int| 0 <= k < d.files@.len() && is_temp_input(#[trigger] d.files@[k].name@))
                ==> next.1 == last_temp_input(d.files@) && next.1 is Some
            &&& (forall|k: int| 0 <= k < d.files@.len() ==> !is_temp_input(#[trigger] d.files@[k].name@))
                ==> next.1 == prev.1
            &&& prev.2 is None ==> next.2 == first_voltage_input(d.files@)
            &&& prev.2 is Some ==> next.2 == prev.2
        }),
{
    assert(devs.push(d).drop_last() =~= devs);
    assert(devs.push(d).last() == d);
    lemma_last_temp_input_is_last(d.files@);
}

/// A hwmon device named (after trimming) `nct6775`, `nct6687` or `it8628` is a mainboard
/// chip: it leaves the hwmon base and the CPU temperature input as they were, and its
/// first `in*_input` becomes the CPU voltage input when none was chosen before.
pub proof fn lemma_board_sensor_device(devs: Seq<HwmonDevice>, d: HwmonDevice)
    requires
        trim(d.name@) == "nct6775"@ || trim(d.name@) == "nct6687"@ || trim(d.name@) == "it8628"@,
    ensures
        ({
            let prev = hwmon_selection(devs);
            let next = hwmon_selection(devs.push(d));
            &&& next.0 == prev.0
            &&& next.1 == prev.1
            &&& prev.2 is None ==> next.2 == first_voltage_input(d.files@)
            &&& prev.2 is Some ==> next.2 == prev.2
        }),
{
    assert(devs.push(d).drop_last() =~= devs);
    assert(devs.push(d).last() == d);
    reveal_strlit("coretemp");
    reveal_strlit("k10temp");
    reveal_strlit("zenpower");
    reveal_strlit("nct6775");
    reveal_strlit("nct6687");
    reveal_strlit("it8628");
    let n = trim(d.name@);
    assert(!is_cpu_sensor_name(n)) by {
        if n == "coretemp"@ || n == "k10temp"@ || n == "zenpower"@ {
            assert(n[0] == 'n' || n[0] == 'i');
            assert(n[0] == 'c' || n[0] == 'k' || n[0] == 'z');
        }
    }
}


/// The sensor file and driver names, character by character.
pub proof fn lemma_sensor_names_spelled_out(n: Seq<char>)
    ensures
        is_cpu_sensor_name(n) <==> (n == seq!['c', 'o', 'r', 'e', 't', 'e', 'm', 'p'] || n == seq![
            'k', '1', '0', 't', 'e', 'm', 'p'] || n == seq!['z', 'e', 'n', 'p', 'o', 'w', 'e', 'r']),
        is_board_sensor_name(n) <==> (n == seq!['n', 'c', 't', '6', '7', '7', '5'] || n == seq![
            'n', 'c', 't', '6', '6', '8', '7'] || n == seq!['i', 't', '8', '6', '2', '8']),
        is_temp_input(n) <==> (n.len() >= 10 && n.take(4) == seq!['t', 'e', 'm', 'p'] && n.skip(
            n.len() - 6) == seq!['_', 'i', 'n', 'p', 'u', 't']),
        is_voltage_input(n) <==> (n.len() >= 8 && n.take(2) == seq!['i', 'n'] && n.skip(n.len() - 6)
            == seq!['_', 'i', 'n', 'p', 'u', 't']),
        is_fan_input(n) <==> (n.len() >= 9 && n.take(3) == seq!['f', 'a', 'n'] && n.skip(n.len() - 6)
            == seq!['_', 'i', 'n', 'p', 'u', 't']),
        is_gpu_card(n) <==> (n.len() >= 4 && n.take(4) == seq!['c', 'a', 'r', 'd'] && forall|i: int|
            0 <= i < n.len() ==> n[i] != '-'),
        starts_with(n, "MemTotal:"@) <==> (n.len() >= 9 && n.take(9) == seq![
            'M', 'e', 'm', 'T', 'o', 't', 'a', 'l', ':']),
        starts_with(n, "MemAvailable:"@) <==> (n.len() >= 13 && n.take(13) == seq![
            'M', 'e', 'm', 'A', 'v', 'a', 'i', 'l', 'a', 'b', 'l', 'e', ':']),
        (n == "package-0"@) <==> n == seq!['p', 'a', 'c', 'k', 'a', 'g', 'e', '-', '0'],
        (n == "psys"@) <==> n == seq!['p', 's', 'y', 's'],
{
    reveal_strlit("coretemp");
    reveal_strlit("k10temp");
    reveal_strlit("zenpower");
    reveal_strlit("nct6775");
    reveal_strlit("nct6687");
    reveal_strlit("it8628");
    reveal_strlit("temp");
    reveal_strlit("in");
    reveal_strlit("fan");
    reveal_strlit("_input");
    reveal_strlit("card");
    reveal_strlit("MemTotal:");
    reveal_strlit("MemAvailable:");
    reveal_strlit("package-0");
    reveal_strlit("psys");
    assert("coretemp"@ =~= seq!['c', 'o', 'r', 'e', 't', 'e', 'm', 'p']);
    assert("k10temp"@ =~= seq!['k', '1', '0', 't', 'e', 'm', 'p']);
    assert("zenpower"@ =~= seq!['z', 'e', 'n', 'p', 'o', 'w', 'e', 'r']);
    assert("nct6775"@ =~= seq!['n', 'c', 't', '6', '7', '7', '5']);
    assert("nct6687"@ =~= seq!['n', 'c', 't', '6', '6', '8', '7']);
    assert("it8628"@ =~= seq!['i', 't', '8', '6', '2', '8']);
    assert("temp"@ =~= seq!['t', 'e', 'm', 'p']);
    assert("in"@ =~= seq!['i', 'n']);
    assert("fan"@ =~= seq!['f', 'a', 'n']);
    assert("_input"@ =~= seq!['_', 'i', 'n', 'p', 'u', 't']);
    assert("card"@ =~= seq!['c', 'a', 'r', 'd']);
    assert("MemTotal:"@ =~= seq!['M', 'e', 'm', 'T', 'o', 't', 'a', 'l', ':']);
    assert("MemAvailable:"@ =~= seq!['M', 'e', 'm', 'A', 'v', 'a', 'i', 'l', 'a', 'b', 'l', 'e', ':']);
    assert("package-0"@ =~= seq!['p', 'a', 'c', 'k', 'a', 'g', 'e', '-', '0']);
    assert("psys"@ =~= seq!['p', 's', 'y', 's']);
    if is_temp_input(n) {
        assert(n.len() >= 10) by {
            if n.len() < 10 {
                assert(n.take(4) == seq!['t', 'e', 'm', 'p']);
                assert(n.skip(n.len() - 6) == seq!['_', 'i', 'n', 'p', 'u', 't']);
                let k = n.len() - 6;
                assert(0 <= k < 4);
                assert(n.take(4)[k] == n[k]);
                assert(n.skip(k)[0] == n[k]);
            }
        }
    }
    if is_fan_input(n) {
        assert(n.len() >= 9) by {
            if n.len() < 9 {
                let k = n.len() - 6;
                assert(0 <= k < 3);
                assert(n.take(3)[k] == n[k]);
                assert(n.skip(k)[0] == n[k]);
            }
        }
    }
    if is_voltage_input(n) {
        assert(n.len() >= 8) by {
            if n.len() < 8 {
                let k = n.len() - 6;
                assert(0 <= k < 2);
                assert(n.take(2)[k] == n[k]);
                assert(n.skip(k)[0] == n[k]);
                assert(n.skip(k)[1] == n[k + 1]);
                if k == 0 {
                    assert(n.take(2)[1] == n[1]);
                }
            }
        }
    }
    if is_gpu_card(n) {
        assert forall|i: int| 0 <= i < n.len() implies n[i] != '-' by {
            if n[i] == '-' {
                assert(n.contains('-'));
            }
        }
    }
    if n.len() >= 4 && n.take(4) == seq!['c', 'a', 'r', 'd'] && forall|i: int| 0 <= i < n.len()
        ==> n[i] != '-' {
        assert(!n.contains('-'));
    }
}

/// A hwmon device that is neither a CPU sensor nor a mainboard chip leaves the choice as
/// it was.
pub proof fn lemma_other_hwmon_device(devs: Seq<HwmonDevice>, d: HwmonDevice)
    requires
        !is_cpu_sensor_name(trim(d.name@)),
        !is_board_sensor_name(trim(d.name@)),
    ensures
        hwmon_selection(devs.push(d)) == hwmon_selection(devs),
{
    assert(devs.push(d).drop_last() =~= devs);
    assert(devs.push(d).last() == d);
}

/// A powercap zone named (after trimming) `package-0` or `psys` whose `energy_uj` file
/// exists becomes the RAPL counter, with the number its file holds (0 when it cannot be
/// read or parsed); any other zone leaves the choice as it was.
pub proof fn lemma_rapl_zone(zones: Seq<PowercapZone>, z: PowercapZone)
    ensures
        (z.name matches Some(n) && (trim(n@) == "package-0"@ || trim(n@) == "psys"@) && z.energy_exists)
            ==> rapl_selection(zones.push(z)) == Some((
            z.energy_path,
            match z.energy_text {
                Some(t) => match parse_unsigned(trim(t@), u64::MAX as nat) {
                    Ok(v) => v as u64,
                    Err(_) => 0u64,
                },
                None => 0u64,
            },
        )),
        !(z.name matches Some(n) && (trim(n@) == "package-0"@ || trim(n@) == "psys"@)
            && z.energy_exists) ==> rapl_selection(zones.push(z)) == rapl_selection(zones),
{
    assert(zones.push(z).drop_last() =~= zones);
    assert(zones.push(z).last() == z);
}

} // verus!
