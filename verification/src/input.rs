//! Reading, parsing and holding the configuration options of a scan.
use crate::ports::{
    empty_flags, flagged_ports, flags_hold, lemma_sorted_ports, mark_port, mark_range,
    port_range, sorted_ports, strictly_increasing,
};
use crate::text::{
    chars_of, decimal, find_char, first_index, parse_u16, parse_u16_spec, push_decimal,
    push_range, push_str, string_from_chars, trim, trim_range,
};
use std::path::PathBuf;
use vstd::prelude::*;

verus! {

/// The lowest port that can be scanned.
pub const LOWEST_PORT_NUMBER: u16 = 1;

/// The highest port that can be scanned.
pub const TOP_PORT_NUMBER: u16 = 65535;

/// A list of ports.
pub type Ports = Vec<u16>;

/// `v` between single quotes.
pub open spec fn quoted(v: Seq<char>) -> Seq<char> {
    "'"@ + v + "'"@
}

/// The allowed port interval, as the messages state it.
pub open spec fn port_bounds_text() -> Seq<char> {
    " must be between "@ + decimal(LOWEST_PORT_NUMBER as nat) + " and "@ + decimal(
        TOP_PORT_NUMBER as nat,
    )
}

/// A single port written as `part`.
pub open spec fn single_port_spec(part: Seq<char>) -> Result<u16, Seq<char>> {
    match parse_u16_spec(part) {
        None => Err("Invalid port number "@ + quoted(part)),
        Some(port) => if port < LOWEST_PORT_NUMBER {
            Err("Port "@ + decimal(port as nat) + port_bounds_text())
        } else {
            Ok(port)
        },
    }
}

/// The ports of a range written as `part`: exactly one `-` between two ports,
/// the first not above the second and not below the lowest port.
pub open spec fn port_range_spec(part: Seq<char>) -> Result<Set<u16>, Seq<char>> {
    let d = first_index(part, '-') as int;
    let before = part.take(d);
    let after = part.skip(d + 1);
    if d >= part.len() || first_index(after, '-') < after.len() {
        Err("Invalid range format "@ + quoted(part) + ". Expected 'start-end'. Example: 1-1000."@)
    } else {
        match parse_u16_spec(before) {
            None => Err("Invalid start port "@ + quoted(before) + " in range "@ + quoted(part)),
            Some(start) => match parse_u16_spec(after) {
                None => Err("Invalid end port "@ + quoted(after) + " in range "@ + quoted(part)),
                Some(end) => if start > end {
                    Err(
                        "Start port "@ + decimal(start as nat) + " is greater than end port "@
                            + decimal(end as nat) + " in range "@ + quoted(part),
                    )
                } else if start < LOWEST_PORT_NUMBER {
                    Err("Ports in range "@ + quoted(part) + port_bounds_text())
                } else {
                    Ok(port_range(start, end))
                },
            },
        }
    }
}

/// The ports of one trimmed comma-separated part; an empty part has none.
pub open spec fn part_ports(part: Seq<char>) -> Result<Set<u16>, Seq<char>> {
    if part.len() == 0 {
        Ok(Set::empty())
    } else if first_index(part, '-') < part.len() {
        port_range_spec(part)
    } else {
        match single_port_spec(part) {
            Err(m) => Err(m),
            Ok(port) => Ok(set![port]),
        }
    }
}

/// The ports of the comma-separated parts of `s`; the first part in error
/// decides the error.
pub open spec fn ports_list(s: Seq<char>) -> Result<Set<u16>, Seq<char>>
    decreases s.len(),
{
    let k = first_index(s, ',') as int;
    match part_ports(trim(s.take(k))) {
        Err(m) => Err(m),
        Ok(set) => if k < s.len() {
            match ports_list(s.skip(k + 1)) {
                Err(m) => Err(m),
                Ok(rest) => Ok(set + rest),
            }
        } else {
            Ok(set)
        },
    }
}

/// What `parse_ports_and_ranges` makes of `s`: the ports it lists, ascending
/// and each once, or the message of the first error.
pub open spec fn parse_ports_and_ranges_spec(s: Seq<char>) -> Result<Seq<u16>, Seq<char>> {
    match ports_list(s) {
        Err(m) => Err(m),
        Ok(set) => if set == Set::<u16>::empty() {
            Err("No valid ports or ranges provided"@)
        } else {
            Ok(sorted_ports(set))
        },
    }
}

/// Every port that a port list names is at least the lowest port.
pub(crate) proof fn lemma_ports_list_positive(s: Seq<char>)
    ensures
        ports_list(s) matches Ok(set) ==> !set.contains(0),
    decreases s.len(),
{
    let k = first_index(s, ',') as int;
    if k < s.len() {
        lemma_ports_list_positive(s.skip(k + 1));
    }
}

// ---------------------------------------------------------------------------

/// `'` + `s[lo..hi]` + `'`, appended to `out`.
fn push_quoted(out: &mut Vec<char>, s: &[char], lo: usize, hi: usize)
    requires
        lo <= hi <= s@.len(),
    ensures
        final(out)@ == old(out)@ + quoted(s@.subrange(lo as int, hi as int)),
{
    push_str(out, "'");
    push_range(out, s, lo, hi);
    push_str(out, "'");
}

fn push_port_bounds(out: &mut Vec<char>)
    ensures
        final(out)@ == old(out)@ + port_bounds_text(),
{
    push_str(out, " must be between ");
    push_decimal(out, LOWEST_PORT_NUMBER as u64);
    push_str(out, " and ");
    push_decimal(out, TOP_PORT_NUMBER as u64);
}

/// Parses the single port `s[lo..hi]`.
fn parse_single_port(s: &[char], lo: usize, hi: usize) -> (r: Result<u16, Vec<char>>)
    requires
        lo <= hi <= s@.len(),
    ensures
        match r {
            Ok(p) => single_port_spec(s@.subrange(lo as int, hi as int)) == Ok::<u16, Seq<char>>(
                p,
            ),
            Err(m) => single_port_spec(s@.subrange(lo as int, hi as int)) == Err::<
                u16,
                Seq<char>,
            >(m@),
        },
{
    let mut m: Vec<char> = Vec::new();
    match parse_u16(s, lo, hi) {
        None => {
            push_str(&mut m, "Invalid port number ");
            push_quoted(&mut m, s, lo, hi);
            Err(m)
        },
        Some(port) => {
            if port < LOWEST_PORT_NUMBER {
                push_str(&mut m, "Port ");
                push_decimal(&mut m, port as u64);
                push_port_bounds(&mut m);
                Err(m)
            } else {
                Ok(port)
            }
        },
    }
}

/// Parses the range `s[lo..hi]` and adds its ports to the set `flags` marks.
fn parse_port_range(s: &[char], lo: usize, hi: usize, flags: &mut Vec<bool>, Ghost(acc): Ghost<
    Set<u16>,
>) -> (r: Result<(), Vec<char>>)
    requires
        lo <= hi <= s@.len(),
        flags_hold(old(flags)@, acc),
    ensures
        match r {
            Ok(()) => port_range_spec(s@.subrange(lo as int, hi as int)) is Ok && flags_hold(
                final(flags)@,
                acc + port_range_spec(s@.subrange(lo as int, hi as int))->Ok_0,
            ),
            Err(m) => port_range_spec(s@.subrange(lo as int, hi as int)) == Err::<
                Set<u16>,
                Seq<char>,
            >(m@),
        },
{
    let ghost part = s@.subrange(lo as int, hi as int);
    let mut m: Vec<char> = Vec::new();
    let d = find_char(s, lo, hi, '-');
    let second = if d < hi {
        find_char(s, d + 1, hi, '-')
    } else {
        hi
    };
    proof {
        if d < hi {
            assert(part.skip(d - lo + 1) =~= s@.subrange(d + 1, hi as int));
        }
        assert(part.take(d - lo) =~= s@.subrange(lo as int, d as int));
    }
    if d == hi || second < hi {
        push_str(&mut m, "Invalid range format ");
        push_quoted(&mut m, s, lo, hi);
        push_str(&mut m, ". Expected 'start-end'. Example: 1-1000.");
        return Err(m);
    }
    let start = match parse_u16(s, lo, d) {
        None => {
            push_str(&mut m, "Invalid start port ");
            push_quoted(&mut m, s, lo, d);
            push_str(&mut m, " in range ");
            push_quoted(&mut m, s, lo, hi);
            return Err(m);
        },
        Some(p) => p,
    };
    let end = match parse_u16(s, d + 1, hi) {
        None => {
            push_str(&mut m, "Invalid end port ");
            push_quoted(&mut m, s, d + 1, hi);
            push_str(&mut m, " in range ");
            push_quoted(&mut m, s, lo, hi);
            return Err(m);
        },
        Some(p) => p,
    };
    if start > end {
        push_str(&mut m, "Start port ");
        push_decimal(&mut m, start as u64);
        push_str(&mut m, " is greater than end port ");
        push_decimal(&mut m, end as u64);
        push_str(&mut m, " in range ");
        push_quoted(&mut m, s, lo, hi);
        return Err(m);
    }
    if start < LOWEST_PORT_NUMBER {
        push_str(&mut m, "Ports in range ");
        push_quoted(&mut m, s, lo, hi);
        push_port_bounds(&mut m);
        return Err(m);
    }
    mark_range(flags, start, end, Ghost(acc));
    Ok(())
}

/// Parses a comma-delimited list of ports and inclusive port ranges, such as
/// `80,443,1-1000`, into the ascending list of the ports it names.
pub fn parse_ports_and_ranges(input: &str) -> (r: Result<Ports, String>)
    ensures
        match r {
            Ok(ports) => parse_ports_and_ranges_spec(input@) == Ok::<Seq<u16>, Seq<char>>(
                ports@,
            ),
            Err(m) => parse_ports_and_ranges_spec(input@) == Err::<Seq<u16>, Seq<char>>(m@),
        },
        r matches Ok(ports) ==> ports@.len() > 0 && strictly_increasing(ports@) && forall|i: int|
            0 <= i < ports@.len() ==> ports@[i] >= LOWEST_PORT_NUMBER,
{
    let s = chars_of(input);
    let n = s.len();
    let mut flags = empty_flags();
    let ghost mut acc: Set<u16> = Set::empty();
    let mut pos: usize = 0;
    proof {
        assert(s@.subrange(0, n as int) =~= s@);
        let whole = ports_list(s@);
        if whole is Ok {
            assert(acc + whole->Ok_0 =~= whole->Ok_0);
        }
    }
    loop
        invariant_except_break
            ports_list(s@) == (match ports_list(s@.subrange(pos as int, n as int)) {
                Err(m) => Err(m),
                Ok(rest) => Ok(acc + rest),
            }),
        invariant
            s@ == input@,
            n == s@.len(),
            pos <= n,
            flags_hold(flags@, acc),
        ensures
            ports_list(s@) == Ok::<Set<u16>, Seq<char>>(acc),
        decreases n - pos,
    {
        let ghost rest = s@.subrange(pos as int, n as int);
        let k = find_char(s.as_slice(), pos, n, ',');
        let (a, b) = trim_range(s.as_slice(), pos, k);
        proof {
            assert(rest.take(k - pos) =~= s@.subrange(pos as int, k as int));
            if k < n {
                assert(rest.skip(k - pos + 1) =~= s@.subrange(k + 1, n as int));
            }
        }
        let ghost part = s@.subrange(a as int, b as int);
        let ghost before = acc;
        if a < b {
            if find_char(s.as_slice(), a, b, '-') < b {
                match parse_port_range(s.as_slice(), a, b, &mut flags, Ghost(acc)) {
                    Err(m) => {
                        return Err(string_from_chars(m.as_slice()));
                    },
                    Ok(()) => {},
                }
                proof {
                    acc = acc + part_ports(part)->Ok_0;
                }
            } else {
                match parse_single_port(s.as_slice(), a, b) {
                    Err(m) => {
                        return Err(string_from_chars(m.as_slice()));
                    },
                    Ok(port) => {
                        mark_port(&mut flags, port, Ghost(acc));
                        proof {
                            assert(acc.insert(port) =~= acc + set![port]);
                            acc = acc + set![port];
                        }
                    },
                }
            }
        } else {
            proof {
                assert(acc + Set::<u16>::empty() =~= acc);
            }
        }
        proof {
            if k < n && ports_list(s@.subrange(k + 1, n as int)) is Ok {
                let tail = ports_list(s@.subrange(k + 1, n as int));
                assert(before + (part_ports(part)->Ok_0 + tail->Ok_0) =~= (before + part_ports(
                    part,
                )->Ok_0) + tail->Ok_0);
            }
        }
        if k == n {
            break ;
        }
        pos = k + 1;
    }
    proof {
        lemma_sorted_ports(acc);
        lemma_ports_list_positive(s@);
    }
    let ports = flagged_ports(&flags, Ghost(acc));
    if ports.len() == 0 {
        proof {
            assert forall|p: u16| !acc.contains(p) by {
                assert(!sorted_ports(acc).contains(p));
            }
            assert(acc =~= Set::<u16>::empty());
        }
        return Err(string_from_chars(chars_of("No valid ports or ranges provided").as_slice()));
    }
    proof {
        assert(acc != Set::<u16>::empty()) by {
            assert(acc.contains(ports@[0]));
        }
        assert forall|i: int| 0 <= i < ports@.len() implies ports@[i] >= LOWEST_PORT_NUMBER by {
            assert(sorted_ports(acc).contains(ports@[i]));
        }
    }
    Ok(ports)
}


/// The order in which ports are scanned.
///   - Serial runs from start to end, for example 1 to 1_000.
///   - Random scans the ports in a random order.
#[derive(Debug, Clone, Copy, PartialEq, Eq, Structural)]
pub enum ScanOrder {
    Serial,
    Random,
}

/// The scripts to run after the scan.
///   - NoScripts runs no script; only the scan results are shown (written
///     `none` on the command line and `None` in the configuration file).
///   - Default runs the default embedded nmap script.
///   - Custom reads the script configuration and the scripts in the predefined folders.
#[derive(Debug, Clone, Copy, PartialEq, Eq, Structural)]
pub enum ScriptsRequired {
    NoScripts,
    Default,
    Custom,
}

#[verifier::external_type_specification]
#[verifier::external_body]
pub struct ExPathBuf(PathBuf);

/// The 1000 most common ports, scanned when the user asks for the top ports.
pub const TOP_1000_PORTS: [u16; 1000] = [
    1, 3, 4, 6, 7, 9, 13, 17, 19, 20, 21, 22, 23, 24, 25, 26, 30, 32, 33, 37, 42, 43, 49, 53, 70,
    79, 80, 81, 82, 83, 84, 85, 88, 89, 90, 99, 100, 106, 109, 110, 111, 113, 119, 125, 135, 139,
    143, 144, 146, 161, 163, 179, 199, 211, 212, 222, 254, 255, 256, 259, 264, 280, 301, 306, 311,
    340, 366, 389, 406, 407, 416, 417, 425, 427, 443, 444, 445, 458, 464, 465, 481, 497, 500, 512,
    513, 514, 515, 524, 541, 543, 544, 545, 548, 554, 555, 563, 587, 593, 616, 617, 625, 631, 636,
    646, 648, 666, 667, 668, 683, 687, 691, 700, 705, 711, 714, 720, 722, 726, 749, 765, 777, 783,
    787, 800, 801, 808, 843, 873, 880, 888, 898, 900, 901, 902, 903, 911, 912, 981, 987, 990, 992,
    993, 995, 999, 1000, 1001, 1002, 1007, 1009, 1010, 1011, 1021, 1022, 1023, 1024, 1025, 1026,
    1027, 1028, 1029, 1030, 1031, 1032, 1033, 1034, 1035, 1036, 1037, 1038, 1039, 1040, 1041, 1042,
    1043, 1044, 1045, 1046, 1047, 1048, 1049, 1050, 1051, 1052, 1053, 1054, 1055, 1056, 1057, 1058,
    1059, 1060, 1061, 1062, 1063, 1064, 1065, 1066, 1067, 1068, 1069, 1070, 1071, 1072, 1073, 1074,
    1075, 1076, 1077, 1078, 1079, 1080, 1081, 1082, 1083, 1084, 1085, 1086, 1087, 1088, 1089, 1090,
    1091, 1092, 1093, 1094, 1095, 1096, 1097, 1098, 1099, 1100, 1102, 1104, 1105, 1106, 1107, 1108,
    1110, 1111, 1112, 1113, 1114, 1117, 1119, 1121, 1122, 1123, 1124, 1126, 1130, 1131, 1132, 1137,
    1138, 1141, 1145, 1147, 1148, 1149, 1151, 1152, 1154, 1163, 1164, 1165, 1166, 1169, 1174, 1175,
    1183, 1185, 1186, 1187, 1192, 1198, 1199, 1201, 1213, 1216, 1217, 1218, 1233, 1234, 1236, 1244,
    1247, 1248, 1259, 1271, 1272, 1277, 1287, 1296, 1300, 1301, 1309, 1310, 1311, 1322, 1328, 1334,
    1352, 1417, 1433, 1434, 1443, 1455, 1461, 1494, 1500, 1501, 1503, 1521, 1524, 1533, 1556, 1580,
    1583, 1594, 1600, 1641, 1658, 1666, 1687, 1688, 1700, 1717, 1718, 1719, 1720, 1721, 1723, 1755,
    1761, 1782, 1783, 1801, 1805, 1812, 1839, 1840, 1862, 1863, 1864, 1875, 1900, 1914, 1935, 1947,
    1971, 1972, 1974, 1984, 1998, 1999, 2000, 2001, 2002, 2003, 2004, 2005, 2006, 2007, 2008, 2009,
    2010, 2013, 2020, 2021, 2022, 2030, 2033, 2034, 2035, 2038, 2040, 2041, 2042, 2043, 2045, 2046,
    2047, 2048, 2049, 2065, 2068, 2099, 2100, 2103, 2105, 2106, 2107, 2111, 2119, 2121, 2126, 2135,
    2144, 2160, 2161, 2170, 2179, 2190, 2191, 2196, 2200, 2222, 2251, 2260, 2288, 2301, 2323, 2366,
    2381, 2382, 2383, 2393, 2394, 2399, 2401, 2492, 2500, 2522, 2525, 2557, 2601, 2602, 2604, 2605,
    2607, 2608, 2638, 2701, 2702, 2710, 2717, 2718, 2725, 2800, 2809, 2811, 2869, 2875, 2909, 2910,
    2920, 2967, 2968, 2998, 3000, 3001, 3003, 3005, 3006, 3007, 3011, 3013, 3017, 3030, 3031, 3052,
    3071, 3077, 3128, 3168, 3211, 3221, 3260, 3261, 3268, 3269, 3283, 3300, 3301, 3306, 3322, 3323,
    3324, 3325, 3333, 3351, 3367, 3369, 3370, 3371, 3372, 3389, 3390, 3404, 3476, 3493, 3517, 3527,
    3546, 3551, 3580, 3659, 3689, 3690, 3703, 3737, 3766, 3784, 3800, 3801, 3809, 3814, 3826, 3827,
    3828, 3851, 3869, 3871, 3878, 3880, 3889, 3905, 3914, 3918, 3920, 3945, 3971, 3986, 3995, 3998,
    4000, 4001, 4002, 4003, 4004, 4005, 4006, 4045, 4111, 4125, 4126, 4129, 4224, 4242, 4279, 4321,
    4343, 4443, 4444, 4445, 4446, 4449, 4550, 4567, 4662, 4848, 4899, 4900, 4998, 5000, 5001, 5002,
    5003, 5004, 5009, 5030, 5033, 5050, 5051, 5054, 5060, 5061, 5080, 5087, 5100, 5101, 5102, 5120,
    5190, 5200, 5214, 5221, 5222, 5225, 5226, 5269, 5280, 5298, 5357, 5405, 5414, 5431, 5432, 5440,
    5500, 5510, 5544, 5550, 5555, 5560, 5566, 5631, 5633, 5666, 5678, 5679, 5718, 5730, 5800, 5801,
    5802, 5810, 5811, 5815, 5822, 5825, 5850, 5859, 5862, 5877, 5900, 5901, 5902, 5903, 5904, 5906,
    5907, 5910, 5911, 5915, 5922, 5925, 5950, 5952, 5959, 5960, 5961, 5962, 5963, 5987, 5988, 5989,
    5998, 5999, 6000, 6001, 6002, 6003, 6004, 6005, 6006, 6007, 6009, 6025, 6059, 6100, 6101, 6106,
    6112, 6123, 6129, 6156, 6346, 6389, 6502, 6510, 6543, 6547, 6565, 6566, 6567, 6580, 6646, 6666,
    6667, 6668, 6669, 6689, 6692, 6699, 6779, 6788, 6789, 6792, 6839, 6881, 6901, 6969, 7000, 7001,
    7002, 7004, 7007, 7019, 7025, 7070, 7100, 7103, 7106, 7200, 7201, 7402, 7435, 7443, 7496, 7512,
    7625, 7627, 7676, 7741, 7777, 7778, 7800, 7911, 7920, 7921, 7937, 7938, 7999, 8000, 8001, 8002,
    8007, 8008, 8009, 8010, 8011, 8021, 8022, 8031, 8042, 8045, 8080, 8081, 8082, 8083, 8084, 8085,
    8086, 8087, 8088, 8089, 8090, 8093, 8099, 8100, 8180, 8181, 8192, 8193, 8194, 8200, 8222, 8254,
    8290, 8291, 8292, 8300, 8333, 8383, 8400, 8402, 8443, 8500, 8600, 8649, 8651, 8652, 8654, 8701,
    8800, 8873, 8888, 8899, 8994, 9000, 9001, 9002, 9003, 9009, 9010, 9011, 9040, 9050, 9071, 9080,
    9081, 9090, 9091, 9099, 9100, 9101, 9102, 9103, 9110, 9111, 9200, 9207, 9220, 9290, 9415, 9418,
    9485, 9500, 9502, 9503, 9535, 9575, 9593, 9594, 9595, 9618, 9666, 9876, 9877, 9878, 9898, 9900,
    9917, 9929, 9943, 9944, 9968, 9998, 9999, 10000, 10001, 10002, 10003, 10004, 10009, 10010,
    10012, 10024, 10025, 10082, 10180, 10215, 10243, 10566, 10616, 10617, 10621, 10626, 10628,
    10629, 10778, 11110, 11111, 11967, 12000, 12174, 12265, 12345, 13456, 13722, 13782, 13783,
    14000, 14238, 14441, 14442, 15000, 15002, 15003, 15004, 15660, 15742, 16000, 16001, 16012,
    16016, 16018, 16080, 16113, 16992, 16993, 17877, 17988, 18040, 18101, 18988, 19101, 19283,
    19315, 19350, 19780, 19801, 19842, 20000, 20005, 20031, 20221, 20222, 20828, 21571, 22939,
    23502, 24444, 24800, 25734, 25735, 26214, 27000, 27352, 27353, 27355, 27356, 27715, 28201,
    30000, 30718, 30951, 31038, 31337, 32768, 32769, 32770, 32771, 32772, 32773, 32774, 32775,
    32776, 32777, 32778, 32779, 32780, 32781, 32782, 32783, 32784, 32785, 33354, 33899, 34571,
    34572, 34573, 35500, 38292, 40193, 40911, 41511, 42510, 44176, 44442, 44443, 44501, 45100,
    48080, 49152, 49153, 49154, 49155, 49156, 49157, 49158, 49159, 49160, 49161, 49163, 49165,
    49167, 49175, 49176, 49400, 49999, 50000, 50001, 50002, 50003, 50006, 50300, 50389, 50500,
    50636, 50800, 51103, 51493, 52673, 52822, 52848, 52869, 54045, 54328, 55055, 55056, 55555,
    55600, 56737, 56738, 57294, 57797, 58080, 60020, 60443, 61532, 61900, 62078, 63331, 64623,
    64680, 65000, 65129, 65389,
];

/// The options of a scan: the command line, possibly merged with the
/// configuration file.
#[derive(Debug)]
pub struct Opts {
    /// The CIDRs, IPs or hosts to be scanned.
    pub addresses: Vec<String>,
    /// The ports to be scanned.
    pub ports: Option<Ports>,
    /// Whether to ignore the configuration file.
    pub no_config: bool,
    /// Hide the banner.
    pub no_banner: bool,
    /// Custom path to the configuration file.
    pub config_path: Option<PathBuf>,
    /// Greppable mode: only output the ports.
    pub greppable: bool,
    /// Accessible mode: turn off features that hinder screen readers.
    pub accessible: bool,
    /// The DNS resolvers.
    pub resolver: Option<String>,
    /// The number of ports scanned at once.
    pub batch_size: usize,
    /// The timeout in milliseconds before a port is assumed to be closed.
    pub timeout: u32,
    /// The number of tries before a port is assumed to be closed.
    pub tries: u8,
    /// The file limit to raise the process to.
    pub ulimit: Option<usize>,
    /// The order in which ports are scanned.
    pub scan_order: ScanOrder,
    /// The scripts to run.
    pub scripts: ScriptsRequired,
    /// Use the top 1000 ports.
    pub top: bool,
    /// The arguments of the script.
    pub command: Vec<String>,
    /// Ports excluded from the scan.
    pub exclude_ports: Option<Vec<u16>>,
    /// CIDRs, IPs or hosts excluded from the scan.
    pub exclude_addresses: Option<Vec<String>>,
    /// UDP scanning mode.
    pub udp: bool,
}

/// What an `Opts` holds, with strings and lists as sequences.
pub struct OptsModel {
    pub addresses: Seq<Seq<char>>,
    pub ports: Option<Seq<u16>>,
    pub no_config: bool,
    pub no_banner: bool,
    pub config_path: Option<PathBuf>,
    pub greppable: bool,
    pub accessible: bool,
    pub resolver: Option<Seq<char>>,
    pub batch_size: usize,
    pub timeout: u32,
    pub tries: u8,
    pub ulimit: Option<usize>,
    pub scan_order: ScanOrder,
    pub scripts: ScriptsRequired,
    pub top: bool,
    pub command: Seq<Seq<char>>,
    pub exclude_ports: Option<Seq<u16>>,
    pub exclude_addresses: Option<Seq<Seq<char>>>,
    pub udp: bool,
}

impl View for Opts {
    type V = OptsModel;

    open spec fn view(&self) -> OptsModel {
        OptsModel {
            addresses: strings_view(self.addresses),
            ports: opt_ports_view(self.ports),
            no_config: self.no_config,
            no_banner: self.no_banner,
            config_path: self.config_path,
            greppable: self.greppable,
            accessible: self.accessible,
            resolver: opt_string_view(self.resolver),
            batch_size: self.batch_size,
            timeout: self.timeout,
            tries: self.tries,
            ulimit: self.ulimit,
            scan_order: self.scan_order,
            scripts: self.scripts,
            top: self.top,
            command: strings_view(self.command),
            exclude_ports: opt_ports_view(self.exclude_ports),
            exclude_addresses: opt_strings_view(self.exclude_addresses),
            udp: self.udp,
        }
    }
}

/// The options found in the configuration file; each is absent unless the
/// file sets it.
#[derive(Debug)]
pub struct Config {
    pub addresses: Option<Vec<String>>,
    pub ports: Option<Vec<u16>>,
    pub greppable: Option<bool>,
    pub accessible: Option<bool>,
    pub batch_size: Option<usize>,
    pub timeout: Option<u32>,
    pub tries: Option<u8>,
    pub ulimit: Option<usize>,
    pub resolver: Option<String>,
    pub scan_order: Option<ScanOrder>,
    pub command: Option<Vec<String>>,
    pub scripts: Option<ScriptsRequired>,
    pub exclude_ports: Option<Vec<u16>>,
    pub exclude_addresses: Option<Vec<String>>,
    pub udp: Option<bool>,
    pub no_banner: Option<bool>,
}

/// What a `Config` holds, with strings and lists as sequences.
pub struct ConfigModel {
    pub addresses: Option<Seq<Seq<char>>>,
    pub ports: Option<Seq<u16>>,
    pub greppable: Option<bool>,
    pub accessible: Option<bool>,
    pub batch_size: Option<usize>,
    pub timeout: Option<u32>,
    pub tries: Option<u8>,
    pub ulimit: Option<usize>,
    pub resolver: Option<Seq<char>>,
    pub scan_order: Option<ScanOrder>,
    pub command: Option<Seq<Seq<char>>>,
    pub scripts: Option<ScriptsRequired>,
    pub exclude_ports: Option<Seq<u16>>,
    pub exclude_addresses: Option<Seq<Seq<char>>>,
    pub udp: Option<bool>,
    pub no_banner: Option<bool>,
}

impl View for Config {
    type V = ConfigModel;

    open spec fn view(&self) -> ConfigModel {
        ConfigModel {
            addresses: opt_strings_view(self.addresses),
            ports: opt_ports_view(self.ports),
            greppable: self.greppable,
            accessible: self.accessible,
            batch_size: self.batch_size,
            timeout: self.timeout,
            tries: self.tries,
            ulimit: self.ulimit,
            resolver: opt_string_view(self.resolver),
            scan_order: self.scan_order,
            command: opt_strings_view(self.command),
            scripts: self.scripts,
            exclude_ports: opt_ports_view(self.exclude_ports),
            exclude_addresses: opt_strings_view(self.exclude_addresses),
            udp: self.udp,
            no_banner: self.no_banner,
        }
    }
}

/// The configured value when there is one, else the current value.
pub open spec fn or_current<T>(configured: Option<T>, current: T) -> T {
    match configured {
        Some(v) => v,
        None => current,
    }
}

/// The configured optional value when there is one, else the current one.
pub open spec fn or_current_option<T>(configured: Option<T>, current: Option<T>) -> Option<T> {
    if configured is Some {
        configured
    } else {
        current
    }
}

/// All ports from the lowest to the highest, ascending.
pub open spec fn full_port_range() -> Seq<u16> {
    Seq::new((TOP_PORT_NUMBER - LOWEST_PORT_NUMBER + 1) as nat, |i: int| (i + LOWEST_PORT_NUMBER) as u16)
}

/// The options after the command line is read: every port when none is given.
pub open spec fn read_spec(parsed: OptsModel) -> OptsModel {
    if parsed.ports is None {
        OptsModel { ports: Some(full_port_range()), ..parsed }
    } else {
        parsed
    }
}

/// The options after the values that every run has are taken from the
/// configuration where it sets them.
pub open spec fn merge_required_spec(o: OptsModel, c: ConfigModel) -> OptsModel {
    OptsModel {
        addresses: or_current(c.addresses, o.addresses),
        greppable: or_current(c.greppable, o.greppable),
        accessible: or_current(c.accessible, o.accessible),
        batch_size: or_current(c.batch_size, o.batch_size),
        timeout: or_current(c.timeout, o.timeout),
        tries: or_current(c.tries, o.tries),
        scan_order: or_current(c.scan_order, o.scan_order),
        scripts: or_current(c.scripts, o.scripts),
        command: or_current(c.command, o.command),
        udp: or_current(c.udp, o.udp),
        no_banner: or_current(c.no_banner, o.no_banner),
        ..o
    }
}

/// The options after the optional values are taken from the configuration
/// where it sets them; the top ports win over configured ports when asked for.
pub open spec fn merge_optional_spec(o: OptsModel, c: ConfigModel) -> OptsModel {
    OptsModel {
        ports: if o.top {
            Some(top_ports_spec())
        } else {
            or_current_option(c.ports, o.ports)
        },
        resolver: or_current_option(c.resolver, o.resolver),
        ulimit: or_current_option(c.ulimit, o.ulimit),
        exclude_ports: or_current_option(c.exclude_ports, o.exclude_ports),
        exclude_addresses: or_current_option(c.exclude_addresses, o.exclude_addresses),
        ..o
    }
}

/// The options after merging the configuration, unless it is to be ignored.
pub open spec fn merge_spec(o: OptsModel, c: ConfigModel) -> OptsModel {
    if o.no_config {
        o
    } else {
        merge_optional_spec(merge_required_spec(o, c), c)
    }
}

/// The top 1000 ports, in the order of `TOP_1000_PORTS`.
#[verifier::opaque]
pub open spec fn top_ports_spec() -> Seq<u16> {
    TOP_1000_PORTS@
}

/// A list of strings as a sequence of character sequences.
pub open spec fn strings_view(v: Vec<String>) -> Seq<Seq<char>> {
    v@.map_values(|x: String| x@)
}

/// An optional list of strings, viewed.
pub open spec fn opt_strings_view(v: Option<Vec<String>>) -> Option<Seq<Seq<char>>> {
    match v {
        Some(list) => Some(strings_view(list)),
        None => None,
    }
}

/// An optional string, viewed.
pub open spec fn opt_string_view(v: Option<String>) -> Option<Seq<char>> {
    match v {
        Some(x) => Some(x@),
        None => None,
    }
}

/// An optional list of ports, viewed.
pub open spec fn opt_ports_view(v: Option<Vec<u16>>) -> Option<Seq<u16>> {
    match v {
        Some(list) => Some(list@),
        None => None,
    }
}

/// The options that `Opts::default` gives.
pub open spec fn default_opts() -> OptsModel {
    OptsModel {
        addresses: Seq::empty(),
        ports: None,
        no_config: true,
        no_banner: false,
        config_path: None,
        greppable: true,
        accessible: false,
        resolver: None,
        batch_size: 0,
        timeout: 0,
        tries: 0,
        ulimit: None,
        scan_order: ScanOrder::Serial,
        scripts: ScriptsRequired::Default,
        top: false,
        command: Seq::empty(),
        exclude_ports: None,
        exclude_addresses: None,
        udp: false,
    }
}

/// The configured value when there is one, else the current value.
fn configured_or<T: Copy>(configured: Option<T>, current: T) -> (r: T)
    ensures
        r == or_current(configured, current),
{
    match configured {
        Some(v) => v,
        None => current,
    }
}

/// A copy of a list of strings.
fn clone_strings(v: &Vec<String>) -> (r: Vec<String>)
    ensures
        strings_view(r) == strings_view(*v),
{
    let mut r: Vec<String> = Vec::new();
    let mut i: usize = 0;
    while i < v.len()
        invariant
            i <= v@.len(),
            r@.len() == i,
            forall|j: int| 0 <= j < i ==> #[trigger] r@[j]@ == v@[j]@,
        decreases v@.len() - i,
    {
        r.push(v[i].clone());
        i = i + 1;
    }
    assert(strings_view(r) =~= strings_view(*v));
    r
}

/// A copy of a list of ports.
fn clone_ports(v: &Vec<u16>) -> (r: Vec<u16>)
    ensures
        r@ == v@,
{
    let mut r: Vec<u16> = Vec::new();
    let mut i: usize = 0;
    while i < v.len()
        invariant
            i <= v@.len(),
            r@ == v@.take(i as int),
        decreases v@.len() - i,
    {
        r.push(v[i]);
        proof {
            assert(v@.take(i + 1) =~= v@.take(i as int).push(v@[i as int]));
        }
        i = i + 1;
    }
    assert(v@.take(v@.len() as int) =~= v@);
    r
}

fn clone_optional_strings(v: &Option<Vec<String>>) -> (r: Option<Vec<String>>)
    ensures
        opt_strings_view(r) == opt_strings_view(*v),
{
    match v {
        Some(list) => Some(clone_strings(list)),
        None => None,
    }
}

fn clone_optional_ports(v: &Option<Vec<u16>>) -> (r: Option<Vec<u16>>)
    ensures
        opt_ports_view(r) == opt_ports_view(*v),
{
    match v {
        Some(list) => Some(clone_ports(list)),
        None => None,
    }
}

/// Every port from the lowest to the highest, ascending.
pub(crate) fn full_ports() -> (ports: Vec<u16>)
    ensures
        ports@ == full_port_range(),
{
    let mut ports: Vec<u16> = Vec::new();
    let mut p: u16 = LOWEST_PORT_NUMBER;
    loop
        invariant_except_break
            LOWEST_PORT_NUMBER <= p <= TOP_PORT_NUMBER,
            ports@ == full_port_range().take(p - LOWEST_PORT_NUMBER),
        ensures
            ports@ == full_port_range(),
        decreases TOP_PORT_NUMBER - p,
    {
        ports.push(p);
        proof {
            assert(full_port_range().take(p - LOWEST_PORT_NUMBER + 1) =~= full_port_range().take(
                p - LOWEST_PORT_NUMBER,
            ).push(p));
        }
        if p == TOP_PORT_NUMBER {
            proof {
                assert(full_port_range().take(p - LOWEST_PORT_NUMBER + 1) =~= full_port_range());
            }
            break ;
        }
        p = p + 1;
    }
    ports
}

/// The top 1000 ports, as a list.
pub fn top_ports() -> (r: Vec<u16>)
    ensures
        r@ == top_ports_spec(),
{
    reveal(top_ports_spec);
    vstd::slice::slice_to_vec(TOP_1000_PORTS.as_slice())
}

impl Opts {
    /// Completes the options read from the command line: when no ports are
    /// given, every port from the lowest to the highest is scanned.
    pub fn read(parsed: Opts) -> (opts: Opts)
        ensures
            opts@ == read_spec(parsed@),
    {
        let mut opts = parsed;
        if opts.ports.is_none() {
            opts.ports = Some(full_ports());
        }
        opts
    }

    /// Merges the values found in the configuration file into the options,
    /// unless the options say to ignore the configuration.
    pub fn merge(&mut self, config: &Config)
        ensures
            final(self)@ == merge_spec(old(self)@, config@),
            old(self).no_config ==> final(self)@ == old(self)@,
    {
        if !self.no_config {
            self.merge_required(config);
            self.merge_optional(config);
        }
    }

    /// Takes the values that every run has from the configuration, where it
    /// sets them.
    pub fn merge_required(&mut self, config: &Config)
        ensures
            final(self)@ == merge_required_spec(old(self)@, config@),
    {
        if let Some(e) = &config.addresses {
            self.addresses = clone_strings(e);
        }
        self.greppable = configured_or(config.greppable, self.greppable);
        self.accessible = configured_or(config.accessible, self.accessible);
        self.batch_size = configured_or(config.batch_size, self.batch_size);
        self.timeout = configured_or(config.timeout, self.timeout);
        self.tries = configured_or(config.tries, self.tries);
        self.scan_order = configured_or(config.scan_order, self.scan_order);
        self.scripts = configured_or(config.scripts, self.scripts);
        if let Some(e) = &config.command {
            self.command = clone_strings(e);
        }
        self.udp = configured_or(config.udp, self.udp);
        self.no_banner = configured_or(config.no_banner, self.no_banner);
    }

    /// Takes the optional values from the configuration, where it sets them.
    /// The top ports are used only when the user asks for them, and then win
    /// over the configured ports.
    pub fn merge_optional(&mut self, config: &Config)
        ensures
            final(self)@ == merge_optional_spec(old(self)@, config@),
    {
        if self.top {
            self.ports = Some(top_ports());
        } else if config.ports.is_some() {
            self.ports = clone_optional_ports(&config.ports);
        }
        if config.resolver.is_some() {
            self.resolver = match &config.resolver {
                Some(r) => Some(r.clone()),
                None => None,
            };
        }
        if config.ulimit.is_some() {
            self.ulimit = config.ulimit;
        }
        if config.exclude_ports.is_some() {
            self.exclude_ports = clone_optional_ports(&config.exclude_ports);
        }
        if config.exclude_addresses.is_some() {
            self.exclude_addresses = clone_optional_strings(&config.exclude_addresses);
        }
    }
}

impl Default for Opts {
    fn default() -> (opts: Self)
        ensures
            opts@ == default_opts(),
    {
        let opts = Self {
            addresses: Vec::new(),
            ports: None,
            greppable: true,
            batch_size: 0,
            timeout: 0,
            tries: 0,
            ulimit: None,
            command: Vec::new(),
            accessible: false,
            resolver: None,
            scan_order: ScanOrder::Serial,
            no_config: true,
            no_banner: false,
            top: false,
            scripts: ScriptsRequired::Default,
            config_path: None,
            exclude_ports: None,
            exclude_addresses: None,
            udp: false,
        };
        assert(strings_view(opts.addresses) =~= Seq::<Seq<char>>::empty());
        assert(strings_view(opts.command) =~= Seq::<Seq<char>>::empty());
        opts
    }
}



// ---------------------------------------------------------------------------
// Laws of merging

/// Every value that the configuration sets for an option that each run has
/// is taken; every value it leaves out keeps what the command line gave.
pub proof fn law_required_values_merge(o: OptsModel, c: ConfigModel)
    ensures
        c.addresses is Some ==> merge_required_spec(o, c).addresses == c.addresses->0,
        c.greppable is Some ==> merge_required_spec(o, c).greppable == c.greppable->0,
        c.accessible is Some ==> merge_required_spec(o, c).accessible == c.accessible->0,
        c.batch_size is Some ==> merge_required_spec(o, c).batch_size == c.batch_size->0,
        c.timeout is Some ==> merge_required_spec(o, c).timeout == c.timeout->0,
        c.tries is Some ==> merge_required_spec(o, c).tries == c.tries->0,
        c.scan_order is Some ==> merge_required_spec(o, c).scan_order == c.scan_order->0,
        c.scripts is Some ==> merge_required_spec(o, c).scripts == c.scripts->0,
        c.command is Some ==> merge_required_spec(o, c).command == c.command->0,
        c.udp is Some ==> merge_required_spec(o, c).udp == c.udp->0,
        c.no_banner is Some ==> merge_required_spec(o, c).no_banner == c.no_banner->0,
        c.addresses is None ==> merge_required_spec(o, c).addresses == o.addresses,
        c.greppable is None ==> merge_required_spec(o, c).greppable == o.greppable,
        c.accessible is None ==> merge_required_spec(o, c).accessible == o.accessible,
        c.batch_size is None ==> merge_required_spec(o, c).batch_size == o.batch_size,
        c.timeout is None ==> merge_required_spec(o, c).timeout == o.timeout,
        c.tries is None ==> merge_required_spec(o, c).tries == o.tries,
        c.scan_order is None ==> merge_required_spec(o, c).scan_order == o.scan_order,
        c.scripts is None ==> merge_required_spec(o, c).scripts == o.scripts,
        c.command is None ==> merge_required_spec(o, c).command == o.command,
        c.udp is None ==> merge_required_spec(o, c).udp == o.udp,
        c.no_banner is None ==> merge_required_spec(o, c).no_banner == o.no_banner,
        merge_required_spec(o, c).ports == o.ports,
        merge_required_spec(o, c).resolver == o.resolver,
        merge_required_spec(o, c).ulimit == o.ulimit,
        merge_required_spec(o, c).exclude_ports == o.exclude_ports,
        merge_required_spec(o, c).exclude_addresses == o.exclude_addresses,
        merge_required_spec(o, c).no_config == o.no_config,
        merge_required_spec(o, c).config_path == o.config_path,
        merge_required_spec(o, c).top == o.top,
{
}

/// Every optional value that the configuration sets is taken, and the
/// others are kept; the top ports, when asked for, replace any ports, and
/// otherwise configured ports replace those of the command line.
pub proof fn law_optional_values_merge(o: OptsModel, c: ConfigModel)
    ensures
        c.resolver is Some ==> merge_optional_spec(o, c).resolver == c.resolver,
        c.ulimit is Some ==> merge_optional_spec(o, c).ulimit == c.ulimit,
        c.exclude_ports is Some ==> merge_optional_spec(o, c).exclude_ports == c.exclude_ports,
        c.exclude_addresses is Some ==> merge_optional_spec(o, c).exclude_addresses == c.exclude_addresses,
        c.resolver is None ==> merge_optional_spec(o, c).resolver == o.resolver,
        c.ulimit is None ==> merge_optional_spec(o, c).ulimit == o.ulimit,
        c.exclude_ports is None ==> merge_optional_spec(o, c).exclude_ports == o.exclude_ports,
        c.exclude_addresses is None ==> merge_optional_spec(o, c).exclude_addresses == o.exclude_addresses,
        o.top ==> merge_optional_spec(o, c).ports == Some(top_ports_spec()),
        !o.top && c.ports is Some ==> merge_optional_spec(o, c).ports == c.ports,
        !o.top && c.ports is None ==> merge_optional_spec(o, c).ports == o.ports,
        merge_optional_spec(o, c).addresses == o.addresses,
        merge_optional_spec(o, c).greppable == o.greppable,
        merge_optional_spec(o, c).accessible == o.accessible,
        merge_optional_spec(o, c).batch_size == o.batch_size,
        merge_optional_spec(o, c).timeout == o.timeout,
        merge_optional_spec(o, c).tries == o.tries,
        merge_optional_spec(o, c).scan_order == o.scan_order,
        merge_optional_spec(o, c).scripts == o.scripts,
        merge_optional_spec(o, c).command == o.command,
        merge_optional_spec(o, c).udp == o.udp,
        merge_optional_spec(o, c).no_banner == o.no_banner,
        merge_optional_spec(o, c).no_config == o.no_config,
        merge_optional_spec(o, c).config_path == o.config_path,
        merge_optional_spec(o, c).top == o.top,
{
}

/// Merging a configuration that is not to be ignored takes every value it
/// sets, required or optional, and keeps every value it leaves out; an
/// ignored configuration changes nothing.
pub proof fn law_merge_takes_configured_values(o: OptsModel, c: ConfigModel)
    ensures
        o.no_config ==> merge_spec(o, c) == o,
        !o.no_config && c.addresses is Some ==> merge_spec(o, c).addresses == c.addresses->0,
        !o.no_config && c.greppable is Some ==> merge_spec(o, c).greppable == c.greppable->0,
        !o.no_config && c.accessible is Some ==> merge_spec(o, c).accessible == c.accessible->0,
        !o.no_config && c.batch_size is Some ==> merge_spec(o, c).batch_size == c.batch_size->0,
        !o.no_config && c.timeout is Some ==> merge_spec(o, c).timeout == c.timeout->0,
        !o.no_config && c.tries is Some ==> merge_spec(o, c).tries == c.tries->0,
        !o.no_config && c.scan_order is Some ==> merge_spec(o, c).scan_order == c.scan_order->0,
        !o.no_config && c.scripts is Some ==> merge_spec(o, c).scripts == c.scripts->0,
        !o.no_config && c.command is Some ==> merge_spec(o, c).command == c.command->0,
        !o.no_config && c.udp is Some ==> merge_spec(o, c).udp == c.udp->0,
        !o.no_config && c.no_banner is Some ==> merge_spec(o, c).no_banner == c.no_banner->0,
        !o.no_config && c.resolver is Some ==> merge_spec(o, c).resolver == c.resolver,
        !o.no_config && c.ulimit is Some ==> merge_spec(o, c).ulimit == c.ulimit,
        !o.no_config && c.exclude_ports is Some ==> merge_spec(o, c).exclude_ports == c.exclude_ports,
        !o.no_config && c.exclude_addresses is Some ==> merge_spec(o, c).exclude_addresses == c.exclude_addresses,
        c.addresses is None ==> merge_spec(o, c).addresses == o.addresses,
        c.greppable is None ==> merge_spec(o, c).greppable == o.greppable,
        c.accessible is None ==> merge_spec(o, c).accessible == o.accessible,
        c.batch_size is None ==> merge_spec(o, c).batch_size == o.batch_size,
        c.timeout is None ==> merge_spec(o, c).timeout == o.timeout,
        c.tries is None ==> merge_spec(o, c).tries == o.tries,
        c.scan_order is None ==> merge_spec(o, c).scan_order == o.scan_order,
        c.scripts is None ==> merge_spec(o, c).scripts == o.scripts,
        c.command is None ==> merge_spec(o, c).command == o.command,
        c.udp is None ==> merge_spec(o, c).udp == o.udp,
        c.no_banner is None ==> merge_spec(o, c).no_banner == o.no_banner,
        c.resolver is None ==> merge_spec(o, c).resolver == o.resolver,
        c.ulimit is None ==> merge_spec(o, c).ulimit == o.ulimit,
        c.exclude_ports is None ==> merge_spec(o, c).exclude_ports == o.exclude_ports,
        c.exclude_addresses is None ==> merge_spec(o, c).exclude_addresses == o.exclude_addresses,
        !o.no_config && o.top ==> merge_spec(o, c).ports == Some(top_ports_spec()),
        !o.no_config && !o.top && c.ports is Some ==> merge_spec(o, c).ports == c.ports,
        c.ports is None && !o.top ==> merge_spec(o, c).ports == o.ports,
        merge_spec(o, c).no_config == o.no_config,
        merge_spec(o, c).config_path == o.config_path,
        merge_spec(o, c).top == o.top,
{
}

} // verus!
