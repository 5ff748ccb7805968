//! SAE J1979 Service `$01` standard PIDs: names, requests and the
//! supported-PID bitmask.
use vstd::prelude::*;

verus! {

/// The supported-PID bitmask PIDs (0x00, 0x20, 0x40, 0x60).
pub const SUPPORTED_BITMASK_PIDS: [u8; 4] = [0x00, 0x20, 0x40, 0x60];

/// The PIDs SAE J1979 gives a fully standardized scaling: the engine and
/// intake block `0x04 ..= 0x11`, run time (`0x1F`), distance with MIL
/// (`0x21`), fuel level (`0x2F`), barometric pressure (`0x33`), module
/// voltage (`0x42`), throttle and pedal positions `0x45 ..= 0x47`, `0x49`,
/// `0x4A`, `0x5A`, and oil temperature (`0x5C`).
pub open spec fn j1979_scaled(pid: u8) -> bool {
    ||| 0x04 <= pid <= 0x11
    ||| pid == 0x1F
    ||| pid == 0x21
    ||| pid == 0x2F
    ||| pid == 0x33
    ||| pid == 0x42
    ||| 0x45 <= pid <= 0x47
    ||| pid == 0x49
    ||| pid == 0x4A
    ||| pid == 0x5A
    ||| pid == 0x5C
}

/// The scaled PIDs whose value is the 16-bit `A * 256 + B`: engine speed
/// (`0x0C`), MAF air flow (`0x10`), run time (`0x1F`), distance with MIL
/// (`0x21`) and module voltage (`0x42`). Every other scaled PID reads `A`.
pub open spec fn j1979_reads_two_bytes(pid: u8) -> bool {
    pid == 0x0C || pid == 0x10 || pid == 0x1F || pid == 0x21 || pid == 0x42
}

/// The number of data bytes a scaled PID's formula reads.
pub open spec fn j1979_data_bytes(pid: u8) -> Option<nat> {
    if !j1979_scaled(pid) {
        None
    } else if j1979_reads_two_bytes(pid) {
        Some(2)
    } else {
        Some(1)
    }
}

/// Name of each standard PID with a fully standardized scaling.
pub open spec fn standard_pid_name(pid: u8) -> Option<Seq<char>> {
    match pid {
        0x04u8 => Some("EngineLoad"@),
        0x05u8 => Some("CoolantTemp"@),
        0x06u8 => Some("ShortFuelTrim1"@),
        0x07u8 => Some("LongFuelTrim1"@),
        0x08u8 => Some("ShortFuelTrim2"@),
        0x09u8 => Some("LongFuelTrim2"@),
        0x0Au8 => Some("FuelPressure"@),
        0x0Bu8 => Some("IntakeMap"@),
        0x0Cu8 => Some("EngineRpm"@),
        0x0Du8 => Some("VehicleSpeed"@),
        0x0Eu8 => Some("TimingAdvance"@),
        0x0Fu8 => Some("IntakeAirTemp"@),
        0x10u8 => Some("MafRate"@),
        0x11u8 => Some("ThrottlePos"@),
        0x1Fu8 => Some("RunTime"@),
        0x21u8 => Some("DistanceWithMil"@),
        0x2Fu8 => Some("FuelLevel"@),
        0x33u8 => Some("BarometricPressure"@),
        0x42u8 => Some("ControlModuleVoltage"@),
        0x45u8 => Some("RelativeThrottle"@),
        0x46u8 => Some("AmbientAirTemp"@),
        0x47u8 => Some("AbsoluteThrottleB"@),
        0x49u8 => Some("AccelPedalD"@),
        0x4Au8 => Some("AccelPedalE"@),
        0x5Au8 => Some("RelativeAccelPedal"@),
        0x5Cu8 => Some("EngineOilTemp"@),
        _ => None,
    }
}

/// Data bytes after the PID echo of each standard PID.
pub open spec fn standard_pid_data_bytes(pid: u8) -> Option<nat> {
    match pid {
        0x0Cu8 | 0x10u8 | 0x1Fu8 | 0x21u8 | 0x42u8 => Some(2),
        _ => if standard_pid_name(pid) is Some {
            Some(1)
        } else {
            None
        },
    }
}

/// Data bytes after the PID echo of a standard PID, if it has defined scaling.
pub fn pid_data_bytes(pid: u8) -> (r: Option<usize>)
    ensures
        match r {
            Some(n) => standard_pid_data_bytes(pid) == Some(n as nat),
            None => standard_pid_data_bytes(pid) is None,
        },
        match r {
            Some(n) => j1979_data_bytes(pid) == Some(n as nat),
            None => j1979_data_bytes(pid) is None,
        },
{
    proof {
        lemma_data_bytes_follow_j1979(pid);
    }
    match pid {
        0x0C | 0x10 | 0x1F | 0x21 | 0x42 => Some(2),
        _ => {
            let name = pid_def_name(pid);
            if name.is_some() {
                Some(1)
            } else {
                None
            }
        },
    }
}

pub open spec fn str_opt_view(s: Option<&str>) -> Option<Seq<char>> {
    match s {
        Some(x) => Some(x@),
        None => None,
    }
}

/// Human name of a standard PID, if it has defined scaling.
pub fn pid_def_name(pid: u8) -> (r: Option<&'static str>)
    ensures
        str_opt_view(r) == standard_pid_name(pid),
        r is Some <==> j1979_scaled(pid),
{
    proof {
        lemma_scaled_pids_follow_j1979(pid);
    }
    match pid {
        0x04 => Some("EngineLoad"),
        0x05 => Some("CoolantTemp"),
        0x06 => Some("ShortFuelTrim1"),
        0x07 => Some("LongFuelTrim1"),
        0x08 => Some("ShortFuelTrim2"),
        0x09 => Some("LongFuelTrim2"),
        0x0A => Some("FuelPressure"),
        0x0B => Some("IntakeMap"),
        0x0C => Some("EngineRpm"),
        0x0D => Some("VehicleSpeed"),
        0x0E => Some("TimingAdvance"),
        0x0F => Some("IntakeAirTemp"),
        0x10 => Some("MafRate"),
        0x11 => Some("ThrottlePos"),
        0x1F => Some("RunTime"),
        0x21 => Some("DistanceWithMil"),
        0x2F => Some("FuelLevel"),
        0x33 => Some("BarometricPressure"),
        0x42 => Some("ControlModuleVoltage"),
        0x45 => Some("RelativeThrottle"),
        0x46 => Some("AmbientAirTemp"),
        0x47 => Some("AbsoluteThrottleB"),
        0x49 => Some("AccelPedalD"),
        0x4A => Some("AccelPedalE"),
        0x5A => Some("RelativeAccelPedal"),
        0x5C => Some("EngineOilTemp"),
        _ => None,
    }
}

/// The PIDs with a standardized scaling, in the given order: those usable
/// as ground truth.
pub fn scalable_pids(pids: &[u8]) -> (r: Vec<u8>)
    ensures
        r@ == pids@.filter(|p: u8| standard_pid_name(p) is Some),
        r@ == pids@.filter(|p: u8| j1979_scaled(p)),
{
    proof {
        assert forall|p: u8| (standard_pid_name(p) is Some) == j1979_scaled(p) by {
            lemma_scaled_pids_follow_j1979(p);
        }
        assert((|p: u8| standard_pid_name(p) is Some) =~= (|p: u8| j1979_scaled(p)));
    }
    let ghost pred = |p: u8| standard_pid_name(p) is Some;
    let mut r: Vec<u8> = Vec::new();
    let mut i: usize = 0;
    while i < pids.len()
        invariant
            pred == (|p: u8| standard_pid_name(p) is Some),
            i <= pids@.len(),
            r@ == pids@.take(i as int).filter(pred),
        decreases pids.len() - i,
    {
        proof {
            crate::mux::lemma_filter_take_succ(pids@, pred, i as int);
        }
        if pid_def_name(pids[i]).is_some() {
            r.push(pids[i]);
        }
        i = i + 1;
    }
    assert(pids@.take(pids@.len() as int) =~= pids@);
    r
}

/// Build the Service $01 request payload for a PID (pre-ISO-TP).
pub fn service01_request(pid: u8) -> (r: [u8; 2])
    ensures
        r@ == seq![0x01u8, pid],
{
    let r = [0x01u8, pid];
    assert(r@ =~= seq![0x01u8, pid]);
    r
}

/// Bit `i` of the mask, counted from the MSB of the first byte.
pub open spec fn mask_bit(data: Seq<u8>, i: int) -> bool {
    (data[i / 8] >> ((7 - i % 8) as u8)) & 1u8 == 1u8
}

pub open spec fn mask_pred(data: Seq<u8>) -> spec_fn(int) -> bool {
    |i: int| mask_bit(data, i)
}

/// Positions of the set bits among the first four mask bytes, ascending.
pub open spec fn mask_positions(data: Seq<u8>) -> Seq<int> {
    let n = if data.len() < 4 {
        data.len()
    } else {
        4
    };
    Seq::new(n * 8, |i: int| i).filter(mask_pred(data))
}

/// The PIDs a bitmask response declares supported: `base + position + 1`.
pub open spec fn supported_in_mask(base: u8, data: Seq<u8>) -> Seq<int> {
    mask_positions(data).map_values(|i: int| base + i + 1)
}

proof fn lemma_filter_take_succ_int(s: Seq<int>, pred: spec_fn(int) -> bool, k: int)
    requires
        0 <= k < s.len(),
    ensures
        s.take(k + 1).filter(pred) == if pred(s[k]) {
            s.take(k).filter(pred).push(s[k])
        } else {
            s.take(k).filter(pred)
        },
{
    reveal(Seq::filter);
    assert(s.take(k + 1).drop_last() =~= s.take(k));
}

/// Decode a supported-PID bitmask response (PIDs `base+1 ..= base+32`).
pub fn parse_supported_bitmask(base: u8, data: &[u8]) -> (supported: Vec<u8>)
    requires
        forall|k: int| 0 <= k < supported_in_mask(base, data@).len() ==> #[trigger] supported_in_mask(base, data@)[k] <= 255,
    ensures
        supported@.map_values(|p: u8| p as int) == supported_in_mask(base, data@),
{
    let ghost n: int = if data@.len() < 4 {
        data@.len() as int
    } else {
        4
    };
    let ghost positions = Seq::new((n * 8) as nat, |i: int| i);
    let ghost pred = mask_pred(data@);
    let mut supported: Vec<u8> = Vec::new();
    let mut byte_index: usize = 0;
    while byte_index < data.len() && byte_index < 4
        invariant
            n == (if data@.len() < 4 { data@.len() as int } else { 4 }),
            positions == Seq::new((n * 8) as nat, |i: int| i),
            pred == mask_pred(data@),
            byte_index <= n,
            forall|k: int| 0 <= k < supported_in_mask(base, data@).len() ==> #[trigger] supported_in_mask(base, data@)[k] <= 255,
            supported@.map_values(|p: u8| p as int) == positions.take(byte_index * 8).filter(pred).map_values(
                |i: int| base + i + 1,
            ),
        decreases 4 - byte_index,
    {
        let byte = data[byte_index];
        let mut bit: u8 = 0;
        while bit < 8
            invariant
                n == (if data@.len() < 4 { data@.len() as int } else { 4 }),
                positions == Seq::new((n * 8) as nat, |i: int| i),
                pred == mask_pred(data@),
                byte_index < n,
                byte == data@[byte_index as int],
                bit <= 8,
                forall|k: int| 0 <= k < supported_in_mask(base, data@).len() ==> #[trigger] supported_in_mask(base, data@)[k] <= 255,
                supported@.map_values(|p: u8| p as int) == positions.take(byte_index * 8 + bit).filter(pred).map_values(
                    |i: int| base + i + 1,
                ),
            decreases 8 - bit,
        {
            let pos = byte_index * 8 + bit as usize;
            proof {
                lemma_filter_take_succ_int(positions, pred, pos as int);
                assert(positions[pos as int] == pos);
                assert(pos as int / 8 == byte_index && pos as int % 8 == bit);
            }
            let set = byte & (0x80u8 >> bit) != 0;
            assert(set == ((byte >> ((7 - bit) as u8)) & 1u8 == 1u8)) by (bit_vector)
                requires
                    bit < 8,
                    set == (byte & (0x80u8 >> bit) != 0),
            ;
            if set {
                let ghost before = supported@;
                proof {
                    // The new PID is an element of the full result.
                    let full = positions.filter(pred);
                    assert(positions.take(pos + 1).filter(pred) == positions.take(pos as int).filter(pred).push(pos as int));
                    assert(positions =~= positions.take(pos + 1) + positions.subrange(pos + 1, positions.len() as int));
                    Seq::filter_distributes_over_add(positions.take(pos + 1), positions.subrange(pos + 1, positions.len() as int), pred);
                    let m = positions.take(pos as int).filter(pred).len();
                    assert(full[m as int] == pos);
                    assert(supported_in_mask(base, data@)[m as int] == base + pos + 1);
                }
                let pid = base + (byte_index as u8) * 8 + bit + 1;
                supported.push(pid);
                proof {
                    assert(supported@.map_values(|p: u8| p as int) =~= before.map_values(|p: u8| p as int).push(
                        pid as int,
                    ));
                }
            }
            bit = bit + 1;
        }
        byte_index = byte_index + 1;
    }
    assert(positions.take(n * 8) =~= positions);
    supported
}

/// Positions in a mask lie among its first 32 bits.
pub proof fn lemma_mask_positions_bound(data: Seq<u8>, t: int)
    requires
        0 <= t < mask_positions(data).len(),
    ensures
        0 <= mask_positions(data)[t] < 32,
        supported_in_mask(0x60, data)[t] <= 0x80,
{
    let n = if data.len() < 4 {
        data.len()
    } else {
        4
    };
    let all = Seq::new(n * 8, |i: int| i);
    let f = all.filter(mask_pred(data));
    assert(f.contains(f[t]));
    all.lemma_filter_contains_rev(mask_pred(data), f[t]);
    let k = choose|k: int| 0 <= k < all.len() && all[k] == f[t];
    assert(all[k] == k);
}

/// A PID has a standard name exactly when SAE J1979 gives it a fully
/// standardized scaling.
pub proof fn lemma_scaled_pids_follow_j1979(pid: u8)
    ensures
        (standard_pid_name(pid) is Some) == j1979_scaled(pid),
{
}

/// The data bytes taken after the PID echo are exactly those the PID's
/// J1979 formula reads: `A` and `B` for the 16-bit values, `A` for the other
/// scaled PIDs, none for a PID without standard scaling.
pub proof fn lemma_data_bytes_follow_j1979(pid: u8)
    ensures
        standard_pid_data_bytes(pid) == j1979_data_bytes(pid),
{
    lemma_scaled_pids_follow_j1979(pid);
}

/// The names of the scaled PIDs.
pub proof fn lemma_standard_pid_names()
    ensures
        standard_pid_name(0x04) == Some("EngineLoad"@),
        standard_pid_name(0x05) == Some("CoolantTemp"@),
        standard_pid_name(0x06) == Some("ShortFuelTrim1"@),
        standard_pid_name(0x07) == Some("LongFuelTrim1"@),
        standard_pid_name(0x08) == Some("ShortFuelTrim2"@),
        standard_pid_name(0x09) == Some("LongFuelTrim2"@),
        standard_pid_name(0x0A) == Some("FuelPressure"@),
        standard_pid_name(0x0B) == Some("IntakeMap"@),
        standard_pid_name(0x0C) == Some("EngineRpm"@),
        standard_pid_name(0x0D) == Some("VehicleSpeed"@),
        standard_pid_name(0x0E) == Some("TimingAdvance"@),
        standard_pid_name(0x0F) == Some("IntakeAirTemp"@),
        standard_pid_name(0x10) == Some("MafRate"@),
        standard_pid_name(0x11) == Some("ThrottlePos"@),
        standard_pid_name(0x1F) == Some("RunTime"@),
        standard_pid_name(0x21) == Some("DistanceWithMil"@),
        standard_pid_name(0x2F) == Some("FuelLevel"@),
        standard_pid_name(0x33) == Some("BarometricPressure"@),
        standard_pid_name(0x42) == Some("ControlModuleVoltage"@),
        standard_pid_name(0x45) == Some("RelativeThrottle"@),
        standard_pid_name(0x46) == Some("AmbientAirTemp"@),
        standard_pid_name(0x47) == Some("AbsoluteThrottleB"@),
        standard_pid_name(0x49) == Some("AccelPedalD"@),
        standard_pid_name(0x4A) == Some("AccelPedalE"@),
        standard_pid_name(0x5A) == Some("RelativeAccelPedal"@),
        standard_pid_name(0x5C) == Some("EngineOilTemp"@),
{
}

} // verus!
