//! Telemetry of graphics devices: recognising devices, filling gaps from the
//! NVIDIA tool, and what samples say of each device.
use vstd::arithmetic::power2::{
    lemma2_to64, lemma2_to64_rest, lemma_pow2_adds, lemma_pow2_pos, lemma_pow2_strictly_increases,
    lemma_pow2_unfold, pow2,
};
use vstd::prelude::*;

use crate::bench::report::{GpuDeviceSummary, GpuRunSummary};
use crate::bench::stats::{average, mean};
use crate::double::{
    lemma_units_of, nearest_is_nearest, of_whole, whole_is_exact, whole_is_within, Double,
};
use crate::precision::{distance, product_is_near, quotient_of_some_size_is_near};
use crate::text::{
    decimal, from_chars, is_digit, is_text_less, is_white_space, lemma_decimal_reads_back, parse_number,
    parsed_number, part_behind_a_separator, push_number, same_text, split_at_char, split_chars,
    text_less, text_order_is_total, text_order_is_transitive, to_chars, trim_chars, trimmed,
    trimmed_start, views, written_number_is_read_back,
};

verus! {

/// Whether a directory entry names a graphics card: `card` and a number.
pub open spec fn is_card_name(name: Seq<char>) -> bool {
    &&& name.len() > 4
    &&& name.take(4) == seq!['c', 'a', 'r', 'd']
    &&& forall|i: int| 4 <= i < name.len() ==> is_digit(#[trigger] name[i])
}

fn starts_with_card(chars: &Vec<char>) -> (r: bool)
    ensures
        r == (chars@.len() >= 4 && chars@.take(4) == seq!['c', 'a', 'r', 'd']),
{
    if chars.len() < 4 {
        return false;
    }
    let r = chars[0] == 'c' && chars[1] == 'a' && chars[2] == 'r' && chars[3] == 'd';
    proof {
        let head = chars@.take(4);
        assert(head[0] == chars@[0] && head[1] == chars@[1] && head[2] == chars@[2] && head[3]
            == chars@[3]);
        if r {
            assert(head =~= seq!['c', 'a', 'r', 'd']);
        }
    }
    r
}

/// Whether a directory entry names a graphics card.
pub fn is_card_device_name(name: &str) -> (r: bool)
    ensures
        r == is_card_name(name@),
{
    let chars = to_chars(name);
    if chars.len() <= 4 || !starts_with_card(&chars) {
        return false;
    }
    let mut i: usize = 4;
    while i < chars.len()
        invariant
            chars@ == name@,
            4 <= i <= chars@.len(),
            forall|k: int| 4 <= k < i ==> is_digit(#[trigger] chars@[k]),
        decreases chars@.len() - i,
    {
        if chars[i] < '0' || chars[i] > '9' {
            assert(!is_digit(name@[i as int]));
            return false;
        }
        i = i + 1;
    }
    true
}

/// The lower-case form of an ASCII letter; other characters as they are.
pub open spec fn ascii_lower(c: char) -> char {
    if 'A' <= c <= 'Z' {
        ((c as u32 + 32) as u8) as char
    } else {
        c
    }
}

/// Whether a vendor identifier is that of NVIDIA, in any letter case.
pub open spec fn is_nvidia(vendor: Seq<char>) -> bool {
    &&& vendor.len() == 6
    &&& vendor[0] == '0'
    &&& ascii_lower(vendor[1]) == 'x'
    &&& vendor[2] == '1'
    &&& vendor[3] == '0'
    &&& ascii_lower(vendor[4]) == 'd'
    &&& ascii_lower(vendor[5]) == 'e'
}

/// Whether a vendor identifier is that of NVIDIA.
pub fn is_nvidia_vendor(vendor: &str) -> (r: bool)
    ensures
        r == is_nvidia(vendor@),
{
    let v = to_chars(vendor);
    v.len() == 6 && v[0] == '0' && (v[1] == 'x' || v[1] == 'X') && v[2] == '1' && v[3] == '0' && (
    v[4] == 'd' || v[4] == 'D') && (v[5] == 'e' || v[5] == 'E')
}

/// The number of a card, or the greatest number where its name holds none.
pub open spec fn number_of_card(card: Seq<char>) -> u32 {
    if card.len() >= 4 && card.take(4) == seq!['c', 'a', 'r', 'd'] {
        match parsed_number(card.skip(4), u32::MAX as nat) {
            Some(n) => n as u32,
            None => u32::MAX,
        }
    } else {
        u32::MAX
    }
}

/// The number of a card.
pub fn card_number(card: &str) -> (r: u32)
    ensures
        r == number_of_card(card@),
{
    let chars = to_chars(card);
    if !starts_with_card(&chars) {
        return u32::MAX;
    }
    let rest = vstd::slice::slice_subrange(chars.as_slice(), 4, chars.len());
    assert(rest@ =~= card@.skip(4));
    let suffix = from_chars(rest);
    match parse_number(&suffix, u32::MAX as u64) {
        Some(n) => n as u32,
        None => u32::MAX,
    }
}

/// The state of one device at one moment.
#[derive(Debug)]
pub struct GpuDeviceSnapshot {
    pub card: String,
    pub vendor: String,
    /// How busy the device is, in percent.
    pub busy_percent: Option<Double>,
    pub vram_used_bytes: Option<u64>,
    pub vram_total_bytes: Option<u64>,
}

/// The state of all devices at one moment.
#[derive(Debug)]
pub struct GpuSample {
    pub t_ms: u128,
    pub devices: Vec<GpuDeviceSnapshot>,
}

/// What the NVIDIA tool says of one device.
#[derive(Clone, Copy, PartialEq, Eq, Structural, Debug)]
pub struct NvidiaSmiSample {
    /// How busy the device is, in percent.
    pub gpu_util_percent: Double,
    pub memory_used_bytes: u64,
    pub memory_total_bytes: u64,
}

/// One line of the NVIDIA tool, its first column still as text.
#[derive(Debug)]
pub struct NvidiaRow {
    pub gpu_util_percent: String,
    pub memory_used_bytes: u64,
    pub memory_total_bytes: u64,
}

/// A row as plain values.
pub open spec fn row_view(r: NvidiaRow) -> (Seq<char>, u64, u64) {
    (r.gpu_util_percent@, r.memory_used_bytes, r.memory_total_bytes)
}

/// Rows as plain values.
pub open spec fn rows_view(rows: Seq<NvidiaRow>) -> Seq<(Seq<char>, u64, u64)> {
    Seq::new(rows.len(), |i: int| row_view(rows[i]))
}

/// Megabytes in bytes, cut off at the greatest number.
pub open spec fn megabytes(n: nat) -> u64 {
    if n * 1048576 <= u64::MAX {
        (n * 1048576) as u64
    } else {
        u64::MAX
    }
}

/// What one line says: three columns, the second and third of them numbers of
/// megabytes.
pub open spec fn row_of_line(line: Seq<char>) -> Option<(Seq<char>, u64, u64)> {
    let parts = split_at_char(trimmed(line), ',');
    if parts.len() != 3 {
        None
    } else {
        match (
            parsed_number(trimmed(parts[1]), u64::MAX as nat),
            parsed_number(trimmed(parts[2]), u64::MAX as nat),
        ) {
            (Some(used), Some(total)) => Some(
                (trimmed(parts[0]), megabytes(used), megabytes(total)),
            ),
            _ => None,
        }
    }
}

/// What some lines say, in order.
pub open spec fn rows_of_lines(lines: Seq<Seq<char>>) -> Seq<(Seq<char>, u64, u64)>
    decreases lines.len(),
{
    if lines.len() == 0 {
        seq![]
    } else {
        match row_of_line(lines.last()) {
            Some(row) => rows_of_lines(lines.drop_last()).push(row),
            None => rows_of_lines(lines.drop_last()),
        }
    }
}

fn megabytes_to_bytes(n: u64) -> (r: u64)
    ensures
        r == megabytes(n as nat),
{
    let wide: u128 = n as u128 * 1048576;
    if wide <= u64::MAX as u128 {
        wide as u64
    } else {
        u64::MAX
    }
}

fn read_row(line: &Vec<char>) -> (r: Option<NvidiaRow>)
    ensures
        match r {
            Some(row) => row_of_line(line@) == Some(row_view(row)),
            None => row_of_line(line@) is None,
        },
{
    let parts = split_chars(trim_chars(line).as_slice(), ',');
    let ghost spec_parts = split_at_char(trimmed(line@), ',');
    assert(spec_parts.len() == parts@.len());
    if parts.len() != 3 {
        return None;
    }
    assert(spec_parts[0] == parts@[0]@);
    assert(spec_parts[1] == parts@[1]@);
    assert(spec_parts[2] == parts@[2]@);
    let used_text = from_chars(trim_chars(parts[1].as_slice()).as_slice());
    let total_text = from_chars(trim_chars(parts[2].as_slice()).as_slice());
    match (parse_number(&used_text, u64::MAX), parse_number(&total_text, u64::MAX)) {
        (Some(used), Some(total)) => Some(
            NvidiaRow {
                gpu_util_percent: from_chars(trim_chars(parts[0].as_slice()).as_slice()),
                memory_used_bytes: megabytes_to_bytes(used),
                memory_total_bytes: megabytes_to_bytes(total),
            },
        ),
        _ => None,
    }
}

/// Reads what the NVIDIA tool printed: one row for each line that holds three
/// columns with two numbers of megabytes; other lines are passed over.
pub fn parse_nvidia_smi(output: &str) -> (r: Vec<NvidiaRow>)
    ensures
        rows_view(r@) == rows_of_lines(split_at_char(output@, '\n')),
{
    let chars = to_chars(output);
    let lines = split_chars(chars.as_slice(), '\n');
    let ghost all = split_at_char(output@, '\n');
    assert(views(lines@) == all);
    let mut rows: Vec<NvidiaRow> = Vec::new();
    let mut i: usize = 0;
    assert(rows_view(rows@) =~= rows_of_lines(all.take(0)));
    while i < lines.len()
        invariant
            i <= lines@.len(),
            views(lines@) == all,
            rows_view(rows@) == rows_of_lines(all.take(i as int)),
        decreases lines@.len() - i,
    {
        assert(all.take(i + 1).drop_last() =~= all.take(i as int));
        assert(all[i as int] == lines@[i as int]@);
        let ghost before = rows@;
        if let Some(row) = read_row(&lines[i]) {
            let ghost v = row_view(row);
            rows.push(row);
            assert(rows_view(rows@) =~= rows_view(before).push(v));
        }
        i = i + 1;
    }
    assert(all.take(all.len() as int) =~= all);
    rows
}

/// Whether, among NVIDIA devices, the one at `j` comes before the one at `i`:
/// its card has a smaller number, or the same number and it stands before it.
pub open spec fn comes_first(devices: Seq<GpuDeviceSnapshot>, j: int, i: int) -> bool {
    is_nvidia(devices[j].vendor@) && (number_of_card(devices[j].card@) < number_of_card(
        devices[i].card@,
    ) || (number_of_card(devices[j].card@) == number_of_card(devices[i].card@) && j < i))
}

/// How many of the first `n` devices come before the one at `i` among NVIDIA
/// devices.
pub open spec fn rank_among(devices: Seq<GpuDeviceSnapshot>, n: int, i: int) -> nat
    decreases n,
{
    if n <= 0 {
        0
    } else if comes_first(devices, n - 1, i) {
        rank_among(devices, n - 1, i) + 1
    } else {
        rank_among(devices, n - 1, i)
    }
}

/// A device whose gaps are filled from a sample.
pub open spec fn is_filled(
    before: GpuDeviceSnapshot,
    after: GpuDeviceSnapshot,
    s: NvidiaSmiSample,
) -> bool {
    &&& after.card@ == before.card@
    &&& after.vendor@ == before.vendor@
    &&& after.busy_percent == Some(
        match before.busy_percent {
            Some(b) => b,
            None => s.gpu_util_percent,
        },
    )
    &&& after.vram_used_bytes == Some(
        match before.vram_used_bytes {
            Some(b) => b,
            None => s.memory_used_bytes,
        },
    )
    &&& after.vram_total_bytes == Some(
        match before.vram_total_bytes {
            Some(b) => b,
            None => s.memory_total_bytes,
        },
    )
}

/// What becomes of the device at `i`: the NVIDIA device of rank `k` is filled
/// from sample `k`, where there is one; every other device stays as it is.
pub open spec fn fallback_applied(
    devices: Seq<GpuDeviceSnapshot>,
    samples: Seq<NvidiaSmiSample>,
    i: int,
    after: GpuDeviceSnapshot,
) -> bool {
    let rank = rank_among(devices, devices.len() as int, i);
    if is_nvidia(devices[i].vendor@) && rank < samples.len() {
        is_filled(devices[i], after, samples[rank as int])
    } else {
        after == devices[i]
    }
}

/// Which sample, if any, the gaps of the device at `i` are filled from.
spec fn sample_place(
    devices: Seq<GpuDeviceSnapshot>,
    samples: Seq<NvidiaSmiSample>,
    i: int,
    place: Option<usize>,
) -> bool {
    let rank = rank_among(devices, devices.len() as int, i);
    match place {
        Some(p) => is_nvidia(devices[i].vendor@) && rank == p && p < samples.len(),
        None => !(is_nvidia(devices[i].vendor@) && rank < samples.len()),
    }
}

fn filled(d: GpuDeviceSnapshot, s: NvidiaSmiSample) -> (r: GpuDeviceSnapshot)
    ensures
        is_filled(d, r, s),
{
    GpuDeviceSnapshot {
        card: d.card,
        vendor: d.vendor,
        busy_percent: match d.busy_percent {
            Some(b) => Some(b),
            None => Some(s.gpu_util_percent),
        },
        vram_used_bytes: match d.vram_used_bytes {
            Some(b) => Some(b),
            None => Some(s.memory_used_bytes),
        },
        vram_total_bytes: match d.vram_total_bytes {
            Some(b) => Some(b),
            None => Some(s.memory_total_bytes),
        },
    }
}

fn rank_of(devices: &Vec<GpuDeviceSnapshot>, i: usize) -> (r: usize)
    requires
        i < devices@.len(),
    ensures
        r == rank_among(devices@, devices@.len() as int, i as int),
{
    let number: u32 = card_number(&devices[i].card);
    let mut rank: usize = 0;
    let mut j: usize = 0;
    while j < devices.len()
        invariant
            i < devices@.len(),
            number == number_of_card(devices@[i as int].card@),
            j <= devices@.len(),
            rank <= j,
            rank == rank_among(devices@, j as int, i as int),
        decreases devices@.len() - j,
    {
        if is_nvidia_vendor(&devices[j].vendor) {
            let other: u32 = card_number(&devices[j].card);
            if other < number || (other == number && j < i) {
                rank = rank + 1;
            }
        }
        j = j + 1;
    }
    rank
}

/// Fills gaps in the state of NVIDIA devices from what the NVIDIA tool says; the
/// tool lists devices in the order of their card numbers.
pub fn apply_nvidia_smi_fallback(
    devices: Vec<GpuDeviceSnapshot>,
    samples: &Vec<NvidiaSmiSample>,
) -> (r: Vec<GpuDeviceSnapshot>)
    ensures
        r@.len() == devices@.len(),
        forall|i: int|
            0 <= i < r@.len() ==> fallback_applied(devices@, samples@, i, #[trigger] r@[i]),
{
    let mut ranks: Vec<Option<usize>> = Vec::new();
    let mut i: usize = 0;
    while i < devices.len()
        invariant
            i <= devices@.len(),
            ranks@.len() == i,
            forall|k: int|
                0 <= k < i ==> sample_place(devices@, samples@, k, #[trigger] ranks@[k]),
        decreases devices@.len() - i,
    {
        if is_nvidia_vendor(&devices[i].vendor) {
            let rank: usize = rank_of(&devices, i);
            if rank < samples.len() {
                ranks.push(Some(rank));
            } else {
                ranks.push(None);
            }
        } else {
            ranks.push(None);
        }
        i = i + 1;
    }
    let ghost before = devices@;
    let mut rest: Vec<GpuDeviceSnapshot> = devices;
    let mut back: Vec<GpuDeviceSnapshot> = Vec::new();
    let mut left: usize = rest.len();
    while left > 0
        invariant
            left == rest@.len(),
            left <= before.len(),
            ranks@.len() == before.len(),
            forall|k: int|
                0 <= k < before.len() ==> sample_place(before, samples@, k, #[trigger] ranks@[k]),
            rest@ == before.take(left as int),
            back@.len() == before.len() - left,
            forall|k: int|
                0 <= k < back@.len() ==> fallback_applied(
                    before,
                    samples@,
                    before.len() - 1 - k,
                    #[trigger] back@[k],
                ),
        decreases left,
    {
        let d = rest.pop().unwrap();
        left = left - 1;
        assert(rest@ =~= before.take(left as int));
        assert(d == before[left as int]);
        assert(sample_place(before, samples@, left as int, ranks@[left as int]));
        match ranks[left] {
            Some(rank) => back.push(filled(d, samples[rank])),
            None => back.push(d),
        }
    }
    let mut out: Vec<GpuDeviceSnapshot> = Vec::new();
    while back.len() > 0
        invariant
            out@.len() + back@.len() == before.len(),
            forall|k: int|
                0 <= k < back@.len() ==> fallback_applied(
                    before,
                    samples@,
                    before.len() - 1 - k,
                    #[trigger] back@[k],
                ),
            forall|k: int|
                0 <= k < out@.len() ==> fallback_applied(before, samples@, k, #[trigger] out@[k]),
        decreases back@.len(),
    {
        let d = back.pop().unwrap();
        out.push(d);
    }
    out
}

/// The devices that the NVIDIA tool alone tells of.
pub fn nvidia_samples_as_devices(samples: &Vec<NvidiaSmiSample>) -> (r: Vec<GpuDeviceSnapshot>)
    ensures
        r@.len() == samples@.len(),
        forall|i: int|
            0 <= i < r@.len() ==> {
                &&& (#[trigger] r@[i]).card@ == "nvidia"@ + decimal(i as nat)
                &&& r@[i].vendor@ == "0x10de"@
                &&& r@[i].busy_percent == Some(samples@[i].gpu_util_percent)
                &&& r@[i].vram_used_bytes == Some(samples@[i].memory_used_bytes)
                &&& r@[i].vram_total_bytes == Some(samples@[i].memory_total_bytes)
            },
{
    let mut out: Vec<GpuDeviceSnapshot> = Vec::new();
    let mut i: usize = 0;
    while i < samples.len()
        invariant
            i <= samples@.len(),
            out@.len() == i,
            forall|k: int|
                0 <= k < i ==> {
                    &&& (#[trigger] out@[k]).card@ == "nvidia"@ + decimal(k as nat)
                    &&& out@[k].vendor@ == "0x10de"@
                    &&& out@[k].busy_percent == Some(samples@[k].gpu_util_percent)
                    &&& out@[k].vram_used_bytes == Some(samples@[k].memory_used_bytes)
                    &&& out@[k].vram_total_bytes == Some(samples@[k].memory_total_bytes)
                },
        decreases samples@.len() - i,
    {
        let mut card = "nvidia".to_owned();
        push_number(&mut card, i as u128);
        out.push(
            GpuDeviceSnapshot {
                card,
                vendor: "0x10de".to_owned(),
                busy_percent: Some(samples[i].gpu_util_percent),
                vram_used_bytes: Some(samples[i].memory_used_bytes),
                vram_total_bytes: Some(samples[i].memory_total_bytes),
            },
        );
        i = i + 1;
    }
    out
}

/// What samples say of one device, before averages and percentages are worked
/// out.
#[derive(Debug)]
pub struct GpuDeviceGroup {
    pub card: String,
    pub vendor: String,
    /// How many samples tell of the device.
    pub samples: usize,
    /// How busy the device was, in order, in percent.
    pub busy: Vec<Double>,
    pub max_vram_used_bytes: Option<u64>,
    /// Memory in use and in all, in order, where there is any.
    pub vram_used_of_total: Vec<(u64, u64)>,
}

/// A group as plain values.
pub struct GroupView {
    pub vendor: Seq<char>,
    pub samples: nat,
    pub busy: Seq<Double>,
    pub max_used: Option<u64>,
    pub used_of_total: Seq<(u64, u64)>,
}

/// A group that no sample tells of yet.
pub open spec fn empty_group() -> GroupView {
    GroupView {
        vendor: seq![],
        samples: 0,
        busy: seq![],
        max_used: None,
        used_of_total: seq![],
    }
}

/// The greater of two numbers that may be missing.
pub open spec fn greater_of(a: Option<u64>, b: Option<u64>) -> Option<u64> {
    match (a, b) {
        (Some(x), Some(y)) => if y > x {
            Some(y)
        } else {
            Some(x)
        },
        (None, y) => y,
        (x, None) => x,
    }
}

/// A group after one more snapshot of its device: the first vendor that is
/// named stays.
pub open spec fn absorbed(g: GroupView, d: GpuDeviceSnapshot) -> GroupView {
    GroupView {
        vendor: if g.vendor.len() == 0 {
            d.vendor@
        } else {
            g.vendor
        },
        samples: g.samples + 1,
        busy: match d.busy_percent {
            Some(b) => g.busy.push(b),
            None => g.busy,
        },
        max_used: greater_of(g.max_used, d.vram_used_bytes),
        used_of_total: match (d.vram_used_bytes, d.vram_total_bytes) {
            (Some(used), Some(total)) => if total > 0 {
                g.used_of_total.push((used, total))
            } else {
                g.used_of_total
            },
            _ => g.used_of_total,
        },
    }
}

/// What some snapshots say of one card.
pub open spec fn group_of(flat: Seq<GpuDeviceSnapshot>, card: Seq<char>) -> GroupView
    decreases flat.len(),
{
    if flat.len() == 0 {
        empty_group()
    } else if flat.last().card@ == card {
        absorbed(group_of(flat.drop_last(), card), flat.last())
    } else {
        group_of(flat.drop_last(), card)
    }
}

/// Whether some snapshot is of the given card.
pub open spec fn occurs(flat: Seq<GpuDeviceSnapshot>, card: Seq<char>) -> bool {
    exists|i: int| 0 <= i < flat.len() && (#[trigger] flat[i]).card@ == card
}

/// All snapshots of some samples, in order.
pub open spec fn flattened(samples: Seq<GpuSample>) -> Seq<GpuDeviceSnapshot>
    decreases samples.len(),
{
    if samples.len() == 0 {
        seq![]
    } else {
        flattened(samples.drop_last()) + samples.last().devices@
    }
}

impl GpuDeviceGroup {
    /// The group as plain values.
    pub open spec fn contents(self) -> GroupView {
        GroupView {
            vendor: self.vendor@,
            samples: self.samples as nat,
            busy: self.busy@,
            max_used: self.max_vram_used_bytes,
            used_of_total: self.vram_used_of_total@,
        }
    }

    fn empty(card: String) -> (r: Self)
        ensures
            r.card@ == card@,
            r.contents() == empty_group(),
    {
        let r = GpuDeviceGroup {
            card,
            vendor: String::new(),
            samples: 0,
            busy: Vec::new(),
            max_vram_used_bytes: None,
            vram_used_of_total: Vec::new(),
        };
        assert(r.contents().vendor =~= empty_group().vendor);
        assert(r.contents().busy =~= empty_group().busy);
        assert(r.contents().used_of_total =~= empty_group().used_of_total);
        r
    }

    fn absorb(&mut self, d: &GpuDeviceSnapshot)
        requires
            old(self).samples < usize::MAX,
        ensures
            final(self).card@ == old(self).card@,
            final(self).contents() == absorbed(old(self).contents(), *d),
    {
        if self.vendor.as_str().is_empty() {
            self.vendor = d.vendor.clone();
        }
        self.samples = self.samples + 1;
        if let Some(b) = d.busy_percent {
            self.busy.push(b);
        }
        if let Some(used) = d.vram_used_bytes {
            match self.max_vram_used_bytes {
                None => {
                    self.max_vram_used_bytes = Some(used);
                },
                Some(m) => {
                    if used > m {
                        self.max_vram_used_bytes = Some(used);
                    }
                },
            }
            if let Some(total) = d.vram_total_bytes {
                if total > 0 {
                    self.vram_used_of_total.push((used, total));
                }
            }
        }
    }
}

/// Whether groups say what some snapshots say: one group for each card that
/// occurs, in the order of the card names.
pub open spec fn groups_say(groups: Seq<GpuDeviceGroup>, flat: Seq<GpuDeviceSnapshot>) -> bool {
    &&& forall|i: int, j: int|
        0 <= i < j < groups.len() ==> text_less(
            (#[trigger] groups[i]).card@,
            (#[trigger] groups[j]).card@,
        )
    &&& forall|i: int|
        0 <= i < groups.len() ==> occurs(flat, (#[trigger] groups[i]).card@) && groups[i].contents()
            == group_of(flat, groups[i].card@)
    &&& forall|k: int|
        0 <= k < flat.len() ==> has_group(groups, (#[trigger] flat[k]).card@)
}

/// Whether some group is that of the given card.
pub open spec fn has_group(groups: Seq<GpuDeviceGroup>, card: Seq<char>) -> bool {
    exists|i: int| 0 <= i < groups.len() && (#[trigger] groups[i]).card@ == card
}

proof fn lemma_group_samples(flat: Seq<GpuDeviceSnapshot>, card: Seq<char>)
    ensures
        group_of(flat, card).samples <= flat.len(),
    decreases flat.len(),
{
    if flat.len() > 0 {
        lemma_group_samples(flat.drop_last(), card);
    }
}

proof fn lemma_group_of_absent(flat: Seq<GpuDeviceSnapshot>, card: Seq<char>)
    requires
        !occurs(flat, card),
    ensures
        group_of(flat, card) == empty_group(),
    decreases flat.len(),
{
    if flat.len() > 0 {
        assert(flat.last() == flat[flat.len() - 1]);
        assert(!occurs(flat.drop_last(), card)) by {
            if occurs(flat.drop_last(), card) {
                let i = choose|i: int|
                    0 <= i < flat.drop_last().len() && (#[trigger] flat.drop_last()[i]).card@
                        == card;
                assert(flat[i].card@ == card);
            }
        }
        lemma_group_of_absent(flat.drop_last(), card);
    }
}

proof fn lemma_push_group(flat: Seq<GpuDeviceSnapshot>, d: GpuDeviceSnapshot, card: Seq<char>)
    ensures
        group_of(flat.push(d), card) == if d.card@ == card {
            absorbed(group_of(flat, card), d)
        } else {
            group_of(flat, card)
        },
        occurs(flat, card) ==> occurs(flat.push(d), card),
        occurs(flat.push(d), d.card@),
{
    assert(flat.push(d).drop_last() =~= flat);
    assert(flat.push(d).last() == d);
    if occurs(flat, card) {
        let i = choose|i: int| 0 <= i < flat.len() && (#[trigger] flat[i]).card@ == card;
        assert(flat.push(d)[i].card@ == card);
    }
    assert(flat.push(d)[flat.len() as int].card@ == d.card@);
}

/// Takes one more snapshot into the groups.
fn add_snapshot(
    groups: &mut Vec<GpuDeviceGroup>,
    d: &GpuDeviceSnapshot,
    Ghost(flat): Ghost<Seq<GpuDeviceSnapshot>>,
)
    requires
        groups_say(old(groups)@, flat),
        flat.len() < usize::MAX,
    ensures
        groups_say(final(groups)@, flat.push(*d)),
{
    let ghost before = groups@;
    let mut pos: usize = 0;
    while pos < groups.len() && is_text_less(&groups[pos].card, &d.card)
        invariant
            groups@ == before,
            pos <= groups@.len(),
            forall|i: int| 0 <= i < pos ==> text_less((#[trigger] groups@[i]).card@, d.card@),
        decreases groups@.len() - pos,
    {
        pos = pos + 1;
    }
    let found = pos < groups.len() && same_text(&groups[pos].card, &d.card);
    proof {
        assert forall|c: Seq<char>| #![trigger group_of(flat.push(*d), c)] true implies group_of(
            flat.push(*d),
            c,
        ) == (if d.card@ == c {
            absorbed(group_of(flat, c), *d)
        } else {
            group_of(flat, c)
        }) && (occurs(flat, c) ==> occurs(flat.push(*d), c)) by {
            lemma_push_group(flat, *d, c);
        }
        lemma_push_group(flat, *d, d.card@);
        lemma_group_samples(flat, d.card@);
    }
    if found {
        let mut g = groups.remove(pos);
        g.absorb(d);
        groups.insert(pos, g);
        proof {
            assert forall|i: int, j: int| 0 <= i < j < groups@.len() implies text_less(
                (#[trigger] groups@[i]).card@,
                (#[trigger] groups@[j]).card@,
            ) by {
                assert(groups@[i].card@ == before[i].card@);
                assert(groups@[j].card@ == before[j].card@);
            }
            assert forall|i: int| 0 <= i < groups@.len() implies occurs(
                flat.push(*d),
                (#[trigger] groups@[i]).card@,
            ) && groups@[i].contents() == group_of(flat.push(*d), groups@[i].card@) by {
                lemma_push_group(flat, *d, groups@[i].card@);
                if i != pos {
                    assert(groups@[i] == before[i]);
                    text_order_is_total(before[i].card@, before[pos as int].card@);
                }
            }
            assert forall|k: int| 0 <= k < flat.push(*d).len() implies has_group(
                groups@,
                (#[trigger] flat.push(*d)[k]).card@,
            ) by {
                if k < flat.len() {
                    assert(flat.push(*d)[k] == flat[k]);
                    assert(has_group(before, flat[k].card@));
                    let i = choose|i: int|
                        0 <= i < before.len() && (#[trigger] before[i]).card@ == flat[k].card@;
                    assert(groups@[i].card@ == before[i].card@);
                } else {
                    assert(groups@[pos as int].card@ == d.card@);
                }
            }
        }
    } else {
        let mut g = GpuDeviceGroup::empty(d.card.clone());
        g.absorb(d);
        groups.insert(pos, g);
        proof {
            assert forall|i: int| 0 <= i < before.len() implies (#[trigger] before[i]).card@
                != d.card@ && (i >= pos ==> text_less(d.card@, before[i].card@)) by {
                if i < pos {
                    text_order_is_total(before[i].card@, d.card@);
                } else {
                    text_order_is_total(before[pos as int].card@, d.card@);
                    if i > pos {
                        text_order_is_transitive(
                            d.card@,
                            before[pos as int].card@,
                            before[i].card@,
                        );
                        text_order_is_total(before[i].card@, d.card@);
                    }
                }
            }
            assert(!occurs(flat, d.card@)) by {
                if occurs(flat, d.card@) {
                    let k = choose|k: int|
                        0 <= k < flat.len() && (#[trigger] flat[k]).card@ == d.card@;
                    assert(has_group(before, flat[k].card@));
                    let i = choose|i: int|
                        0 <= i < before.len() && (#[trigger] before[i]).card@ == flat[k].card@;
                    assert(before[i].card@ != d.card@);
                }
            }
            lemma_group_of_absent(flat, d.card@);
            assert forall|i: int, j: int| 0 <= i < j < groups@.len() implies text_less(
                (#[trigger] groups@[i]).card@,
                (#[trigger] groups@[j]).card@,
            ) by {
                let bi = if i < pos {
                    i
                } else {
                    i - 1
                };
                let bj = if j < pos {
                    j
                } else {
                    j - 1
                };
                if i != pos {
                    assert(groups@[i] == before[bi]);
                }
                if j != pos {
                    assert(groups@[j] == before[bj]);
                }
            }
            assert forall|i: int| 0 <= i < groups@.len() implies occurs(
                flat.push(*d),
                (#[trigger] groups@[i]).card@,
            ) && groups@[i].contents() == group_of(flat.push(*d), groups@[i].card@) by {
                lemma_push_group(flat, *d, groups@[i].card@);
                if i < pos {
                    assert(groups@[i] == before[i]);
                } else if i > pos {
                    assert(groups@[i] == before[i - 1]);
                }
            }
            assert forall|k: int| 0 <= k < flat.push(*d).len() implies has_group(
                groups@,
                (#[trigger] flat.push(*d)[k]).card@,
            ) by {
                if k < flat.len() {
                    assert(flat.push(*d)[k] == flat[k]);
                    assert(has_group(before, flat[k].card@));
                    let i = choose|i: int|
                        0 <= i < before.len() && (#[trigger] before[i]).card@ == flat[k].card@;
                    if i < pos {
                        assert(groups@[i] == before[i]);
                    } else {
                        assert(groups@[i + 1] == before[i]);
                    }
                } else {
                    assert(groups@[pos as int].card@ == d.card@);
                }
            }
        }
    }
}

/// The vendor that is shown: unknown where no sample names one.
pub open spec fn shown_vendor(vendor: Seq<char>) -> Seq<char> {
    if vendor.len() == 0 {
        "unknown"@
    } else {
        vendor
    }
}

/// The vendor to show for a group.
fn vendor_of_group(g: &GpuDeviceGroup) -> (r: String)
    ensures
        r@ == shown_vendor(g.vendor@),
{
    if g.vendor.as_str().is_empty() {
        "unknown".to_owned()
    } else {
        g.vendor.clone()
    }
}

proof fn lemma_flattened_grows(samples: Seq<GpuSample>, k: int)
    requires
        0 <= k <= samples.len(),
    ensures
        flattened(samples.take(k)).len() <= flattened(samples).len(),
    decreases samples.len() - k,
{
    if k == samples.len() {
        assert(samples.take(k) =~= samples);
    } else {
        assert(samples.take(k + 1).drop_last() =~= samples.take(k));
        lemma_flattened_grows(samples, k + 1);
    }
}

/// Groups samples by device: one group for each card that occurs, in the order
/// of the card names, saying what all samples say of it.
pub fn group_gpu_samples(samples: &Vec<GpuSample>) -> (r: Vec<GpuDeviceGroup>)
    requires
        flattened(samples@).len() <= usize::MAX,
    ensures
        groups_say(r@, flattened(samples@)),
{
    let mut groups: Vec<GpuDeviceGroup> = Vec::new();
    let mut i: usize = 0;
    while i < samples.len()
        invariant
            i <= samples@.len(),
            flattened(samples@).len() <= usize::MAX,
            groups_say(groups@, flattened(samples@.take(i as int))),
        decreases samples@.len() - i,
    {
        let devices = &samples[i].devices;
        let ghost done = flattened(samples@.take(i as int));
        proof {
            assert(samples@.take(i + 1).drop_last() =~= samples@.take(i as int));
            assert(flattened(samples@.take(i + 1)) == done + devices@);
            lemma_flattened_grows(samples@, i + 1);
            assert(done + devices@.take(0) =~= done);
        }
        let mut j: usize = 0;
        while j < devices.len()
            invariant
                j <= devices@.len(),
                (done + devices@).len() <= usize::MAX,
                groups_say(groups@, done + devices@.take(j as int)),
            decreases devices@.len() - j,
        {
            add_snapshot(&mut groups, &devices[j], Ghost(done + devices@.take(j as int)));
            assert((done + devices@.take(j as int)).push(devices@[j as int]) =~= done
                + devices@.take(j + 1));
            j = j + 1;
        }
        assert(devices@.take(devices@.len() as int) =~= devices@);
        i = i + 1;
    }
    assert(samples@.take(samples@.len() as int) =~= samples@);
    groups
}

/// The bits of a hundred.
pub const HUNDRED: u64 = 0x4059_0000_0000_0000;

/// The greatest of some numbers: the first that no later one exceeds.
pub open spec fn greatest(values: Seq<Double>) -> Option<Double>
    decreases values.len(),
{
    if values.len() == 0 {
        None
    } else {
        match greatest(values.drop_last()) {
            Some(m) => if m.less(values.last()) {
                Some(values.last())
            } else {
                Some(m)
            },
            None => Some(values.last()),
        }
    }
}

/// How much of the memory is in use, in percent.
pub open spec fn use_percent(used: u64, total: u64) -> Double {
    of_whole(used as nat).product(Double { bits: HUNDRED }).quotient(of_whole(total as nat))
}

/// How much of the memory was in use, each time.
pub open spec fn use_percents(used_of_total: Seq<(u64, u64)>) -> Seq<Double> {
    Seq::new(
        used_of_total.len(),
        |i: int| use_percent(used_of_total[i].0, used_of_total[i].1),
    )
}

fn greatest_of(values: &Vec<Double>) -> (r: Option<Double>)
    ensures
        r == greatest(values@),
{
    let mut m: Option<Double> = None;
    let mut i: usize = 0;
    while i < values.len()
        invariant
            i <= values@.len(),
            m == greatest(values@.take(i as int)),
        decreases values@.len() - i,
    {
        assert(values@.take(i + 1).drop_last() =~= values@.take(i as int));
        let v = values[i];
        m = match m {
            Some(x) => if x.is_less(v) {
                Some(v)
            } else {
                Some(x)
            },
            None => Some(v),
        };
        i = i + 1;
    }
    assert(values@.take(values@.len() as int) =~= values@);
    m
}

/// Whether a summary says what is known of a device: its averages and greatest
/// values.
pub open spec fn sums_up(s: GpuDeviceSummary, card: Seq<char>, g: GroupView) -> bool {
    &&& s.card@ == card
    &&& s.vendor@ == shown_vendor(g.vendor)
    &&& s.samples == g.samples
    &&& s.avg_busy_percent == if g.busy.len() > 0 {
        Some(mean(g.busy))
    } else {
        None
    }
    &&& s.max_busy_percent == greatest(g.busy)
    &&& s.max_vram_used_bytes == g.max_used
    &&& s.max_vram_util_percent == greatest(use_percents(g.used_of_total))
}

fn summary_of(g: &GpuDeviceGroup) -> (r: GpuDeviceSummary)
    ensures
        sums_up(r, g.card@, g.contents()),
{
    let mut uses: Vec<Double> = Vec::new();
    let mut i: usize = 0;
    while i < g.vram_used_of_total.len()
        invariant
            i <= g.vram_used_of_total@.len(),
            uses@ =~= use_percents(g.vram_used_of_total@.take(i as int)),
        decreases g.vram_used_of_total@.len() - i,
    {
        let (used, total) = g.vram_used_of_total[i];
        uses.push(
            Double::from_whole(used).times(Double { bits: HUNDRED }).over(
                Double::from_whole(total),
            ),
        );
        i = i + 1;
    }
    assert(g.vram_used_of_total@.take(g.vram_used_of_total@.len() as int)
        =~= g.vram_used_of_total@);
    GpuDeviceSummary {
        card: g.card.clone(),
        vendor: vendor_of_group(g),
        samples: g.samples,
        avg_busy_percent: if g.busy.len() > 0 {
            Some(average(&g.busy))
        } else {
            None
        },
        max_busy_percent: greatest_of(&g.busy),
        max_vram_used_bytes: g.max_vram_used_bytes,
        max_vram_util_percent: greatest_of(&uses),
    }
}

/// Whether summaries sum up groups, one by one.
pub open spec fn all_sum_up(s: Seq<GpuDeviceSummary>, groups: Seq<GpuDeviceGroup>) -> bool {
    &&& s.len() == groups.len()
    &&& forall|i: int|
        0 <= i < s.len() ==> sums_up(#[trigger] s[i], groups[i].card@, groups[i].contents())
}

/// What samples say of the graphics devices: of each card that occurs, in the order
/// of the card names.
pub fn summarize_gpu_samples(samples: &Vec<GpuSample>, collection_error: Option<String>) -> (r:
    GpuRunSummary)
    requires
        flattened(samples@).len() <= usize::MAX,
    ensures
        r.sample_count == samples@.len(),
        r.collection_error == collection_error,
        exists|groups: Seq<GpuDeviceGroup>| #[trigger]
            groups_say(groups, flattened(samples@)) && all_sum_up(r.devices@, groups),
{
    let groups = group_gpu_samples(samples);
    let mut devices: Vec<GpuDeviceSummary> = Vec::new();
    let mut i: usize = 0;
    while i < groups.len()
        invariant
            i <= groups@.len(),
            devices@.len() == i,
            forall|k: int|
                0 <= k < i ==> sums_up(
                    #[trigger] devices@[k],
                    groups@[k].card@,
                    groups@[k].contents(),
                ),
        decreases groups@.len() - i,
    {
        devices.push(summary_of(&groups[i]));
        i = i + 1;
    }
    assert(all_sum_up(devices@, groups@));
    GpuRunSummary { sample_count: samples.len(), devices, collection_error }
}

/// A card is named by `card` and its number, and its number is read from its name.
pub proof fn card_is_named_by_its_number(n: u32, other: char)
    requires
        !is_digit(other),
    ensures
        is_card_name(seq!['c', 'a', 'r', 'd'] + decimal(n as nat)),
        number_of_card(seq!['c', 'a', 'r', 'd'] + decimal(n as nat)) == n,
        !is_card_name((seq!['c', 'a', 'r', 'd'] + decimal(n as nat)).push(other)),
        !is_card_name(decimal(n as nat)),
{
    let name = seq!['c', 'a', 'r', 'd'] + decimal(n as nat);
    lemma_decimal_reads_back(n as nat);
    written_number_is_read_back(n as nat, u32::MAX as nat);
    assert(name.take(4) =~= seq!['c', 'a', 'r', 'd']);
    assert(name.skip(4) =~= decimal(n as nat));
    assert forall|i: int| 4 <= i < name.len() implies is_digit(#[trigger] name[i]) by {
        assert(name[i] == decimal(n as nat)[i - 4]);
    }
    let longer = name.push(other);
    assert(longer[name.len() as int] == other);
    if is_card_name(decimal(n as nat)) {
        assert(decimal(n as nat).take(4)[0] == decimal(n as nat)[0]);
        assert(seq!['c', 'a', 'r', 'd'][0] == 'c');
    }
}

/// The identifier of NVIDIA is `0x10de`, in small letters or capital ones.
pub proof fn nvidia_is_known_in_any_case(vendor: Seq<char>)
    ensures
        is_nvidia(vendor) <==> {
            &&& vendor.len() == 6
            &&& vendor[0] == '0'
            &&& vendor[1] == 'x' || vendor[1] == 'X'
            &&& vendor[2] == '1'
            &&& vendor[3] == '0'
            &&& vendor[4] == 'd' || vendor[4] == 'D'
            &&& vendor[5] == 'e' || vendor[5] == 'E'
        },
{
}

proof fn lemma_trimmed_number(n: nat)
    ensures
        trimmed(seq![' '] + decimal(n)) == decimal(n),
        !(seq![' '] + decimal(n)).contains(','),
{
    let d = decimal(n);
    let s = seq![' '] + d;
    lemma_decimal_reads_back(n);
    assert(s.skip(1) =~= d);
    assert(trimmed_start(d) == d);
    assert(trimmed_start(s) == d);
    if s.contains(',') {
        let i = s.index_of(',');
        assert(i > 0);
        assert(s[i] == d[i - 1]);
    }
}

/// A line that says how busy a device is, how many megabytes are in use and how many there
/// are, with a comma and a blank between them, is read as just that, the memory in bytes.
pub proof fn line_of_the_tool_is_read_back(util: Seq<char>, used: nat, total: nat)
    requires
        util.len() > 0,
        !util.contains(','),
        !is_white_space(util[0]) && !is_white_space(util.last()),
        used * 1048576 <= u64::MAX,
        total * 1048576 <= u64::MAX,
    ensures
        row_of_line(
            (util.push(',') + (seq![' '] + decimal(used))).push(',') + (seq![' '] + decimal(total)),
        ) == Some((util, (used * 1048576) as u64, (total * 1048576) as u64)),
{
    let a = seq![' '] + decimal(used);
    let b = seq![' '] + decimal(total);
    let first = util.push(',') + a;
    let line = first.push(',') + b;
    lemma_trimmed_number(used);
    lemma_trimmed_number(total);
    lemma_decimal_reads_back(total);
    assert(line[0] == util[0]);
    assert(line.last() == decimal(total).last());
    assert(trimmed(line) == line);
    assert(trimmed(util) == util);
    part_behind_a_separator(util, a, ',');
    part_behind_a_separator(util, util, ',');
    part_behind_a_separator(first, b, ',');
    assert(split_at_char(line, ',') =~= seq![util, a, b]);
    written_number_is_read_back(used, u64::MAX as nat);
    written_number_is_read_back(total, u64::MAX as nat);
}

/// The lines of two parts are read one part after the other; a line alone gives its row,
/// or none.
pub proof fn lines_are_read_one_by_one(first: Seq<Seq<char>>, second: Seq<Seq<char>>, line: Seq<char>)
    ensures
        rows_of_lines(first + second) == rows_of_lines(first) + rows_of_lines(second),
        row_of_line(line) matches Some(row) ==> rows_of_lines(seq![line]) == seq![row],
        row_of_line(line) is None ==> rows_of_lines(seq![line]).len() == 0,
    decreases second.len(),
{
    let none = Seq::<Seq<char>>::empty();
    assert(seq![line].drop_last() =~= none);
    assert(rows_of_lines(none) =~= seq![]);
    if second.len() == 0 {
        assert(first + second =~= first);
        assert(rows_of_lines(first) + rows_of_lines(second) =~= rows_of_lines(first));
    } else {
        assert((first + second).drop_last() =~= first + second.drop_last());
        lines_are_read_one_by_one(first, second.drop_last(), line);
        assert(rows_of_lines(first + second) =~= rows_of_lines(first) + rows_of_lines(second));
    }
    if row_of_line(line) is Some {
        assert(rows_of_lines(seq![line]) =~= seq![row_of_line(line)->0]);
    }
}

proof fn lemma_ranks_are_ordered(devices: Seq<GpuDeviceSnapshot>, n: int, i: int, j: int)
    requires
        0 <= n <= devices.len(),
        0 <= i < devices.len(),
        comes_first(devices, i, j),
    ensures
        rank_among(devices, n, i) + (if i < n {
            1nat
        } else {
            0
        }) <= rank_among(devices, n, j),
    decreases n,
{
    if n > 0 {
        lemma_ranks_are_ordered(devices, n - 1, i, j);
    }
}

/// NVIDIA devices are ranked by the numbers of their cards, and those of one number in the
/// order in which they stand, so that no two have the same rank.
pub proof fn cards_are_ranked_by_number(devices: Seq<GpuDeviceSnapshot>, i: int, j: int)
    requires
        0 <= i < devices.len(),
        0 <= j < devices.len(),
        is_nvidia(devices[i].vendor@),
        number_of_card(devices[i].card@) < number_of_card(devices[j].card@) || (number_of_card(
            devices[i].card@,
        ) == number_of_card(devices[j].card@) && i < j),
    ensures
        rank_among(devices, devices.len() as int, i) < rank_among(devices, devices.len() as int, j),
{
    lemma_ranks_are_ordered(devices, devices.len() as int, i, j);
}

/// What is known of a device stays; a gap is filled from the sample of its rank, each
/// value from the one of its kind; and a device of another vendor is left alone.
pub proof fn known_values_stay(
    devices: Seq<GpuDeviceSnapshot>,
    samples: Seq<NvidiaSmiSample>,
    i: int,
    after: GpuDeviceSnapshot,
)
    requires
        0 <= i < devices.len(),
        fallback_applied(devices, samples, i, after),
    ensures
        after.card@ == devices[i].card@,
        after.vendor@ == devices[i].vendor@,
        devices[i].busy_percent is Some ==> after.busy_percent == devices[i].busy_percent,
        devices[i].vram_used_bytes is Some ==> after.vram_used_bytes == devices[i].vram_used_bytes,
        devices[i].vram_total_bytes is Some ==> after.vram_total_bytes
            == devices[i].vram_total_bytes,
        !is_nvidia(devices[i].vendor@) ==> after == devices[i],
        ({
            let rank = rank_among(devices, devices.len() as int, i) as int;
            is_nvidia(devices[i].vendor@) && rank < samples.len() ==> {
                &&& devices[i].busy_percent is None ==> after.busy_percent == Some(
                    samples[rank].gpu_util_percent,
                )
                &&& devices[i].vram_used_bytes is None ==> after.vram_used_bytes == Some(
                    samples[rank].memory_used_bytes,
                )
                &&& devices[i].vram_total_bytes is None ==> after.vram_total_bytes == Some(
                    samples[rank].memory_total_bytes,
                )
            }
        }),
{
}

/// Of each card, the snapshots of that card are counted; how busy it was is told by those
/// of them that know it, and how much of its memory was in use by those that know both and
/// where there is any memory, all in order.
pub proof fn group_is_told_by_its_card(flat: Seq<GpuDeviceSnapshot>, card: Seq<char>)
    ensures
        ({
            let mine = flat.filter(|d: GpuDeviceSnapshot| d.card@ == card);
            let group = group_of(flat, card);
            &&& group.samples == mine.len()
            &&& group.busy == mine.filter(
                |d: GpuDeviceSnapshot| d.busy_percent is Some,
            ).map_values(|d: GpuDeviceSnapshot| d.busy_percent->0)
            &&& group.used_of_total == mine.filter(
                |d: GpuDeviceSnapshot|
                    d.vram_used_bytes is Some && d.vram_total_bytes is Some && d.vram_total_bytes->0
                        > 0,
            ).map_values(|d: GpuDeviceSnapshot| (d.vram_used_bytes->0, d.vram_total_bytes->0))
        }),
    decreases flat.len(),
{
    reveal(Seq::filter);
    let is_mine = |d: GpuDeviceSnapshot| d.card@ == card;
    let knows_busy = |d: GpuDeviceSnapshot| d.busy_percent is Some;
    let busy = |d: GpuDeviceSnapshot| d.busy_percent->0;
    let knows_use = |d: GpuDeviceSnapshot|
        d.vram_used_bytes is Some && d.vram_total_bytes is Some && d.vram_total_bytes->0 > 0;
    let used = |d: GpuDeviceSnapshot| (d.vram_used_bytes->0, d.vram_total_bytes->0);
    let mine = flat.filter(is_mine);
    if flat.len() == 0 {
        assert(mine.filter(knows_busy).map_values(busy) =~= seq![]);
        assert(mine.filter(knows_use).map_values(used) =~= seq![]);
    } else {
        group_is_told_by_its_card(flat.drop_last(), card);
        let before = flat.drop_last().filter(is_mine);
        let d = flat.last();
        if d.card@ == card {
            assert(mine == before.push(d));
            assert(mine.drop_last() =~= before);
            if knows_busy(d) {
                assert(mine.filter(knows_busy) == before.filter(knows_busy).push(d));
                assert(mine.filter(knows_busy).map_values(busy) =~= before.filter(
                    knows_busy,
                ).map_values(busy).push(busy(d)));
            }
            if knows_use(d) {
                assert(mine.filter(knows_use) == before.filter(knows_use).push(d));
                assert(mine.filter(knows_use).map_values(used) =~= before.filter(
                    knows_use,
                ).map_values(used).push(used(d)));
            }
        }
    }
}

/// The greatest use of memory of a card is that of one of its snapshots, and none of them
/// tells of more.
pub proof fn greatest_use_is_kept(flat: Seq<GpuDeviceSnapshot>, card: Seq<char>)
    ensures
        forall|i: int|
            0 <= i < flat.len() && (#[trigger] flat[i]).card@ == card && flat[i].vram_used_bytes is Some
                ==> group_of(flat, card).max_used is Some && group_of(flat, card).max_used->0
                >= flat[i].vram_used_bytes->0,
        group_of(flat, card).max_used is Some ==> exists|i: int|
            0 <= i < flat.len() && (#[trigger] flat[i]).card@ == card && flat[i].vram_used_bytes
                == group_of(flat, card).max_used,
    decreases flat.len(),
{
    if flat.len() > 0 {
        let rest = flat.drop_last();
        greatest_use_is_kept(rest, card);
        assert forall|i: int|
            0 <= i < flat.len() && (#[trigger] flat[i]).card@ == card
                && flat[i].vram_used_bytes is Some implies group_of(flat, card).max_used is Some
            && group_of(flat, card).max_used->0 >= flat[i].vram_used_bytes->0 by {
            if i < rest.len() {
                assert(rest[i] == flat[i]);
            }
        }
        if group_of(flat, card).max_used is Some {
            if flat.last().card@ == card && flat.last().vram_used_bytes == group_of(
                flat,
                card,
            ).max_used {
                assert(flat[flat.len() - 1].card@ == card);
            } else {
                let i = choose|i: int|
                    0 <= i < rest.len() && (#[trigger] rest[i]).card@ == card
                        && rest[i].vram_used_bytes == group_of(rest, card).max_used;
                assert(flat[i] == rest[i]);
            }
        }
    }
}

/// The vendor of a card is the first that one of its snapshots names.
pub proof fn first_vendor_stays(flat: Seq<GpuDeviceSnapshot>, card: Seq<char>)
    ensures
        group_of(flat, card).vendor.len() == 0 ==> forall|i: int|
            0 <= i < flat.len() && (#[trigger] flat[i]).card@ == card ==> flat[i].vendor@.len() == 0,
        group_of(flat, card).vendor.len() > 0 ==> exists|i: int|
            0 <= i < flat.len() && (#[trigger] flat[i]).card@ == card && flat[i].vendor@ == group_of(
                flat,
                card,
            ).vendor && forall|j: int|
                0 <= j < i && (#[trigger] flat[j]).card@ == card ==> flat[j].vendor@.len() == 0,
    decreases flat.len(),
{
    if flat.len() > 0 {
        let rest = flat.drop_last();
        first_vendor_stays(rest, card);
        assert(forall|i: int| 0 <= i < rest.len() ==> #[trigger] flat[i] == rest[i]);
        if group_of(flat, card).vendor.len() > 0 {
            if group_of(rest, card).vendor.len() > 0 {
                let i = choose|i: int|
                    0 <= i < rest.len() && (#[trigger] rest[i]).card@ == card && rest[i].vendor@
                        == group_of(rest, card).vendor && forall|j: int|
                        0 <= j < i && (#[trigger] rest[j]).card@ == card ==> rest[j].vendor@.len()
                            == 0;
                assert(flat[i] == rest[i]);
            } else {
                let i = flat.len() - 1;
                assert(flat[i].card@ == card);
            }
        }
    }
}

/// The snapshots of samples are those of each, one sample after the other.
pub proof fn samples_follow_each_other(first: Seq<GpuSample>, second: Seq<GpuSample>, one: GpuSample)
    ensures
        flattened(first + second) == flattened(first) + flattened(second),
        flattened(seq![one]) == one.devices@,
    decreases second.len(),
{
    let none = Seq::<GpuSample>::empty();
    assert(seq![one].drop_last() =~= none);
    assert(flattened(none) =~= seq![]);
    assert(flattened(seq![one]) =~= one.devices@);
    if second.len() == 0 {
        assert(first + second =~= first);
        assert(flattened(first) + flattened(second) =~= flattened(first));
    } else {
        assert((first + second).drop_last() =~= first + second.drop_last());
        samples_follow_each_other(first, second.drop_last(), one);
        assert(flattened(first + second) =~= flattened(first) + flattened(second));
    }
}

/// The greatest of some numbers is one of them, and none of them is greater.
pub proof fn greatest_is_not_exceeded(values: Seq<Double>)
    requires
        forall|i: int| 0 <= i < values.len() ==> !(#[trigger] values[i]).nan(),
    ensures
        greatest(values) is None <==> values.len() == 0,
        greatest(values) matches Some(m) ==> values.contains(m) && !m.nan() && forall|i: int|
            0 <= i < values.len() ==> (#[trigger] values[i]).value() <= m.value(),
    decreases values.len(),
{
    if values.len() > 0 {
        let rest = values.drop_last();
        assert(forall|i: int| 0 <= i < rest.len() ==> #[trigger] rest[i] == values[i]);
        greatest_is_not_exceeded(rest);
        let m = greatest(values)->0;
        if m != values.last() {
            assert(rest.contains(m));
            let i = rest.index_of(m);
            assert(values[i] == m);
        } else {
            assert(values[values.len() - 1] == m);
        }
        assert forall|i: int| 0 <= i < values.len() implies (#[trigger] values[i]).value()
            <= m.value() by {
            if i < rest.len() {
                assert(rest[i] == values[i]);
            }
        }
    }
}

proof fn lemma_power_above(n: nat) -> (i: nat)
    requires
        1 <= n < 0x20_0000_0000_0000,
    ensures
        n < pow2(i) <= 2 * n,
        i <= 53,
    decreases n,
{
    lemma2_to64();
    lemma2_to64_rest();
    if n == 1 {
        1
    } else {
        let i = lemma_power_above(n / 2);
        lemma_pow2_unfold(i + 1);
        if i + 1 > 53 {
            lemma_pow2_adds(53, (i + 1 - 53) as nat);
            lemma_pow2_pos((i + 1 - 53) as nat);
            if i + 1 > 54 {
                lemma_pow2_strictly_increases(54, i + 1);
            }
        }
        i + 1
    }
}

/// Memory in use in percent is a hundred times what is in use by what there is, to
/// rounding.
pub proof fn use_is_in_percent(used: u64, total: u64)
    requires
        used <= total < 0x20_0000_0000_0000,
        total > 0,
    ensures
        distance(
            use_percent(used, total).value() * total,
            100 * (used * pow2(1074)),
        ) <= pow2(1029) * total,
{
    let u = pow2(1074) as int;
    lemma_pow2_pos(1074);
    lemma_pow2_pos(1027);
    lemma2_to64();
    lemma2_to64_rest();
    lemma_pow2_adds(1028, 48);
    lemma_pow2_adds(1074, 2);
    lemma_pow2_adds(1027, 1);
    lemma_pow2_adds(1027, 2);
    lemma_pow2_adds(1074, 7);
    lemma_pow2_adds(1027, 47);
    lemma_units_of(1028, 0x19_0000_0000_0000);
    let hundred = Double { bits: HUNDRED };
    let f = pow2(1028) as int;
    assert(0x19_0000_0000_0000 * f == 25 * (f * 0x1_0000_0000_0000)) by (nonlinear_arith);
    assert(hundred.size() == 100 * u);
    let a = of_whole(used as nat);
    let b = of_whole(total as nat);
    whole_is_exact(used as nat);
    whole_is_exact(total as nat);
    let i: nat = if used == 0 {
        0
    } else {
        lemma_power_above(used as nat)
    };
    assert(used <= pow2(i) <= 2 * total);
    whole_is_within(used as nat, i);
    assert(hundred.within(7));
    product_is_near(a, hundred, i, 7);
    lemma_pow2_adds(1027, i);
    let p = a.product(hundred);
    crate::double::lemma_within_is_finite(p, i + 7);
    let x = used as int;
    let t = total as int;
    let v = p.value();
    let e = pow2(1027) as int;
    let g = pow2(i) as int;
    assert(a.value() * hundred.value() == (100 * (x * u)) * u) by (nonlinear_arith)
        requires
            a.value() == x * u,
            hundred.value() == 100 * u,
    ;
    assert(1020 + i + 7 == 1027 + i);
    assert(v - 100 * (x * u) <= e * g && 100 * (x * u) - v <= e * g) by (nonlinear_arith)
        requires
            v * u - (100 * (x * u)) * u <= (e * g) * u,
            (100 * (x * u)) * u - v * u <= (e * g) * u,
            u > 0,
    ;
    assert(e * g <= 2 * (e * t)) by (nonlinear_arith)
        requires
            g <= 2 * t,
            e > 0,
    ;
    nearest_is_nearest(a.size() * hundred.size(), pow2(1074));
    assert(!p.negative());
    assert(v * u <= (128 * u) * (t * u)) by (nonlinear_arith)
        requires
            v <= 100 * (x * u) + 2 * (e * t),
            0 <= x <= t,
            0 < t,
            u == 0x8000_0000_0000 * e,
            e > 0,
            u > 0,
    ;
    assert(t * u > 0) by (nonlinear_arith)
        requires
            t > 0,
            u > 0,
    ;
    quotient_of_some_size_is_near(p, b, 7);
    let q = use_percent(used, total).value();
    assert(q * t - v <= e * t && v - q * t <= e * t) by (nonlinear_arith)
        requires
            q * (t * u) - v * u <= e * (t * u),
            v * u - q * (t * u) <= e * (t * u),
            u > 0,
    ;
    assert(4 * (e * t) == (4 * e) * t) by (nonlinear_arith);
    assert(100 * (used * pow2(1074)) == 100 * (x * u));
}

/// A summary is of the card and of as many snapshots as tell of it; its average is that of
/// how busy the card was; and neither it nor its memory was ever in more use than the
/// greatest that is told.
pub proof fn summary_says_what_is_known(s: GpuDeviceSummary, card: Seq<char>, g: GroupView, i: int)
    requires
        sums_up(s, card, g),
        forall|k: int| 0 <= k < g.busy.len() ==> !(#[trigger] g.busy[k]).nan(),
        forall|k: int|
            0 <= k < g.used_of_total.len() ==> !use_percent(
                (#[trigger] g.used_of_total[k]).0,
                g.used_of_total[k].1,
            ).nan(),
    ensures
        s.card@ == card,
        s.samples == g.samples,
        g.vendor.len() > 0 ==> s.vendor@ == g.vendor,
        g.vendor.len() == 0 ==> s.vendor@ == "unknown"@,
        s.max_vram_used_bytes == g.max_used,
        g.busy.len() == 0 ==> s.avg_busy_percent is None && s.max_busy_percent is None,
        g.busy.len() > 0 ==> s.avg_busy_percent == Some(mean(g.busy)),
        0 <= i < g.busy.len() ==> s.max_busy_percent is Some && g.busy[i].value() <= (
        s.max_busy_percent->0).value(),
        g.busy.len() > 0 ==> g.busy.contains(s.max_busy_percent->0),
        0 <= i < g.used_of_total.len() ==> s.max_vram_util_percent is Some && use_percent(
            g.used_of_total[i].0,
            g.used_of_total[i].1,
        ).value() <= (s.max_vram_util_percent->0).value(),
{
    greatest_is_not_exceeded(g.busy);
    let shares = use_percents(g.used_of_total);
    assert forall|k: int| 0 <= k < shares.len() implies !(#[trigger] shares[k]).nan() by {
        let pair = g.used_of_total[k];
        assert(!use_percent(pair.0, pair.1).nan());
    }
    greatest_is_not_exceeded(shares);
    if 0 <= i < g.used_of_total.len() {
        assert(shares[i] == use_percent(g.used_of_total[i].0, g.used_of_total[i].1));
    }
}

/// The plain values of rows are their own, one by one.
pub proof fn rows_are_as_they_say(rows: Seq<NvidiaRow>, i: int)
    requires
        0 <= i < rows.len(),
    ensures
        rows_view(rows).len() == rows.len(),
        rows_view(rows)[i].0 == rows[i].gpu_util_percent@,
        rows_view(rows)[i].1 == rows[i].memory_used_bytes,
        rows_view(rows)[i].2 == rows[i].memory_total_bytes,
{
}

/// The plain values of a group are its own.
pub proof fn group_is_as_it_says(g: GpuDeviceGroup)
    ensures
        g.contents().vendor == g.vendor@,
        g.contents().samples == g.samples,
        g.contents().busy == g.busy@,
        g.contents().max_used == g.max_vram_used_bytes,
        g.contents().used_of_total == g.vram_used_of_total@,
{
}

} // verus!
