//! Tensor dumps and health telemetry, written to fixed sectors of the disk for
//! tools on the host. Numbers with a fraction are IEEE 754 bit patterns.
use vstd::prelude::*;
use vstd::slice::slice_subrange;
use vstd::string::*;
use vstd::utf8::*;

use crate::bytes::{le32, le32_bytes, le32_round_trip, push_le32};
use crate::config::{SamplingConfig, SECTOR_SIZE};
use crate::text::extend_bytes;
use crate::topk::{greedy, higher, key_of, nan};

verus! {

broadcast use vstd::seq_lib::group_seq_properties;

/// The sector of a dump's header.
pub const DUMP_HEADER_SECTOR: u64 = 1;

/// The first sector of a dump's numbers.
pub const DUMP_DATA_SECTOR: u64 = 2;

/// Sectors for a dump's numbers.
pub const DUMP_MAX_SECTORS: usize = 256;

/// Numbers of a dump.
pub const DUMP_MAX_FLOATS: usize = 32768;

/// Numbers in one sector.
pub const SECTOR_FLOATS: usize = 128;

/// Numbers that the header repeats.
pub const SUMMARY_FLOATS: usize = 100;

/// Bytes of the name that the header holds.
pub const NAME_MAX: usize = 63;

/// The sector of the health telemetry.
pub const HEALTH_SECTOR: u64 = 259;

/// The highest finite number.
pub const HIGHEST: u32 = 0x7F7F_FFFF;

/// A sector to write.
pub struct SectorWrite {
    pub sector: u64,
    pub data: Vec<u8>,
}

pub open spec fn zeros(n: int) -> Seq<u8> {
    Seq::new(n as nat, |i: int| 0u8)
}

/// Bytes filled up with zeros.
pub open spec fn padded(s: Seq<u8>, len: int) -> Seq<u8> {
    s + zeros(len - s.len())
}

/// The bytes of the numbers from `from` to `to`.
pub open spec fn word_bytes(data: Seq<u32>, from: int, to: int) -> Seq<u8>
    decreases to - from,
{
    if to <= from {
        Seq::empty()
    } else {
        word_bytes(data, from, to - 1) + le32_bytes(data[to - 1])
    }
}

proof fn lemma_word_bytes(data: Seq<u32>, from: int, to: int)
    requires
        from <= to,
    ensures
        word_bytes(data, from, to).len() == 4 * (to - from),
    decreases to - from,
{
    if from < to {
        lemma_word_bytes(data, from, to - 1);
    }
}

fn pad(out: &mut Vec<u8>, len: usize)
    requires
        old(out)@.len() <= len,
    ensures
        final(out)@ == padded(old(out)@, len as int),
{
    let ghost before = out@;
    assert(before + zeros(0) =~= before);
    while out.len() < len
        invariant
            before.len() <= out@.len() <= len,
            out@ == before + zeros(out@.len() - before.len()),
        decreases len - out@.len(),
    {
        out.push(0);
        assert(out@ =~= before + zeros(out@.len() - before.len()));
    }
}

fn push_words(out: &mut Vec<u8>, data: &[u32], from: usize, to: usize)
    requires
        from <= to <= data@.len(),
    ensures
        final(out)@ == old(out)@ + word_bytes(data@, from as int, to as int),
{
    let ghost before = out@;
    let mut i: usize = from;
    assert(before + Seq::<u8>::empty() =~= before);
    while i < to
        invariant
            from <= i <= to <= data@.len(),
            out@ == before + word_bytes(data@, from as int, i as int),
        decreases to - i,
    {
        push_le32(out, data[i]);
        i = i + 1;
        assert(out@ =~= before + word_bytes(data@, from as int, i as int));
    }
}

// ---------------------------------------------------------------------
// Tensor dumps
// ---------------------------------------------------------------------

/// The lowest of the first `k` numbers: the first one, until a lower comes.
pub open spec fn lowest(s: Seq<u32>, k: int) -> u32
    decreases k,
{
    if k <= 1 {
        s[0]
    } else if higher(lowest(s, k - 1), s[k - 1]) {
        s[k - 1]
    } else {
        lowest(s, k - 1)
    }
}

#[derive(Debug, Clone, Copy)]
pub struct TensorStats {
    pub min_val: u32,
    pub max_val: u32,
    pub argmax_idx: u32,
}

/// The lowest and the highest number of a tensor, and where the highest stands.
pub open spec fn stats_of(s: Seq<u32>) -> TensorStats {
    TensorStats {
        min_val: lowest(s, s.len() as int),
        max_val: s[greedy(s, s.len() as int)],
        argmax_idx: greedy(s, s.len() as int) as u32,
    }
}

pub fn tensor_stats(data: &[u32]) -> (r: TensorStats)
    requires
        0 < data@.len() <= u32::MAX,
    ensures
        r == stats_of(data@),
{
    let mut min_val: u32 = data[0];
    let mut best: usize = 0;
    let mut i: usize = 1;
    while i < data.len()
        invariant
            1 <= i <= data@.len() <= u32::MAX,
            best < i,
            best == greedy(data@, i as int),
            min_val == lowest(data@, i as int),
        decreases data@.len() - i,
    {
        let v: u32 = data[i];
        if !nan(v) && !nan(min_val) && key_of(v) < key_of(min_val) {
            min_val = v;
        }
        if !nan(v) && !nan(data[best]) && key_of(v) > key_of(data[best]) {
            best = i;
        }
        i = i + 1;
    }
    TensorStats { min_val, max_val: data[best], argmax_idx: best as u32 }
}

/// The start of a name that the header holds.
pub open spec fn name_start(name: Seq<char>) -> Seq<u8> {
    let b = encode_utf8(name);
    if b.len() <= NAME_MAX {
        b
    } else {
        b.subrange(0, NAME_MAX as int)
    }
}

pub open spec fn smaller(a: int, b: int) -> int {
    if a <= b {
        a
    } else {
        b
    }
}

/// The header of a dump: the magic, the number of the dump, the lengths, the
/// shape, the statistics, the name, and the first numbers of the tensor.
pub open spec fn dump_header(
    seq: u32,
    name: Seq<char>,
    data: Seq<u32>,
    shape0: u32,
    shape1: u32,
    mean: u32,
) -> Seq<u8> {
    let st = stats_of(data);
    let n = data.len() as int;
    let head = encode_utf8("TDMP"@) + le32_bytes(seq) + le32_bytes(n as u32) + le32_bytes(
        smaller(n, DUMP_MAX_FLOATS as int) as u32,
    ) + le32_bytes(shape0) + le32_bytes(shape1) + le32_bytes(st.argmax_idx) + le32_bytes(0)
        + le32_bytes(st.min_val) + le32_bytes(st.max_val) + le32_bytes(mean) + le32_bytes(
        st.max_val,
    );
    padded(
        padded(head + name_start(name), 112) + word_bytes(
            data,
            0,
            smaller(n, SUMMARY_FLOATS as int),
        ),
        SECTOR_SIZE as int,
    )
}

/// Sectors that `n` numbers take.
pub open spec fn data_sectors(n: int) -> int {
    (n + SECTOR_FLOATS - 1) / SECTOR_FLOATS as int
}

/// The numbers in the `s`-th sector of a dump of `n` numbers.
pub open spec fn data_sector(data: Seq<u32>, n: int, s: int) -> Seq<u8> {
    padded(
        word_bytes(data, s * SECTOR_FLOATS, smaller((s + 1) * SECTOR_FLOATS, n)),
        SECTOR_SIZE as int,
    )
}

/// The writes of a dump: the header, then as many of the numbers as there is
/// room for.
pub open spec fn is_dump(
    w: Seq<SectorWrite>,
    seq: u32,
    name: Seq<char>,
    data: Seq<u32>,
    shape0: u32,
    shape1: u32,
    mean: u32,
) -> bool {
    let n = smaller(data.len() as int, DUMP_MAX_FLOATS as int);
    &&& w.len() == 1 + data_sectors(n)
    &&& w[0].sector == DUMP_HEADER_SECTOR
    &&& w[0].data@ == dump_header(seq, name, data, shape0, shape1, mean)
    &&& forall|s: int|
        0 <= s < data_sectors(n) ==> (#[trigger] w[1 + s]).sector == DUMP_DATA_SECTOR + s
            && w[1 + s].data@ == data_sector(data, n, s)
}

/// The number of the last dump.
pub struct DumpLog {
    pub seq: u32,
}

fn build_header(seq: u32, name: &str, data: &[u32], shape0: u32, shape1: u32, mean: u32) -> (r: Vec<
    u8,
>)
    requires
        0 < data@.len() <= u32::MAX,
    ensures
        r@ == dump_header(seq, name@, data@, shape0, shape1, mean),
{
    let st = tensor_stats(data);
    let n: usize = data.len();
    let dumped: usize = if n <= DUMP_MAX_FLOATS {
        n
    } else {
        DUMP_MAX_FLOATS
    };
    let summary: usize = if n <= SUMMARY_FLOATS {
        n
    } else {
        SUMMARY_FLOATS
    };
    proof {
        reveal_strlit("TDMP");
        is_ascii_chars_encode_utf8("TDMP"@);
        lemma_word_bytes(data@, 0, summary as int);
    }
    let mut out: Vec<u8> = Vec::new();
    extend_bytes(&mut out, "TDMP".as_bytes());
    push_le32(&mut out, seq);
    push_le32(&mut out, n as u32);
    push_le32(&mut out, dumped as u32);
    push_le32(&mut out, shape0);
    push_le32(&mut out, shape1);
    push_le32(&mut out, st.argmax_idx);
    push_le32(&mut out, 0);
    push_le32(&mut out, st.min_val);
    push_le32(&mut out, st.max_val);
    push_le32(&mut out, mean);
    push_le32(&mut out, st.max_val);
    assert(encode_utf8("TDMP"@).len() == 4);
    assert(out@.len() == 48);
    let b = name.as_bytes();
    let kept: usize = if b.len() <= NAME_MAX {
        b.len()
    } else {
        NAME_MAX
    };
    extend_bytes(&mut out, slice_subrange(b, 0, kept));
    assert(b@.subrange(0, kept as int) =~= name_start(name@));
    pad(&mut out, 112);
    push_words(&mut out, data, 0, summary);
    pad(&mut out, SECTOR_SIZE);
    out
}

/// Dumps a tensor under a name. The mean of the numbers is handed in. Nothing
/// is written of an empty tensor.
pub fn debug_dump_tensor(
    log: &mut DumpLog,
    name: &str,
    data: &[u32],
    shape0: u32,
    shape1: u32,
    mean: u32,
) -> (r: Vec<SectorWrite>)
    requires
        data@.len() <= u32::MAX,
        old(log).seq < u32::MAX,
    ensures
        data@.len() == 0 ==> r@.len() == 0 && *final(log) == *old(log),
        data@.len() > 0 ==> final(log).seq == old(log).seq + 1 && is_dump(
            r@,
            final(log).seq,
            name@,
            data@,
            shape0,
            shape1,
            mean,
        ),
{
    let mut writes: Vec<SectorWrite> = Vec::new();
    let n: usize = data.len();
    if n == 0 {
        return writes;
    }
    log.seq = log.seq + 1;
    let header = build_header(log.seq, name, data, shape0, shape1, mean);
    writes.push(SectorWrite { sector: DUMP_HEADER_SECTOR, data: header });
    let dumped: usize = if n <= DUMP_MAX_FLOATS {
        n
    } else {
        DUMP_MAX_FLOATS
    };
    let count: usize = (dumped + SECTOR_FLOATS - 1) / SECTOR_FLOATS;
    let ghost head = writes@[0];
    let mut s: usize = 0;
    while s < count
        invariant
            s <= count,
            count == data_sectors(dumped as int),
            dumped <= DUMP_MAX_FLOATS,
            dumped <= data@.len(),
            writes@.len() == 1 + s,
            writes@[0] == head,
            forall|k: int|
                0 <= k < s ==> (#[trigger] writes@[1 + k]).sector == DUMP_DATA_SECTOR + k
                    && writes@[1 + k].data@ == data_sector(data@, dumped as int, k),
        decreases count - s,
    {
        let from: usize = s * SECTOR_FLOATS;
        assert(from < dumped) by {
            assert(s < (dumped + 127) / 128);
        }
        let to: usize = if (s + 1) * SECTOR_FLOATS <= dumped {
            (s + 1) * SECTOR_FLOATS
        } else {
            dumped
        };
        let mut buf: Vec<u8> = Vec::new();
        push_words(&mut buf, data, from, to);
        proof {
            lemma_word_bytes(data@, from as int, to as int);
        }
        assert(buf@ =~= word_bytes(data@, from as int, to as int));
        pad(&mut buf, SECTOR_SIZE);
        let ghost had = writes@;
        writes.push(SectorWrite { sector: DUMP_DATA_SECTOR + s as u64, data: buf });
        assert forall|k: int| 0 <= k < s + 1 implies (#[trigger] writes@[1 + k]).sector
            == DUMP_DATA_SECTOR + k && writes@[1 + k].data@ == data_sector(
            data@,
            dumped as int,
            k,
        ) by {
            if k < s {
                assert(writes@[1 + k] == had[1 + k]);
            }
        }
        s = s + 1;
    }
    writes
}

/// Dumps the logits of a forward pass.
pub fn debug_dump_logits(log: &mut DumpLog, logits: &[u32], label: &str, mean: u32) -> (r: Vec<
    SectorWrite,
>)
    requires
        logits@.len() <= u32::MAX,
        old(log).seq < u32::MAX,
    ensures
        logits@.len() == 0 ==> r@.len() == 0 && *final(log) == *old(log),
        logits@.len() > 0 ==> final(log).seq == old(log).seq + 1 && is_dump(
            r@,
            final(log).seq,
            label@,
            logits@,
            logits@.len() as u32,
            0,
            mean,
        ),
{
    debug_dump_tensor(log, label, logits, logits.len() as u32, 0, mean)
}

/// Dumps a hidden state.
pub fn debug_dump_hidden(log: &mut DumpLog, data: &[u32], label: &str, mean: u32) -> (r: Vec<
    SectorWrite,
>)
    requires
        data@.len() <= u32::MAX,
        old(log).seq < u32::MAX,
    ensures
        data@.len() == 0 ==> r@.len() == 0 && *final(log) == *old(log),
        data@.len() > 0 ==> final(log).seq == old(log).seq + 1 && is_dump(
            r@,
            final(log).seq,
            label@,
            data@,
            data@.len() as u32,
            0,
            mean,
        ),
{
    debug_dump_tensor(log, label, data, data.len() as u32, 0, mean)
}

proof fn lemma_word_at(data: Seq<u32>, from: int, to: int, i: int)
    requires
        0 <= from <= i < to <= data.len(),
    ensures
        word_bytes(data, from, to).len() == 4 * (to - from),
        word_bytes(data, from, to).subrange(4 * (i - from), 4 * (i - from) + 4) == le32_bytes(
            data[i],
        ),
    decreases to - from,
{
    lemma_word_bytes(data, from, to);
    lemma_word_bytes(data, from, to - 1);
    let w = word_bytes(data, from, to);
    if i == to - 1 {
        assert(w.subrange(4 * (i - from), 4 * (i - from) + 4) =~= le32_bytes(data[i]));
    } else {
        lemma_word_at(data, from, to - 1, i);
        assert(w.subrange(4 * (i - from), 4 * (i - from) + 4) =~= word_bytes(
            data,
            from,
            to - 1,
        ).subrange(4 * (i - from), 4 * (i - from) + 4));
    }
}

/// A reader of the mailbox finds every dumped number: number `i` stands in
/// sector `2 + i / 128` as its word `i % 128`.
pub proof fn dumped_numbers_read_back(
    w: Seq<SectorWrite>,
    seq: u32,
    name: Seq<char>,
    data: Seq<u32>,
    shape0: u32,
    shape1: u32,
    mean: u32,
    i: int,
)
    requires
        is_dump(w, seq, name, data, shape0, shape1, mean),
        0 <= i < data.len(),
        i < DUMP_MAX_FLOATS,
    ensures
        1 + i / 128 < w.len(),
        w[1 + i / 128].sector == DUMP_DATA_SECTOR + i / 128,
        le32(w[1 + i / 128].data@, 4 * (i % 128)) == data[i],
{
    let n = smaller(data.len() as int, DUMP_MAX_FLOATS as int);
    let s = i / 128;
    assert(s < data_sectors(n));
    let to = smaller((s + 1) * SECTOR_FLOATS, n);
    let block = w[1 + s].data@;
    assert(block == data_sector(data, n, s));
    lemma_word_at(data, s * SECTOR_FLOATS, to, i);
    let o = 4 * (i % 128);
    assert(i - s * SECTOR_FLOATS == i % 128);
    assert(block.subrange(o, o + 4) =~= word_bytes(data, s * SECTOR_FLOATS, to).subrange(
        o,
        o + 4,
    ));
    le32_round_trip(block, o, data[i]);
}

/// A dump stays in its sectors and fills each of them whole.
pub proof fn dumps_stay_in_the_mailbox(
    w: Seq<SectorWrite>,
    seq: u32,
    name: Seq<char>,
    data: Seq<u32>,
    shape0: u32,
    shape1: u32,
    mean: u32,
    i: int,
)
    requires
        is_dump(w, seq, name, data, shape0, shape1, mean),
        0 <= i < w.len(),
        data.len() > 0,
    ensures
        DUMP_HEADER_SECTOR <= w[i].sector < DUMP_DATA_SECTOR + DUMP_MAX_SECTORS,
        w[i].data@.len() == SECTOR_SIZE,
{
    let n = smaller(data.len() as int, DUMP_MAX_FLOATS as int);
    if i == 0 {
        reveal_strlit("TDMP");
        is_ascii_chars_encode_utf8("TDMP"@);
        assert(encode_utf8("TDMP"@).len() == 4);
        lemma_word_bytes(data, 0, smaller(n, SUMMARY_FLOATS as int));
    } else {
        let s = i - 1;
        assert(w[1 + s].data@ == data_sector(data, n, s));
        assert(s * SECTOR_FLOATS < n);
        lemma_word_bytes(data, s * SECTOR_FLOATS, smaller((s + 1) * SECTOR_FLOATS, n));
    }
}

/// Numbers that the attention of a prompt takes; `None` where they do not fit
/// into a dump.
pub fn attention_floats(n_heads: u32, prompt: usize) -> (r: Option<usize>)
    requires
        prompt <= 512,
    ensures
        r == (if n_heads * (prompt * prompt) <= DUMP_MAX_FLOATS {
            Some((n_heads * (prompt * prompt)) as usize)
        } else {
            None
        }),
{
    assert(prompt * prompt <= 512 * 512) by (nonlinear_arith)
        requires
            prompt <= 512,
    ;
    let square: u64 = (prompt * prompt) as u64;
    assert(n_heads * square <= u32::MAX * (512 * 512)) by (nonlinear_arith)
        requires
            square <= 512 * 512,
            n_heads <= u32::MAX,
    ;
    let size: u64 = n_heads as u64 * square;
    if size <= 32768 {
        Some(size as usize)
    } else {
        None
    }
}

// ---------------------------------------------------------------------
// Health telemetry
// ---------------------------------------------------------------------

/// The health sector: the magic, the step, the token, the distance between the
/// last two logits, the threshold, the lowest distance and its step, and the
/// number of steps.
pub open spec fn health_bytes(
    gen_step: u32,
    token_id: u32,
    mse: u32,
    threshold: u32,
    min_mse: u32,
    min_mse_step: u32,
    total_steps: u32,
) -> Seq<u8> {
    padded(
        encode_utf8("HLTH"@) + le32_bytes(gen_step) + le32_bytes(token_id) + le32_bytes(mse)
            + le32_bytes(threshold) + le32_bytes(min_mse) + le32_bytes(min_mse_step) + le32_bytes(
            total_steps,
        ),
        SECTOR_SIZE as int,
    )
}

pub fn write_health_sector(
    gen_step: u32,
    token_id: u32,
    mse: u32,
    threshold: u32,
    min_mse: u32,
    min_mse_step: u32,
    total_steps: u32,
) -> (r: SectorWrite)
    ensures
        r.sector == HEALTH_SECTOR,
        r.data@ == health_bytes(
            gen_step,
            token_id,
            mse,
            threshold,
            min_mse,
            min_mse_step,
            total_steps,
        ),
{
    let mut out: Vec<u8> = Vec::new();
    proof {
        reveal_strlit("HLTH");
        is_ascii_chars_encode_utf8("HLTH"@);
    }
    extend_bytes(&mut out, "HLTH".as_bytes());
    assert(encode_utf8("HLTH"@).len() == 4);
    push_le32(&mut out, gen_step);
    push_le32(&mut out, token_id);
    push_le32(&mut out, mse);
    push_le32(&mut out, threshold);
    push_le32(&mut out, min_mse);
    push_le32(&mut out, min_mse_step);
    push_le32(&mut out, total_steps);
    pad(&mut out, SECTOR_SIZE);
    SectorWrite { sector: HEALTH_SECTOR, data: out }
}

/// The health of a run: the lowest distance between consecutive logits.
#[derive(Debug, Clone, Copy)]
pub struct HealthMonitor {
    pub min_mse: u32,
    pub min_mse_step: u32,
    /// The last step that was looked at.
    pub steps: u32,
}

/// What a health sector says after a step.
pub open spec fn step_sector(h: HealthMonitor, cfg: SamplingConfig, token: u32, mse: u32) -> Seq<
    u8,
> {
    health_bytes(
        h.steps,
        token,
        mse,
        cfg.drift_threshold,
        h.min_mse,
        h.min_mse_step,
        h.steps,
    )
}

impl HealthMonitor {
    pub fn new() -> (r: Self)
        ensures
            r == (HealthMonitor { min_mse: HIGHEST, min_mse_step: 0, steps: 0 }),
    {
        HealthMonitor { min_mse: HIGHEST, min_mse_step: 0, steps: 0 }
    }

    /// The health after a step.
    pub open spec fn after(self, step: u32, mse: u32) -> HealthMonitor {
        if higher(self.min_mse, mse) {
            HealthMonitor { min_mse: mse, min_mse_step: step, steps: step }
        } else {
            HealthMonitor { steps: step, ..self }
        }
    }

    /// Takes over the distance of a step. The sector is written after every
    /// step, and in the mode for anomalies only where the distance is below
    /// the threshold.
    pub fn observe(&mut self, cfg: &SamplingConfig, step: u32, token: u32, mse: u32) -> (r: Option<
        SectorWrite,
    >)
        ensures
            *final(self) == old(self).after(step, mse),
            r is Some <==> cfg.telemetry_mode != 1 || higher(cfg.drift_threshold, mse),
            r matches Some(w) ==> w.sector == HEALTH_SECTOR && w.data@ == step_sector(
                old(self).after(step, mse),
                *cfg,
                token,
                mse,
            ),
    {
        self.steps = step;
        if !nan(mse) && !nan(self.min_mse) && key_of(mse) < key_of(self.min_mse) {
            self.min_mse = mse;
            self.min_mse_step = step;
        }
        let low: bool = !nan(mse) && !nan(cfg.drift_threshold) && key_of(mse) < key_of(
            cfg.drift_threshold,
        );
        if cfg.telemetry_mode == 1 && !low {
            return None;
        }
        Some(
            write_health_sector(
                step,
                token,
                mse,
                cfg.drift_threshold,
                self.min_mse,
                self.min_mse_step,
                step,
            ),
        )
    }

    /// The sector at the end of a run: the lowest distance, where there was a
    /// step to look at.
    pub fn summary(&self, cfg: &SamplingConfig) -> (r: Option<SectorWrite>)
        ensures
            r is Some <==> cfg.telemetry_mode > 0 && self.steps > 0,
            r matches Some(w) ==> w.sector == HEALTH_SECTOR && w.data@ == step_sector(
                *self,
                *cfg,
                0,
                self.min_mse,
            ),
    {
        if cfg.telemetry_mode > 0 && self.steps > 0 {
            Some(
                write_health_sector(
                    self.steps,
                    0,
                    self.min_mse,
                    cfg.drift_threshold,
                    self.min_mse,
                    self.min_mse_step,
                    self.steps,
                ),
            )
        } else {
            None
        }
    }
}

/// The lowest distance never rises.
pub proof fn lowest_distance_never_rises(h: HealthMonitor, step: u32, mse: u32)
    ensures
        !higher(h.after(step, mse).min_mse, h.min_mse),
        !higher(h.after(step, mse).min_mse, mse),
{
}

/// The lowest number of a tensor without patterns that are no number.
pub proof fn lowest_is_lowest(s: Seq<u32>, k: int)
    requires
        0 < k <= s.len(),
        forall|i: int| 0 <= i < s.len() ==> !crate::topk::is_nan(#[trigger] s[i]),
    ensures
        exists|i: int| 0 <= i < k && #[trigger] s[i] == lowest(s, k),
        forall|i: int|
            0 <= i < k ==> crate::topk::order_key(lowest(s, k)) <= crate::topk::order_key(
                #[trigger] s[i],
            ),
    decreases k,
{
    if k > 1 {
        lowest_is_lowest(s, k - 1);
        let j = choose|i: int| 0 <= i < k - 1 && #[trigger] s[i] == lowest(s, k - 1);
        assert(s[j] == lowest(s, k - 1));
        assert(!crate::topk::is_nan(s[k - 1]));
        assert(!crate::topk::is_nan(s[j]));
    } else {
        assert(s[0] == lowest(s, k));
    }
}

/// The health after a step: the lowest distance so far, and the step that had
/// it.
pub proof fn health_keeps_the_lowest(h: HealthMonitor, step: u32, mse: u32)
    ensures
        h.after(step, mse).steps == step,
        higher(h.min_mse, mse) ==> h.after(step, mse).min_mse == mse && h.after(
            step,
            mse,
        ).min_mse_step == step,
        !higher(h.min_mse, mse) ==> h.after(step, mse).min_mse == h.min_mse && h.after(
            step,
            mse,
        ).min_mse_step == h.min_mse_step,
{
}

} // verus!
