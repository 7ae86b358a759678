//! Sampling parameters, set at run time through a control sector of the disk.
//! Parameters that are numbers with a fraction are IEEE 754 bit patterns.
use vstd::prelude::*;
use vstd::string::*;
use vstd::utf8::*;

use crate::bytes::{le32, read_le32};
use crate::text::{is_at, occurs_at};

verus! {

broadcast use vstd::seq_lib::group_seq_properties;

/// Bytes of a disk sector.
pub const SECTOR_SIZE: usize = 512;

/// The sector that sampling parameters are written to.
pub const CONTROL_SECTOR: u64 = 258;

/// First bytes of a control sector.
pub const CONTROL_MAGIC: &'static str = "FCTL";

/// 0.8
pub const DEFAULT_TEMPERATURE: u32 = 0x3F4C_CCCD;

/// 1.15
pub const DEFAULT_REP_PENALTY: u32 = 0x3F93_3333;

/// 0.9
pub const DEFAULT_TOP_P: u32 = 0x3F66_6666;

/// No limit.
pub const DEFAULT_TOP_K: u32 = 0;

pub const DEFAULT_REP_WINDOW: usize = 32;

/// 0.001
pub const DEFAULT_DRIFT_THRESHOLD: u32 = 0x3A83_126F;

/// Highest layer whose attention can be dumped.
pub const MAX_DUMP_LAYER: u32 = 29;

/// Slots of the nucleus.
pub const NUCLEUS_MAX: usize = 128;

#[derive(Debug, Clone, Copy)]
pub struct SamplingConfig {
    pub temperature: u32,
    pub top_p: u32,
    pub top_k: u32,
    pub rep_penalty: u32,
    pub rep_window: usize,
    pub dump_layer: usize,
    pub drift_threshold: u32,
    /// Off (0), anomalies only (1) or continuous.
    pub telemetry_mode: u32,
}

pub open spec fn default_config() -> SamplingConfig {
    SamplingConfig {
        temperature: DEFAULT_TEMPERATURE,
        top_p: DEFAULT_TOP_P,
        top_k: DEFAULT_TOP_K,
        rep_penalty: DEFAULT_REP_PENALTY,
        rep_window: DEFAULT_REP_WINDOW,
        dump_layer: 0,
        drift_threshold: DEFAULT_DRIFT_THRESHOLD,
        telemetry_mode: 0,
    }
}

impl SamplingConfig {
    pub fn defaults() -> (r: Self)
        ensures
            r == default_config(),
    {
        SamplingConfig {
            temperature: DEFAULT_TEMPERATURE,
            top_p: DEFAULT_TOP_P,
            top_k: DEFAULT_TOP_K,
            rep_penalty: DEFAULT_REP_PENALTY,
            rep_window: DEFAULT_REP_WINDOW,
            dump_layer: 0,
            drift_threshold: DEFAULT_DRIFT_THRESHOLD,
            telemetry_mode: 0,
        }
    }

    /// How many of the last tokens are penalised, given how many there are.
    pub fn penalty_window(&self, recent: usize) -> (r: usize)
        ensures
            r == if recent <= self.rep_window {
                recent
            } else {
                self.rep_window
            },
    {
        if recent <= self.rep_window {
            recent
        } else {
            self.rep_window
        }
    }

    /// How many tokens the nucleus takes at most.
    pub fn nucleus_limit(&self) -> (r: usize)
        ensures
            r == if 0 < self.top_k < NUCLEUS_MAX {
                self.top_k as int
            } else {
                NUCLEUS_MAX as int
            },
            0 < r <= NUCLEUS_MAX,
    {
        if 0 < self.top_k && self.top_k < 128 {
            self.top_k as usize
        } else {
            NUCLEUS_MAX
        }
    }
}

/// Whether a bit pattern is a number above zero.
pub open spec fn is_positive(bits: u32) -> bool {
    0 < bits <= 0x7F80_0000
}

/// A field of the sector, where it is a number above zero.
pub open spec fn positive_or(s: Seq<u8>, at: int, default: u32) -> u32 {
    if is_positive(le32(s, at) as u32) {
        le32(s, at) as u32
    } else {
        default
    }
}

/// The parameters in a sector: all defaults without the magic; the layer where
/// it is in range; zero means the default for each of the others but the
/// nucleus limit and the telemetry mode, for which zero is a value.
pub open spec fn control_config(s: Seq<u8>) -> SamplingConfig {
    if !occurs_at(s, encode_utf8(CONTROL_MAGIC@), 0) {
        default_config()
    } else {
        SamplingConfig {
            temperature: positive_or(s, 16, DEFAULT_TEMPERATURE),
            top_p: positive_or(s, 20, DEFAULT_TOP_P),
            top_k: le32(s, 24) as u32,
            rep_penalty: positive_or(s, 28, DEFAULT_REP_PENALTY),
            rep_window: if le32(s, 32) > 0 {
                le32(s, 32) as usize
            } else {
                DEFAULT_REP_WINDOW
            },
            dump_layer: if le32(s, 8) <= MAX_DUMP_LAYER {
                le32(s, 8) as usize
            } else {
                0
            },
            drift_threshold: positive_or(s, 40, DEFAULT_DRIFT_THRESHOLD),
            telemetry_mode: le32(s, 44) as u32,
        }
    }
}

fn positive_field(s: &[u8], at: usize, default: u32) -> (r: u32)
    requires
        at + 4 <= s@.len(),
    ensures
        r == positive_or(s@, at as int, default),
{
    let v: u32 = read_le32(s, at);
    if 0 < v && v <= 0x7F80_0000 {
        v
    } else {
        default
    }
}

/// The parameters that the control sector holds; the defaults where it could
/// not be read.
pub fn read_control_sector(sector: Option<&[u8]>) -> (r: SamplingConfig)
    requires
        sector matches Some(s) ==> s@.len() == SECTOR_SIZE,
    ensures
        r == (match sector {
            Some(s) => control_config(s@),
            None => default_config(),
        }),
{
    let mut cfg = SamplingConfig::defaults();
    match sector {
        None => cfg,
        Some(s) => {
            if !is_at(s, CONTROL_MAGIC.as_bytes(), 0) {
                return cfg;
            }
            let layer: u32 = read_le32(s, 8);
            if layer <= MAX_DUMP_LAYER {
                cfg.dump_layer = layer as usize;
            }
            cfg.temperature = positive_field(s, 16, DEFAULT_TEMPERATURE);
            cfg.top_p = positive_field(s, 20, DEFAULT_TOP_P);
            cfg.top_k = read_le32(s, 24);
            cfg.rep_penalty = positive_field(s, 28, DEFAULT_REP_PENALTY);
            let window: u32 = read_le32(s, 32);
            if window > 0 {
                cfg.rep_window = window as usize;
            }
            cfg.drift_threshold = positive_field(s, 40, DEFAULT_DRIFT_THRESHOLD);
            cfg.telemetry_mode = read_le32(s, 44);
            cfg
        },
    }
}

/// Whatever the sector holds, the parameters are usable: a temperature, a
/// nucleus share, a penalty and a threshold above zero, a window, and a layer
/// in range.
pub proof fn parameters_are_usable(s: Seq<u8>)
    ensures
        is_positive(control_config(s).temperature),
        is_positive(control_config(s).top_p),
        is_positive(control_config(s).rep_penalty),
        is_positive(control_config(s).drift_threshold),
        control_config(s).rep_window > 0,
        control_config(s).dump_layer <= MAX_DUMP_LAYER,
{
}

/// The field of a sector, or a default where the field is no number above zero.
pub open spec fn number_or(word: int, default: u32) -> u32 {
    if 0 < word <= 0x7F80_0000 {
        word as u32
    } else {
        default
    }
}

/// What stands where in a control sector, and what stands for what is missing:
/// without the four bytes `FCTL` in front everything is at its default.
pub proof fn control_sectors_are_read(s: Seq<u8>)
    requires
        s.len() == 512,
    ensures
        ({
            let c = control_config(s);
            if s[0] == 70 && s[1] == 67 && s[2] == 84 && s[3] == 76 {
                &&& c.dump_layer == (if le32(s, 8) <= 29 {
                    le32(s, 8)
                } else {
                    0
                })
                &&& c.temperature == number_or(le32(s, 16), 0x3F4C_CCCD)
                &&& c.top_p == number_or(le32(s, 20), 0x3F66_6666)
                &&& c.top_k == le32(s, 24)
                &&& c.rep_penalty == number_or(le32(s, 28), 0x3F93_3333)
                &&& c.rep_window == (if le32(s, 32) > 0 {
                    le32(s, 32)
                } else {
                    32
                })
                &&& c.drift_threshold == number_or(le32(s, 40), 0x3A83_126F)
                &&& c.telemetry_mode == le32(s, 44)
            } else {
                c == default_config()
            }
        }),
        default_config().temperature == 0x3F4C_CCCD,
        default_config().top_p == 0x3F66_6666,
        default_config().top_k == 0,
        default_config().rep_penalty == 0x3F93_3333,
        default_config().rep_window == 32,
        default_config().dump_layer == 0,
        default_config().drift_threshold == 0x3A83_126F,
        default_config().telemetry_mode == 0,
{
    reveal_strlit("FCTL");
    is_ascii_chars_encode_utf8(CONTROL_MAGIC@);
    let m = encode_utf8(CONTROL_MAGIC@);
    assert(m =~= seq![70u8, 67, 84, 76]);
    let f = s.subrange(0, 4);
    assert(f[0] == s[0] && f[1] == s[1] && f[2] == s[2] && f[3] == s[3]);
    if s[0] == 70 && s[1] == 67 && s[2] == 84 && s[3] == 76 {
        assert(f =~= m);
    }
}

} // verus!
