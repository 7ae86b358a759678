//! Loading a model from the disk: find it, map memory for it in chunks, and
//! read it in bursts. The loader says what to do next; the caller does it and
//! reports what came of it.
use vstd::prelude::*;
use vstd::string::*;
use vstd::utf8::*;

use crate::bytes::{le64, read_le64};
use crate::config::SECTOR_SIZE;
use crate::text::{is_at, occurs_at};

verus! {

broadcast use vstd::seq_lib::group_seq_properties;

/// The largest model that is loaded.
pub const MAX_MODEL_SIZE: u64 = 0x1_0000_0000;

/// Where the model is mapped.
pub const MODEL_MMAP_BASE: u64 = 0x1_0000_0000;

/// Bytes that one call maps at most.
pub const MMAP_CHUNK: u64 = 0x100_0000;

/// Sectors that one burst reads at most.
pub const BURST_SECTORS: u64 = 128;

/// Sectors that are searched for a model.
pub const SCAN_SECTORS: u64 = 64;

/// First bytes of a disk with a header.
pub const DISK_MAGIC: &'static str = "FOLKDISK";

/// First bytes of a model.
pub const GGUF_MAGIC: &'static str = "GGUF";

/// Why a model was not parsed.
#[derive(Debug, Clone, Copy)]
pub enum GgufError {
    InvalidMagic,
    UnsupportedVersion(u32),
    TruncatedData,
    InvalidMetadata,
    InvalidTensor,
}

pub fn gguf_error_str(e: GgufError) -> (r: &'static str)
    ensures
        r@ == (match e {
            GgufError::InvalidMagic => "invalid magic"@,
            GgufError::UnsupportedVersion(_) => "unsupported version"@,
            GgufError::TruncatedData => "truncated data"@,
            GgufError::InvalidMetadata => "invalid metadata"@,
            GgufError::InvalidTensor => "invalid tensor"@,
        }),
{
    match e {
        GgufError::InvalidMagic => "invalid magic",
        GgufError::UnsupportedVersion(_) => "unsupported version",
        GgufError::TruncatedData => "truncated data",
        GgufError::InvalidMetadata => "invalid metadata",
        GgufError::InvalidTensor => "invalid tensor",
    }
}

/// Why a model was not loaded.
#[derive(Debug, Clone, Copy, PartialEq, Eq, Structural)]
pub enum LoadError {
    NoHeader,
    NoModel,
    TooLarge,
    NoMemory,
    NoData,
}

impl LoadError {
    pub fn as_str(&self) -> (r: &'static str)
        ensures
            r@ == (match *self {
                LoadError::NoHeader => "cannot read sector 0"@,
                LoadError::NoModel => "no GGUF magic found"@,
                LoadError::TooLarge => "model too large"@,
                LoadError::NoMemory => "mmap failed"@,
                LoadError::NoData => "no data read"@,
            }),
    {
        match *self {
            LoadError::NoHeader => "cannot read sector 0",
            LoadError::NoModel => "no GGUF magic found",
            LoadError::TooLarge => "model too large",
            LoadError::NoMemory => "mmap failed",
            LoadError::NoData => "no data read",
        }
    }
}

/// What to do next.
#[derive(Debug, Clone, Copy, PartialEq, Eq, Structural)]
pub enum LoadStep {
    /// Read one sector.
    ReadSector(u64),
    /// Map memory.
    MapRegion { addr: u64, size: u64 },
    /// Read sectors to an offset in the mapped memory.
    ReadBurst { sector: u64, offset: u64, count: u64 },
    /// The model is there.
    Loaded { size: u64 },
    Failed(LoadError),
}

#[derive(Debug, Clone, Copy, PartialEq, Eq, Structural)]
pub enum LoadPhase {
    Header,
    /// The sector behind the start of the data that is looked at.
    Scan(u64),
    Mapping,
    Reading,
    Ended,
}

/// A load under way.
#[derive(Debug, Clone, Copy)]
pub struct ModelLoad {
    /// First sector of the disk's data.
    pub data_start: u64,
    pub phase: LoadPhase,
    /// First sector of the model.
    pub start: u64,
    /// Bytes of the model; zero where they are not known.
    pub size: u64,
    /// Bytes mapped.
    pub mapped: u64,
    /// Bytes read.
    pub total_read: u64,
}

pub open spec fn least(a: int, b: int) -> int {
    if a <= b {
        a
    } else {
        b
    }
}

/// Bytes to map: whole pages, and the maximum where the size is not known.
pub open spec fn region_size(size: int) -> int {
    if size > 0 {
        (size + 4095) / 4096 * 4096
    } else {
        MAX_MODEL_SIZE as int
    }
}

/// Sectors to read.
pub open spec fn sector_count(size: int) -> int {
    if size > 0 {
        (size + 511) / 512
    } else {
        MAX_MODEL_SIZE as int / 512
    }
}

/// Where the header says the model is: its first sector and its size.
pub open spec fn header_entry(s: Seq<u8>) -> Option<(u64, u64)> {
    if occurs_at(s, encode_utf8(DISK_MAGIC@), 0) && le64(s, 64) > 0 && le64(s, 72) > 0 {
        Some((le64(s, 64) as u64, le64(s, 72) as u64))
    } else {
        None
    }
}

/// Whether a sector starts with a model.
pub open spec fn starts_model(sector: Option<Seq<u8>>) -> bool {
    match sector {
        Some(s) => occurs_at(s, encode_utf8(GGUF_MAGIC@), 0),
        None => false,
    }
}

pub open spec fn bytes_of(sector: Option<&[u8]>) -> Option<Seq<u8>> {
    match sector {
        Some(s) => Some(s@),
        None => None,
    }
}

impl ModelLoad {
    pub open spec fn wf(self) -> bool {
        &&& self.data_start <= u64::MAX - SCAN_SECTORS
        &&& self.size <= MAX_MODEL_SIZE
        &&& match self.phase {
            LoadPhase::Header => self.start == 0 && self.size == 0 && self.mapped == 0
                && self.total_read == 0,
            LoadPhase::Scan(k) => k < SCAN_SECTORS && self.start == 0 && self.size == 0
                && self.mapped == 0 && self.total_read == 0,
            LoadPhase::Mapping => self.start > 0 && self.mapped < region_size(self.size as int)
                && self.total_read == 0,
            LoadPhase::Reading => self.start > 0 && self.mapped == region_size(self.size as int)
                && self.total_read % 512 == 0 && self.total_read < sector_count(
                self.size as int,
            ) * 512,
            LoadPhase::Ended => true,
        }
    }

    /// The next chunk to map.
    pub open spec fn chunk(self) -> int {
        least(region_size(self.size as int) - self.mapped, MMAP_CHUNK as int)
    }

    pub open spec fn map_step(self) -> LoadStep {
        LoadStep::MapRegion {
            addr: (MODEL_MMAP_BASE + self.mapped) as u64,
            size: self.chunk() as u64,
        }
    }

    /// The sectors of the next burst.
    pub open spec fn burst(self) -> int {
        least(sector_count(self.size as int) - self.total_read / 512, BURST_SECTORS as int)
    }

    pub open spec fn read_step(self) -> LoadStep {
        LoadStep::ReadBurst {
            sector: ((self.start + self.total_read / 512) % 0x1_0000_0000_0000_0000) as u64,
            offset: self.total_read,
            count: self.burst() as u64,
        }
    }

    /// How a load ends once nothing more is read.
    pub open spec fn outcome(self) -> LoadStep {
        if self.total_read == 0 {
            LoadStep::Failed(LoadError::NoData)
        } else if self.size > 0 {
            LoadStep::Loaded { size: self.size }
        } else {
            LoadStep::Loaded { size: self.total_read }
        }
    }

    /// The load with a model found.
    pub open spec fn found(self, start: u64, size: u64) -> ModelLoad {
        ModelLoad { phase: LoadPhase::Mapping, start, size, ..self }
    }

    pub open spec fn ended(self) -> ModelLoad {
        ModelLoad { phase: LoadPhase::Ended, ..self }
    }

    fn next_chunk(&self) -> (r: LoadStep)
        requires
            self.wf(),
            self.phase is Mapping,
        ensures
            r == self.map_step(),
    {
        let region: u64 = region_bytes(self.size);
        let left: u64 = region - self.mapped;
        let size: u64 = if left <= MMAP_CHUNK {
            left
        } else {
            MMAP_CHUNK
        };
        LoadStep::MapRegion { addr: MODEL_MMAP_BASE + self.mapped, size }
    }

    fn next_burst(&self) -> (r: LoadStep)
        requires
            self.wf(),
            self.phase is Reading,
        ensures
            r == self.read_step(),
    {
        let read: u64 = self.total_read / 512;
        let left: u64 = sectors_to_read(self.size) - read;
        let count: u64 = if left <= BURST_SECTORS {
            left
        } else {
            BURST_SECTORS
        };
        LoadStep::ReadBurst {
            sector: self.start.wrapping_add(read),
            offset: self.total_read,
            count,
        }
    }

    fn end(&mut self) -> (r: LoadStep)
        ensures
            *final(self) == old(self).ended(),
            r == old(self).outcome(),
    {
        self.phase = LoadPhase::Ended;
        if self.total_read == 0 {
            LoadStep::Failed(LoadError::NoData)
        } else if self.size > 0 {
            LoadStep::Loaded { size: self.size }
        } else {
            LoadStep::Loaded { size: self.total_read }
        }
    }

    /// A sector was read, or could not be. The header comes first. Where it
    /// names no model, the first sectors of the data are searched; one that
    /// cannot be read is passed over.
    pub fn on_sector(&mut self, sector: Option<&[u8]>) -> (r: LoadStep)
        requires
            old(self).wf(),
            old(self).phase is Header || old(self).phase is Scan,
            sector matches Some(s) ==> s@.len() == SECTOR_SIZE,
        ensures
            final(self).wf(),
            match old(self).phase {
                LoadPhase::Header => match sector {
                    None => *final(self) == old(self).ended() && r == LoadStep::Failed(
                        LoadError::NoHeader,
                    ),
                    Some(s) => match header_entry(s@) {
                        Some((start, size)) => if size > MAX_MODEL_SIZE {
                            *final(self) == old(self).ended() && r == LoadStep::Failed(
                                LoadError::TooLarge,
                            )
                        } else {
                            *final(self) == old(self).found(start, size) && r
                                == final(self).map_step()
                        },
                        None => *final(self) == (ModelLoad {
                            phase: LoadPhase::Scan(0),
                            ..*old(self)
                        }) && r == LoadStep::ReadSector(old(self).data_start),
                    },
                },
                LoadPhase::Scan(k) => if starts_model(bytes_of(sector)) && old(self).data_start + k
                    > 0 {
                    *final(self) == old(self).found((old(self).data_start + k) as u64, 0) && r
                        == final(self).map_step()
                } else if starts_model(bytes_of(sector)) || k + 1 == SCAN_SECTORS {
                    *final(self) == old(self).ended() && r == LoadStep::Failed(LoadError::NoModel)
                } else {
                    *final(self) == (ModelLoad {
                        phase: LoadPhase::Scan((k + 1) as u64),
                        ..*old(self)
                    }) && r == LoadStep::ReadSector((old(self).data_start + k + 1) as u64)
                },
                _ => true,
            },
    {
        match self.phase {
            LoadPhase::Header => match sector {
                None => {
                    self.phase = LoadPhase::Ended;
                    LoadStep::Failed(LoadError::NoHeader)
                },
                Some(s) => {
                    if is_at(s, DISK_MAGIC.as_bytes(), 0) {
                        let start: u64 = read_le64(s, 64);
                        let size: u64 = read_le64(s, 72);
                        if start > 0 && size > 0 {
                            if size > MAX_MODEL_SIZE {
                                self.phase = LoadPhase::Ended;
                                return LoadStep::Failed(LoadError::TooLarge);
                            }
                            self.start = start;
                            self.size = size;
                            self.phase = LoadPhase::Mapping;
                            return self.next_chunk();
                        }
                    }
                    self.phase = LoadPhase::Scan(0);
                    LoadStep::ReadSector(self.data_start)
                },
            },
            LoadPhase::Scan(k) => {
                let found: bool = match sector {
                    Some(s) => is_at(s, GGUF_MAGIC.as_bytes(), 0),
                    None => false,
                };
                if found {
                    let start: u64 = self.data_start + k;
                    if start > 0 {
                        self.start = start;
                        self.phase = LoadPhase::Mapping;
                        return self.next_chunk();
                    }
                }
                if found || k + 1 == SCAN_SECTORS {
                    self.phase = LoadPhase::Ended;
                    return LoadStep::Failed(LoadError::NoModel);
                }
                self.phase = LoadPhase::Scan(k + 1);
                LoadStep::ReadSector(self.data_start + k + 1)
            },
            _ => LoadStep::Failed(LoadError::NoModel),
        }
    }

    /// The memory that was asked for was mapped, or could not be.
    pub fn on_mapped(&mut self, mapped: bool) -> (r: LoadStep)
        requires
            old(self).wf(),
            old(self).phase is Mapping,
        ensures
            final(self).wf(),
            !mapped ==> *final(self) == old(self).ended() && r == LoadStep::Failed(
                LoadError::NoMemory,
            ),
            mapped && old(self).mapped + old(self).chunk() < region_size(old(self).size as int)
                ==> *final(self) == (ModelLoad {
                mapped: (old(self).mapped + old(self).chunk()) as u64,
                ..*old(self)
            }) && r == final(self).map_step(),
            mapped && old(self).mapped + old(self).chunk() >= region_size(old(self).size as int)
                ==> *final(self) == (ModelLoad {
                phase: LoadPhase::Reading,
                mapped: (old(self).mapped + old(self).chunk()) as u64,
                ..*old(self)
            }) && r == final(self).read_step(),
    {
        if !mapped {
            self.phase = LoadPhase::Ended;
            return LoadStep::Failed(LoadError::NoMemory);
        }
        let region: u64 = region_bytes(self.size);
        let left: u64 = region - self.mapped;
        let chunk: u64 = if left <= MMAP_CHUNK {
            left
        } else {
            MMAP_CHUNK
        };
        self.mapped = self.mapped + chunk;
        if self.mapped < region {
            self.next_chunk()
        } else {
            self.phase = LoadPhase::Reading;
            self.next_burst()
        }
    }

    /// Whether a burst shows the end of a model of unknown size: its last
    /// sector holds zeros only. The first two sectors always count.
    pub open spec fn ends_with(self, data: Seq<u8>) -> bool {
        &&& self.size == 0
        &&& self.total_read + data.len() > 2 * SECTOR_SIZE
        &&& forall|i: int|
            data.len() - SECTOR_SIZE <= i < data.len() ==> #[trigger] data[i] == 0
    }

    /// The burst that was asked for was read, or could not be.
    pub fn on_burst(&mut self, data: Option<&[u8]>) -> (r: LoadStep)
        requires
            old(self).wf(),
            old(self).phase is Reading,
            data matches Some(s) ==> s@.len() == old(self).burst() * SECTOR_SIZE,
        ensures
            final(self).wf(),
            match data {
                None => *final(self) == old(self).ended() && r == old(self).outcome(),
                Some(s) => {
                    let read = (old(self).total_read + s@.len()) as u64;
                    if old(self).ends_with(s@) {
                        let kept = ModelLoad { total_read: (read - 512) as u64, ..*old(self) };
                        *final(self) == kept.ended() && r == kept.outcome()
                    } else if read == sector_count(old(self).size as int) * 512 {
                        let all = ModelLoad { total_read: read, ..*old(self) };
                        *final(self) == all.ended() && r == all.outcome()
                    } else {
                        *final(self) == (ModelLoad { total_read: read, ..*old(self) }) && r
                            == final(self).read_step()
                    }
                },
            },
    {
        match data {
            None => self.end(),
            Some(s) => {
                let len: usize = s.len();
                proof {
                    assert(old(self).burst() >= 1);
                }
                self.total_read = self.total_read + len as u64;
                if self.size == 0 && self.total_read > 1024 {
                    let zero: bool = is_zero(s, len - SECTOR_SIZE);
                    if zero {
                        self.total_read = self.total_read - 512;
                        return self.end();
                    }
                }
                if self.total_read == sectors_to_read(self.size) * 512 {
                    self.end()
                } else {
                    self.next_burst()
                }
            },
        }
    }
}

fn region_bytes(size: u64) -> (r: u64)
    requires
        size <= MAX_MODEL_SIZE,
    ensures
        r == region_size(size as int),
{
    if size > 0 {
        (size + 4095) / 4096 * 4096
    } else {
        MAX_MODEL_SIZE
    }
}

fn sectors_to_read(size: u64) -> (r: u64)
    requires
        size <= MAX_MODEL_SIZE,
    ensures
        r == sector_count(size as int),
{
    if size > 0 {
        (size + 511) / 512
    } else {
        MAX_MODEL_SIZE / 512
    }
}

fn is_zero(s: &[u8], from: usize) -> (r: bool)
    requires
        from <= s@.len(),
    ensures
        r == (forall|i: int| from <= i < s@.len() ==> #[trigger] s@[i] == 0),
{
    let mut i: usize = from;
    while i < s.len()
        invariant
            from <= i <= s@.len(),
            forall|j: int| from <= j < i ==> #[trigger] s@[j] == 0,
        decreases s@.len() - i,
    {
        if s[i] != 0 {
            return false;
        }
        i = i + 1;
    }
    true
}

/// Starts a load: the header is read first.
pub fn load_model_from_disk(data_start: u64) -> (r: (ModelLoad, LoadStep))
    requires
        data_start <= u64::MAX - SCAN_SECTORS,
    ensures
        r.0.wf(),
        r.0 == (ModelLoad {
            data_start,
            phase: LoadPhase::Header,
            start: 0,
            size: 0,
            mapped: 0,
            total_read: 0,
        }),
        r.1 == LoadStep::ReadSector(0),
{
    let load = ModelLoad {
        data_start,
        phase: LoadPhase::Header,
        start: 0,
        size: 0,
        mapped: 0,
        total_read: 0,
    };
    (load, LoadStep::ReadSector(0))
}

/// No burst goes beyond the mapped memory, and each asks for something.
pub proof fn reads_stay_in_the_mapping(load: ModelLoad)
    requires
        load.wf(),
        load.phase is Reading,
    ensures
        load.burst() > 0,
        load.total_read + load.burst() * 512 <= load.mapped,
{
}

/// A known model is read whole and no further than its last sector: the
/// sectors hold it, and one less would not.
pub proof fn sectors_hold_the_model(size: int)
    requires
        0 < size,
    ensures
        sector_count(size) * 512 >= size,
        (sector_count(size) - 1) * 512 < size,
        region_size(size) >= sector_count(size) * 512,
        region_size(size) % 4096 == 0,
{
}

/// Where a header says the model is: behind the eight bytes `FOLKDISK`, in the
/// eight bytes at 64 the first sector and in those at 72 the size, if both are
/// above zero.
pub proof fn headers_tell_the_model(s: Seq<u8>)
    requires
        s.len() == 512,
    ensures
        ({
            let magic = s.subrange(0, 8) == seq![70u8, 79, 76, 75, 68, 73, 83, 75];
            &&& magic && le64(s, 64) > 0 && le64(s, 72) > 0 ==> header_entry(s) == Some(
                (le64(s, 64) as u64, le64(s, 72) as u64),
            )
            &&& !magic || le64(s, 64) == 0 || le64(s, 72) == 0 ==> header_entry(s) is None
        }),
        starts_model(Some(s)) <==> s[0] == 71 && s[1] == 71 && s[2] == 85 && s[3] == 70,
        !starts_model(None),
{
    reveal_strlit("FOLKDISK");
    is_ascii_chars_encode_utf8(DISK_MAGIC@);
    assert(encode_utf8(DISK_MAGIC@) =~= seq![70u8, 79, 76, 75, 68, 73, 83, 75]);
    reveal_strlit("GGUF");
    is_ascii_chars_encode_utf8(GGUF_MAGIC@);
    let g = seq![71u8, 71, 85, 70];
    assert(encode_utf8(GGUF_MAGIC@) =~= g);
    let f = s.subrange(0, 4);
    assert(f[0] == s[0] && f[1] == s[1] && f[2] == s[2] && f[3] == s[3]);
    if s[0] == 71 && s[1] == 71 && s[2] == 85 && s[3] == 70 {
        assert(f =~= g);
    }
}

/// The memory of a model is mapped from 4 GiB on, in pieces of 16 MiB, one
/// behind the other up to whole pages, or up to 4 GiB where the size is not
/// known.
pub proof fn memory_is_mapped_in_pieces(load: ModelLoad)
    requires
        load.wf(),
        load.phase is Mapping,
    ensures
        ({
            let all = if load.size > 0 {
                (load.size + 4095) / 4096 * 4096
            } else {
                0x1_0000_0000
            };
            let left = all - load.mapped;
            load.map_step() == (LoadStep::MapRegion {
                addr: (0x1_0000_0000 + load.mapped) as u64,
                size: (if left <= 0x100_0000 {
                    left
                } else {
                    0x100_0000
                }) as u64,
            })
        }),
{
}

/// A model is read in bursts of 128 sectors, one behind the other, up to its
/// last sector.
pub proof fn models_are_read_in_bursts(load: ModelLoad)
    requires
        load.wf(),
        load.phase is Reading,
        load.start + 0x80_0000 <= u64::MAX,
    ensures
        ({
            let all = if load.size > 0 {
                (load.size + 511) / 512
            } else {
                0x80_0000
            };
            let done = load.total_read / 512;
            load.read_step() == (LoadStep::ReadBurst {
                sector: (load.start + done) as u64,
                offset: load.total_read,
                count: (if all - done <= 128 {
                    all - done
                } else {
                    128
                }) as u64,
            })
        }),
{
    assert(load.total_read / 512 <= 0x80_0000);
}

/// How a load ends: with the size of the header, or what was read where that is
/// not known; and with nothing read it failed.
pub proof fn loads_end(load: ModelLoad)
    ensures
        load.total_read == 0 ==> load.outcome() == LoadStep::Failed(LoadError::NoData),
        load.total_read > 0 && load.size > 0 ==> load.outcome() == (LoadStep::Loaded {
            size: load.size,
        }),
        load.total_read > 0 && load.size == 0 ==> load.outcome() == (LoadStep::Loaded {
            size: load.total_read,
        }),
{
}

} // verus!
