use vstd::prelude::*;
use crate::error::{ConfigError, CopyError};

verus! {

/// Ring depth used when neither the ring size nor the buffer count is given.
pub const DEFAULT_RING_SIZE: u32 = 256;

/// Buffer count used when neither the ring size nor the buffer count is given.
pub const DEFAULT_NUM_BUFFERS: u64 = 128;

/// Block size used when none is given.
pub const DEFAULT_BLOCK_SIZE: u64 = 4096;

/// Number of blocks of `block_size` bytes needed to cover `total` bytes.
pub open spec fn blocks_for(total: int, block_size: int) -> int {
    if total % block_size == 0 {
        total / block_size
    } else {
        total / block_size + 1
    }
}

/// Bytes to copy: what the input holds past its seek offset, capped by the
/// requested number of blocks.
pub open spec fn copy_total(file_len: int, input_base: int, count: Option<u64>, block_size: int) -> int {
    match count {
        Some(c) => if c * block_size < file_len - input_base {
            c * block_size
        } else {
            file_len - input_base
        },
        None => file_len - input_base,
    }
}

/// Buffers that may be registered as pinned memory: all of them when they fit
/// under the budget, else as many as fit less one, kept as a safety margin.
pub open spec fn registered_for(num_buffers: int, block_size: int, memlock_limit: int) -> int {
    if num_buffers * block_size >= memlock_limit {
        if memlock_limit / block_size >= 1 {
            memlock_limit / block_size - 1
        } else {
            0
        }
    } else {
        num_buffers
    }
}

/// The fixed totals of one copy run.
#[derive(Clone, Copy, Debug, PartialEq, Eq, Structural)]
pub struct CopyPlan {
    /// Byte offset in the input where the range starts.
    pub input_base: u64,
    /// Byte offset in the output where the range lands.
    pub output_base: u64,
    /// Bytes to copy.
    pub total_size: u64,
    /// Blocks that cover `total_size`.
    pub num_blocks: u64,
    pub block_size: u64,
}

impl CopyPlan {
    /// The plan's numbers agree with each other and every offset of the range
    /// fits in a `u64` on both sides.
    pub open spec fn wf(&self) -> bool {
        &&& self.block_size > 0
        &&& self.num_blocks == blocks_for(self.total_size as int, self.block_size as int)
        &&& self.input_base + self.total_size <= u64::MAX
        &&& self.output_base + self.total_size <= u64::MAX
    }
}

/// Counts the blocks of `block_size` bytes that cover `total` bytes: the last
/// one may be partial.
pub fn block_count(total: u64, block_size: u64) -> (r: u64)
    requires
        block_size > 0,
    ensures
        r == blocks_for(total as int, block_size as int),
{
    if total % block_size == 0 {
        total / block_size
    } else {
        assert(block_size >= 2);
        assert(total / block_size <= total / 2) by (nonlinear_arith)
            requires block_size >= 2;
        total / block_size + 1
    }
}

/// Works out the byte range of a run from the input's length, the block size,
/// the optional block count and the two seek offsets (in blocks).
pub fn plan_copy(
    file_len: u64,
    block_size: u64,
    count: Option<u64>,
    input_seek: u64,
    output_seek: u64,
) -> (r: Result<CopyPlan, CopyError>)
    requires
        block_size > 0,
    ensures
        input_seek * block_size > file_len <==> r == Err::<CopyPlan, CopyError>(CopyError::SeekRange),
        r == Err::<CopyPlan, CopyError>(CopyError::OutputRange) <==> (input_seek * block_size <= file_len
            && output_seek * block_size + copy_total(
            file_len as int,
            input_seek * block_size,
            count,
            block_size as int,
        ) > u64::MAX),
        input_seek * block_size <= file_len && output_seek * block_size + copy_total(
            file_len as int,
            input_seek * block_size,
            count,
            block_size as int,
        ) <= u64::MAX ==> r is Ok,
        r matches Ok(p) ==> {
            &&& p.wf()
            &&& p.block_size == block_size
            &&& p.input_base == input_seek * block_size
            &&& p.output_base == output_seek * block_size
            &&& p.total_size == copy_total(file_len as int, p.input_base as int, count, block_size as int)
        },
{
    let input_base = match input_seek.checked_mul(block_size) {
        Some(b) => b,
        None => return Err(CopyError::SeekRange),
    };
    if input_base > file_len {
        return Err(CopyError::SeekRange);
    }
    let available = file_len - input_base;
    let total_size = match count {
        Some(c) => match c.checked_mul(block_size) {
            Some(want) => if want < available {
                want
            } else {
                available
            },
            None => available,
        },
        None => available,
    };
    let output_base = match output_seek.checked_mul(block_size) {
        Some(b) => b,
        None => return Err(CopyError::OutputRange),
    };
    if output_base > u64::MAX - total_size {
        return Err(CopyError::OutputRange);
    }
    let num_blocks = block_count(total_size, block_size);
    Ok(CopyPlan { input_base, output_base, total_size, num_blocks, block_size })
}

/// How many of `num_buffers` buffers of `block_size` bytes may be pinned under
/// a memory-lock budget of `memlock_limit` bytes.
pub fn registered_buffer_count(num_buffers: u64, block_size: u64, memlock_limit: u64) -> (r: u64)
    requires
        block_size > 0,
    ensures
        r == registered_for(num_buffers as int, block_size as int, memlock_limit as int),
        r <= num_buffers,
        r == 0 || r * block_size < memlock_limit,
        num_buffers * block_size < memlock_limit ==> r == num_buffers,
{
    let over = match num_buffers.checked_mul(block_size) {
        Some(need) => need >= memlock_limit,
        None => true,
    };
    let fit = memlock_limit / block_size;
    proof {
        assert(fit * block_size <= memlock_limit) by (nonlinear_arith)
            requires fit == memlock_limit / block_size, block_size > 0;
        assert(memlock_limit < (fit + 1) * block_size) by (nonlinear_arith)
            requires fit == memlock_limit / block_size, block_size > 0;
    }
    if over {
        proof {
            assert(num_buffers * block_size >= memlock_limit);
            assert(fit <= num_buffers) by (nonlinear_arith)
                requires num_buffers * block_size >= memlock_limit,
                    fit * block_size <= memlock_limit, block_size > 0;
        }
        if fit >= 1 {
            proof {
                assert((fit - 1) * block_size < memlock_limit) by (nonlinear_arith)
                    requires fit * block_size <= memlock_limit, block_size > 0, fit >= 1;
            }
            fit - 1
        } else {
            0
        }
    } else {
        num_buffers
    }
}

/// The command-line settings of a run, before defaults are filled in.
pub struct Args {
    pub input_file: String,
    pub output_file: String,
    pub block_size: u64,
    pub count: Option<u64>,
    pub input_seek: u64,
    pub output_seek: u64,
    pub ring_size: Option<u32>,
    pub num_buffers: Option<u64>,
    pub progress: bool,
}

/// The settings of a run with every size decided and checked.
#[derive(Clone, Copy, Debug, PartialEq, Eq, Structural)]
pub struct RunSettings {
    pub block_size: u64,
    pub count: Option<u64>,
    pub input_seek: u64,
    pub output_seek: u64,
    pub ring_size: u32,
    pub num_buffers: u64,
    pub progress: bool,
}

/// The ring size and buffer count that a run uses: each derived from the
/// other when only one is given (ring = 2 x buffers; buffers = ring / 2, or 1
/// for a ring of 1), the defaults when neither is.
pub open spec fn sizes_for(ring_size: Option<u32>, num_buffers: Option<u64>) -> Result<(u32, u64), ConfigError> {
    match (ring_size, num_buffers) {
        (Some(r), Some(n)) => if r == 0 || n == 0 {
            Err(ConfigError::ZeroRingOrBuffers)
        } else {
            Ok((r, n))
        },
        (Some(r), None) => if r == 0 {
            Err(ConfigError::ZeroRingSize)
        } else if r == 1 {
            Ok((r, 1u64))
        } else {
            Ok((r, (r / 2) as u64))
        },
        (None, Some(n)) => if n == 0 {
            Err(ConfigError::ZeroBufferCount)
        } else if 2 * n > u32::MAX {
            Err(ConfigError::RingSizeTooLarge)
        } else {
            Ok(((2 * n) as u32, n))
        },
        (None, None) => Ok((DEFAULT_RING_SIZE, DEFAULT_NUM_BUFFERS)),
    }
}

/// Fills in the ring size and buffer count and checks that every size is
/// nonzero.
pub fn resolve_settings(args: &Args) -> (r: Result<RunSettings, ConfigError>)
    ensures
        sizes_for(args.ring_size, args.num_buffers) matches Err(e) ==> r == Err::<RunSettings, ConfigError>(e),
        sizes_for(args.ring_size, args.num_buffers) is Ok && args.block_size == 0 ==> r
            == Err::<RunSettings, ConfigError>(ConfigError::ZeroBlockSize),
        sizes_for(args.ring_size, args.num_buffers) is Ok && args.block_size > 0 ==> r is Ok,
        r matches Ok(s) ==> {
            &&& sizes_for(args.ring_size, args.num_buffers) == Ok::<(u32, u64), ConfigError>((s.ring_size, s.num_buffers))
            &&& s.block_size == args.block_size && s.block_size > 0
            &&& s.ring_size > 0 && s.num_buffers > 0
            &&& s.count == args.count && s.input_seek == args.input_seek
            &&& s.output_seek == args.output_seek && s.progress == args.progress
        },
{
    let sizes: (u32, u64) = match (args.ring_size, args.num_buffers) {
        (Some(r), Some(n)) => {
            if r == 0 || n == 0 {
                return Err(ConfigError::ZeroRingOrBuffers);
            }
            (r, n)
        },
        (Some(r), None) => {
            if r == 0 {
                return Err(ConfigError::ZeroRingSize);
            }
            (r, if r == 1 { 1 } else { (r / 2) as u64 })
        },
        (None, Some(n)) => {
            if n == 0 {
                return Err(ConfigError::ZeroBufferCount);
            }
            if n > (u32::MAX / 2) as u64 {
                return Err(ConfigError::RingSizeTooLarge);
            }
            ((2 * n) as u32, n)
        },
        (None, None) => (DEFAULT_RING_SIZE, DEFAULT_NUM_BUFFERS),
    };
    if args.block_size == 0 {
        return Err(ConfigError::ZeroBlockSize);
    }
    Ok(RunSettings {
        block_size: args.block_size,
        count: args.count,
        input_seek: args.input_seek,
        output_seek: args.output_seek,
        ring_size: sizes.0,
        num_buffers: sizes.1,
        progress: args.progress,
    })
}

} // verus!
