//! Interface with the DWT (data watchpoint and trace) unit of a debug
//! target.
//!
//! This unit can monitor specific memory locations for write or read access,
//! which is handy when debugging a system.  See the ARMv7-M architecture
//! reference manual, section C1.8, for background.

use vstd::prelude::*;

verus! {

/// Errors while talking to a CoreSight component.
#[derive(Clone, Copy, PartialEq, Eq, Structural, Debug)]
pub enum CoreSightError {
    /// The memory access to the target failed.
    Memory,
    /// A comparator channel beyond the available ones was addressed.
    ChannelOutOfBounds,
}

/// Result type of CoreSight operations.
pub type CoreSightResult<T> = Result<T, CoreSightError>;

/// Access to the target's memory.  Implementations wrap a debug probe; no
/// behaviour is assumed of them beyond their signatures.
pub trait MemoryAccess {
    /// Read the 32-bit word at `address`.
    fn read_u32(&self, address: u32) -> CoreSightResult<u32>;

    /// Write the 32-bit word at `address`.
    fn write_u32(&self, address: u32, value: u32) -> CoreSightResult<()>;
}

/// Size of the register block a component may address.
pub const COMPONENT_SPAN: u32 = 0x1000;

/// One CoreSight component: a memory access and the component's base
/// address on the target.
pub struct Component<'m, M: MemoryAccess> {
    memory: &'m M,
    base_address: u32,
}

impl<'m, M: MemoryAccess> Component<'m, M> {
    pub closed spec fn spec_base(&self) -> u32 {
        self.base_address
    }

    /// The component's register block must fit the address space.
    pub open spec fn wf(&self) -> bool {
        self.spec_base() <= u32::MAX - COMPONENT_SPAN
    }

    pub fn new(memory: &'m M, base_address: u32) -> (r: Component<'m, M>)
        requires
            base_address <= u32::MAX - COMPONENT_SPAN,
        ensures
            r.wf(),
            r.spec_base() == base_address,
    {
        Component { memory, base_address }
    }

    /// Read the register at byte offset `offset`.
    pub fn read_reg(&self, offset: u32) -> CoreSightResult<u32>
        requires
            self.wf(),
            offset <= COMPONENT_SPAN,
    {
        self.memory.read_u32(self.base_address + offset)
    }

    /// Write the register at byte offset `offset`.
    pub fn write_reg(&self, offset: u32, value: u32) -> CoreSightResult<()>
        requires
            self.wf(),
            offset <= COMPONENT_SPAN,
    {
        self.memory.write_u32(self.base_address + offset, value)
    }
}

/// Offset of the DWT control register.
pub const REG_OFFSET_DWT_CTRL: u32 = 0;

/// The capability fields of the DWT control register.
#[derive(Clone, Copy, PartialEq, Eq, Structural, Debug)]
pub struct DwtInfo {
    pub num_comparators: u8,
    pub has_trace_sampling_support: bool,
    pub has_compare_match_support: bool,
    pub has_cyccnt_support: bool,
    pub has_perf_counter_support: bool,
}

/// Decode the capability fields of the DWT control register value.
pub fn decode_ctrl(ctrl: u32) -> (r: DwtInfo)
    ensures
        r.num_comparators == ((ctrl >> 28) & 0xf) as u8,
        r.num_comparators <= 15,
        r.has_trace_sampling_support == ((ctrl & (1u32 << 27)) == 0),
        r.has_compare_match_support == ((ctrl & (1u32 << 26)) == 0),
        r.has_cyccnt_support == ((ctrl & (1u32 << 25)) == 0),
        r.has_perf_counter_support == ((ctrl & (1u32 << 24)) == 0),
{
    proof {
        assert(((ctrl >> 28) & 0xf) <= 0xf) by (bit_vector);
    }
    DwtInfo {
        num_comparators: ((ctrl >> 28) & 0xf) as u8,
        has_trace_sampling_support: ctrl & (1u32 << 27) == 0,
        has_compare_match_support: ctrl & (1u32 << 26) == 0,
        has_cyccnt_support: ctrl & (1u32 << 25) == 0,
        has_perf_counter_support: ctrl & (1u32 << 24) == 0,
    }
}

/// The control register value with synchronization packets and the cycle
/// counter enabled.
pub fn enable_tracing_bits(ctrl: u32) -> (r: u32)
    ensures
        r == ctrl | 0x401,
{
    proof {
        assert((ctrl | (1u32 << 10)) | 1u32 == ctrl | 0x401) by (bit_vector);
    }
    (ctrl | (1u32 << 10)) | 1
}

/// Whether the comparator whose function register reads `status` has
/// matched.
pub fn comparator_matched(status: u32) -> (r: bool)
    ensures
        r == ((status & (1u32 << 24)) > 0),
{
    status & (1u32 << 24) > 0
}

/// A DWT unit on the target.
pub struct Dwt<'m, M: MemoryAccess> {
    component: Component<'m, M>,
    /// The number of comparators present in this device; learned from
    /// [`Dwt::info`], zero until then.
    num_comparators: usize,
}

impl<'m, M: MemoryAccess> Dwt<'m, M> {
    /// The component is addressable and the comparator count fits the
    /// 4-bit field it was decoded from.
    pub open spec fn wf(&self) -> bool {
        self.spec_component().wf() && self.spec_num_comparators() <= 15
    }

    pub closed spec fn spec_component(&self) -> Component<'m, M> {
        self.component
    }

    pub closed spec fn spec_num_comparators(&self) -> usize {
        self.num_comparators
    }

    pub fn new(component: Component<'m, M>) -> (r: Dwt<'m, M>)
        requires
            component.wf(),
        ensures
            r.wf(),
            r.spec_num_comparators() == 0,
    {
        Dwt { component, num_comparators: 0 }
    }

    /// Read the control register, record how many comparators the device
    /// offers, and report its capabilities.
    pub fn info(&mut self) -> (r: CoreSightResult<DwtInfo>)
        requires
            old(self).wf(),
        ensures
            final(self).wf(),
            r matches Ok(info) ==> final(self).spec_num_comparators()
                == info.num_comparators as usize,
            r is Err ==> *final(self) == *old(self),
    {
        let ctrl = match self.component.read_reg(REG_OFFSET_DWT_CTRL) {
            Ok(v) => v,
            Err(e) => {
                return Err(e);
            },
        };
        let info = decode_ctrl(ctrl);
        self.num_comparators = info.num_comparators as usize;
        Ok(info)
    }

    /// Enable synchronization packets and the cycle counter.
    pub fn setup_tracing(&self) -> (r: CoreSightResult<()>)
        requires
            self.wf(),
    {
        let ctrl = match self.component.read_reg(REG_OFFSET_DWT_CTRL) {
            Ok(v) => v,
            Err(e) => {
                return Err(e);
            },
        };
        self.component.write_reg(REG_OFFSET_DWT_CTRL, enable_tracing_bits(ctrl))
    }

    /// Enable a data monitor on a user variable at `var_address`, watching
    /// write accesses through the given comparator channel.
    pub fn enable_trace(&self, var_address: u32, comparator: usize) -> (r: CoreSightResult<()>)
        requires
            self.wf(),
        ensures
            comparator >= self.spec_num_comparators() ==> r == Err::<(), CoreSightError>(
                CoreSightError::ChannelOutOfBounds,
            ),
    {
        if comparator < self.num_comparators {
            // size of the ignore mask: ignore nothing
            let mask: u32 = 0;
            // function 13: sample data on write-only access
            let function: u32 = 13;
            let base: u32 = 0x20 + (comparator as u32) * 16;
            match self.component.write_reg(base, var_address) {
                Ok(v) => v,
                Err(e) => {
                    return Err(e);
                },
            };
            match self.component.write_reg(base + 4, mask) {
                Ok(v) => v,
                Err(e) => {
                    return Err(e);
                },
            };
            self.component.write_reg(base + 8, function)
        } else {
            Err(CoreSightError::ChannelOutOfBounds)
        }
    }

    /// Disable the data monitor on the given comparator channel.
    pub fn disable_memory_watch(&self, channel: usize) -> (r: CoreSightResult<()>)
        requires
            self.wf(),
        ensures
            channel >= self.spec_num_comparators() ==> r == Err::<(), CoreSightError>(
                CoreSightError::ChannelOutOfBounds,
            ),
    {
        if channel < self.num_comparators {
            // function 0 disables the comparator
            self.component.write_reg(0x28 + (channel as u32) * 16, 0)
        } else {
            Err(CoreSightError::ChannelOutOfBounds)
        }
    }

    /// Read whether the first comparator has matched since the last poll.
    pub fn poll(&self) -> (r: CoreSightResult<bool>)
        requires
            self.wf(),
    {
        let status = match self.component.read_reg(0x28) {
            Ok(v) => v,
            Err(e) => {
                return Err(e);
            },
        };
        Ok(comparator_matched(status))
    }
}

} // verus!
