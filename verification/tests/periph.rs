//! Tests of the DWT debug unit, the wire-time tracer, and the GUI and
//! canvas scaffolding.

use lognplot::canvas::{Canvas, Color, Point};
use lognplot::coresight::{
    comparator_matched, decode_ctrl, enable_tracing_bits, Component, CoreSightError, Dwt,
    MemoryAccess,
};
use lognplot::gui::{begin, button, end, text, Context};
use lognplot::tracer::TcpTracer;
use std::cell::RefCell;
use std::collections::HashMap;

/// A mock target memory.
struct FakeMemory {
    words: RefCell<HashMap<u32, u32>>,
    fail: bool,
}

impl FakeMemory {
    fn new() -> FakeMemory {
        FakeMemory { words: RefCell::new(HashMap::new()), fail: false }
    }

    fn with(addr: u32, value: u32) -> FakeMemory {
        let m = FakeMemory::new();
        m.words.borrow_mut().insert(addr, value);
        m
    }

    fn get(&self, addr: u32) -> u32 {
        *self.words.borrow().get(&addr).unwrap_or(&0)
    }
}

impl MemoryAccess for FakeMemory {
    fn read_u32(&self, address: u32) -> Result<u32, CoreSightError> {
        if self.fail {
            Err(CoreSightError::Memory)
        } else {
            Ok(self.get(address))
        }
    }

    fn write_u32(&self, address: u32, value: u32) -> Result<(), CoreSightError> {
        if self.fail {
            Err(CoreSightError::Memory)
        } else {
            self.words.borrow_mut().insert(address, value);
            Ok(())
        }
    }
}

#[test]
fn ctrl_register_decoding() {
    // four comparators, all capability bits low (low means supported)
    let info = decode_ctrl(0x4000_0000);
    assert_eq!(info.num_comparators, 4);
    assert!(info.has_trace_sampling_support);
    assert!(info.has_compare_match_support);
    assert!(info.has_cyccnt_support);
    assert!(info.has_perf_counter_support);
    let info2 = decode_ctrl(0xF800_0000);
    assert_eq!(info2.num_comparators, 15);
    assert!(!info2.has_trace_sampling_support);
}

#[test]
fn info_learns_comparator_count() {
    let mem = FakeMemory::with(0x1000, 0x2000_0000);
    let c = Component::new(&mem, 0x1000);
    let mut dwt = Dwt::new(c);
    let info = dwt.info().unwrap();
    assert_eq!(info.num_comparators, 2);
}

#[test]
fn setup_tracing_sets_sync_and_cyccnt_bits() {
    assert_eq!(enable_tracing_bits(0), 0x401);
    assert_eq!(enable_tracing_bits(0xF000_0000), 0xF000_0401);
    let mem = FakeMemory::with(0x1000, 0x2000_0000);
    let c = Component::new(&mem, 0x1000);
    let dwt = Dwt::new(c);
    dwt.setup_tracing().unwrap();
    assert_eq!(mem.get(0x1000), 0x2000_0401);
}

#[test]
fn enable_trace_programs_the_comparator() {
    let mem = FakeMemory::with(0, 0x2000_0000);
    let c = Component::new(&mem, 0);
    let mut dwt = Dwt::new(c);
    dwt.info().unwrap();
    dwt.enable_trace(0xCAFE_F00D, 1).unwrap();
    assert_eq!(mem.get(0x30), 0xCAFE_F00D); // comparison value
    assert_eq!(mem.get(0x34), 0); // ignore mask
    assert_eq!(mem.get(0x38), 13); // function: sample data on write
}

#[test]
fn comparator_channel_bounds_are_enforced() {
    let mem = FakeMemory::with(0, 0x2000_0000);
    let c = Component::new(&mem, 0);
    let mut dwt = Dwt::new(c);
    // before info(), no comparators are known
    assert_eq!(dwt.enable_trace(0x1234, 0), Err(CoreSightError::ChannelOutOfBounds));
    dwt.info().unwrap();
    assert!(dwt.enable_trace(0x1234, 1).is_ok());
    assert_eq!(dwt.enable_trace(0x1234, 2), Err(CoreSightError::ChannelOutOfBounds));
    assert_eq!(dwt.disable_memory_watch(2), Err(CoreSightError::ChannelOutOfBounds));
    dwt.disable_memory_watch(1).unwrap();
    assert_eq!(mem.get(0x38), 0);
}

#[test]
fn poll_reports_the_match_bit() {
    assert!(comparator_matched(1 << 24));
    assert!(!comparator_matched(!(1u32 << 24)));
    let mem = FakeMemory::with(0x28, 1 << 24);
    let c = Component::new(&mem, 0);
    let dwt = Dwt::new(c);
    assert_eq!(dwt.poll(), Ok(true));
}

#[test]
fn memory_failures_are_passed_through() {
    let mut mem = FakeMemory::new();
    mem.fail = true;
    let c = Component::new(&mem, 0);
    let mut dwt = Dwt::new(c);
    assert_eq!(dwt.info(), Err(CoreSightError::Memory));
    assert_eq!(dwt.setup_tracing(), Err(CoreSightError::Memory));
}

#[test]
fn tracer_elapsed_time_round_trip() {
    let tracer = TcpTracer::new(1_000);
    assert_eq!(tracer.elapsed_ns(1_500), Some(500));
    assert_eq!(tracer.elapsed_ns(1_000), Some(0));
    // a measurement older than the reference instant cannot be sent
    assert_eq!(tracer.elapsed_ns(999), None);
    assert_eq!(tracer.absolute_ns(500), Some(1_500));
    // the round trip restores the timestamp
    let t = 123_456_789i64;
    assert_eq!(tracer.absolute_ns(tracer.elapsed_ns(t).unwrap()), Some(t));
}

#[test]
fn tracer_rejects_overflowing_times() {
    let tracer = TcpTracer::new(-10);
    assert_eq!(tracer.elapsed_ns(i64::MAX), None);
    let tracer2 = TcpTracer::new(i64::MAX);
    assert_eq!(tracer2.absolute_ns(1), None);
    assert_eq!(tracer2.absolute_ns(0), Some(i64::MAX));
}

/// A canvas that records what was asked of it.
struct RecordingCanvas {
    ops: Vec<String>,
}

impl Canvas for RecordingCanvas {
    fn set_pen(&mut self, color: Color) {
        self.ops.push(format!("pen {} {} {}", color.r, color.g, color.b));
    }

    fn print_text(&mut self, p: &Point, text: &str) {
        self.ops.push(format!("text {} {} {}", p.x, p.y, text));
    }

    fn draw_line(&mut self, p1: &Point, p2: &Point) {
        self.ops.push(format!("line {} {} {} {}", p1.x, p1.y, p2.x, p2.y));
    }
}

#[test]
fn canvas_trait_is_implementable() {
    let mut c = RecordingCanvas { ops: Vec::new() };
    c.set_pen(Color { r: 1, g: 2, b: 3 });
    c.print_text(&Point { x: 4, y: 5 }, "hello");
    c.draw_line(&Point { x: 0, y: 0 }, &Point { x: 9, y: 9 });
    assert_eq!(c.ops, vec![
        "pen 1 2 3".to_string(),
        "text 4 5 hello".to_string(),
        "line 0 0 9 9".to_string(),
    ]);
}

#[test]
fn gui_pass_reports_no_interaction() {
    let mut ctx = Context::default();
    begin();
    assert!(!button(&mut ctx, "press me"));
    text("a label");
    end();
}
