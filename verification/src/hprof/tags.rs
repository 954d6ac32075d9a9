//! HPROF record tags and heap-dump sub-record tags.

use vstd::prelude::*;

verus! {

pub const TAG_STRING_IN_UTF8: u8 = 0x01;
pub const TAG_LOAD_CLASS: u8 = 0x02;
pub const TAG_UNLOAD_CLASS: u8 = 0x03;
pub const TAG_STACK_FRAME: u8 = 0x04;
pub const TAG_STACK_TRACE: u8 = 0x05;
pub const TAG_ALLOC_SITES: u8 = 0x06;
pub const TAG_HEAP_SUMMARY: u8 = 0x07;
pub const TAG_START_THREAD: u8 = 0x0A;
pub const TAG_END_THREAD: u8 = 0x0B;
pub const TAG_HEAP_DUMP: u8 = 0x0C;
pub const TAG_CPU_SAMPLES: u8 = 0x0D;
pub const TAG_CONTROL_SETTINGS: u8 = 0x0E;
pub const TAG_HEAP_DUMP_SEGMENT: u8 = 0x1C;
pub const TAG_HEAP_DUMP_END: u8 = 0x2C;

pub const SUB_ROOT_JNI_GLOBAL: u8 = 0x01;
pub const SUB_ROOT_JNI_LOCAL: u8 = 0x02;
pub const SUB_ROOT_JAVA_FRAME: u8 = 0x03;
pub const SUB_ROOT_NATIVE_STACK: u8 = 0x04;
pub const SUB_ROOT_STICKY_CLASS: u8 = 0x05;
pub const SUB_ROOT_THREAD_BLOCK: u8 = 0x06;
pub const SUB_ROOT_MONITOR_USED: u8 = 0x07;
pub const SUB_ROOT_THREAD_OBJECT: u8 = 0x08;
pub const SUB_ROOT_UNKNOWN: u8 = 0x09;
pub const SUB_ROOT_INTERNED_STRING: u8 = 0x0A;
pub const SUB_ROOT_FINALIZING: u8 = 0x0B;
pub const SUB_ROOT_DEBUGGER: u8 = 0x0C;
pub const SUB_ROOT_REFERENCE_CLEANUP: u8 = 0x0D;
pub const SUB_ROOT_VM_INTERNAL: u8 = 0x0E;
pub const SUB_ROOT_JNI_MONITOR: u8 = 0x0F;
pub const SUB_ROOT_UNREACHABLE: u8 = 0x10;
pub const SUB_CLASS_DUMP: u8 = 0x20;
pub const SUB_INSTANCE_DUMP: u8 = 0x21;
pub const SUB_OBJ_ARRAY_DUMP: u8 = 0x22;
pub const SUB_PRIM_ARRAY_DUMP: u8 = 0x23;
pub const SUB_HEAP_DUMP_INFO: u8 = 0xFE;
pub const SUB_PRIMITIVE_ARRAY_NODATA: u8 = 0xFF;

/// The HPROF name of a top-level record tag.
pub open spec fn tag_label(tag: u8) -> Seq<char> {
    if tag == 0x01 {
        "STRING_IN_UTF8"@
    } else if tag == 0x02 {
        "LOAD_CLASS"@
    } else if tag == 0x03 {
        "UNLOAD_CLASS"@
    } else if tag == 0x04 {
        "STACK_FRAME"@
    } else if tag == 0x05 {
        "STACK_TRACE"@
    } else if tag == 0x06 {
        "ALLOC_SITES"@
    } else if tag == 0x07 {
        "HEAP_SUMMARY"@
    } else if tag == 0x0A {
        "START_THREAD"@
    } else if tag == 0x0B {
        "END_THREAD"@
    } else if tag == 0x0C {
        "HEAP_DUMP"@
    } else if tag == 0x0D {
        "CPU_SAMPLES"@
    } else if tag == 0x0E {
        "CONTROL_SETTINGS"@
    } else if tag == 0x1C {
        "HEAP_DUMP_SEGMENT"@
    } else if tag == 0x2C {
        "HEAP_DUMP_END"@
    } else {
        "UNKNOWN"@
    }
}

/// Human-readable name of a top-level HPROF record tag.
pub fn tag_name(tag: u8) -> (name: &'static str)
    ensures
        name@ == tag_label(tag),
{
    match tag {
        0x01 => "STRING_IN_UTF8",
        0x02 => "LOAD_CLASS",
        0x03 => "UNLOAD_CLASS",
        0x04 => "STACK_FRAME",
        0x05 => "STACK_TRACE",
        0x06 => "ALLOC_SITES",
        0x07 => "HEAP_SUMMARY",
        0x0A => "START_THREAD",
        0x0B => "END_THREAD",
        0x0C => "HEAP_DUMP",
        0x0D => "CPU_SAMPLES",
        0x0E => "CONTROL_SETTINGS",
        0x1C => "HEAP_DUMP_SEGMENT",
        0x2C => "HEAP_DUMP_END",
        _ => "UNKNOWN",
    }
}

} // verus!
