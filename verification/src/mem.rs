//! Memory accounting: byte estimates of pixel buffers, the process counters
//! and the human-readable `B` / `KB` / `MB` / `GB` labels.

use vstd::prelude::*;
use std::collections::HashSet;
use crate::text::{decimal, digit_char, digit_to_char, padded_decimal, push_char, push_decimal};

verus! {

/// Bytes of an RGB buffer of `w × h` pixels.
pub fn dims_rgb(w: u32, h: u32) -> (n: u64)
    requires
        w * h * 3 <= u64::MAX,
    ensures
        n == w * h * 3,
{
    assert(w as u64 * h as u64 <= w * h * 3) by (nonlinear_arith)
        requires
            w * h * 3 <= u64::MAX,
    ;
    w as u64 * h as u64 * 3
}

/// Bytes of a BGRA buffer of `w × h` pixels.
pub fn dims_bgra(w: u32, h: u32) -> (n: u64)
    requires
        w * h * 4 <= u64::MAX,
    ensures
        n == w * h * 4,
{
    assert(w as u64 * h as u64 <= w * h * 4) by (nonlinear_arith)
        requires
            w * h * 4 <= u64::MAX,
    ;
    w as u64 * h as u64 * 4
}

/// Bytes of a GPU texture whose size, in whole pixels, is `w × h`
/// (negative sizes count as 0).
pub fn gpu_bytes(w: i32, h: i32) -> (n: u64)
    ensures
        n == (if w > 0 { w as int } else { 0 }) * (if h > 0 { h as int } else { 0 }) * 4,
{
    let w = if w > 0 { w as u32 } else { 0 };
    let h = if h > 0 { h as u32 } else { 0 };
    assert(w * h * 4 <= u64::MAX) by (nonlinear_arith)
        requires
            w <= 0x7fff_ffff,
            h <= 0x7fff_ffff,
    ;
    dims_bgra(w, h)
}

/// The process's working set and private (pagefile) commit, in bytes.
#[derive(Clone, Copy, Debug)]
pub struct ProcessMem {
    pub working_set: u64,
    pub private: u64,
}

impl Default for ProcessMem {
    fn default() -> (m: Self)
        ensures
            m.working_set == 0,
            m.private == 0,
    {
        ProcessMem { working_set: 0, private: 0 }
    }
}

/// The process counters from an OS sample `(working set, pagefile usage)`;
/// both are 0 when no sample could be taken.
pub fn process_memory(sample: Option<(u64, u64)>) -> (m: ProcessMem)
    ensures
        sample is None ==> m.working_set == 0 && m.private == 0,
        sample matches Some((ws, pf)) ==> m.working_set == ws && m.private == pf,
{
    match sample {
        Some((ws, pf)) => ProcessMem { working_set: ws, private: pf },
        None => ProcessMem::default(),
    }
}

/// `num / den` rounded to the nearest integer, ties to even.
pub open spec fn div_round_even(num: nat, den: nat) -> nat
    recommends
        den > 0,
{
    let q = num / den;
    let r = num % den;
    if 2 * r > den {
        q + 1
    } else if 2 * r < den {
        q
    } else if q % 2 == 0 {
        q
    } else {
        q + 1
    }
}

/// Spacing of the `f64` values around `n` (for `n < 2^64`): 1 below `2^53`,
/// doubling with each further power of two.
pub open spec fn f64_ulp(n: nat) -> nat {
    if n < 0x20_0000_0000_0000 { 1 }
    else if n < 0x40_0000_0000_0000 { 2 }
    else if n < 0x80_0000_0000_0000 { 4 }
    else if n < 0x100_0000_0000_0000 { 8 }
    else if n < 0x200_0000_0000_0000 { 16 }
    else if n < 0x400_0000_0000_0000 { 32 }
    else if n < 0x800_0000_0000_0000 { 64 }
    else if n < 0x1000_0000_0000_0000 { 128 }
    else if n < 0x2000_0000_0000_0000 { 256 }
    else if n < 0x4000_0000_0000_0000 { 512 }
    else if n < 0x8000_0000_0000_0000 { 1024 }
    else { 2048 }
}

/// The value of `n as f64`: `n` rounded to the nearest `f64`, ties to even.
pub open spec fn f64_value(n: nat) -> nat {
    div_round_even(n, f64_ulp(n)) * f64_ulp(n)
}

pub open spec fn kib() -> nat { 1024 }
pub open spec fn mib() -> nat { 1024 * 1024 }
pub open spec fn gib() -> nat { 1024 * 1024 * 1024 }

/// The label of a byte count: whole bytes below 1 KiB, then KB and MB with one
/// decimal and GB with two, each rounded to nearest with ties to even on the
/// (binary) value being printed.
pub open spec fn bytes_label(n: nat) -> Seq<char> {
    if n >= gib() {
        let q = div_round_even(f64_value(n) * 100, gib());
        decimal(q / 100) + seq!['.'] + padded_decimal(q % 100, 2) + seq!['G', 'B']
    } else if n >= mib() {
        let q = div_round_even(n * 10, mib());
        decimal(q / 10) + seq!['.', digit_char((q % 10) as int), 'M', 'B']
    } else if n >= kib() {
        let q = div_round_even(n * 10, kib());
        decimal(q / 10) + seq!['.', digit_char((q % 10) as int), 'K', 'B']
    } else {
        decimal(n) + seq!['B']
    }
}

fn div_round_even_u128(num: u128, den: u128) -> (q: u128)
    requires
        den > 0,
        num < 0x1_0000_0000_0000_0000_0000_0000,
    ensures
        q == div_round_even(num as nat, den as nat),
{
    let q = num / den;
    let r = num % den;
    assert(q <= num) by (nonlinear_arith)
        requires
            q == num / den,
            den > 0,
    ;
    if r > den - r {
        q + 1
    } else if r < den - r {
        q
    } else if q % 2 == 0 {
        q
    } else {
        q + 1
    }
}

fn f64_ulp_u64(n: u64) -> (u: u128)
    ensures
        u == f64_ulp(n as nat),
        1 <= u <= 2048,
{
    if n < 0x20_0000_0000_0000 { 1 }
    else if n < 0x40_0000_0000_0000 { 2 }
    else if n < 0x80_0000_0000_0000 { 4 }
    else if n < 0x100_0000_0000_0000 { 8 }
    else if n < 0x200_0000_0000_0000 { 16 }
    else if n < 0x400_0000_0000_0000 { 32 }
    else if n < 0x800_0000_0000_0000 { 64 }
    else if n < 0x1000_0000_0000_0000 { 128 }
    else if n < 0x2000_0000_0000_0000 { 256 }
    else if n < 0x4000_0000_0000_0000 { 512 }
    else if n < 0x8000_0000_0000_0000 { 1024 }
    else { 2048 }
}

/// Human-readable size of `n` bytes, such as `800B`, `1.5KB`, `3.0MB` or `2.25GB`.
pub fn fmt_bytes(n: u64) -> (s: String)
    ensures
        s@ == bytes_label(n as nat),
{
    let mut s = String::new();
    let n128 = n as u128;
    if n >= 1024 * 1024 * 1024 {
        let ulp = f64_ulp_u64(n);
        let m = div_round_even_u128(n128, ulp);
        assert(m * ulp <= n128 + ulp) by (nonlinear_arith)
            requires
                m <= n128 / ulp + 1,
                ulp >= 1,
        ;
        let x = m * ulp;
        let q = div_round_even_u128(x * 100, 1024 * 1024 * 1024);
        push_decimal(&mut s, q / 100);
        push_char(&mut s, '.');
        let f = q % 100;
        if f < 10 {
            push_char(&mut s, '0');
        }
        push_decimal(&mut s, f);
        push_char(&mut s, 'G');
        push_char(&mut s, 'B');
        proof {
            lemma_two_digits(f as nat);
        }
    } else if n >= 1024 * 1024 {
        let q = div_round_even_u128(n128 * 10, 1024 * 1024);
        push_decimal(&mut s, q / 10);
        push_char(&mut s, '.');
        push_char(&mut s, digit_to_char((q % 10) as u8));
        push_char(&mut s, 'M');
        push_char(&mut s, 'B');
    } else if n >= 1024 {
        let q = div_round_even_u128(n128 * 10, 1024);
        push_decimal(&mut s, q / 10);
        push_char(&mut s, '.');
        push_char(&mut s, digit_to_char((q % 10) as u8));
        push_char(&mut s, 'K');
        push_char(&mut s, 'B');
    } else {
        push_decimal(&mut s, n128);
        push_char(&mut s, 'B');
    }
    assert(s@ =~= bytes_label(n as nat));
    s
}

proof fn lemma_two_digits(f: nat)
    requires
        f < 100,
    ensures
        f < 10 ==> padded_decimal(f, 2) == seq!['0'] + decimal(f),
        f >= 10 ==> padded_decimal(f, 2) == decimal(f),
{
    if f < 10 {
        assert(decimal(f).len() == 1);
        assert(Seq::new(1, |i: int| '0') =~= seq!['0']);
    } else {
        assert(decimal(f) == decimal(f / 10).push(digit_char((f % 10) as int)));
        assert(decimal(f / 10).len() == 1);
    }
}

/// `|a - b|`.
pub open spec fn abs_diff(a: u64, b: u64) -> nat {
    if a >= b { (a - b) as nat } else { (b - a) as nat }
}

/// A snapshot is written on a heartbeat, or when the accounted bytes moved by
/// at least 256 KiB or the working set by at least 1 MiB since the last one.
pub open spec fn worth_recording(heartbeat: bool, last_ws: u64, last_acc: u64, ws: u64, acc: u64) -> bool {
    heartbeat || abs_diff(acc, last_acc) >= 256 * 1024 || abs_diff(ws, last_ws) >= 1024 * 1024
}

/// The sampling state of the memory trace: the sample counter and the
/// working set and accounted bytes of the last snapshot written.
#[derive(Clone, Copy, Debug)]
pub struct MemTrace {
    pub ticks: u32,
    pub last_working_set: u64,
    pub last_accounted: u64,
}

fn abs_diff_u64(a: u64, b: u64) -> (d: u64)
    ensures
        d == abs_diff(a, b),
{
    if a >= b { a - b } else { b - a }
}

impl MemTrace {
    pub fn new() -> (t: Self)
        ensures
            t.ticks == 0,
            t.last_working_set == 0,
            t.last_accounted == 0,
    {
        MemTrace { ticks: 0, last_working_set: 0, last_accounted: 0 }
    }

    /// Counts one sample (wrapping) and tells whether it is a heartbeat:
    /// every fifteenth sample is.
    pub fn tick(&mut self) -> (heartbeat: bool)
        ensures
            final(self).ticks == (if old(self).ticks == u32::MAX { 0 } else { old(self).ticks + 1 }),
            heartbeat == (final(self).ticks % 15 == 0),
            final(self).last_working_set == old(self).last_working_set,
            final(self).last_accounted == old(self).last_accounted,
    {
        self.ticks = if self.ticks == u32::MAX { 0 } else { self.ticks + 1 };
        self.ticks % 15 == 0
    }

    /// Remembers the snapshot just written.
    pub fn record(&mut self, working_set: u64, accounted: u64)
        ensures
            final(self).ticks == old(self).ticks,
            final(self).last_working_set == working_set,
            final(self).last_accounted == accounted,
    {
        self.last_working_set = working_set;
        self.last_accounted = accounted;
    }

    /// Decides whether the sample `(working_set, accounted)` is written, and
    /// remembers it when it is. The result is the reason written with it:
    /// `heartbeat` or `poll`.
    pub fn poll(&mut self, heartbeat: bool, working_set: u64, accounted: u64) -> (r: Option<&'static str>)
        ensures
            final(self).ticks == old(self).ticks,
            r is Some == worth_recording(heartbeat, old(self).last_working_set, old(self).last_accounted, working_set, accounted),
            r is Some ==> final(self).last_working_set == working_set && final(self).last_accounted == accounted,
            r is None ==> *final(self) == *old(self),
            r matches Some(t) ==> t@ == (if heartbeat { "heartbeat"@ } else { "poll"@ }),
    {
        let ws_delta = abs_diff_u64(working_set, self.last_working_set);
        let acc_delta = abs_diff_u64(accounted, self.last_accounted);
        if !heartbeat && acc_delta < 256 * 1024 && ws_delta < 1024 * 1024 {
            return None;
        }
        self.record(working_set, accounted);
        Some(if heartbeat { "heartbeat" } else { "poll" })
    }
}

/// A heartbeat always writes a snapshot, and a snapshot equal to the one
/// written last is not written again between heartbeats.
pub proof fn lemma_trace_writes_changes_only(t: MemTrace, heartbeat: bool, ws: u64, acc: u64)
    ensures
        heartbeat ==> worth_recording(heartbeat, t.last_working_set, t.last_accounted, ws, acc),
        !heartbeat ==> !worth_recording(heartbeat, t.last_working_set, t.last_accounted, t.last_working_set, t.last_accounted),
{
}

/// How the page-background buffers relate: one image held by both sides,
/// two copies, or not both present.
pub fn bg_share_note(shared: bool, bg_doc: u64, bg_ui: u64) -> (r: &'static str)
    ensures
        r@ == (if shared { "SHARED"@ } else if bg_doc > 0 && bg_ui > 0 { "DUP"@ } else { "-"@ }),
{
    if shared {
        "SHARED"
    } else if bg_doc > 0 && bg_ui > 0 {
        "DUP"
    } else {
        "-"
    }
}

/// The status-bar line of a memory snapshot.
pub open spec fn memory_summary_text(ws: u64, accounted: u64, pages: u64, bg: u64, mask: u64, video: u64) -> Seq<char> {
    "内存 ws="@ + bytes_label(ws as nat) + " 已计="@ + bytes_label(accounted as nat) + " 页图="@
        + bytes_label(pages as nat) + " 底色="@ + bytes_label(bg as nat) + " 蒙版="@ + bytes_label(
        mask as nat,
    ) + " 视频="@ + bytes_label(video as nat)
}

/// The status-bar line of a memory snapshot: working set, accounted total,
/// page images, page backgrounds (document and picker together), masks and video.
pub fn memory_summary(ws: u64, accounted: u64, pages: u64, bg_doc: u64, bg_ui: u64, mask: u64, video: u64) -> (s: String)
    requires
        bg_doc + bg_ui <= u64::MAX,
    ensures
        s@ == memory_summary_text(ws, accounted, pages, (bg_doc + bg_ui) as u64, mask, video),
{
    let mut s = String::from_str("内存 ws=");
    s.append(fmt_bytes(ws).as_str());
    s.append(" 已计=");
    s.append(fmt_bytes(accounted).as_str());
    s.append(" 页图=");
    s.append(fmt_bytes(pages).as_str());
    s.append(" 底色=");
    s.append(fmt_bytes(bg_doc + bg_ui).as_str());
    s.append(" 蒙版=");
    s.append(fmt_bytes(mask).as_str());
    s.append(" 视频=");
    s.append(fmt_bytes(video).as_str());
    s
}

/// Counts a shared buffer once: `bytes` the first time its address `addr`
/// is seen, 0 afterwards; the address is remembered in `seen`.
pub fn count_once(seen: &mut HashSet<usize>, addr: usize, bytes: u64) -> (n: u64)
    ensures
        final(seen)@ == old(seen)@.insert(addr),
        n == (if old(seen)@.contains(addr) { 0 } else { bytes }),
{
    broadcast use vstd::std_specs::hash::group_hash_axioms;
    if seen.insert(addr) {
        bytes
    } else {
        0
    }
}

}
