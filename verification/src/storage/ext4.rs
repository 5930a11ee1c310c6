//! ext4 loop image sizing and formatter arguments.
//!
//! The image holds the staged overlay tree: every regular file is counted by its
//! logical size rounded up to 1 KiB blocks (copies expand sparse files and do not
//! share hardlinked blocks), every entry costs one inode, and the image is sized
//! from whichever of data or inode demand is larger.
use vstd::prelude::*;

use crate::text::{decimal, owned, u64_decimal};

verus! {

pub const EXT4_MIN_IMAGE_SIZE_BYTES: u64 = 67108864;
pub const EXT4_FIXED_HEADROOM_BYTES: u64 = 16777216;
pub const EXT4_GROWTH_NUMERATOR: u64 = 5;
pub const EXT4_GROWTH_DENOMINATOR: u64 = 4;
pub const EXT4_BLOCK_SIZE_BYTES: u64 = 1024;
pub const EXT4_LARGE_BLOCK_SIZE_BYTES: u64 = 4096;
pub const EXT4_BLOCKS_PER_GROUP_FACTOR: u64 = 8;
pub const EXT4_MAX_1K_BLOCK_GROUPS: u64 = 32;
pub const EXT4_IMAGE_ALIGNMENT_BYTES: u64 = 4194304;
pub const EXT4_BYTES_PER_INODE: u64 = 4096;
pub const SYSTEM_MKE2FS: &'static str = "/system/bin/mke2fs";

/// `x` clamped to `u64::MAX`.
pub open spec fn sat(x: int) -> u64 {
    if x > u64::MAX { u64::MAX } else if x < 0 { 0 } else { x as u64 }
}

pub fn sat_add(a: u64, b: u64) -> (r: u64)
    ensures
        r == sat(a + b),
{
    a.saturating_add(b)
}

pub fn sat_mul(a: u64, b: u64) -> (r: u64)
    ensures
        r == sat(a * b),
{
    match a.checked_mul(b) {
        Some(v) => v,
        None => u64::MAX,
    }
}

pub open spec fn spec_round_up(value: u64, alignment: u64) -> u64 {
    if alignment == 0 || value % alignment == 0 {
        value
    } else {
        sat(value + (alignment - value % alignment))
    }
}

/// `value` rounded up to a multiple of `alignment`, saturating at `u64::MAX`.
pub fn round_up(value: u64, alignment: u64) -> (r: u64)
    ensures
        r == spec_round_up(value, alignment),
{
    if alignment == 0 {
        return value;
    }
    let remainder = value % alignment;
    if remainder == 0 {
        value
    } else {
        sat_add(value, alignment - remainder)
    }
}

pub open spec fn spec_multiply_ratio_ceil(value: u64, numerator: u64, denominator: u64) -> u64 {
    if denominator == 0 {
        u64::MAX
    } else {
        let whole = sat((value / denominator) * numerator);
        let fractional = sat(sat((value % denominator) * numerator) + (denominator - 1))
            / denominator;
        sat(whole + fractional)
    }
}

/// `⌈value · numerator / denominator⌉`, computed without intermediate overflow
/// and saturating at `u64::MAX`.
pub fn multiply_ratio_ceil(value: u64, numerator: u64, denominator: u64) -> (r: u64)
    ensures
        r == spec_multiply_ratio_ceil(value, numerator, denominator),
{
    if denominator == 0 {
        return u64::MAX;
    }
    let whole = sat_mul(value / denominator, numerator);
    let remainder = value % denominator;
    let fractional = sat_add(sat_mul(remainder, numerator), denominator - 1) / denominator;
    sat_add(whole, fractional)
}

/// Without saturation the ratio helper is the exact ceiling of `value · n / d`.
pub proof fn multiply_ratio_ceil_is_ceiling(value: u64, numerator: u64, denominator: u64)
    requires
        denominator > 0,
        (value as int) * (numerator as int) + (denominator as int) <= u64::MAX,
    ensures
        spec_multiply_ratio_ceil(value, numerator, denominator) as int == ((value as int)
            * (numerator as int) + (denominator as int) - 1) / (denominator as int),
{
    let v = value as int;
    let n = numerator as int;
    let d = denominator as int;
    let q = v / d;
    let r = v % d;
    assert(v == q * d + r && 0 <= r < d) by (nonlinear_arith)
        requires
            d > 0,
            q == v / d,
            r == v % d,
    ;
    assert(q * n <= v * n) by (nonlinear_arith)
        requires
            0 <= q,
            q * d + r == v,
            0 <= r,
            d > 0,
            n >= 0,
    {
        assert(q <= v) by (nonlinear_arith)
            requires
                0 <= q,
                q * d + r == v,
                0 <= r,
                d >= 1,
        ;
    }
    assert(r * n <= v * n) by (nonlinear_arith)
        requires
            0 <= r,
            q * d + r == v,
            0 <= q,
            d > 0,
            n >= 0,
    ;
    assert(0 <= q * n) by (nonlinear_arith)
        requires
            0 <= q,
            n >= 0,
    ;
    assert(0 <= r * n) by (nonlinear_arith)
        requires
            0 <= r,
            n >= 0,
    ;
    let f = (r * n + d - 1) / d;
    assert(v * n + d - 1 == (q * n) * d + (r * n + d - 1)) by (nonlinear_arith)
        requires
            v == q * d + r,
    ;
    assert((v * n + d - 1) / d == q * n + f) by (nonlinear_arith)
        requires
            v * n + d - 1 == (q * n) * d + (r * n + d - 1),
            f == (r * n + d - 1) / d,
            d > 0,
            r * n + d - 1 >= 0,
    ;
    assert(f <= r * n + d - 1) by (nonlinear_arith)
        requires
            f == (r * n + d - 1) / d,
            d >= 1,
            r * n + d - 1 >= 0,
    ;
    assert(q * n + f <= v * n + d - 1) by (nonlinear_arith)
        requires
            (v * n + d - 1) / d == q * n + f,
            v * n + d - 1 >= 0,
            d >= 1,
    ;
}

pub open spec fn spec_block_group_size(block_size: u64) -> u64 {
    sat(sat(block_size * block_size) * EXT4_BLOCKS_PER_GROUP_FACTOR)
}

/// Bytes covered by one ext4 block group for `block_size`.
pub fn ext4_block_group_size_bytes(block_size: u64) -> (r: u64)
    ensures
        r == spec_block_group_size(block_size),
{
    sat_mul(sat_mul(block_size, block_size), EXT4_BLOCKS_PER_GROUP_FACTOR)
}

pub open spec fn spec_block_group_count(image_size: u64, block_size: u64) -> u64 {
    let group = spec_block_group_size(block_size);
    if group == 0 {
        u64::MAX
    } else if image_size % group == 0 {
        image_size / group
    } else {
        sat(image_size / group + 1)
    }
}

/// The number of block groups an image of `image_size` bytes needs.
pub fn ext4_block_group_count(image_size: u64, block_size: u64) -> (r: u64)
    ensures
        r == spec_block_group_count(image_size, block_size),
{
    let group_size = ext4_block_group_size_bytes(block_size);
    if group_size == 0 {
        return u64::MAX;
    }
    let groups = image_size / group_size;
    if image_size % group_size == 0 {
        groups
    } else {
        sat_add(groups, 1)
    }
}

pub open spec fn spec_select_block_size(image_size: u64) -> u64 {
    if spec_block_group_count(image_size, EXT4_BLOCK_SIZE_BYTES) <= EXT4_MAX_1K_BLOCK_GROUPS {
        EXT4_BLOCK_SIZE_BYTES
    } else {
        EXT4_LARGE_BLOCK_SIZE_BYTES
    }
}

/// 1 KiB blocks while the image needs at most 32 groups, 4 KiB blocks beyond
/// that (older Android `e2fsck` builds crash on larger 1 KiB images).
pub fn select_ext4_block_size(image_size: u64) -> (r: u64)
    ensures
        r == spec_select_block_size(image_size),
{
    if ext4_block_group_count(image_size, EXT4_BLOCK_SIZE_BYTES) <= EXT4_MAX_1K_BLOCK_GROUPS {
        EXT4_BLOCK_SIZE_BYTES
    } else {
        EXT4_LARGE_BLOCK_SIZE_BYTES
    }
}

/// The `mke2fs` arguments for an image with `block_size` blocks.
pub open spec fn spec_mke2fs_args(block_size: u64) -> Seq<Seq<char>> {
    seq![
        "-t"@,
        "ext4"@,
        "-b"@,
        decimal(block_size as nat),
        "-i"@,
        "4096"@,
        "-O"@,
        "^has_journal"@,
        "-F"@,
    ]
}

/// Formatter arguments: the upstream journal-less layout with v4.2.0 inode density.
pub fn mke2fs_args(block_size: u64) -> (args: Vec<String>)
    ensures
        args@.map_values(|s: String| s@) == spec_mke2fs_args(block_size),
{
    let mut args: Vec<String> = Vec::new();
    args.push(owned("-t"));
    args.push(owned("ext4"));
    args.push(owned("-b"));
    args.push(u64_decimal(block_size));
    args.push(owned("-i"));
    args.push(owned("4096"));
    args.push(owned("-O"));
    args.push(owned("^has_journal"));
    args.push(owned("-F"));
    assert(args@.map_values(|s: String| s@) =~= spec_mke2fs_args(block_size));
    args
}

pub open spec fn spec_planned_image_size(data_bytes: u64, entries: u64) -> u64 {
    let data_requirement = sat(
        spec_multiply_ratio_ceil(data_bytes, EXT4_GROWTH_NUMERATOR, EXT4_GROWTH_DENOMINATOR)
            + EXT4_FIXED_HEADROOM_BYTES,
    );
    let inode_requirement = sat(
        spec_multiply_ratio_ceil(entries, EXT4_GROWTH_NUMERATOR, EXT4_GROWTH_DENOMINATOR)
            * EXT4_BYTES_PER_INODE,
    );
    let need = if data_requirement >= inode_requirement {
        data_requirement
    } else {
        inode_requirement
    };
    let need = if need >= EXT4_MIN_IMAGE_SIZE_BYTES {
        need
    } else {
        EXT4_MIN_IMAGE_SIZE_BYTES
    };
    spec_round_up(need, EXT4_IMAGE_ALIGNMENT_BYTES)
}

/// Image size plan: data demand is logical bytes × 1.25 + 16 MiB, inode demand is
/// entries × 1.25 × 4 KiB; the larger wins, at least 64 MiB, aligned to 4 MiB.
pub fn planned_image_size(data_bytes: u64, entries: u64) -> (size: u64)
    ensures
        size == spec_planned_image_size(data_bytes, entries),
{
    let data_requirement = sat_add(
        multiply_ratio_ceil(data_bytes, EXT4_GROWTH_NUMERATOR, EXT4_GROWTH_DENOMINATOR),
        EXT4_FIXED_HEADROOM_BYTES,
    );
    let inode_requirement = sat_mul(
        multiply_ratio_ceil(entries, EXT4_GROWTH_NUMERATOR, EXT4_GROWTH_DENOMINATOR),
        EXT4_BYTES_PER_INODE,
    );
    let need = if data_requirement >= inode_requirement {
        data_requirement
    } else {
        inode_requirement
    };
    let need = if need >= EXT4_MIN_IMAGE_SIZE_BYTES {
        need
    } else {
        EXT4_MIN_IMAGE_SIZE_BYTES
    };
    round_up(need, EXT4_IMAGE_ALIGNMENT_BYTES)
}

/// A planned image is never below the minimum size and is always aligned,
/// unless the demand saturated at `u64::MAX`.
pub proof fn planned_image_size_is_bounded_and_aligned(data_bytes: u64, entries: u64)
    ensures
        spec_planned_image_size(data_bytes, entries) >= EXT4_MIN_IMAGE_SIZE_BYTES,
        spec_planned_image_size(data_bytes, entries) == u64::MAX || spec_planned_image_size(
            data_bytes,
            entries,
        ) % EXT4_IMAGE_ALIGNMENT_BYTES == 0,
{
    let s = spec_planned_image_size(data_bytes, entries);
    let data_requirement = sat(
        spec_multiply_ratio_ceil(data_bytes, EXT4_GROWTH_NUMERATOR, EXT4_GROWTH_DENOMINATOR)
            + EXT4_FIXED_HEADROOM_BYTES,
    );
    let inode_requirement = sat(
        spec_multiply_ratio_ceil(entries, EXT4_GROWTH_NUMERATOR, EXT4_GROWTH_DENOMINATOR)
            * EXT4_BYTES_PER_INODE,
    );
    let need0 = if data_requirement >= inode_requirement {
        data_requirement
    } else {
        inode_requirement
    };
    let need = if need0 >= EXT4_MIN_IMAGE_SIZE_BYTES {
        need0
    } else {
        EXT4_MIN_IMAGE_SIZE_BYTES
    };
    let a: int = EXT4_IMAGE_ALIGNMENT_BYTES as int;
    let need: int = need as int;
    if need % a != 0 {
        let up = need + (a - need % a);
        assert(up % a == 0) by (nonlinear_arith)
            requires
                a > 0,
                up == need + (a - need % a),
        {
            assert(need == a * (need / a) + need % a) by (nonlinear_arith)
                requires
                    a > 0,
            ;
            assert(up == a * (need / a + 1)) by (nonlinear_arith)
                requires
                    up == need + (a - need % a),
                    need == a * (need / a) + need % a,
            ;
            assert((a * (need / a + 1)) % a == 0) by (nonlinear_arith)
                requires
                    a > 0,
            ;
        }
    }
}

/// Staged-tree size accounting.
#[derive(Debug, Default)]
pub struct SizeCounter {
    data_bytes: u64,
    entries: u64,
}

impl SizeCounter {
    pub closed spec fn spec_total(&self) -> u64 {
        self.data_bytes
    }

    pub closed spec fn spec_entries(&self) -> u64 {
        self.entries
    }

    /// A counter with nothing recorded.
    pub fn new() -> (c: SizeCounter)
        ensures
            c.spec_total() == 0,
            c.spec_entries() == 0,
    {
        SizeCounter { data_bytes: 0, entries: 0 }
    }

    /// Records one regular file of `logical_size` bytes.
    pub fn add_file(&mut self, logical_size: u64)
        ensures
            final(self).spec_total() == sat(
                old(self).spec_total() + spec_round_up(logical_size, EXT4_BLOCK_SIZE_BYTES),
            ),
            final(self).spec_entries() == sat(old(self).spec_entries() + 1),
    {
        self.data_bytes = sat_add(self.data_bytes, round_up(logical_size, EXT4_BLOCK_SIZE_BYTES));
        self.entries = sat_add(self.entries, 1);
    }

    /// Records one directory, symlink or special entry: one inode, no data.
    pub fn add_metadata_entry(&mut self)
        ensures
            final(self).spec_total() == old(self).spec_total(),
            final(self).spec_entries() == sat(old(self).spec_entries() + 1),
    {
        self.entries = sat_add(self.entries, 1);
    }

    /// Logical data bytes recorded so far.
    pub fn total(&self) -> (r: u64)
        ensures
            r == self.spec_total(),
    {
        self.data_bytes
    }

    /// Entries (inodes) recorded so far.
    pub fn entries(&self) -> (r: u64)
        ensures
            r == self.spec_entries(),
    {
        self.entries
    }
}

proof fn lemma_growth_ceil(v: u64)
    ensures
        spec_multiply_ratio_ceil(v, EXT4_GROWTH_NUMERATOR, EXT4_GROWTH_DENOMINATOR) == sat((5 * v + 3) / 4),
{
    let q = v / 4;
    let r = v % 4;
    assert(v == 4 * q + r);
    assert((5 * v + 3) / 4 == 5 * q + (5 * r + 3) / 4);
}

proof fn lemma_round_up_aligned(v: u64)
    ensures
        spec_round_up(v, EXT4_IMAGE_ALIGNMENT_BYTES) == sat(((v + 4194303) / 4194304) * 4194304),
{
    let q = v / 4194304;
    let r = v % 4194304;
    assert(v == 4194304 * q + r);
    if r == 0 {
        assert((v + 4194303) / 4194304 == q);
    } else {
        assert((v + 4194303) / 4194304 == q + 1);
    }
}

proof fn lemma_div_monotone(a: int, b: int, d: int)
    by (nonlinear_arith)
    requires
        0 <= a <= b,
        d > 0,
    ensures
        a / d <= b / d,
{
}

/// More logical bytes or more entries never make a smaller image: the
/// planned size is monotone in both.
pub proof fn planned_image_size_is_monotone(data1: u64, entries1: u64, data2: u64, entries2: u64)
    requires
        data1 <= data2,
        entries1 <= entries2,
    ensures
        spec_planned_image_size(data1, entries1) <= spec_planned_image_size(data2, entries2),
{
    lemma_growth_ceil(data1);
    lemma_growth_ceil(data2);
    lemma_growth_ceil(entries1);
    lemma_growth_ceil(entries2);
    lemma_div_monotone(5 * data1 + 3, 5 * data2 + 3, 4);
    lemma_div_monotone(5 * entries1 + 3, 5 * entries2 + 3, 4);
    let g1 = spec_multiply_ratio_ceil(entries1, EXT4_GROWTH_NUMERATOR, EXT4_GROWTH_DENOMINATOR);
    let g2 = spec_multiply_ratio_ceil(entries2, EXT4_GROWTH_NUMERATOR, EXT4_GROWTH_DENOMINATOR);
    assert(g1 <= g2);
    assert(g1 * EXT4_BYTES_PER_INODE <= g2 * EXT4_BYTES_PER_INODE);
    let d1 = sat(spec_multiply_ratio_ceil(data1, EXT4_GROWTH_NUMERATOR, EXT4_GROWTH_DENOMINATOR) + EXT4_FIXED_HEADROOM_BYTES);
    let d2 = sat(spec_multiply_ratio_ceil(data2, EXT4_GROWTH_NUMERATOR, EXT4_GROWTH_DENOMINATOR) + EXT4_FIXED_HEADROOM_BYTES);
    let i1 = sat(g1 * EXT4_BYTES_PER_INODE);
    let i2 = sat(g2 * EXT4_BYTES_PER_INODE);
    let n1 = if d1 >= i1 { d1 } else { i1 };
    let n2 = if d2 >= i2 { d2 } else { i2 };
    let m1 = if n1 >= EXT4_MIN_IMAGE_SIZE_BYTES { n1 } else { EXT4_MIN_IMAGE_SIZE_BYTES };
    let m2 = if n2 >= EXT4_MIN_IMAGE_SIZE_BYTES { n2 } else { EXT4_MIN_IMAGE_SIZE_BYTES };
    assert(m1 <= m2);
    lemma_round_up_aligned(m1);
    lemma_round_up_aligned(m2);
    lemma_div_monotone(m1 + 4194303, m2 + 4194303, 4194304);
    assert(((m1 + 4194303) / 4194304) * 4194304 <= ((m2 + 4194303) / 4194304) * 4194304);
}

} // verus!
