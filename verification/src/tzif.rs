//! The TZif (RFC 8536) zoneinfo format: what a file says, and a parser for it.
//!
//! A file is a header and a data block. Version 2 and later files carry the
//! authoritative 64-bit block after a second header, behind a (nowadays often
//! stub) 32-bit block, which then only tells where the second header begins.

use vstd::prelude::*;

verus! {

/// The counts and the version that a header holds.
#[derive(Debug, Clone, Copy, PartialEq, Eq)]
pub struct Header {
    pub version: u8,
    pub isutcnt: u32,
    pub isstdcnt: u32,
    pub leapcnt: u32,
    pub timecnt: u32,
    pub typecnt: u32,
    pub charcnt: u32,
}

/// The four letters that every header begins with.
pub open spec fn magic() -> Seq<u8> {
    seq![0x54u8, 0x5a, 0x69, 0x66]
}

/// The big-endian unsigned number in the four bytes from `at` on.
pub open spec fn be_u32(b: Seq<u8>, at: int) -> int {
    b[at] * 0x100_0000 + b[at + 1] * 0x1_0000 + b[at + 2] * 0x100 + b[at + 3]
}

/// The big-endian two's complement number that some bytes write.
pub open spec fn signed_be(b: Seq<u8>) -> int
    decreases b.len(),
{
    if b.len() == 0 {
        0
    } else if b.len() == 1 {
        if b[0] >= 128 {
            b[0] - 256
        } else {
            b[0] as int
        }
    } else {
        signed_be(b.drop_last()) * 256 + b.last()
    }
}

/// The header at `at`, if there is a plausible one: magic, version, fifteen
/// reserved bytes and six counts, where the counts of transitions and of types
/// do not exceed the size of the file.
pub open spec fn header_at(b: Seq<u8>, at: int) -> Option<Header> {
    if at + 44 <= b.len() && b.subrange(at, at + 4) == magic() && be_u32(b, at + 32) <= b.len()
        && be_u32(b, at + 36) <= b.len() {
        Some(
            Header {
                version: b[at + 4],
                isutcnt: be_u32(b, at + 20) as u32,
                isstdcnt: be_u32(b, at + 24) as u32,
                leapcnt: be_u32(b, at + 28) as u32,
                timecnt: be_u32(b, at + 32) as u32,
                typecnt: be_u32(b, at + 36) as u32,
                charcnt: be_u32(b, at + 40) as u32,
            },
        )
    } else {
        None
    }
}

/// A data block: its header, where it begins and whether it is a wide one,
/// whose times take eight bytes instead of four.
pub struct Block {
    pub head: Header,
    pub at: int,
    pub wide: bool,
}

impl Block {
    /// How many bytes a time takes.
    pub open spec fn width(self) -> int {
        if self.wide {
            8
        } else {
            4
        }
    }

    /// Where the `i`th transition time stands.
    pub open spec fn time_at(self, i: int) -> int {
        if self.wide {
            self.at + 8 * i
        } else {
            self.at + 4 * i
        }
    }

    /// Where the list of types begins: the times, then one byte per time, come
    /// before it.
    pub open spec fn types_at(self) -> int {
        self.time_at(self.head.timecnt as int) + self.head.timecnt
    }

    /// How many bytes the leap second records take.
    pub open spec fn leap_bytes(self) -> int {
        if self.wide {
            12 * self.head.leapcnt
        } else {
            8 * self.head.leapcnt
        }
    }

    /// Where the block ends: after the types come the designations, the leap
    /// second records and the two lists of indicators.
    pub open spec fn end(self) -> int {
        self.types_at() + 6 * self.head.typecnt + self.head.charcnt + self.leap_bytes()
            + self.head.isstdcnt + self.head.isutcnt
    }

    /// The `i`th transition time.
    pub open spec fn time(self, b: Seq<u8>, i: int) -> int {
        signed_be(b.subrange(self.time_at(i), self.time_at(i) + self.width()))
    }

    /// The index of the type that is in force from the `i`th transition on.
    pub open spec fn index(self, b: Seq<u8>, i: int) -> int {
        b[self.time_at(self.head.timecnt as int) + i] as int
    }

    /// The offset from UTC, in seconds, of the `i`th type.
    pub open spec fn offset(self, b: Seq<u8>, i: int) -> int {
        signed_be(b.subrange(self.types_at() + 6 * i, self.types_at() + 6 * i + 4))
    }

    /// Whether the `i`th type is daylight saving time.
    pub open spec fn is_dst(self, b: Seq<u8>, i: int) -> bool {
        b[self.types_at() + 6 * i + 4] != 0
    }

    /// The first `n` transitions with the offsets that are in force from them
    /// on, without those whose type index is out of range.
    pub open spec fn table(self, b: Seq<u8>, n: int) -> Seq<(i64, i32)>
        decreases n,
    {
        if n <= 0 {
            Seq::empty()
        } else {
            let before = self.table(b, n - 1);
            let ty = self.index(b, n - 1);
            if ty < self.head.typecnt {
                before.push((self.time(b, n - 1) as i64, self.offset(b, ty) as i32))
            } else {
                before
            }
        }
    }

    /// The offset that is in force before the first transition: that of the
    /// first type from `i` on that is not daylight saving time, or else that of
    /// the first type of all.
    pub open spec fn standard_offset(self, b: Seq<u8>, i: int) -> int
        decreases self.head.typecnt - i,
    {
        if i < self.head.typecnt {
            if !self.is_dst(b, i) {
                self.offset(b, i)
            } else {
                self.standard_offset(b, i + 1)
            }
        } else if self.head.typecnt > 0 {
            self.offset(b, 0)
        } else {
            0
        }
    }
}

/// The block that a file's zone is read from, if the file is a complete TZif
/// file.
pub open spec fn governing_block(b: Seq<u8>) -> Option<Block> {
    match header_at(b, 0) {
        None => None,
        Some(head) => {
            let first = Block { head, at: 44, wide: false };
            if first.end() > b.len() {
                None
            } else if head.version < 0x32 {
                Some(first)
            } else {
                match header_at(b, first.end()) {
                    None => None,
                    Some(head2) => {
                        let second = Block { head: head2, at: first.end() + 44, wide: true };
                        if second.end() > b.len() {
                            None
                        } else {
                            Some(second)
                        }
                    },
                }
            }
        },
    }
}

/// Half the number of values that `n` bytes can write.
spec fn half_range(n: nat) -> int
    decreases n,
{
    if n <= 1 {
        128
    } else {
        256 * half_range((n - 1) as nat)
    }
}

proof fn lemma_signed_bounds(b: Seq<u8>)
    ensures
        -half_range(b.len()) <= signed_be(b) < half_range(b.len()),
    decreases b.len(),
{
    if b.len() > 1 {
        lemma_signed_bounds(b.drop_last());
    }
}

proof fn lemma_half_ranges()
    ensures
        half_range(4) == 0x8000_0000,
        half_range(8) == 0x8000_0000_0000_0000,
        forall|n: nat| n <= 7 ==> #[trigger] half_range(n) <= 0x80_0000_0000_0000,
{
    reveal_with_fuel(half_range, 9);
    assert forall|n: nat| n <= 7 implies #[trigger] half_range(n) <= 0x80_0000_0000_0000 by {
        if n <= 1 {
        } else if n == 2 {
        } else if n == 3 {
        } else if n == 4 {
        } else if n == 5 {
        } else if n == 6 {
        } else {
        }
    }
}

/// A type of local time: its offset from UTC and whether it is daylight saving
/// time.
struct LocalTimeType {
    utoff: i32,
    is_dst: bool,
}

/// What a zoneinfo file says of its zone.
pub struct ZoneTable {
    /// The transitions with the offset in force from each on.
    pub transitions: Vec<(i64, i32)>,
    /// The offset in force before the first transition.
    pub fallback: i32,
}

/// Minimal big-endian reader over a byte slice; every read is bounds-checked
/// and returns `None` past the end.
struct Cursor<'a> {
    bytes: &'a [u8],
    pos: usize,
}

impl<'a> Cursor<'a> {
    spec fn wf(&self) -> bool {
        self.pos <= self.bytes@.len()
    }

    /// Moves on by `n` bytes; says whether there were that many.
    fn skip(&mut self, n: u64) -> (res: bool)
        requires
            old(self).wf(),
        ensures
            final(self).wf(),
            final(self).bytes == old(self).bytes,
            res == (old(self).pos + n <= old(self).bytes@.len()),
            final(self).pos == old(self).pos + if res {
                n as int
            } else {
                0
            },
    {
        if n <= (self.bytes.len() - self.pos) as u64 {
            self.pos = self.pos + n as usize;
            true
        } else {
            false
        }
    }

    fn byte(&mut self) -> (res: Option<u8>)
        requires
            old(self).wf(),
        ensures
            final(self).wf(),
            final(self).bytes == old(self).bytes,
            res is Some == (old(self).pos + 1 <= old(self).bytes@.len()),
            res matches Some(v) ==> v == old(self).bytes@[old(self).pos as int] && final(self).pos
                == old(self).pos + 1,
    {
        let at: usize = self.pos;
        if self.skip(1) {
            Some(self.bytes[at])
        } else {
            None
        }
    }

    fn count(&mut self) -> (res: Option<u32>)
        requires
            old(self).wf(),
        ensures
            final(self).wf(),
            final(self).bytes == old(self).bytes,
            res is Some == (old(self).pos + 4 <= old(self).bytes@.len()),
            res matches Some(v) ==> v == be_u32(old(self).bytes@, old(self).pos as int) && final(self).pos == old(self).pos + 4,
    {
        let at: usize = self.pos;
        if self.skip(4) {
            let b = self.bytes;
            Some(
                b[at] as u32 * 0x100_0000 + b[at + 1] as u32 * 0x1_0000 + b[at + 2] as u32 * 0x100
                    + b[at + 3] as u32,
            )
        } else {
            None
        }
    }

    /// A signed big-endian integer of `width` bytes (4 in a version 1 block,
    /// 8 in a later one).
    fn signed(&mut self, width: usize) -> (res: Option<i64>)
        requires
            old(self).wf(),
            1 <= width <= 8,
        ensures
            final(self).wf(),
            final(self).bytes == old(self).bytes,
            res is Some == (old(self).pos + width <= old(self).bytes@.len()),
            res matches Some(v) ==> v == signed_be(
                old(self).bytes@.subrange(old(self).pos as int, old(self).pos + width),
            ) && final(self).pos == old(self).pos + width,
    {
        let at: usize = self.pos;
        if !self.skip(width as u64) {
            return None;
        }
        let b = self.bytes;
        let len: usize = b.len();
        let first: u8 = b[at];
        let mut v: i64 = if first >= 128 {
            first as i64 - 256
        } else {
            first as i64
        };
        let mut k: usize = 1;
        assert(b@.subrange(at as int, at + 1)[0] == first);
        while k < width
            invariant
                1 <= k <= width <= 8,
                at + width <= len == b@.len(),
                v == signed_be(b@.subrange(at as int, at + k)),
            decreases width - k,
        {
            let ghost s = b@.subrange(at as int, at + k);
            let ghost t = b@.subrange(at as int, at + k + 1);
            proof {
                lemma_signed_bounds(s);
                lemma_half_ranges();
                assert(half_range(k as nat) <= 0x80_0000_0000_0000);
                assert(t.drop_last() =~= s);
            }
            v = v * 256 + b[at + k] as i64;
            k = k + 1;
        }
        Some(v)
    }
}

/// Reads the header at the cursor.
fn read_header(cur: &mut Cursor) -> (res: Option<Header>)
    requires
        old(cur).wf(),
    ensures
        final(cur).wf(),
        final(cur).bytes == old(cur).bytes,
        res == header_at(old(cur).bytes@, old(cur).pos as int),
        res is Some ==> final(cur).pos == old(cur).pos + 44,
{
    let at: usize = cur.pos;
    let ghost b = cur.bytes@;
    if !cur.skip(4) {
        return None;
    }
    if !(cur.bytes[at] == 0x54 && cur.bytes[at + 1] == 0x5a && cur.bytes[at + 2] == 0x69
        && cur.bytes[at + 3] == 0x66) {
        proof {
            if b.subrange(at as int, at + 4) == magic() {
                assert(b.subrange(at as int, at + 4)[0] == 0x54);
                assert(b.subrange(at as int, at + 4)[1] == 0x5a);
                assert(b.subrange(at as int, at + 4)[2] == 0x69);
                assert(b.subrange(at as int, at + 4)[3] == 0x66);
            }
        }
        return None;
    }
    assert(b.subrange(at as int, at + 4) =~= magic());
    let version = cur.byte()?;
    if !cur.skip(15) {
        return None;
    }
    let isutcnt = cur.count()?;
    let isstdcnt = cur.count()?;
    let leapcnt = cur.count()?;
    let timecnt = cur.count()?;
    let typecnt = cur.count()?;
    let charcnt = cur.count()?;
    // Guard against a corrupt header asking for gigabytes: the counts must at
    // least be plausible for the bytes that there are.
    if timecnt as usize > cur.bytes.len() || typecnt as usize > cur.bytes.len() {
        return None;
    }
    Some(Header { version, isutcnt, isstdcnt, leapcnt, timecnt, typecnt, charcnt })
}

/// Reads the data block at the cursor; times take eight bytes in a wide block
/// and four in another.
fn read_block(cur: &mut Cursor, head: &Header, wide: bool) -> (res: Option<ZoneTable>)
    requires
        old(cur).wf(),
    ensures
        final(cur).wf(),
        final(cur).bytes == old(cur).bytes,
        ({
            let b = old(cur).bytes@;
            let block = Block { head: *head, at: old(cur).pos as int, wide };
            &&& res is Some == (block.end() <= b.len())
            &&& res matches Some(zone) ==> {
                &&& final(cur).pos == block.end()
                &&& zone.transitions@ == block.table(b, head.timecnt as int)
                &&& zone.fallback == block.standard_offset(b, 0)
            }
        }),
{
    let ghost b = cur.bytes@;
    let ghost block = Block { head: *head, at: cur.pos as int, wide };
    let width: usize = if wide {
        8
    } else {
        4
    };

    let mut times: Vec<i64> = Vec::new();
    let mut i: u32 = 0;
    while i < head.timecnt
        invariant
            cur.wf(),
            cur.bytes == old(cur).bytes,
            b == cur.bytes@,
            block == (Block { head: *head, at: old(cur).pos as int, wide }),
            width == block.width(),
            i <= head.timecnt,
            cur.pos == block.time_at(i as int),
            times@.len() == i,
            forall|k: int| 0 <= k < i ==> #[trigger] times@[k] == block.time(b, k),
        decreases head.timecnt - i,
    {
        let t = cur.signed(width)?;
        times.push(t);
        i = i + 1;
    }

    let mut indices: Vec<u8> = Vec::new();
    i = 0;
    while i < head.timecnt
        invariant
            cur.wf(),
            cur.bytes == old(cur).bytes,
            b == cur.bytes@,
            block == (Block { head: *head, at: old(cur).pos as int, wide }),
            i <= head.timecnt,
            cur.pos == block.time_at(head.timecnt as int) + i,
            indices@.len() == i,
            forall|k: int| 0 <= k < i ==> #[trigger] indices@[k] == block.index(b, k),
        decreases head.timecnt - i,
    {
        let index = cur.byte()?;
        indices.push(index);
        i = i + 1;
    }

    let mut types: Vec<LocalTimeType> = Vec::new();
    i = 0;
    while i < head.typecnt
        invariant
            cur.wf(),
            cur.bytes == old(cur).bytes,
            b == cur.bytes@,
            block == (Block { head: *head, at: old(cur).pos as int, wide }),
            i <= head.typecnt,
            cur.pos == block.types_at() + 6 * i,
            types@.len() == i,
            forall|k: int|
                0 <= k < i ==> (#[trigger] types@[k]).utoff == block.offset(b, k) && types@[k].is_dst
                    == block.is_dst(b, k),
        decreases head.typecnt - i,
    {
        let utoff = cur.signed(4)?;
        proof {
            lemma_signed_bounds(
                b.subrange(block.types_at() + 6 * i, block.types_at() + 6 * i + 4),
            );
            lemma_half_ranges();
        }
        let is_dst = cur.byte()? != 0;
        // The designation index; abbreviations are not needed here.
        let _ = cur.byte()?;
        types.push(LocalTimeType { utoff: utoff as i32, is_dst });
        i = i + 1;
    }

    let leap_bytes: u64 = if wide {
        head.leapcnt as u64 * 12
    } else {
        head.leapcnt as u64 * 8
    };
    if !cur.skip(head.charcnt as u64) || !cur.skip(leap_bytes) || !cur.skip(head.isstdcnt as u64)
        || !cur.skip(head.isutcnt as u64) {
        return None;
    }
    // Drop transitions whose type index is out of range rather than rejecting
    // the whole file; the remaining table is still usable.

    let mut transitions: Vec<(i64, i32)> = Vec::new();
    let mut n: usize = 0;
    while n < times.len()
        invariant
            n <= times@.len(),
            times@.len() == indices@.len() == head.timecnt,
            types@.len() == head.typecnt,
            block.head == *head,
            forall|k: int| 0 <= k < times@.len() ==> #[trigger] times@[k] == block.time(b, k),
            forall|k: int| 0 <= k < indices@.len() ==> #[trigger] indices@[k] == block.index(b, k),
            forall|k: int|
                0 <= k < types@.len() ==> (#[trigger] types@[k]).utoff == block.offset(b, k),
            transitions@ == block.table(b, n as int),
        decreases times@.len() - n,
    {
        let ty: usize = indices[n] as usize;
        if ty < types.len() {
            transitions.push((times[n], types[ty].utoff));
        }
        n = n + 1;
    }

    // Timestamps before the first transition use the first type that is not
    // daylight saving time; falling back to the first type covers files whose
    // types all are.
    let mut k: usize = 0;
    while k < types.len() && types[k].is_dst
        invariant
            k <= types@.len(),
            types@.len() == head.typecnt,
            block.head == *head,
            forall|k: int|
                0 <= k < types@.len() ==> (#[trigger] types@[k]).utoff == block.offset(b, k)
                    && types@[k].is_dst == block.is_dst(b, k),
            block.standard_offset(b, 0) == block.standard_offset(b, k as int),
        decreases types@.len() - k,
    {
        k = k + 1;
    }
    let fallback: i32 = if k < types.len() {
        types[k].utoff
    } else if types.len() > 0 {
        types[0].utoff
    } else {
        0
    };
    Some(ZoneTable { transitions, fallback })
}

/// Parses a zoneinfo file. `None` means that it is not one, or is truncated.
pub fn parse_zone(bytes: &[u8]) -> (res: Option<ZoneTable>)
    ensures
        res is Some == governing_block(bytes@) is Some,
        res matches Some(zone) ==> {
            let block = governing_block(bytes@)->0;
            &&& zone.transitions@ == block.table(bytes@, block.head.timecnt as int)
            &&& zone.fallback == block.standard_offset(bytes@, 0)
        },
{
    let mut cur = Cursor { bytes, pos: 0 };
    let head = read_header(&mut cur)?;
    let zone = read_block(&mut cur, &head, false)?;
    if head.version >= 0x32 {
        let head2 = read_header(&mut cur)?;
        read_block(&mut cur, &head2, true)
    } else {
        Some(zone)
    }
}

proof fn lemma_same_numbers(a: Seq<u8>, b: Seq<u8>, block: Block)
    requires
        a.len() == b.len(),
        block.at >= 0,
        block.end() <= a.len(),
        forall|i: int| block.at <= i < a.len() ==> a[i] == b[i],
    ensures
        forall|i: int| 0 <= i < block.head.timecnt ==> block.time(a, i) == #[trigger] block.time(b, i),
        forall|i: int|
            0 <= i < block.head.timecnt ==> block.index(a, i) == #[trigger] block.index(b, i),
        forall|i: int|
            0 <= i < block.head.typecnt ==> block.offset(a, i) == #[trigger] block.offset(b, i),
        forall|i: int|
            0 <= i < block.head.typecnt ==> block.is_dst(a, i) == #[trigger] block.is_dst(b, i),
{
    assert forall|i: int| 0 <= i < block.head.timecnt implies block.time(a, i)
        == #[trigger] block.time(b, i) by {
        let at = block.time_at(i);
        assert(a.subrange(at, at + block.width()) =~= b.subrange(at, at + block.width()));
    }
    assert forall|i: int| 0 <= i < block.head.typecnt implies block.offset(a, i)
        == #[trigger] block.offset(b, i) by {
        let at = block.types_at() + 6 * i;
        assert(a.subrange(at, at + 4) =~= b.subrange(at, at + 4));
    }
}

proof fn lemma_same_table(a: Seq<u8>, b: Seq<u8>, block: Block, n: int)
    requires
        a.len() == b.len(),
        block.at >= 0,
        block.end() <= a.len(),
        forall|i: int| block.at <= i < a.len() ==> a[i] == b[i],
        0 <= n <= block.head.timecnt,
    ensures
        block.table(a, n) == block.table(b, n),
    decreases n,
{
    if n > 0 {
        lemma_same_numbers(a, b, block);
        lemma_same_table(a, b, block, n - 1);
        assert(block.time(a, n - 1) == block.time(b, n - 1));
        assert(block.index(a, n - 1) == block.index(b, n - 1));
        let ty = block.index(b, n - 1);
        if ty < block.head.typecnt {
            assert(block.offset(a, ty) == block.offset(b, ty));
        }
    }
}

proof fn lemma_same_standard_offset(a: Seq<u8>, b: Seq<u8>, block: Block, i: int)
    requires
        a.len() == b.len(),
        block.at >= 0,
        block.end() <= a.len(),
        forall|i: int| block.at <= i < a.len() ==> a[i] == b[i],
        0 <= i <= block.head.typecnt,
    ensures
        block.standard_offset(a, i) == block.standard_offset(b, i),
    decreases block.head.typecnt - i,
{
    lemma_same_numbers(a, b, block);
    if i < block.head.typecnt {
        assert(block.is_dst(a, i) == block.is_dst(b, i));
        assert(block.offset(a, i) == block.offset(b, i));
        lemma_same_standard_offset(a, b, block, i + 1);
    } else if block.head.typecnt > 0 {
        assert(block.offset(a, 0) == block.offset(b, 0));
    }
}

/// In a version 2 or later file the first block only tells where the second
/// header begins: whatever else it holds, the zone is the same.
pub proof fn first_block_is_discarded(a: Seq<u8>, b: Seq<u8>, head: Header)
    requires
        a.len() == b.len(),
        header_at(a, 0) == Some(head),
        header_at(b, 0) == Some(head),
        head.version >= 0x32,
        ({
            let first = Block { head, at: 44, wide: false };
            forall|i: int| first.end() <= i < a.len() ==> a[i] == b[i]
        }),
    ensures
        governing_block(a) == governing_block(b),
        governing_block(a) matches Some(block) ==> {
            &&& block.table(a, block.head.timecnt as int) == block.table(
                b,
                block.head.timecnt as int,
            )
            &&& block.standard_offset(a, 0) == block.standard_offset(b, 0)
        },
{
    let first = Block { head, at: 44, wide: false };
    let e = first.end();
    if e + 44 <= a.len() {
        assert(a.subrange(e, e + 4) =~= b.subrange(e, e + 4));
        assert(header_at(a, e) == header_at(b, e));
    }
    if let Some(block) = governing_block(a) {
        lemma_same_table(a, b, block, block.head.timecnt as int);
        lemma_same_standard_offset(a, b, block, 0);
    }
}

/// Numbers are written with the most significant byte first, and signed ones in
/// two's complement.
pub proof fn numbers_are_big_endian(b: Seq<u8>)
    ensures
        b.len() == 4 ==> signed_be(b) == b[0] * 0x100_0000 + b[1] * 0x1_0000 + b[2] * 0x100 + b[3]
            - if b[0] >= 128 {
            0x1_0000_0000int
        } else {
            0int
        },
        b.len() == 8 ==> signed_be(b) == b[0] * 0x100_0000_0000_0000 + b[1] * 0x1_0000_0000_0000
            + b[2] * 0x100_0000_0000 + b[3] * 0x1_0000_0000 + b[4] * 0x100_0000 + b[5] * 0x1_0000
            + b[6] * 0x100 + b[7] - if b[0] >= 128 {
            0x1_0000_0000_0000_0000int
        } else {
            0int
        },
{
    if b.len() == 4 {
        lemma_signed_last(b, 3);
        lemma_signed_last(b, 2);
        lemma_signed_last(b, 1);
        assert(b.take(4) =~= b);
    }
    if b.len() == 8 {
        lemma_signed_last(b, 7);
        lemma_signed_last(b, 6);
        lemma_signed_last(b, 5);
        lemma_signed_last(b, 4);
        lemma_signed_last(b, 3);
        lemma_signed_last(b, 2);
        lemma_signed_last(b, 1);
        assert(b.take(8) =~= b);
    }
}

proof fn lemma_signed_last(b: Seq<u8>, k: int)
    requires
        1 <= k < b.len(),
    ensures
        signed_be(b.take(k + 1)) == signed_be(b.take(k)) * 256 + b[k],
        k == 1 ==> signed_be(b.take(1)) == b[0] - if b[0] >= 128 {
            256int
        } else {
            0int
        },
{
    assert(b.take(k + 1).drop_last() =~= b.take(k));
    assert(b.take(1)[0] == b[0]);
}

/// A header is 44 bytes: the letters `TZif`, a version, fifteen reserved bytes and
/// six big-endian counts. One that is there is found, unless the counts of
/// transitions or types are beyond the size of the file.
pub proof fn headers_are_laid_out(b: Seq<u8>, at: int)
    requires
        0 <= at,
    ensures
        header_at(b, at) is Some <==> {
            &&& at + 44 <= b.len()
            &&& b[at] == 0x54 && b[at + 1] == 0x5a && b[at + 2] == 0x69 && b[at + 3] == 0x66
            &&& b[at + 32] * 0x100_0000 + b[at + 33] * 0x1_0000 + b[at + 34] * 0x100 + b[at + 35]
                <= b.len()
            &&& b[at + 36] * 0x100_0000 + b[at + 37] * 0x1_0000 + b[at + 38] * 0x100 + b[at + 39]
                <= b.len()
        },
        header_at(b, at) matches Some(head) ==> {
            &&& head.version == b[at + 4]
            &&& head.isutcnt == b[at + 20] * 0x100_0000 + b[at + 21] * 0x1_0000 + b[at + 22] * 0x100
                + b[at + 23]
            &&& head.isstdcnt == b[at + 24] * 0x100_0000 + b[at + 25] * 0x1_0000 + b[at + 26]
                * 0x100 + b[at + 27]
            &&& head.leapcnt == b[at + 28] * 0x100_0000 + b[at + 29] * 0x1_0000 + b[at + 30] * 0x100
                + b[at + 31]
            &&& head.timecnt == b[at + 32] * 0x100_0000 + b[at + 33] * 0x1_0000 + b[at + 34] * 0x100
                + b[at + 35]
            &&& head.typecnt == b[at + 36] * 0x100_0000 + b[at + 37] * 0x1_0000 + b[at + 38] * 0x100
                + b[at + 39]
            &&& head.charcnt == b[at + 40] * 0x100_0000 + b[at + 41] * 0x1_0000 + b[at + 42] * 0x100
                + b[at + 43]
        },
{
    if at + 44 <= b.len() {
        let m = b.subrange(at, at + 4);
        assert(m[0] == b[at] && m[1] == b[at + 1] && m[2] == b[at + 2] && m[3] == b[at + 3]);
        if b[at] == 0x54 && b[at + 1] == 0x5a && b[at + 2] == 0x69 && b[at + 3] == 0x66 {
            assert(m =~= magic());
        }
    }
}

/// A block is laid out without gaps: the times, a type index per time, six bytes
/// per type (its offset, whether it is daylight saving time, a designation), the
/// designations, the leap second records and the two lists of indicators.
pub proof fn blocks_are_laid_out(b: Seq<u8>, block: Block, i: int)
    ensures
        ({
            let n = block.head.timecnt as int;
            let types = block.at + if block.wide {
                9 * n
            } else {
                5 * n
            };
            &&& block.wide ==> block.time(b, i) == signed_be(
                b.subrange(block.at + 8 * i, block.at + 8 * i + 8),
            )
            &&& !block.wide ==> block.time(b, i) == signed_be(
                b.subrange(block.at + 4 * i, block.at + 4 * i + 4),
            )
            &&& block.wide ==> block.index(b, i) == b[block.at + 8 * n + i]
            &&& !block.wide ==> block.index(b, i) == b[block.at + 4 * n + i]
            &&& block.offset(b, i) == signed_be(b.subrange(types + 6 * i, types + 6 * i + 4))
            &&& block.is_dst(b, i) <==> b[types + 6 * i + 4] != 0
            &&& block.end() == types + 6 * block.head.typecnt + block.head.charcnt
                + block.head.isstdcnt + block.head.isutcnt + if block.wide {
                12 * block.head.leapcnt
            } else {
                8 * block.head.leapcnt
            }
        }),
{
}

/// A file is read exactly when it is complete. A file of the first version is read
/// from the block behind its header; a later one from the wide block behind a
/// second header, which stands where the first block ends.
pub proof fn complete_files_are_read(b: Seq<u8>, head: Header, second: Header)
    ensures
        header_at(b, 0) is None ==> governing_block(b) is None,
        header_at(b, 0) == Some(head) ==> {
            let first = Block { head, at: 44, wide: false };
            let wide = Block { head: second, at: first.end() + 44, wide: true };
            &&& first.end() > b.len() ==> governing_block(b) is None
            &&& first.end() <= b.len() && head.version < 0x32 ==> governing_block(b) == Some(first)
            &&& first.end() <= b.len() && head.version >= 0x32 ==> {
                &&& header_at(b, first.end()) is None ==> governing_block(b) is None
                &&& header_at(b, first.end()) == Some(second) && wide.end() > b.len()
                    ==> governing_block(b) is None
                &&& header_at(b, first.end()) == Some(second) && wide.end() <= b.len()
                    ==> governing_block(b) == Some(wide)
            }
        },
{
}

/// Whether the `i`th transition has a type.
pub open spec fn has_type(block: Block, b: Seq<u8>, i: int) -> bool {
    block.index(b, i) < block.head.typecnt
}

/// The table keeps every transition that has a type, whenever it was, in the order
/// of the file and with the offset of its type, and nothing else. `kept` lists
/// the places of those transitions.
pub proof fn every_typed_transition_is_kept(block: Block, b: Seq<u8>, n: int) -> (kept: Seq<int>)
    requires
        0 <= n,
    ensures
        block.table(b, n).len() == kept.len(),
        forall|j: int| 0 <= j < kept.len() ==> 0 <= #[trigger] kept[j] < n && has_type(block, b, kept[j])
            && block.table(b, n)[j] == (
            block.time(b, kept[j]) as i64,
            block.offset(b, block.index(b, kept[j])) as i32,
        ),
        forall|j: int, k: int| 0 <= j < k < kept.len() ==> #[trigger] kept[j] < #[trigger] kept[k],
        forall|i: int| 0 <= i < n && #[trigger] has_type(block, b, i) ==> kept.contains(i),
        (forall|i: int| 0 <= i < n ==> #[trigger] has_type(block, b, i)) ==> kept.len() == n
            && forall|i: int| 0 <= i < n ==> #[trigger] kept[i] == i,
    decreases n,
{
    if n == 0 {
        Seq::empty()
    } else {
        let before = every_typed_transition_is_kept(block, b, n - 1);
        let kept = if has_type(block, b, n - 1) {
            before.push(n - 1)
        } else {
            before
        };
        assert forall|i: int| 0 <= i < n && #[trigger] has_type(block, b, i) implies kept.contains(i) by {
            if i < n - 1 {
                let k = choose|k: int| 0 <= k < before.len() && before[k] == i;
                assert(kept[k] == i);
            } else {
                assert(kept[before.len() as int] == i);
            }
        }
        assert forall|j: int| 0 <= j < kept.len() implies 0 <= #[trigger] kept[j] < n && has_type(
            block,
            b,
            kept[j],
        ) && block.table(b, n)[j] == (
            block.time(b, kept[j]) as i64,
            block.offset(b, block.index(b, kept[j])) as i32,
        ) by {
            if j < before.len() {
                assert(kept[j] == before[j]);
            }
        }
        assert forall|j: int, k: int| 0 <= j < k < kept.len() implies #[trigger] kept[j]
            < #[trigger] kept[k] by {
            assert(kept[j] == before[j]);
            if k < before.len() {
                assert(kept[k] == before[k]);
            }
        }
        if forall|i: int| 0 <= i < n ==> #[trigger] has_type(block, b, i) {
            assert(has_type(block, b, n - 1));
        }
        kept
    }
}

/// Before the first transition the first type that is not daylight saving time
/// counts, or else the first type of all, or else UTC.
pub proof fn first_standard_type_counts(block: Block, b: Seq<u8>, k: int)
    requires
        0 <= k <= block.head.typecnt,
        forall|i: int| 0 <= i < k ==> #[trigger] block.is_dst(b, i),
        k < block.head.typecnt ==> !block.is_dst(b, k),
    ensures
        k < block.head.typecnt ==> block.standard_offset(b, 0) == block.offset(b, k),
        k == block.head.typecnt && k > 0 ==> block.standard_offset(b, 0) == block.offset(b, 0),
        block.head.typecnt == 0 ==> block.standard_offset(b, 0) == 0,
{
    lemma_standard_from(block, b, 0, k);
}

proof fn lemma_standard_from(block: Block, b: Seq<u8>, i: int, k: int)
    requires
        0 <= i <= k <= block.head.typecnt,
        forall|i: int| 0 <= i < k ==> #[trigger] block.is_dst(b, i),
        k < block.head.typecnt ==> !block.is_dst(b, k),
    ensures
        block.standard_offset(b, i) == block.standard_offset(b, k),
    decreases k - i,
{
    if i < k {
        assert(block.is_dst(b, i));
        lemma_standard_from(block, b, i + 1, k);
    }
}

/// Times and offsets fit their types.
pub(crate) proof fn lemma_numbers_fit(block: Block, b: Seq<u8>, i: int, ty: int)
    requires
        block.end() <= b.len(),
        block.at >= 0,
        0 <= i < block.head.timecnt,
        0 <= ty < block.head.typecnt,
    ensures
        i64::MIN <= block.time(b, i) <= i64::MAX,
        i32::MIN <= block.offset(b, ty) <= i32::MAX,
{
    lemma_half_ranges();
    let at = block.time_at(i);
    lemma_signed_bounds(b.subrange(at, at + block.width()));
    let ot = block.types_at() + 6 * ty;
    lemma_signed_bounds(b.subrange(ot, ot + 4));
}

/// The block that a file is read from lies inside the file.
pub(crate) proof fn lemma_block_inside(b: Seq<u8>)
    ensures
        governing_block(b) matches Some(block) ==> 44 <= block.at && block.end() <= b.len(),
{
}

} // verus!
