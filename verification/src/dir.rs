//! Directory blocks: a chain of records, each with the number of an inode,
//! its own length, and a name. A record whose inode is 0 is an unused slot.

use crate::bytes::{
    copy_into, le16, le32, lemma_le16_unique, lemma_le32_unique, lemma_put16, lemma_put32, put16,
    put32, read_u16, read_u32, same_outside, splice, write_u16, write_u32,
};
use crate::error::Ext2Error;
use vstd::prelude::*;

verus! {

/// One live record of a directory, as contracts see it.
pub struct EntryView {
    /// The inode that the name stands for.
    pub inode: u32,
    /// The length of the whole record.
    pub rec_len: u16,
    /// The code of the inode's type.
    pub file_type: u8,
    /// The name.
    pub name: Seq<u8>,
}

/// One live record of a directory.
#[derive(Debug)]
pub struct DirectoryEntry {
    /// The inode that the name stands for.
    pub inode: u32,
    /// The length of the whole record.
    pub rec_len: u16,
    /// The length of the name.
    pub name_len: u8,
    /// The code of the inode's type.
    pub file_type: u8,
    /// The name.
    pub name: Vec<u8>,
}

impl View for DirectoryEntry {
    type V = EntryView;

    open spec fn view(&self) -> EntryView {
        EntryView {
            inode: self.inode,
            rec_len: self.rec_len,
            file_type: self.file_type,
            name: self.name@,
        }
    }
}

/// The views of a list of entries.
pub open spec fn views(v: Seq<DirectoryEntry>) -> Seq<EntryView> {
    v.map_values(|e: DirectoryEntry| e@)
}

/// `n` rounded up to a multiple of 4.
pub open spec fn align4(n: int) -> int {
    (n + 3) / 4 * 4
}

/// The inode field of the record at `off`.
pub open spec fn slot_inode(s: Seq<u8>, off: int) -> int {
    le32(s, off)
}

/// The length field of the record at `off`.
pub open spec fn slot_len(s: Seq<u8>, off: int) -> int {
    le16(s, off + 4)
}

/// The name length field of the record at `off`.
pub open spec fn slot_name_len(s: Seq<u8>, off: int) -> int {
    s[off + 6] as int
}

/// The name of the record at `off`.
pub open spec fn slot_name(s: Seq<u8>, off: int) -> Seq<u8> {
    s.subrange(off + 8, off + 8 + slot_name_len(s, off))
}

/// The record at `off` is sound: its header and its whole length lie in the
/// block, the length is a multiple of 4 and at least the header, and a live
/// record is long enough for its name.
pub open spec fn slot_ok(s: Seq<u8>, off: int) -> bool {
    &&& 0 <= off
    &&& off + 8 <= s.len()
    &&& slot_len(s, off) >= 8
    &&& slot_len(s, off) % 4 == 0
    &&& off + slot_len(s, off) <= s.len()
    &&& (slot_inode(s, off) != 0 ==> 8 + slot_name_len(s, off) <= slot_len(s, off))
}

/// From `off` on the block is a chain of sound records that ends exactly at
/// the end of the block.
pub open spec fn chain_ok(s: Seq<u8>, off: int) -> bool
    decreases s.len() - off,
{
    if off >= s.len() {
        off == s.len()
    } else if slot_ok(s, off) {
        chain_ok(s, off + slot_len(s, off))
    } else {
        false
    }
}

/// The record at `off` as an entry.
pub open spec fn entry_at(s: Seq<u8>, off: int) -> EntryView {
    EntryView {
        inode: slot_inode(s, off) as u32,
        rec_len: slot_len(s, off) as u16,
        file_type: s[off + 7],
        name: slot_name(s, off),
    }
}

/// The live records of the chain from `off` on, in their order.
pub open spec fn entries_from(s: Seq<u8>, off: int) -> Seq<EntryView>
    decreases s.len() - off,
{
    if off >= s.len() || !slot_ok(s, off) {
        Seq::empty()
    } else if slot_inode(s, off) != 0 {
        seq![entry_at(s, off)] + entries_from(s, off + slot_len(s, off))
    } else {
        entries_from(s, off + slot_len(s, off))
    }
}

/// The lengths of all records of the chain from `off` on, added up.
pub open spec fn chain_len(s: Seq<u8>, off: int) -> int
    decreases s.len() - off,
{
    if off >= s.len() || !slot_ok(s, off) {
        0
    } else {
        slot_len(s, off) + chain_len(s, off + slot_len(s, off))
    }
}

/// Whether the chain from `off` on has an unused slot.
pub open spec fn has_unused(s: Seq<u8>, off: int) -> bool
    decreases s.len() - off,
{
    if off >= s.len() || !slot_ok(s, off) {
        false
    } else {
        slot_inode(s, off) == 0 || has_unused(s, off + slot_len(s, off))
    }
}

/// The lengths of the entries of a list, added up.
pub open spec fn total_len(es: Seq<EntryView>) -> int
    decreases es.len(),
{
    if es.len() == 0 {
        0
    } else {
        es[0].rec_len + total_len(es.subrange(1, es.len() as int))
    }
}

/// The records of a sound chain fill the block: their lengths add up to what
/// lies between the start of the chain and the end of the block.
pub proof fn lemma_chain_fills_block(s: Seq<u8>, off: int)
    requires
        0 <= off <= s.len(),
        chain_ok(s, off),
    ensures
        chain_len(s, off) == s.len() - off,
    decreases s.len() - off,
{
    if off < s.len() {
        lemma_chain_fills_block(s, off + slot_len(s, off));
    }
}

/// In a sound block without unused slots the lengths of the entries add up
/// to the size of the block.
pub proof fn lemma_entries_fill_block(s: Seq<u8>, off: int)
    requires
        0 <= off <= s.len(),
        chain_ok(s, off),
        !has_unused(s, off),
    ensures
        total_len(entries_from(s, off)) == s.len() - off,
    decreases s.len() - off,
{
    if off < s.len() {
        let next = off + slot_len(s, off);
        lemma_entries_fill_block(s, next);
        let es = entries_from(s, off);
        crate::bytes::lemma_le16_unique(s, off + 4, s, off + 4);
        assert(es.subrange(1, es.len() as int) =~= entries_from(s, next));
    } else {
        assert(entries_from(s, off).len() == 0);
    }
}

/// Whether the records of the block form a sound chain.
pub fn check_chain(block: &[u8]) -> (ok: bool)
    ensures
        ok == chain_ok(block@, 0),
{
    let n = block.len();
    let mut off: usize = 0;
    while off < n
        invariant
            off <= n,
            n == block@.len(),
            chain_ok(block@, 0) == chain_ok(block@, off as int),
        decreases n - off,
    {
        if !check_slot(block, off) {
            return false;
        }
        off = off + read_u16(block, off + 4) as usize;
    }
    true
}

/// Whether the record at `off` is sound.
pub fn check_slot(block: &[u8], off: usize) -> (ok: bool)
    requires
        off <= block@.len(),
    ensures
        ok == slot_ok(block@, off as int),
{
    let n = block.len();
    if n - off < 8 {
        return false;
    }
    let len = read_u16(block, off + 4) as usize;
    if len < 8 || len % 4 != 0 || len > n - off {
        return false;
    }
    let inode = read_u32(block, off);
    inode == 0 || 8 + block[off + 6] as usize <= len
}

/// The live records of a directory block, in their order; `CorruptLayout`
/// where the records do not form a sound chain.
pub fn entries(block: &[u8]) -> (r: Result<Vec<DirectoryEntry>, Ext2Error>)
    ensures
        match r {
            Ok(list) => chain_ok(block@, 0) && views(list@) == entries_from(block@, 0),
            Err(e) => e == Ext2Error::CorruptLayout && !chain_ok(block@, 0),
        },
{
    if !check_chain(block) {
        return Err(Ext2Error::CorruptLayout);
    }
    let n = block.len();
    let mut list: Vec<DirectoryEntry> = Vec::new();
    let mut off: usize = 0;
    assert(views(list@) =~= Seq::<EntryView>::empty());
    while off < n
        invariant
            off <= n,
            n == block@.len(),
            chain_ok(block@, off as int),
            entries_from(block@, 0) == views(list@) + entries_from(block@, off as int),
        decreases n - off,
    {
        let len = read_u16(block, off + 4);
        let inode = read_u32(block, off);
        let ghost before = views(list@);
        if inode != 0 {
            let name_len = block[off + 6];
            let name = crate::bytes::copy_range(block, off + 8, name_len as usize);
            let file_type = block[off + 7];
            let e = DirectoryEntry { inode, rec_len: len, name_len, file_type, name };
            proof {
                crate::bytes::lemma_le16_unique(block@, off + 4, block@, off + 4);
                crate::bytes::lemma_le32_unique(block@, off as int, block@, off as int);
                assert(e@ == entry_at(block@, off as int));
            }
            list.push(e);
            assert(views(list@) =~= before + seq![entry_at(block@, off as int)]);
            assert(views(list@) + entries_from(block@, off + len) =~= before + (seq![
                entry_at(block@, off as int),
            ] + entries_from(block@, off + len)));
        }
        off = off + len as usize;
    }
    assert(entries_from(block@, n as int) =~= Seq::<EntryView>::empty());
    assert(views(list@) + entries_from(block@, n as int) =~= views(list@));
    Ok(list)
}

/// The room that the record at `off` can give away: all of an unused slot,
/// or what a live record has beyond its own name.
pub open spec fn slot_room(s: Seq<u8>, off: int) -> int {
    if slot_inode(s, off) == 0 {
        slot_len(s, off)
    } else {
        slot_len(s, off) - align4(8 + slot_name_len(s, off))
    }
}

/// The first record of the chain from `off` on that can give away `needed`
/// bytes.
pub open spec fn first_fit(s: Seq<u8>, off: int, needed: int) -> Option<int>
    decreases s.len() - off,
{
    if off >= s.len() || !slot_ok(s, off) {
        None
    } else if slot_room(s, off) >= needed {
        Some(off)
    } else {
        first_fit(s, off + slot_len(s, off), needed)
    }
}

/// The block with a record written at `off`: header, then name.
pub open spec fn with_entry(
    s: Seq<u8>,
    off: int,
    inode: u32,
    len: int,
    file_type: u8,
    name: Seq<u8>,
) -> Seq<u8> {
    splice(
        put16(put32(s, off, inode as int), off + 4, len).update(off + 6, name.len() as u8).update(
            off + 7,
            file_type,
        ),
        off + 8,
        name,
    )
}

/// The block after an entry went into the record at `at`: an unused slot is
/// taken whole; a live record is cut down to what its name needs and the new
/// entry gets the rest.
pub open spec fn inserted(s: Seq<u8>, at: int, inode: u32, file_type: u8, name: Seq<u8>) -> Seq<
    u8,
> {
    if slot_inode(s, at) == 0 {
        with_entry(s, at, inode, slot_len(s, at), file_type, name)
    } else {
        let used = align4(8 + slot_name_len(s, at));
        with_entry(
            put16(s, at + 4, used),
            at + used,
            inode,
            slot_len(s, at) - used,
            file_type,
            name,
        )
    }
}

/// The first live record of the chain from `off` on that has the name, with
/// the record before it in the block, if there is one.
pub open spec fn find_from(s: Seq<u8>, off: int, prev: Option<int>, name: Seq<u8>) -> Option<
    (Option<int>, int),
>
    decreases s.len() - off,
{
    if off >= s.len() || !slot_ok(s, off) {
        None
    } else if slot_inode(s, off) != 0 && slot_name(s, off) == name {
        Some((prev, off))
    } else {
        find_from(s, off + slot_len(s, off), Some(off), name)
    }
}

/// The block after the record at `at` was removed: its inode field is zero,
/// and the record before it, if there is one and the sum fits its field, has
/// grown by the removed record's length.
pub open spec fn removed(s: Seq<u8>, prev: Option<int>, at: int) -> Seq<u8> {
    let t = put32(s, at, 0);
    match prev {
        Some(p) => if slot_len(s, p) + slot_len(s, at) <= 0xffff {
            put16(t, p + 4, slot_len(s, p) + slot_len(s, at))
        } else {
            t
        },
        None => t,
    }
}

/// What a written record holds, and that nothing else changed.
pub proof fn lemma_with_entry(
    s: Seq<u8>,
    off: int,
    inode: u32,
    len: int,
    file_type: u8,
    name: Seq<u8>,
)
    requires
        0 <= off,
        off + 8 + name.len() <= s.len(),
        name.len() <= 255,
        0 <= len <= 0xffff,
    ensures
        ({
            let t = with_entry(s, off, inode, len, file_type, name);
            &&& t.len() == s.len()
            &&& slot_inode(t, off) == inode
            &&& slot_len(t, off) == len
            &&& slot_name_len(t, off) == name.len()
            &&& t[off + 7] == file_type
            &&& slot_name(t, off) == name
            &&& same_outside(t, s, off, off + 8 + name.len())
        }),
{
    let a = put32(s, off, inode as int);
    lemma_put32(s, off, inode as int);
    let b = put16(a, off + 4, len);
    lemma_put16(a, off + 4, len);
    let c = b.update(off + 6, name.len() as u8).update(off + 7, file_type);
    let t = splice(c, off + 8, name);
    assert(slot_name(t, off) =~= name);
    assert(t[off] == a[off] && t[off + 1] == a[off + 1] && t[off + 2] == a[off + 2] && t[off + 3]
        == a[off + 3]);
    assert(t[off + 4] == b[off + 4] && t[off + 5] == b[off + 5]);
}

/// Whether a chain is sound from `off` on depends on the bytes from `off` on
/// only, and so do its entries.
pub proof fn lemma_chain_tail(s: Seq<u8>, t: Seq<u8>, off: int)
    requires
        0 <= off,
        s.len() == t.len(),
        forall|j: int| off <= j < s.len() ==> s[j] == t[j],
    ensures
        chain_ok(s, off) == chain_ok(t, off),
        entries_from(s, off) == entries_from(t, off),
    decreases s.len() - off,
{
    if off < s.len() && off + 8 <= s.len() {
        if slot_ok(s, off) {
            assert(slot_ok(t, off));
            if slot_inode(s, off) != 0 {
                assert(slot_name(s, off) =~= slot_name(t, off));
            }
            lemma_chain_tail(s, t, off + slot_len(s, off));
        }
    }
}

/// A chain that is sound stays sound when an entry goes into its first
/// record with room.
pub proof fn lemma_insert_sound(
    s: Seq<u8>,
    off: int,
    at: int,
    inode: u32,
    file_type: u8,
    name: Seq<u8>,
)
    requires
        0 <= off,
        chain_ok(s, off),
        name.len() <= 255,
        inode != 0,
        first_fit(s, off, align4(8 + name.len() as int)) == Some(at),
    ensures
        off <= at < s.len(),
        slot_ok(s, at),
        slot_room(s, at) >= align4(8 + name.len() as int),
        inserted(s, at, inode, file_type, name).len() == s.len(),
        chain_ok(inserted(s, at, inode, file_type, name), off),
        same_outside(inserted(s, at, inode, file_type, name), s, at, at + slot_len(s, at)),
    decreases s.len() - off,
{
    let needed = align4(8 + name.len() as int);
    let t = inserted(s, at, inode, file_type, name);
    let len = slot_len(s, off);
    lemma_le16_unique(s, off + 4, s, off + 4);
    if slot_room(s, off) >= needed {
        // The entry goes in here.
        if slot_inode(s, off) == 0 {
            lemma_with_entry(s, off, inode, len, file_type, name);
            lemma_chain_tail(s, t, off + len);
        } else {
            let used = align4(8 + slot_name_len(s, off));
            let mid = put16(s, off + 4, used);
            lemma_put16(s, off + 4, used);
            lemma_with_entry(mid, off + used, inode, len - used, file_type, name);
            assert(slot_inode(t, off) == slot_inode(s, off));
            assert(slot_len(t, off) == used);
            assert(slot_ok(t, off));
            assert(slot_ok(t, off + used));
            lemma_chain_tail(s, t, off + len);
            assert(chain_ok(t, off + used));
        }
    } else {
        lemma_insert_sound(s, off + len, at, inode, file_type, name);
        assert(slot_ok(t, off));
    }
}

/// A chain that is sound stays sound when a record is removed from it.
pub proof fn lemma_remove_sound(s: Seq<u8>, off: int, prev: Option<int>, name: Seq<u8>)
    requires
        0 <= off,
        chain_ok(s, off),
        prev matches Some(p) ==> 0 <= p && slot_ok(s, p) && p + slot_len(s, p) == off,
        find_from(s, off, prev, name) is Some,
    ensures
        ({
            let (pp, at) = find_from(s, off, prev, name)->0;
            let t = removed(s, pp, at);
            &&& off <= at < s.len()
            &&& slot_ok(s, at)
            &&& (pp matches Some(q) ==> 0 <= q < at && slot_ok(s, q) && q + slot_len(s, q) == at
                && (prev matches Some(p) ==> p <= q))
            &&& (pp matches Some(q) ==> at == off || off <= q)
            &&& (at == off ==> pp == prev)
            &&& (pp is None ==> prev is None && at == off)
            &&& t.len() == s.len()
            &&& chain_ok(t, if prev is Some { prev->0 } else { off })
            &&& same_outside(t, s, if pp is Some { pp->0 + 4 } else { at }, at + 4)
        }),
    decreases s.len() - off,
{
    let (pp, at) = find_from(s, off, prev, name)->0;
    let t = removed(s, pp, at);
    let len = slot_len(s, off);
    lemma_le16_unique(s, off + 4, s, off + 4);
    if slot_inode(s, off) != 0 && slot_name(s, off) == name {
        let z = put32(s, off, 0);
        lemma_put32(s, off, 0);
        match prev {
            Some(p) => {
                lemma_le16_unique(s, p + 4, s, p + 4);
                let sum = slot_len(s, p) + len;
                if sum <= 0xffff {
                    lemma_put16(z, p + 4, sum);
                    assert(slot_inode(t, p) == slot_inode(s, p));
                    assert(slot_name_len(t, p) == slot_name_len(s, p));
                    assert(slot_len(t, p) == sum);
                    assert(slot_ok(t, p));
                    lemma_chain_tail(s, t, off + len);
                } else {
                    assert(slot_len(t, off) == len);
                    assert(slot_ok(t, off));
                    assert(slot_inode(t, p) == slot_inode(s, p));
                    assert(slot_len(t, p) == slot_len(s, p));
                    assert(slot_name_len(t, p) == slot_name_len(s, p));
                    assert(slot_ok(t, p));
                    lemma_chain_tail(s, t, off + len);
                    assert(chain_ok(t, off));
                }
            },
            None => {
                assert(slot_len(t, off) == len);
                assert(slot_ok(t, off));
                lemma_chain_tail(s, t, off + len);
            },
        }
    } else {
        lemma_remove_sound(s, off + len, Some(off), name);
        match prev {
            Some(p) => {
                assert(slot_inode(t, p) == slot_inode(s, p));
                assert(slot_len(t, p) == slot_len(s, p));
                assert(slot_name_len(t, p) == slot_name_len(s, p));
                assert(slot_ok(t, p));
            },
            None => {},
        }
    }
}

/// Where a search ended, if it found a record.
pub open spec fn found_at(r: Option<(Option<int>, int)>) -> Option<int> {
    match r {
        Some((_, at)) => Some(at),
        None => None,
    }
}

/// What `name` stands for in the block: the inode and the type code of the
/// first live record with the name.
pub open spec fn named(s: Seq<u8>, name: Seq<u8>) -> Option<(u32, u8)> {
    match find_from(s, 0, None, name) {
        Some((_, at)) => Some((slot_inode(s, at) as u32, s[at + 7])),
        None => None,
    }
}

/// Where a search from `off` on ends depends on the bytes from `off` on
/// only.
pub proof fn lemma_find_tail(
    s: Seq<u8>,
    t: Seq<u8>,
    off: int,
    ps: Option<int>,
    pt: Option<int>,
    name: Seq<u8>,
)
    requires
        0 <= off,
        s.len() == t.len(),
        chain_ok(s, off),
        forall|j: int| off <= j < s.len() ==> s[j] == t[j],
    ensures
        found_at(find_from(s, off, ps, name)) == found_at(find_from(t, off, pt, name)),
    decreases s.len() - off,
{
    if off < s.len() {
        assert(slot_ok(t, off));
        if slot_inode(s, off) != 0 {
            assert(slot_name(s, off) =~= slot_name(t, off));
        }
        lemma_find_tail(s, t, off + slot_len(s, off), Some(off), Some(off), name);
    }
}

/// The record at `off` is the same in both blocks: the same inode, length,
/// type and, where it is live, name.
pub open spec fn same_slot(s: Seq<u8>, t: Seq<u8>, off: int) -> bool {
    &&& slot_inode(t, off) == slot_inode(s, off)
    &&& slot_len(t, off) == slot_len(s, off)
    &&& slot_name_len(t, off) == slot_name_len(s, off)
    &&& t[off + 7] == s[off + 7]
    &&& slot_ok(t, off) == slot_ok(s, off)
    &&& (slot_inode(s, off) != 0 && slot_ok(s, off) ==> slot_name(t, off) == slot_name(s, off))
}

/// A sound record that lies before the bytes that changed is the same in
/// both blocks.
pub proof fn lemma_slot_kept(s: Seq<u8>, t: Seq<u8>, off: int, lo: int, hi: int)
    requires
        0 <= off,
        slot_ok(s, off),
        same_outside(t, s, lo, hi),
        off + slot_len(s, off) <= lo,
    ensures
        same_slot(s, t, off),
{
    if slot_inode(s, off) != 0 {
        assert(slot_name(t, off) =~= slot_name(s, off));
    }
}

/// What an entry that goes into an unused slot leaves there.
pub proof fn lemma_insert_unused(s: Seq<u8>, at: int, inode: u32, file_type: u8, name: Seq<u8>)
    requires
        0 <= at,
        slot_ok(s, at),
        slot_inode(s, at) == 0,
        name.len() <= 255,
        slot_len(s, at) >= align4(8 + name.len() as int),
    ensures
        ({
            let t = inserted(s, at, inode, file_type, name);
            &&& t.len() == s.len()
            &&& slot_inode(t, at) == inode
            &&& slot_len(t, at) == slot_len(s, at)
            &&& slot_name(t, at) == name
            &&& t[at + 7] == file_type
            &&& (inode != 0 ==> slot_ok(t, at))
            &&& forall|j: int| at + slot_len(s, at) <= j < s.len() ==> s[j] == t[j]
        }),
{
    lemma_le16_unique(s, at + 4, s, at + 4);
    lemma_with_entry(s, at, inode, slot_len(s, at), file_type, name);
}

/// What an entry that goes behind a live record leaves there: the record,
/// cut down to what its name needs, and the entry in the rest.
pub proof fn lemma_insert_split(s: Seq<u8>, at: int, inode: u32, file_type: u8, name: Seq<u8>)
    requires
        0 <= at,
        slot_ok(s, at),
        slot_inode(s, at) != 0,
        name.len() <= 255,
        slot_room(s, at) >= align4(8 + name.len() as int),
    ensures
        ({
            let t = inserted(s, at, inode, file_type, name);
            let used = align4(8 + slot_name_len(s, at));
            &&& t.len() == s.len()
            &&& slot_inode(t, at) == slot_inode(s, at)
            &&& slot_len(t, at) == used
            &&& slot_name(t, at) == slot_name(s, at)
            &&& t[at + 7] == s[at + 7]
            &&& slot_ok(t, at)
            &&& slot_inode(t, at + used) == inode
            &&& slot_len(t, at + used) == slot_len(s, at) - used
            &&& slot_name(t, at + used) == name
            &&& t[at + used + 7] == file_type
            &&& (inode != 0 ==> slot_ok(t, at + used))
            &&& forall|j: int| at + slot_len(s, at) <= j < s.len() ==> s[j] == t[j]
        }),
{
    let len = slot_len(s, at);
    let used = align4(8 + slot_name_len(s, at));
    lemma_le16_unique(s, at + 4, s, at + 4);
    let mid = put16(s, at + 4, used);
    lemma_put16(s, at + 4, used);
    lemma_with_entry(mid, at + used, inode, len - used, file_type, name);
    let t = inserted(s, at, inode, file_type, name);
    assert(slot_name(t, at) =~= slot_name(s, at));
}

/// After an entry went into a block, every other name stands for what it
/// stood for, and the entry's name, where it stood for nothing, stands for
/// the entry's inode.
pub proof fn lemma_insert_find(
    s: Seq<u8>,
    off: int,
    prev: Option<int>,
    at: int,
    inode: u32,
    file_type: u8,
    name: Seq<u8>,
    q: Seq<u8>,
)
    requires
        0 <= off,
        chain_ok(s, off),
        name.len() <= 255,
        inode != 0,
        first_fit(s, off, align4(8 + name.len() as int)) == Some(at),
    ensures
        ({
            let t = inserted(s, at, inode, file_type, name);
            let before = find_from(s, off, prev, q);
            let after = find_from(t, off, prev, q);
            &&& q != name ==> found_at(after) == found_at(before)
            &&& q != name ==> (before matches Some((_, p)) ==> slot_inode(t, p) == slot_inode(s, p)
                && t[p + 7] == s[p + 7])
            &&& q == name && before is None ==> (after matches Some((_, p)) && slot_inode(t, p)
                == inode && t[p + 7] == file_type)
        }),
    decreases s.len() - off,
{
    let needed = align4(8 + name.len() as int);
    let t = inserted(s, at, inode, file_type, name);
    let len = slot_len(s, off);
    if slot_room(s, off) >= needed {
        // The entry goes in here.
        if slot_inode(s, off) == 0 {
            lemma_insert_unused(s, off, inode, file_type, name);
            lemma_find_tail(s, t, off + len, Some(off), Some(off), q);
            lemma_tail_fields(s, t, off + len, Some(off), q);
        } else {
            let used = align4(8 + slot_name_len(s, off));
            lemma_insert_split(s, off, inode, file_type, name);
            lemma_find_tail(s, t, off + len, Some(off), Some(off + used), q);
            lemma_tail_fields(s, t, off + len, Some(off), q);
            assert(find_from(t, off, prev, q) == if slot_name(s, off) == q {
                Some((prev, off))
            } else {
                find_from(t, off + used, Some(off), q)
            });
        }
    } else {
        lemma_insert_sound(s, off + len, at, inode, file_type, name);
        lemma_slot_kept(s, t, off, at, at + slot_len(s, at));
        lemma_insert_find(s, off + len, Some(off), at, inode, file_type, name, q);
    }
}

/// A record found from `off` on has the inode and the type that it has in
/// any block with the same bytes from `off` on.
pub proof fn lemma_tail_fields(s: Seq<u8>, t: Seq<u8>, off: int, prev: Option<int>, q: Seq<u8>)
    requires
        0 <= off,
        s.len() == t.len(),
        chain_ok(s, off),
        forall|j: int| off <= j < s.len() ==> s[j] == t[j],
    ensures
        find_from(s, off, prev, q) matches Some((_, p)) ==> off <= p && p + 8 <= s.len()
            && slot_inode(t, p) == slot_inode(s, p) && t[p + 7] == s[p + 7],
    decreases s.len() - off,
{
    if off < s.len() {
        lemma_tail_fields(s, t, off + slot_len(s, off), Some(off), q);
    }
}

/// What removing the record at `at` leaves there and in the record before
/// it.
pub proof fn lemma_removed_here(s: Seq<u8>, prev: Option<int>, at: int)
    requires
        0 <= at,
        slot_ok(s, at),
        prev matches Some(p) ==> 0 <= p && slot_ok(s, p) && p + slot_len(s, p) == at,
    ensures
        ({
            let t = removed(s, prev, at);
            let len = slot_len(s, at);
            &&& t.len() == s.len()
            &&& forall|j: int| at + len <= j < s.len() ==> s[j] == t[j]
            &&& same_outside(t, s, if prev is Some { prev->0 + 4 } else { at }, at + 4)
            &&& match prev {
                Some(p) => {
                    &&& slot_inode(t, p) == slot_inode(s, p)
                    &&& slot_name_len(t, p) == slot_name_len(s, p)
                    &&& t[p + 7] == s[p + 7]
                    &&& slot_ok(t, p)
                    &&& (slot_inode(s, p) != 0 ==> slot_name(t, p) == slot_name(s, p))
                    &&& if slot_len(s, p) + len <= 0xffff {
                        slot_len(t, p) == slot_len(s, p) + len
                    } else {
                        &&& slot_len(t, p) == slot_len(s, p)
                        &&& slot_inode(t, at) == 0
                        &&& slot_len(t, at) == len
                        &&& slot_ok(t, at)
                    }
                },
                None => {
                    &&& slot_inode(t, at) == 0
                    &&& slot_len(t, at) == len
                    &&& slot_ok(t, at)
                },
            }
        }),
{
    let len = slot_len(s, at);
    lemma_le16_unique(s, at + 4, s, at + 4);
    let z = put32(s, at, 0);
    lemma_put32(s, at, 0);
    match prev {
        Some(p) => {
            lemma_le16_unique(s, p + 4, s, p + 4);
            let sum = slot_len(s, p) + len;
            if sum <= 0xffff {
                lemma_put16(z, p + 4, sum);
            }
            let t = removed(s, prev, at);
            if slot_inode(s, p) != 0 {
                assert(slot_name(t, p) =~= slot_name(s, p));
            }
        },
        None => {},
    }
}

/// After a record that lies behind `off` was removed, a search from `off`
/// on finds every other name where it found it, and does not find the
/// record's name where no later record has it.
pub proof fn lemma_remove_find_from(
    s: Seq<u8>,
    off: int,
    prev: Option<int>,
    name: Seq<u8>,
    q: Seq<u8>,
)
    requires
        0 <= off,
        chain_ok(s, off),
        off < s.len(),
        !(slot_inode(s, off) != 0 && slot_name(s, off) == name),
        find_from(s, off, prev, name) is Some,
    ensures
        ({
            let (pp, at) = find_from(s, off, prev, name)->0;
            let t = removed(s, pp, at);
            let before = find_from(s, off, prev, q);
            let after = find_from(t, off, prev, q);
            &&& off < at
            &&& slot_ok(s, at)
            &&& q != name ==> found_at(after) == found_at(before)
            &&& q != name ==> (before matches Some((_, p)) ==> slot_inode(t, p) == slot_inode(s, p)
                && t[p + 7] == s[p + 7])
            &&& q == name && find_from(s, at + slot_len(s, at), Some(at), name) is None ==> after
                is None
        }),
    decreases s.len() - off,
{
    let (pp, at) = find_from(s, off, prev, name)->0;
    let t = removed(s, pp, at);
    let len = slot_len(s, off);
    let next = off + len;
    lemma_le16_unique(s, off + 4, s, off + 4);
    assert(chain_ok(s, next));
    assert(find_from(s, off, prev, name) == find_from(s, next, Some(off), name));
    assert(next < s.len() && slot_ok(s, next));
    let hit = slot_inode(s, off) != 0 && slot_name(s, off) == q;
    let before = find_from(s, off, prev, q);
    let after = find_from(t, off, prev, q);
    assert(before == if hit {
        Some((prev, off))
    } else {
        find_from(s, next, Some(off), q)
    });
    if slot_inode(s, next) != 0 && slot_name(s, next) == name {
        // The record behind this one goes.
        let gone = slot_len(s, next);
        assert(pp == Some(off) && at == next);
        lemma_le16_unique(s, next + 4, s, next + 4);
        lemma_removed_here(s, Some(off), next);
        assert(chain_ok(s, next + gone));
        lemma_find_tail(s, t, next + gone, Some(next), Some(off), q);
        lemma_find_tail(s, t, next + gone, Some(next), Some(next), q);
        lemma_tail_fields(s, t, next + gone, Some(next), q);
        let rest = find_from(s, next + gone, Some(next), q);
        if q != name {
            assert(find_from(s, next, Some(off), q) == rest);
        }
        if len + gone <= 0xffff {
            assert(after == if hit {
                Some((prev, off))
            } else {
                find_from(t, next + gone, Some(off), q)
            });
        } else {
            assert(find_from(t, next, Some(off), q) == find_from(
                t,
                next + gone,
                Some(next),
                q,
            ));
            assert(after == if hit {
                Some((prev, off))
            } else {
                find_from(t, next, Some(off), q)
            });
        }
    } else {
        lemma_remove_find_from(s, next, Some(off), name, q);
        lemma_remove_sound(s, next, Some(off), name);
        assert(pp matches Some(behind) && next <= behind);
        lemma_slot_kept(s, t, off, pp->0 + 4, at + 4);
        assert(after == if hit {
            Some((prev, off))
        } else {
            find_from(t, next, Some(off), q)
        });
    }
}

/// After a record was removed from a block, every other name stands for
/// what it stood for, and the record's name stands for nothing where no
/// later record has it.
pub proof fn lemma_remove_find(s: Seq<u8>, name: Seq<u8>, q: Seq<u8>)
    requires
        chain_ok(s, 0),
        find_from(s, 0, None, name) is Some,
    ensures
        ({
            let (pp, at) = find_from(s, 0, None, name)->0;
            let t = removed(s, pp, at);
            &&& q != name ==> named(t, q) == named(s, q)
            &&& q == name && find_from(s, at + slot_len(s, at), Some(at), name) is None ==> named(
                t,
                name,
            ) is None
        }),
{
    let (pp, at) = find_from(s, 0, None, name)->0;
    let t = removed(s, pp, at);
    if slot_inode(s, 0) != 0 && slot_name(s, 0) == name {
        let gone = slot_len(s, 0);
        lemma_le16_unique(s, 4, s, 4);
        lemma_removed_here(s, None, 0);
        assert(chain_ok(s, gone));
        lemma_find_tail(s, t, gone, Some(0int), Some(0int), q);
        lemma_tail_fields(s, t, gone, Some(0int), q);
    } else {
        lemma_remove_find_from(s, 0, None, name, q);
    }
}

/// `n` rounded up to a multiple of 4.
pub fn round4(n: usize) -> (r: usize)
    requires
        n <= 0x1_0000,
    ensures
        r == align4(n as int),
        n <= r <= n + 3,
        r % 4 == 0,
{
    (n + 3) / 4 * 4
}

/// Writes a record at `off`: header, then name.
pub fn write_entry(
    block: &mut Vec<u8>,
    off: usize,
    inode: u32,
    len: u16,
    file_type: u8,
    name: &[u8],
)
    requires
        off + 8 + name@.len() <= old(block)@.len(),
        name@.len() <= 255,
    ensures
        final(block)@ == with_entry(
            old(block)@,
            off as int,
            inode,
            len as int,
            file_type,
            name@,
        ),
        final(block)@.len() == old(block)@.len(),
{
    let n = block.len();
    write_u32(block, off, inode);
    write_u16(block, off + 4, len);
    block[off + 6] = name.len() as u8;
    block[off + 7] = file_type;
    copy_into(block, off + 8, name);
}

/// Puts an entry into the first record of the block that has room for it.
///
/// An unused slot is taken whole; a live record is cut down to what its own
/// name needs and the new entry gets the rest. `NotFound` for inode 0,
/// `CorruptLayout` where the records do not form a sound chain, `NoSpace` where
/// no record has room. A failure changes nothing.
pub fn insert(block: &mut Vec<u8>, name: &[u8], inode: u32, file_type: u8) -> (r: Result<
    (),
    Ext2Error,
>)
    requires
        name@.len() <= 255,
    ensures
        final(block)@.len() == old(block)@.len(),
        match r {
            Ok(_) => {
                &&& inode != 0
                &&& chain_ok(old(block)@, 0)
                &&& first_fit(old(block)@, 0, align4(8 + name@.len() as int)) matches Some(at)
                &&& final(block)@ == inserted(old(block)@, at, inode, file_type, name@)
                &&& chain_ok(final(block)@, 0)
            },
            Err(Ext2Error::NotFound) => inode == 0 && final(block)@ == old(block)@,
            Err(Ext2Error::CorruptLayout) => inode != 0 && !chain_ok(old(block)@, 0)
                && final(block)@ == old(block)@,
            Err(Ext2Error::NoSpace) => inode != 0 && chain_ok(old(block)@, 0) && first_fit(
                old(block)@,
                0,
                align4(8 + name@.len() as int),
            ) is None && final(block)@ == old(block)@,
            Err(_) => false,
        },
{
    if inode == 0 {
        return Err(Ext2Error::NotFound);
    }
    if !check_chain(block.as_slice()) {
        return Err(Ext2Error::CorruptLayout);
    }
    let n = block.len();
    let needed = round4(8 + name.len());
    let mut off: usize = 0;
    while off < n
        invariant
            off <= n,
            n == block@.len(),
            block@ == old(block)@,
            name@.len() <= 255,
            inode != 0,
            needed == align4(8 + name@.len() as int),
            chain_ok(block@, 0),
            chain_ok(block@, off as int),
            first_fit(block@, 0, needed as int) == first_fit(block@, off as int, needed as int),
        decreases n - off,
    {
        let len = read_u16(block.as_slice(), off + 4);
        let occupant = read_u32(block.as_slice(), off);
        let used = if occupant == 0 {
            0
        } else {
            round4(8 + block[off + 6] as usize)
        };
        if len as usize - used >= needed {
            proof {
                lemma_insert_sound(old(block)@, 0, off as int, inode, file_type, name@);
                lemma_le16_unique(block@, off + 4, block@, off + 4);
            }
            if occupant == 0 {
                write_entry(block, off, inode, len, file_type, name);
            } else {
                write_u16(block, off + 4, used as u16);
                write_entry(block, off + used, inode, len - used as u16, file_type, name);
            }
            return Ok(());
        }
        off = off + len as usize;
    }
    Err(Ext2Error::NoSpace)
}

/// Whether the `len` bytes of `block` from `off` on are the bytes of `name`.
pub fn same_bytes(block: &[u8], off: usize, len: usize, name: &[u8]) -> (same: bool)
    requires
        off + len <= block@.len(),
    ensures
        same == (block@.subrange(off as int, off + len) == name@),
{
    let n = block.len();
    if name.len() != len {
        return false;
    }
    let mut i: usize = 0;
    while i < len
        invariant
            i <= len,
            off + len <= n,
            n == block@.len(),
            len == name@.len(),
            forall|j: int| 0 <= j < i ==> block@[off + j] == name@[j],
        decreases len - i,
    {
        if block[off + i] != name[i] {
            assert(block@.subrange(off as int, off + len)[i as int] != name@[i as int]);
            return false;
        }
        i = i + 1;
    }
    assert(block@.subrange(off as int, off + len) =~= name@);
    true
}

/// The first live record of the block that has the name: its inode, the code
/// of its type and where it starts. `CorruptLayout` where the records do not
/// form a sound chain.
pub fn find(block: &[u8], name: &[u8]) -> (r: Result<Option<(u32, u8, usize)>, Ext2Error>)
    ensures
        match r {
            Ok(found) => chain_ok(block@, 0) && match find_from(block@, 0, None, name@) {
                Some((_, at)) => found == Some(
                    (slot_inode(block@, at) as u32, block@[at + 7], at as usize),
                ) && 0 <= at && at + 8 <= block@.len() && slot_inode(block@, at) != 0,
                None => found is None,
            },
            Err(e) => e == Ext2Error::CorruptLayout && !chain_ok(block@, 0),
        },
{
    if !check_chain(block) {
        return Err(Ext2Error::CorruptLayout);
    }
    let n = block.len();
    let mut off: usize = 0;
    let ghost mut prev: Option<int> = None;
    while off < n
        invariant
            off <= n,
            n == block@.len(),
            chain_ok(block@, 0),
            chain_ok(block@, off as int),
            find_from(block@, 0, None, name@) == find_from(block@, off as int, prev, name@),
        decreases n - off,
    {
        let len = read_u16(block, off + 4);
        let occupant = read_u32(block, off);
        if occupant != 0 && same_bytes(block, off + 8, block[off + 6] as usize, name) {
            proof {
                lemma_le32_unique(block@, off as int, block@, off as int);
            }
            return Ok(Some((occupant, block[off + 7], off)));
        }
        proof {
            prev = Some(off as int);
        }
        off = off + len as usize;
    }
    Ok(None)
}

/// Removes the first live record that has the name.
///
/// Its inode field becomes zero and its length is added to the record before
/// it in the block, if there is one. `CorruptLayout` where the records do not
/// form a sound chain, `NotFound` where no live record has the name. A failure
/// changes nothing.
pub fn remove(block: &mut Vec<u8>, name: &[u8]) -> (r: Result<(), Ext2Error>)
    ensures
        final(block)@.len() == old(block)@.len(),
        match r {
            Ok(_) => {
                &&& chain_ok(old(block)@, 0)
                &&& find_from(old(block)@, 0, None, name@) matches Some((prev, at))
                &&& final(block)@ == removed(old(block)@, prev, at)
                &&& chain_ok(final(block)@, 0)
            },
            Err(Ext2Error::CorruptLayout) => !chain_ok(old(block)@, 0) && final(block)@
                == old(block)@,
            Err(Ext2Error::NotFound) => chain_ok(old(block)@, 0) && find_from(
                old(block)@,
                0,
                None,
                name@,
            ) is None && final(block)@ == old(block)@,
            Err(_) => false,
        },
{
    if !check_chain(block.as_slice()) {
        return Err(Ext2Error::CorruptLayout);
    }
    let n = block.len();
    let mut prev: Option<usize> = None;
    let mut off: usize = 0;
    while off < n
        invariant
            off <= n,
            n == block@.len(),
            block@ == old(block)@,
            chain_ok(block@, 0),
            chain_ok(block@, off as int),
            match prev {
                Some(p) => p < off && slot_ok(block@, p as int) && p + slot_len(block@, p as int)
                    == off,
                None => off == 0,
            },
            find_from(block@, 0, None, name@) == find_from(
                block@,
                off as int,
                match prev {
                    Some(p) => Some(p as int),
                    None => None,
                },
                name@,
            ),
        decreases n - off,
    {
        let len = read_u16(block.as_slice(), off + 4);
        let occupant = read_u32(block.as_slice(), off);
        if occupant != 0 && same_bytes(block.as_slice(), off + 8, block[off + 6] as usize, name) {
            proof {
                lemma_remove_sound(old(block)@, 0, None, name@);
                lemma_le16_unique(block@, off + 4, block@, off + 4);
            }
            match prev {
                Some(p) => {
                    let before = read_u16(block.as_slice(), p + 4);
                    proof {
                        lemma_le16_unique(block@, p + 4, block@, p + 4);
                    }
                    write_u32(block, off, 0);
                    if before as u32 + len as u32 <= 0xffff {
                        write_u16(block, p + 4, before + len);
                    }
                },
                None => {
                    write_u32(block, off, 0);
                },
            }
            return Ok(());
        }
        prev = Some(off);
        off = off + len as usize;
    }
    Err(Ext2Error::NotFound)
}

/// An empty directory block of `size` bytes: zeros but for the length field
/// of its one record, which spans the block.
pub open spec fn vacant_block(size: int) -> Seq<u8> {
    put16(Seq::new(size as nat, |i: int| 0u8), 4, size)
}

/// An empty block has room for any name: its one record is an unused slot
/// that spans it.
pub proof fn lemma_vacant_has_room(size: int, len: int)
    requires
        1024 <= size <= 0xfffc,
        size % 4 == 0,
        0 <= len <= 255,
    ensures
        chain_ok(vacant_block(size), 0),
        first_fit(vacant_block(size), 0, align4(8 + len)) == Some(0int),
{
    let zeros = Seq::new(size as nat, |i: int| 0u8);
    lemma_put16(zeros, 4, size);
    let s = vacant_block(size);
    assert(slot_inode(s, 0) == 0);
    assert(slot_ok(s, 0));
    assert(chain_ok(s, size));
}

/// An empty directory block of `size` bytes: one unused slot that spans it.
pub fn empty_block(size: usize) -> (block: Vec<u8>)
    requires
        8 <= size <= 0xfffc,
        size % 4 == 0,
    ensures
        block@ == vacant_block(size as int),
        block@.len() == size,
        chain_ok(block@, 0),
        entries_from(block@, 0) == Seq::<EntryView>::empty(),
        slot_inode(block@, 0) == 0,
        slot_len(block@, 0) == size,
{
    let mut block = crate::bytes::zeroed(size);
    assert(block@ =~= Seq::new(size as nat, |i: int| 0u8));
    write_u16(&mut block, 4, size as u16);
    proof {
        assert(slot_ok(block@, 0));
        assert(chain_ok(block@, size as int));
        assert(entries_from(block@, size as int) =~= Seq::<EntryView>::empty());
    }
    block
}

} // verus!
